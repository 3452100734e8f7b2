//! Versioned-code ledger and lifecycle manager for chain shards ("paras").
//!
//! The crate tracks, for every registered para, which validation code is
//! authoritative at any past, current, or near-future chain height; lets a
//! para schedule a code upgrade that takes effect only once one of its own
//! blocks confirms past a target height; prunes superseded code once the
//! challenge window has elapsed; and admits or retires paras at session
//! boundaries. All state lives in a single [`state::Paras`] value, mutated
//! only through its per-block and per-session entry points, so that replaying
//! the same sequence of calls always yields the same state.

use vstd::prelude::*;

pub mod meta;
pub mod ordered;
pub mod state;
pub mod vecmap;

verus! {

/// Identifier of a para (chain shard).
pub type ParaId = u64;

/// A height of the host chain; strictly increasing, one per block.
pub type BlockNumber = u64;

/// Validation code of a para: an opaque blob of bytes.
pub type ValidationCode = Vec<u8>;

/// Head data of a para: an opaque blob of bytes.
pub type HeadData = Vec<u8>;

} // verus!
