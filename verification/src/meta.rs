//! Per-para historical-code ledger.
//!
//! [`ParaPastCodeMeta`] records, most recent first, the heights at which a
//! para's validation code was replaced, together with the host-chain heights
//! at which each replacement was durably observed. It answers which code
//! version was in force at a given height and retires entries whose challenge
//! window has closed.

use vstd::prelude::*;

use crate::BlockNumber;

verus! {

/// Which code should be used to validate at a queried height.
#[derive(Debug, Clone, Copy, PartialEq, Eq)]
pub enum UseCodeAt {
    /// Use the para's current code.
    Current,
    /// Use the code that was replaced at the given height.
    ReplacedAt(BlockNumber),
}

/// Ledger of past code replacements of one para.
///
/// `upgrade_times` holds `(replaced_at, included_at)` pairs, most recent
/// first; well-formed ledgers are strictly descending in both components at
/// once. `last_pruned` is the highest `replaced_at` among entries already
/// retired, if any.
#[derive(Debug, Clone, PartialEq, Eq)]
pub struct ParaPastCodeMeta {
    /// Heights where code was replaced, and the heights at which each
    /// replacement was observed on the host chain, most recent first.
    pub upgrade_times: Vec<(BlockNumber, BlockNumber)>,
    /// The highest `replaced_at` among entries already retired, if any.
    pub last_pruned: Option<BlockNumber>,
}

/// The entries are strictly descending in both components at once.
pub open spec fn times_descending(ts: Seq<(BlockNumber, BlockNumber)>) -> bool {
    forall|i: int, j: int|
        0 <= i < j < ts.len() ==> ts[i].0 > ts[j].0 && ts[i].1 > ts[j].1
}

/// Every remaining entry was replaced after the highest pruned height.
pub open spec fn above_last_pruned(
    ts: Seq<(BlockNumber, BlockNumber)>,
    lp: Option<BlockNumber>,
) -> bool {
    match lp {
        Some(l) => forall|i: int| 0 <= i < ts.len() ==> (#[trigger] ts[i]).0 > l,
        None => true,
    }
}

/// Well-formedness of a ledger: both invariants above.
pub open spec fn meta_wf(m: ParaPastCodeMeta) -> bool {
    &&& times_descending(m.upgrade_times@)
    &&& above_last_pruned(m.upgrade_times@, m.last_pruned)
}

/// A new replacement `(at, included_at)` arrives monotonically: both heights
/// are beyond everything the ledger has recorded so far.
pub open spec fn can_note(
    ts: Seq<(BlockNumber, BlockNumber)>,
    lp: Option<BlockNumber>,
    at: BlockNumber,
    included_at: BlockNumber,
) -> bool {
    &&& ts.len() > 0 ==> at > ts[0].0 && included_at > ts[0].1
    &&& match lp {
        Some(l) => at > l,
        None => true,
    }
}

/// Index of the first (most recent) entry whose `replaced_at` is strictly
/// below `at`, scanning front to back.
pub open spec fn first_replaced_before(
    ts: Seq<(BlockNumber, BlockNumber)>,
    at: BlockNumber,
) -> Option<int>
    decreases ts.len(),
{
    if ts.len() == 0 {
        None
    } else if ts[0].0 < at {
        Some(0)
    } else {
        match first_replaced_before(ts.drop_first(), at) {
            Some(p) => Some(p + 1),
            None => None,
        }
    }
}

/// Index of the first (most recent) entry whose `included_at` is at or below
/// `max`, scanning front to back.
pub open spec fn first_included_le(
    ts: Seq<(BlockNumber, BlockNumber)>,
    max: BlockNumber,
) -> Option<int>
    decreases ts.len(),
{
    if ts.len() == 0 {
        None
    } else if ts[0].1 <= max {
        Some(0)
    } else {
        match first_included_le(ts.drop_first(), max) {
            Some(p) => Some(p + 1),
            None => None,
        }
    }
}

/// What `code_at` returns: the lookup algorithm of the ledger.
pub open spec fn spec_code_at(m: ParaPastCodeMeta, at: BlockNumber) -> Option<UseCodeAt> {
    let ts = m.upgrade_times@;
    match first_replaced_before(ts, at) {
        Some(p) => if p == 0 {
            Some(UseCodeAt::Current)
        } else {
            Some(UseCodeAt::ReplacedAt(ts[p - 1].0))
        },
        None => {
            let still_known = match m.last_pruned {
                Some(l) => l < at,
                None => true,
            };
            if still_known {
                if ts.len() == 0 {
                    Some(UseCodeAt::Current)
                } else {
                    Some(UseCodeAt::ReplacedAt(ts[ts.len() - 1].0))
                }
            } else {
                None
            }
        },
    }
}

/// The most recent replacement height, if any.
pub open spec fn spec_most_recent_change(m: ParaPastCodeMeta) -> Option<BlockNumber> {
    if m.upgrade_times@.len() == 0 {
        None
    } else {
        Some(m.upgrade_times@[0].0)
    }
}

/// Conversely: an index with the scanned-for property, below which no index
/// has it, is the index the scan finds.
pub proof fn lemma_first_replaced_before_is(
    ts: Seq<(BlockNumber, BlockNumber)>,
    at: BlockNumber,
    p: int,
)
    requires
        0 <= p < ts.len(),
        ts[p].0 < at,
        forall|j: int| 0 <= j < p ==> (#[trigger] ts[j]).0 >= at,
    ensures
        first_replaced_before(ts, at) == Some(p),
    decreases ts.len(),
{
    if p == 0 {
    } else {
        assert forall|j: int| 0 <= j < p - 1 implies (#[trigger] ts.drop_first()[j]).0 >= at by {
            assert(ts.drop_first()[j] == ts[j + 1]);
        }
        assert(ts.drop_first()[p - 1] == ts[p]);
        lemma_first_replaced_before_is(ts.drop_first(), at, p - 1);
    }
}

/// If no entry was replaced before `at`, the scan finds nothing.
pub proof fn lemma_first_replaced_before_none(ts: Seq<(BlockNumber, BlockNumber)>, at: BlockNumber)
    requires
        forall|j: int| 0 <= j < ts.len() ==> (#[trigger] ts[j]).0 >= at,
    ensures
        first_replaced_before(ts, at) is None,
    decreases ts.len(),
{
    if ts.len() > 0 {
        assert forall|j: int| 0 <= j < ts.drop_first().len()
            implies (#[trigger] ts.drop_first()[j]).0 >= at by {
            assert(ts.drop_first()[j] == ts[j + 1]);
        }
        lemma_first_replaced_before_none(ts.drop_first(), at);
    }
}

/// `first_included_le` yields the least index whose `included_at` is at or
/// below `max`, or reports that there is none.
pub proof fn lemma_first_included_le(ts: Seq<(BlockNumber, BlockNumber)>, max: BlockNumber)
    ensures
        match first_included_le(ts, max) {
            Some(p) => 0 <= p < ts.len() && ts[p].1 <= max && forall|j: int|
                0 <= j < p ==> (#[trigger] ts[j]).1 > max,
            None => forall|j: int| 0 <= j < ts.len() ==> (#[trigger] ts[j]).1 > max,
        },
    decreases ts.len(),
{
    if ts.len() == 0 {
    } else if ts[0].1 <= max {
    } else {
        lemma_first_included_le(ts.drop_first(), max);
        assert forall|j: int| 0 <= j < ts.len() && first_included_le(ts, max) is None
            implies (#[trigger] ts[j]).1 > max by {
            if j > 0 {
                assert(ts.drop_first()[j - 1] == ts[j]);
            }
        }
        match first_included_le(ts.drop_first(), max) {
            Some(p) => {
                assert(ts.drop_first()[p] == ts[p + 1]);
                assert forall|j: int| 0 <= j < p + 1 implies (#[trigger] ts[j]).1 > max by {
                    if j > 0 {
                        assert(ts.drop_first()[j - 1] == ts[j]);
                    }
                }
            },
            None => {},
        }
    }
}

/// Conversely: the least index whose `included_at` is at or below `max` is
/// the index the scan finds.
pub proof fn lemma_first_included_le_is(
    ts: Seq<(BlockNumber, BlockNumber)>,
    max: BlockNumber,
    p: int,
)
    requires
        0 <= p < ts.len(),
        ts[p].1 <= max,
        forall|j: int| 0 <= j < p ==> (#[trigger] ts[j]).1 > max,
    ensures
        first_included_le(ts, max) == Some(p),
    decreases ts.len(),
{
    if p == 0 {
    } else {
        assert forall|j: int| 0 <= j < p - 1 implies (#[trigger] ts.drop_first()[j]).1 > max by {
            assert(ts.drop_first()[j] == ts[j + 1]);
        }
        assert(ts.drop_first()[p - 1] == ts[p]);
        lemma_first_included_le_is(ts.drop_first(), max, p - 1);
    }
}

/// If every entry was included after `max`, the scan finds nothing.
pub proof fn lemma_first_included_le_none(ts: Seq<(BlockNumber, BlockNumber)>, max: BlockNumber)
    requires
        forall|j: int| 0 <= j < ts.len() ==> (#[trigger] ts[j]).1 > max,
    ensures
        first_included_le(ts, max) is None,
    decreases ts.len(),
{
    if ts.len() > 0 {
        assert forall|j: int| 0 <= j < ts.drop_first().len()
            implies (#[trigger] ts.drop_first()[j]).1 > max by {
            assert(ts.drop_first()[j] == ts[j + 1]);
        }
        lemma_first_included_le_none(ts.drop_first(), max);
    }
}

impl Default for ParaPastCodeMeta {
    /// An empty ledger: no recorded replacements, nothing pruned.
    fn default() -> (r: Self)
        ensures
            r.upgrade_times@ == Seq::<(BlockNumber, BlockNumber)>::empty(),
            r.last_pruned is None,
    {
        ParaPastCodeMeta { upgrade_times: Vec::new(), last_pruned: None }
    }
}

impl ParaPastCodeMeta {
    /// Record that a replacement occurred at `at` and was observed at
    /// `included_at`: the pair is prepended as the most recent entry.
    /// Monotonic arrival (`can_note`) keeps the ledger well-formed.
    pub fn note_replacement(&mut self, at: BlockNumber, included_at: BlockNumber)
        ensures
            final(self).upgrade_times@ == old(self).upgrade_times@.insert(0, (at, included_at)),
            final(self).last_pruned == old(self).last_pruned,
            meta_wf(*old(self)) && can_note(
                old(self).upgrade_times@,
                old(self).last_pruned,
                at,
                included_at,
            ) ==> meta_wf(*final(self)),
    {
        self.upgrade_times.insert(0, (at, included_at));
        proof {
            let ts0 = old(self).upgrade_times@;
            let ts = self.upgrade_times@;
            if meta_wf(*old(self)) && can_note(ts0, old(self).last_pruned, at, included_at) {
                assert forall|i: int, j: int| 0 <= i < j < ts.len()
                    implies ts[i].0 > ts[j].0 && ts[i].1 > ts[j].1 by {
                    if i == 0 {
                        assert(ts[j] == ts0[j - 1]);
                        if j > 1 {
                            assert(ts0[0].0 > ts0[j - 1].0 && ts0[0].1 > ts0[j - 1].1);
                        }
                    } else {
                        assert(ts[i] == ts0[i - 1]);
                        assert(ts[j] == ts0[j - 1]);
                    }
                }
                assert(above_last_pruned(ts, self.last_pruned)) by {
                    match self.last_pruned {
                        Some(l) => {
                            assert forall|i: int| 0 <= i < ts.len()
                                implies (#[trigger] ts[i]).0 > l by {
                                if i > 0 {
                                    assert(ts[i] == ts0[i - 1]);
                                }
                            }
                        },
                        None => {},
                    }
                }
            }
        }
    }

    /// The height of the code that should be used for validating at `at`:
    /// the current code, a replaced version, or nothing if the version has
    /// been pruned away.
    pub fn code_at(&self, at: BlockNumber) -> (r: Option<UseCodeAt>)
        ensures
            r == spec_code_at(*self, at),
    {
        let ghost ts = self.upgrade_times@;
        let n = self.upgrade_times.len();
        let mut i: usize = 0;
        let mut found: bool = false;
        while i < n && !found
            invariant
                n == ts.len(),
                0 <= i <= n,
                found ==> i < n && ts[i as int].0 < at,
                forall|j: int| 0 <= j < i ==> (#[trigger] ts[j]).0 >= at,
                self.upgrade_times@ == ts,
            decreases n - i + (if found { 0int } else { 1int }),
        {
            if self.upgrade_times[i].0 < at {
                found = true;
            } else {
                i = i + 1;
            }
        }
        if found {
            proof {
                lemma_first_replaced_before_is(ts, at, i as int);
            }
            if i != 0 {
                Some(UseCodeAt::ReplacedAt(self.upgrade_times[i - 1].0))
            } else {
                Some(UseCodeAt::Current)
            }
        } else {
            proof {
                lemma_first_replaced_before_none(ts, at);
            }
            let known = match self.last_pruned {
                Some(l) => l < at,
                None => true,
            };
            if known {
                if self.upgrade_times.len() == 0 {
                    Some(UseCodeAt::Current)
                } else {
                    Some(UseCodeAt::ReplacedAt(self.upgrade_times[self.upgrade_times.len() - 1].0))
                }
            } else {
                None
            }
        }
    }

    /// The most recent replacement height the ledger still records, if any.
    pub fn most_recent_change(&self) -> (r: Option<BlockNumber>)
        ensures
            r == spec_most_recent_change(*self),
    {
        if self.upgrade_times.len() > 0 {
            Some(self.upgrade_times[0].0)
        } else {
            None
        }
    }

    /// Retire every entry whose `included_at` is at or below `max`: the first
    /// such entry and everything older are removed, `last_pruned` becomes the
    /// `replaced_at` of the most recent removed entry, and the removed
    /// `replaced_at` heights are returned oldest first. A no-op if no entry
    /// qualifies.
    pub fn prune_up_to(&mut self, max: BlockNumber) -> (r: Vec<BlockNumber>)
        ensures
            ({
                let ts = old(self).upgrade_times@;
                match first_included_le(ts, max) {
                    None => *final(self) == *old(self) && r@ == Seq::<BlockNumber>::empty(),
                    Some(p) => {
                        &&& final(self).upgrade_times@ == ts.take(p)
                        &&& final(self).last_pruned == Some(ts[p].0)
                        &&& r@.len() == ts.len() - p
                        &&& forall|k: int|
                            0 <= k < r@.len() ==> r@[k] == (#[trigger] ts[ts.len() - 1 - k]).0
                    },
                }
            }),
    {
        let ghost ts = self.upgrade_times@;
        let n = self.upgrade_times.len();
        let mut i: usize = 0;
        let mut found: bool = false;
        while i < n && !found
            invariant
                n == ts.len(),
                0 <= i <= n,
                found ==> i < n && ts[i as int].1 <= max,
                forall|j: int| 0 <= j < i ==> (#[trigger] ts[j]).1 > max,
                self.upgrade_times@ == ts,
                self.last_pruned == old(self).last_pruned,
            decreases n - i + (if found { 0int } else { 1int }),
        {
            if self.upgrade_times[i].1 <= max {
                found = true;
            } else {
                i = i + 1;
            }
        }
        if !found {
            proof {
                lemma_first_included_le_none(ts, max);
            }
            return Vec::new();
        }
        proof {
            lemma_first_included_le_is(ts, max, i as int);
        }
        self.last_pruned = Some(self.upgrade_times[i].0);
        let mut r: Vec<BlockNumber> = Vec::new();
        while self.upgrade_times.len() > i
            invariant
                i <= self.upgrade_times.len() <= ts.len(),
                self.upgrade_times@ == ts.take(self.upgrade_times@.len() as int),
                self.last_pruned == Some(ts[i as int].0),
                r@.len() == ts.len() - self.upgrade_times@.len(),
                forall|k: int| 0 <= k < r@.len() ==> r@[k] == (#[trigger] ts[ts.len() - 1 - k]).0,
            decreases self.upgrade_times.len(),
        {
            let ghost m = self.upgrade_times@.len() as int;
            let entry = self.upgrade_times.pop().unwrap();
            proof {
                assert(ts.take(m).last() == ts[m - 1]);
                assert(ts.take(m).drop_last() =~= ts.take(m - 1));
            }
            r.push(entry.0);
        }
        proof {
            assert(self.upgrade_times@ =~= ts.take(i as int));
        }
        r
    }
}

/// Pruning monotonicity: entries removed by `prune_up_to(max)` all have
/// `included_at <= max`, and the new `last_pruned` is the largest removed
/// `replaced_at`.
pub proof fn lemma_prune_bounds(ts: Seq<(BlockNumber, BlockNumber)>, max: BlockNumber)
    requires
        times_descending(ts),
    ensures
        match first_included_le(ts, max) {
            Some(p) => {
                &&& forall|i: int| p <= i < ts.len() ==> (#[trigger] ts[i]).1 <= max
                &&& forall|i: int| p < i < ts.len() ==> (#[trigger] ts[i]).0 < ts[p].0
            },
            None => true,
        },
{
    lemma_first_included_le(ts, max);
}

/// Pruning is idempotent: after `prune_up_to(max)`, a second pruning with
/// the same or a smaller bound removes nothing.
pub proof fn lemma_prune_idempotent(
    ts: Seq<(BlockNumber, BlockNumber)>,
    max: BlockNumber,
    max2: BlockNumber,
)
    requires
        max2 <= max,
    ensures
        match first_included_le(ts, max) {
            Some(p) => first_included_le(ts.take(p), max2) is None,
            None => first_included_le(ts, max2) is None,
        },
{
    lemma_first_included_le(ts, max);
    match first_included_le(ts, max) {
        Some(p) => {
            assert forall|j: int| 0 <= j < ts.take(p).len()
                implies (#[trigger] ts.take(p)[j]).1 > max2 by {
                assert(ts.take(p)[j] == ts[j]);
            }
            lemma_first_included_le_none(ts.take(p), max2);
        },
        None => {
            lemma_first_included_le_none(ts, max2);
        },
    }
}

/// Pruned-height contract: once `last_pruned` is `L`, lookups at any height
/// at or below `L` report that the code is unknown.
pub proof fn lemma_pruned_lookup_unknown(m: ParaPastCodeMeta, l: BlockNumber, at: BlockNumber)
    requires
        meta_wf(m),
        m.last_pruned == Some(l),
        at <= l,
    ensures
        spec_code_at(m, at) is None,
{
    let ts = m.upgrade_times@;
    assert forall|j: int| 0 <= j < ts.len() implies (#[trigger] ts[j]).0 >= at by {
        assert(ts[j].0 > l);
    }
    lemma_first_replaced_before_none(ts, at);
}

/// Pruning preserves well-formedness of the ledger.
pub proof fn lemma_prune_preserves_wf(
    ts: Seq<(BlockNumber, BlockNumber)>,
    lp: Option<BlockNumber>,
    max: BlockNumber,
    p: int,
)
    requires
        times_descending(ts),
        above_last_pruned(ts, lp),
        first_included_le(ts, max) == Some(p),
    ensures
        times_descending(ts.take(p)),
        above_last_pruned(ts.take(p), Some(ts[p].0)),
{
    lemma_first_included_le(ts, max);
    assert forall|i: int, j: int| 0 <= i < j < ts.take(p).len()
        implies ts.take(p)[i].0 > ts.take(p)[j].0 && ts.take(p)[i].1 > ts.take(p)[j].1 by {
        assert(ts.take(p)[i] == ts[i]);
        assert(ts.take(p)[j] == ts[j]);
    }
    assert forall|i: int| 0 <= i < ts.take(p).len()
        implies (#[trigger] ts.take(p)[i]).0 > ts[p].0 by {
        assert(ts.take(p)[i] == ts[i]);
    }
}

} // verus!

