//! The core state object: per-block and per-session entry points.
//!
//! [`Paras`] owns every table of the ledger and lifecycle manager and is
//! mutated only through the hooks here: the per-block pruning hook, the
//! per-head-advance upgrade hook, and the per-session admission/retirement
//! hook. Replaying the same calls always produces the same state.

use vstd::prelude::*;

use crate::meta::{
    can_note, first_included_le, meta_wf, spec_code_at, ParaPastCodeMeta, UseCodeAt,
};
use crate::ordered::{
    ordered_insert, ordered_insert_spec, ordered_remove, ordered_remove_spec, strictly_sorted,
};
use crate::vecmap::{PairMap, VecMap};
use crate::{BlockNumber, HeadData, ParaId, ValidationCode};

verus! {

/// Arguments for initializing a para.
pub struct ParaGenesisArgs {
    /// The initial head data to use.
    pub genesis_head: HeadData,
    /// The initial validation code to use.
    pub validation_code: ValidationCode,
    /// True if the para occupies a persistent slot (chain-like), false if it
    /// is thread-like.
    pub parachain: bool,
}

/// How many storage entries an operation read and wrote; the host prices
/// these however it likes. Correctness never depends on these counts.
#[derive(Debug, Clone, Copy, PartialEq, Eq, Structural)]
pub struct OperationCost {
    /// Entries read.
    pub reads: u64,
    /// Entries written.
    pub writes: u64,
}

/// The whole state of the ledger and lifecycle manager.
pub struct Paras {
    /// Challenge-window length: how long after inclusion a block can still
    /// be disputed.
    pub acceptance_period: BlockNumber,
    /// All chain-like paras, ascending. Thread-like paras are not included.
    pub parachains: Vec<ParaId>,
    /// The head data of every registered para.
    pub heads: VecMap<HeadData>,
    /// The validation code of every live para.
    pub current_code: VecMap<ValidationCode>,
    /// Actual past code, keyed by para and the height at which it was
    /// replaced.
    pub past_code: PairMap<ValidationCode>,
    /// The past-code ledger of every para that has one.
    pub past_code_meta: VecMap<ParaPastCodeMeta>,
    /// Which paras have past code awaiting pruning, with the height at which
    /// the replacement was observed; ascending by that height, several
    /// entries per para permitted.
    pub past_code_pruning: Vec<(ParaId, BlockNumber)>,
    /// The height at which each para's planned code change is expected.
    pub future_code_upgrades: VecMap<BlockNumber>,
    /// The actual future code of each para with a planned change.
    pub future_code: VecMap<ValidationCode>,
    /// Paras awaiting activation at the next session boundary, ascending.
    pub upcoming_paras: Vec<ParaId>,
    /// Genesis arguments of the paras awaiting activation.
    pub upcoming_paras_genesis: VecMap<ParaGenesisArgs>,
    /// Paras to be cleaned up at the next session boundary, ascending.
    pub outgoing_paras: Vec<ParaId>,
}

/// The replacement entries recorded for `id`, most recent first; empty if
/// the para has no ledger.
pub open spec fn meta_times(s: Paras, id: ParaId) -> Seq<(BlockNumber, BlockNumber)> {
    if s.past_code_meta@.contains_key(id) {
        s.past_code_meta@[id].upgrade_times@
    } else {
        Seq::empty()
    }
}

/// The highest pruned replacement height recorded for `id`, if any.
pub open spec fn meta_last_pruned(s: Paras, id: ParaId) -> Option<BlockNumber> {
    if s.past_code_meta@.contains_key(id) {
        s.past_code_meta@[id].last_pruned
    } else {
        None
    }
}

/// The pruning queue is ascending by observation height.
pub open spec fn queue_sorted(q: Seq<(ParaId, BlockNumber)>) -> bool {
    forall|i: int, j: int| 0 <= i < j < q.len() ==> (#[trigger] q[i]).1 <= (#[trigger] q[j]).1
}

/// Where an entry observed at `n` belongs in the ascending queue `q`: after
/// every entry observed at or before `n`.
pub open spec fn queue_insert_pos(q: Seq<(ParaId, BlockNumber)>, n: BlockNumber) -> int
    decreases q.len(),
{
    if q.len() == 0 {
        0
    } else if q[0].1 > n {
        0
    } else {
        1 + queue_insert_pos(q.drop_first(), n)
    }
}

/// The queue after enqueueing `(id, n)` at its sorted position.
pub open spec fn queue_insert_spec(
    q: Seq<(ParaId, BlockNumber)>,
    id: ParaId,
    n: BlockNumber,
) -> Seq<(ParaId, BlockNumber)> {
    q.insert(queue_insert_pos(q, n), (id, n))
}

/// If every queued entry was observed at or before `n`, the sorted position
/// of a new entry observed at `n` is the end of the queue.
pub proof fn lemma_queue_append(q: Seq<(ParaId, BlockNumber)>, n: BlockNumber)
    requires
        forall|i: int| 0 <= i < q.len() ==> (#[trigger] q[i]).1 <= n,
    ensures
        queue_insert_pos(q, n) == q.len(),
    decreases q.len(),
{
    if q.len() > 0 {
        assert forall|i: int| 0 <= i < q.drop_first().len()
            implies (#[trigger] q.drop_first()[i]).1 <= n by {
            assert(q.drop_first()[i] == q[i + 1]);
        }
        lemma_queue_append(q.drop_first(), n);
    }
}

/// Enqueue `(id, n)` into the ascending queue at its sorted position.
fn queue_insert(q: &mut Vec<(ParaId, BlockNumber)>, id: ParaId, n: BlockNumber)
    requires
        queue_sorted(old(q)@),
    ensures
        final(q)@ == queue_insert_spec(old(q)@, id, n),
        queue_sorted(final(q)@),
{
    let ghost s = q@;
    let len = q.len();
    let mut i: usize = 0;
    while i < len && q[i].1 <= n
        invariant
            len == s.len(),
            q@ == s,
            0 <= i <= len,
            forall|j: int| 0 <= j < i ==> (#[trigger] s[j]).1 <= n,
        decreases len - i,
    {
        i = i + 1;
    }
    proof {
        lemma_queue_insert_pos_is(s, n, i as int);
    }
    q.insert(i, (id, n));
    proof {
        let t = q@;
        assert forall|a: int, b: int| 0 <= a < b < t.len()
            implies (#[trigger] t[a]).1 <= (#[trigger] t[b]).1 by {
            let ai = if a < i as int { s[a] } else if a == i as int { (id, n) } else { s[a - 1] };
            let bi = if b < i as int { s[b] } else if b == i as int { (id, n) } else { s[b - 1] };
            assert(t[a] == ai);
            assert(t[b] == bi);
        }
    }
}

/// The first index whose observation height is above `n` is the sorted
/// position.
proof fn lemma_queue_insert_pos_is(q: Seq<(ParaId, BlockNumber)>, n: BlockNumber, p: int)
    requires
        0 <= p <= q.len(),
        forall|j: int| 0 <= j < p ==> (#[trigger] q[j]).1 <= n,
        p < q.len() ==> q[p].1 > n,
    ensures
        queue_insert_pos(q, n) == p,
    decreases q.len(),
{
    if q.len() == 0 {
    } else if p == 0 {
    } else {
        assert(q[0].1 <= n);
        assert forall|j: int| 0 <= j < p - 1 implies (#[trigger] q.drop_first()[j]).1 <= n by {
            assert(q.drop_first()[j] == q[j + 1]);
        }
        if p - 1 < q.drop_first().len() {
            assert(q.drop_first()[p - 1] == q[p]);
        }
        lemma_queue_insert_pos_is(q.drop_first(), n, p - 1);
    }
}

/// Copy a byte blob.
fn copy_bytes(v: &Vec<u8>) -> (r: Vec<u8>)
    ensures
        r@ == v@,
{
    let mut r: Vec<u8> = Vec::new();
    let mut i: usize = 0;
    while i < v.len()
        invariant
            0 <= i <= v@.len(),
            r@ == v@.take(i as int),
        decreases v@.len() - i,
    {
        r.push(v[i]);
        proof {
            assert(v@.take(i + 1).drop_last() =~= v@.take(i as int));
            assert(r@ =~= v@.take(i + 1));
        }
        i = i + 1;
    }
    proof {
        assert(v@.take(v@.len() as int) =~= v@);
    }
    r
}

/// Copy a vector of identifiers.
fn copy_ids(v: &Vec<ParaId>) -> (r: Vec<ParaId>)
    ensures
        r@ == v@,
{
    let mut r: Vec<ParaId> = Vec::new();
    let mut i: usize = 0;
    while i < v.len()
        invariant
            0 <= i <= v@.len(),
            r@ == v@.take(i as int),
        decreases v@.len() - i,
    {
        r.push(v[i]);
        proof {
            assert(v@.take(i + 1).drop_last() =~= v@.take(i as int));
            assert(r@ =~= v@.take(i + 1));
        }
        i = i + 1;
    }
    proof {
        assert(v@.take(v@.len() as int) =~= v@);
    }
    r
}

/// The head and code tables a genesis configuration produces; later entries
/// for the same para win.
pub open spec fn genesis_heads(s: Seq<(ParaId, ParaGenesisArgs)>) -> Map<ParaId, HeadData>
    decreases s.len(),
{
    if s.len() == 0 {
        Map::empty()
    } else {
        genesis_heads(s.drop_last()).insert(s.last().0, s.last().1.genesis_head)
    }
}

/// The code table a genesis configuration produces; later entries for the
/// same para win.
pub open spec fn genesis_codes(s: Seq<(ParaId, ParaGenesisArgs)>) -> Map<ParaId, ValidationCode>
    decreases s.len(),
{
    if s.len() == 0 {
        Map::empty()
    } else {
        genesis_codes(s.drop_last()).insert(s.last().0, s.last().1.validation_code)
    }
}

/// A pending upgrade for `id` exists and its target height has been reached
/// by the confirming context.
pub open spec fn upgrade_applies(s: Paras, id: ParaId, ctx: BlockNumber) -> bool {
    s.future_code_upgrades@.contains_key(id) && s.future_code_upgrades@[id] <= ctx
}

/// Both states hold the same tables.
pub open spec fn same_state(a: Paras, b: Paras) -> bool {
    &&& a.acceptance_period == b.acceptance_period
    &&& a.parachains@ == b.parachains@
    &&& a.heads@ == b.heads@
    &&& a.current_code@ == b.current_code@
    &&& a.past_code@ == b.past_code@
    &&& a.past_code_meta@ == b.past_code_meta@
    &&& a.past_code_pruning@ == b.past_code_pruning@
    &&& a.future_code_upgrades@ == b.future_code_upgrades@
    &&& a.future_code@ == b.future_code@
    &&& a.upcoming_paras@ == b.upcoming_paras@
    &&& a.upcoming_paras_genesis@ == b.upcoming_paras_genesis@
    &&& a.outgoing_paras@ == b.outgoing_paras@
}

/// The ledger entries left after retiring everything observed at or below
/// `ph`.
pub open spec fn pruned_times(
    ts: Seq<(BlockNumber, BlockNumber)>,
    ph: BlockNumber,
) -> Seq<(BlockNumber, BlockNumber)> {
    match first_included_le(ts, ph) {
        None => ts,
        Some(p) => ts.take(p),
    }
}

/// The highest pruned replacement height after retiring everything observed
/// at or below `ph`.
pub open spec fn pruned_last(
    ts: Seq<(BlockNumber, BlockNumber)>,
    lp: Option<BlockNumber>,
    ph: BlockNumber,
) -> Option<BlockNumber> {
    match first_included_le(ts, ph) {
        None => lp,
        Some(p) => Some(ts[p].0),
    }
}

/// The replacement heights that retiring everything observed at or below
/// `ph` removes from a ledger.
pub open spec fn removed_heights(
    ts: Seq<(BlockNumber, BlockNumber)>,
    ph: BlockNumber,
) -> Set<BlockNumber> {
    Set::new(
        |h: BlockNumber|
            match first_included_le(ts, ph) {
                None => false,
                Some(p) => exists|i: int| p <= i < ts.len() && (#[trigger] ts[i]).0 == h,
            },
    )
}

/// The archive keys of `id` that pruning its ledger up to `ph` deletes.
pub open spec fn removed_code_keys(
    ts: Seq<(BlockNumber, BlockNumber)>,
    ph: BlockNumber,
    id: ParaId,
) -> Set<(ParaId, BlockNumber)> {
    Set::new(|key: (ParaId, BlockNumber)| key.0 == id && removed_heights(ts, ph).contains(key.1))
}

/// How many queued retirement tasks were observed at or below `ph`: the
/// length of the prefix the per-block hook pops.
pub open spec fn prune_prefix_len(q: Seq<(ParaId, BlockNumber)>, ph: BlockNumber) -> int
    decreases q.len(),
{
    if q.len() == 0 {
        0
    } else if q[0].1 > ph {
        0
    } else {
        1 + prune_prefix_len(q.drop_first(), ph)
    }
}

/// The count of entries observed at or below `ph` is the longest such
/// prefix.
proof fn lemma_prune_prefix_len_is(q: Seq<(ParaId, BlockNumber)>, ph: BlockNumber, k: int)
    requires
        0 <= k <= q.len(),
        forall|j: int| 0 <= j < k ==> (#[trigger] q[j]).1 <= ph,
        k < q.len() ==> q[k].1 > ph,
    ensures
        prune_prefix_len(q, ph) == k,
    decreases q.len(),
{
    if q.len() == 0 {
    } else if k == 0 {
    } else {
        assert(q[0].1 <= ph);
        assert forall|j: int| 0 <= j < k - 1 implies (#[trigger] q.drop_first()[j]).1 <= ph by {
            assert(q.drop_first()[j] == q[j + 1]);
        }
        if k - 1 < q.drop_first().len() {
            assert(q.drop_first()[k - 1] == q[k]);
        }
        lemma_prune_prefix_len_is(q.drop_first(), ph, k - 1);
    }
}

/// The paras named in the first `k` entries of the retirement queue.
pub open spec fn popped_ids(q: Seq<(ParaId, BlockNumber)>, k: int) -> Set<ParaId> {
    Set::new(|id: ParaId| exists|i: int| 0 <= i < k && (#[trigger] q[i]).0 == id)
}

/// All archive keys the per-block hook deletes when it pops `k` tasks with
/// pruning bound `ph`.
pub open spec fn pruned_code_keys(pre: Paras, k: int, ph: BlockNumber) -> Set<
    (ParaId, BlockNumber),
> {
    Set::new(
        |key: (ParaId, BlockNumber)|
            popped_ids(pre.past_code_pruning@, k).contains(key.0) && removed_heights(
                meta_times(pre, key.0),
                ph,
            ).contains(key.1),
    )
}

/// The ledger table entry of `id` is the same in both states.
pub open spec fn meta_unchanged(pre: Paras, post: Paras, id: ParaId) -> bool {
    &&& post.past_code_meta@.contains_key(id) == pre.past_code_meta@.contains_key(id)
    &&& pre.past_code_meta@.contains_key(id) ==> post.past_code_meta@[id]
        == pre.past_code_meta@[id]
}

/// The ledger of `id` in `post` is the ledger of `pre` pruned up to `ph`,
/// and was dropped entirely if that left it empty while the para has no
/// head.
pub open spec fn meta_pruned_to(pre: Paras, post: Paras, id: ParaId, ph: BlockNumber) -> bool {
    let ts = meta_times(pre, id);
    let ts2 = pruned_times(ts, ph);
    let dead = ts2.len() == 0 && !pre.heads@.contains_key(id);
    &&& (dead ==> !post.past_code_meta@.contains_key(id))
    &&& (!dead ==> post.past_code_meta@.contains_key(id) && post.past_code_meta@[id].upgrade_times@
        == ts2 && post.past_code_meta@[id].last_pruned == pruned_last(
        ts,
        meta_last_pruned(pre, id),
        ph,
    ))
}

/// One pass of the pruning loop keeps its accumulated description intact:
/// processing the `t`-th queued task extends the popped set by that task's
/// para and leaves every other ledger as it was.
proof fn lemma_pruning_loop_step(
    pre: Paras,
    cur: Paras,
    post: Paras,
    ph: BlockNumber,
    t: int,
    id: ParaId,
)
    requires
        0 <= t < pre.past_code_pruning@.len(),
        id == pre.past_code_pruning@[t].0,
        cur.heads@ == pre.heads@,
        post.heads@ == cur.heads@,
        forall|x: ParaId|
            !popped_ids(pre.past_code_pruning@, t).contains(x) ==> #[trigger] meta_unchanged(
                pre,
                cur,
                x,
            ),
        forall|x: ParaId| #[trigger]
            popped_ids(pre.past_code_pruning@, t).contains(x) ==> meta_pruned_to(pre, cur, x, ph),
        cur.past_code@ == pre.past_code@.remove_keys(pruned_code_keys(pre, t, ph)),
        ({
            let ts = meta_times(cur, id);
            let ts2 = pruned_times(ts, ph);
            let dead = ts2.len() == 0 && !cur.heads@.contains_key(id);
            &&& (dead ==> post.past_code_meta@ == cur.past_code_meta@.remove(id))
            &&& (!dead ==> post.past_code_meta@ == cur.past_code_meta@.insert(
                id,
                post.past_code_meta@[id],
            ) && post.past_code_meta@[id].upgrade_times@ == ts2
                && post.past_code_meta@[id].last_pruned == pruned_last(
                ts,
                meta_last_pruned(cur, id),
                ph,
            ))
            &&& post.past_code@ == cur.past_code@.remove_keys(removed_code_keys(ts, ph, id))
        }),
    ensures
        forall|x: ParaId|
            !popped_ids(pre.past_code_pruning@, t + 1).contains(x) ==> #[trigger] meta_unchanged(
                pre,
                post,
                x,
            ),
        forall|x: ParaId| #[trigger]
            popped_ids(pre.past_code_pruning@, t + 1).contains(x) ==> meta_pruned_to(
                pre,
                post,
                x,
                ph,
            ),
        post.past_code@ == pre.past_code@.remove_keys(pruned_code_keys(pre, t + 1, ph)),
{
    let q = pre.past_code_pruning@;
    let ts_pre = meta_times(pre, id);
    let ts_cur = meta_times(cur, id);
    assert(popped_ids(q, t + 1).contains(id));
    assert forall|x: ParaId| popped_ids(q, t).contains(x)
        implies popped_ids(q, t + 1).contains(x) by {
        let i = choose|i: int| 0 <= i < t && (#[trigger] q[i]).0 == x;
        assert(0 <= i < t + 1 && q[i].0 == x);
    }
    assert forall|x: ParaId| popped_ids(q, t + 1).contains(x) && x != id
        implies popped_ids(q, t).contains(x) by {
        let i = choose|i: int| 0 <= i < t + 1 && (#[trigger] q[i]).0 == x;
        assert(i != t);
    }
    let repeat = popped_ids(q, t).contains(id);
    if repeat {
        assert(meta_pruned_to(pre, cur, id, ph));
        let ts2_pre = pruned_times(ts_pre, ph);
        let dead_pre = ts2_pre.len() == 0 && !pre.heads@.contains_key(id);
        if dead_pre {
            assert(!cur.past_code_meta@.contains_key(id));
            assert(ts_cur == Seq::<(BlockNumber, BlockNumber)>::empty());
            assert(first_included_le(ts_cur, ph) is None);
            assert(pruned_times(ts_cur, ph).len() == 0);
            assert(!post.past_code_meta@.contains_key(id));
            assert(meta_pruned_to(pre, post, id, ph));
            assert(removed_heights(ts_cur, ph) =~= Set::<BlockNumber>::empty());
            assert(removed_code_keys(ts_cur, ph, id) =~= Set::<(ParaId, BlockNumber)>::empty());
            assert(post.past_code@ =~= cur.past_code@);
        } else {
            assert(cur.past_code_meta@.contains_key(id));
            assert(ts_cur == ts2_pre);
            assert(first_included_le(ts_cur, ph) is None) by {
                crate::meta::lemma_first_included_le(ts_pre, ph);
                match first_included_le(ts_pre, ph) {
                    Some(p) => {
                        assert forall|j: int| 0 <= j < ts_cur.len()
                            implies (#[trigger] ts_cur[j]).1 > ph by {
                            assert(ts_cur[j] == ts_pre[j]);
                        }
                        crate::meta::lemma_first_included_le_none(ts_cur, ph);
                    },
                    None => {
                        crate::meta::lemma_first_included_le_none(ts_cur, ph);
                    },
                }
            }
            assert(pruned_times(ts_cur, ph) == ts_cur);
            if pruned_times(ts_cur, ph).len() == 0 {
                assert(ts2_pre.len() == 0);
                assert(pre.heads@.contains_key(id));
            }
            assert(!(pruned_times(ts_cur, ph).len() == 0 && !cur.heads@.contains_key(id)));
            assert(post.past_code_meta@.contains_key(id));
            assert(post.past_code_meta@[id].upgrade_times@ == ts_cur);
            assert(post.past_code_meta@[id].last_pruned == meta_last_pruned(cur, id));
            assert(meta_pruned_to(pre, post, id, ph));
            assert(removed_heights(ts_cur, ph) =~= Set::<BlockNumber>::empty());
            assert(removed_code_keys(ts_cur, ph, id) =~= Set::<(ParaId, BlockNumber)>::empty());
            assert(post.past_code@ =~= cur.past_code@);
        }
        assert(pruned_code_keys(pre, t + 1, ph) =~= pruned_code_keys(pre, t, ph)) by {
            assert forall|key: (ParaId, BlockNumber)|
                pruned_code_keys(pre, t + 1, ph).contains(key)
                implies pruned_code_keys(pre, t, ph).contains(key) by {
                if key.0 == id {
                } else {
                    assert(popped_ids(q, t).contains(key.0));
                }
            }
        }
        assert(post.past_code@ =~= pre.past_code@.remove_keys(pruned_code_keys(pre, t + 1, ph)));
    } else {
        assert(meta_unchanged(pre, cur, id));
        assert(ts_cur == ts_pre);
        assert(meta_last_pruned(cur, id) == meta_last_pruned(pre, id));
        assert(meta_pruned_to(pre, post, id, ph));
        assert(pruned_code_keys(pre, t + 1, ph) =~= pruned_code_keys(pre, t, ph).union(
            removed_code_keys(ts_pre, ph, id),
        )) by {
            assert forall|key: (ParaId, BlockNumber)|
                pruned_code_keys(pre, t + 1, ph).contains(key)
                implies pruned_code_keys(pre, t, ph).union(
                removed_code_keys(ts_pre, ph, id),
            ).contains(key) by {
                if key.0 != id {
                    assert(popped_ids(q, t).contains(key.0));
                }
            }
        }
        assert(post.past_code@ =~= pre.past_code@.remove_keys(pruned_code_keys(pre, t + 1, ph)));
    }
    assert forall|x: ParaId| !popped_ids(q, t + 1).contains(x)
        implies #[trigger] meta_unchanged(pre, post, x) by {
        assert(x != id);
        assert(!popped_ids(q, t).contains(x));
        assert(meta_unchanged(pre, cur, x));
        assert(post.past_code_meta@.contains_key(x) == cur.past_code_meta@.contains_key(x));
        if cur.past_code_meta@.contains_key(x) {
            assert(post.past_code_meta@[x] == cur.past_code_meta@[x]);
        }
    }
    assert forall|x: ParaId| #[trigger] popped_ids(q, t + 1).contains(x) && x != id
        implies meta_pruned_to(pre, post, x, ph) by {
        assert(popped_ids(q, t).contains(x));
        assert(meta_pruned_to(pre, cur, x, ph));
        assert(post.past_code_meta@.contains_key(x) == cur.past_code_meta@.contains_key(x));
        if cur.past_code_meta@.contains_key(x) {
            assert(post.past_code_meta@[x] == cur.past_code_meta@[x]);
        }
    }
}

/// What the per-block pruning hook does to the state: nothing while the
/// chain is younger than the challenge window; otherwise it pops every
/// queued retirement task observed at or below `now - acceptance_period - 1`,
/// prunes the ledger of each popped para up to that bound, deletes the
/// archived code of every retired entry, and drops a ledger that is left
/// empty for a para that no longer has a head.
pub open spec fn pruning_step(pre: Paras, post: Paras, now: BlockNumber, c: OperationCost) -> bool {
    if now <= pre.acceptance_period {
        same_state(post, pre) && c.reads == 1 && c.writes == 0
    } else {
        let ph = (now - pre.acceptance_period - 1) as BlockNumber;
        let q = pre.past_code_pruning@;
        let k = prune_prefix_len(q, ph);
        &&& post.past_code_pruning@ == q.skip(k)
        &&& post.acceptance_period == pre.acceptance_period
        &&& post.parachains@ == pre.parachains@
        &&& post.heads@ == pre.heads@
        &&& post.current_code@ == pre.current_code@
        &&& post.future_code_upgrades@ == pre.future_code_upgrades@
        &&& post.future_code@ == pre.future_code@
        &&& post.upcoming_paras@ == pre.upcoming_paras@
        &&& post.upcoming_paras_genesis@ == pre.upcoming_paras_genesis@
        &&& post.outgoing_paras@ == pre.outgoing_paras@
        &&& forall|id: ParaId|
            !popped_ids(q, k).contains(id) ==> #[trigger] meta_unchanged(pre, post, id)
        &&& forall|id: ParaId| #[trigger]
            popped_ids(q, k).contains(id) ==> meta_pruned_to(pre, post, id, ph)
        &&& post.past_code@ == pre.past_code@.remove_keys(pruned_code_keys(pre, k, ph))
        &&& c.reads == (if k + 1 <= u64::MAX { (k + 1) as u64 } else { u64::MAX })
        &&& c.writes == (if 2 * k <= u64::MAX { (2 * k) as u64 } else { u64::MAX })
    }
}

/// The members of `s`, as a set.
pub open spec fn ids_set(s: Seq<ParaId>) -> Set<ParaId> {
    Set::new(|x: ParaId| s.contains(x))
}

/// `id` is admitted at the session boundary: it is queued and its genesis
/// arguments are present.
pub open spec fn admitted(pre: Paras, id: ParaId) -> bool {
    pre.upcoming_paras@.contains(id) && pre.upcoming_paras_genesis@.contains_key(id)
}

/// `id` is admitted as a chain-like para.
pub open spec fn admitted_parachain(pre: Paras, id: ParaId) -> bool {
    admitted(pre, id) && pre.upcoming_paras_genesis@[id].parachain
}

/// The heads the session boundary sets from genesis arguments.
pub open spec fn admitted_heads(pre: Paras) -> Map<ParaId, HeadData> {
    Map::new(|id: ParaId| admitted(pre, id), |id: ParaId| pre.upcoming_paras_genesis@[id].genesis_head)
}

/// The code the session boundary sets from genesis arguments.
pub open spec fn admitted_codes(pre: Paras) -> Map<ParaId, ValidationCode> {
    Map::new(
        |id: ParaId| admitted(pre, id),
        |id: ParaId| pre.upcoming_paras_genesis@[id].validation_code,
    )
}

/// The archive entries the session boundary creates: the current code of
/// every departing para that has one, keyed by `(id, now)`.
pub open spec fn retired_codes(pre: Paras, now: BlockNumber) -> Map<
    (ParaId, BlockNumber),
    ValidationCode,
> {
    Map::new(
        |key: (ParaId, BlockNumber)|
            key.1 == now && pre.outgoing_paras@.contains(key.0) && pre.current_code@.contains_key(
                key.0,
            ),
        |key: (ParaId, BlockNumber)| pre.current_code@[key.0],
    )
}

/// The retirement tasks the session boundary appends to the pruning queue:
/// one `(id, now)` per departing para that held code, in queue order.
pub open spec fn retired_seq(
    ids: Seq<ParaId>,
    cc: Map<ParaId, ValidationCode>,
    now: BlockNumber,
) -> Seq<(ParaId, BlockNumber)>
    decreases ids.len(),
{
    if ids.len() == 0 {
        Seq::empty()
    } else {
        (if cc.contains_key(ids[0]) {
            seq![(ids[0], now)]
        } else {
            Seq::empty()
        }) + retired_seq(ids.drop_first(), cc, now)
    }
}

/// `retired_seq` grows at the back as its id sequence does.
proof fn lemma_retired_seq_snoc(ids: Seq<ParaId>, cc: Map<ParaId, ValidationCode>, now: BlockNumber)
    requires
        ids.len() > 0,
    ensures
        retired_seq(ids, cc, now) == retired_seq(ids.drop_last(), cc, now) + (if cc.contains_key(
            ids.last(),
        ) {
            seq![(ids.last(), now)]
        } else {
            Seq::empty()
        }),
    decreases ids.len(),
{
    if ids.len() == 1 {
        assert(ids.drop_last() =~= Seq::<ParaId>::empty());
        assert(ids.drop_first() =~= Seq::<ParaId>::empty());
        assert(retired_seq(ids.drop_last(), cc, now) == Seq::<(ParaId, BlockNumber)>::empty());
        assert(retired_seq(ids, cc, now) =~= retired_seq(ids.drop_last(), cc, now) + (
        if cc.contains_key(ids.last()) {
            seq![(ids.last(), now)]
        } else {
            Seq::empty()
        }));
    } else {
        lemma_retired_seq_snoc(ids.drop_first(), cc, now);
        assert(ids.drop_first().drop_last() =~= ids.drop_last().drop_first());
        assert(ids.drop_first().last() == ids.last());
        assert(ids.drop_last()[0] == ids[0]);
        assert(ids.drop_last().len() > 0);
        assert(retired_seq(ids, cc, now) =~= retired_seq(ids.drop_last(), cc, now) + (
        if cc.contains_key(ids.last()) {
            seq![(ids.last(), now)]
        } else {
            Seq::empty()
        }));
    }
}

/// Extending a prefix of `s` by one element extends its membership by that
/// element.
proof fn lemma_take_snoc_contains(s: Seq<ParaId>, t: int)
    requires
        0 <= t < s.len(),
    ensures
        forall|x: ParaId| #[trigger]
            s.take(t + 1).contains(x) <==> s.take(t).contains(x) || x == s[t],
{
    assert forall|x: ParaId| #[trigger] s.take(t + 1).contains(x)
        implies s.take(t).contains(x) || x == s[t] by {
        let w = choose|w: int| 0 <= w < t + 1 && #[trigger] s.take(t + 1)[w] == x;
        if w < t {
            assert(s.take(t)[w] == x);
        }
    }
    assert forall|x: ParaId| s.take(t).contains(x) || x == s[t]
        implies #[trigger] s.take(t + 1).contains(x) by {
        if s.take(t).contains(x) {
            let w = choose|w: int| 0 <= w < t && #[trigger] s.take(t)[w] == x;
            assert(s.take(t + 1)[w] == x);
        } else {
            assert(s.take(t + 1)[t] == x);
        }
    }
}

/// The ledger of `id` in `post` is that of `pre` with a replacement at
/// `now`, observed at `now`, recorded at the front.
pub open spec fn meta_noted(pre: Paras, post: Paras, id: ParaId, now: BlockNumber) -> bool {
    &&& post.past_code_meta@.contains_key(id)
    &&& post.past_code_meta@[id].upgrade_times@ == meta_times(pre, id).insert(0, (now, now))
    &&& post.past_code_meta@[id].last_pruned == meta_last_pruned(pre, id)
}

/// What the session-boundary hook does to the state: every departing para
/// is removed from the active set, loses its head, pending upgrade and
/// current code, and its current code (if any) is archived at `now` with a
/// retirement task appended; then every admitted para gets its genesis head
/// and code, chain-like ones joining the active set. Departures are fully
/// processed before admissions.
pub open spec fn session_step(pre: Paras, post: Paras, now: BlockNumber) -> bool {
    let out = pre.outgoing_paras@;
    let up = pre.upcoming_paras@;
    &&& post.acceptance_period == pre.acceptance_period
    &&& post.outgoing_paras@ == Seq::<ParaId>::empty()
    &&& post.upcoming_paras@ == Seq::<ParaId>::empty()
    &&& post.upcoming_paras_genesis@ == pre.upcoming_paras_genesis@.remove_keys(ids_set(up))
    &&& strictly_sorted(post.parachains@)
    &&& forall|x: ParaId| #[trigger]
        post.parachains@.contains(x) <==> (pre.parachains@.contains(x) && !out.contains(x))
            || admitted_parachain(pre, x)
    &&& post.heads@ == pre.heads@.remove_keys(ids_set(out)).union_prefer_right(admitted_heads(pre))
    &&& post.current_code@ == pre.current_code@.remove_keys(ids_set(out)).union_prefer_right(
        admitted_codes(pre),
    )
    &&& post.future_code_upgrades@ == pre.future_code_upgrades@.remove_keys(ids_set(out))
    &&& post.future_code@ == pre.future_code@.remove_keys(ids_set(out))
    &&& forall|id: ParaId|
        out.contains(id) && pre.current_code@.contains_key(id) ==> #[trigger] meta_noted(
            pre,
            post,
            id,
            now,
        )
    &&& forall|id: ParaId|
        !(out.contains(id) && pre.current_code@.contains_key(id)) ==> #[trigger] meta_unchanged(
            pre,
            post,
            id,
        )
    &&& post.past_code@ == pre.past_code@.union_prefer_right(retired_codes(pre, now))
    &&& post.past_code_pruning@ == pre.past_code_pruning@ + retired_seq(
        out,
        pre.current_code@,
        now,
    )
}

/// The lookup verdict of the ledger of `id` at height `at`; a para without
/// a ledger validates with its current code.
pub open spec fn spec_lookup(s: Paras, id: ParaId, at: BlockNumber) -> Option<UseCodeAt> {
    if s.past_code_meta@.contains_key(id) {
        spec_code_at(s.past_code_meta@[id], at)
    } else {
        Some(UseCodeAt::Current)
    }
}

/// What `validation_code_at` returns, as bytes: nothing if the intermediate
/// assumption is not before `at` or if `at` is outside the replay window;
/// the pending code if the assumed intermediate block would have applied the
/// pending upgrade; otherwise whatever the ledger's verdict maps to.
pub open spec fn spec_validation_code_at(
    s: Paras,
    id: ParaId,
    at: BlockNumber,
    assume_intermediate: Option<BlockNumber>,
    now: BlockNumber,
) -> Option<Seq<u8>> {
    if (match assume_intermediate {
        Some(i) => at <= i,
        None => false,
    }) {
        None
    } else if at + s.acceptance_period + 1 < now {
        None
    } else {
        let applied = match assume_intermediate {
            Some(a) => upgrade_applies(s, id, a),
            None => false,
        };
        if applied {
            if s.future_code@.contains_key(id) {
                Some(s.future_code@[id]@)
            } else {
                Some(Seq::empty())
            }
        } else {
            match spec_lookup(s, id, at) {
                None => None,
                Some(UseCodeAt::Current) => if s.current_code@.contains_key(id) {
                    Some(s.current_code@[id]@)
                } else {
                    None
                },
                Some(UseCodeAt::ReplacedAt(rep)) => if s.past_code@.contains_key((id, rep)) {
                    Some(s.past_code@[(id, rep)]@)
                } else {
                    None
                },
            }
        }
    }
}

impl Paras {
    /// Every ordered table is ordered and every ledger is well-formed.
    pub open spec fn wf(self) -> bool {
        &&& strictly_sorted(self.parachains@)
        &&& strictly_sorted(self.upcoming_paras@)
        &&& strictly_sorted(self.outgoing_paras@)
        &&& queue_sorted(self.past_code_pruning@)
        &&& forall|id: ParaId|
            self.past_code_meta@.contains_key(id) ==> meta_wf(#[trigger] self.past_code_meta@[id])
    }

    /// The genesis state: the chain-like paras of the configuration form the
    /// active set, every configured para gets its genesis head and code, and
    /// all queues and ledgers start empty.
    pub fn genesis(acceptance_period: BlockNumber, paras: Vec<(ParaId, ParaGenesisArgs)>) -> (r:
        Paras)
        ensures
            r.wf(),
            r.acceptance_period == acceptance_period,
            forall|x: ParaId|
                #[trigger] r.parachains@.contains(x) <==> exists|i: int|
                    0 <= i < paras@.len() && (#[trigger] paras@[i]).0 == x && paras@[i].1.parachain,
            r.heads@ == genesis_heads(paras@),
            r.current_code@ == genesis_codes(paras@),
            r.past_code@ == Map::<(ParaId, BlockNumber), ValidationCode>::empty(),
            r.past_code_meta@ == Map::<ParaId, ParaPastCodeMeta>::empty(),
            r.past_code_pruning@ == Seq::<(ParaId, BlockNumber)>::empty(),
            r.future_code_upgrades@ == Map::<ParaId, BlockNumber>::empty(),
            r.future_code@ == Map::<ParaId, ValidationCode>::empty(),
            r.upcoming_paras@ == Seq::<ParaId>::empty(),
            r.upcoming_paras_genesis@ == Map::<ParaId, ParaGenesisArgs>::empty(),
            r.outgoing_paras@ == Seq::<ParaId>::empty(),
    {
        let mut parachains: Vec<ParaId> = Vec::new();
        let mut i: usize = 0;
        while i < paras.len()
            invariant
                0 <= i <= paras@.len(),
                strictly_sorted(parachains@),
                forall|x: ParaId|
                    #[trigger] parachains@.contains(x) <==> exists|j: int|
                        0 <= j < i && (#[trigger] paras@[j]).0 == x && paras@[j].1.parachain,
            decreases paras@.len() - i,
        {
            if paras[i].1.parachain {
                ordered_insert(&mut parachains, paras[i].0);
            }
            i = i + 1;
        }
        let mut r = Paras {
            acceptance_period,
            parachains,
            heads: VecMap::new(),
            current_code: VecMap::new(),
            past_code: PairMap::new(),
            past_code_meta: VecMap::new(),
            past_code_pruning: Vec::new(),
            future_code_upgrades: VecMap::new(),
            future_code: VecMap::new(),
            upcoming_paras: Vec::new(),
            upcoming_paras_genesis: VecMap::new(),
            outgoing_paras: Vec::new(),
        };
        let ghost s = paras@;
        let mut paras = paras;
        let ghost mut j: int = 0;
        while paras.len() > 0
            invariant
                0 <= j <= s.len(),
                paras@ == s.skip(j),
                r.heads@ == genesis_heads(s.take(j)),
                r.current_code@ == genesis_codes(s.take(j)),
                r.acceptance_period == acceptance_period,
                r.parachains@ == parachains@,
                strictly_sorted(r.parachains@),
                r.past_code@ == Map::<(ParaId, BlockNumber), ValidationCode>::empty(),
                r.past_code_meta@ == Map::<ParaId, ParaPastCodeMeta>::empty(),
                r.past_code_pruning@ == Seq::<(ParaId, BlockNumber)>::empty(),
                r.future_code_upgrades@ == Map::<ParaId, BlockNumber>::empty(),
                r.future_code@ == Map::<ParaId, ValidationCode>::empty(),
                r.upcoming_paras@ == Seq::<ParaId>::empty(),
                r.upcoming_paras_genesis@ == Map::<ParaId, ParaGenesisArgs>::empty(),
                r.outgoing_paras@ == Seq::<ParaId>::empty(),
            decreases paras@.len(),
        {
            let entry = paras.remove(0);
            proof {
                assert(entry == s[j]);
                assert(paras@ =~= s.skip(j + 1));
            }
            let (id, args) = entry;
            r.heads.insert(id, args.genesis_head);
            r.current_code.insert(id, args.validation_code);
            proof {
                assert(s.take(j + 1).drop_last() =~= s.take(j));
                assert(s.take(j + 1).last() == s[j]);
                assert(r.heads@ == genesis_heads(s.take(j + 1)));
                assert(r.current_code@ == genesis_codes(s.take(j + 1)));
            }
            proof {
                j = j + 1;
            }
        }
        proof {
            assert(s.take(s.len() as int) =~= s);
        }
        r
    }

    /// Record that the code of `id` was replaced at `at`, observed at `now`,
    /// and that the replaced bytes were `old_code`: the ledger gets a new
    /// front entry, the bytes are archived under `(id, at)`, and pruning of
    /// the archive is scheduled for when the challenge window after `now`
    /// closes.
    pub fn note_past_code(
        &mut self,
        id: ParaId,
        at: BlockNumber,
        now: BlockNumber,
        old_code: ValidationCode,
    ) -> (c: OperationCost)
        requires
            old(self).wf(),
            can_note(meta_times(*old(self), id), meta_last_pruned(*old(self), id), at, now),
        ensures
            final(self).wf(),
            final(self).past_code_meta@ == old(self).past_code_meta@.insert(
                id,
                final(self).past_code_meta@[id],
            ),
            final(self).past_code_meta@[id].upgrade_times@ == meta_times(*old(self), id).insert(
                0,
                (at, now),
            ),
            final(self).past_code_meta@[id].last_pruned == meta_last_pruned(*old(self), id),
            final(self).past_code@ == old(self).past_code@.insert((id, at), old_code),
            final(self).past_code_pruning@ == queue_insert_spec(
                old(self).past_code_pruning@,
                id,
                now,
            ),
            final(self).acceptance_period == old(self).acceptance_period,
            final(self).parachains@ == old(self).parachains@,
            final(self).heads@ == old(self).heads@,
            final(self).current_code@ == old(self).current_code@,
            final(self).future_code_upgrades@ == old(self).future_code_upgrades@,
            final(self).future_code@ == old(self).future_code@,
            final(self).upcoming_paras@ == old(self).upcoming_paras@,
            final(self).upcoming_paras_genesis@ == old(self).upcoming_paras_genesis@,
            final(self).outgoing_paras@ == old(self).outgoing_paras@,
            c.reads == 2 && c.writes == 3,
    {
        let mut meta = match self.past_code_meta.remove(id) {
            Some(m) => m,
            None => ParaPastCodeMeta::default(),
        };
        proof {
            assert(meta_wf(meta));
            assert(meta.upgrade_times@ == meta_times(*old(self), id));
            assert(meta.last_pruned == meta_last_pruned(*old(self), id));
        }
        meta.note_replacement(at, now);
        self.past_code_meta.insert(id, meta);
        proof {
            assert(self.past_code_meta@ =~= old(self).past_code_meta@.insert(id, meta));
        }
        self.past_code.insert((id, at), old_code);
        queue_insert(&mut self.past_code_pruning, id, now);
        proof {
            assert forall|x: ParaId| self.past_code_meta@.contains_key(x)
                implies meta_wf(#[trigger] self.past_code_meta@[x]) by {
                if x != id {
                    assert(self.past_code_meta@[x] == old(self).past_code_meta@[x]);
                }
            }
        }
        OperationCost { reads: 2, writes: 3 }
    }

    /// Record a new head for `id`, confirmed in the context of host-chain
    /// height `execution_context`, at current height `now`. If a pending
    /// upgrade's target height has been reached by `execution_context`, the
    /// upgrade is applied: the pending code becomes current and the prior
    /// code is archived at the target height via `note_past_code`. Otherwise
    /// only the head is recorded, and any pending upgrade stays pending.
    pub fn note_new_head(
        &mut self,
        id: ParaId,
        new_head: HeadData,
        execution_context: BlockNumber,
        now: BlockNumber,
    ) -> (c: OperationCost)
        requires
            old(self).wf(),
            upgrade_applies(*old(self), id, execution_context) ==> can_note(
                meta_times(*old(self), id),
                meta_last_pruned(*old(self), id),
                old(self).future_code_upgrades@[id],
                now,
            ),
        ensures
            final(self).wf(),
            final(self).heads@ == old(self).heads@.insert(id, new_head),
            final(self).acceptance_period == old(self).acceptance_period,
            final(self).parachains@ == old(self).parachains@,
            final(self).upcoming_paras@ == old(self).upcoming_paras@,
            final(self).upcoming_paras_genesis@ == old(self).upcoming_paras_genesis@,
            final(self).outgoing_paras@ == old(self).outgoing_paras@,
            !upgrade_applies(*old(self), id, execution_context) ==> ({
                &&& final(self).current_code@ == old(self).current_code@
                &&& final(self).future_code_upgrades@ == old(self).future_code_upgrades@
                &&& final(self).future_code@ == old(self).future_code@
                &&& final(self).past_code@ == old(self).past_code@
                &&& final(self).past_code_meta@ == old(self).past_code_meta@
                &&& final(self).past_code_pruning@ == old(self).past_code_pruning@
                &&& c.reads == 1 && c.writes == 1
            }),
            upgrade_applies(*old(self), id, execution_context) ==> ({
                let expected_at = old(self).future_code_upgrades@[id];
                &&& final(self).future_code_upgrades@ == old(self).future_code_upgrades@.remove(id)
                &&& final(self).future_code@ == old(self).future_code@.remove(id)
                &&& final(self).current_code@ == old(self).current_code@.insert(
                    id,
                    final(self).current_code@[id],
                )
                &&& final(self).current_code@[id]@ == (if old(self).future_code@.contains_key(id) {
                    old(self).future_code@[id]@
                } else {
                    Seq::<u8>::empty()
                })
                &&& final(self).past_code_meta@ == old(self).past_code_meta@.insert(
                    id,
                    final(self).past_code_meta@[id],
                )
                &&& final(self).past_code_meta@[id].upgrade_times@ == meta_times(
                    *old(self),
                    id,
                ).insert(0, (expected_at, now))
                &&& final(self).past_code_meta@[id].last_pruned == meta_last_pruned(*old(self), id)
                &&& final(self).past_code@ == old(self).past_code@.insert(
                    (id, expected_at),
                    final(self).past_code@[(id, expected_at)],
                )
                &&& final(self).past_code@[(id, expected_at)]@ == (if old(self).current_code@.contains_key(id) {
                    old(self).current_code@[id]@
                } else {
                    Seq::<u8>::empty()
                })
                &&& final(self).past_code_pruning@ == queue_insert_spec(
                    old(self).past_code_pruning@,
                    id,
                    now,
                )
                &&& c.reads == 5 && c.writes == 7
            }),
    {
        self.heads.insert(id, new_head);
        let expected = match self.future_code_upgrades.get(id) {
            Some(e) => Some(*e),
            None => None,
        };
        match expected {
            None => OperationCost { reads: 1, writes: 1 },
            Some(expected_at) => {
                if expected_at <= execution_context {
                    self.future_code_upgrades.remove(id);
                    let new_code = match self.future_code.remove(id) {
                        Some(code) => code,
                        None => Vec::new(),
                    };
                    let prior_code = match self.current_code.remove(id) {
                        Some(code) => code,
                        None => Vec::new(),
                    };
                    self.current_code.insert(id, new_code);
                    proof {
                        assert(self.current_code@ =~= old(self).current_code@.insert(
                            id,
                            self.current_code@[id],
                        ));
                    }
                    let _ = self.note_past_code(id, expected_at, now, prior_code);
                    OperationCost { reads: 5, writes: 7 }
                } else {
                    OperationCost { reads: 1, writes: 1 }
                }
            },
        }
    }

    /// Schedule a future code upgrade of para `id`, to be applied once one
    /// of its blocks is confirmed in the context of a host-chain height at
    /// or above `expected_at`. A no-op if an upgrade is already pending:
    /// the first scheduled upgrade wins.
    pub fn schedule_code_upgrade(
        &mut self,
        id: ParaId,
        new_code: ValidationCode,
        expected_at: BlockNumber,
    ) -> (c: OperationCost)
        requires
            old(self).wf(),
        ensures
            final(self).wf(),
            old(self).future_code_upgrades@.contains_key(id) ==> *final(self) == *old(self)
                && c.reads == 1 && c.writes == 0,
            !old(self).future_code_upgrades@.contains_key(id) ==> ({
                &&& final(self).future_code_upgrades@ == old(self).future_code_upgrades@.insert(
                    id,
                    expected_at,
                )
                &&& final(self).future_code@ == old(self).future_code@.insert(id, new_code)
                &&& final(self).acceptance_period == old(self).acceptance_period
                &&& final(self).parachains@ == old(self).parachains@
                &&& final(self).heads@ == old(self).heads@
                &&& final(self).current_code@ == old(self).current_code@
                &&& final(self).past_code@ == old(self).past_code@
                &&& final(self).past_code_meta@ == old(self).past_code_meta@
                &&& final(self).past_code_pruning@ == old(self).past_code_pruning@
                &&& final(self).upcoming_paras@ == old(self).upcoming_paras@
                &&& final(self).upcoming_paras_genesis@ == old(self).upcoming_paras_genesis@
                &&& final(self).outgoing_paras@ == old(self).outgoing_paras@
                &&& c.reads == 1 && c.writes == 2
            }),
    {
        if self.future_code_upgrades.contains_key(id) {
            OperationCost { reads: 1, writes: 0 }
        } else {
            self.future_code_upgrades.insert(id, expected_at);
            self.future_code.insert(id, new_code);
            OperationCost { reads: 1, writes: 2 }
        }
    }

    /// Schedule para `id` to be initialized from `genesis` at the start of
    /// the next session. A no-op (dropping `genesis`) if `id` is already
    /// queued for admission.
    pub fn schedule_para_initialize(&mut self, id: ParaId, genesis: ParaGenesisArgs) -> (c:
        OperationCost)
        requires
            old(self).wf(),
        ensures
            final(self).wf(),
            old(self).upcoming_paras@.contains(id) ==> ({
                &&& final(self).upcoming_paras@ == old(self).upcoming_paras@
                &&& final(self).upcoming_paras_genesis@ == old(self).upcoming_paras_genesis@
                &&& c.reads == 1 && c.writes == 0
            }),
            !old(self).upcoming_paras@.contains(id) ==> ({
                &&& final(self).upcoming_paras@ == ordered_insert_spec(
                    old(self).upcoming_paras@,
                    id,
                )
                &&& final(self).upcoming_paras_genesis@ == old(self).upcoming_paras_genesis@.insert(
                    id,
                    genesis,
                )
                &&& c.reads == 1 && c.writes == 2
            }),
            final(self).acceptance_period == old(self).acceptance_period,
            final(self).parachains@ == old(self).parachains@,
            final(self).heads@ == old(self).heads@,
            final(self).current_code@ == old(self).current_code@,
            final(self).past_code@ == old(self).past_code@,
            final(self).past_code_meta@ == old(self).past_code_meta@,
            final(self).past_code_pruning@ == old(self).past_code_pruning@,
            final(self).future_code_upgrades@ == old(self).future_code_upgrades@,
            final(self).future_code@ == old(self).future_code@,
            final(self).outgoing_paras@ == old(self).outgoing_paras@,
    {
        let inserted = ordered_insert(&mut self.upcoming_paras, id);
        if !inserted {
            OperationCost { reads: 1, writes: 0 }
        } else {
            self.upcoming_paras_genesis.insert(id, genesis);
            OperationCost { reads: 1, writes: 2 }
        }
    }

    /// Schedule para `id` to be cleaned up at the start of the next session.
    /// A no-op if `id` is already queued for retirement.
    pub fn schedule_para_cleanup(&mut self, id: ParaId) -> (c: OperationCost)
        requires
            old(self).wf(),
        ensures
            final(self).wf(),
            final(self).outgoing_paras@ == ordered_insert_spec(old(self).outgoing_paras@, id),
            old(self).outgoing_paras@.contains(id) ==> c.reads == 1 && c.writes == 0,
            !old(self).outgoing_paras@.contains(id) ==> c.reads == 1 && c.writes == 1,
            final(self).acceptance_period == old(self).acceptance_period,
            final(self).parachains@ == old(self).parachains@,
            final(self).heads@ == old(self).heads@,
            final(self).current_code@ == old(self).current_code@,
            final(self).past_code@ == old(self).past_code@,
            final(self).past_code_meta@ == old(self).past_code_meta@,
            final(self).past_code_pruning@ == old(self).past_code_pruning@,
            final(self).future_code_upgrades@ == old(self).future_code_upgrades@,
            final(self).future_code@ == old(self).future_code@,
            final(self).upcoming_paras@ == old(self).upcoming_paras@,
            final(self).upcoming_paras_genesis@ == old(self).upcoming_paras_genesis@,
    {
        let inserted = ordered_insert(&mut self.outgoing_paras, id);
        if inserted {
            OperationCost { reads: 1, writes: 1 }
        } else {
            OperationCost { reads: 1, writes: 0 }
        }
    }

    /// The validation code to use when validating a block of `id` in the
    /// context of host-chain height `at`. `assume_intermediate`, if given,
    /// asks the lookup to proceed as if a block of the para had already been
    /// included with that height as its context; it must be before `at`.
    /// Heights outside the replay window yield nothing.
    pub fn validation_code_at(
        &self,
        id: ParaId,
        at: BlockNumber,
        assume_intermediate: Option<BlockNumber>,
        now: BlockNumber,
    ) -> (r: Option<ValidationCode>)
        ensures
            match r {
                Some(code) => spec_validation_code_at(*self, id, at, assume_intermediate, now)
                    == Some(code@),
                None => spec_validation_code_at(*self, id, at, assume_intermediate, now) is None,
            },
    {
        match assume_intermediate {
            Some(i) => {
                if at <= i {
                    return None;
                }
            },
            None => {},
        }
        if now > self.acceptance_period {
            let cutoff = now - self.acceptance_period - 1;
            if at < cutoff {
                proof {
                    assert(at + self.acceptance_period + 1 < now);
                }
                return None;
            }
        }
        proof {
            assert(!(at + self.acceptance_period + 1 < now));
        }
        let applied = match assume_intermediate {
            Some(a) => match self.future_code_upgrades.get(id) {
                Some(u) => *u <= a,
                None => false,
            },
            None => false,
        };
        if applied {
            match self.future_code.get(id) {
                Some(code) => Some(copy_bytes(code)),
                None => Some(Vec::new()),
            }
        } else {
            let use_code = match self.past_code_meta.get(id) {
                Some(m) => m.code_at(at),
                None => Some(UseCodeAt::Current),
            };
            match use_code {
                None => None,
                Some(UseCodeAt::Current) => match self.current_code.get(id) {
                    Some(code) => Some(copy_bytes(code)),
                    None => None,
                },
                Some(UseCodeAt::ReplacedAt(rep)) => match self.past_code.get((id, rep)) {
                    Some(code) => Some(copy_bytes(code)),
                    None => None,
                },
            }
        }
    }

    /// Prune the ledger of `id` up to `ph`, delete the archived code of
    /// every retired entry, and drop the ledger entirely if it is now empty
    /// and the para has no head.
    fn prune_one(&mut self, id: ParaId, ph: BlockNumber)
        requires
            old(self).wf(),
        ensures
            final(self).wf(),
            ({
                let ts = meta_times(*old(self), id);
                let ts2 = pruned_times(ts, ph);
                let dead = ts2.len() == 0 && !old(self).heads@.contains_key(id);
                &&& (dead ==> final(self).past_code_meta@ == old(self).past_code_meta@.remove(id))
                &&& (!dead ==> final(self).past_code_meta@ == old(self).past_code_meta@.insert(
                    id,
                    final(self).past_code_meta@[id],
                ) && final(self).past_code_meta@[id].upgrade_times@ == ts2 && final(self).past_code_meta@[id].last_pruned == pruned_last(
                    ts,
                    meta_last_pruned(*old(self), id),
                    ph,
                ))
                &&& final(self).past_code@ == old(self).past_code@.remove_keys(
                    removed_code_keys(ts, ph, id),
                )
            }),
            final(self).acceptance_period == old(self).acceptance_period,
            final(self).parachains@ == old(self).parachains@,
            final(self).heads@ == old(self).heads@,
            final(self).current_code@ == old(self).current_code@,
            final(self).past_code_pruning@ == old(self).past_code_pruning@,
            final(self).future_code_upgrades@ == old(self).future_code_upgrades@,
            final(self).future_code@ == old(self).future_code@,
            final(self).upcoming_paras@ == old(self).upcoming_paras@,
            final(self).upcoming_paras_genesis@ == old(self).upcoming_paras_genesis@,
            final(self).outgoing_paras@ == old(self).outgoing_paras@,
    {
        let ghost ts = meta_times(*old(self), id);
        let ghost lp = meta_last_pruned(*old(self), id);
        let mut m = match self.past_code_meta.remove(id) {
            Some(x) => x,
            None => ParaPastCodeMeta::default(),
        };
        proof {
            assert(meta_wf(m));
            assert(m.upgrade_times@ == ts);
            assert(m.last_pruned == lp);
        }
        let removed = m.prune_up_to(ph);
        proof {
            crate::meta::lemma_first_included_le(ts, ph);
        }
        let ghost base = self.past_code@;
        let ghost mid_meta = self.past_code_meta@;
        let mut ridx: usize = 0;
        while ridx < removed.len()
            invariant
                0 <= ridx <= removed@.len(),
                self.past_code@ == base.remove_keys(
                    Set::new(
                        |key: (ParaId, BlockNumber)|
                            key.0 == id && exists|w: int|
                                0 <= w < ridx && removed@[w] == key.1,
                    ),
                ),
                self.past_code_meta@ == mid_meta,
                self.acceptance_period == old(self).acceptance_period,
                self.parachains@ == old(self).parachains@,
                self.heads@ == old(self).heads@,
                self.current_code@ == old(self).current_code@,
                self.past_code_pruning@ == old(self).past_code_pruning@,
                self.future_code_upgrades@ == old(self).future_code_upgrades@,
                self.future_code@ == old(self).future_code@,
                self.upcoming_paras@ == old(self).upcoming_paras@,
                self.upcoming_paras_genesis@ == old(self).upcoming_paras_genesis@,
                self.outgoing_paras@ == old(self).outgoing_paras@,
                strictly_sorted(self.parachains@),
                strictly_sorted(self.upcoming_paras@),
                strictly_sorted(self.outgoing_paras@),
                queue_sorted(self.past_code_pruning@),
                forall|x: ParaId|
                    self.past_code_meta@.contains_key(x) ==> meta_wf(
                        #[trigger] self.past_code_meta@[x],
                    ),
            decreases removed@.len() - ridx,
        {
            let ghost before = self.past_code@;
            self.past_code.remove((id, removed[ridx]));
            proof {
                assert(self.past_code@ =~= base.remove_keys(
                    Set::new(
                        |key: (ParaId, BlockNumber)|
                            key.0 == id && exists|w: int|
                                0 <= w < ridx + 1 && removed@[w] == key.1,
                    ),
                ));
            }
            ridx = ridx + 1;
        }
        proof {
            assert(self.past_code@ =~= base.remove_keys(removed_code_keys(ts, ph, id))) by {
                let done = Set::new(
                    |key: (ParaId, BlockNumber)|
                        key.0 == id && exists|w: int|
                            0 <= w < removed@.len() && removed@[w] == key.1,
                );
                assert forall|key: (ParaId, BlockNumber)| done.contains(key)
                    implies removed_code_keys(ts, ph, id).contains(key) by {
                    let w = choose|w: int| 0 <= w < removed@.len() && removed@[w] == key.1;
                    match first_included_le(ts, ph) {
                        Some(p) => {
                            assert(removed@[w] == ts[ts.len() - 1 - w].0);
                            assert(p <= ts.len() - 1 - w < ts.len());
                        },
                        None => {
                            assert(removed@.len() == 0);
                        },
                    }
                }
                assert forall|key: (ParaId, BlockNumber)|
                    removed_code_keys(ts, ph, id).contains(key) implies done.contains(key) by {
                    match first_included_le(ts, ph) {
                        Some(p) => {
                            let i = choose|i: int| p <= i < ts.len() && (#[trigger] ts[i]).0
                                == key.1;
                            let w = ts.len() - 1 - i;
                            assert(0 <= w < removed@.len());
                            assert(removed@[w] == ts[ts.len() - 1 - w].0);
                        },
                        None => {},
                    }
                }
                assert(done =~= removed_code_keys(ts, ph, id));
            }
        }
        let dead = match m.most_recent_change() {
            Some(_) => false,
            None => !self.heads.contains_key(id),
        };
        if !dead {
            proof {
                match first_included_le(ts, ph) {
                    Some(p) => {
                        crate::meta::lemma_prune_preserves_wf(ts, lp, ph, p);
                    },
                    None => {},
                }
            }
            self.past_code_meta.insert(id, m);
            proof {
                assert forall|x: ParaId| self.past_code_meta@.contains_key(x)
                    implies meta_wf(#[trigger] self.past_code_meta@[x]) by {
                    if x != id {
                        assert(self.past_code_meta@[x] == mid_meta[x]);
                    } else {
                        assert(self.past_code_meta@[x] == m);
                    }
                }
                assert(self.past_code_meta@ =~= old(self).past_code_meta@.insert(id, m));
            }
        } else {
            proof {
                assert(self.past_code_meta@ =~= old(self).past_code_meta@.remove(id));
            }
        }
    }

    /// The per-block pruning pass: see [`pruning_step`].
    fn do_old_code_pruning(&mut self, now: BlockNumber) -> (c: OperationCost)
        requires
            old(self).wf(),
        ensures
            final(self).wf(),
            pruning_step(*old(self), *final(self), now, c),
    {
        if now <= self.acceptance_period {
            return OperationCost { reads: 1, writes: 0 };
        }
        let ph = now - self.acceptance_period - 1;
        let ghost q = self.past_code_pruning@;
        let len = self.past_code_pruning.len();
        let mut k: usize = 0;
        while k < len && self.past_code_pruning[k].1 <= ph
            invariant
                len == q.len(),
                self.past_code_pruning@ == q,
                0 <= k <= len,
                forall|j: int| 0 <= j < k ==> (#[trigger] q[j]).1 <= ph,
            decreases len - k,
        {
            k = k + 1;
        }
        proof {
            lemma_prune_prefix_len_is(q, ph, k as int);
        }
        let mut popped: Vec<(ParaId, BlockNumber)> = Vec::new();
        let mut i: usize = 0;
        while i < k
            invariant
                0 <= i <= k <= len,
                len == q.len(),
                self.past_code_pruning@ == q,
                popped@ == q.take(i as int),
            decreases k - i,
        {
            popped.push(self.past_code_pruning[i]);
            proof {
                assert(q.take(i + 1).drop_last() =~= q.take(i as int));
                assert(popped@ =~= q.take(i + 1));
            }
            i = i + 1;
        }
        let mut rest: Vec<(ParaId, BlockNumber)> = Vec::new();
        let mut j2: usize = k;
        while j2 < len
            invariant
                k <= j2 <= len,
                len == q.len(),
                self.past_code_pruning@ == q,
                rest@ == q.subrange(k as int, j2 as int),
            decreases len - j2,
        {
            rest.push(self.past_code_pruning[j2]);
            proof {
                assert(q.subrange(k as int, j2 + 1).drop_last() =~= q.subrange(
                    k as int,
                    j2 as int,
                ));
                assert(rest@ =~= q.subrange(k as int, j2 + 1));
            }
            j2 = j2 + 1;
        }
        self.past_code_pruning = rest;
        proof {
            assert(self.past_code_pruning@ =~= q.skip(k as int));
            assert(queue_sorted(self.past_code_pruning@)) by {
                assert forall|a: int, b: int| 0 <= a < b < q.skip(k as int).len()
                    implies (#[trigger] q.skip(k as int)[a]).1 <= (#[trigger] q.skip(
                    k as int,
                )[b]).1 by {
                    assert(q.skip(k as int)[a] == q[a + k]);
                    assert(q.skip(k as int)[b] == q[b + k]);
                }
            }
        }
        let ghost pre = *old(self);
        let mut t: usize = 0;
        while t < popped.len()
            invariant
                0 <= t <= popped@.len(),
                0 <= prune_prefix_len(q, ph) <= q.len(),
                popped@ == q.take(prune_prefix_len(q, ph)),
                q == pre.past_code_pruning@,
                pre == *old(self),
                pre.wf(),
                self.wf(),
                self.past_code_pruning@ == q.skip(prune_prefix_len(q, ph)),
                self.acceptance_period == pre.acceptance_period,
                self.parachains@ == pre.parachains@,
                self.heads@ == pre.heads@,
                self.current_code@ == pre.current_code@,
                self.future_code_upgrades@ == pre.future_code_upgrades@,
                self.future_code@ == pre.future_code@,
                self.upcoming_paras@ == pre.upcoming_paras@,
                self.upcoming_paras_genesis@ == pre.upcoming_paras_genesis@,
                self.outgoing_paras@ == pre.outgoing_paras@,
                forall|id: ParaId|
                    !popped_ids(q, t as int).contains(id) ==> #[trigger] meta_unchanged(
                        pre,
                        *self,
                        id,
                    ),
                forall|id: ParaId| #[trigger]
                    popped_ids(q, t as int).contains(id) ==> meta_pruned_to(pre, *self, id, ph),
                self.past_code@ == pre.past_code@.remove_keys(pruned_code_keys(pre, t as int, ph)),
            decreases popped@.len() - t,
        {
            let id = popped[t].0;
            proof {
                assert(popped@[t as int] == q[t as int]);
            }
            let ghost cur = *self;
            self.prune_one(id, ph);
            proof {
                lemma_pruning_loop_step(pre, cur, *self, ph, t as int, id);
            }
            t = t + 1;
        }
        proof {
            assert(popped@.len() == prune_prefix_len(q, ph));
        }
        let kk = k as u64;
        let reads = if kk < u64::MAX {
            kk + 1
        } else {
            u64::MAX
        };
        let writes = if kk <= u64::MAX / 2 {
            2 * kk
        } else {
            u64::MAX
        };
        OperationCost { reads, writes }
    }

    /// The per-block initialization hook: runs the pruning pass at height
    /// `now`. See [`pruning_step`] for the full effect.
    pub fn initializer_initialize(&mut self, now: BlockNumber) -> (c: OperationCost)
        requires
            old(self).wf(),
        ensures
            final(self).wf(),
            pruning_step(*old(self), *final(self), now, c),
    {
        self.do_old_code_pruning(now)
    }

    /// Retire para `id`: remove it from the active set, delete its head and
    /// any pending upgrade, and archive its current code (if any) at `now`.
    fn retire_one(&mut self, id: ParaId, now: BlockNumber)
        requires
            old(self).wf(),
            old(self).current_code@.contains_key(id) ==> can_note(
                meta_times(*old(self), id),
                meta_last_pruned(*old(self), id),
                now,
                now,
            ),
            forall|i: int|
                0 <= i < old(self).past_code_pruning@.len() ==> (#[trigger] old(self).past_code_pruning@[i]).1 <= now,
        ensures
            final(self).wf(),
            final(self).parachains@ == ordered_remove_spec(old(self).parachains@, id),
            final(self).heads@ == old(self).heads@.remove(id),
            final(self).future_code_upgrades@ == old(self).future_code_upgrades@.remove(id),
            final(self).future_code@ == old(self).future_code@.remove(id),
            final(self).current_code@ == old(self).current_code@.remove(id),
            old(self).current_code@.contains_key(id) ==> ({
                &&& final(self).past_code_meta@ == old(self).past_code_meta@.insert(
                    id,
                    final(self).past_code_meta@[id],
                )
                &&& final(self).past_code_meta@[id].upgrade_times@ == meta_times(
                    *old(self),
                    id,
                ).insert(0, (now, now))
                &&& final(self).past_code_meta@[id].last_pruned == meta_last_pruned(
                    *old(self),
                    id,
                )
                &&& final(self).past_code@ == old(self).past_code@.insert(
                    (id, now),
                    old(self).current_code@[id],
                )
                &&& final(self).past_code_pruning@ == old(self).past_code_pruning@.push((id, now))
            }),
            !old(self).current_code@.contains_key(id) ==> ({
                &&& final(self).past_code_meta@ == old(self).past_code_meta@
                &&& final(self).past_code@ == old(self).past_code@
                &&& final(self).past_code_pruning@ == old(self).past_code_pruning@
            }),
            final(self).acceptance_period == old(self).acceptance_period,
            final(self).upcoming_paras@ == old(self).upcoming_paras@,
            final(self).upcoming_paras_genesis@ == old(self).upcoming_paras_genesis@,
            final(self).outgoing_paras@ == old(self).outgoing_paras@,
            forall|i: int|
                0 <= i < final(self).past_code_pruning@.len() ==> (#[trigger] final(self).past_code_pruning@[i]).1 <= now,
    {
        ordered_remove(&mut self.parachains, id);
        self.heads.remove(id);
        self.future_code_upgrades.remove(id);
        self.future_code.remove(id);
        match self.current_code.remove(id) {
            Some(code) => {
                proof {
                    lemma_queue_append(self.past_code_pruning@, now);
                    assert(queue_insert_spec(self.past_code_pruning@, id, now)
                        =~= self.past_code_pruning@.push((id, now)));
                }
                let _ = self.note_past_code(id, now, now, code);
            },
            None => {},
        }
    }

    /// Admit para `id` from its queued genesis arguments: set its head and
    /// current code, and add it to the active set if it is chain-like. A
    /// no-op if no genesis arguments are queued for it.
    fn admit_one(&mut self, id: ParaId)
        requires
            old(self).wf(),
        ensures
            final(self).wf(),
            !old(self).upcoming_paras_genesis@.contains_key(id) ==> same_state(
                *final(self),
                *old(self),
            ),
            old(self).upcoming_paras_genesis@.contains_key(id) ==> ({
                let g = old(self).upcoming_paras_genesis@[id];
                &&& final(self).upcoming_paras_genesis@ == old(self).upcoming_paras_genesis@.remove(id)
                &&& final(self).parachains@ == (if g.parachain {
                    ordered_insert_spec(old(self).parachains@, id)
                } else {
                    old(self).parachains@
                })
                &&& final(self).heads@ == old(self).heads@.insert(id, g.genesis_head)
                &&& final(self).current_code@ == old(self).current_code@.insert(
                    id,
                    g.validation_code,
                )
                &&& final(self).acceptance_period == old(self).acceptance_period
                &&& final(self).past_code@ == old(self).past_code@
                &&& final(self).past_code_meta@ == old(self).past_code_meta@
                &&& final(self).past_code_pruning@ == old(self).past_code_pruning@
                &&& final(self).future_code_upgrades@ == old(self).future_code_upgrades@
                &&& final(self).future_code@ == old(self).future_code@
                &&& final(self).upcoming_paras@ == old(self).upcoming_paras@
                &&& final(self).outgoing_paras@ == old(self).outgoing_paras@
            }),
    {
        match self.upcoming_paras_genesis.remove(id) {
            None => {},
            Some(g) => {
                let ParaGenesisArgs { genesis_head, validation_code, parachain } = g;
                if parachain {
                    ordered_insert(&mut self.parachains, id);
                }
                self.heads.insert(id, genesis_head);
                self.current_code.insert(id, validation_code);
            },
        }
    }

    /// The session-boundary hook at height `now`: retire every para queued
    /// for removal, then admit every para queued for activation. See
    /// [`session_step`] for the full effect.
    pub fn initializer_on_new_session(&mut self, now: BlockNumber)
        requires
            old(self).wf(),
            forall|i: int|
                0 <= i < old(self).outgoing_paras@.len() ==> (old(self).current_code@.contains_key(
                    #[trigger] old(self).outgoing_paras@[i],
                ) ==> can_note(
                    meta_times(*old(self), old(self).outgoing_paras@[i]),
                    meta_last_pruned(*old(self), old(self).outgoing_paras@[i]),
                    now,
                    now,
                )),
            forall|i: int|
                0 <= i < old(self).past_code_pruning@.len() ==> (#[trigger] old(self).past_code_pruning@[i]).1 <= now,
        ensures
            final(self).wf(),
            session_step(*old(self), *final(self), now),
    {
        let ghost pre = *old(self);
        let mut outgoing: Vec<ParaId> = Vec::new();
        core::mem::swap(&mut outgoing, &mut self.outgoing_paras);
        proof {
            assert(outgoing@.take(0) =~= Seq::<ParaId>::empty());
            assert(self.heads@ =~= pre.heads@.remove_keys(ids_set(outgoing@.take(0))));
            assert(self.current_code@ =~= pre.current_code@.remove_keys(
                ids_set(outgoing@.take(0)),
            ));
            assert(self.future_code_upgrades@ =~= pre.future_code_upgrades@.remove_keys(
                ids_set(outgoing@.take(0)),
            ));
            assert(self.future_code@ =~= pre.future_code@.remove_keys(
                ids_set(outgoing@.take(0)),
            ));
            assert(self.past_code@ =~= pre.past_code@.union_prefer_right(
                Map::new(
                    |key: (ParaId, BlockNumber)|
                        key.1 == now && outgoing@.take(0).contains(key.0)
                            && pre.current_code@.contains_key(key.0),
                    |key: (ParaId, BlockNumber)| pre.current_code@[key.0],
                ),
            ));
            assert(self.past_code_pruning@ =~= pre.past_code_pruning@ + retired_seq(
                outgoing@.take(0),
                pre.current_code@,
                now,
            ));
        }
        let mut t: usize = 0;
        while t < outgoing.len()
            invariant
                pre == *old(self),
                pre.wf(),
                forall|i: int|
                    0 <= i < pre.outgoing_paras@.len() ==> (pre.current_code@.contains_key(
                        #[trigger] pre.outgoing_paras@[i],
                    ) ==> can_note(
                        meta_times(pre, pre.outgoing_paras@[i]),
                        meta_last_pruned(pre, pre.outgoing_paras@[i]),
                        now,
                        now,
                    )),
                0 <= t <= outgoing@.len(),
                outgoing@ == pre.outgoing_paras@,
                self.wf(),
                self.acceptance_period == pre.acceptance_period,
                self.outgoing_paras@ == Seq::<ParaId>::empty(),
                self.upcoming_paras@ == pre.upcoming_paras@,
                self.upcoming_paras_genesis@ == pre.upcoming_paras_genesis@,
                strictly_sorted(self.parachains@),
                forall|x: ParaId| #[trigger]
                    self.parachains@.contains(x) <==> pre.parachains@.contains(x) && !outgoing@.take(
                        t as int,
                    ).contains(x),
                self.heads@ == pre.heads@.remove_keys(ids_set(outgoing@.take(t as int))),
                self.current_code@ == pre.current_code@.remove_keys(
                    ids_set(outgoing@.take(t as int)),
                ),
                self.future_code_upgrades@ == pre.future_code_upgrades@.remove_keys(
                    ids_set(outgoing@.take(t as int)),
                ),
                self.future_code@ == pre.future_code@.remove_keys(
                    ids_set(outgoing@.take(t as int)),
                ),
                forall|x: ParaId|
                    outgoing@.take(t as int).contains(x) && pre.current_code@.contains_key(x)
                        ==> #[trigger] meta_noted(pre, *self, x, now),
                forall|x: ParaId|
                    !(outgoing@.take(t as int).contains(x) && pre.current_code@.contains_key(x))
                        ==> #[trigger] meta_unchanged(pre, *self, x),
                self.past_code@ == pre.past_code@.union_prefer_right(
                    Map::new(
                        |key: (ParaId, BlockNumber)|
                            key.1 == now && outgoing@.take(t as int).contains(key.0)
                                && pre.current_code@.contains_key(key.0),
                        |key: (ParaId, BlockNumber)| pre.current_code@[key.0],
                    ),
                ),
                self.past_code_pruning@ == pre.past_code_pruning@ + retired_seq(
                    outgoing@.take(t as int),
                    pre.current_code@,
                    now,
                ),
                forall|i: int|
                    0 <= i < self.past_code_pruning@.len() ==> (
                    #[trigger] self.past_code_pruning@[i]).1 <= now,
            decreases outgoing@.len() - t,
        {
            let id = outgoing[t];
            let ghost cur = *self;
            proof {
                assert(!outgoing@.take(t as int).contains(id)) by {
                    if outgoing@.take(t as int).contains(id) {
                        let w = choose|w: int| 0 <= w < t && #[trigger] outgoing@.take(t as int)[w] == id;
                        assert(outgoing@[w] == id);
                        assert(outgoing@[w] < outgoing@[t as int]);
                    }
                }
                assert(cur.current_code@.contains_key(id) == pre.current_code@.contains_key(id));
                assert(meta_unchanged(pre, cur, id));
                assert(meta_times(cur, id) == meta_times(pre, id));
                assert(meta_last_pruned(cur, id) == meta_last_pruned(pre, id));
            }
            self.retire_one(id, now);
            proof {
                let tk: Seq<ParaId> = outgoing@.take(t as int);
                let tk1: Seq<ParaId> = outgoing@.take(t + 1);
                lemma_take_snoc_contains(outgoing@, t as int);
                crate::ordered::lemma_ordered_remove_spec(cur.parachains@, id);
                assert forall|x: ParaId| #[trigger]
                    self.parachains@.contains(x) <==> pre.parachains@.contains(x) && !tk1.contains(
                        x,
                    ) by {
                    assert(self.parachains@.contains(x) <==> cur.parachains@.contains(x) && x
                        != id);
                }
                assert(self.heads@ =~= pre.heads@.remove_keys(ids_set(tk1)));
                assert(self.current_code@ =~= pre.current_code@.remove_keys(ids_set(tk1)));
                assert(self.future_code_upgrades@ =~= pre.future_code_upgrades@.remove_keys(
                    ids_set(tk1),
                ));
                assert(self.future_code@ =~= pre.future_code@.remove_keys(ids_set(tk1)));
                assert forall|x: ParaId| tk1.contains(x) && pre.current_code@.contains_key(x)
                    implies #[trigger] meta_noted(pre, *self, x, now) by {
                    if x == id {
                        assert(cur.current_code@.contains_key(id));
                        assert(self.past_code_meta@.contains_key(id));
                    } else {
                        assert(tk.contains(x));
                        assert(meta_noted(pre, cur, x, now));
                        if cur.current_code@.contains_key(id) {
                            assert(self.past_code_meta@[x] == cur.past_code_meta@[x]);
                        }
                    }
                }
                assert forall|x: ParaId| !(tk1.contains(x) && pre.current_code@.contains_key(x))
                    implies #[trigger] meta_unchanged(pre, *self, x) by {
                    if x == id {
                        assert(!pre.current_code@.contains_key(id));
                        assert(meta_unchanged(pre, cur, id));
                    } else {
                        assert(!(tk.contains(x) && pre.current_code@.contains_key(x)));
                        assert(meta_unchanged(pre, cur, x));
                        if cur.current_code@.contains_key(id) {
                            assert(self.past_code_meta@.contains_key(x)
                                == cur.past_code_meta@.contains_key(x));
                            if cur.past_code_meta@.contains_key(x) {
                                assert(self.past_code_meta@[x] == cur.past_code_meta@[x]);
                            }
                        }
                    }
                }
                assert(self.past_code@ =~= pre.past_code@.union_prefer_right(
                    Map::new(
                        |key: (ParaId, BlockNumber)|
                            key.1 == now && tk1.contains(key.0) && pre.current_code@.contains_key(
                                key.0,
                            ),
                        |key: (ParaId, BlockNumber)| pre.current_code@[key.0],
                    ),
                ));
                lemma_retired_seq_snoc(tk1, pre.current_code@, now);
                assert(tk1.drop_last() =~= tk);
                assert(tk1.last() == id);
                assert(self.past_code_pruning@ =~= pre.past_code_pruning@ + retired_seq(
                    tk1,
                    pre.current_code@,
                    now,
                ));
            }
            t = t + 1;
        }
        proof {
            assert(outgoing@.take(outgoing@.len() as int) =~= outgoing@);
        }
        let ghost mid = *self;
        let mut upcoming: Vec<ParaId> = Vec::new();
        core::mem::swap(&mut upcoming, &mut self.upcoming_paras);
        proof {
            assert(upcoming@.take(0) =~= Seq::<ParaId>::empty());
            assert(self.upcoming_paras_genesis@ =~= mid.upcoming_paras_genesis@.remove_keys(
                ids_set(upcoming@.take(0)),
            ));
            assert(self.heads@ =~= mid.heads@.union_prefer_right(
                Map::new(
                    |x: ParaId|
                        upcoming@.take(0).contains(x) && mid.upcoming_paras_genesis@.contains_key(
                            x,
                        ),
                    |x: ParaId| mid.upcoming_paras_genesis@[x].genesis_head,
                ),
            ));
            assert(self.current_code@ =~= mid.current_code@.union_prefer_right(
                Map::new(
                    |x: ParaId|
                        upcoming@.take(0).contains(x) && mid.upcoming_paras_genesis@.contains_key(
                            x,
                        ),
                    |x: ParaId| mid.upcoming_paras_genesis@[x].validation_code,
                ),
            ));
        }
        let mut u: usize = 0;
        while u < upcoming.len()
            invariant
                0 <= u <= upcoming@.len(),
                upcoming@ == mid.upcoming_paras@,
                strictly_sorted(upcoming@),
                self.wf(),
                self.acceptance_period == mid.acceptance_period,
                self.outgoing_paras@ == mid.outgoing_paras@,
                self.upcoming_paras@ == Seq::<ParaId>::empty(),
                self.upcoming_paras_genesis@ == mid.upcoming_paras_genesis@.remove_keys(
                    ids_set(upcoming@.take(u as int)),
                ),
                strictly_sorted(self.parachains@),
                forall|x: ParaId| #[trigger]
                    self.parachains@.contains(x) <==> mid.parachains@.contains(x) || (upcoming@.take(
                        u as int,
                    ).contains(x) && mid.upcoming_paras_genesis@.contains_key(x)
                        && mid.upcoming_paras_genesis@[x].parachain),
                self.heads@ == mid.heads@.union_prefer_right(
                    Map::new(
                        |x: ParaId|
                            upcoming@.take(u as int).contains(x)
                                && mid.upcoming_paras_genesis@.contains_key(x),
                        |x: ParaId| mid.upcoming_paras_genesis@[x].genesis_head,
                    ),
                ),
                self.current_code@ == mid.current_code@.union_prefer_right(
                    Map::new(
                        |x: ParaId|
                            upcoming@.take(u as int).contains(x)
                                && mid.upcoming_paras_genesis@.contains_key(x),
                        |x: ParaId| mid.upcoming_paras_genesis@[x].validation_code,
                    ),
                ),
                self.past_code@ == mid.past_code@,
                self.past_code_meta@ == mid.past_code_meta@,
                self.past_code_pruning@ == mid.past_code_pruning@,
                self.future_code_upgrades@ == mid.future_code_upgrades@,
                self.future_code@ == mid.future_code@,
            decreases upcoming@.len() - u,
        {
            let id = upcoming[u];
            let ghost cur = *self;
            proof {
                assert(!upcoming@.take(u as int).contains(id)) by {
                    if upcoming@.take(u as int).contains(id) {
                        let w = choose|w: int| 0 <= w < u && #[trigger] upcoming@.take(u as int)[w] == id;
                        assert(upcoming@[w] == id);
                        assert(upcoming@[w] < upcoming@[u as int]);
                    }
                }
                assert(cur.upcoming_paras_genesis@.contains_key(id)
                    == mid.upcoming_paras_genesis@.contains_key(id));
                if mid.upcoming_paras_genesis@.contains_key(id) {
                    assert(cur.upcoming_paras_genesis@[id] == mid.upcoming_paras_genesis@[id]);
                }
            }
            self.admit_one(id);
            proof {
                let tk: Seq<ParaId> = upcoming@.take(u as int);
                let tk1: Seq<ParaId> = upcoming@.take(u + 1);
                lemma_take_snoc_contains(upcoming@, u as int);
                if mid.upcoming_paras_genesis@.contains_key(id) {
                    crate::ordered::lemma_ordered_insert_spec(cur.parachains@, id);
                    assert forall|x: ParaId| #[trigger]
                        self.parachains@.contains(x) <==> mid.parachains@.contains(x) || (
                        tk1.contains(x) && mid.upcoming_paras_genesis@.contains_key(x)
                            && mid.upcoming_paras_genesis@[x].parachain) by {
                        if mid.upcoming_paras_genesis@[id].parachain {
                            assert(self.parachains@.contains(x) <==> cur.parachains@.contains(x)
                                || x == id);
                        } else {
                            assert(self.parachains@ == cur.parachains@);
                        }
                    }
                    assert(self.upcoming_paras_genesis@
                        =~= mid.upcoming_paras_genesis@.remove_keys(ids_set(tk1)));
                    assert(self.heads@ =~= mid.heads@.union_prefer_right(
                        Map::new(
                            |x: ParaId|
                                tk1.contains(x) && mid.upcoming_paras_genesis@.contains_key(x),
                            |x: ParaId| mid.upcoming_paras_genesis@[x].genesis_head,
                        ),
                    ));
                    assert(self.current_code@ =~= mid.current_code@.union_prefer_right(
                        Map::new(
                            |x: ParaId|
                                tk1.contains(x) && mid.upcoming_paras_genesis@.contains_key(x),
                            |x: ParaId| mid.upcoming_paras_genesis@[x].validation_code,
                        ),
                    ));
                } else {
                    assert(same_state(*self, cur));
                    assert forall|x: ParaId| #[trigger]
                        self.parachains@.contains(x) <==> mid.parachains@.contains(x) || (
                        tk1.contains(x) && mid.upcoming_paras_genesis@.contains_key(x)
                            && mid.upcoming_paras_genesis@[x].parachain) by {}
                    assert(self.upcoming_paras_genesis@
                        =~= mid.upcoming_paras_genesis@.remove_keys(ids_set(tk1)));
                    assert(self.heads@ =~= mid.heads@.union_prefer_right(
                        Map::new(
                            |x: ParaId|
                                tk1.contains(x) && mid.upcoming_paras_genesis@.contains_key(x),
                            |x: ParaId| mid.upcoming_paras_genesis@[x].genesis_head,
                        ),
                    ));
                    assert(self.current_code@ =~= mid.current_code@.union_prefer_right(
                        Map::new(
                            |x: ParaId|
                                tk1.contains(x) && mid.upcoming_paras_genesis@.contains_key(x),
                            |x: ParaId| mid.upcoming_paras_genesis@[x].validation_code,
                        ),
                    ));
                }
            }
            u = u + 1;
        }
        proof {
            assert(upcoming@.take(upcoming@.len() as int) =~= upcoming@);
            let out = pre.outgoing_paras@;
            let up = pre.upcoming_paras@;
            assert(self.upcoming_paras_genesis@ =~= pre.upcoming_paras_genesis@.remove_keys(
                ids_set(up),
            ));
            assert forall|x: ParaId| #[trigger]
                self.parachains@.contains(x) <==> (pre.parachains@.contains(x) && !out.contains(x))
                    || admitted_parachain(pre, x) by {
                assert(mid.parachains@.contains(x) <==> pre.parachains@.contains(x)
                    && !out.contains(x));
            }
            assert(self.heads@ =~= pre.heads@.remove_keys(ids_set(out)).union_prefer_right(
                admitted_heads(pre),
            ));
            assert(self.current_code@ =~= pre.current_code@.remove_keys(
                ids_set(out),
            ).union_prefer_right(admitted_codes(pre)));
            assert(self.past_code@ =~= pre.past_code@.union_prefer_right(
                retired_codes(pre, now),
            ));
            assert forall|x: ParaId| out.contains(x) && pre.current_code@.contains_key(x)
                implies #[trigger] meta_noted(pre, *self, x, now) by {
                assert(meta_noted(pre, mid, x, now));
            }
            assert forall|x: ParaId| !(out.contains(x) && pre.current_code@.contains_key(x))
                implies #[trigger] meta_unchanged(pre, *self, x) by {
                assert(meta_unchanged(pre, mid, x));
            }
        }
    }

    /// The per-block finalization hook; nothing to do.
    pub fn initializer_finalize(&self) {
    }

    /// All chain-like paras, ascending.
    pub fn parachains(&self) -> (r: Vec<ParaId>)
        ensures
            r@ == self.parachains@,
    {
        copy_ids(&self.parachains)
    }

    /// The head data of para `id`, if registered.
    pub fn parachain_head(&self, id: ParaId) -> (r: Option<HeadData>)
        ensures
            match r {
                Some(h) => self.heads@.contains_key(id) && h@ == self.heads@[id]@,
                None => !self.heads@.contains_key(id),
            },
    {
        match self.heads.get(id) {
            Some(h) => Some(copy_bytes(h)),
            None => None,
        }
    }

    /// The current validation code of para `id`, if it is live.
    pub fn current_code(&self, id: ParaId) -> (r: Option<ValidationCode>)
        ensures
            match r {
                Some(code) => self.current_code@.contains_key(id) && code@ == self.current_code@[id]@,
                None => !self.current_code@.contains_key(id),
            },
    {
        match self.current_code.get(id) {
            Some(code) => Some(copy_bytes(code)),
            None => None,
        }
    }

    /// The past-code ledger of para `id`; an empty ledger if it has none.
    pub fn past_code_meta(&self, id: ParaId) -> (r: ParaPastCodeMeta)
        ensures
            r.upgrade_times@ == meta_times(*self, id),
            r.last_pruned == meta_last_pruned(*self, id),
    {
        match self.past_code_meta.get(id) {
            Some(m) => {
                let mut times: Vec<(BlockNumber, BlockNumber)> = Vec::new();
                let mut i: usize = 0;
                while i < m.upgrade_times.len()
                    invariant
                        0 <= i <= m.upgrade_times@.len(),
                        times@ == m.upgrade_times@.take(i as int),
                    decreases m.upgrade_times@.len() - i,
                {
                    times.push(m.upgrade_times[i]);
                    proof {
                        assert(m.upgrade_times@.take(i + 1).drop_last() =~= m.upgrade_times@.take(
                            i as int,
                        ));
                        assert(times@ =~= m.upgrade_times@.take(i + 1));
                    }
                    i = i + 1;
                }
                proof {
                    assert(m.upgrade_times@.take(m.upgrade_times@.len() as int)
                        =~= m.upgrade_times@);
                }
                ParaPastCodeMeta { upgrade_times: times, last_pruned: m.last_pruned }
            },
            None => ParaPastCodeMeta::default(),
        }
    }

    /// The height at which the planned code change of para `id` is expected,
    /// if one is pending.
    pub fn future_code_upgrade_at(&self, id: ParaId) -> (r: Option<BlockNumber>)
        ensures
            match r {
                Some(h) => self.future_code_upgrades@.contains_key(id) && h
                    == self.future_code_upgrades@[id],
                None => !self.future_code_upgrades@.contains_key(id),
            },
    {
        match self.future_code_upgrades.get(id) {
            Some(h) => Some(*h),
            None => None,
        }
    }

    /// The pending future code of para `id`, if an upgrade is pending.
    pub fn future_code(&self, id: ParaId) -> (r: Option<ValidationCode>)
        ensures
            match r {
                Some(code) => self.future_code@.contains_key(id) && code@ == self.future_code@[id]@,
                None => !self.future_code@.contains_key(id),
            },
    {
        match self.future_code.get(id) {
            Some(code) => Some(copy_bytes(code)),
            None => None,
        }
    }

    /// The archived code of para `id` that was replaced at height `at`, if
    /// still retained.
    pub fn past_code(&self, id: ParaId, at: BlockNumber) -> (r: Option<ValidationCode>)
        ensures
            match r {
                Some(code) => self.past_code@.contains_key((id, at)) && code@ == self.past_code@[
                    (id, at)
                ]@,
                None => !self.past_code@.contains_key((id, at)),
            },
    {
        match self.past_code.get((id, at)) {
            Some(code) => Some(copy_bytes(code)),
            None => None,
        }
    }
}

} // verus!
