//! Ordered, deduplicated sequences of para identifiers.
//!
//! The active-para set and the two session queues are kept as strictly
//! ascending vectors; insertion and removal keep them that way.

use vstd::prelude::*;

use crate::ParaId;

verus! {

/// The sequence is strictly ascending (so also free of duplicates).
pub open spec fn strictly_sorted(s: Seq<ParaId>) -> bool {
    forall|i: int, j: int| 0 <= i < j < s.len() ==> s[i] < s[j]
}

/// The position at which `x` belongs in the ascending sequence `s`: the
/// first index holding a value at or above `x`, or the length.
pub open spec fn insert_pos(s: Seq<ParaId>, x: ParaId) -> int
    decreases s.len(),
{
    if s.len() == 0 {
        0
    } else if s[0] >= x {
        0
    } else {
        1 + insert_pos(s.drop_first(), x)
    }
}

/// What ordered insertion yields: unchanged if `x` is present, else `s` with
/// `x` at its sorted position.
pub open spec fn ordered_insert_spec(s: Seq<ParaId>, x: ParaId) -> Seq<ParaId> {
    if s.contains(x) {
        s
    } else {
        s.insert(insert_pos(s, x), x)
    }
}

/// What ordered removal yields: unchanged if `x` is absent, else `s` without
/// its occurrence of `x`.
pub open spec fn ordered_remove_spec(s: Seq<ParaId>, x: ParaId) -> Seq<ParaId> {
    if s.contains(x) {
        s.remove(insert_pos(s, x))
    } else {
        s
    }
}

/// `insert_pos` is in bounds; everything before it is below `x`, and the
/// element at it (if any) is at or above `x`.
pub proof fn lemma_insert_pos(s: Seq<ParaId>, x: ParaId)
    ensures
        0 <= insert_pos(s, x) <= s.len(),
        forall|j: int| 0 <= j < insert_pos(s, x) ==> s[j] < x,
        insert_pos(s, x) < s.len() ==> s[insert_pos(s, x)] >= x,
    decreases s.len(),
{
    if s.len() == 0 {
    } else if s[0] >= x {
    } else {
        lemma_insert_pos(s.drop_first(), x);
        let p = insert_pos(s, x);
        assert forall|j: int| 0 <= j < p implies s[j] < x by {
            if j > 0 {
                assert(s.drop_first()[j - 1] == s[j]);
            }
        }
        if p < s.len() {
            assert(s.drop_first()[p - 1] == s[p]);
        }
    }
}

/// The first index whose value is at or above `x` is `insert_pos`.
pub proof fn lemma_insert_pos_is(s: Seq<ParaId>, x: ParaId, p: int)
    requires
        0 <= p <= s.len(),
        forall|j: int| 0 <= j < p ==> s[j] < x,
        p < s.len() ==> s[p] >= x,
    ensures
        insert_pos(s, x) == p,
    decreases s.len(),
{
    if s.len() == 0 {
    } else if p == 0 {
    } else {
        assert(s[0] < x);
        assert forall|j: int| 0 <= j < p - 1 implies s.drop_first()[j] < x by {
            assert(s.drop_first()[j] == s[j + 1]);
        }
        if p - 1 < s.drop_first().len() {
            assert(s.drop_first()[p - 1] == s[p]);
        }
        lemma_insert_pos_is(s.drop_first(), x, p - 1);
    }
}

/// In a strictly ascending sequence that contains `x`, the element at
/// `insert_pos` is `x` itself.
pub proof fn lemma_insert_pos_found(s: Seq<ParaId>, x: ParaId)
    requires
        strictly_sorted(s),
        s.contains(x),
    ensures
        0 <= insert_pos(s, x) < s.len(),
        s[insert_pos(s, x)] == x,
{
    let w = choose|w: int| 0 <= w < s.len() && s[w] == x;
    lemma_insert_pos(s, x);
    let p = insert_pos(s, x);
    if p > w {
        assert(s[w] < x);
    }
    if p < w {
        assert(s[p] >= x && s[p] < s[w]);
    }
}

/// Insert `x` into the strictly ascending `v` at its sorted position; a
/// no-op if `x` is already present. Returns whether `x` was inserted.
pub fn ordered_insert(v: &mut Vec<ParaId>, x: ParaId) -> (inserted: bool)
    requires
        strictly_sorted(old(v)@),
    ensures
        final(v)@ == ordered_insert_spec(old(v)@, x),
        strictly_sorted(final(v)@),
        inserted == !old(v)@.contains(x),
        forall|y: ParaId| final(v)@.contains(y) <==> old(v)@.contains(y) || y == x,
{
    let ghost s = v@;
    let n = v.len();
    let mut i: usize = 0;
    while i < n && v[i] < x
        invariant
            n == s.len(),
            v@ == s,
            0 <= i <= n,
            forall|j: int| 0 <= j < i ==> s[j] < x,
        decreases n - i,
    {
        i = i + 1;
    }
    proof {
        lemma_insert_pos_is(s, x, i as int);
    }
    if i < n && v[i] == x {
        proof {
            assert(s.contains(x));
            assert forall|y: ParaId| s.contains(y) <==> s.contains(y) || y == x by {
                if y == x {
                }
            }
        }
        false
    } else {
        proof {
            if s.contains(x) {
                let w = choose|w: int| 0 <= w < s.len() && s[w] == x;
                if w < i {
                    assert(s[w] < x);
                } else {
                    assert(i < s.len() ==> s[i as int] != x);
                    if w > i {
                        assert(s[i as int] < s[w] || i as int >= s.len());
                        if (i as int) < s.len() {
                            assert(s[i as int] >= x);
                            assert(s[i as int] < s[w]);
                        }
                    }
                }
                assert(false);
            }
        }
        v.insert(i, x);
        proof {
            let t = v@;
            assert(t == s.insert(i as int, x));
            assert forall|a: int, b: int| 0 <= a < b < t.len() implies t[a] < t[b] by {
                let ai = if a < i as int { s[a] } else if a == i as int { x } else { s[a - 1] };
                let bi = if b < i as int { s[b] } else if b == i as int { x } else { s[b - 1] };
                assert(t[a] == ai);
                assert(t[b] == bi);
            }
            assert forall|y: ParaId| t.contains(y) <==> s.contains(y) || y == x by {
                if t.contains(y) {
                    let w = choose|w: int| 0 <= w < t.len() && t[w] == y;
                    if w < i as int {
                        assert(s[w] == y);
                    } else if w == i as int {
                    } else {
                        assert(s[w - 1] == y);
                    }
                }
                if s.contains(y) {
                    let w = choose|w: int| 0 <= w < s.len() && s[w] == y;
                    if w < i as int {
                        assert(t[w] == y);
                    } else {
                        assert(t[w + 1] == y);
                    }
                }
                if y == x {
                    assert(t[i as int] == x);
                }
            }
        }
        true
    }
}

/// Remove `x` from the strictly ascending `v`; a no-op if `x` is absent.
/// Returns whether `x` was removed.
pub fn ordered_remove(v: &mut Vec<ParaId>, x: ParaId) -> (removed: bool)
    requires
        strictly_sorted(old(v)@),
    ensures
        final(v)@ == ordered_remove_spec(old(v)@, x),
        strictly_sorted(final(v)@),
        removed == old(v)@.contains(x),
        forall|y: ParaId| final(v)@.contains(y) <==> old(v)@.contains(y) && y != x,
{
    let ghost s = v@;
    let n = v.len();
    let mut i: usize = 0;
    while i < n && v[i] < x
        invariant
            n == s.len(),
            v@ == s,
            0 <= i <= n,
            forall|j: int| 0 <= j < i ==> s[j] < x,
        decreases n - i,
    {
        i = i + 1;
    }
    proof {
        lemma_insert_pos_is(s, x, i as int);
    }
    if i < n && v[i] == x {
        v.remove(i);
        proof {
            assert(s.contains(x));
            let t = v@;
            assert(t == s.remove(i as int));
            assert forall|a: int, b: int| 0 <= a < b < t.len() implies t[a] < t[b] by {
                let ai = if a < i as int { s[a] } else { s[a + 1] };
                let bi = if b < i as int { s[b] } else { s[b + 1] };
                assert(t[a] == ai);
                assert(t[b] == bi);
            }
            assert forall|y: ParaId| t.contains(y) <==> s.contains(y) && y != x by {
                if t.contains(y) {
                    let w = choose|w: int| 0 <= w < t.len() && t[w] == y;
                    if w < i as int {
                        assert(s[w] == y);
                        assert(s[w] < x);
                    } else {
                        assert(s[w + 1] == y);
                        assert(s[i as int] < s[w + 1]);
                    }
                }
                if s.contains(y) && y != x {
                    let w = choose|w: int| 0 <= w < s.len() && s[w] == y;
                    if w < i as int {
                        assert(t[w] == y);
                    } else if w == i as int {
                        assert(false);
                    } else {
                        assert(t[w - 1] == y);
                    }
                }
            }
        }
        true
    } else {
        proof {
            if s.contains(x) {
                let w = choose|w: int| 0 <= w < s.len() && s[w] == x;
                if w < i {
                    assert(s[w] < x);
                } else if w > i {
                    if (i as int) < s.len() {
                        assert(s[i as int] >= x);
                        assert(s[i as int] < s[w]);
                    }
                }
                assert(false);
            }
        }
        false
    }
}

/// What ordered insertion holds: the old members and `x`, still strictly
/// ascending.
pub proof fn lemma_ordered_insert_spec(s: Seq<ParaId>, x: ParaId)
    requires
        strictly_sorted(s),
    ensures
        strictly_sorted(ordered_insert_spec(s, x)),
        forall|y: ParaId| #[trigger]
            ordered_insert_spec(s, x).contains(y) <==> s.contains(y) || y == x,
{
    lemma_insert_pos(s, x);
    let p = insert_pos(s, x);
    if s.contains(x) {
        assert forall|y: ParaId| #[trigger] ordered_insert_spec(s, x).contains(y)
            implies s.contains(y) || y == x by {}
    } else {
        let t = s.insert(p, x);
        assert forall|a: int, b: int| 0 <= a < b < t.len() implies t[a] < t[b] by {
            let av = if a < p { s[a] } else if a == p { x } else { s[a - 1] };
            let bv = if b < p { s[b] } else if b == p { x } else { s[b - 1] };
            assert(t[a] == av);
            assert(t[b] == bv);
            if a == p && b > p {
                assert(s[b - 1] >= x);
                assert(s[b - 1] != x);
            }
            if b == p && a < p {
                assert(s[a] < x);
            }
        }
        assert forall|y: ParaId| #[trigger] t.contains(y) implies s.contains(y) || y == x by {
            let w = choose|w: int| 0 <= w < t.len() && t[w] == y;
            if w < p {
                assert(s[w] == y);
            } else if w == p {
            } else {
                assert(s[w - 1] == y);
            }
        }
        assert forall|y: ParaId| s.contains(y) || y == x implies #[trigger] t.contains(y) by {
            if s.contains(y) {
                let w = choose|w: int| 0 <= w < s.len() && s[w] == y;
                if w < p {
                    assert(t[w] == y);
                } else {
                    assert(t[w + 1] == y);
                }
            } else {
                assert(t[p] == x);
            }
        }
    }
}

/// What ordered removal holds: the old members except `x`, still strictly
/// ascending.
pub proof fn lemma_ordered_remove_spec(s: Seq<ParaId>, x: ParaId)
    requires
        strictly_sorted(s),
    ensures
        strictly_sorted(ordered_remove_spec(s, x)),
        forall|y: ParaId| #[trigger]
            ordered_remove_spec(s, x).contains(y) <==> s.contains(y) && y != x,
{
    if s.contains(x) {
        lemma_insert_pos_found(s, x);
        let p = insert_pos(s, x);
        let t = s.remove(p);
        assert forall|a: int, b: int| 0 <= a < b < t.len() implies t[a] < t[b] by {
            let av = if a < p { s[a] } else { s[a + 1] };
            let bv = if b < p { s[b] } else { s[b + 1] };
            assert(t[a] == av);
            assert(t[b] == bv);
        }
        assert forall|y: ParaId| #[trigger] t.contains(y) implies s.contains(y) && y != x by {
            let w = choose|w: int| 0 <= w < t.len() && t[w] == y;
            if w < p {
                assert(s[w] == y);
                assert(s[w] < s[p]);
            } else {
                assert(s[w + 1] == y);
                assert(s[p] < s[w + 1]);
            }
        }
        assert forall|y: ParaId| s.contains(y) && y != x implies #[trigger] t.contains(y) by {
            let w = choose|w: int| 0 <= w < s.len() && s[w] == y;
            if w < p {
                assert(t[w] == y);
            } else if w == p {
                assert(false);
            } else {
                assert(t[w - 1] == y);
            }
        }
    } else {
        assert forall|y: ParaId| #[trigger] ordered_remove_spec(s, x).contains(y)
            implies s.contains(y) && y != x by {
            if y == x {
                assert(s.contains(x));
            }
        }
    }
}

/// Idempotent enqueueing: inserting the same identifier twice into an
/// ordered queue leaves the queue as one insertion does, and the queue then
/// holds that identifier in exactly one position.
pub proof fn lemma_ordered_insert_idempotent(s: Seq<ParaId>, x: ParaId)
    requires
        strictly_sorted(s),
    ensures
        ordered_insert_spec(ordered_insert_spec(s, x), x) == ordered_insert_spec(s, x),
        ordered_insert_spec(s, x).contains(x),
        forall|a: int, b: int|
            0 <= a < ordered_insert_spec(s, x).len() && 0 <= b < ordered_insert_spec(s, x).len()
                && #[trigger] (ordered_insert_spec(s, x)[a]) == x && #[trigger] (ordered_insert_spec(
                s,
                x,
            )[b]) == x ==> a == b,
{
    lemma_ordered_insert_spec(s, x);
}

} // verus!
