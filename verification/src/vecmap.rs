//! Small association maps backed by vectors of key/value entries.
//!
//! [`VecMap`] keys by a single identifier, [`PairMap`] by a pair of them.
//! Both keep their keys unique and are viewed as mathematical maps.

use vstd::prelude::*;

verus! {

/// No two entries share a key.
pub open spec fn entry_keys_unique<V>(s: Seq<(u64, V)>) -> bool {
    forall|i: int, j: int| 0 <= i < j < s.len() ==> (#[trigger] s[i]).0 != (#[trigger] s[j]).0
}

/// The mathematical map an entry sequence denotes.
pub open spec fn entries_as_map<V>(s: Seq<(u64, V)>) -> Map<u64, V>
    decreases s.len(),
{
    if s.len() == 0 {
        Map::empty()
    } else {
        entries_as_map(s.drop_last()).insert(s.last().0, s.last().1)
    }
}

/// A key is in the denoted map exactly when some entry holds it.
pub proof fn lemma_entries_domain<V>(s: Seq<(u64, V)>, k: u64)
    ensures
        entries_as_map(s).contains_key(k) <==> exists|i: int| 0 <= i < s.len() && (#[trigger] s[i]).0 == k,
    decreases s.len(),
{
    if s.len() > 0 {
        lemma_entries_domain(s.drop_last(), k);
        if s.last().0 == k {
            assert(s[s.len() - 1].0 == k);
        } else {
            assert forall|i: int| 0 <= i < s.len() && (#[trigger] s[i]).0 == k
                implies exists|j: int| 0 <= j < s.drop_last().len() && (#[trigger] s.drop_last()[j]).0 == k by {
                assert(s.drop_last()[i] == s[i]);
            }
            assert forall|j: int| 0 <= j < s.drop_last().len() && (#[trigger] s.drop_last()[j]).0 == k
                implies exists|i: int| 0 <= i < s.len() && (#[trigger] s[i]).0 == k by {
                assert(s[j] == s.drop_last()[j]);
            }
        }
    }
}

/// With unique keys, the entry holding `k` gives the value of the denoted
/// map at `k`.
pub proof fn lemma_entries_index<V>(s: Seq<(u64, V)>, i: int)
    requires
        entry_keys_unique(s),
        0 <= i < s.len(),
    ensures
        entries_as_map(s).contains_key(s[i].0),
        entries_as_map(s)[s[i].0] == s[i].1,
    decreases s.len(),
{
    if i == s.len() - 1 {
        assert(s.last() == s[i]);
    } else {
        assert(entry_keys_unique(s.drop_last())) by {
            assert forall|a: int, b: int| 0 <= a < b < s.drop_last().len()
                implies (#[trigger] s.drop_last()[a]).0 != (#[trigger] s.drop_last()[b]).0 by {
                assert(s.drop_last()[a] == s[a]);
                assert(s.drop_last()[b] == s[b]);
            }
        }
        assert(s.drop_last()[i] == s[i]);
        lemma_entries_index(s.drop_last(), i);
        assert(s.last().0 != s[i].0);
    }
}

/// Removing the entry holding `k` removes `k` from the denoted map.
pub proof fn lemma_entries_remove<V>(s: Seq<(u64, V)>, i: int)
    requires
        entry_keys_unique(s),
        0 <= i < s.len(),
    ensures
        entries_as_map(s.remove(i)) == entries_as_map(s).remove(s[i].0),
        entry_keys_unique(s.remove(i)),
    decreases s.len(),
{
    let k = s[i].0;
    let t = s.remove(i);
    assert(entry_keys_unique(t)) by {
        assert forall|a: int, b: int| 0 <= a < b < t.len()
            implies (#[trigger] t[a]).0 != (#[trigger] t[b]).0 by {
            let a0 = if a < i { a } else { a + 1 };
            let b0 = if b < i { b } else { b + 1 };
            assert(t[a] == s[a0]);
            assert(t[b] == s[b0]);
        }
    }
    if i == s.len() - 1 {
        assert(t =~= s.drop_last());
        lemma_entries_domain(s.drop_last(), k);
        assert forall|j: int| 0 <= j < s.drop_last().len()
            implies (#[trigger] s.drop_last()[j]).0 != k by {
            assert(s.drop_last()[j] == s[j]);
        }
        assert(!entries_as_map(s.drop_last()).contains_key(k));
        assert(entries_as_map(s) == entries_as_map(s.drop_last()).insert(k, s.last().1));
        assert(entries_as_map(s).remove(k) =~= entries_as_map(s.drop_last()));
    } else {
        let u = s.drop_last();
        assert(entry_keys_unique(u)) by {
            assert forall|a: int, b: int| 0 <= a < b < u.len()
                implies (#[trigger] u[a]).0 != (#[trigger] u[b]).0 by {
                assert(u[a] == s[a]);
                assert(u[b] == s[b]);
            }
        }
        assert(u[i] == s[i]);
        lemma_entries_remove(u, i);
        assert(t.drop_last() =~= u.remove(i)) by {
            assert(t.len() - 1 == u.remove(i).len());
            assert forall|j: int| 0 <= j < t.len() - 1 implies t.drop_last()[j] == u.remove(i)[j] by {
                let j0 = if j < i { j } else { j + 1 };
                assert(t[j] == s[j0]);
                assert(u.remove(i)[j] == u[j0]);
                assert(u[j0] == s[j0]);
            }
        }
        assert(t.last() == s.last()) by {
            assert(t[t.len() - 1] == s[s.len() - 1]);
        }
        assert(entries_as_map(t) == entries_as_map(u.remove(i)).insert(s.last().0, s.last().1));
        assert(entries_as_map(t) == entries_as_map(u).remove(k).insert(s.last().0, s.last().1));
        assert(s.last().0 != k);
        assert(entries_as_map(u).remove(k).insert(s.last().0, s.last().1)
            =~= entries_as_map(u).insert(s.last().0, s.last().1).remove(k));
        assert(entries_as_map(s) == entries_as_map(u).insert(s.last().0, s.last().1));
    }
}

/// A map from one identifier to values, with unique keys.
pub struct VecMap<V> {
    entries: Vec<(u64, V)>,
}

impl<V> View for VecMap<V> {
    type V = Map<u64, V>;

    closed spec fn view(&self) -> Map<u64, V> {
        entries_as_map(self.entries@)
    }
}

impl<V> VecMap<V> {
    #[verifier::type_invariant]
    spec fn inv(self) -> bool {
        entry_keys_unique(self.entries@)
    }

    /// An empty map.
    pub fn new() -> (r: Self)
        ensures
            r@ == Map::<u64, V>::empty(),
    {
        VecMap { entries: Vec::new() }
    }

    /// Whether the map has an entry for `k`.
    pub fn contains_key(&self, k: u64) -> (r: bool)
        ensures
            r == self@.contains_key(k),
    {
        proof {
            use_type_invariant(self);
        }
        let ghost s = self.entries@;
        let n = self.entries.len();
        let mut i: usize = 0;
        while i < n
            invariant
                n == s.len(),
                self.entries@ == s,
                entry_keys_unique(s),
                0 <= i <= n,
                forall|j: int| 0 <= j < i ==> (#[trigger] s[j]).0 != k,
            decreases n - i,
        {
            if self.entries[i].0 == k {
                proof {
                    lemma_entries_index(s, i as int);
                }
                return true;
            }
            i = i + 1;
        }
        proof {
            lemma_entries_domain(s, k);
        }
        false
    }

    /// The value stored under `k`, if any.
    pub fn get(&self, k: u64) -> (r: Option<&V>)
        ensures
            match r {
                Some(v) => self@.contains_key(k) && *v == self@[k],
                None => !self@.contains_key(k),
            },
    {
        proof {
            use_type_invariant(self);
        }
        let ghost s = self.entries@;
        let n = self.entries.len();
        let mut i: usize = 0;
        while i < n
            invariant
                n == s.len(),
                self.entries@ == s,
                entry_keys_unique(s),
                0 <= i <= n,
                forall|j: int| 0 <= j < i ==> (#[trigger] s[j]).0 != k,
            decreases n - i,
        {
            let entry = &self.entries[i];
            if entry.0 == k {
                proof {
                    lemma_entries_index(s, i as int);
                }
                return Some(&entry.1);
            }
            i = i + 1;
        }
        proof {
            lemma_entries_domain(s, k);
        }
        None
    }

    /// Remove and return the value stored under `k`, if any.
    pub fn remove(&mut self, k: u64) -> (r: Option<V>)
        ensures
            final(self)@ == old(self)@.remove(k),
            match r {
                Some(v) => old(self)@.contains_key(k) && v == old(self)@[k],
                None => !old(self)@.contains_key(k) && final(self)@ == old(self)@,
            },
    {
        proof {
            use_type_invariant(&*self);
        }
        let ghost s = self.entries@;
        let mut entries: Vec<(u64, V)> = Vec::new();
        core::mem::swap(&mut entries, &mut self.entries);
        let n = entries.len();
        let mut i: usize = 0;
        let mut found: bool = false;
        while i < n && !found
            invariant
                n == s.len(),
                entries@ == s,
                entry_keys_unique(s),
                0 <= i <= n,
                found ==> i < n && s[i as int].0 == k,
                forall|j: int| 0 <= j < i ==> (#[trigger] s[j]).0 != k,
            decreases n - i + (if found { 0int } else { 1int }),
        {
            if entries[i].0 == k {
                found = true;
            } else {
                i = i + 1;
            }
        }
        let r = if found {
            proof {
                lemma_entries_index(s, i as int);
                lemma_entries_remove(s, i as int);
            }
            let entry = entries.remove(i);
            Some(entry.1)
        } else {
            proof {
                lemma_entries_domain(s, k);
                assert(entries_as_map(s).remove(k) =~= entries_as_map(s));
            }
            None
        };
        core::mem::swap(&mut entries, &mut self.entries);
        r
    }

    /// Store `v` under `k`, replacing any previous value.
    pub fn insert(&mut self, k: u64, v: V)
        ensures
            final(self)@ == old(self)@.insert(k, v),
    {
        let _prev = self.remove(k);
        proof {
            use_type_invariant(&*self);
            lemma_entries_domain(self.entries@, k);
        }
        let ghost s = self.entries@;
        let mut entries: Vec<(u64, V)> = Vec::new();
        core::mem::swap(&mut entries, &mut self.entries);
        entries.push((k, v));
        proof {
            assert(entries@.drop_last() =~= s);
            assert(entry_keys_unique(entries@)) by {
                let t = entries@;
                assert forall|a: int, b: int| 0 <= a < b < t.len()
                    implies (#[trigger] t[a]).0 != (#[trigger] t[b]).0 by {
                    if b == t.len() - 1 {
                        assert(t[a] == s[a]);
                    } else {
                        assert(t[a] == s[a]);
                        assert(t[b] == s[b]);
                    }
                }
            }
        }
        core::mem::swap(&mut entries, &mut self.entries);
        proof {
            assert(self.entries@.drop_last() =~= s);
            assert(entries_as_map(self.entries@) == entries_as_map(s).insert(k, v));
            assert(entries_as_map(s).insert(k, v) =~= old(self)@.insert(k, v));
        }
    }
}

/// No two entries share a key pair.
pub open spec fn pair_keys_unique<V>(s: Seq<((u64, u64), V)>) -> bool {
    forall|i: int, j: int| 0 <= i < j < s.len() ==> (#[trigger] s[i]).0 != (#[trigger] s[j]).0
}

/// The mathematical map a pair-keyed entry sequence denotes.
pub open spec fn pairs_as_map<V>(s: Seq<((u64, u64), V)>) -> Map<(u64, u64), V>
    decreases s.len(),
{
    if s.len() == 0 {
        Map::empty()
    } else {
        pairs_as_map(s.drop_last()).insert(s.last().0, s.last().1)
    }
}

/// A key pair is in the denoted map exactly when some entry holds it.
pub proof fn lemma_pairs_domain<V>(s: Seq<((u64, u64), V)>, k: (u64, u64))
    ensures
        pairs_as_map(s).contains_key(k) <==> exists|i: int| 0 <= i < s.len() && (#[trigger] s[i]).0 == k,
    decreases s.len(),
{
    if s.len() > 0 {
        lemma_pairs_domain(s.drop_last(), k);
        if s.last().0 == k {
            assert(s[s.len() - 1].0 == k);
        } else {
            assert forall|i: int| 0 <= i < s.len() && (#[trigger] s[i]).0 == k
                implies exists|j: int| 0 <= j < s.drop_last().len() && (#[trigger] s.drop_last()[j]).0 == k by {
                assert(s.drop_last()[i] == s[i]);
            }
            assert forall|j: int| 0 <= j < s.drop_last().len() && (#[trigger] s.drop_last()[j]).0 == k
                implies exists|i: int| 0 <= i < s.len() && (#[trigger] s[i]).0 == k by {
                assert(s[j] == s.drop_last()[j]);
            }
        }
    }
}

/// With unique key pairs, the entry holding `k` gives the value of the
/// denoted map at `k`.
pub proof fn lemma_pairs_index<V>(s: Seq<((u64, u64), V)>, i: int)
    requires
        pair_keys_unique(s),
        0 <= i < s.len(),
    ensures
        pairs_as_map(s).contains_key(s[i].0),
        pairs_as_map(s)[s[i].0] == s[i].1,
    decreases s.len(),
{
    if i == s.len() - 1 {
        assert(s.last() == s[i]);
    } else {
        assert(pair_keys_unique(s.drop_last())) by {
            assert forall|a: int, b: int| 0 <= a < b < s.drop_last().len()
                implies (#[trigger] s.drop_last()[a]).0 != (#[trigger] s.drop_last()[b]).0 by {
                assert(s.drop_last()[a] == s[a]);
                assert(s.drop_last()[b] == s[b]);
            }
        }
        assert(s.drop_last()[i] == s[i]);
        lemma_pairs_index(s.drop_last(), i);
        assert(s.last().0 != s[i].0);
    }
}

/// Removing the entry holding `k` removes `k` from the denoted map.
pub proof fn lemma_pairs_remove<V>(s: Seq<((u64, u64), V)>, i: int)
    requires
        pair_keys_unique(s),
        0 <= i < s.len(),
    ensures
        pairs_as_map(s.remove(i)) == pairs_as_map(s).remove(s[i].0),
        pair_keys_unique(s.remove(i)),
    decreases s.len(),
{
    let k = s[i].0;
    let t = s.remove(i);
    assert(pair_keys_unique(t)) by {
        assert forall|a: int, b: int| 0 <= a < b < t.len()
            implies (#[trigger] t[a]).0 != (#[trigger] t[b]).0 by {
            let a0 = if a < i { a } else { a + 1 };
            let b0 = if b < i { b } else { b + 1 };
            assert(t[a] == s[a0]);
            assert(t[b] == s[b0]);
        }
    }
    if i == s.len() - 1 {
        assert(t =~= s.drop_last());
        lemma_pairs_domain(s.drop_last(), k);
        assert forall|j: int| 0 <= j < s.drop_last().len()
            implies (#[trigger] s.drop_last()[j]).0 != k by {
            assert(s.drop_last()[j] == s[j]);
        }
        assert(!pairs_as_map(s.drop_last()).contains_key(k));
        assert(pairs_as_map(s) == pairs_as_map(s.drop_last()).insert(k, s.last().1));
        assert(pairs_as_map(s).remove(k) =~= pairs_as_map(s.drop_last()));
    } else {
        let u = s.drop_last();
        assert(pair_keys_unique(u)) by {
            assert forall|a: int, b: int| 0 <= a < b < u.len()
                implies (#[trigger] u[a]).0 != (#[trigger] u[b]).0 by {
                assert(u[a] == s[a]);
                assert(u[b] == s[b]);
            }
        }
        assert(u[i] == s[i]);
        lemma_pairs_remove(u, i);
        assert(t.drop_last() =~= u.remove(i)) by {
            assert(t.len() - 1 == u.remove(i).len());
            assert forall|j: int| 0 <= j < t.len() - 1 implies t.drop_last()[j] == u.remove(i)[j] by {
                let j0 = if j < i { j } else { j + 1 };
                assert(t[j] == s[j0]);
                assert(u.remove(i)[j] == u[j0]);
                assert(u[j0] == s[j0]);
            }
        }
        assert(t.last() == s.last()) by {
            assert(t[t.len() - 1] == s[s.len() - 1]);
        }
        assert(pairs_as_map(t) == pairs_as_map(u.remove(i)).insert(s.last().0, s.last().1));
        assert(pairs_as_map(t) == pairs_as_map(u).remove(k).insert(s.last().0, s.last().1));
        assert(s.last().0 != k);
        assert(pairs_as_map(u).remove(k).insert(s.last().0, s.last().1)
            =~= pairs_as_map(u).insert(s.last().0, s.last().1).remove(k));
        assert(pairs_as_map(s) == pairs_as_map(u).insert(s.last().0, s.last().1));
    }
}

/// A map from a pair of identifiers to values, with unique keys.
pub struct PairMap<V> {
    entries: Vec<((u64, u64), V)>,
}

impl<V> View for PairMap<V> {
    type V = Map<(u64, u64), V>;

    closed spec fn view(&self) -> Map<(u64, u64), V> {
        pairs_as_map(self.entries@)
    }
}

impl<V> PairMap<V> {
    #[verifier::type_invariant]
    spec fn inv(self) -> bool {
        pair_keys_unique(self.entries@)
    }

    /// An empty map.
    pub fn new() -> (r: Self)
        ensures
            r@ == Map::<(u64, u64), V>::empty(),
    {
        PairMap { entries: Vec::new() }
    }

    /// The value stored under `k`, if any.
    pub fn get(&self, k: (u64, u64)) -> (r: Option<&V>)
        ensures
            match r {
                Some(v) => self@.contains_key(k) && *v == self@[k],
                None => !self@.contains_key(k),
            },
    {
        proof {
            use_type_invariant(self);
        }
        let ghost s = self.entries@;
        let n = self.entries.len();
        let mut i: usize = 0;
        while i < n
            invariant
                n == s.len(),
                self.entries@ == s,
                pair_keys_unique(s),
                0 <= i <= n,
                forall|j: int| 0 <= j < i ==> (#[trigger] s[j]).0 != k,
            decreases n - i,
        {
            let entry = &self.entries[i];
            if entry.0.0 == k.0 && entry.0.1 == k.1 {
                proof {
                    lemma_pairs_index(s, i as int);
                }
                return Some(&entry.1);
            }
            i = i + 1;
        }
        proof {
            lemma_pairs_domain(s, k);
        }
        None
    }

    /// Remove and return the value stored under `k`, if any.
    pub fn remove(&mut self, k: (u64, u64)) -> (r: Option<V>)
        ensures
            final(self)@ == old(self)@.remove(k),
            match r {
                Some(v) => old(self)@.contains_key(k) && v == old(self)@[k],
                None => !old(self)@.contains_key(k) && final(self)@ == old(self)@,
            },
    {
        proof {
            use_type_invariant(&*self);
        }
        let ghost s = self.entries@;
        let mut entries: Vec<((u64, u64), V)> = Vec::new();
        core::mem::swap(&mut entries, &mut self.entries);
        let n = entries.len();
        let mut i: usize = 0;
        let mut found: bool = false;
        while i < n && !found
            invariant
                n == s.len(),
                entries@ == s,
                pair_keys_unique(s),
                0 <= i <= n,
                found ==> i < n && s[i as int].0 == k,
                forall|j: int| 0 <= j < i ==> (#[trigger] s[j]).0 != k,
            decreases n - i + (if found { 0int } else { 1int }),
        {
            if entries[i].0.0 == k.0 && entries[i].0.1 == k.1 {
                found = true;
            } else {
                i = i + 1;
            }
        }
        let r = if found {
            proof {
                lemma_pairs_index(s, i as int);
                lemma_pairs_remove(s, i as int);
            }
            let entry = entries.remove(i);
            Some(entry.1)
        } else {
            proof {
                lemma_pairs_domain(s, k);
                assert(pairs_as_map(s).remove(k) =~= pairs_as_map(s));
            }
            None
        };
        core::mem::swap(&mut entries, &mut self.entries);
        r
    }

    /// Store `v` under `k`, replacing any previous value.
    pub fn insert(&mut self, k: (u64, u64), v: V)
        ensures
            final(self)@ == old(self)@.insert(k, v),
    {
        let _prev = self.remove(k);
        proof {
            use_type_invariant(&*self);
            lemma_pairs_domain(self.entries@, k);
        }
        let ghost s = self.entries@;
        let mut entries: Vec<((u64, u64), V)> = Vec::new();
        core::mem::swap(&mut entries, &mut self.entries);
        entries.push((k, v));
        proof {
            assert(entries@.drop_last() =~= s);
            assert(pair_keys_unique(entries@)) by {
                let t = entries@;
                assert forall|a: int, b: int| 0 <= a < b < t.len()
                    implies (#[trigger] t[a]).0 != (#[trigger] t[b]).0 by {
                    if b == t.len() - 1 {
                        assert(t[a] == s[a]);
                    } else {
                        assert(t[a] == s[a]);
                        assert(t[b] == s[b]);
                    }
                }
            }
        }
        core::mem::swap(&mut entries, &mut self.entries);
        proof {
            assert(self.entries@.drop_last() =~= s);
            assert(pairs_as_map(self.entries@) == pairs_as_map(s).insert(k, v));
            assert(pairs_as_map(s).insert(k, v) =~= old(self)@.insert(k, v));
        }
    }
}

} // verus!
