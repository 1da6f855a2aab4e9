//! A small verified association map keyed by a pair of unsigned identifiers.
//!
//! The ledger keeps every persistent table — balances, instance holdings,
//! approvals — keyed by a pair of wide integers (an account and a token, or
//! an owner and an operator).  This module provides that table as a vector
//! of entries with pairwise-distinct keys, viewed as a `Map`.

use vstd::prelude::*;

verus! {

/// One stored entry: the two key halves and the value.
pub type PairEntry<V> = (u128, u128, V);

/// The key of an entry.
pub open spec fn entry_key<V>(e: PairEntry<V>) -> (u128, u128) {
    (e.0, e.1)
}

/// Whether some entry of `s` carries the key `k`.
pub open spec fn seq_has_key<V>(s: Seq<PairEntry<V>>, k: (u128, u128)) -> bool {
    exists|i: int| 0 <= i < s.len() && #[trigger] entry_key(s[i]) == k
}

/// An index of `s` holding the key `k` (unique when keys are distinct).
pub open spec fn seq_key_at<V>(s: Seq<PairEntry<V>>, k: (u128, u128)) -> int {
    choose|i: int| 0 <= i < s.len() && #[trigger] entry_key(s[i]) == k
}

/// No two entries of `s` share a key.
pub open spec fn distinct_keys<V>(s: Seq<PairEntry<V>>) -> bool {
    forall|i: int, j: int|
        0 <= i < j < s.len() ==> #[trigger] entry_key(s[i]) != #[trigger] entry_key(s[j])
}

/// The map described by an entry sequence.
pub open spec fn seq_as_map<V: DeepView>(s: Seq<PairEntry<V>>) -> Map<(u128, u128), <V as DeepView>::V> {
    Map::new(|k: (u128, u128)| seq_has_key(s, k), |k: (u128, u128)| s[seq_key_at(s, k)].2.deep_view())
}

/// Under distinct keys, any index holding `k` is the index the map reads.
proof fn lemma_key_index<V: DeepView>(s: Seq<PairEntry<V>>, i: int)
    requires
        distinct_keys(s),
        0 <= i < s.len(),
    ensures
        seq_has_key(s, entry_key(s[i])),
        seq_key_at(s, entry_key(s[i])) == i,
        seq_as_map(s).contains_key(entry_key(s[i])),
        seq_as_map(s)[entry_key(s[i])] == s[i].2.deep_view(),
{
    let k = entry_key(s[i]);
    assert(seq_has_key(s, k));
    let j = seq_key_at(s, k);
    assert(0 <= j < s.len() && entry_key(s[j]) == k);
    if i != j {
        assert(entry_key(s[i]) != entry_key(s[j]));
    }
}

/// Whether a token-id list holds `x`.
pub fn u128_list_contains(l: &Vec<u128>, x: u128) -> (r: bool)
    ensures
        r == l@.contains(x),
{
    let n = l.len();
    let mut i: usize = 0;
    while i < n
        invariant
            n == l@.len(),
            0 <= i <= n,
            forall|j: int| 0 <= j < i ==> l@[j] != x,
        decreases n - i,
    {
        if l[i] == x {
            return true;
        }
        i += 1;
    }
    proof {
        if l@.contains(x) {
            let j = choose|j: int| 0 <= j < l@.len() && l@[j] == x;
            assert(l@[j] != x);
        }
    }
    false
}

/// A fresh copy of a token-id list.
pub fn copy_u128_list(l: &Vec<u128>) -> (r: Vec<u128>)
    ensures
        r@ == l@,
{
    let n = l.len();
    let mut r: Vec<u128> = Vec::new();
    let mut i: usize = 0;
    while i < n
        invariant
            n == l@.len(),
            0 <= i <= n,
            r@ == l@.subrange(0, i as int),
        decreases n - i,
    {
        r.push(l[i]);
        proof {
            assert(r@ =~= l@.subrange(0, i + 1));
        }
        i += 1;
    }
    proof {
        assert(r@ =~= l@);
    }
    r
}

/// A copy whose abstract value is the original's.
pub trait DeepCopy: DeepView + Sized {
    fn deep_copy(&self) -> (r: Self)
        ensures
            r.deep_view() == self.deep_view(),
    ;
}

impl DeepCopy for u128 {
    fn deep_copy(&self) -> (r: Self)
        ensures
            r.deep_view() == self.deep_view(),
    {
        *self
    }
}

/// An association map from a pair of unsigned identifiers to values.
pub struct PairMap<V> {
    entries: Vec<PairEntry<V>>,
}

impl<V: DeepView> View for PairMap<V> {
    type V = Map<(u128, u128), <V as DeepView>::V>;

    closed spec fn view(&self) -> Map<(u128, u128), <V as DeepView>::V> {
        seq_as_map(self.entries@)
    }
}

impl<V: DeepView> PairMap<V> {
    /// The stored entries carry pairwise-distinct keys.
    pub closed spec fn wf(&self) -> bool {
        distinct_keys(self.entries@)
    }

    pub fn new() -> (r: Self)
        ensures
            r.wf(),
            r@ == Map::<(u128, u128), <V as DeepView>::V>::empty(),
    {
        let r = PairMap { entries: Vec::new() };
        proof {
            assert(r@ =~= Map::<(u128, u128), <V as DeepView>::V>::empty());
        }
        r
    }

    /// Index of the entry with key `(a, b)`, if any.
    fn find(&self, a: u128, b: u128) -> (r: Option<usize>)
        requires
            self.wf(),
        ensures
            match r {
                Some(i) => i < self.entries@.len() && entry_key(self.entries@[i as int]) == (a, b)
                    && seq_key_at(self.entries@, (a, b)) == i as int
                    && self@.contains_key((a, b))
                    && self@[(a, b)] == self.entries@[i as int].2.deep_view(),
                None => !self@.contains_key((a, b)),
            },
    {
        let n = self.entries.len();
        let mut i: usize = 0;
        while i < n
            invariant
                self.wf(),
                n == self.entries@.len(),
                0 <= i <= n,
                forall|j: int| 0 <= j < i ==> #[trigger] entry_key(self.entries@[j]) != (a, b),
            decreases n - i,
        {
            let e = &self.entries[i];
            if e.0 == a && e.1 == b {
                proof {
                    lemma_key_index(self.entries@, i as int);
                }
                return Some(i);
            }
            i += 1;
        }
        proof {
            assert(!seq_has_key(self.entries@, (a, b)));
        }
        None
    }

    /// Whether the map holds an entry for `(a, b)`.
    pub fn contains(&self, a: u128, b: u128) -> (r: bool)
        requires
            self.wf(),
        ensures
            r == self@.contains_key((a, b)),
    {
        self.find(a, b).is_some()
    }

    /// The value stored under `(a, b)`, if any.
    pub fn get(&self, a: u128, b: u128) -> (r: Option<&V>)
        requires
            self.wf(),
        ensures
            match r {
                Some(v) => self@.contains_key((a, b)) && v.deep_view() == self@[(a, b)],
                None => !self@.contains_key((a, b)),
            },
    {
        match self.find(a, b) {
            Some(i) => Some(&self.entries[i].2),
            None => None,
        }
    }

    /// Store `v` under `(a, b)`, replacing any earlier value.
    pub fn insert(&mut self, a: u128, b: u128, v: V)
        requires
            old(self).wf(),
        ensures
            final(self).wf(),
            final(self)@ == old(self)@.insert((a, b), v.deep_view()),
    {
        let ghost s0 = self.entries@;
        let ghost dv = v.deep_view();
        match self.find(a, b) {
            Some(i) => {
                self.entries[i] = (a, b, v);
                proof {
                    let s1 = self.entries@;
                    assert(s1 == s0.update(i as int, (a, b, v)));
                    assert forall|p: int, q: int| 0 <= p < q < s1.len() implies
                        entry_key(s1[p]) != entry_key(s1[q]) by {
                        assert(entry_key(s0[p]) != entry_key(s0[q]));
                        assert(entry_key(s1[p]) == if p == i as int { (a, b) } else { entry_key(s0[p]) });
                        assert(entry_key(s1[q]) == if q == i as int { (a, b) } else { entry_key(s0[q]) });
                        assert(entry_key(s0[i as int]) == (a, b));
                        if p != i as int && q != i as int {
                        } else if p == i as int {
                            assert(entry_key(s1[q]) == entry_key(s0[q]));
                        }
                    }
                    assert(distinct_keys(s1));
                    assert forall|k: (u128, u128)| true implies
                        (seq_has_key(s1, k) == seq_as_map(s0).insert((a, b), dv).dom().contains(k)) by {
                        if k == (a, b) {
                            assert(entry_key(s1[i as int]) == k);
                            assert(seq_has_key(s1, k));
                        } else {
                            if seq_has_key(s1, k) {
                                let j = seq_key_at(s1, k);
                                assert(entry_key(s0[j]) == k);
                                assert(seq_has_key(s0, k));
                            }
                            if seq_has_key(s0, k) {
                                let j = seq_key_at(s0, k);
                                assert(j != i as int);
                                assert(entry_key(s1[j]) == k);
                                assert(seq_has_key(s1, k));
                            }
                        }
                    }
                    assert forall|k: (u128, u128)| seq_has_key(s1, k) implies
                        seq_as_map(s1)[k] == seq_as_map(s0).insert((a, b), dv)[k] by {
                        if k == (a, b) {
                            lemma_key_index(s1, i as int);
                        } else {
                            let j = seq_key_at(s1, k);
                            assert(0 <= j < s1.len() && entry_key(s1[j]) == k);
                            assert(j != i as int);
                            lemma_key_index(s1, j);
                            lemma_key_index(s0, j);
                        }
                    }
                    assert(seq_as_map(s1) =~= seq_as_map(s0).insert((a, b), dv));
                }
            },
            None => {
                self.entries.push((a, b, v));
                proof {
                    let s1 = self.entries@;
                    assert(s1 == s0.push((a, b, v)));
                    assert forall|p: int, q: int| 0 <= p < q < s1.len() implies
                        entry_key(s1[p]) != entry_key(s1[q]) by {
                        if q == s1.len() - 1 {
                            assert(entry_key(s1[q]) == (a, b));
                            assert(entry_key(s1[p]) == entry_key(s0[p]));
                            assert(seq_has_key(s0, entry_key(s0[p])));
                            assert(!seq_has_key(s0, (a, b)));
                        } else {
                            assert(entry_key(s0[p]) != entry_key(s0[q]));
                        }
                    }
                    assert(distinct_keys(s1));
                    assert forall|k: (u128, u128)| true implies
                        (seq_has_key(s1, k) == seq_as_map(s0).insert((a, b), dv).dom().contains(k)) by {
                        if k == (a, b) {
                            assert(entry_key(s1[s1.len() - 1]) == k);
                            assert(seq_has_key(s1, k));
                        } else {
                            if seq_has_key(s1, k) {
                                let j = seq_key_at(s1, k);
                                assert(j != s1.len() - 1);
                                assert(entry_key(s0[j]) == k);
                                assert(seq_has_key(s0, k));
                            }
                            if seq_has_key(s0, k) {
                                let j = seq_key_at(s0, k);
                                assert(entry_key(s1[j]) == k);
                                assert(seq_has_key(s1, k));
                            }
                        }
                    }
                    assert forall|k: (u128, u128)| seq_has_key(s1, k) implies
                        seq_as_map(s1)[k] == seq_as_map(s0).insert((a, b), dv)[k] by {
                        if k == (a, b) {
                            lemma_key_index(s1, s1.len() - 1);
                        } else {
                            let j = seq_key_at(s1, k);
                            assert(0 <= j < s1.len() && entry_key(s1[j]) == k);
                            assert(j != s1.len() - 1);
                            lemma_key_index(s1, j);
                            lemma_key_index(s0, j);
                        }
                    }
                    assert(seq_as_map(s1) =~= seq_as_map(s0).insert((a, b), dv));
                }
            },
        }
    }

    /// A fresh copy describing the same map.
    pub fn duplicate(&self) -> (r: Self) where V: DeepCopy
        requires
            self.wf(),
        ensures
            r.wf(),
            r@ == self@,
    {
        let ghost s0 = self.entries@;
        let n = self.entries.len();
        let mut es: Vec<PairEntry<V>> = Vec::new();
        let mut i: usize = 0;
        while i < n
            invariant
                distinct_keys(s0),
                s0 == self.entries@,
                n == s0.len(),
                0 <= i <= n,
                es@.len() == i,
                forall|j: int| 0 <= j < i ==> #[trigger] entry_key(es@[j]) == entry_key(s0[j])
                    && es@[j].2.deep_view() == s0[j].2.deep_view(),
            decreases n - i,
        {
            let e = &self.entries[i];
            let c = e.2.deep_copy();
            es.push((e.0, e.1, c));
            i += 1;
        }
        let r = PairMap { entries: es };
        proof {
            let s1 = r.entries@;
            assert forall|p: int, q: int| 0 <= p < q < s1.len() implies
                entry_key(s1[p]) != entry_key(s1[q]) by {
                assert(entry_key(s0[p]) != entry_key(s0[q]));
            }
            assert(distinct_keys(s1));
            assert forall|k: (u128, u128)| true implies
                (seq_has_key(s1, k) == seq_has_key(s0, k)) by {
                if seq_has_key(s1, k) {
                    let j = seq_key_at(s1, k);
                    assert(entry_key(s0[j]) == k);
                    assert(seq_has_key(s0, k));
                }
                if seq_has_key(s0, k) {
                    let j = seq_key_at(s0, k);
                    assert(entry_key(s1[j]) == k);
                    assert(seq_has_key(s1, k));
                }
            }
            assert forall|k: (u128, u128)| seq_has_key(s1, k) implies
                seq_as_map(s1)[k] == seq_as_map(s0)[k] by {
                let j = seq_key_at(s1, k);
                assert(0 <= j < s1.len() && entry_key(s1[j]) == k);
                assert(entry_key(s0[j]) == k);
                lemma_key_index(s1, j);
                lemma_key_index(s0, j);
            }
            assert(r@ =~= self@);
        }
        r
    }

    /// Drop the entry under `(a, b)`, if any.
    pub fn remove(&mut self, a: u128, b: u128)
        requires
            old(self).wf(),
        ensures
            final(self).wf(),
            final(self)@ == old(self)@.remove((a, b)),
    {
        let ghost s0 = self.entries@;
        match self.find(a, b) {
            Some(i) => {
                self.entries.swap_remove(i);
                proof {
                    let s1 = self.entries@;
                    assert(s1 == s0.update(i as int, s0.last()).drop_last());
                    assert(s1.len() == s0.len() - 1);
                    assert forall|p: int| 0 <= p < s1.len() implies
                        #[trigger] s1[p] == (if p == i as int { s0[s0.len() - 1] } else { s0[p] }) by {
                    }
                    assert forall|p: int, q: int| 0 <= p < q < s1.len() implies
                        entry_key(s1[p]) != entry_key(s1[q]) by {
                        let p0 = if p == i as int { s0.len() - 1 } else { p };
                        let q0 = if q == i as int { s0.len() - 1 } else { q };
                        assert(s1[p] == s0[p0] && s1[q] == s0[q0]);
                        assert(p0 != q0);
                        if p0 < q0 {
                            assert(entry_key(s0[p0]) != entry_key(s0[q0]));
                        } else {
                            assert(entry_key(s0[q0]) != entry_key(s0[p0]));
                        }
                    }
                    assert(distinct_keys(s1));
                    assert forall|k: (u128, u128)| true implies
                        (seq_has_key(s1, k) == seq_as_map(s0).remove((a, b)).dom().contains(k)) by {
                        if seq_has_key(s1, k) {
                            let j = seq_key_at(s1, k);
                            let j0 = if j == i as int { s0.len() - 1 } else { j };
                            assert(s1[j] == s0[j0]);
                            lemma_key_index(s0, j0);
                            assert(seq_has_key(s0, k));
                            assert(k != (a, b)) by {
                                if k == (a, b) {
                                    assert(entry_key(s0[j0]) == (a, b));
                                    assert(entry_key(s0[i as int]) == (a, b));
                                    assert(j0 == i as int);
                                    assert(j != i as int);
                                    assert(j0 == s0.len() - 1);
                                    assert(i as int == s0.len() - 1);
                                }
                            }
                        }
                        if seq_has_key(s0, k) && k != (a, b) {
                            let j = seq_key_at(s0, k);
                            assert(entry_key(s0[j]) == k);
                            assert(j != i as int);
                            if j == s0.len() - 1 {
                                assert(i as int != s0.len() - 1);
                                assert(s1[i as int] == s0[j]);
                                assert(seq_has_key(s1, k));
                            } else {
                                assert(s1[j] == s0[j]);
                                assert(entry_key(s1[j]) == k);
                                assert(seq_has_key(s1, k));
                            }
                        }
                    }
                    assert forall|k: (u128, u128)| seq_has_key(s1, k) implies
                        seq_as_map(s1)[k] == seq_as_map(s0).remove((a, b))[k] by {
                        let j = seq_key_at(s1, k);
                        assert(0 <= j < s1.len() && entry_key(s1[j]) == k);
                        let j0 = if j == i as int { s0.len() - 1 } else { j };
                        assert(s1[j] == s0[j0]);
                        lemma_key_index(s1, j);
                        lemma_key_index(s0, j0);
                    }
                    assert(seq_as_map(s1) =~= seq_as_map(s0).remove((a, b)));
                }
            },
            None => {
                proof {
                    assert(seq_as_map(s0) =~= seq_as_map(s0).remove((a, b)));
                }
            },
        }
    }
}

} // verus!
