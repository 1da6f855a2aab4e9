//! A verified association map keyed by byte strings.
//!
//! The collectible ledger names its tokens by 32-byte digests; this module
//! provides its tables as vectors of entries with pairwise-distinct byte
//! keys, viewed as a `Map` from byte sequences.

use vstd::prelude::*;
use crate::hashing::{bytes_eq, copy_bytes};

verus! {

/// The key of an entry.
pub open spec fn bentry_key<V>(e: (Vec<u8>, V)) -> Seq<u8> {
    e.0@
}

/// Whether some entry of `s` carries the key `k`.
pub open spec fn bseq_has_key<V>(s: Seq<(Vec<u8>, V)>, k: Seq<u8>) -> bool {
    exists|i: int| 0 <= i < s.len() && #[trigger] bentry_key(s[i]) == k
}

/// An index of `s` holding the key `k` (unique when keys are distinct).
pub open spec fn bseq_key_at<V>(s: Seq<(Vec<u8>, V)>, k: Seq<u8>) -> int {
    choose|i: int| 0 <= i < s.len() && #[trigger] bentry_key(s[i]) == k
}

/// No two entries of `s` share a key.
pub open spec fn bdistinct_keys<V>(s: Seq<(Vec<u8>, V)>) -> bool {
    forall|i: int, j: int|
        0 <= i < j < s.len() ==> #[trigger] bentry_key(s[i]) != #[trigger] bentry_key(s[j])
}

/// The map described by an entry sequence.
pub open spec fn bseq_as_map<V: DeepView>(s: Seq<(Vec<u8>, V)>) -> Map<Seq<u8>, <V as DeepView>::V> {
    Map::new(|k: Seq<u8>| bseq_has_key(s, k), |k: Seq<u8>| s[bseq_key_at(s, k)].1.deep_view())
}

/// Under distinct keys, any index holding `k` is the index the map reads.
proof fn lemma_bkey_index<V: DeepView>(s: Seq<(Vec<u8>, V)>, i: int)
    requires
        bdistinct_keys(s),
        0 <= i < s.len(),
    ensures
        bseq_has_key(s, bentry_key(s[i])),
        bseq_key_at(s, bentry_key(s[i])) == i,
        bseq_as_map(s).contains_key(bentry_key(s[i])),
        bseq_as_map(s)[bentry_key(s[i])] == s[i].1.deep_view(),
{
    let k = bentry_key(s[i]);
    assert(bseq_has_key(s, k));
    let j = bseq_key_at(s, k);
    assert(0 <= j < s.len() && bentry_key(s[j]) == k);
    if i != j {
        assert(bentry_key(s[i]) != bentry_key(s[j]));
    }
}

/// An association map from byte strings to values.
pub struct ByteMap<V> {
    entries: Vec<(Vec<u8>, V)>,
}

impl<V: DeepView> View for ByteMap<V> {
    type V = Map<Seq<u8>, <V as DeepView>::V>;

    closed spec fn view(&self) -> Map<Seq<u8>, <V as DeepView>::V> {
        bseq_as_map(self.entries@)
    }
}

impl<V: DeepView> ByteMap<V> {
    /// The stored entries carry pairwise-distinct keys.
    pub closed spec fn wf(&self) -> bool {
        bdistinct_keys(self.entries@)
    }

    pub fn new() -> (r: Self)
        ensures
            r.wf(),
            r@ == Map::<Seq<u8>, <V as DeepView>::V>::empty(),
    {
        let r = ByteMap { entries: Vec::new() };
        proof {
            assert(r@ =~= Map::<Seq<u8>, <V as DeepView>::V>::empty());
        }
        r
    }

    /// Index of the entry with key `k`, if any.
    fn find(&self, k: &Vec<u8>) -> (r: Option<usize>)
        requires
            self.wf(),
        ensures
            match r {
                Some(i) => i < self.entries@.len() && bentry_key(self.entries@[i as int]) == k@
                    && bseq_key_at(self.entries@, k@) == i as int
                    && self@.contains_key(k@)
                    && self@[k@] == self.entries@[i as int].1.deep_view(),
                None => !self@.contains_key(k@),
            },
    {
        let n = self.entries.len();
        let mut i: usize = 0;
        while i < n
            invariant
                self.wf(),
                n == self.entries@.len(),
                0 <= i <= n,
                forall|j: int| 0 <= j < i ==> #[trigger] bentry_key(self.entries@[j]) != k@,
            decreases n - i,
        {
            let hit = bytes_eq(&self.entries[i].0, k);
            if hit {
                proof {
                    lemma_bkey_index(self.entries@, i as int);
                }
                return Some(i);
            }
            i += 1;
        }
        proof {
            assert(!bseq_has_key(self.entries@, k@));
        }
        None
    }

    /// Whether the map holds an entry for `k`.
    pub fn contains(&self, k: &Vec<u8>) -> (r: bool)
        requires
            self.wf(),
        ensures
            r == self@.contains_key(k@),
    {
        self.find(k).is_some()
    }

    /// The value stored under `k`, if any.
    pub fn get(&self, k: &Vec<u8>) -> (r: Option<&V>)
        requires
            self.wf(),
        ensures
            match r {
                Some(v) => self@.contains_key(k@) && v.deep_view() == self@[k@],
                None => !self@.contains_key(k@),
            },
    {
        match self.find(k) {
            Some(i) => Some(&self.entries[i].1),
            None => None,
        }
    }

    /// Store `v` under `k`, replacing any earlier value.
    pub fn insert(&mut self, k: &Vec<u8>, v: V)
        requires
            old(self).wf(),
        ensures
            final(self).wf(),
            final(self)@ == old(self)@.insert(k@, v.deep_view()),
    {
        let ghost s0 = self.entries@;
        let ghost dv = v.deep_view();
        let kc = copy_bytes(k);
        match self.find(k) {
            Some(i) => {
                self.entries[i] = (kc, v);
                proof {
                    let s1 = self.entries@;
                    assert(s1 == s0.update(i as int, (kc, v)));
                    assert(bentry_key(s1[i as int]) == k@);
                    assert forall|p: int, q: int| 0 <= p < q < s1.len() implies
                        bentry_key(s1[p]) != bentry_key(s1[q]) by {
                        assert(bentry_key(s0[p]) != bentry_key(s0[q]));
                        assert(bentry_key(s0[i as int]) == k@);
                        if p != i as int && q != i as int {
                            assert(bentry_key(s1[p]) == bentry_key(s0[p]));
                            assert(bentry_key(s1[q]) == bentry_key(s0[q]));
                        } else if p == i as int {
                            assert(bentry_key(s1[q]) == bentry_key(s0[q]));
                        } else {
                            assert(bentry_key(s1[p]) == bentry_key(s0[p]));
                        }
                    }
                    assert(bdistinct_keys(s1));
                    assert forall|x: Seq<u8>| true implies
                        (bseq_has_key(s1, x) == bseq_as_map(s0).insert(k@, dv).dom().contains(x)) by {
                        if x == k@ {
                            assert(bseq_has_key(s1, x));
                        } else {
                            if bseq_has_key(s1, x) {
                                let j = bseq_key_at(s1, x);
                                assert(bentry_key(s0[j]) == x);
                                assert(bseq_has_key(s0, x));
                            }
                            if bseq_has_key(s0, x) {
                                let j = bseq_key_at(s0, x);
                                assert(j != i as int);
                                assert(bentry_key(s1[j]) == x);
                                assert(bseq_has_key(s1, x));
                            }
                        }
                    }
                    assert forall|x: Seq<u8>| bseq_has_key(s1, x) implies
                        bseq_as_map(s1)[x] == bseq_as_map(s0).insert(k@, dv)[x] by {
                        if x == k@ {
                            lemma_bkey_index(s1, i as int);
                        } else {
                            let j = bseq_key_at(s1, x);
                            assert(0 <= j < s1.len() && bentry_key(s1[j]) == x);
                            assert(j != i as int);
                            lemma_bkey_index(s1, j);
                            lemma_bkey_index(s0, j);
                        }
                    }
                    assert(bseq_as_map(s1) =~= bseq_as_map(s0).insert(k@, dv));
                }
            },
            None => {
                self.entries.push((kc, v));
                proof {
                    let s1 = self.entries@;
                    assert(s1 == s0.push((kc, v)));
                    assert(bentry_key(s1[s1.len() - 1]) == k@);
                    assert forall|p: int, q: int| 0 <= p < q < s1.len() implies
                        bentry_key(s1[p]) != bentry_key(s1[q]) by {
                        if q == s1.len() - 1 {
                            assert(bentry_key(s1[p]) == bentry_key(s0[p]));
                            assert(bseq_has_key(s0, bentry_key(s0[p])));
                            assert(!bseq_has_key(s0, k@));
                        } else {
                            assert(bentry_key(s0[p]) != bentry_key(s0[q]));
                        }
                    }
                    assert(bdistinct_keys(s1));
                    assert forall|x: Seq<u8>| true implies
                        (bseq_has_key(s1, x) == bseq_as_map(s0).insert(k@, dv).dom().contains(x)) by {
                        if x == k@ {
                            assert(bseq_has_key(s1, x));
                        } else {
                            if bseq_has_key(s1, x) {
                                let j = bseq_key_at(s1, x);
                                assert(j != s1.len() - 1);
                                assert(bentry_key(s0[j]) == x);
                                assert(bseq_has_key(s0, x));
                            }
                            if bseq_has_key(s0, x) {
                                let j = bseq_key_at(s0, x);
                                assert(bentry_key(s1[j]) == x);
                                assert(bseq_has_key(s1, x));
                            }
                        }
                    }
                    assert forall|x: Seq<u8>| bseq_has_key(s1, x) implies
                        bseq_as_map(s1)[x] == bseq_as_map(s0).insert(k@, dv)[x] by {
                        if x == k@ {
                            lemma_bkey_index(s1, s1.len() - 1);
                        } else {
                            let j = bseq_key_at(s1, x);
                            assert(0 <= j < s1.len() && bentry_key(s1[j]) == x);
                            assert(j != s1.len() - 1);
                            lemma_bkey_index(s1, j);
                            lemma_bkey_index(s0, j);
                        }
                    }
                    assert(bseq_as_map(s1) =~= bseq_as_map(s0).insert(k@, dv));
                }
            },
        }
    }

    /// Drop the entry under `k`, if any.
    pub fn remove(&mut self, k: &Vec<u8>)
        requires
            old(self).wf(),
        ensures
            final(self).wf(),
            final(self)@ == old(self)@.remove(k@),
    {
        let ghost s0 = self.entries@;
        match self.find(k) {
            Some(i) => {
                self.entries.swap_remove(i);
                proof {
                    let s1 = self.entries@;
                    assert(s1 == s0.update(i as int, s0.last()).drop_last());
                    assert(s1.len() == s0.len() - 1);
                    assert forall|p: int| 0 <= p < s1.len() implies
                        #[trigger] s1[p] == (if p == i as int { s0[s0.len() - 1] } else { s0[p] }) by {
                    }
                    assert forall|p: int, q: int| 0 <= p < q < s1.len() implies
                        bentry_key(s1[p]) != bentry_key(s1[q]) by {
                        let p0 = if p == i as int { s0.len() - 1 } else { p };
                        let q0 = if q == i as int { s0.len() - 1 } else { q };
                        assert(s1[p] == s0[p0] && s1[q] == s0[q0]);
                        assert(p0 != q0);
                        if p0 < q0 {
                            assert(bentry_key(s0[p0]) != bentry_key(s0[q0]));
                        } else {
                            assert(bentry_key(s0[q0]) != bentry_key(s0[p0]));
                        }
                    }
                    assert(bdistinct_keys(s1));
                    assert forall|x: Seq<u8>| true implies
                        (bseq_has_key(s1, x) == bseq_as_map(s0).remove(k@).dom().contains(x)) by {
                        if bseq_has_key(s1, x) {
                            let j = bseq_key_at(s1, x);
                            let j0 = if j == i as int { s0.len() - 1 } else { j };
                            assert(s1[j] == s0[j0]);
                            lemma_bkey_index(s0, j0);
                            assert(bseq_has_key(s0, x));
                            assert(x != k@) by {
                                if x == k@ {
                                    assert(bentry_key(s0[j0]) == k@);
                                    assert(bentry_key(s0[i as int]) == k@);
                                    assert(j0 == i as int);
                                    assert(j != i as int);
                                    assert(j0 == s0.len() - 1);
                                    assert(i as int == s0.len() - 1);
                                }
                            }
                        }
                        if bseq_has_key(s0, x) && x != k@ {
                            let j = bseq_key_at(s0, x);
                            assert(bentry_key(s0[j]) == x);
                            assert(j != i as int);
                            if j == s0.len() - 1 {
                                assert(i as int != s0.len() - 1);
                                assert(s1[i as int] == s0[j]);
                                assert(bseq_has_key(s1, x));
                            } else {
                                assert(s1[j] == s0[j]);
                                assert(bentry_key(s1[j]) == x);
                                assert(bseq_has_key(s1, x));
                            }
                        }
                    }
                    assert forall|x: Seq<u8>| bseq_has_key(s1, x) implies
                        bseq_as_map(s1)[x] == bseq_as_map(s0).remove(k@)[x] by {
                        let j = bseq_key_at(s1, x);
                        assert(0 <= j < s1.len() && bentry_key(s1[j]) == x);
                        let j0 = if j == i as int { s0.len() - 1 } else { j };
                        assert(s1[j] == s0[j0]);
                        lemma_bkey_index(s1, j);
                        lemma_bkey_index(s0, j0);
                    }
                    assert(bseq_as_map(s1) =~= bseq_as_map(s0).remove(k@));
                }
            },
            None => {
                proof {
                    assert(bseq_as_map(s0) =~= bseq_as_map(s0).remove(k@));
                }
            },
        }
    }
}

} // verus!
