//! A map keyed by byte strings that keeps its entries in ascending key
//! order. Equal contents therefore always lie in the same arrangement,
//! whatever the order in which they were put in.

use vstd::prelude::*;
use crate::order::{compare_bytes, lemma_lex_asymmetric, lemma_lex_irreflexive,
    lemma_lex_transitive, lex_lt, strictly_increasing, Order};

verus! {

/// The place at which `k` stands in `keys`.
pub open spec fn position(keys: Seq<Seq<u8>>, k: Seq<u8>) -> int {
    choose|i: int| 0 <= i < keys.len() && keys[i] == k
}

/// The map that sends each key of `keys` to the value standing at the same
/// place in `values`.
pub open spec fn pairs_map<V>(keys: Seq<Seq<u8>>, values: Seq<V>) -> Map<Seq<u8>, V> {
    Map::new(|k: Seq<u8>| keys.contains(k), |k: Seq<u8>| values[position(keys, k)])
}

/// In an ascending sequence each key stands at one place only.
pub proof fn lemma_position(keys: Seq<Seq<u8>>, i: int)
    requires
        strictly_increasing(keys),
        0 <= i < keys.len(),
    ensures
        position(keys, keys[i]) == i,
{
    let p = position(keys, keys[i]);
    if p < i {
        lemma_lex_asymmetric(keys[p], keys[i]);
    } else if i < p {
        lemma_lex_asymmetric(keys[i], keys[p]);
    }
}

/// Two ascending sequences with the same members are the same sequence.
pub proof fn lemma_ascending_unique(p: Seq<Seq<u8>>, q: Seq<Seq<u8>>)
    requires
        strictly_increasing(p),
        strictly_increasing(q),
        forall|k: Seq<u8>| p.contains(k) <==> q.contains(k),
    ensures
        p == q,
    decreases p.len(),
{
    if p.len() == 0 {
        if q.len() > 0 {
            assert(q.contains(q[0]));
        }
        assert(p =~= q);
    } else {
        assert(p.contains(p[0]));
        assert(q.contains(p[0]));
        let j = choose|j: int| 0 <= j < q.len() && q[j] == p[0];
        assert(q.contains(q[0]));
        assert(p.contains(q[0]));
        let i = choose|i: int| 0 <= i < p.len() && p[i] == q[0];
        if j > 0 && i > 0 {
            lemma_lex_asymmetric(q[0], q[j]);
        }
        if j > 0 && i == 0 {
            lemma_lex_irreflexive(q[0]);
        }
        assert(p[0] == q[0]);
        let pt = p.subrange(1, p.len() as int);
        let qt = q.subrange(1, q.len() as int);
        assert forall|k: Seq<u8>| pt.contains(k) <==> qt.contains(k) by {
            if pt.contains(k) {
                let a = choose|a: int| 0 <= a < pt.len() && pt[a] == k;
                assert(p[a + 1] == k);
                lemma_lex_asymmetric(p[0], p[a + 1]);
                assert(p.contains(k));
                let b = choose|b: int| 0 <= b < q.len() && q[b] == k;
                assert(qt[b - 1] == k);
            }
            if qt.contains(k) {
                let a = choose|a: int| 0 <= a < qt.len() && qt[a] == k;
                assert(q[a + 1] == k);
                lemma_lex_asymmetric(q[0], q[a + 1]);
                assert(q.contains(k));
                let b = choose|b: int| 0 <= b < p.len() && p[b] == k;
                assert(pt[b - 1] == k);
            }
        }
        assert(strictly_increasing(pt)) by {
            assert forall|a: int, b: int| 0 <= a < b < pt.len() implies lex_lt(pt[a], pt[b]) by {
                assert(lex_lt(p[a + 1], p[b + 1]));
            }
        }
        assert(strictly_increasing(qt)) by {
            assert forall|a: int, b: int| 0 <= a < b < qt.len() implies lex_lt(qt[a], qt[b]) by {
                assert(lex_lt(q[a + 1], q[b + 1]));
            }
        }
        lemma_ascending_unique(pt, qt);
        assert(p =~= q) by {
            assert forall|a: int| 0 <= a < p.len() implies p[a] == q[a] by {
                if a > 0 {
                    assert(pt[a - 1] == qt[a - 1]);
                }
            }
        }
    }
}

/// An ascending sequence holds no key twice, so it is as long as the set of
/// its members is large.
pub proof fn lemma_ascending_count(keys: Seq<Seq<u8>>)
    requires
        strictly_increasing(keys),
    ensures
        keys.no_duplicates(),
        keys.to_set().len() == keys.len(),
        keys.to_set().finite(),
{
    assert forall|i: int, j: int| 0 <= i < keys.len() && 0 <= j < keys.len() && i != j implies keys[i]
        != keys[j] by {
        if i < j {
            lemma_lex_asymmetric(keys[i], keys[j]);
        } else {
            lemma_lex_asymmetric(keys[j], keys[i]);
        }
    }
    keys.unique_seq_to_set();
    vstd::seq_lib::seq_to_set_is_finite(keys);
}

/// One entry of a [`SortedMap`].
#[derive(Debug)]
pub struct Slot<V> {
    pub key: Vec<u8>,
    pub value: V,
}

/// A map from byte strings to values, held in ascending key order.
#[derive(Debug)]
pub struct SortedMap<V> {
    slots: Vec<Slot<V>>,
}

impl<V> View for SortedMap<V> {
    type V = Map<Seq<u8>, V>;

    open spec fn view(&self) -> Map<Seq<u8>, V> {
        pairs_map(self.keys(), self.values())
    }
}

impl<V> SortedMap<V> {
    /// The keys, in the order in which they are held.
    pub closed spec fn keys(&self) -> Seq<Seq<u8>> {
        Seq::new(self.slots@.len(), |i: int| self.slots@[i].key@)
    }

    /// The values, each at the place of its key.
    pub closed spec fn values(&self) -> Seq<V> {
        Seq::new(self.slots@.len(), |i: int| self.slots@[i].value)
    }

    /// The keys ascend, and each has its value.
    pub open spec fn wf(&self) -> bool {
        &&& strictly_increasing(self.keys())
        &&& self.keys().len() == self.values().len()
    }

    /// An empty map.
    pub fn new() -> (r: Self)
        ensures
            r.wf(),
            r.keys().len() == 0,
            r@ == Map::<Seq<u8>, V>::empty(),
    {
        let r = SortedMap { slots: Vec::new() };
        assert(r@ =~= Map::<Seq<u8>, V>::empty());
        r
    }

    /// Number of entries.
    pub fn len(&self) -> (n: usize)
        ensures
            n == self.keys().len(),
            n == self.values().len(),
    {
        self.slots.len()
    }

    /// The key held at place `i`.
    pub fn key_at(&self, i: usize) -> (k: &Vec<u8>)
        requires
            i < self.keys().len(),
        ensures
            k@ == self.keys()[i as int],
    {
        &self.slots[i].key
    }

    /// The value held at place `i`.
    pub fn value_at(&self, i: usize) -> (v: &V)
        requires
            i < self.keys().len(),
        ensures
            *v == self.values()[i as int],
    {
        &self.slots[i].value
    }

    /// Finds the place of `key` by bisection: either where it stands, or
    /// where it would have to be put to keep the keys ascending.
    fn locate(&self, key: &[u8]) -> (r: (bool, usize))
        requires
            self.wf(),
        ensures
            r.1 <= self.keys().len(),
            r.0 ==> r.1 < self.keys().len() && self.keys()[r.1 as int] == key@,
            !r.0 ==> !self.keys().contains(key@),
            forall|i: int| 0 <= i < r.1 ==> lex_lt(#[trigger] self.keys()[i], key@),
            forall|i: int|
                r.1 <= i < self.keys().len() && !(r.0 && i == r.1) ==> lex_lt(
                    key@,
                    #[trigger] self.keys()[i],
                ),
    {
        let mut lo: usize = 0;
        let mut hi: usize = self.slots.len();
        while lo < hi
            invariant
                self.wf(),
                lo <= hi <= self.slots@.len(),
                self.keys().len() == self.slots@.len(),
                forall|i: int| 0 <= i < lo ==> lex_lt(#[trigger] self.keys()[i], key@),
                forall|i: int| hi <= i < self.keys().len() ==> lex_lt(key@, #[trigger] self.keys()[i]),
            decreases hi - lo,
        {
            let mid: usize = lo + (hi - lo) / 2;
            match compare_bytes(self.slots[mid].key.as_slice(), key) {
                Order::Equal => {
                    proof {
                        assert(self.keys()[mid as int] == key@);
                        assert forall|i: int| 0 <= i < mid implies lex_lt(
                            #[trigger] self.keys()[i],
                            key@,
                        ) by {
                            assert(lex_lt(self.keys()[i], self.keys()[mid as int]));
                        }
                        assert forall|i: int| mid < i < self.keys().len() implies lex_lt(
                            key@,
                            #[trigger] self.keys()[i],
                        ) by {
                            assert(lex_lt(self.keys()[mid as int], self.keys()[i]));
                        }
                    }
                    return (true, mid);
                },
                Order::Less => {
                    proof {
                        assert forall|i: int| 0 <= i < mid + 1 implies lex_lt(
                            #[trigger] self.keys()[i],
                            key@,
                        ) by {
                            if i < mid {
                                assert(lex_lt(self.keys()[i], self.keys()[mid as int]));
                                lemma_lex_transitive(self.keys()[i], self.keys()[mid as int], key@);
                            }
                        }
                    }
                    lo = mid + 1;
                },
                Order::Greater => {
                    proof {
                        assert forall|i: int| mid <= i < self.keys().len() implies lex_lt(
                            key@,
                            #[trigger] self.keys()[i],
                        ) by {
                            if mid < i {
                                assert(lex_lt(self.keys()[mid as int], self.keys()[i]));
                                lemma_lex_transitive(key@, self.keys()[mid as int], self.keys()[i]);
                            }
                        }
                    }
                    hi = mid;
                },
            }
        }
        proof {
            if self.keys().contains(key@) {
                let i = choose|i: int| 0 <= i < self.keys().len() && self.keys()[i] == key@;
                lemma_lex_irreflexive(key@);
                if i < lo {
                    assert(lex_lt(self.keys()[i], key@));
                } else {
                    assert(lex_lt(key@, self.keys()[i]));
                }
            }
        }
        (false, lo)
    }

    /// Whether `key` has an entry.
    pub fn contains_key(&self, key: &[u8]) -> (r: bool)
        requires
            self.wf(),
        ensures
            r == self@.contains_key(key@),
    {
        let (found, at) = self.locate(key);
        proof {
            if found {
                assert(self.keys().contains(key@));
            }
        }
        found
    }

    /// The value that `key` is mapped to, if it has an entry.
    pub fn get(&self, key: &[u8]) -> (r: Option<&V>)
        requires
            self.wf(),
        ensures
            r.is_some() == self@.contains_key(key@),
            r.is_some() ==> *r.unwrap() == self@[key@],
    {
        let (found, at) = self.locate(key);
        if found {
            proof {
                assert(self.keys().contains(key@));
                lemma_position(self.keys(), at as int);
            }
            Some(&self.slots[at].value)
        } else {
            None
        }
    }

    /// Puts `value` under `key`; an entry that `key` had before is replaced.
    pub fn insert(&mut self, key: Vec<u8>, value: V)
        requires
            old(self).wf(),
        ensures
            final(self).wf(),
            final(self)@ == old(self)@.insert(key@, value),
            final(self).keys().len() == old(self).keys().len() + (if old(self)@.contains_key(key@) {
                0int
            } else {
                1int
            }),
    {
        let (found, at) = self.locate(key.as_slice());
        let ghost old_keys = self.keys();
        let ghost old_values = self.values();
        let ghost k = key@;
        if found {
            self.slots.set(at, Slot { key, value });
            proof {
                assert(self.keys() =~= old_keys);
                assert(self.values() =~= old_values.update(at as int, value));
                assert(old_keys.contains(k));
                assert forall|x: Seq<u8>| #[trigger] old_keys.contains(x) && x != k implies pairs_map(
                    self.keys(),
                    self.values(),
                )[x] == pairs_map(old_keys, old_values)[x] by {
                    let p = position(old_keys, x);
                    assert(p != at);
                }
                lemma_position(old_keys, at as int);
                assert(self@ =~= pairs_map(old_keys, old_values).insert(k, value));
            }
        } else {
            self.slots.insert(at, Slot { key, value });
            proof {
                assert(self.keys() =~= old_keys.insert(at as int, k));
                assert(self.values() =~= old_values.insert(at as int, value));
                let new_keys = self.keys();
                let new_values = self.values();
                assert forall|i: int, j: int| 0 <= i < j < new_keys.len() implies lex_lt(
                    new_keys[i],
                    new_keys[j],
                ) by {
                    if j < at {
                        assert(lex_lt(old_keys[i], old_keys[j]));
                    } else if j == at {
                        assert(lex_lt(old_keys[i], k));
                    } else if i < at {
                        assert(lex_lt(old_keys[i], old_keys[j - 1]));
                    } else if i == at {
                        assert(lex_lt(k, old_keys[j - 1]));
                    } else {
                        assert(lex_lt(old_keys[i - 1], old_keys[j - 1]));
                    }
                }
                assert(new_keys[at as int] == k);
                assert forall|x: Seq<u8>| new_keys.contains(x) <==> (x == k || old_keys.contains(
                    x,
                )) by {
                    if new_keys.contains(x) {
                        let p = choose|p: int| 0 <= p < new_keys.len() && new_keys[p] == x;
                        if p < at {
                            assert(old_keys[p] == x);
                        } else if p > at {
                            assert(old_keys[p - 1] == x);
                        }
                    }
                    if old_keys.contains(x) {
                        let p = choose|p: int| 0 <= p < old_keys.len() && old_keys[p] == x;
                        if p < at {
                            assert(new_keys[p] == x);
                        } else {
                            assert(new_keys[p + 1] == x);
                        }
                    }
                }
                lemma_position(new_keys, at as int);
                assert forall|x: Seq<u8>| #[trigger] old_keys.contains(x) implies pairs_map(
                    new_keys,
                    new_values,
                )[x] == pairs_map(old_keys, old_values)[x] by {
                    let p = position(old_keys, x);
                    if p < at {
                        assert(new_keys[p] == x);
                        lemma_position(new_keys, p);
                    } else {
                        assert(new_keys[p + 1] == x);
                        lemma_position(new_keys, p + 1);
                    }
                }
                assert(self@ =~= pairs_map(old_keys, old_values).insert(k, value));
            }
        }
    }
}

/// Each key of a well-formed map is mapped to the value at its own place.
pub proof fn lemma_entry<V>(m: &SortedMap<V>, i: int)
    requires
        m.wf(),
        0 <= i < m.keys().len(),
    ensures
        m@.contains_key(m.keys()[i]),
        m@[m.keys()[i]] == m.values()[i],
{
    lemma_position(m.keys(), i);
    assert(m.keys().contains(m.keys()[i]));
}

/// Two maps with the same contents hold them in the same arrangement,
/// however each was filled.
pub proof fn lemma_canonical<V>(a: &SortedMap<V>, b: &SortedMap<V>)
    requires
        a.wf(),
        b.wf(),
        a@ == b@,
    ensures
        a.keys() == b.keys(),
        a.values() == b.values(),
{
    assert forall|k: Seq<u8>| a.keys().contains(k) <==> b.keys().contains(k) by {
        assert(a@.contains_key(k) == a.keys().contains(k));
        assert(b@.contains_key(k) == b.keys().contains(k));
    }
    lemma_ascending_unique(a.keys(), b.keys());
    assert forall|i: int| 0 <= i < a.values().len() implies a.values()[i] == b.values()[i] by {
        lemma_entry(a, i);
        lemma_entry(b, i);
    }
    assert(a.values() =~= b.values());
}

} // verus!
