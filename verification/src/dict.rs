//! A key-value store with string keys, the unit of persistence for both
//! license models.
//!
//! Records are kept in insertion order in a vector, one record per key;
//! the abstract value of a store is the finite map from key characters to
//! the value's abstract value.

use vstd::prelude::*;

use crate::text::str_eq;

verus! {

/// Folds an association sequence into the map it stands for.  A later
/// record for a key overrides an earlier one.
pub open spec fn assoc_map<K, T>(s: Seq<(K, T)>) -> Map<K, T>
    decreases s.len(),
{
    if s.len() == 0 {
        Map::empty()
    } else {
        assoc_map(s.drop_last()).insert(s.last().0, s.last().1)
    }
}

/// Each key occurs at most once in the association sequence.
pub open spec fn unique_keys<K, T>(s: Seq<(K, T)>) -> bool {
    forall|i: int, j: int| 0 <= i < j < s.len() ==> s[i].0 != s[j].0
}

/// How an association sequence without repeated keys relates to the map
/// it folds into: same cardinality, and lookup returns the paired value.
pub proof fn lemma_assoc_map_properties<K, T>(s: Seq<(K, T)>)
    requires
        unique_keys(s),
    ensures
        assoc_map(s).dom().finite(),
        assoc_map(s).len() == s.len(),
        forall|k: K| #[trigger]
            assoc_map(s).contains_key(k) ==> exists|i: int| 0 <= i < s.len() && s[i].0 == k,
        forall|i: int|
            0 <= i < s.len() ==> assoc_map(s).contains_key(#[trigger] s[i].0)
                && assoc_map(s)[s[i].0] == s[i].1,
    decreases s.len(),
{
    if s.len() > 0 {
        let t = s.drop_last();
        let k = s.last().0;
        assert(unique_keys(t)) by {
            assert(forall|i: int| 0 <= i < t.len() ==> t[i] == s[i]);
        }
        lemma_assoc_map_properties(t);
        assert(!assoc_map(t).contains_key(k)) by {
            if assoc_map(t).contains_key(k) {
                let i = choose|i: int| 0 <= i < t.len() && t[i].0 == k;
                assert(s[i].0 == s[s.len() - 1].0);
            }
        }
        assert(assoc_map(s).dom() =~= assoc_map(t).dom().insert(k));
        assert forall|kk: K| #[trigger]
            assoc_map(s).contains_key(kk) implies exists|i: int|
            0 <= i < s.len() && s[i].0 == kk by {
            if kk == k {
                assert(s[s.len() - 1].0 == kk);
            } else {
                let i = choose|i: int| 0 <= i < t.len() && t[i].0 == kk;
                assert(s[i].0 == kk);
            }
        }
        assert forall|i: int| 0 <= i < s.len() implies assoc_map(s).contains_key(
            #[trigger] s[i].0,
        ) && assoc_map(s)[s[i].0] == s[i].1 by {
            if i < s.len() - 1 {
                assert(t[i] == s[i]);
                assert(s[i].0 != k);
                assert(assoc_map(t).contains_key(t[i].0) && assoc_map(t)[t[i].0] == t[i].1);
            }
        }
    }
}

/// A key is in the folded map exactly when some record carries it.
pub proof fn lemma_assoc_map_contains<K, T>(s: Seq<(K, T)>, k: K)
    ensures
        assoc_map(s).contains_key(k) <==> exists|i: int| 0 <= i < s.len() && s[i].0 == k,
    decreases s.len(),
{
    if s.len() > 0 {
        lemma_assoc_map_contains(s.drop_last(), k);
        if assoc_map(s).contains_key(k) && s.last().0 != k {
            let i = choose|i: int| 0 <= i < s.len() - 1 && s.drop_last()[i].0 == k;
            assert(s[i].0 == k);
        }
        if exists|i: int| 0 <= i < s.len() && s[i].0 == k {
            let i = choose|i: int| 0 <= i < s.len() && s[i].0 == k;
            if i < s.len() - 1 {
                assert(s.drop_last()[i].0 == k);
            }
        }
    }
}

/// Lookup in the folded map returns the value of the latest record for
/// the key.
pub proof fn lemma_assoc_map_last_match<K, T>(s: Seq<(K, T)>, i: int)
    requires
        0 <= i < s.len(),
        forall|j: int| i < j < s.len() ==> s[j].0 != s[i].0,
    ensures
        assoc_map(s).contains_key(s[i].0),
        assoc_map(s)[s[i].0] == s[i].1,
    decreases s.len(),
{
    if i < s.len() - 1 {
        let t = s.drop_last();
        assert(forall|j: int| i < j < t.len() ==> t[j].0 != t[i].0) by {
            assert(forall|j: int| 0 <= j < t.len() ==> t[j] == s[j]);
        }
        lemma_assoc_map_last_match(t, i);
    }
}

/// A store of values of type `V`, addressed by string keys.
#[derive(Debug)]
pub struct Dict<V: View> {
    pairs: Vec<(String, V)>,
}

impl<V: View> View for Dict<V> {
    type V = Map<Seq<char>, V::V>;

    open spec fn view(&self) -> Map<Seq<char>, V::V> {
        assoc_map(self.kv_seq())
    }
}

impl<V: View> Dict<V> {
    /// One record per key.
    #[verifier::type_invariant]
    spec fn wf(self) -> bool {
        unique_keys(self.kv_seq())
    }

    /// The stored records in storage order, keys and values abstracted.
    pub closed spec fn kv_seq(self) -> Seq<(Seq<char>, V::V)> {
        self.pairs@.map_values(|p: (String, V)| (p.0@, p.1@))
    }

    /// An empty store.
    pub fn new() -> (d: Self)
        ensures
            d@ == Map::<Seq<char>, V::V>::empty(),
            d.kv_seq() == Seq::<(Seq<char>, V::V)>::empty(),
    {
        let d = Dict { pairs: Vec::new() };
        proof {
            assert(d.kv_seq() =~= Seq::<(Seq<char>, V::V)>::empty());
        }
        d
    }

    /// The number of stored records.
    pub fn len(&self) -> (n: usize)
        ensures
            n == self@.len(),
            n == self.kv_seq().len(),
    {
        proof {
            use_type_invariant(self);
            lemma_assoc_map_properties(self.kv_seq());
        }
        self.pairs.len()
    }

    /// Whether no record is stored.
    pub fn is_empty(&self) -> (r: bool)
        ensures
            r == (self@.len() == 0),
    {
        self.len() == 0
    }

    /// The index of the record for `key`, if one is stored.
    fn position(&self, key: &str) -> (r: Option<usize>)
        ensures
            match r {
                Some(i) => i < self.kv_seq().len() && self.kv_seq()[i as int].0 == key@,
                None => forall|i: int|
                    0 <= i < self.kv_seq().len() ==> self.kv_seq()[i].0 != key@,
            },
    {
        let n = self.pairs.len();
        let mut i: usize = 0;
        while i < n
            invariant
                n == self.pairs@.len(),
                i <= n,
                forall|j: int| 0 <= j < i ==> self.kv_seq()[j].0 != key@,
            decreases n - i,
        {
            if str_eq(self.pairs[i].0.as_str(), key) {
                return Some(i);
            }
            i += 1;
        }
        None
    }

    /// Whether a record for `key` is stored.
    pub fn contains_key(&self, key: &str) -> (r: bool)
        ensures
            r == self@.contains_key(key@),
    {
        proof {
            use_type_invariant(self);
            lemma_assoc_map_properties(self.kv_seq());
        }
        self.position(key).is_some()
    }

    /// The value stored under `key`, if any.
    pub fn get(&self, key: &str) -> (r: Option<&V>)
        ensures
            match r {
                Some(v) => self@.contains_key(key@) && v@ == self@[key@],
                None => !self@.contains_key(key@),
            },
    {
        proof {
            use_type_invariant(self);
            lemma_assoc_map_properties(self.kv_seq());
        }
        match self.position(key) {
            Some(i) => Some(&self.pairs[i].1),
            None => None,
        }
    }

    /// Stores `value` under `key`, replacing any earlier record for it.
    pub fn insert(&mut self, key: &str, value: V)
        ensures
            final(self)@ == old(self)@.insert(key@, value@),
    {
        proof {
            use_type_invariant(&*self);
            lemma_assoc_map_properties(self.kv_seq());
        }
        let ghost old_kv = self.kv_seq();
        let pos = self.position(key);
        let mut pairs: Vec<(String, V)> = Vec::new();
        core::mem::swap(&mut pairs, &mut self.pairs);
        match pos {
            Some(i) => {
                pairs.remove(i);
                proof {
                    assert(pairs@.map_values(|p: (String, V)| (p.0@, p.1@)) =~= old_kv.remove(
                        i as int,
                    ));
                }
            },
            None => {},
        }
        pairs.push((key.to_owned(), value));
        let ghost mid_kv = pairs@.map_values(|p: (String, V)| (p.0@, p.1@));
        proof {
            match pos {
                Some(i) => {
                    assert(mid_kv =~= old_kv.remove(i as int).push((key@, value@)));
                    assert(unique_keys(mid_kv)) by {
                        assert(forall|j: int|
                            0 <= j < old_kv.len() && j != i ==> #[trigger] old_kv[j].0 != key@)
                            by {
                            assert(forall|j: int|
                                0 <= j < old_kv.len() && j != i ==> #[trigger] old_kv[j].0
                                    != old_kv[i as int].0);
                        }
                    }
                    lemma_assoc_map_properties(mid_kv);
                    assert(assoc_map(mid_kv) =~= assoc_map(old_kv).insert(key@, value@)) by {
                        lemma_assoc_map_properties(old_kv);
                        assert forall|k: Seq<char>|
                            assoc_map(old_kv).insert(key@, value@).contains_key(
                                k,
                            ) implies #[trigger] assoc_map(mid_kv).contains_key(k) by {
                            if k == key@ {
                                assert(mid_kv[mid_kv.len() - 1].0 == k);
                            } else {
                                let j = choose|j: int|
                                    0 <= j < old_kv.len() && old_kv[j].0 == k;
                                if j < i {
                                    assert(mid_kv[j].0 == k);
                                } else {
                                    assert(mid_kv[j - 1].0 == k);
                                }
                            }
                        }
                        assert forall|k: Seq<char>|
                            #[trigger] assoc_map(mid_kv).contains_key(k) implies assoc_map(
                            old_kv,
                        ).insert(key@, value@).contains_key(k) && assoc_map(mid_kv)[k] == assoc_map(
                            old_kv,
                        ).insert(key@, value@)[k] by {
                            let j = choose|j: int| 0 <= j < mid_kv.len() && mid_kv[j].0 == k;
                            if j == mid_kv.len() - 1 {
                                assert(assoc_map(mid_kv)[k] == value@);
                            } else {
                                let jj = if j < i {
                                    j
                                } else {
                                    j + 1
                                };
                                assert(old_kv[jj] == mid_kv[j]);
                                assert(assoc_map(old_kv)[k] == old_kv[jj].1);
                            }
                        }
                    }
                },
                None => {
                    assert(mid_kv =~= old_kv.push((key@, value@)));
                    assert(unique_keys(mid_kv));
                    assert(mid_kv.drop_last() =~= old_kv);
                },
            }
        }
        self.pairs = pairs;
    }

    /// The record at storage position `i`.
    pub fn pair_at(&self, i: usize) -> (r: &(String, V))
        requires
            i < self.kv_seq().len(),
        ensures
            (r.0@, r.1@) == self.kv_seq()[i as int],
    {
        &self.pairs[i]
    }
}

} // verus!
