//! A map from strings to values that keeps the order in which its keys were
//! first inserted.

use crate::text::{texts, Text};
use vstd::hash_map::StringHashMap;
use vstd::prelude::*;

verus! {

/// A map from strings to values.
pub struct Dict<V> {
    keys: Vec<String>,
    values: Vec<V>,
    index: StringHashMap<usize>,
}

impl<V: View> View for Dict<V> {
    type V = Map<Text, V::V>;

    open spec fn view(&self) -> Map<Text, V::V> {
        self.raw().map_values(|v: V| v@)
    }
}

impl<V> Dict<V> {
    #[verifier::type_invariant]
    spec fn wf(&self) -> bool {
        &&& self.keys@.len() == self.values@.len()
        &&& forall|i: int|
            0 <= i < self.keys@.len() ==> self.index@.contains_key((#[trigger] self.keys@[i])@)
                && self.index@[self.keys@[i]@] == i
        &&& forall|k: Text| #[trigger]
            self.index@.contains_key(k) ==> self.index@[k] < self.keys@.len()
                && self.keys@[self.index@[k] as int]@ == k
    }

    /// The entries, with the values themselves.
    pub closed spec fn raw(&self) -> Map<Text, V> {
        Map::new(
            |k: Text| self.index@.contains_key(k),
            |k: Text| self.values@[self.index@[k] as int],
        )
    }

    /// The keys, in the order of their first insertion.
    pub closed spec fn names(&self) -> Seq<Text> {
        texts(self.keys@)
    }

    /// A map without entries.
    pub fn new() -> (r: Self)
        ensures
            r.raw() == Map::<Text, V>::empty(),
            r.names() == Seq::<Text>::empty(),
    {
        let r = Dict { keys: Vec::new(), values: Vec::new(), index: StringHashMap::new() };
        assert(r.raw() =~= Map::<Text, V>::empty());
        assert(r.names() =~= Seq::<Text>::empty());
        r
    }

    /// How many entries there are.
    pub fn len(&self) -> (r: usize)
        ensures
            r == self.names().len(),
            self.names().no_duplicates(),
            forall|k: Text| #[trigger] self.raw().contains_key(k) <==> self.names().contains(k),
    {
        proof {
            use_type_invariant(self);
            assert forall|k: Text| #[trigger] self.raw().contains_key(k) implies self.names().contains(
                k,
            ) by {
                let i = self.index@[k] as int;
                assert(self.names()[i] == k);
            }
            assert forall|k: Text| #[trigger] self.names().contains(k) implies self.raw().contains_key(
                k,
            ) by {
                let i = self.names().index_of(k);
                assert(self.keys@[i]@ == k);
            }
            assert forall|i: int, j: int|
                0 <= i < self.names().len() && 0 <= j < self.names().len() && i
                    != j implies self.names()[i] != self.names()[j] by {
                assert(self.index@[self.keys@[i]@] == i);
                assert(self.index@[self.keys@[j]@] == j);
            }
        }
        self.keys.len()
    }

    /// The key at a place in the order.
    pub fn key(&self, i: usize) -> (r: &String)
        requires
            i < self.names().len(),
        ensures
            r@ == self.names()[i as int],
            self.raw().contains_key(r@),
    {
        proof {
            use_type_invariant(self);
            assert(self.index@.contains_key(self.keys@[i as int]@));
        }
        &self.keys[i]
    }

    /// The value at a place in the order.
    pub fn value(&self, i: usize) -> (r: &V)
        requires
            i < self.names().len(),
        ensures
            *r == self.raw()[self.names()[i as int]],
            self.raw().contains_key(self.names()[i as int]),
    {
        proof {
            use_type_invariant(self);
            assert(self.index@.contains_key(self.keys@[i as int]@));
        }
        &self.values[i]
    }

    /// Whether there is an entry for `k`.
    pub fn contains_key(&self, k: &str) -> (r: bool)
        ensures
            r == self.raw().contains_key(k@),
    {
        self.index.contains_key(k)
    }

    /// The value for `k`.
    pub fn get(&self, k: &str) -> (r: Option<&V>)
        ensures
            match r {
                Some(v) => self.raw().contains_key(k@) && *v == self.raw()[k@],
                None => !self.raw().contains_key(k@),
            },
    {
        proof {
            use_type_invariant(self);
        }
        match self.index.get(k) {
            Some(i) => Some(&self.values[*i]),
            None => None,
        }
    }

    /// Makes `v` the value for `k`.
    pub fn insert(&mut self, k: String, v: V)
        ensures
            final(self).raw() == old(self).raw().insert(k@, v),
            final(self).names() == if old(self).raw().contains_key(k@) {
                old(self).names()
            } else {
                old(self).names().push(k@)
            },
    {
        proof {
            use_type_invariant(&*self);
        }
        let mut other: Dict<V> = Dict::new();
        std::mem::swap(self, &mut other);
        let ghost raw = other.raw();
        let ghost names = other.names();
        proof {
            use_type_invariant(&other);
        }
        let Dict { mut keys, mut values, mut index } = other;
        let ghost was = (keys@, values@, index@);
        let found = match index.get(k.as_str()) {
            Some(i) => Some(*i),
            None => None,
        };
        match found {
            Some(i) => {
                values.set(i, v);
                proof {
                    assert forall|q: Text| was.2.contains_key(q) && q != k@ implies was.2[q] != i by {
                        assert(keys@[was.2[q] as int]@ == q);
                    }
                }
            },
            None => {
                index.insert(k.clone(), keys.len());
                keys.push(k);
                values.push(v);
                assert(texts(keys@) =~= texts(was.0).push(k@));
            },
        }
        let next = Dict { keys, values, index };
        assert(next.raw() =~= raw.insert(k@, v));
        *self = next;
    }

    /// The value for `k`, to be changed in place.
    pub fn get_mut(&mut self, k: &str) -> (r: Option<&mut V>)
        ensures
            match r {
                Some(v) => {
                    &&& old(self).raw().contains_key(k@)
                    &&& *v == old(self).raw()[k@]
                    &&& final(self).raw() == old(self).raw().insert(k@, *final(v))
                    &&& final(self).names() == old(self).names()
                },
                None => !old(self).raw().contains_key(k@) && *final(self) == *old(self),
            },
    {
        proof {
            use_type_invariant(&*self);
        }
        let found = match self.index.get(k) {
            Some(i) => Some(*i),
            None => None,
        };
        match found {
            Some(i) => Some(&mut self.values[i]),
            None => None,
        }
    }

    /// Takes the value for `k` out.
    pub fn remove(&mut self, k: &str) -> (r: Option<V>)
        ensures
            final(self).raw() == old(self).raw().remove(k@),
            r == if old(self).raw().contains_key(k@) {
                Some(old(self).raw()[k@])
            } else {
                None
            },
    {
        let mut other: Dict<V> = Dict::new();
        std::mem::swap(self, &mut other);
        let ghost raw = other.raw();
        let n = other.len();
        let ghost names = other.names();
        proof {
            use_type_invariant(&other);
        }
        let Dict { mut keys, mut values, index } = other;
        let ghost all = (keys@, values@);
        let mut r: Option<V> = None;
        let mut next: Dict<V> = Dict::new();
        let ghost mut i: int = 0;
        assert(keys@ =~= all.0.skip(0) && values@ =~= all.1.skip(0));
        while keys.len() > 0
            invariant
                0 <= i <= n,
                n == names.len(),
                names == texts(all.0),
                names.no_duplicates(),
                all.0.len() == n && all.1.len() == n,
                keys@ == all.0.skip(i),
                values@ == all.1.skip(i),
                forall|j: int|
                    0 <= j < n ==> raw.contains_key(#[trigger] names[j]) && raw[names[j]]
                        == all.1[j],
                forall|q: Text| #[trigger]
                    next.raw().contains_key(q) <==> names.take(i).contains(q) && q != k@,
                forall|q: Text| #[trigger] next.raw().contains_key(q) ==> next.raw()[q] == raw[q],
                r == if names.take(i).contains(k@) {
                    Some(raw[k@])
                } else {
                    None
                },
            decreases keys.len(),
        {
            let key = keys.remove(0);
            let value = values.remove(0);
            let ghost before = names.take(i);
            proof {
                assert(key == all.0[i] && value == all.1[i]);
                assert(names[i] == key@);
                assert(names.take(i + 1) =~= before.push(key@));
                assert(keys@ =~= all.0.skip(i + 1));
                assert(values@ =~= all.1.skip(i + 1));
                assert forall|q: Text| #[trigger] before.push(key@).contains(q) == (before.contains(
                    q,
                ) || q == key@) by {
                    vstd::seq_lib::lemma_seq_contains_after_push(before, key@, q);
                }
                i = i + 1;
            }
            if crate::text::same(key.as_str(), k) {
                r = Some(value);
            } else {
                next.insert(key, value);
            }
        }
        proof {
            assert(names.take(n as int) =~= names);
            assert forall|q: Text| raw.contains_key(q) == names.contains(q) by {}
            assert(next.raw() =~= raw.remove(k@));
        }
        *self = next;
        r
    }

    /// Keeps the entries of some keys only.
    pub fn keep(&mut self, kept: &Vec<String>)
        ensures
            final(self).raw() == old(self).raw().restrict(texts(kept@).to_set()),
    {
        let mut other: Dict<V> = Dict::new();
        std::mem::swap(self, &mut other);
        let ghost raw = other.raw();
        let n = other.len();
        let ghost names = other.names();
        proof {
            use_type_invariant(&other);
        }
        let Dict { mut keys, mut values, index } = other;
        let ghost all = (keys@, values@);
        let mut next: Dict<V> = Dict::new();
        let ghost mut i: int = 0;
        assert(keys@ =~= all.0.skip(0) && values@ =~= all.1.skip(0));
        while keys.len() > 0
            invariant
                0 <= i <= n,
                n == names.len(),
                names == texts(all.0),
                names.no_duplicates(),
                all.0.len() == n && all.1.len() == n,
                keys@ == all.0.skip(i),
                values@ == all.1.skip(i),
                forall|j: int|
                    0 <= j < n ==> raw.contains_key(#[trigger] names[j]) && raw[names[j]]
                        == all.1[j],
                forall|q: Text| #[trigger]
                    next.raw().contains_key(q) <==> names.take(i).contains(q) && texts(
                        kept@,
                    ).contains(q),
                forall|q: Text| #[trigger] next.raw().contains_key(q) ==> next.raw()[q] == raw[q],
            decreases keys.len(),
        {
            let key = keys.remove(0);
            let value = values.remove(0);
            let ghost before = names.take(i);
            proof {
                assert(key == all.0[i] && value == all.1[i]);
                assert(names[i] == key@);
                assert(names.take(i + 1) =~= before.push(key@));
                assert(keys@ =~= all.0.skip(i + 1));
                assert(values@ =~= all.1.skip(i + 1));
                assert forall|q: Text| #[trigger] before.push(key@).contains(q) == (before.contains(
                    q,
                ) || q == key@) by {
                    vstd::seq_lib::lemma_seq_contains_after_push(before, key@, q);
                }
                i = i + 1;
            }
            if crate::order::contains(kept, key.as_str()) {
                next.insert(key, value);
            }
        }
        proof {
            assert(names.take(n as int) =~= names);
            assert forall|q: Text| raw.contains_key(q) == names.contains(q) by {}
            assert(next.raw() =~= raw.restrict(texts(kept@).to_set()));
        }
        *self = next;
    }
}

} // verus!
