//! Maps whose keys are strings, kept in the order of the keys; the fields of a record are one.
use crate::sorted::{
    found_at, lemma_insert_ordered, lemma_listed, lemma_ordered_distinct, lemma_remove_ordered, listed,
    lower_bound, ordered,
};
use crate::text::{copy_all, views};
use vstd::prelude::*;

verus! {

/// The map that takes each key to the value at its place.
pub open spec fn map_of<T>(ks: Seq<Seq<char>>, vs: Seq<T>) -> Map<Seq<char>, T> {
    Map::new(|k: Seq<char>| ks.contains(k), |k: Seq<char>| vs[ks.index_of(k)])
}

/// The keys of a finite map in increasing order.
pub open spec fn keys_of<T>(m: Map<Seq<char>, T>) -> Seq<Seq<char>> {
    listed(m.dom())
}

/// The contents of a sequence of values.
pub open spec fn value_views<V: View>(v: Seq<V>) -> Seq<V::V> {
    Seq::new(v.len(), |i: int| v[i]@)
}

/// A map from strings to values.
#[derive(Debug)]
pub struct StringMap<V> {
    keys: Vec<String>,
    values: Vec<V>,
}

/// The fields of a record: a map from keys to values.
pub type Fields = StringMap<String>;

impl<V: View> View for StringMap<V> {
    type V = Map<Seq<char>, V::V>;

    closed spec fn view(&self) -> Map<Seq<char>, V::V> {
        map_of(views(self.keys@), value_views(self.values@))
    }
}

proof fn lemma_map_of<T>(ks: Seq<Seq<char>>, vs: Seq<T>, i: int)
    requires
        ordered(ks),
        ks.len() == vs.len(),
        0 <= i < ks.len(),
    ensures
        map_of(ks, vs).contains_key(ks[i]),
        map_of(ks, vs)[ks[i]] == vs[i],
{
    let j = ks.index_of(ks[i]);
    assert(ks.contains(ks[i]));
    lemma_ordered_distinct(ks, i, j);
}

proof fn lemma_map_update<T>(ks: Seq<Seq<char>>, vs: Seq<T>, at: int, v: T)
    requires
        ordered(ks),
        ks.len() == vs.len(),
        0 <= at < ks.len(),
    ensures
        map_of(ks, vs.update(at, v)) == map_of(ks, vs).insert(ks[at], v),
{
    let a = map_of(ks, vs.update(at, v));
    let b = map_of(ks, vs).insert(ks[at], v);
    assert(ks.contains(ks[at]));
    assert forall|x: Seq<char>| #[trigger] a.dom().contains(x) implies a[x] == b[x] by {
        let j = ks.index_of(x);
        if x == ks[at] {
            lemma_ordered_distinct(ks, j, at);
        }
    }
    assert(a.dom() =~= b.dom());
    assert(a =~= b);
}

proof fn lemma_map_insert<T>(ks: Seq<Seq<char>>, vs: Seq<T>, at: int, k: Seq<char>, v: T)
    requires
        ordered(ks),
        ks.len() == vs.len(),
        0 <= at <= ks.len(),
        ordered(ks.insert(at, k)),
        ks.insert(at, k).to_set() == ks.to_set().insert(k),
    ensures
        map_of(ks.insert(at, k), vs.insert(at, v)) == map_of(ks, vs).insert(k, v),
{
    let ks2 = ks.insert(at, k);
    let a = map_of(ks2, vs.insert(at, v));
    let b = map_of(ks, vs).insert(k, v);
    assert(a.dom() =~= ks2.to_set());
    assert(map_of(ks, vs).dom() =~= ks.to_set());
    assert(a.dom() =~= b.dom());
    assert forall|x: Seq<char>| #[trigger] a.dom().contains(x) implies a[x] == b[x] by {
        let j = ks2.index_of(x);
        assert(ks2.contains(x));
        if j != at {
            let j0 = if j < at { j } else { j - 1 };
            assert(ks[j0] == x);
            if x == k {
                assert(ks2[at] == k);
                lemma_ordered_distinct(ks2, j, at);
            }
            lemma_map_of(ks, vs, j0);
        }
    }
    assert(a =~= b);
}

proof fn lemma_map_remove<T>(ks: Seq<Seq<char>>, vs: Seq<T>, at: int)
    requires
        ordered(ks),
        ks.len() == vs.len(),
        0 <= at < ks.len(),
    ensures
        ordered(ks.remove(at)),
        map_of(ks.remove(at), vs.remove(at)) == map_of(ks, vs).remove(ks[at]),
{
    lemma_remove_ordered(ks, at);
    let ks2 = ks.remove(at);
    let a = map_of(ks2, vs.remove(at));
    let b = map_of(ks, vs).remove(ks[at]);
    assert(a.dom() =~= ks2.to_set());
    assert(map_of(ks, vs).dom() =~= ks.to_set());
    assert(a.dom() =~= b.dom());
    assert forall|x: Seq<char>| #[trigger] a.dom().contains(x) implies a[x] == b[x] by {
        let j = ks2.index_of(x);
        assert(ks2.contains(x));
        let j0 = if j < at { j } else { j + 1 };
        assert(ks[j0] == x);
        lemma_map_of(ks, vs, j0);
    }
    assert(a =~= b);
}

impl<V> StringMap<V> {
    #[verifier::type_invariant]
    spec fn inv(self) -> bool {
        ordered(views(self.keys@)) && self.keys@.len() == self.values@.len()
    }
}

impl<V: View> StringMap<V> {
    proof fn lemma_keys(self)
        requires
            self.inv(),
        ensures
            ordered(views(self.keys@)),
            self.keys@.len() == self.values@.len(),
            keys_of(self@) == views(self.keys@),
            forall|i: int|
                0 <= i < self.keys@.len() ==> self@.contains_key((#[trigger] self.keys@[i])@)
                    && self@[self.keys@[i]@] == self.values@[i]@,
    {
        assert(self@.dom() =~= views(self.keys@).to_set());
        lemma_listed(views(self.keys@));
        assert forall|i: int| 0 <= i < self.keys@.len() implies self@.contains_key(
            (#[trigger] self.keys@[i])@,
        ) && self@[self.keys@[i]@] == self.values@[i]@ by {
            lemma_map_of(views(self.keys@), value_views(self.values@), i);
            assert(views(self.keys@)[i] == self.keys@[i]@);
        }
    }

    /// The map with no keys.
    pub fn new() -> (r: Self)
        ensures
            r@ == Map::<Seq<char>, V::V>::empty(),
    {
        let keys: Vec<String> = Vec::new();
        let values: Vec<V> = Vec::new();
        let r = StringMap { keys, values };
        assert(r@ =~= Map::<Seq<char>, V::V>::empty());
        r
    }

    /// The number of keys.
    pub fn len(&self) -> (r: usize)
        ensures
            r == keys_of(self@).len(),
            ordered(keys_of(self@)),
            keys_of(self@).to_set() == self@.dom(),
    {
        proof {
            use_type_invariant(self);
            self.lemma_keys();
            assert(self@.dom() =~= views(self.keys@).to_set());
        }
        self.keys.len()
    }

    pub fn is_empty(&self) -> (r: bool)
        ensures
            r == (self@ == Map::<Seq<char>, V::V>::empty()),
    {
        proof {
            use_type_invariant(self);
            self.lemma_keys();
            if self.keys@.len() == 0 {
                assert(self@ =~= Map::<Seq<char>, V::V>::empty());
            } else {
                assert(self@.contains_key(self.keys@[0]@));
            }
        }
        self.keys.len() == 0
    }

    /// The key at place `i` of the increasing order.
    pub fn key(&self, i: usize) -> (r: &String)
        requires
            i < keys_of(self@).len(),
        ensures
            r@ == keys_of(self@)[i as int],
            self@.contains_key(r@),
    {
        proof {
            use_type_invariant(self);
            self.lemma_keys();
        }
        &self.keys[i]
    }

    /// The value of the key at place `i` of the increasing order.
    pub fn value(&self, i: usize) -> (r: &V)
        requires
            i < keys_of(self@).len(),
        ensures
            r@ == self@[keys_of(self@)[i as int]],
    {
        proof {
            use_type_invariant(self);
            self.lemma_keys();
            assert(views(self.keys@)[i as int] == self.keys@[i as int]@);
        }
        &self.values[i]
    }

    /// The value of a key.
    pub fn get(&self, k: &str) -> (r: Option<&V>)
        ensures
            match r {
                Some(v) => self@.contains_key(k@) && v@ == self@[k@],
                None => !self@.contains_key(k@),
            },
    {
        proof {
            use_type_invariant(self);
            self.lemma_keys();
        }
        let at = lower_bound(&self.keys, k);
        if found_at(&self.keys, at, k) {
            Some(&self.values[at])
        } else {
            None
        }
    }

    pub fn contains_key(&self, k: &str) -> (r: bool)
        ensures
            r == self@.contains_key(k@),
    {
        self.get(k).is_some()
    }

    /// Give a key its value, in place of an earlier one.
    pub fn insert(&mut self, k: String, v: V)
        ensures
            final(self)@ == old(self)@.insert(k@, v@),
    {
        proof {
            use_type_invariant(&*self);
        }
        let at = lower_bound(&self.keys, k.as_str());
        let known = found_at(&self.keys, at, k.as_str());
        let mut fresh = StringMap::new();
        core::mem::swap(&mut fresh, self);
        let ghost ks = views(fresh.keys@);
        let ghost vs = value_views(fresh.values@);
        let ghost key = k@;
        let ghost val = v@;
        let StringMap { mut keys, mut values } = fresh;
        if known {
            values.set(at, v);
            assert(value_views(values@) =~= vs.update(at as int, val));
            proof {
                assert(ks[at as int] == key);
                lemma_map_update(ks, vs, at as int, val);
            }
        } else {
            proof {
                lemma_insert_ordered(ks, at as int, key);
                lemma_map_insert(ks, vs, at as int, key, val);
            }
            keys.insert(at, k);
            values.insert(at, v);
            assert(views(keys@) =~= ks.insert(at as int, key));
            assert(value_views(values@) =~= vs.insert(at as int, val));
        }
        *self = StringMap { keys, values };
    }

    /// Take a key and its value out of the map.
    pub fn take(&mut self, k: &str) -> (r: Option<V>)
        ensures
            final(self)@ == old(self)@.remove(k@),
            match r {
                Some(v) => old(self)@.contains_key(k@) && v@ == old(self)@[k@],
                None => !old(self)@.contains_key(k@),
            },
    {
        proof {
            use_type_invariant(&*self);
            self.lemma_keys();
        }
        let at = lower_bound(&self.keys, k);
        if !found_at(&self.keys, at, k) {
            assert(self@.remove(k@) =~= self@);
            return None;
        }
        let mut fresh = StringMap::new();
        core::mem::swap(&mut fresh, self);
        let ghost ks = views(fresh.keys@);
        let ghost vs = value_views(fresh.values@);
        let StringMap { mut keys, mut values } = fresh;
        proof {
            assert(ks[at as int] == k@);
            lemma_map_remove(ks, vs, at as int);
        }
        let _ = keys.remove(at);
        let v = values.remove(at);
        assert(views(keys@) =~= ks.remove(at as int));
        assert(value_views(values@) =~= vs.remove(at as int));
        *self = StringMap { keys, values };
        Some(v)
    }

    /// Forget a key.
    pub fn remove(&mut self, k: &str)
        ensures
            final(self)@ == old(self)@.remove(k@),
    {
        let _ = self.take(k);
    }
}

impl Clone for StringMap<String> {
    fn clone(&self) -> (r: Self)
        ensures
            r@ == self@,
    {
        proof {
            use_type_invariant(self);
        }
        let keys = copy_all(&self.keys);
        let values = copy_all(&self.values);
        assert(views(values@).len() == views(self.values@).len());
        assert(views(keys@).len() == views(self.keys@).len());
        assert(value_views(values@) =~= views(values@));
        assert(value_views(self.values@) =~= views(self.values@));
        StringMap { keys, values }
    }
}

} // verus!
