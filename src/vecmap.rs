use vstd::prelude::*;
use vstd::std_specs::cmp::PartialEqSpec;

verus! {

/// `==` on `K` is exactly equality of values.
pub open spec fn eq_is_identity<K: PartialEq>() -> bool {
    &&& K::obeys_eq_spec()
    &&& forall|x: K, y: K| x.eq_spec(&y) <==> (x == y)
}

/// Some entry of `s` has key `k`.
pub open spec fn has_key<K, V>(s: Seq<(K, V)>, k: K) -> bool {
    exists|i: int| 0 <= i < s.len() && s[i].0 == k
}

/// `i` is the position of the first entry of `s` with key `k`.
pub open spec fn is_first_key<K, V>(s: Seq<(K, V)>, k: K, i: int) -> bool {
    &&& 0 <= i < s.len()
    &&& s[i].0 == k
    &&& forall|j: int| 0 <= j < i ==> s[j].0 != k
}

/// No key occurs twice in `s`.
pub open spec fn unique_keys<K, V>(s: Seq<(K, V)>) -> bool {
    forall|i: int, j: int| 0 <= i < s.len() && 0 <= j < s.len() && i != j ==> s[i].0 != s[j].0
}

/// The keys of `s`, in order.
pub open spec fn keys_of<K, V>(s: Seq<(K, V)>) -> Seq<K> {
    s.map_values(|p: (K, V)| p.0)
}

/// The values of `s`, in order.
pub open spec fn values_of<K, V>(s: Seq<(K, V)>) -> Seq<V> {
    s.map_values(|p: (K, V)| p.1)
}

/// Map-like methods for a list of key/value pairs, found by a linear scan.
pub trait VecMap<K: PartialEq, V>: Sized {
    spec fn entries(&self) -> Seq<(K, V)>;

    /// Gets a reference to the value of the first entry with `key`.
    fn get_value(&self, key: K) -> (r: Option<&V>)
        requires
            eq_is_identity::<K>(),
        ensures
            r.is_some() == has_key(self.entries(), key),
            forall|i: int| is_first_key(self.entries(), key, i) ==> r == Some(&self.entries()[i].1),
    ;

    /// Gets a mutable reference to the value of the first entry with `key`.
    fn get_value_mut(&mut self, key: K) -> (r: Option<&mut V>)
        requires
            eq_is_identity::<K>(),
        ensures
            r.is_some() == has_key(old(self).entries(), key),
            r.is_none() ==> final(self).entries() == old(self).entries(),
            forall|i: int|
                is_first_key(old(self).entries(), key, i) ==> {
                    &&& *r.unwrap() == old(self).entries()[i].1
                    &&& final(self).entries() == old(self).entries().update(
                        i,
                        (key, *final(r.unwrap())),
                    )
                },
    ;

    /// Gets a reference to the value of `key`, first appending `(key, or())`
    /// when no entry has that key.
    fn get_value_or<F: FnOnce() -> V>(&mut self, key: K, or: F) -> (r: &V)
        requires
            eq_is_identity::<K>(),
            or.requires(()),
        ensures
            has_key(old(self).entries(), key) ==> final(self).entries() == old(self).entries(),
            forall|i: int| is_first_key(old(self).entries(), key, i) ==> *r == old(self).entries()[i].1,
            !has_key(old(self).entries(), key) ==> {
                &&& final(self).entries() == old(self).entries().push((key, *r))
                &&& or.ensures((), *r)
            },
    ;

    /// Gets a mutable reference to the value of `key`, first appending
    /// `(key, or())` when no entry has that key.
    fn get_value_or_mut<F: FnOnce() -> V>(&mut self, key: K, or: F) -> (r: &mut V)
        requires
            eq_is_identity::<K>(),
            or.requires(()),
        ensures
            forall|i: int|
                is_first_key(old(self).entries(), key, i) ==> {
                    &&& *r == old(self).entries()[i].1
                    &&& final(self).entries() == old(self).entries().update(i, (key, *final(r)))
                },
            !has_key(old(self).entries(), key) ==> {
                &&& or.ensures((), *r)
                &&& final(self).entries() == old(self).entries().push((key, *final(r)))
            },
    ;

    /// Gets a reference to the value of `key`, first appending `(key,
    /// V::default())` when no entry has that key.
    fn get_value_or_default(&mut self, key: K) -> (r: &V) where V: Default
        requires
            eq_is_identity::<K>(),
        ensures
            has_key(old(self).entries(), key) ==> final(self).entries() == old(self).entries(),
            forall|i: int| is_first_key(old(self).entries(), key, i) ==> *r == old(self).entries()[i].1,
            !has_key(old(self).entries(), key) ==> final(self).entries() == old(self).entries().push((key, *r)),
            !has_key(old(self).entries(), key) ==> call_ensures(V::default, (), *r),
    ;

    /// Gets a mutable reference to the value of `key`, first appending
    /// `(key, V::default())` when no entry has that key.
    fn get_value_or_default_mut(&mut self, key: K) -> (r: &mut V) where V: Default
        requires
            eq_is_identity::<K>(),
        ensures
            forall|i: int|
                is_first_key(old(self).entries(), key, i) ==> {
                    &&& *r == old(self).entries()[i].1
                    &&& final(self).entries() == old(self).entries().update(i, (key, *final(r)))
                },
            !has_key(old(self).entries(), key) ==> {
                &&& call_ensures(V::default, (), *r)
                &&& final(self).entries() == old(self).entries().push((key, *final(r)))
            },
    ;

    /// Whether some entry has `key`.
    fn contains_key(&self, key: K) -> (r: bool)
        requires
            eq_is_identity::<K>(),
        ensures
            r == has_key(self.entries(), key),
    ;

    /// The position of the first entry with `key`.
    fn index_by_key(&self, key: &K) -> (r: Option<usize>)
        requires
            eq_is_identity::<K>(),
        ensures
            r.is_some() == has_key(self.entries(), *key),
            r matches Some(i) ==> is_first_key(self.entries(), *key, i as int),
    ;

    /// A cursor over the keys, in order.
    fn keys(&self) -> (r: Keys<'_, K, V>)
        ensures
            r.source() == self.entries(),
            r.position() == 0,
    ;

    /// A cursor over the values, in order.
    fn values(&self) -> (r: Values<'_, K, V>)
        ensures
            r.source() == self.entries(),
            r.position() == 0,
    ;

    /// A cursor over the entries, in order, each as a pair of references.
    fn tuple_iter(&self) -> (r: TupleIter<'_, K, V>)
        ensures
            r.source() == self.entries(),
            r.position() == 0,
    ;

    /// Removes the first entry with `key`, keeping the order of the others,
    /// and returns its value.
    fn remove_by_key(&mut self, key: K) -> (r: Option<V>)
        requires
            eq_is_identity::<K>(),
        ensures
            r.is_some() == has_key(old(self).entries(), key),
            r.is_none() ==> final(self).entries() == old(self).entries(),
            forall|i: int|
                is_first_key(old(self).entries(), key, i) ==> {
                    &&& r == Some(old(self).entries()[i].1)
                    &&& final(self).entries() == old(self).entries().remove(i)
                },
    ;
}

impl<K: PartialEq, V> VecMap<K, V> for Vec<(K, V)> {
    open spec fn entries(&self) -> Seq<(K, V)> {
        self@
    }

    fn get_value(&self, key: K) -> (r: Option<&V>) {
        match self.index_by_key(&key) {
            Some(index) => Some(&self[index].1),
            None => None,
        }
    }

    fn get_value_mut(&mut self, key: K) -> (r: Option<&mut V>) {
        match self.index_by_key(&key) {
            Some(index) => Some(&mut self[index].1),
            None => None,
        }
    }

    fn get_value_or<F: FnOnce() -> V>(&mut self, key: K, or: F) -> (r: &V) {
        match self.index_by_key(&key) {
            Some(index) => &self[index].1,
            None => {
                self.push((key, or()));
                let last = self.len() - 1;
                &self[last].1
            },
        }
    }

    fn get_value_or_mut<F: FnOnce() -> V>(&mut self, key: K, or: F) -> (r: &mut V) {
        match self.index_by_key(&key) {
            Some(index) => &mut self[index].1,
            None => {
                self.push((key, or()));
                let last = self.len() - 1;
                &mut self[last].1
            },
        }
    }

    fn get_value_or_default(&mut self, key: K) -> (r: &V) where V: Default {
        match self.index_by_key(&key) {
            Some(index) => &self[index].1,
            None => {
                self.push((key, V::default()));
                let last = self.len() - 1;
                &self[last].1
            },
        }
    }

    fn get_value_or_default_mut(&mut self, key: K) -> (r: &mut V) where V: Default {
        match self.index_by_key(&key) {
            Some(index) => &mut self[index].1,
            None => {
                self.push((key, V::default()));
                let last = self.len() - 1;
                &mut self[last].1
            },
        }
    }

    fn contains_key(&self, key: K) -> (r: bool) {
        self.index_by_key(&key).is_some()
    }

    fn index_by_key(&self, key: &K) -> (r: Option<usize>) {
        let mut i: usize = 0;
        while i < self.len()
            invariant
                eq_is_identity::<K>(),
                i <= self@.len(),
                forall|j: int| 0 <= j < i ==> self@[j].0 != *key,
            decreases self@.len() - i,
        {
            if self[i].0.eq(key) {
                return Some(i);
            }
            i = i + 1;
        }
        None
    }

    fn keys(&self) -> (r: Keys<'_, K, V>) {
        Keys { inner: self, pos: 0 }
    }

    fn values(&self) -> (r: Values<'_, K, V>) {
        Values { inner: self, pos: 0 }
    }

    fn tuple_iter(&self) -> (r: TupleIter<'_, K, V>) {
        TupleIter { inner: self, pos: 0 }
    }

    fn remove_by_key(&mut self, key: K) -> (r: Option<V>) {
        match self.index_by_key(&key) {
            Some(index) => Some(self.remove(index).1),
            None => None,
        }
    }
}

/// Walks over all keys of a `VecMap` in order.
pub struct Keys<'s, K, V> {
    inner: &'s Vec<(K, V)>,
    pos: usize,
}

impl<'s, K, V> Keys<'s, K, V> {
    /// The entries walked over.
    pub closed spec fn source(&self) -> Seq<(K, V)> {
        self.inner@
    }

    /// How many entries were handed out so far.
    pub closed spec fn position(&self) -> int {
        self.pos as int
    }

    /// Hands out the next key, or `None` once all were handed out.
    pub fn next(&mut self) -> (r: Option<&'s K>)
        ensures
            final(self).source() == old(self).source(),
            old(self).position() < old(self).source().len() ==> {
                &&& r == Some(&old(self).source()[old(self).position()].0)
                &&& final(self).position() == old(self).position() + 1
            },
            old(self).position() >= old(self).source().len() ==> {
                &&& r.is_none()
                &&& final(self).position() == old(self).position()
            },
    {
        if self.pos < self.inner.len() {
            let e = &self.inner[self.pos];
            self.pos = self.pos + 1;
            Some(&e.0)
        } else {
            None
        }
    }
}

/// Walks over all values of a `VecMap` in order.
pub struct Values<'s, K, V> {
    inner: &'s Vec<(K, V)>,
    pos: usize,
}

impl<'s, K, V> Values<'s, K, V> {
    /// The entries walked over.
    pub closed spec fn source(&self) -> Seq<(K, V)> {
        self.inner@
    }

    /// How many entries were handed out so far.
    pub closed spec fn position(&self) -> int {
        self.pos as int
    }

    /// Hands out the next value, or `None` once all were handed out.
    pub fn next(&mut self) -> (r: Option<&'s V>)
        ensures
            final(self).source() == old(self).source(),
            old(self).position() < old(self).source().len() ==> {
                &&& r == Some(&old(self).source()[old(self).position()].1)
                &&& final(self).position() == old(self).position() + 1
            },
            old(self).position() >= old(self).source().len() ==> {
                &&& r.is_none()
                &&& final(self).position() == old(self).position()
            },
    {
        if self.pos < self.inner.len() {
            let e = &self.inner[self.pos];
            self.pos = self.pos + 1;
            Some(&e.1)
        } else {
            None
        }
    }
}

/// Walks over all entries of a `VecMap` in order, each as a key/value pair.
pub struct TupleIter<'s, K, V> {
    inner: &'s Vec<(K, V)>,
    pos: usize,
}

impl<'s, K, V> TupleIter<'s, K, V> {
    /// The entries walked over.
    pub closed spec fn source(&self) -> Seq<(K, V)> {
        self.inner@
    }

    /// How many entries were handed out so far.
    pub closed spec fn position(&self) -> int {
        self.pos as int
    }

    /// Hands out the next entry, or `None` once all were handed out.
    pub fn next(&mut self) -> (r: Option<(&'s K, &'s V)>)
        ensures
            final(self).source() == old(self).source(),
            old(self).position() < old(self).source().len() ==> {
                &&& r == Some((&old(self).source()[old(self).position()].0, &old(self).source()[old(self).position()].1))
                &&& final(self).position() == old(self).position() + 1
            },
            old(self).position() >= old(self).source().len() ==> {
                &&& r.is_none()
                &&& final(self).position() == old(self).position()
            },
    {
        if self.pos < self.inner.len() {
            let e = &self.inner[self.pos];
            self.pos = self.pos + 1;
            Some((&e.0, &e.1))
        } else {
            None
        }
    }
}

} // verus!
