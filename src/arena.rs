use vstd::prelude::*;
use vstd::set_lib::{lemma_int_range, lemma_len_subset, set_int_range};

verus! {

/// A slot position together with the generation the slot had when the value
/// was stored.
pub type SlotKey = (usize, u64);

/// One position of an arena: its current generation and, if occupied, its
/// value.
struct Slot<T> {
    generation: u64,
    value: Option<T>,
}

/// How many slots of `s` hold a value.
spec fn occupied<T>(s: Seq<Slot<T>>) -> nat
    decreases s.len(),
{
    if s.len() == 0 {
        0
    } else {
        occupied(s.drop_last()) + if s.last().value is Some {
            1nat
        } else {
            0nat
        }
    }
}

proof fn lemma_occupied_push<T>(s: Seq<Slot<T>>, x: Slot<T>)
    ensures
        occupied(s.push(x)) == occupied(s) + if x.value is Some {
            1nat
        } else {
            0nat
        },
{
    assert(s.push(x).drop_last() =~= s);
}

proof fn lemma_occupied_update<T>(s: Seq<Slot<T>>, i: int, x: Slot<T>)
    requires
        0 <= i < s.len(),
    ensures
        occupied(s.update(i, x)) + (if s[i].value is Some {
            1nat
        } else {
            0nat
        }) == occupied(s) + if x.value is Some {
            1nat
        } else {
            0nat
        },
    decreases s.len(),
{
    if i == s.len() - 1 {
        assert(s.update(i, x).drop_last() =~= s.drop_last());
    } else {
        assert(s.update(i, x).drop_last() =~= s.drop_last().update(i, x));
        lemma_occupied_update(s.drop_last(), i, x);
    }
}

proof fn lemma_occupied_bound<T>(s: Seq<Slot<T>>)
    ensures
        occupied(s) <= s.len(),
    decreases s.len(),
{
    if s.len() > 0 {
        lemma_occupied_bound(s.drop_last());
    }
}

/// Generational slot storage: values are stored under keys that stay valid
/// until the value is removed, and a removed key never becomes valid again.
pub struct Arena<T> {
    slots: Vec<Slot<T>>,
    free: Vec<usize>,
    len: usize,
}

impl<T> Arena<T> {
    /// The stored values by key.
    pub closed spec fn view(&self) -> Map<SlotKey, T> {
        Map::new(
            |k: SlotKey|
                k.0 < self.slots@.len() && self.slots@[k.0 as int].generation == k.1
                    && self.slots@[k.0 as int].value is Some,
            |k: SlotKey| self.slots@[k.0 as int].value->Some_0,
        )
    }

    /// Keys that can never again be handed out or resolve to a value.
    pub closed spec fn retired(&self, k: SlotKey) -> bool {
        &&& k.0 < self.slots@.len()
        &&& {
            ||| k.1 < self.slots@[k.0 as int].generation
            ||| (self.slots@[k.0 as int].generation == u64::MAX && self.slots@[k.0 as int].value is None)
        }
    }

    /// The number of stored values.
    pub closed spec fn spec_len(&self) -> nat {
        occupied(self.slots@)
    }

    pub closed spec fn wf(&self) -> bool {
        &&& self.len == occupied(self.slots@)
        &&& self.slots@.len() <= usize::MAX
        &&& self.free@.no_duplicates()
        &&& forall|j: int|
            0 <= j < self.free@.len() ==> {
                let i = #[trigger] self.free@[j];
                &&& i < self.slots@.len()
                &&& self.slots@[i as int].value is None
                &&& self.slots@[i as int].generation < u64::MAX
            }
        &&& forall|i: int|
            0 <= i < self.slots@.len() && (#[trigger] self.slots@[i]).value is Some
                ==> self.slots@[i].generation < u64::MAX
    }

    /// An empty arena.
    pub fn new() -> (r: Self)
        ensures
            r.wf(),
            r@ == Map::<SlotKey, T>::empty(),
            r.spec_len() == 0,
            forall|k: SlotKey| !r.retired(k),
    {
        let r = Arena { slots: Vec::new(), free: Vec::new(), len: 0 };
        assert(r@ =~= Map::<SlotKey, T>::empty());
        r
    }

    /// The number of stored values.
    pub fn len(&self) -> (r: usize)
        requires
            self.wf(),
        ensures
            r == self.spec_len(),
    {
        self.len
    }

    /// No stored value has a retired key.
    pub proof fn lemma_live_not_retired(&self, k: SlotKey)
        requires
            self.wf(),
            self@.contains_key(k),
        ensures
            !self.retired(k),
    {
    }

    /// Whether `k` resolves to a stored value.
    pub fn contains_key(&self, k: SlotKey) -> (r: bool)
        requires
            self.wf(),
        ensures
            r == self@.contains_key(k),
    {
        k.0 < self.slots.len() && self.slots[k.0].generation == k.1 && self.slots[k.0].value.is_some()
    }

    /// The value stored under `k`, if any.
    pub fn get(&self, k: SlotKey) -> (r: Option<&T>)
        requires
            self.wf(),
        ensures
            r.is_some() == self@.contains_key(k),
            r matches Some(v) ==> *v == self@[k],
    {
        if k.0 < self.slots.len() && self.slots[k.0].generation == k.1 {
            match &self.slots[k.0].value {
                Some(v) => Some(v),
                None => None,
            }
        } else {
            None
        }
    }

    /// A mutable reference to the value stored under `k`, if any.
    pub fn get_mut(&mut self, k: SlotKey) -> (r: Option<&mut T>)
        requires
            old(self).wf(),
        ensures
            r.is_some() == old(self)@.contains_key(k),
            r.is_none() ==> *final(self) == *old(self),
            r.is_some() ==> {
                &&& *r.unwrap() == old(self)@[k]
                &&& final(self).wf()
                &&& final(self)@ == old(self)@.insert(k, *final(r.unwrap()))
                &&& final(self).spec_len() == old(self).spec_len()
                &&& forall|q: SlotKey| final(self).retired(q) == old(self).retired(q)
            },
    {
        if k.0 < self.slots.len() && self.slots[k.0].generation == k.1 && self.slots[k.0].value.is_some() {
            proof {
                assert forall|x: Slot<T>| x.value is Some implies #[trigger] occupied(
                    self.slots@.update(k.0 as int, x),
                ) == occupied(self.slots@) by {
                    lemma_occupied_update(self.slots@, k.0 as int, x);
                }
            }
            let slot = &mut self.slots[k.0];
            match &mut slot.value {
                Some(v) => Some(v),
                None => None,
            }
        } else {
            None
        }
    }

    /// Removes the value stored under `k`; `k` is retired from then on.
    pub fn remove(&mut self, k: SlotKey) -> (r: Option<T>)
        requires
            old(self).wf(),
        ensures
            final(self).wf(),
            r.is_some() == old(self)@.contains_key(k),
            r.is_none() ==> *final(self) == *old(self),
            r.is_some() ==> {
                &&& r == Some(old(self)@[k])
                &&& final(self)@ == old(self)@.remove(k)
                &&& final(self).spec_len() + 1 == old(self).spec_len()
                &&& final(self).retired(k)
            },
            forall|q: SlotKey| old(self).retired(q) ==> final(self).retired(q),
    {
        if k.0 < self.slots.len() && self.slots[k.0].generation == k.1 && self.slots[k.0].value.is_some() {
            let i = k.0;
            let generation = k.1 + 1;
            let mut slot = Slot { generation, value: None };
            proof {
                lemma_occupied_update(self.slots@, i as int, slot);
            }
            std::mem::swap(&mut self.slots[i], &mut slot);
            self.len = self.len - 1;
            if generation < u64::MAX {
                proof {
                    assert forall|j: int| 0 <= j < self.free@.len() implies self.free@[j] != i by {
                        let f = self.free@[j];
                        assert(old(self).slots@[f as int].value is None);
                    }
                }
                self.free.push(i);
                proof {
                    assert forall|j: int| 0 <= j < self.free@.len() implies {
                        let f = #[trigger] self.free@[j];
                        &&& f < self.slots@.len()
                        &&& self.slots@[f as int].value is None
                        &&& self.slots@[f as int].generation < u64::MAX
                    } by {
                        if j < self.free@.len() - 1 {
                            assert(self.free@[j] == old(self).free@[j]);
                        }
                    }
                }
            }
            assert(self@ =~= old(self)@.remove(k));
            slot.value
        } else {
            None
        }
    }

    /// The keys of all stored values, in slot order.
    pub fn keys(&self) -> (r: Vec<SlotKey>)
        requires
            self.wf(),
        ensures
            r@.no_duplicates(),
            forall|q: SlotKey| r@.contains(q) <==> self@.contains_key(q),
    {
        let mut r: Vec<SlotKey> = Vec::new();
        let mut i: usize = 0;
        while i < self.slots.len()
            invariant
                self.wf(),
                i <= self.slots@.len(),
                r@.no_duplicates(),
                forall|j: int| 0 <= j < r@.len() ==> (#[trigger] r@[j]).0 < i,
                forall|q: SlotKey| r@.contains(q) <==> (q.0 < i && self@.contains_key(q)),
            decreases self.slots@.len() - i,
        {
            if self.slots[i].value.is_some() {
                let q = (i, self.slots[i].generation);
                let ghost r0 = r@;
                proof {
                    if r0.contains(q) {
                        let j = choose|j: int| 0 <= j < r0.len() && r0[j] == q;
                        assert(r0[j].0 < i);
                    }
                }
                r.push(q);
                proof {
                    assert(r@ == r0.push(q));
                    assert forall|p: SlotKey| r@.contains(p) <==> (p.0 < i + 1 && self@.contains_key(p)) by {
                        if r@.contains(p) {
                            let j = choose|j: int| 0 <= j < r@.len() && r@[j] == p;
                            if j < r0.len() {
                                assert(r0[j] == p);
                                assert(r0.contains(p));
                            }
                        }
                        if p.0 < i + 1 && self@.contains_key(p) {
                            if p.0 < i {
                                assert(r0.contains(p));
                                let j = choose|j: int| 0 <= j < r0.len() && r0[j] == p;
                                assert(r@[j] == p);
                            } else {
                                assert(r@[r0.len() as int] == q);
                            }
                        }
                    }
                }
            }
            i = i + 1;
        }
        r
    }

    /// Distinct keys of stored values are no more than a `usize` can count.
    pub proof fn lemma_distinct_live_keys(&self, ks: Seq<SlotKey>)
        requires
            self.wf(),
            ks.no_duplicates(),
            forall|i: int| 0 <= i < ks.len() ==> self@.contains_key(#[trigger] ks[i]),
        ensures
            ks.len() <= usize::MAX,
    {
        let pos = ks.map_values(|k: SlotKey| k.0 as int);
        assert forall|i: int, j: int| 0 <= i < pos.len() && 0 <= j < pos.len() && i != j implies pos[i] != pos[j] by {
            assert(self@.contains_key(ks[i]));
            assert(self@.contains_key(ks[j]));
        }
        pos.unique_seq_to_set();
        lemma_int_range(0, self.slots@.len() as int);
        assert forall|x: int| pos.to_set().contains(x) implies set_int_range(0, self.slots@.len() as int).contains(x) by {
            let i = choose|i: int| 0 <= i < pos.len() && pos[i] == x;
            assert(self@.contains_key(ks[i]));
        }
        lemma_len_subset(pos.to_set(), set_int_range(0, self.slots@.len() as int));
    }

    /// Stores `value` under a fresh key.
    pub fn insert(&mut self, value: T) -> (k: SlotKey)
        requires
            old(self).wf(),
        ensures
            final(self).wf(),
            !old(self)@.contains_key(k),
            !old(self).retired(k),
            final(self)@ == old(self)@.insert(k, value),
            final(self).spec_len() == old(self).spec_len() + 1,
            forall|q: SlotKey| old(self).retired(q) ==> final(self).retired(q),
    {
        match self.free.pop() {
            Some(i) => {
                proof {
                    assert(old(self).free@.last() == i);
                    assert forall|j: int| 0 <= j < self.free@.len() implies self.free@[j] != i by {
                        assert(old(self).free@[j] == self.free@[j]);
                        assert(old(self).free@[old(self).free@.len() - 1] == i);
                    }
                }
                let generation = self.slots[i].generation;
                proof {
                    lemma_occupied_update(self.slots@, i as int, Slot { generation, value: Some(value) });
                }
                self.slots.set(i, Slot { generation, value: Some(value) });
                let n = self.slots.len();
                proof {
                    lemma_occupied_bound(self.slots@);
                    assert(self.len + 1 <= n);
                }
                self.len = self.len + 1;
                assert(self@ =~= old(self)@.insert((i, generation), value));
                (i, generation)
            },
            None => {
                let i = self.slots.len();
                proof {
                    lemma_occupied_push(self.slots@, Slot { generation: 0, value: Some(value) });
                }
                self.slots.push(Slot { generation: 0, value: Some(value) });
                let n = self.slots.len();
                proof {
                    lemma_occupied_bound(self.slots@);
                    assert(self.len + 1 <= n);
                }
                self.len = self.len + 1;
                assert(self@ =~= old(self)@.insert((i, 0), value));
                (i, 0)
            },
        }
    }
}

} // verus!
