//! Small containers keyed by dense integer identifiers.

use vstd::prelude::*;

verus! {

/// A monotonically increasing counter, used to hand out fresh identifiers.
pub struct Counter {
    value: u64,
}

impl Counter {
    /// The value the next call of `increment` hands out.
    pub closed spec fn view(&self) -> u64 {
        self.value
    }

    /// Returns the current value without changing it.
    pub fn curr(&self) -> (res: u64)
        ensures
            res == self@,
    {
        self.value
    }

    /// Returns the current value and advances the counter by one.
    pub fn increment(&mut self) -> (res: u64)
        requires
            old(self)@ < u64::MAX,
        ensures
            res == old(self)@,
            final(self)@ == old(self)@ + 1,
    {
        let curr = self.value;
        self.value = self.value + 1;
        curr
    }
}

impl Default for Counter {
    fn default() -> (res: Self)
        ensures
            res@ == 0,
    {
        Counter { value: 0 }
    }
}


/// A map from small integer keys to values, stored as a vector indexed by key.
///
/// Keys are expected to come from some unknown but not very large interval
/// `[0, MAX_KEY]`: the backing vector grows to the largest key inserted.
/// Entries are never removed.
#[derive(Clone)]
pub struct VecMap<T> {
    data: Vec<Option<T>>,
}

impl<T> VecMap<T> {
    /// The keys present in the map and their values.
    pub closed spec fn view(&self) -> Map<usize, T> {
        Map::new(
            |id: usize| id < self.data@.len() && self.data@[id as int] is Some,
            |id: usize| self.data@[id as int]->0,
        )
    }

    /// Associates `value` with `id`, replacing the previous value if any.
    pub fn insert(&mut self, id: usize, value: T)
        ensures
            final(self)@ == old(self)@.insert(id, value),
    {
        let ghost before = self.data@;
        while self.data.len() <= id
            invariant
                before.len() <= self.data@.len(),
                forall|i: int| 0 <= i < before.len() ==> self.data@[i] == before[i],
                forall|i: int| before.len() <= i < self.data@.len() ==> self.data@[i] is None,
            decreases id + 1 - self.data@.len(),
        {
            self.data.push(None);
        }
        self.data.set(id, Some(value));
        assert(self@ =~= old(self)@.insert(id, value));
    }

    /// Returns the value associated with `id`, if any.
    pub fn get(&self, id: usize) -> (res: Option<&T>)
        ensures
            match res {
                Some(v) => self@.contains_key(id) && *v == self@[id],
                None => !self@.contains_key(id),
            },
    {
        if id < self.data.len() {
            self.data[id].as_ref()
        } else {
            None
        }
    }

    /// Returns a mutable reference to the value associated with `id`, if any.
    pub fn get_mut(&mut self, id: usize) -> (res: Option<&mut T>)
        ensures
            res is Some <==> old(self)@.contains_key(id),
            res is Some ==> *res.unwrap() == old(self)@[id]
                && final(self)@ == old(self)@.insert(id, *final(res.unwrap())),
            res is None ==> final(self)@ == old(self)@,
    {
        if id < self.data.len() {
            let slot = &mut self.data[id];
            slot.as_mut()
        } else {
            None
        }
    }
}

impl<T> core::ops::Index<usize> for VecMap<T> {
    type Output = T;

    /// The value of key `id`, which must be present.
    fn index(&self, id: usize) -> (res: &T)
        ensures
            *res == self@[id],
    {
        self.data[id].as_ref().unwrap()
    }
}

impl<T> vstd::std_specs::core::IndexSpecImpl<usize> for VecMap<T> {
    open spec fn index_req(&self, id: &usize) -> bool {
        self@.contains_key(*id)
    }
}

impl<T> Default for VecMap<T> {
    fn default() -> (res: Self)
        ensures
            res@ == Map::<usize, T>::empty(),
    {
        let res = VecMap { data: Vec::new() };
        assert(res@ =~= Map::<usize, T>::empty());
        res
    }
}


/// Reading a `VecMap` after `insert(id, value)`: key `id` holds `value`, and
/// every other key holds what it held before.
pub proof fn law_vecmap_read_after_insert<T>(before: Map<usize, T>, id: usize, value: T, key: usize)
    ensures
        before.insert(id, value).contains_key(id),
        before.insert(id, value)[id] == value,
        key != id ==> (before.insert(id, value).contains_key(key) == before.contains_key(key)),
        key != id && before.contains_key(key) ==> before.insert(id, value)[key] == before[key],
{
}

/// Whether `v` is a value that `T::default()` may return.
pub open spec fn is_default<T: Default>(v: T) -> bool {
    call_ensures(T::default, (), v)
}

/// The length of a `DefaultVecMap` after it has been grown to hold key `id`.
pub open spec fn grown_len(len: nat, id: usize) -> nat {
    if id < len {
        len
    } else {
        (id + 1) as nat
    }
}

/// Like `VecMap`, but every key below the largest one touched holds a value:
/// keys that were never written hold `T::default()`. `get_mut` grows the map
/// to the key it is asked for.
#[derive(Clone)]
pub struct DefaultVecMap<T: Default> {
    data: Vec<T>,
}

impl<T: Default> DefaultVecMap<T> {
    /// The values of keys `0..len`, by key.
    pub closed spec fn view(&self) -> Seq<T> {
        self.data@
    }

    /// Grows the map with default values until it holds key `id`.
    fn extend(&mut self, id: usize)
        ensures
            final(self)@.len() == grown_len(old(self)@.len(), id),
            forall|i: int| 0 <= i < old(self)@.len() ==> final(self)@[i] == old(self)@[i],
            forall|i: int|
                old(self)@.len() <= i < final(self)@.len() ==> is_default(#[trigger] final(self)@[i]),
    {
        let ghost before = self.data@;
        while self.data.len() <= id
            invariant
                before.len() <= self.data@.len() <= grown_len(before.len(), id),
                forall|i: int| 0 <= i < before.len() ==> self.data@[i] == before[i],
                forall|i: int| before.len() <= i < self.data@.len() ==> is_default(#[trigger] self.data@[i]),
            decreases id + 1 - self.data@.len(),
        {
            let v = T::default();
            self.data.push(v);
        }
    }

    /// Associates `value` with `id`, growing the map with default values first
    /// if `id` is beyond its end.
    pub fn insert(&mut self, id: usize, value: T)
        ensures
            final(self)@.len() == grown_len(old(self)@.len(), id),
            final(self)@[id as int] == value,
            forall|i: int| 0 <= i < old(self)@.len() && i != id ==> final(self)@[i] == old(self)@[i],
            forall|i: int|
                old(self)@.len() <= i < final(self)@.len() && i != id ==> is_default(#[trigger] final(self)@[i]),
    {
        self.extend(id);
        self.data.set(id, value);
    }

    /// Returns the value of `id` if the map already holds that key.
    pub fn get(&self, id: usize) -> (res: Option<&T>)
        ensures
            match res {
                Some(v) => id < self@.len() && *v == self@[id as int],
                None => id >= self@.len(),
            },
    {
        if id < self.data.len() {
            Some(&self.data[id])
        } else {
            None
        }
    }

    /// Returns a mutable reference to the value of `id`, growing the map with
    /// default values first if `id` is beyond its end.
    pub fn get_mut(&mut self, id: usize) -> (res: &mut T)
        ensures
            id < old(self)@.len() ==> *res == old(self)@[id as int],
            id >= old(self)@.len() ==> is_default(*res),
            final(self)@.len() == grown_len(old(self)@.len(), id),
            final(self)@[id as int] == *final(res),
            forall|i: int| 0 <= i < old(self)@.len() && i != id ==> final(self)@[i] == old(self)@[i],
            forall|i: int|
                old(self)@.len() <= i < final(self)@.len() && i != id ==> is_default(#[trigger] final(self)@[i]),
    {
        self.extend(id);
        &mut self.data[id]
    }
}

impl<T: Default> core::ops::Index<usize> for DefaultVecMap<T> {
    type Output = T;

    /// The value of key `id`, which must be below the length of the map.
    fn index(&self, id: usize) -> (res: &T)
        ensures
            *res == self@[id as int],
    {
        &self.data[id]
    }
}

impl<T: Default> vstd::std_specs::core::IndexSpecImpl<usize> for DefaultVecMap<T> {
    open spec fn index_req(&self, id: &usize) -> bool {
        *id < self@.len()
    }
}

impl<T: Default> Default for DefaultVecMap<T> {
    fn default() -> (res: Self)
        ensures
            res@ == Seq::<T>::empty(),
    {
        DefaultVecMap { data: Vec::new() }
    }
}

} // verus!
