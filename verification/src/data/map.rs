use vstd::prelude::*;

verus! {

/// Continuously Encoded Hash Map: keys are integers which index values directly in a vector.
/// Efficient when the key space is very dense (e.g. when storing half a bijection).
///
/// The map is viewed as the sequence of its slots: slot `k` holds `Some(v)` when `v` is
/// stored under key `k`, and `None` otherwise.
pub struct CEHashMap<V> {
    vector: Vec<Option<V>>,
}

impl<V> View for CEHashMap<V> {
    type V = Seq<Option<V>>;

    closed spec fn view(&self) -> Seq<Option<V>> {
        self.vector@
    }
}

impl<V> CEHashMap<V> {
    /// The value stored under `key`, if any.
    pub open spec fn spec_get(&self, key: int) -> Option<V> {
        if 0 <= key < self@.len() {
            self@[key]
        } else {
            None
        }
    }

    /// Returns a new empty map.
    pub fn new() -> (map: CEHashMap<V>)
        ensures
            map@ == Seq::<Option<V>>::empty(),
    {
        CEHashMap { vector: Vec::new() }
    }

    /// Inserts `value` into the map at `key`, growing the slot vector with empty slots as needed.
    pub fn insert(&mut self, key: usize, value: V)
        requires
            key < usize::MAX,
        ensures
            final(self)@.len() == if key < old(self)@.len() { old(self)@.len() as int } else { key + 1 },
            final(self)@[key as int] == Some(value),
            forall|k: int|
                0 <= k < final(self)@.len() && k != key ==> #[trigger] final(self)@[k] == old(
                    self,
                ).spec_get(k),
    {
        while self.vector.len() <= key
            invariant
                key < usize::MAX,
                old(self)@.len() <= self@.len() <= if key < old(self)@.len() {
                    old(self)@.len() as int
                } else {
                    key + 1
                },
                forall|k: int| 0 <= k < self@.len() ==> #[trigger] self@[k] == old(self).spec_get(k),
            decreases key + 1 - self.vector.len(),
        {
            self.vector.push(None);
        }
        self.vector.set(key, Some(value));
    }

    /// Returns a reference to the value stored at `key`, or `None` if no such value is stored.
    pub fn get(&self, key: usize) -> (res: Option<&V>)
        ensures
            res == match self.spec_get(key as int) {
                Some(v) => Some(&v),
                None => None::<&V>,
            },
    {
        if key < self.vector.len() {
            self.vector[key].as_ref()
        } else {
            None
        }
    }

    /// Returns a mutable reference to the value stored at `key`, or `None` if no such value is
    /// stored.
    pub fn get_mut(&mut self, key: usize) -> (res: Option<&mut V>)
        ensures
            match old(self).spec_get(key as int) {
                Some(v) => res matches Some(r) && *r == v && final(self)@ == old(self)@.update(
                    key as int,
                    Some(*final(r)),
                ),
                None => res is None && final(self)@ == old(self)@,
            },
    {
        if key < self.vector.len() {
            let slot = &mut self.vector[key];
            slot.as_mut()
        } else {
            None
        }
    }

    /// Returns `true` if there is a value stored in the map under `key`, and `false` otherwise.
    pub fn contains(&self, key: usize) -> (res: bool)
        ensures
            res == self.spec_get(key as int).is_some(),
    {
        self.get(key).is_some()
    }

    /// Returns the size of the map: one past the largest key ever inserted.
    pub fn size(&self) -> (res: usize)
        ensures
            res == self@.len(),
    {
        self.vector.len()
    }

    /// Removes the value stored at `key` and returns it, or returns `None` if no value is
    /// stored there.
    pub(crate) fn take(&mut self, key: usize) -> (res: Option<V>)
        ensures
            res == old(self).spec_get(key as int),
            final(self)@ == if key < old(self)@.len() {
                old(self)@.update(key as int, None)
            } else {
                old(self)@
            },
    {
        if key < self.vector.len() {
            let mut slot = None;
            std::mem::swap(&mut slot, &mut self.vector[key]);
            slot
        } else {
            None
        }
    }

    /// Returns an iterator over the values of the map, from low keys to high keys.
    pub fn iter(&self) -> (iter: CEHashMapIterator<'_, V>)
        ensures
            iter.slots() == self@,
            iter.position() == 0,
    {
        CEHashMapIterator { map: self, index: 0 }
    }
}

/// Continuously Encoded Hash Map Iterator: an iterator over the values of a `CEHashMap`.
pub struct CEHashMapIterator<'scope, V> {
    map: &'scope CEHashMap<V>,
    index: usize,
}

impl<'scope, V> CEHashMapIterator<'scope, V> {
    /// The slots of the map being iterated over.
    pub closed spec fn slots(&self) -> Seq<Option<V>> {
        self.map@
    }

    /// The key of the next slot to be examined.
    pub closed spec fn position(&self) -> int {
        self.index as int
    }

    /// Returns a reference to the next stored value (in key order), or `None` once every slot
    /// has been examined.
    pub fn next(&mut self) -> (res: Option<&'scope V>)
        ensures
            final(self).slots() == old(self).slots(),
            match res {
                Some(v) => {
                    &&& old(self).position() < final(self).position() <= old(self).slots().len()
                    &&& old(self).slots()[final(self).position() - 1] == Some(*v)
                    &&& forall|k: int|
                        old(self).position() <= k < final(self).position() - 1
                            ==> #[trigger] old(self).slots()[k] is None
                },
                None => {
                    &&& final(self).position() >= old(self).slots().len()
                    &&& forall|k: int|
                        old(self).position() <= k < old(self).slots().len()
                            ==> #[trigger] old(self).slots()[k] is None
                },
            },
    {
        while self.index < self.map.size()
            invariant
                self.map == old(self).map,
                old(self).index <= self.index,
                forall|k: int| old(self).index <= k < self.index ==> #[trigger] self.map@[k] is None,
            decreases self.map@.len() - self.index,
        {
            let entry = self.map.get(self.index);
            self.index += 1;
            if entry.is_some() {
                return entry;
            }
        }
        None
    }
}


/// A read gives back what a write wrote: after `insert(key, value)`, the map holds `value` at
/// `key` and its other keys as before.
pub proof fn law_get_after_insert<V>(before: CEHashMap<V>, after: CEHashMap<V>, key: int, value: V)
    requires
        0 <= key,
        after@.len() == if key < before@.len() { before@.len() as int } else { key + 1 },
        after@[key] == Some(value),
        forall|k: int| 0 <= k < after@.len() && k != key ==> #[trigger] after@[k] == before.spec_get(k),
    ensures
        after.spec_get(key) == Some(value),
        forall|k: int| k != key ==> #[trigger] after.spec_get(k) == before.spec_get(k),
{
}
} // verus!
