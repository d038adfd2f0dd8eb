//! A map from strings to values that can be changed in place.

use vstd::hash_map::StringHashMap;
use vstd::prelude::*;

verus! {

/// Values by key. The hash map says where in the list the value of a key
/// stands.
pub(crate) struct Shelf<T> {
    index: StringHashMap<usize>,
    items: Vec<T>,
}

impl<T> View for Shelf<T> {
    type V = Map<Seq<char>, T>;

    closed spec fn view(&self) -> Map<Seq<char>, T> {
        Map::new(
            |k: Seq<char>| self.index@.contains_key(k),
            |k: Seq<char>| self.items@[self.index@[k] as int],
        )
    }
}

impl<T> Shelf<T> {
    /// Every key has a place of its own.
    pub closed spec fn is_sound(&self) -> bool {
        &&& forall|k: Seq<char>|
            self.index@.contains_key(k) ==> (#[trigger] self.index@[k]) < self.items@.len()
        &&& forall|j: Seq<char>, k: Seq<char>|
            self.index@.contains_key(j) && self.index@.contains_key(k) && j != k
                ==> (#[trigger] self.index@[j]) != (#[trigger] self.index@[k])
    }

    pub(crate) fn new() -> (r: Shelf<T>)
        ensures
            r.is_sound(),
            r@ == Map::<Seq<char>, T>::empty(),
    {
        let r = Shelf { index: StringHashMap::new(), items: Vec::new() };
        assert(r@ =~= Map::<Seq<char>, T>::empty());
        r
    }

    /// The value of a key.
    pub(crate) fn get(&self, key: &str) -> (r: Option<&T>)
        requires
            self.is_sound(),
        ensures
            match r {
                Some(v) => self@.contains_key(key@) && *v == self@[key@],
                None => !self@.contains_key(key@),
            },
    {
        match self.index.get(key) {
            Some(i) => Some(&self.items[*i]),
            None => None,
        }
    }

    /// Give a key a value, in place of the one it may have.
    pub(crate) fn insert(&mut self, key: &str, v: T)
        requires
            old(self).is_sound(),
        ensures
            final(self).is_sound(),
            final(self)@ == old(self)@.insert(key@, v),
    {
        match self.index.get(key) {
            Some(i) => {
                let i: usize = *i;
                self.items.set(i, v);
            },
            None => {
                let i: usize = self.items.len();
                self.index.insert(key.to_string(), i);
                self.items.push(v);
            },
        }
        assert(self@ =~= old(self)@.insert(key@, v));
    }

    /// The value of a key that has one, to be changed.
    pub(crate) fn get_mut(&mut self, key: &str) -> (r: &mut T)
        requires
            old(self).is_sound(),
            old(self)@.contains_key(key@),
        ensures
            *r == old(self)@[key@],
            final(self).is_sound(),
            final(self)@ == old(self)@.insert(key@, *final(r)),
    {
        let i: usize = match self.index.get(key) {
            Some(i) => *i,
            None => 0,
        };
        &mut self.items[i]
    }
}

} // verus!
