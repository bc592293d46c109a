//! A sequence container that remembers the capacity it was created with.
use vstd::prelude::*;
use vstd::std_specs::iter::IteratorSpec;

verus! {

/// Items in insertion order, together with a nominal capacity.
///
/// The capacity is recorded but not enforced: adding past it keeps every item.
pub struct Ring<T> {
    capacity: usize,
    items: Vec<T>,
}

impl<T> View for Ring<T> {
    type V = Seq<T>;

    closed spec fn view(&self) -> Seq<T> {
        self.items@
    }
}

impl<'a, T> IntoIterator for &'a Ring<T> {
    type Item = &'a T;

    type IntoIter = std::slice::Iter<'a, T>;

    fn into_iter(self) -> (r: std::slice::Iter<'a, T>)
        ensures
            r.remaining() == self@.as_ref(),
    {
        self.items.iter()
    }
}

impl<T> Ring<T> {
    /// The capacity that this ring was created with.
    pub closed spec fn spec_capacity(&self) -> usize {
        self.capacity
    }

    /// An empty ring with the given nominal capacity.
    pub fn new(capacity: usize) -> (r: Self)
        ensures
            r.spec_capacity() == capacity,
            r@ == Seq::<T>::empty(),
    {
        Ring { capacity, items: Vec::with_capacity(capacity) }
    }

    pub fn capacity(&self) -> (r: usize)
        ensures
            r == self.spec_capacity(),
    {
        self.capacity
    }

    /// The number of items held.
    pub fn size(&self) -> (r: usize)
        ensures
            r == self@.len(),
    {
        self.items.len()
    }

    /// The items in insertion order.
    pub fn iter(&self) -> (r: std::slice::Iter<'_, T>)
        ensures
            r.remaining() == self@.as_ref(),
    {
        self.into_iter()
    }

    /// Appends an item at the end; the capacity is unchanged.
    pub fn add(&mut self, item: T)
        ensures
            final(self)@ == old(self)@.push(item),
            final(self).spec_capacity() == old(self).spec_capacity(),
    {
        self.items.push(item)
    }
}

} // verus!
