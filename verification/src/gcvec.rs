//! The growable array that the collector keeps its own bookkeeping in.
use crate::layout::max;
use vstd::prelude::*;

verus! {

/// A `GcVec` is a contiguous growable array type whose contents are not tracked
/// for garbage collection.
///
/// It is a heavily stripped down `Vec`, meant for the collector itself, where
/// objects do not need keeping alive.
pub struct GcVec<T> {
    buf: Vec<T>,
    /// The number of elements that room was asked for.
    reserved: usize,
}

impl<T> View for GcVec<T> {
    type V = Seq<T>;

    closed spec fn view(&self) -> Seq<T> {
        self.buf@
    }
}

impl<T> GcVec<T> {
    /// The number of elements there is room for: those in the array, and those
    /// that room was asked for. The memory behind the array may have room for
    /// more.
    pub closed spec fn room(&self) -> int {
        max(self.reserved as int, self.buf@.len() as int)
    }

    /// An empty array.
    pub fn new() -> (r: GcVec<T>)
        ensures
            r@ == Seq::<T>::empty(),
            r.room() == 0,
    {
        GcVec { buf: Vec::new(), reserved: 0 }
    }

    /// The number of elements there is room for.
    pub fn capacity(&self) -> (r: usize)
        ensures
            r == self.room(),
            r >= self@.len(),
    {
        if self.reserved >= self.buf.len() {
            self.reserved
        } else {
            self.buf.len()
        }
    }

    /// Appends an element to the back.
    pub fn push(&mut self, value: T)
        ensures
            final(self)@ == old(self)@.push(value),
            final(self).room() == max(old(self).room(), final(self)@.len() as int),
    {
        self.buf.push(value);
    }

    /// Takes the last element away. There is none when the array is empty.
    pub fn pop(&mut self) -> (r: Option<T>)
        ensures
            r is None <==> old(self)@.len() == 0,
            r is None ==> final(self)@ == old(self)@,
            r matches Some(v) ==> v == old(self)@.last() && final(self)@ == old(self)@.drop_last(),
            final(self).room() == old(self).room(),
    {
        self.reserved = self.capacity();
        self.buf.pop()
    }

    /// Reserves capacity for at least `additional` more elements to be inserted.
    /// Afterwards there is room for `self.len() + additional` elements or more.
    /// Does nothing if there is room for as many already.
    pub fn reserve(&mut self, additional: usize)
        requires
            old(self)@.len() + additional <= usize::MAX,
        ensures
            final(self)@ == old(self)@,
            final(self).room() == max(old(self).room(), old(self)@.len() + additional),
            final(self).room() >= old(self).room(),
            final(self).room() >= old(self)@.len() + additional,
            old(self).room() >= old(self)@.len() + additional ==> *final(self) == *old(self),
    {
        if self.capacity() - self.buf.len() < additional {
            self.buf.reserve(additional);
            self.reserved = self.buf.len() + additional;
        }
    }

    /// Puts an element at a position and moves those from there on up by one.
    pub fn insert(&mut self, index: usize, value: T)
        requires
            index <= old(self)@.len(),
        ensures
            final(self)@ == old(self)@.insert(index as int, value),
            final(self).room() == max(old(self).room(), final(self)@.len() as int),
    {
        self.buf.insert(index, value);
    }

    /// The elements.
    pub fn as_slice(&self) -> (r: &[T])
        ensures
            r@ == self@,
    {
        self.buf.as_slice()
    }

    /// The number of elements.
    pub fn len(&self) -> (r: usize)
        ensures
            r == self@.len(),
    {
        self.buf.len()
    }

    /// Is the array empty?
    pub fn is_empty(&self) -> (r: bool)
        ensures
            r == (self@.len() == 0),
    {
        self.buf.len() == 0
    }
}

} // verus!
