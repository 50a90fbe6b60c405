//! Resumable codecs for ordered containers, written once against a narrow
//! container capability interface.

pub mod map;
pub mod seq;

use std::collections::VecDeque;

use vstd::prelude::*;

verus! {

/// The capability interface a growable ordered container must offer for
/// the sequence codec to serve it: construct empty, reserve, append, and
/// read elements in order.
pub trait SeqApi<T>: Sized {
    /// The elements held, in order.
    spec fn elems(&self) -> Seq<T>;

    /// Construct an empty container.
    fn new() -> (c: Self)
        ensures
            c.elems() == Seq::<T>::empty(),
    ;

    /// Reserve room for `len` more elements; a hint that leaves the
    /// contents unchanged.
    fn reserve(&mut self, len: usize)
        ensures
            final(self).elems() == old(self).elems(),
    ;

    /// Append one element at the end.
    fn append(&mut self, value: T)
        ensures
            final(self).elems() == old(self).elems().push(value),
    ;

    /// The number of elements held.
    fn length(&self) -> (r: usize)
        ensures
            r == self.elems().len(),
    ;

    /// Borrow the element at `idx`.
    fn borrow_at(&self, idx: usize) -> (r: &T)
        requires
            idx < self.elems().len(),
        ensures
            *r == self.elems()[idx as int],
    ;
}

impl<T> SeqApi<T> for Vec<T> {
    open spec fn elems(&self) -> Seq<T> {
        self@
    }

    fn new() -> (c: Vec<T>) {
        Vec::new()
    }

    fn reserve(&mut self, len: usize) {
        Vec::reserve(self, len);
    }

    fn append(&mut self, value: T) {
        self.push(value);
    }

    fn length(&self) -> (r: usize) {
        self.len()
    }

    fn borrow_at(&self, idx: usize) -> (r: &T) {
        &self[idx]
    }
}

impl<T> SeqApi<T> for VecDeque<T> {
    open spec fn elems(&self) -> Seq<T> {
        self@
    }

    fn new() -> (c: VecDeque<T>) {
        VecDeque::new()
    }

    fn reserve(&mut self, len: usize) {
        VecDeque::reserve(self, len);
    }

    fn append(&mut self, value: T) {
        self.push_back(value);
    }

    fn length(&self) -> (r: usize) {
        self.len()
    }

    fn borrow_at(&self, idx: usize) -> (r: &T) {
        &self[idx]
    }
}

/// The capability interface an associative container must offer for the
/// map codec to serve it: construct empty, reserve, append one entry, and
/// read entries in order.  Entries are encoded in the order the container
/// hands them out.
pub trait MapApi<K, V>: Sized {
    /// The entries held, as key/value pairs in order.
    spec fn entries(&self) -> Seq<(K, V)>;

    /// Construct an empty container.
    fn new() -> (c: Self)
        ensures
            c.entries() == Seq::<(K, V)>::empty(),
    ;

    /// Reserve room for `len` more entries; a hint that leaves the
    /// contents unchanged.
    fn reserve(&mut self, len: usize)
        ensures
            final(self).entries() == old(self).entries(),
    ;

    /// Append one entry at the end.
    fn append(&mut self, key: K, value: V)
        ensures
            final(self).entries() == old(self).entries().push((key, value)),
    ;

    /// The number of entries held.
    fn length(&self) -> (r: usize)
        ensures
            r == self.entries().len(),
    ;

    /// Borrow the entry at `idx`.
    fn entry_at(&self, idx: usize) -> (r: &(K, V))
        requires
            idx < self.entries().len(),
        ensures
            *r == self.entries()[idx as int],
    ;
}

impl<K, V> MapApi<K, V> for Vec<(K, V)> {
    open spec fn entries(&self) -> Seq<(K, V)> {
        self@
    }

    fn new() -> (c: Vec<(K, V)>) {
        Vec::new()
    }

    fn reserve(&mut self, len: usize) {
        Vec::reserve(self, len);
    }

    fn append(&mut self, key: K, value: V) {
        self.push((key, value));
    }

    fn length(&self) -> (r: usize) {
        self.len()
    }

    fn entry_at(&self, idx: usize) -> (r: &(K, V)) {
        &self[idx]
    }
}

} // verus!
