//! The containers of a bit vector, held in a `smallvec::SmallVec` with room
//! for four containers inline.
//!
//! Verus cannot read `SmallVec` (its type parameter is bound by the crate's
//! `Array` trait), so the vector sits in a private field of `Storage`, whose
//! contents are named by `storage_items`.  Each method below makes one call
//! into `smallvec` and states, over that name, what the crate's source does.
use smallvec::SmallVec;
use vstd::prelude::*;

verus! {

/// The containers of a bit vector, in order.
#[verifier::external_body]
#[derive(Debug)]
pub struct Storage {
    inner: SmallVec<[[u64; 4]; 4]>,
}

/// The containers that a `Storage` holds, in order.
pub uninterp spec fn storage_items(s: Storage) -> Seq<[u64; 4]>;

impl Storage {
    /// `SmallVec::new`: an empty vector.
    #[verifier::external_body]
    pub(crate) fn new() -> (r: Storage)
        ensures
            storage_items(r) == Seq::<[u64; 4]>::empty(),
    {
        Storage { inner: SmallVec::new() }
    }

    /// `SmallVec::from_vec`: the same items as the `Vec`, in order.
    #[verifier::external_body]
    pub(crate) fn from_vec(v: Vec<[u64; 4]>) -> (r: Storage)
        ensures
            storage_items(r) == v@,
    {
        Storage { inner: SmallVec::from_vec(v) }
    }

    /// `SmallVec::len`: the number of items.
    #[verifier::external_body]
    pub(crate) fn len(&self) -> (r: usize)
        ensures
            r == storage_items(*self).len(),
    {
        self.inner.len()
    }

    /// `SmallVec::capacity`: at least the number of items, and at least the
    /// four items of the inline buffer.  A heap buffer was laid out for its
    /// capacity (by `Layout::from_size_align`, or by the `Vec` it came from),
    /// so its bytes, 32 per item, stay within `isize::MAX`.  Where in that
    /// range it lies depends on how the buffer grew and is left unsaid.
    #[verifier::external_body]
    pub(crate) fn capacity(&self) -> (r: usize)
        ensures
            r >= storage_items(*self).len(),
            r >= 4,
            r <= isize::MAX / 32,
    {
        self.inner.capacity()
    }

    /// `SmallVec::spilled`: whether the items live on the heap.  The inline
    /// buffer holds four containers, so more than four items are always on
    /// the heap; when four or fewer are, the answer depends on the history
    /// of the vector and is left unsaid.
    #[verifier::external_body]
    pub(crate) fn spilled(&self) -> (r: bool)
        ensures
            storage_items(*self).len() > 4 ==> r,
    {
        self.inner.spilled()
    }

    /// `SmallVec::index` (through `Index<usize>`): a copy of item `i`.
    #[verifier::external_body]
    pub(crate) fn get(&self, i: usize) -> (r: [u64; 4])
        requires
            i < storage_items(*self).len(),
        ensures
            r == storage_items(*self)[i as int],
    {
        self.inner[i]
    }

    /// `SmallVec::index_mut` (through `IndexMut<usize>`): item `i` replaced by `x`.
    #[verifier::external_body]
    pub(crate) fn set(&mut self, i: usize, x: [u64; 4])
        requires
            i < storage_items(*old(self)).len(),
        ensures
            storage_items(*final(self)) == storage_items(*old(self)).update(i as int, x),
    {
        self.inner[i] = x;
    }

    /// `SmallVec::push`: `x` appended.  Growing the heap buffer panics when
    /// its size in bytes would pass `isize::MAX`; the bound below keeps the
    /// doubled buffer of 32-byte items under it.
    #[verifier::external_body]
    pub(crate) fn push(&mut self, x: [u64; 4])
        requires
            storage_items(*old(self)).len() + 1 <= isize::MAX / 64,
        ensures
            storage_items(*final(self)) == storage_items(*old(self)).push(x),
    {
        self.inner.push(x);
    }

    /// `SmallVec::resize`: cut to the first `n` items, or filled up to `n`
    /// items with copies of `x`.  Growing reserves room first, which panics
    /// when the buffer's size in bytes would pass `isize::MAX`; the bound
    /// below keeps it under.
    #[verifier::external_body]
    pub(crate) fn resize(&mut self, n: usize, x: [u64; 4])
        requires
            n > storage_items(*old(self)).len() ==> n <= isize::MAX / 64,
        ensures
            storage_items(*final(self)) == (if n <= storage_items(*old(self)).len() {
                storage_items(*old(self)).take(n as int)
            } else {
                storage_items(*old(self)) + Seq::new(
                    (n - storage_items(*old(self)).len()) as nat,
                    |k: int| x,
                )
            }),
    {
        self.inner.resize(n, x);
    }

    /// `SmallVec::clone`: the same items, in order.
    #[verifier::external_body]
    pub(crate) fn duplicate(&self) -> (r: Storage)
        ensures
            storage_items(r) == storage_items(*self),
    {
        Storage { inner: self.inner.clone() }
    }
}

} // verus!
