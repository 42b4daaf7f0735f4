//! A fixed-size byte buffer, the unit of transfer between a paged file and
//! its users.

use vstd::prelude::*;

verus! {

/// A buffer with a fixed page size.
#[derive(Debug)]
pub struct Page<const PAGE_SIZE: usize> {
    boxed_buf: Box<[u8; PAGE_SIZE]>,
}

impl<const PAGE_SIZE: usize> View for Page<PAGE_SIZE> {
    type V = Seq<u8>;

    closed spec fn view(&self) -> Seq<u8> {
        (*self.boxed_buf)@
    }
}

impl<const PAGE_SIZE: usize> Page<PAGE_SIZE> {
    /// Creates a new empty page.
    pub fn new() -> (page: Self)
        ensures
            page@ == Seq::new(PAGE_SIZE as nat, |i: int| 0u8),
    {
        Page { boxed_buf: Box::new([0u8; PAGE_SIZE]) }
    }

    /// Creates a new page from an existing buffer.
    pub fn new_from_buf(buf: [u8; PAGE_SIZE]) -> (page: Self)
        ensures
            page@ == buf@,
    {
        Page { boxed_buf: Box::new(buf) }
    }

    /// Creates a new page from an existing Boxed buffer.
    pub fn new_from_boxed_buf(boxed_buf: Box<[u8; PAGE_SIZE]>) -> (page: Self)
        ensures
            page@ == (*boxed_buf)@,
    {
        Page { boxed_buf }
    }

    /// Consumes the page to return the underlying buffer.
    pub fn into_boxed_buf(self) -> (buf: Box<[u8; PAGE_SIZE]>)
        ensures
            (*buf)@ == self@,
    {
        self.boxed_buf
    }

    /// A page has `PAGE_SIZE` bytes.
    pub proof fn lemma_len(&self)
        ensures
            self@.len() == PAGE_SIZE,
    {
    }

    /// The buffer of the page.
    pub fn as_buf(&self) -> (buf: &[u8; PAGE_SIZE])
        ensures
            buf@ == self@,
    {
        &self.boxed_buf
    }

    /// The buffer of the page, to be changed in place.
    pub fn as_mut_buf(&mut self) -> (buf: &mut [u8; PAGE_SIZE])
        ensures
            buf@ == old(self)@,
            final(self)@ == final(buf)@,
    {
        &mut self.boxed_buf
    }
}

impl<const PAGE_SIZE: usize> Default for Page<PAGE_SIZE> {
    fn default() -> (page: Self)
        ensures
            page@ == Seq::new(PAGE_SIZE as nat, |i: int| 0u8),
    {
        Page::<PAGE_SIZE>::new()
    }
}

} // verus!
