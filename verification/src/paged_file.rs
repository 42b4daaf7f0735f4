//! A file of fixed-size pages behind a header that names the page size.
//!
//! The file is held as its bytes: eight bytes for the page size,
//! little-endian, then the pages one after the other. Page `n` stands at
//! `8 + n * PAGE_SIZE`. Bringing the bytes from and to a disk is left to the
//! owner of the value.

use crate::byte_ops::{append_bytes, copy_into, overwritten};
use crate::error::StoreError;
use crate::page::Page;
use vstd::bytes::{
    lemma_auto_spec_u64_to_from_le_bytes, spec_u64_from_le_bytes, spec_u64_to_le_bytes,
    u64_from_le_bytes, u64_to_le_bytes,
};
use vstd::arithmetic::div_mod::{
    lemma_div_nonincreasing, lemma_div_plus_one, lemma_fundamental_div_mod,
    lemma_mod_add_multiples_vanish, lemma_mod_pos_bound,
};
use vstd::prelude::*;

verus! {

/// The length of the header of a paged file.
pub const HEADER_LEN: usize = 8;

/// The header of a file of pages of `page_size` bytes.
pub open spec fn header_image(page_size: nat) -> Seq<u8> {
    spec_u64_to_le_bytes(page_size as u64)
}

/// The page size that the header of the file `image` names.
pub open spec fn stored_page_size(image: Seq<u8>) -> u64 {
    spec_u64_from_le_bytes(image.subrange(0, 8))
}

/// Why the bytes `image` cannot be opened as a file of pages of `page_size`
/// bytes, if they cannot.
pub open spec fn open_failure(image: Seq<u8>, page_size: nat) -> Option<StoreError> {
    if image.len() < 8 {
        Some(StoreError::UnexpectedEof)
    } else if stored_page_size(image) != page_size {
        Some(StoreError::PageSizeMismatch { header: stored_page_size(image), expected: page_size as u64 })
    } else if page_size == 0 {
        Some(StoreError::InvalidPageSize)
    } else {
        None
    }
}

/// The number of whole pages in the file `image`.
pub open spec fn image_num_pages(image: Seq<u8>, page_size: nat) -> nat {
    ((image.len() - 8) / (page_size as int)) as nat
}

/// Page `n` of the file `image`.
pub open spec fn image_page(image: Seq<u8>, page_size: nat, n: int) -> Seq<u8> {
    image.subrange(8 + n * page_size, 8 + (n + 1) * page_size)
}

/// The pages of the file `image`.
pub open spec fn image_pages(image: Seq<u8>, page_size: nat) -> Seq<Seq<u8>> {
    Seq::new(image_num_pages(image, page_size), |n: int| image_page(image, page_size, n))
}

/// Page `n` of a file lies inside the file, behind the pages before it.
pub proof fn lemma_page_inside(len: int, page_size: int, n: int)
    requires
        page_size > 0,
        len >= 8,
        0 <= n < (len - 8) / page_size,
    ensures
        n * page_size >= 0,
        8 + (n + 1) * page_size <= len,
        (n + 1) * page_size == n * page_size + page_size,
        (len - 8) / page_size <= len - 8,
{
    let pages = (len - 8) / page_size;
    lemma_fundamental_div_mod(len - 8, page_size);
    lemma_mod_pos_bound(len - 8, page_size);
    lemma_div_nonincreasing(len - 8, page_size);
    assert(pages * page_size == page_size * pages) by (nonlinear_arith);
    assert((n + 1) * page_size <= pages * page_size) by (nonlinear_arith)
        requires
            n + 1 <= pages,
            page_size > 0,
    ;
    assert(n * page_size >= 0) by (nonlinear_arith)
        requires
            n >= 0,
            page_size > 0,
    ;
    assert((n + 1) * page_size == n * page_size + page_size) by (nonlinear_arith);
}

/// Two pages of a file do not overlap.
pub proof fn lemma_pages_apart(page_size: int, m: int, n: int)
    requires
        page_size > 0,
        0 <= m < n,
    ensures
        (m + 1) * page_size <= n * page_size,
{
    assert((m + 1) * page_size <= n * page_size) by (nonlinear_arith)
        requires
            m + 1 <= n,
            page_size > 0,
    ;
}

/// A file that grows by one page has one page more.
pub proof fn lemma_one_page_more(len: int, page_size: int)
    requires
        page_size > 0,
        len >= 8,
    ensures
        (len + page_size - 8) / page_size == (len - 8) / page_size + 1,
        (len - 8) % page_size == 0 ==> (len + page_size - 8) % page_size == 0 && 8 + ((len - 8)
            / page_size) * page_size == len,
{
    let x = len - 8;
    lemma_div_plus_one(x, page_size);
    lemma_mod_add_multiples_vanish(x, page_size);
    lemma_fundamental_div_mod(x, page_size);
    assert(page_size + x == len + page_size - 8);
    assert((x / page_size) * page_size == page_size * (x / page_size)) by (nonlinear_arith);
}

/// A file that was created can be opened with the page size that it was
/// created with, and with no other: the failure then names both page sizes.
pub proof fn lemma_create_then_open(page_size: nat, other: nat)
    requires
        0 < page_size <= u64::MAX,
        other <= u64::MAX,
    ensures
        open_failure(header_image(page_size), page_size) is None,
        other != page_size ==> open_failure(header_image(page_size), other) == Some(
            StoreError::PageSizeMismatch { header: page_size as u64, expected: other as u64 },
        ),
{
    lemma_auto_spec_u64_to_from_le_bytes();
    let image = header_image(page_size);
    assert(image.len() == 8);
    assert(image.subrange(0, 8) == image);
}

/// The file that `start` becomes when the pages are appended to it one after
/// the other.
pub open spec fn image_after_appends(start: Seq<u8>, pages: Seq<Seq<u8>>) -> Seq<u8>
    decreases pages.len(),
{
    if pages.len() == 0 {
        start
    } else {
        image_after_appends(start, pages.drop_last()) + pages.last()
    }
}

/// A page appended to a file that ends at a page boundary is the last page of
/// the file, behind the pages that were there.
pub proof fn lemma_image_append(image: Seq<u8>, page_size: nat, page: Seq<u8>)
    requires
        page_size > 0,
        image.len() >= 8,
        (image.len() - 8) % (page_size as int) == 0,
        page.len() == page_size,
    ensures
        image_pages(image + page, page_size) == image_pages(image, page_size).push(page),
        ((image + page).len() - 8) % (page_size as int) == 0,
{
    let after = image + page;
    let count = image_num_pages(image, page_size) as int;
    lemma_one_page_more(image.len() as int, page_size as int);
    assert forall|m: int| 0 <= m < count + 1 implies #[trigger] image_pages(after, page_size)[m]
        == image_pages(image, page_size).push(page)[m] by {
        if m < count {
            lemma_page_inside(image.len() as int, page_size as int, m);
            assert(image_page(after, page_size, m) =~= image_page(image, page_size, m));
        } else {
            assert((m + 1) * page_size == m * page_size + page_size) by (nonlinear_arith);
            assert(image_page(after, page_size, m) =~= page);
        }
    }
    assert(image_pages(after, page_size) =~= image_pages(image, page_size).push(page));
}

/// After pages were appended to a new file, the file has these pages and no
/// others, in the order in which they were appended, and it can be opened
/// again with its page size.
pub proof fn lemma_appended_pages(page_size: nat, pages: Seq<Seq<u8>>)
    requires
        0 < page_size <= u64::MAX,
        forall|n: int| 0 <= n < pages.len() ==> (#[trigger] pages[n]).len() == page_size,
    ensures
        image_pages(image_after_appends(header_image(page_size), pages), page_size) == pages,
        open_failure(image_after_appends(header_image(page_size), pages), page_size) is None,
        (image_after_appends(header_image(page_size), pages).len() - 8) % (page_size as int) == 0,
    decreases pages.len(),
{
    lemma_auto_spec_u64_to_from_le_bytes();
    lemma_create_then_open(page_size, page_size);
    let start = header_image(page_size);
    assert(start.len() == 8);
    if pages.len() == 0 {
        assert(image_pages(start, page_size) =~= pages);
    } else {
        let front = pages.drop_last();
        lemma_appended_pages(page_size, front);
        let image = image_after_appends(start, front);
        lemma_image_append(image, page_size, pages.last());
        assert(front.push(pages.last()) =~= pages);
        assert((image + pages.last()).subrange(0, 8) =~= image.subrange(0, 8));
    }
}

/// A file of pages of `PAGE_SIZE` bytes, held as its bytes.
#[derive(Debug)]
pub struct PagedFile<const PAGE_SIZE: usize> {
    data: Vec<u8>,
}

impl<const PAGE_SIZE: usize> PagedFile<PAGE_SIZE> {
    /// The bytes of the file.
    pub closed spec fn image(&self) -> Seq<u8> {
        self.data@
    }

    /// Whether the value is a file of pages of `PAGE_SIZE` bytes: the header
    /// is there and names this page size, which is not zero.
    pub open spec fn wf(&self) -> bool {
        open_failure(self.image(), PAGE_SIZE as nat) is None
    }

    /// The number of pages.
    pub open spec fn spec_num_pages(&self) -> nat {
        image_num_pages(self.image(), PAGE_SIZE as nat)
    }

    /// The pages.
    pub open spec fn pages(&self) -> Seq<Seq<u8>> {
        image_pages(self.image(), PAGE_SIZE as nat)
    }

    /// Whether the file ends at a page boundary.
    pub open spec fn aligned(&self) -> bool {
        (self.image().len() - 8) % (PAGE_SIZE as int) == 0
    }

    /// Every page of the file has `PAGE_SIZE` bytes.
    pub proof fn lemma_pages(&self)
        requires
            self.wf(),
        ensures
            self.pages().len() == self.spec_num_pages(),
            forall|n: int| 0 <= n < self.pages().len() ==> (#[trigger] self.pages()[n]).len() == PAGE_SIZE,
    {
        assert forall|n: int| 0 <= n < self.pages().len() implies (#[trigger] self.pages()[n]).len()
            == PAGE_SIZE by {
            lemma_page_inside(self.image().len() as int, PAGE_SIZE as int, n);
        }
    }

    /// Opens the file whose bytes are `image`. Fails where the bytes end
    /// before the header does, and where the header names another page size
    /// than `PAGE_SIZE`; the error then holds both. Whether the file ends at
    /// a page boundary is not looked at.
    pub fn open(image: Vec<u8>) -> (result: Result<Self, StoreError>)
        ensures
            match open_failure(image@, PAGE_SIZE as nat) {
                Some(e) => result matches Err(f) && f == e,
                None => result matches Ok(file) && file.wf() && file.image() == image@,
            },
    {
        if image.len() < HEADER_LEN {
            return Err(StoreError::UnexpectedEof);
        }
        // Extract the page_size from the header
        let hdr_page_size: u64 = u64_from_le_bytes(header_of(image.as_slice()));
        // Confirm the hdr page size matches the expected page size
        if hdr_page_size != PAGE_SIZE as u64 {
            return Err(
                StoreError::PageSizeMismatch { header: hdr_page_size, expected: PAGE_SIZE as u64 },
            );
        }
        if PAGE_SIZE == 0 {
            return Err(StoreError::InvalidPageSize);
        }
        Ok(PagedFile { data: image })
    }

    /// Creates a file without pages. Fails where the page size is zero.
    pub fn create() -> (result: Result<Self, StoreError>)
        ensures
            PAGE_SIZE == 0 ==> (result matches Err(e) && e == StoreError::InvalidPageSize),
            PAGE_SIZE > 0 ==> (result matches Ok(file) && file.wf() && file.image() == header_image(
                PAGE_SIZE as nat,
            ) && file.image().len() == 8 && file.aligned() && file.pages() == Seq::<
                Seq<u8>,
            >::empty()),
    {
        if PAGE_SIZE == 0 {
            return Err(StoreError::InvalidPageSize);
        }
        let hdr = u64_to_le_bytes(PAGE_SIZE as u64);
        proof {
            lemma_auto_spec_u64_to_from_le_bytes();
            assert(hdr@.len() == 8);
            assert(hdr@.subrange(0, 8) == hdr@);
            assert(stored_page_size(hdr@) == PAGE_SIZE);
            assert(image_pages(hdr@, PAGE_SIZE as nat) =~= Seq::<Seq<u8>>::empty());
        }
        Ok(PagedFile { data: hdr })
    }

    /// Return the number of pages in the file.
    pub fn num_pages(&self) -> (count: u64)
        requires
            self.wf(),
        ensures
            count == self.spec_num_pages(),
    {
        proof {
            lemma_div_nonincreasing(self.data@.len() - 8, PAGE_SIZE as int);
        }
        ((self.data.len() - HEADER_LEN) / PAGE_SIZE) as u64
    }

    /// Whether the file ends at a page boundary.
    pub fn ends_at_page_boundary(&self) -> (aligned: bool)
        requires
            self.wf(),
        ensures
            aligned == self.aligned(),
    {
        (self.data.len() - HEADER_LEN) % PAGE_SIZE == 0
    }

    /// The offset in the file at which the page starts. Fails where the file
    /// has no page of that number.
    pub fn seek(&self, pagenum: u64) -> (result: Result<usize, StoreError>)
        requires
            self.wf(),
        ensures
            pagenum < self.spec_num_pages() ==> result == Ok::<usize, StoreError>(
                (8 + pagenum * PAGE_SIZE) as usize,
            ) && 8 + pagenum * PAGE_SIZE + PAGE_SIZE <= self.image().len(),
            pagenum >= self.spec_num_pages() ==> result == Err::<usize, StoreError>(
                StoreError::PageNotFound { page_num: pagenum, num_pages: self.spec_num_pages() as u64 },
            ),
    {
        let num_pages = self.num_pages();
        if num_pages <= pagenum {
            Err(StoreError::PageNotFound { page_num: pagenum, num_pages })
        } else {
            let len = self.data.len();
            proof {
                lemma_page_inside(len as int, PAGE_SIZE as int, pagenum as int);
            }
            Ok(HEADER_LEN + pagenum as usize * PAGE_SIZE)
        }
    }

    /// Read the given page from the file into a new Page buffer.
    pub fn read_page_alloc(&self, pagenum: u64) -> (result: Result<Page<PAGE_SIZE>, StoreError>)
        requires
            self.wf(),
        ensures
            pagenum < self.spec_num_pages() ==> (result matches Ok(page) && page@
                == self.pages()[pagenum as int]),
            pagenum >= self.spec_num_pages() ==> (result matches Err(e) && e
                == (StoreError::PageNotFound {
                page_num: pagenum,
                num_pages: self.spec_num_pages() as u64,
            })),
    {
        let mut result = Page::<PAGE_SIZE>::new();
        match self.read_page(pagenum, &mut result) {
            Ok(()) => Ok(result),
            Err(e) => Err(e),
        }
    }

    /// Read the given page from the file into the given Page buffer. Fails,
    /// and leaves the buffer as it is, where the file has no page of that
    /// number.
    pub fn read_page(&self, pagenum: u64, page: &mut Page<PAGE_SIZE>) -> (result: Result<
        (),
        StoreError,
    >)
        requires
            self.wf(),
        ensures
            pagenum < self.spec_num_pages() ==> result is Ok && final(page)@
                == self.pages()[pagenum as int],
            pagenum >= self.spec_num_pages() ==> result == Err::<(), StoreError>(
                StoreError::PageNotFound { page_num: pagenum, num_pages: self.spec_num_pages() as u64 },
            ) && final(page)@ == old(page)@,
    {
        let start = match self.seek(pagenum) {
            Ok(start) => start,
            Err(e) => {
                return Err(e);
            },
        };
        let len = self.data.len();
        proof {
            lemma_page_inside(len as int, PAGE_SIZE as int, pagenum as int);
        }
        let source = part_of(self.data.as_slice(), start, start + PAGE_SIZE);
        proof {
            page.lemma_len();
        }
        copy_into(page.as_mut_buf(), 0, source);
        proof {
            assert(page@ =~= self.pages()[pagenum as int]);
        }
        Ok(())
    }

    /// Write to the given page in the file. Fails, and leaves the file as it
    /// is, where the file has no page of that number.
    pub fn write_page(&mut self, pagenum: u64, page: &Page<PAGE_SIZE>) -> (result: Result<
        (),
        StoreError,
    >)
        requires
            old(self).wf(),
        ensures
            final(self).wf(),
            pagenum < old(self).spec_num_pages() ==> result is Ok && final(self).pages() == old(self).pages().update(pagenum as int, page@) && final(self).image() == overwritten(
                old(self).image(),
                8 + pagenum * PAGE_SIZE,
                page@,
            ),
            pagenum >= old(self).spec_num_pages() ==> result == Err::<(), StoreError>(
                StoreError::PageNotFound {
                    page_num: pagenum,
                    num_pages: old(self).spec_num_pages() as u64,
                },
            ) && final(self).image() == old(self).image(),
    {
        let start = match self.seek(pagenum) {
            Ok(start) => start,
            Err(e) => {
                return Err(e);
            },
        };
        let len = self.data.len();
        proof {
            page.lemma_len();
            lemma_page_inside(len as int, PAGE_SIZE as int, pagenum as int);
        }
        copy_into(self.data.as_mut_slice(), start, page.as_buf().as_slice());
        proof {
            let before = old(self).image();
            let after = self.image();
            lemma_page_inside(before.len() as int, PAGE_SIZE as int, pagenum as int);
            assert(after == overwritten(before, start as int, page@));
            assert(after.subrange(0, 8) =~= before.subrange(0, 8));
            assert forall|m: int| 0 <= m < old(self).spec_num_pages() implies #[trigger] self.pages()[m]
                == old(self).pages().update(pagenum as int, page@)[m] by {
                lemma_page_inside(before.len() as int, PAGE_SIZE as int, m);
                if m < pagenum {
                    lemma_pages_apart(PAGE_SIZE as int, m, pagenum as int);
                } else if m > pagenum {
                    lemma_pages_apart(PAGE_SIZE as int, pagenum as int, m);
                }
                assert(image_page(after, PAGE_SIZE as nat, m) =~= old(self).pages().update(
                    pagenum as int,
                    page@,
                )[m]);
            }
            assert(self.pages() =~= old(self).pages().update(pagenum as int, page@));
        }
        Ok(())
    }

    /// Appends a new page to the file. Fails, and leaves the file as it is,
    /// where the file cannot be that long.
    pub fn append_page(&mut self, page: &Page<PAGE_SIZE>) -> (result: Result<(), StoreError>)
        requires
            old(self).wf(),
        ensures
            final(self).wf(),
            old(self).image().len() + PAGE_SIZE <= usize::MAX ==> result is Ok && final(self).image() == old(self).image() + page@ && final(self).spec_num_pages() == old(self).spec_num_pages() + 1,
            old(self).image().len() + PAGE_SIZE <= usize::MAX && old(self).aligned() ==> final(self).aligned() && final(self).pages() == old(self).pages().push(page@),
            old(self).image().len() + PAGE_SIZE > usize::MAX ==> result == Err::<(), StoreError>(
                StoreError::FileTooLarge,
            ) && final(self).image() == old(self).image(),
    {
        if PAGE_SIZE > usize::MAX - self.data.len() {
            return Err(StoreError::FileTooLarge);
        }
        append_bytes(&mut self.data, page.as_buf().as_slice());
        proof {
            page.lemma_len();
            let before = old(self).image();
            let after = self.image();
            assert(after.subrange(0, 8) =~= before.subrange(0, 8));
            lemma_one_page_more(before.len() as int, PAGE_SIZE as int);
            if old(self).aligned() {
                lemma_image_append(before, PAGE_SIZE as nat, page@);
            }
        }
        Ok(())
    }

    /// The bytes of the file.
    pub fn as_bytes(&self) -> (bytes: &[u8])
        ensures
            bytes@ == self.image(),
    {
        self.data.as_slice()
    }

    /// Gives the file up for its bytes.
    pub fn into_bytes(self) -> (bytes: Vec<u8>)
        ensures
            bytes@ == self.image(),
    {
        self.data
    }
}

/// The first eight bytes of a file.
fn header_of(bytes: &[u8]) -> (part: &[u8])
    requires
        bytes@.len() >= 8,
    ensures
        part@ == bytes@.subrange(0, 8),
{
    &bytes[0..8]
}

/// The part of a slice from `start` up to `end`.
fn part_of(bytes: &[u8], start: usize, end: usize) -> (part: &[u8])
    requires
        start <= end <= bytes@.len(),
    ensures
        part@ == bytes@.subrange(start as int, end as int),
{
    &bytes[start..end]
}

} // verus!
