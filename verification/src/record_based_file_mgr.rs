//! The record manager: records in the pages of a paged file.
//!
//! A record goes into the last page of the file that has room for it, and
//! into a new page at the end of the file where no page has room.

use crate::attribute::{Attribute, Value};
use crate::codec_laws::stored_part;
use crate::error::StoreError;
use crate::page::Page;
use crate::paged_file::{open_failure, PagedFile};
use crate::record::Record;
use crate::record_codec::{encode_failure, encoded_record, record_size};
use crate::record_page::{
    page_with_record, place_failure, place_record, read_slot, required_space_of, slot_content,
    SlotContent, SlotRead,
};
use crate::slot_directory::{
    directory_ok, empty_page, free_space, get_slot_directory_hdr, init_rb_page, lemma_empty_page,
    page_free_space, page_slots, usable_page_size,
};
use crate::store_laws::{can_insert, lemma_insert_then_read, lemma_last_fit_is_last};
use vstd::prelude::*;

verus! {

/// The handle of a stored record: the page and the slot under which it was
/// stored.
#[derive(Clone, Copy, Debug, PartialEq, Eq, Structural)]
pub struct RecordId {
    pub page_num: u32,
    pub slot_num: u32,
}

/// Whether every page starts with a usable slot directory.
pub open spec fn all_directories_ok(pages: Seq<Seq<u8>>) -> bool {
    forall|i: int| 0 <= i < pages.len() ==> directory_ok(#[trigger] pages[i])
}

/// The last of the first `n` pages with at least `required` free bytes.
pub open spec fn last_fit(pages: Seq<Seq<u8>>, required: int, n: int) -> Option<int>
    decreases n,
{
    if n <= 0 {
        None
    } else if page_free_space(pages[n - 1]) >= required {
        Some(n - 1)
    } else {
        last_fit(pages, required, n - 1)
    }
}

/// The page that a record which needs `required` free bytes goes to: the
/// last page that has them, or a new page behind the last.
pub open spec fn insert_page(pages: Seq<Seq<u8>>, required: int) -> int {
    match last_fit(pages, required, pages.len() as int) {
        Some(i) => i,
        None => pages.len() as int,
    }
}

/// The slot that such a record gets: the next of its page.
pub open spec fn insert_slot(pages: Seq<Seq<u8>>, required: int) -> int {
    match last_fit(pages, required, pages.len() as int) {
        Some(i) => page_slots(pages[i]).len() as int,
        None => 0,
    }
}

/// The pages after a record with the bytes `record_bytes` went in.
pub open spec fn pages_with_record(pages: Seq<Seq<u8>>, page_size: nat, record_bytes: Seq<u8>) -> Seq<
    Seq<u8>,
> {
    match last_fit(pages, 8 + record_bytes.len() as int, pages.len() as int) {
        Some(i) => pages.update(i, page_with_record(pages[i], record_bytes)),
        None => pages.push(page_with_record(empty_page(page_size), record_bytes)),
    }
}

/// The record under an identifier, or why there is none. A redirection is
/// followed; after `hops` of them the search ends.
pub open spec fn resolve(
    pages: Seq<Seq<u8>>,
    schema: Seq<Attribute>,
    rid: RecordId,
    hops: nat,
) -> Result<Map<Seq<char>, Value>, StoreError>
    decreases hops,
{
    if rid.page_num >= pages.len() {
        Err(StoreError::PageNotFound { page_num: rid.page_num as u64, num_pages: pages.len() as u64 })
    } else {
        match slot_content(schema, pages[rid.page_num as int], rid.slot_num) {
            Err(e) => Err(e),
            Ok(SlotContent::Found(fields)) => Ok(fields),
            Ok(SlotContent::Redirected(next)) => if hops == 0 {
                Err(StoreError::RedirectionLimit)
            } else {
                resolve(pages, schema, next, (hops - 1) as nat)
            },
        }
    }
}

/// A file of records of one schema, in pages of `PAGE_SIZE` bytes.
#[derive(Debug)]
pub struct RecordBasedFileMgr<const PAGE_SIZE: usize> {
    paged_file: PagedFile<PAGE_SIZE>,
    attributes: Vec<Attribute>,
}

impl<const PAGE_SIZE: usize> RecordBasedFileMgr<PAGE_SIZE> {
    /// The paged file.
    pub closed spec fn file(&self) -> PagedFile<PAGE_SIZE> {
        self.paged_file
    }

    /// The schema.
    pub closed spec fn schema(&self) -> Seq<Attribute> {
        self.attributes@
    }

    /// The pages of the file.
    pub open spec fn pages(&self) -> Seq<Seq<u8>> {
        self.file().pages()
    }

    /// Whether the value is a record file: a paged file whose pages can
    /// carry a slot directory.
    pub open spec fn wf(&self) -> bool {
        self.file().wf() && usable_page_size(PAGE_SIZE as nat)
    }

    /// The record under an identifier, or why there is none. A chain of
    /// redirections is followed for as many steps as the file has pages.
    pub open spec fn spec_read(&self, rid: RecordId) -> Result<Map<Seq<char>, Value>, StoreError> {
        resolve(self.pages(), self.schema(), rid, self.pages().len())
    }

    /// Why a record cannot be inserted, if it cannot.
    pub open spec fn insert_failure(&self, record: Map<Seq<char>, Value>) -> Option<StoreError> {
        let required = required_space_of(self.schema(), record);
        if encode_failure(self.schema(), record) is Some {
            encode_failure(self.schema(), record)
        } else if required > PAGE_SIZE - 12 {
            Some(StoreError::RecordTooLarge)
        } else if !all_directories_ok(self.pages()) {
            Some(StoreError::CorruptPage)
        } else {
            match last_fit(self.pages(), required, self.pages().len() as int) {
                Some(i) => if i > u32::MAX {
                    Some(StoreError::FileTooLarge)
                } else {
                    None
                },
                None => if !self.file().aligned() {
                    Some(StoreError::PartialPage)
                } else if self.file().image().len() + PAGE_SIZE > usize::MAX
                    || self.pages().len() > u32::MAX {
                    Some(StoreError::FileTooLarge)
                } else {
                    None
                },
            }
        }
    }

    /// Create a new record file with the given schema: one page, which holds
    /// no record. Fails where no record page can have `PAGE_SIZE` bytes.
    pub fn create(attributes: Vec<Attribute>) -> (result: Result<Self, StoreError>)
        ensures
            usable_page_size(PAGE_SIZE as nat) ==> (result matches Ok(mgr) && mgr.wf()
                && mgr.schema() == attributes@ && mgr.file().aligned() && mgr.file().image().len()
                == 8 + PAGE_SIZE && mgr.pages() == seq![empty_page(PAGE_SIZE as nat)]),
            !usable_page_size(PAGE_SIZE as nat) ==> (result matches Err(e) && e
                == StoreError::InvalidPageSize),
    {
        if PAGE_SIZE < 12 || PAGE_SIZE > 0x7fff_ffff {
            return Err(StoreError::InvalidPageSize);
        }
        let mut paged_file = match PagedFile::<PAGE_SIZE>::create() {
            Ok(paged_file) => paged_file,
            Err(e) => {
                return Err(e);
            },
        };
        let mut page = Page::<PAGE_SIZE>::new();
        match init_rb_page(&mut page) {
            Ok(()) => {},
            Err(e) => {
                return Err(e);
            },
        }
        proof {
            vstd::bytes::lemma_auto_spec_u64_to_from_le_bytes();
            assert(paged_file.image().len() == 8);
            assert(paged_file.aligned());
        }
        match paged_file.append_page(&page) {
            Ok(()) => {},
            Err(e) => {
                return Err(e);
            },
        }
        proof {
            page.lemma_len();
            assert(paged_file.pages() =~= seq![empty_page(PAGE_SIZE as nat)]);
        }
        Ok(Self { paged_file, attributes })
    }

    /// Open the record file whose bytes are `image`. The schema is taken on
    /// trust to be the one that the file was written with.
    pub fn open(image: Vec<u8>, attributes: Vec<Attribute>) -> (result: Result<Self, StoreError>)
        ensures
            match open_failure(image@, PAGE_SIZE as nat) {
                Some(e) => result matches Err(f) && f == e,
                None => if usable_page_size(PAGE_SIZE as nat) {
                    result matches Ok(mgr) && mgr.wf() && mgr.schema() == attributes@
                        && mgr.file().image() == image@
                } else {
                    result matches Err(f) && f == StoreError::InvalidPageSize
                },
            },
    {
        let paged_file = match PagedFile::<PAGE_SIZE>::open(image) {
            Ok(paged_file) => paged_file,
            Err(e) => {
                return Err(e);
            },
        };
        if PAGE_SIZE < 12 || PAGE_SIZE > 0x7fff_ffff {
            return Err(StoreError::InvalidPageSize);
        }
        Ok(Self { paged_file, attributes })
    }

    /// The paged file that holds the records.
    pub fn paged_file(&self) -> (file: &PagedFile<PAGE_SIZE>)
        ensures
            *file == self.file(),
    {
        &self.paged_file
    }

    /// The schema of the records.
    pub fn attributes(&self) -> (attributes: &Vec<Attribute>)
        ensures
            attributes@ == self.schema(),
    {
        &self.attributes
    }

    /// Gives the manager up for the bytes of its file.
    pub fn into_bytes(self) -> (bytes: Vec<u8>)
        ensures
            bytes@ == self.file().image(),
    {
        self.paged_file.into_bytes()
    }

    /// The free bytes that the record takes from a page: eight for its slot,
    /// and its own.
    pub fn required_space(&self, insert_vals: &Record) -> (result: Result<usize, StoreError>)
        ensures
            match encode_failure(self.schema(), insert_vals@) {
                Some(e) => result == Err::<usize, StoreError>(e),
                None => result == Ok::<usize, StoreError>(
                    required_space_of(self.schema(), insert_vals@) as usize,
                ),
            },
    {
        // Overhead:
        // SlotDirectoryRecordEntry: 8 bytes
        // Total
        // Overhead + Record size
        match record_size(&self.attributes, insert_vals) {
            Ok(size) => Ok(8 + size),
            Err(e) => Err(e),
        }
    }

    /// Insert a new record to store the values from insert_vals
    /// Returns the RecordId of the newly inserted record
    ///
    /// The record goes to the last page with enough free space, or to a new
    /// page at the end of the file where no page has enough. Where the
    /// record cannot be inserted, the file stays as it is.
    pub fn insert(&mut self, insert_vals: &Record) -> (result: Result<RecordId, StoreError>)
        requires
            old(self).wf(),
        ensures
            final(self).wf(),
            final(self).schema() == old(self).schema(),
            match old(self).insert_failure(insert_vals@) {
                Some(e) => result == Err::<RecordId, StoreError>(e) && final(self).file().image()
                    == old(self).file().image(),
                None => {
                    let required = required_space_of(old(self).schema(), insert_vals@);
                    &&& result == Ok::<RecordId, StoreError>(
                        RecordId {
                            page_num: insert_page(old(self).pages(), required) as u32,
                            slot_num: insert_slot(old(self).pages(), required) as u32,
                        },
                    )
                    &&& final(self).pages() == pages_with_record(
                        old(self).pages(),
                        PAGE_SIZE as nat,
                        encoded_record(old(self).schema(), insert_vals@),
                    )
                    &&& can_insert(
                        old(self).pages(),
                        PAGE_SIZE as nat,
                        old(self).schema(),
                        insert_vals@,
                    )
                    &&& result matches Ok(rid) && final(self).spec_read(rid) == Ok::<
                        Map<Seq<char>, Value>,
                        StoreError,
                    >(stored_part(old(self).schema(), insert_vals@))
                },
            },
    {
        let required_space = match self.required_space(insert_vals) {
            Ok(required_space) => required_space,
            Err(e) => {
                return Err(e);
            },
        };
        if required_space > PAGE_SIZE - 12 {
            return Err(StoreError::RecordTooLarge);
        }
        let num_pages = self.paged_file.num_pages();
        let ghost pages = self.pages();
        let ghost schema = self.schema();
        proof {
            self.paged_file.lemma_pages();
            crate::record_codec::lemma_encoded_len(schema, insert_vals@);
        }
        let mut page = Page::<PAGE_SIZE>::new();
        let mut page_found = false;
        let mut page_num: u64 = 0;
        let mut i: u64 = 0;
        while i < num_pages
            invariant
                self.wf(),
                *self == *old(self),
                pages == self.pages(),
                num_pages == pages.len(),
                i <= num_pages,
                schema == self.schema(),
                encode_failure(schema, insert_vals@) is None,
                required_space == required_space_of(schema, insert_vals@),
                required_space <= PAGE_SIZE - 12,
                forall|j: int| 0 <= j < pages.len() ==> (#[trigger] pages[j]).len() == PAGE_SIZE,
                forall|j: int| 0 <= j < i ==> directory_ok(#[trigger] pages[j]),
                last_fit(pages, required_space as int, i as int) == if page_found {
                    Some(page_num as int)
                } else {
                    None::<int>
                },
                page_found ==> page_num < i,
            decreases num_pages - i,
        {
            match self.paged_file.read_page(i, &mut page) {
                Ok(()) => {},
                Err(e) => {
                    return Err(e);
                },
            }
            let hdr = match get_slot_directory_hdr(&page) {
                Ok(hdr) => hdr,
                Err(e) => {
                    proof {
                        assert(!directory_ok(pages[i as int]));
                    }
                    return Err(e);
                },
            };
            let free = match free_space(&hdr) {
                Ok(free) => free,
                Err(e) => {
                    proof {
                        assert(!directory_ok(pages[i as int]));
                    }
                    return Err(e);
                },
            };
            if hdr.data_start_offset as usize > PAGE_SIZE {
                proof {
                    assert(!directory_ok(pages[i as int]));
                }
                return Err(StoreError::CorruptPage);
            }
            if free >= required_space {
                page_found = true;
                page_num = i;
            }
            i += 1;
        }
        proof {
            lemma_last_fit_is_last(pages, required_space as int, pages.len() as int);
            lemma_empty_page(PAGE_SIZE as nat);
        }
        if page_found {
            match self.paged_file.read_page(page_num, &mut page) {
                Ok(()) => {},
                Err(e) => {
                    return Err(e);
                },
            }
        } else {
            if !self.paged_file.ends_at_page_boundary() {
                return Err(StoreError::PartialPage);
            }
            if PAGE_SIZE > usize::MAX - self.paged_file.as_bytes().len() {
                return Err(StoreError::FileTooLarge);
            }
            page_num = num_pages;
            match init_rb_page(&mut page) {
                Ok(()) => {},
                Err(e) => {
                    return Err(e);
                },
            }
        }
        if page_num > u32::MAX as u64 {
            return Err(StoreError::FileTooLarge);
        }
        proof {
            assert(place_failure(schema, insert_vals@, page@) is None);
            assert(can_insert(pages, PAGE_SIZE as nat, schema, insert_vals@));
            lemma_insert_then_read(pages, PAGE_SIZE as nat, schema, insert_vals@);
        }
        let slot_num = match place_record(&self.attributes, &mut page, insert_vals) {
            Ok(slot_num) => slot_num,
            Err(e) => {
                return Err(e);
            },
        };
        let written = if page_found {
            self.paged_file.write_page(page_num, &page)
        } else {
            self.paged_file.append_page(&page)
        };
        match written {
            Ok(()) => {},
            Err(e) => {
                return Err(e);
            },
        }
        Ok(RecordId { page_num: page_num as u32, slot_num })
    }

    /// Reads the record with RecordId rid and returns a mapping from
    /// attribute name to value, with the attributes that have a value.
    ///
    /// A slot that says that its record lives under another identifier is
    /// followed there, for as many steps as the file has pages.
    pub fn read(&self, rid: &RecordId) -> (result: Result<Record, StoreError>)
        requires
            self.wf(),
        ensures
            match self.spec_read(*rid) {
                Ok(fields) => result matches Ok(record) && record@ == fields,
                Err(e) => result matches Err(f) && f == e,
            },
    {
        let num_pages = self.paged_file.num_pages();
        proof {
            self.paged_file.lemma_pages();
        }
        let mut page = Page::<PAGE_SIZE>::new();
        let mut current = *rid;
        let mut hops_left: u64 = num_pages;
        loop
            invariant
                self.wf(),
                num_pages == self.pages().len(),
                hops_left <= num_pages,
                self.spec_read(*rid) == resolve(
                    self.pages(),
                    self.schema(),
                    current,
                    hops_left as nat,
                ),
            decreases hops_left,
        {
            match self.paged_file.read_page(current.page_num as u64, &mut page) {
                Ok(()) => {},
                Err(e) => {
                    return Err(e);
                },
            }
            match read_slot(&self.attributes, &page, current.slot_num) {
                Err(e) => {
                    return Err(e);
                },
                Ok(SlotRead::Found(record)) => {
                    return Ok(record);
                },
                Ok(SlotRead::Redirected(next)) => {
                    if hops_left == 0 {
                        return Err(StoreError::RedirectionLimit);
                    }
                    hops_left -= 1;
                    current = next;
                },
            }
        }
    }
}

} // verus!
