//! Records in one page: placing a record behind the slot directory's free
//! space, and reading the record of a slot.

use crate::attribute::{Attribute, Value};
use crate::byte_ops::overwritten;
use crate::codec_laws::{lemma_write_then_read, stored_part};
use crate::error::StoreError;
use crate::page::Page;
use crate::record::Record;
use crate::record_based_file_mgr::RecordId;
use crate::record_codec::{
    decoded_record, encode_failure, encoded_record, lemma_encoded_len, read_record_from_buf,
    record_len, record_size, write_record_into_buf,
};
use crate::slot_directory::{
    directory_ok, free_space, get_slot_directory_hdr, header_bytes, header_size,
    lemma_header_len, lemma_header_write_then_read, page_data_start, page_free_space, page_slots,
    parsed_header, usable_page_size, write_slot_directory_hdr, SlotDirectoryRecordEntry,
    SlotStatus,
};
use vstd::prelude::*;

verus! {

/// The slot that describes `length` record bytes at `offset`.
pub open spec fn slot_for(offset: int, length: int) -> SlotDirectoryRecordEntry {
    SlotDirectoryRecordEntry { length: length as u32, offset: offset as i32 }
}

/// The page after a record with the bytes `record_bytes` was placed in it:
/// the record bytes stand directly in front of the record bytes that were
/// there, and the directory has one more slot, the last, which describes
/// them.
pub open spec fn page_with_record(page: Seq<u8>, record_bytes: Seq<u8>) -> Seq<u8> {
    let start = page_data_start(page) - record_bytes.len();
    let slots = page_slots(page).push(slot_for(start, record_bytes.len() as int));
    overwritten(overwritten(page, 0, header_bytes(start as u32, slots)), start, record_bytes)
}

/// The bytes that a record takes from the free space of a page: its own, and
/// eight for its slot.
pub open spec fn required_space_of(schema: Seq<Attribute>, record: Map<Seq<char>, Value>) -> int {
    8 + record_len(schema, record) as int
}

/// Why a record cannot be placed in a page, if it cannot.
pub open spec fn place_failure(
    schema: Seq<Attribute>,
    record: Map<Seq<char>, Value>,
    page: Seq<u8>,
) -> Option<StoreError> {
    if !usable_page_size(page.len()) {
        Some(StoreError::InvalidPageSize)
    } else if encode_failure(schema, record) is Some {
        encode_failure(schema, record)
    } else if !directory_ok(page) {
        Some(StoreError::CorruptPage)
    } else if page_free_space(page) < required_space_of(schema, record) {
        Some(StoreError::PageFull)
    } else {
        None
    }
}

/// What a slot leads to.
pub enum SlotContent {
    /// The record of the slot.
    Found(Map<Seq<char>, Value>),
    /// The identifier under which the record now lives.
    Redirected(RecordId),
}

/// What a slot of a page leads to, or why it leads to nothing.
pub open spec fn slot_content(schema: Seq<Attribute>, page: Seq<u8>, slot_num: u32) -> Result<
    SlotContent,
    StoreError,
> {
    match parsed_header(page) {
        None => Err(StoreError::CorruptPage),
        Some((_, slots)) => if slot_num >= slots.len() {
            Err(StoreError::SlotNotFound)
        } else {
            let slot = slots[slot_num as int];
            match slot.spec_status() {
                SlotStatus::Dead => Err(StoreError::RecordDeleted),
                SlotStatus::Moved(rid) => Ok(SlotContent::Redirected(rid)),
                SlotStatus::Valid => if slot.offset + slot.length > page.len() {
                    Err(StoreError::CorruptPage)
                } else {
                    match decoded_record(
                        schema,
                        page.subrange(slot.offset as int, slot.offset + slot.length),
                    ) {
                        Ok(fields) => Ok(SlotContent::Found(fields)),
                        Err(e) => Err(e),
                    }
                },
            }
        },
    }
}

/// What reading a slot gave.
#[derive(Debug)]
pub enum SlotRead {
    /// The record of the slot.
    Found(Record),
    /// The identifier under which the record now lives.
    Redirected(RecordId),
}

impl View for SlotRead {
    type V = SlotContent;

    open spec fn view(&self) -> SlotContent {
        match self {
            SlotRead::Found(record) => SlotContent::Found(record@),
            SlotRead::Redirected(rid) => SlotContent::Redirected(*rid),
        }
    }
}

/// A record that was placed in a page is read back from its slot as it was
/// written; the directory of the page stays usable and loses the bytes of the
/// record and of its slot from its free space.
pub proof fn lemma_place_then_read(
    schema: Seq<Attribute>,
    record: Map<Seq<char>, Value>,
    page: Seq<u8>,
)
    requires
        place_failure(schema, record, page) is None,
    ensures
        ({
            let placed = page_with_record(page, encoded_record(schema, record));
            let slot_num = page_slots(page).len();
            &&& placed.len() == page.len()
            &&& directory_ok(placed)
            &&& page_data_start(placed) == page_data_start(page) - record_len(schema, record)
            &&& page_slots(placed) == page_slots(page).push(
                slot_for(
                    page_data_start(page) - record_len(schema, record),
                    record_len(schema, record) as int,
                ),
            )
            &&& page_free_space(placed) == page_free_space(page) - required_space_of(schema, record)
            &&& slot_num < 0x1000_0000
            &&& slot_content(schema, placed, slot_num as u32) == Ok::<SlotContent, StoreError>(
                SlotContent::Found(stored_part(schema, record)),
            )
        }),
{
    let bytes = encoded_record(schema, record);
    let placed = page_with_record(page, bytes);
    lemma_encoded_len(schema, record);
    let len = record_len(schema, record) as int;
    let start = page_data_start(page) - len;
    let slots = page_slots(page).push(slot_for(start, len));
    let head = header_bytes(start as u32, slots);
    lemma_header_len(start as u32, slots);
    lemma_header_len(page_data_start(page), page_slots(page));
    assert(head.len() == header_size(page_slots(page).len()) + 8);
    let with_head = overwritten(page, 0, head);
    assert(with_head.len() == page.len());
    assert(placed.len() == page.len());
    let rest = placed.subrange(head.len() as int, placed.len() as int);
    assert(placed =~= head + rest);
    lemma_header_write_then_read(start as u32, slots, rest);
    assert(parsed_header(placed) == Some((start as u32, slots)));
    let slot = slots[page_slots(page).len() as int];
    assert(slot == slot_for(start, len));
    assert(slot.offset == start);
    assert(slot.length == len);
    assert(slot.spec_status() == SlotStatus::Valid);
    assert(placed.subrange(start, start + len) =~= bytes);
    lemma_write_then_read(schema, record);
}

/// Whether the bytes of every record in place start at or behind the start of
/// the record bytes of the page, so that they are outside its free space.
pub open spec fn records_behind_start(page: Seq<u8>) -> bool {
    forall|s: int|
        0 <= s < page_slots(page).len() && (#[trigger] page_slots(page)[s]).spec_status()
            == SlotStatus::Valid ==> page_slots(page)[s].offset >= page_data_start(page)
}

/// Placing a record leaves the other slots of the page as they were: a slot
/// whose record is outside the free space leads to what it led to before.
pub proof fn lemma_place_keeps_slot(
    schema: Seq<Attribute>,
    record: Map<Seq<char>, Value>,
    page: Seq<u8>,
    slot_num: u32,
)
    requires
        place_failure(schema, record, page) is None,
        slot_num < page_slots(page).len(),
        page_slots(page)[slot_num as int].spec_status() == SlotStatus::Valid ==> page_slots(
            page,
        )[slot_num as int].offset >= page_data_start(page),
    ensures
        slot_content(schema, page_with_record(page, encoded_record(schema, record)), slot_num)
            == slot_content(schema, page, slot_num),
{
    let bytes = encoded_record(schema, record);
    let placed = page_with_record(page, bytes);
    lemma_place_then_read(schema, record, page);
    lemma_encoded_len(schema, record);
    let slot = page_slots(page)[slot_num as int];
    assert(page_slots(placed)[slot_num as int] == slot);
    if slot.spec_status() == SlotStatus::Valid && slot.offset + slot.length <= page.len() {
        let len = record_len(schema, record) as int;
        let start = page_data_start(page) - len;
        let slots = page_slots(page).push(slot_for(start, len));
        let head = header_bytes(start as u32, slots);
        lemma_header_len(start as u32, slots);
        assert(head.len() <= start);
        assert forall|k: int| page_data_start(page) <= k < page.len() implies placed[k]
            == page[k] by {
            assert(overwritten(page, 0, head)[k] == page[k]);
        }
        assert(placed.subrange(slot.offset as int, slot.offset + slot.length) =~= page.subrange(
            slot.offset as int,
            slot.offset + slot.length,
        ));
    }
}

/// Placing a record in a page whose records are outside its free space gives
/// such a page again.
pub proof fn lemma_place_keeps_order(
    schema: Seq<Attribute>,
    record: Map<Seq<char>, Value>,
    page: Seq<u8>,
)
    requires
        place_failure(schema, record, page) is None,
        records_behind_start(page),
    ensures
        records_behind_start(page_with_record(page, encoded_record(schema, record))),
{
    let placed = page_with_record(page, encoded_record(schema, record));
    lemma_place_then_read(schema, record, page);
    assert forall|s: int|
        0 <= s < page_slots(placed).len() && (#[trigger] page_slots(placed)[s]).spec_status()
            == SlotStatus::Valid implies page_slots(placed)[s].offset >= page_data_start(placed) by {
        if s < page_slots(page).len() {
            assert(page_slots(placed)[s] == page_slots(page)[s]);
        }
    }
}

/// Places the record in the page: writes its bytes directly in front of the
/// record bytes that are there, and adds a slot for them to the directory.
/// Returns the number of the slot. Fails, and leaves the page as it is, where
/// the record cannot be stored, the page has no usable directory, or its free
/// space is too small.
pub fn place_record<const PAGE_SIZE: usize>(
    schema: &Vec<Attribute>,
    page: &mut Page<PAGE_SIZE>,
    insert_vals: &Record,
) -> (result: Result<u32, StoreError>)
    ensures
        match place_failure(schema@, insert_vals@, old(page)@) {
            Some(e) => result == Err::<u32, StoreError>(e) && final(page)@ == old(page)@,
            None => result == Ok::<u32, StoreError>(page_slots(old(page)@).len() as u32)
                && final(page)@ == page_with_record(
                old(page)@,
                encoded_record(schema@, insert_vals@),
            ),
        },
{
    proof {
        page.lemma_len();
    }
    if PAGE_SIZE < 12 || PAGE_SIZE > 0x7fff_ffff {
        return Err(StoreError::InvalidPageSize);
    }
    let size = match record_size(schema, insert_vals) {
        Ok(size) => size,
        Err(e) => {
            return Err(e);
        },
    };
    let mut slot_dir_hdr = match get_slot_directory_hdr(page) {
        Ok(hdr) => hdr,
        Err(e) => {
            return Err(e);
        },
    };
    let free = match free_space(&slot_dir_hdr) {
        Ok(free) => free,
        Err(e) => {
            return Err(e);
        },
    };
    if slot_dir_hdr.data_start_offset as usize > PAGE_SIZE {
        return Err(StoreError::CorruptPage);
    }
    if free < size + 8 {
        return Err(StoreError::PageFull);
    }
    let slot_num = slot_dir_hdr.slots_vec.len() as u32;
    let starting_offset: u32 = slot_dir_hdr.data_start_offset - size as u32;
    slot_dir_hdr.data_start_offset = starting_offset;
    slot_dir_hdr.slots_vec.push(
        SlotDirectoryRecordEntry { length: size as u32, offset: starting_offset as i32 },
    );
    proof {
        lemma_header_len(starting_offset, slot_dir_hdr.slots_vec@);
        lemma_encoded_len(schema@, insert_vals@);
    }
    match write_slot_directory_hdr(page, &slot_dir_hdr) {
        Ok(()) => {},
        Err(e) => {
            return Err(e);
        },
    }
    // Struct fields are written to disk and should be fixed sizes
    // But it's easier to work with usizes for slicing
    let starting_offset = starting_offset as usize;
    match write_record_into_buf(schema, page.as_mut_buf(), starting_offset, insert_vals) {
        Ok(_) => {},
        Err(e) => {
            return Err(e);
        },
    }
    Ok(slot_num)
}

/// Reads what the slot of the page leads to: its record, or the identifier
/// under which the record now lives.
pub fn read_slot<const PAGE_SIZE: usize>(
    schema: &Vec<Attribute>,
    page: &Page<PAGE_SIZE>,
    slot_num: u32,
) -> (result: Result<SlotRead, StoreError>)
    ensures
        match slot_content(schema@, page@, slot_num) {
            Ok(content) => result matches Ok(read) && read@ == content,
            Err(e) => result matches Err(f) && f == e,
        },
{
    proof {
        page.lemma_len();
    }
    let hdr = match get_slot_directory_hdr(page) {
        Ok(hdr) => hdr,
        Err(e) => {
            return Err(e);
        },
    };
    if hdr.slots_vec.len() <= slot_num as usize {
        return Err(StoreError::SlotNotFound);
    }
    let slot = hdr.slots_vec[slot_num as usize];
    match slot.status() {
        SlotStatus::Dead => Err(StoreError::RecordDeleted),
        SlotStatus::Moved(rid) => Ok(SlotRead::Redirected(rid)),
        SlotStatus::Valid => {
            let start = slot.offset as usize;
            let length = slot.length as usize;
            if start > PAGE_SIZE || length > PAGE_SIZE - start {
                return Err(StoreError::CorruptPage);
            }
            match read_record_from_buf(schema, bytes_between(page.as_buf().as_slice(), start, start + length)) {
                Ok(record) => Ok(SlotRead::Found(record)),
                Err(e) => Err(e),
            }
        },
    }
}

/// The part of a slice from `start` up to `end`.
fn bytes_between(bytes: &[u8], start: usize, end: usize) -> (part: &[u8])
    requires
        start <= end <= bytes@.len(),
    ensures
        part@ == bytes@.subrange(start as int, end as int),
{
    &bytes[start..end]
}

} // verus!
