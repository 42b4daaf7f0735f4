//! The slot directory at the start of every record page.
//!
//! The directory is stored as the offset at which the record bytes of the
//! page start (four bytes), the number of slots (eight bytes), and for each
//! slot its length and its offset (four bytes each), all little-endian. It
//! grows forward from the start of the page, while the record bytes grow
//! backward from its end.

use crate::error::StoreError;
use crate::page::Page;
use crate::record_based_file_mgr::RecordId;
use vstd::bytes::{
    lemma_auto_spec_u32_to_from_le_bytes, lemma_auto_spec_u64_to_from_le_bytes,
    spec_u32_from_le_bytes, spec_u32_to_le_bytes, spec_u64_from_le_bytes, spec_u64_to_le_bytes,
};
use crate::byte_ops::overwritten;
use vstd::prelude::*;

verus! {

/// The size of a slot directory without slots.
pub const HDR_SIZE: usize = 12;

/// The size of one slot in the directory.
pub const RECORD_ENTRY_SIZE: usize = 8;

/// One slot of a directory. The two fields say together whether the record
/// is in place, removed or moved: see [`SlotDirectoryRecordEntry::status`].
#[derive(Clone, Copy, Debug, PartialEq, Eq, Structural)]
pub struct SlotDirectoryRecordEntry {
    // Total length of the record
    pub length: u32,
    // Offset into the page of the start of the record
    pub offset: i32,
}

/// What a slot says of its record.
#[derive(Clone, Copy, Debug, PartialEq, Eq, Structural)]
pub enum SlotStatus {
    /// The record's bytes are in this page, at the slot's offset.
    Valid,
    /// The record was removed.
    Dead,
    /// The record now lives under another identifier.
    Moved(RecordId),
}

impl SlotDirectoryRecordEntry {
    /// The status that the two fields encode: both zero for a removed
    /// record, a negative offset for a record that moved to the page
    /// `length` and the slot `-offset`, anything else for a record in place.
    pub open spec fn spec_status(&self) -> SlotStatus {
        if self.length == 0 && self.offset == 0 {
            SlotStatus::Dead
        } else if self.offset < 0 {
            SlotStatus::Moved(RecordId { page_num: self.length, slot_num: (-self.offset) as u32 })
        } else {
            SlotStatus::Valid
        }
    }

    /// The status that the two fields encode.
    #[verifier::when_used_as_spec(spec_status)]
    pub fn status(&self) -> (status: SlotStatus)
        ensures
            status == self.spec_status(),
    {
        if self.length == 0 && self.offset == 0 {
            SlotStatus::Dead
        } else if self.offset < 0 {
            let slot: i64 = -(self.offset as i64);
            SlotStatus::Moved(RecordId { page_num: self.length, slot_num: slot as u32 })
        } else {
            SlotStatus::Valid
        }
    }
}

// Header will begin at byte 0 of the page and grow forward
// Records will begin at the end of the page and grow backward
#[derive(Debug)]
pub struct SlotDirectoryHeader {
    // Points to the first used byte
    pub data_start_offset: u32,
    // Stored as a count and the entries in a compact form
    pub slots_vec: Vec<SlotDirectoryRecordEntry>,
}

/// The bytes of one slot.
pub open spec fn entry_bytes(entry: SlotDirectoryRecordEntry) -> Seq<u8> {
    spec_u32_to_le_bytes(entry.length) + spec_u32_to_le_bytes(entry.offset as u32)
}

/// The bytes of the slots, one after the other.
pub open spec fn entries_bytes(slots: Seq<SlotDirectoryRecordEntry>) -> Seq<u8>
    decreases slots.len(),
{
    if slots.len() == 0 {
        Seq::empty()
    } else {
        entries_bytes(slots.drop_last()) + entry_bytes(slots.last())
    }
}

/// The bytes of a slot directory.
pub open spec fn header_bytes(data_start_offset: u32, slots: Seq<SlotDirectoryRecordEntry>) -> Seq<
    u8,
> {
    spec_u32_to_le_bytes(data_start_offset) + spec_u64_to_le_bytes(slots.len() as u64)
        + entries_bytes(slots)
}

/// The size of a slot directory with `slots` slots.
pub open spec fn header_size(slots: nat) -> nat {
    12 + 8 * slots
}

/// The slot number `i` of the directory at the start of `bytes`.
pub open spec fn stored_entry(bytes: Seq<u8>, i: int) -> SlotDirectoryRecordEntry {
    SlotDirectoryRecordEntry {
        length: spec_u32_from_le_bytes(bytes.subrange(12 + 8 * i, 16 + 8 * i)),
        offset: spec_u32_from_le_bytes(bytes.subrange(16 + 8 * i, 20 + 8 * i)) as i32,
    }
}

/// The number of slots that the directory at the start of `bytes` says it
/// has.
pub open spec fn stored_slot_count(bytes: Seq<u8>) -> nat {
    spec_u64_from_le_bytes(bytes.subrange(4, 12)) as nat
}

/// The slot directory at the start of `bytes`, if the bytes are long enough
/// for one: the start of the record bytes, and the slots.
pub open spec fn parsed_header(bytes: Seq<u8>) -> Option<(u32, Seq<SlotDirectoryRecordEntry>)> {
    if bytes.len() < 12 {
        None
    } else if bytes.len() < header_size(stored_slot_count(bytes)) {
        None
    } else {
        Some(
            (
                spec_u32_from_le_bytes(bytes.subrange(0, 4)),
                Seq::new(stored_slot_count(bytes), |i: int| stored_entry(bytes, i)),
            ),
        )
    }
}

/// The kind of a failure of bincode, `bincode::ErrorKind`. Nothing is said of
/// what a value of it holds: a failure is only told from a success.
#[verifier::external_type_specification]
#[verifier::external_body]
pub struct ExBincodeErrorKind(bincode::ErrorKind);

/// Calls `bincode::serialize_into` with the front of `buf` as the writer, on
/// the directory as a pair of the offset and the list of slots, each slot a
/// pair of its length and its offset. With bincode's fixed-width
/// little-endian integers and its eight-byte sequence length this writes
/// [`header_bytes`] over the front of `buf`; it fails if `buf` is shorter
/// than that, and may then have written a part.
#[verifier::external_body]
fn bincode_serialize_into(buf: &mut [u8], hdr: &SlotDirectoryHeader) -> (result: Result<
    (),
    bincode::Error,
>)
    ensures
        final(buf)@.len() == old(buf)@.len(),
        result is Ok <==> header_size(hdr.slots_vec@.len()) <= old(buf)@.len(),
        result is Ok ==> final(buf)@ == overwritten(
            old(buf)@,
            0,
            header_bytes(hdr.data_start_offset, hdr.slots_vec@),
        ),
{
    let slots: Vec<(u32, i32)> = hdr.slots_vec.iter().map(|e| (e.length, e.offset)).collect();
    bincode::serialize_into(buf, &(hdr.data_start_offset, slots))
}

/// Calls `bincode::deserialize` for a pair of an offset and a list of slots.
/// It reads the directory that [`parsed_header`] describes, ignores the bytes
/// behind it, and fails where the bytes end before the directory does.
#[verifier::external_body]
fn bincode_deserialize(bytes: &[u8]) -> (result: Result<SlotDirectoryHeader, bincode::Error>)
    ensures
        match parsed_header(bytes@) {
            Some((data_start_offset, slots)) => result matches Ok(hdr) && hdr.data_start_offset
                == data_start_offset && hdr.slots_vec@ == slots,
            None => result is Err,
        },
{
    let (data_start_offset, slots): (u32, Vec<(u32, i32)>) = bincode::deserialize(bytes)?;
    let slots_vec = slots.into_iter().map(
        |(length, offset)| SlotDirectoryRecordEntry { length, offset },
    ).collect();
    Ok(SlotDirectoryHeader { data_start_offset, slots_vec })
}

/// Calls `bincode::serialized_size` on the directory as a pair of the offset
/// and the list of slots: four bytes, eight for the number of slots, eight
/// for each slot.
#[verifier::external_body]
fn bincode_serialized_size(hdr: &SlotDirectoryHeader) -> (size: Result<u64, bincode::Error>)
    ensures
        size is Ok,
        size matches Ok(n) ==> n == header_size(hdr.slots_vec@.len()),
{
    let slots: Vec<(u32, i32)> = hdr.slots_vec.iter().map(|e| (e.length, e.offset)).collect();
    bincode::serialized_size(&(hdr.data_start_offset, slots))
}

/// The length of the bytes of the slots.
pub proof fn lemma_entries_len(slots: Seq<SlotDirectoryRecordEntry>)
    ensures
        entries_bytes(slots).len() == 8 * slots.len(),
    decreases slots.len(),
{
    lemma_auto_spec_u32_to_from_le_bytes();
    if slots.len() > 0 {
        lemma_entries_len(slots.drop_last());
        assert(spec_u32_to_le_bytes(slots.last().length).len() == 4);
        assert(spec_u32_to_le_bytes(slots.last().offset as u32).len() == 4);
    }
}

/// A slot directory without slots takes twelve bytes, and each slot takes
/// eight more.
pub proof fn lemma_header_len(data_start_offset: u32, slots: Seq<SlotDirectoryRecordEntry>)
    ensures
        header_bytes(data_start_offset, slots).len() == header_size(slots.len()),
        header_size(0) == 12,
        forall|entry: SlotDirectoryRecordEntry| #[trigger]
            header_bytes(data_start_offset, slots.push(entry)).len() == header_bytes(
                data_start_offset,
                slots,
            ).len() + 8,
{
    lemma_auto_spec_u32_to_from_le_bytes();
    lemma_auto_spec_u64_to_from_le_bytes();
    lemma_entries_len(slots);
    assert(spec_u32_to_le_bytes(data_start_offset).len() == 4);
    assert(spec_u64_to_le_bytes(slots.len() as u64).len() == 8);
    assert forall|entry: SlotDirectoryRecordEntry| #[trigger]
        header_bytes(data_start_offset, slots.push(entry)).len() == header_bytes(
            data_start_offset,
            slots,
        ).len() + 8 by {
        lemma_entries_len(slots.push(entry));
        assert(spec_u64_to_le_bytes(slots.push(entry).len() as u64).len() == 8);
    }
}

/// Where the bytes of slot `i` stand among the bytes of the slots.
proof fn lemma_entry_place(slots: Seq<SlotDirectoryRecordEntry>, i: int)
    requires
        0 <= i < slots.len(),
    ensures
        entries_bytes(slots).subrange(8 * i, 8 * i + 8) == entry_bytes(slots[i]),
    decreases slots.len(),
{
    lemma_entries_len(slots);
    lemma_entries_len(slots.drop_last());
    lemma_entries_len(seq![slots.last()]);
    lemma_auto_spec_u32_to_from_le_bytes();
    assert(spec_u32_to_le_bytes(slots.last().length).len() == 4);
    assert(spec_u32_to_le_bytes(slots.last().offset as u32).len() == 4);
    if i < slots.len() - 1 {
        lemma_entry_place(slots.drop_last(), i);
        assert(entries_bytes(slots).subrange(8 * i, 8 * i + 8) =~= entries_bytes(
            slots.drop_last(),
        ).subrange(8 * i, 8 * i + 8));
    } else {
        assert(entries_bytes(slots).subrange(8 * i, 8 * i + 8) =~= entry_bytes(slots[i]));
    }
}

proof fn lemma_offset_bits(v: i32)
    ensures
        ((v as u32) as i32) == v,
{
    assert(((v as u32) as i32) == v) by (bit_vector);
}

/// A slot directory that was written is read back as it was, whatever
/// follows its bytes.
pub proof fn lemma_header_write_then_read(
    data_start_offset: u32,
    slots: Seq<SlotDirectoryRecordEntry>,
    rest: Seq<u8>,
)
    requires
        slots.len() <= u64::MAX,
    ensures
        parsed_header(header_bytes(data_start_offset, slots) + rest) == Some(
            (data_start_offset, slots),
        ),
{
    let head = header_bytes(data_start_offset, slots);
    let bytes = head + rest;
    lemma_header_len(data_start_offset, slots);
    lemma_entries_len(slots);
    lemma_auto_spec_u32_to_from_le_bytes();
    lemma_auto_spec_u64_to_from_le_bytes();
    assert(spec_u32_to_le_bytes(data_start_offset).len() == 4);
    assert(spec_u64_to_le_bytes(slots.len() as u64).len() == 8);
    assert(bytes.subrange(0, 4) =~= spec_u32_to_le_bytes(data_start_offset));
    assert(bytes.subrange(4, 12) =~= spec_u64_to_le_bytes(slots.len() as u64));
    assert(stored_slot_count(bytes) == slots.len());
    let read = Seq::new(stored_slot_count(bytes), |i: int| stored_entry(bytes, i));
    assert forall|i: int| 0 <= i < slots.len() implies read[i] == slots[i] by {
        lemma_entry_place(slots, i);
        let entry = entry_bytes(slots[i]);
        assert(spec_u32_to_le_bytes(slots[i].length).len() == 4);
        assert(spec_u32_to_le_bytes(slots[i].offset as u32).len() == 4);
        assert(bytes.subrange(12 + 8 * i, 20 + 8 * i) =~= entries_bytes(slots).subrange(
            8 * i,
            8 * i + 8,
        ));
        assert(bytes.subrange(12 + 8 * i, 16 + 8 * i) =~= bytes.subrange(
            12 + 8 * i,
            20 + 8 * i,
        ).subrange(0, 4));
        assert(bytes.subrange(16 + 8 * i, 20 + 8 * i) =~= bytes.subrange(
            12 + 8 * i,
            20 + 8 * i,
        ).subrange(4, 8));
        assert(entry.subrange(0, 4) =~= spec_u32_to_le_bytes(slots[i].length));
        assert(entry.subrange(4, 8) =~= spec_u32_to_le_bytes(slots[i].offset as u32));
        lemma_offset_bits(slots[i].offset);
    }
    assert(read =~= slots);
}

impl SlotDirectoryHeader {
    /// The directory of a page of `page_size` bytes that holds no record.
    pub fn empty(page_size: u32) -> (hdr: SlotDirectoryHeader)
        ensures
            hdr.data_start_offset == page_size,
            hdr.slots_vec@ == Seq::<SlotDirectoryRecordEntry>::empty(),
    {
        SlotDirectoryHeader { data_start_offset: page_size, slots_vec: Vec::new() }
    }

    /// The number of bytes that the directory takes at the start of a page.
    pub fn serialized_size(&self) -> (size: u64)
        ensures
            size == header_size(self.slots_vec@.len()),
    {
        match bincode_serialized_size(self) {
            Ok(size) => size,
            Err(_) => {
                proof {
                    assert(false);
                }
                0
            },
        }
    }
}

/// Whether a record page can have this size: its directory must fit, and
/// every offset into it must fit the directory's fields.
pub open spec fn usable_page_size(page_size: nat) -> bool {
    12 <= page_size <= 0x7fff_ffff
}

/// Whether `page` starts with a slot directory that fits the page.
pub open spec fn directory_ok(page: Seq<u8>) -> bool {
    match parsed_header(page) {
        Some((data_start_offset, slots)) => header_size(slots.len()) <= data_start_offset
            <= page.len(),
        None => false,
    }
}

/// The offset at which the record bytes of `page` start.
pub open spec fn page_data_start(page: Seq<u8>) -> u32 {
    parsed_header(page).unwrap().0
}

/// The slots of `page`.
pub open spec fn page_slots(page: Seq<u8>) -> Seq<SlotDirectoryRecordEntry> {
    parsed_header(page).unwrap().1
}

/// The free bytes of `page`, between the end of its directory and the start
/// of its record bytes.
pub open spec fn page_free_space(page: Seq<u8>) -> int {
    page_data_start(page) - header_size(page_slots(page).len())
}

/// A page of `page_size` bytes that holds no record.
pub open spec fn empty_page(page_size: nat) -> Seq<u8> {
    overwritten(
        Seq::new(page_size, |i: int| 0u8),
        0,
        header_bytes(page_size as u32, Seq::empty()),
    )
}

/// A page that holds no record has a usable directory without slots, and all
/// of the page behind the directory is free.
pub proof fn lemma_empty_page(page_size: nat)
    requires
        usable_page_size(page_size),
    ensures
        empty_page(page_size).len() == page_size,
        directory_ok(empty_page(page_size)),
        page_data_start(empty_page(page_size)) == page_size,
        page_slots(empty_page(page_size)) == Seq::<SlotDirectoryRecordEntry>::empty(),
        page_free_space(empty_page(page_size)) == page_size - 12,
{
    let slots = Seq::<SlotDirectoryRecordEntry>::empty();
    let head = header_bytes(page_size as u32, slots);
    lemma_header_len(page_size as u32, slots);
    let page = empty_page(page_size);
    let rest = page.subrange(12, page_size as int);
    assert(page =~= head + rest);
    lemma_header_write_then_read(page_size as u32, slots, rest);
}

/// Makes the page a record page without records: all zero behind the directory of a
/// page without records. Fails, and leaves the page as it is, where no
/// record page can have this size.
pub fn init_rb_page<const PAGE_SIZE: usize>(page: &mut Page<PAGE_SIZE>) -> (result: Result<
    (),
    StoreError,
>)
    ensures
        usable_page_size(PAGE_SIZE as nat) ==> result is Ok && final(page)@ == empty_page(
            PAGE_SIZE as nat,
        ),
        !usable_page_size(PAGE_SIZE as nat) ==> result == Err::<(), StoreError>(
            StoreError::InvalidPageSize,
        ) && final(page)@ == old(page)@,
{
    if PAGE_SIZE < HDR_SIZE || PAGE_SIZE > 0x7fff_ffff {
        return Err(StoreError::InvalidPageSize);
    }
    // First we 0 out the buffer
    let buf = page.as_mut_buf();
    let mut i: usize = 0;
    while i < PAGE_SIZE
        invariant
            i <= PAGE_SIZE,
            buf@.len() == PAGE_SIZE,
            forall|j: int| 0 <= j < i ==> buf@[j] == 0u8,
        decreases PAGE_SIZE - i,
    {
        buf[i] = 0u8;
        i += 1;
    }
    assert(buf@ =~= Seq::new(PAGE_SIZE as nat, |i: int| 0u8));
    // Then we write the header
    let hdr = SlotDirectoryHeader::empty(PAGE_SIZE as u32);
    match bincode_serialize_into(buf, &hdr) {
        Ok(()) => Ok(()),
        Err(_) => {
            proof {
                assert(false);
            }
            Err(StoreError::InvalidPageSize)
        },
    }
}

/// Reads the slot directory at the start of the page.
pub fn get_slot_directory_hdr<const PAGE_SIZE: usize>(page: &Page<PAGE_SIZE>) -> (result: Result<
    SlotDirectoryHeader,
    StoreError,
>)
    ensures
        match parsed_header(page@) {
            Some((data_start_offset, slots)) => result matches Ok(hdr) && hdr.data_start_offset
                == data_start_offset && hdr.slots_vec@ == slots,
            None => result matches Err(e) && e == StoreError::CorruptPage,
        },
{
    match bincode_deserialize(page.as_buf().as_slice()) {
        Ok(hdr) => Ok(hdr),
        Err(_) => Err(StoreError::CorruptPage),
    }
}

/// Writes the slot directory over the start of the page. Fails, and leaves
/// the page as it is, where the directory is longer than the page.
pub fn write_slot_directory_hdr<const PAGE_SIZE: usize>(
    page: &mut Page<PAGE_SIZE>,
    hdr: &SlotDirectoryHeader,
) -> (result: Result<(), StoreError>)
    ensures
        header_size(hdr.slots_vec@.len()) <= PAGE_SIZE ==> result is Ok && final(page)@
            == overwritten(old(page)@, 0, header_bytes(hdr.data_start_offset, hdr.slots_vec@)),
        header_size(hdr.slots_vec@.len()) > PAGE_SIZE ==> result == Err::<(), StoreError>(
            StoreError::BufferTooSmall,
        ) && final(page)@ == old(page)@,
{
    if hdr.serialized_size() > PAGE_SIZE as u64 {
        return Err(StoreError::BufferTooSmall);
    }
    match bincode_serialize_into(page.as_mut_buf(), hdr) {
        Ok(()) => Ok(()),
        Err(_) => {
            proof {
                assert(false);
            }
            Err(StoreError::BufferTooSmall)
        },
    }
}

/// The number of free bytes that the directory leaves: from its own end to
/// the start of the record bytes. Fails where the record bytes would start
/// inside the directory.
pub fn free_space(hdr: &SlotDirectoryHeader) -> (result: Result<usize, StoreError>)
    ensures
        header_size(hdr.slots_vec@.len()) <= hdr.data_start_offset ==> result == Ok::<
            usize,
            StoreError,
        >((hdr.data_start_offset - header_size(hdr.slots_vec@.len())) as usize),
        header_size(hdr.slots_vec@.len()) > hdr.data_start_offset ==> result == Err::<
            usize,
            StoreError,
        >(StoreError::CorruptPage),
{
    let hdr_size = hdr.serialized_size();
    if hdr_size > hdr.data_start_offset as u64 {
        return Err(StoreError::CorruptPage);
    }
    Ok((hdr.data_start_offset as u64 - hdr_size) as usize)
}

} // verus!
