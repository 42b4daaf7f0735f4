//! What holds of the record manager: where an inserted record goes, that it
//! is read back as it was inserted, and what is refused.

use crate::attribute::{Attribute, AttributeType, Value};
use crate::codec_laws::stored_part;
use crate::error::StoreError;
use crate::record_based_file_mgr::{
    all_directories_ok, insert_page, insert_slot, last_fit, pages_with_record, resolve, RecordId,
};
use crate::record_codec::{
    encode_failure, encoded_record, is_present, lemma_encoded_len, record_len, type_matches,
    value_at,
};
use crate::record_page::{
    lemma_place_keeps_order, lemma_place_keeps_slot, lemma_place_then_read, page_with_record,
    place_failure, records_behind_start, required_space_of, slot_content, SlotContent,
};
use crate::slot_directory::{
    directory_ok, empty_page, lemma_empty_page, page_data_start, page_free_space, page_slots,
    parsed_header, usable_page_size,
};
use vstd::prelude::*;
use vstd::utf8::encode_utf8;

verus! {

/// Whether a record can go into the pages of a file: the record can be
/// stored, it fits into an empty page, every page has a usable directory,
/// and the number of its page fits a record identifier.
pub open spec fn can_insert(
    pages: Seq<Seq<u8>>,
    page_size: nat,
    schema: Seq<Attribute>,
    record: Map<Seq<char>, Value>,
) -> bool {
    &&& usable_page_size(page_size)
    &&& forall|j: int| 0 <= j < pages.len() ==> (#[trigger] pages[j]).len() == page_size
    &&& all_directories_ok(pages)
    &&& encode_failure(schema, record) is None
    &&& required_space_of(schema, record) <= page_size - 12
    &&& insert_page(pages, required_space_of(schema, record)) <= u32::MAX
}

/// The last page with room has room, and no page behind it has.
pub proof fn lemma_last_fit_is_last(pages: Seq<Seq<u8>>, required: int, n: int)
    requires
        0 <= n <= pages.len(),
    ensures
        match last_fit(pages, required, n) {
            Some(i) => 0 <= i < n && page_free_space(pages[i]) >= required && forall|j: int|
                i < j < n ==> page_free_space(#[trigger] pages[j]) < required,
            None => forall|j: int| 0 <= j < n ==> page_free_space(#[trigger] pages[j]) < required,
        },
    decreases n,
{
    if n > 0 {
        lemma_last_fit_is_last(pages, required, n - 1);
    }
}

/// The page that takes an inserted record had room for it: no record lands on
/// a page with too little free space. The page is the last that had room, or
/// a new one where none had. Its free space shrinks by the bytes of the
/// record and the eight bytes of its slot, its record bytes start as many
/// bytes earlier as the record is long, and every other page stays as it was.
pub proof fn lemma_insert_placement(
    pages: Seq<Seq<u8>>,
    page_size: nat,
    schema: Seq<Attribute>,
    record: Map<Seq<char>, Value>,
)
    requires
        can_insert(pages, page_size, schema, record),
    ensures
        ({
            let required = required_space_of(schema, record);
            let target = insert_page(pages, required);
            let before = if target < pages.len() {
                pages[target]
            } else {
                empty_page(page_size)
            };
            let after = pages_with_record(pages, page_size, encoded_record(schema, record));
            &&& 0 <= target <= pages.len()
            &&& after.len() == if target < pages.len() {
                pages.len()
            } else {
                pages.len() + 1
            }
            &&& forall|j: int| 0 <= j < pages.len() && j != target ==> #[trigger] after[j] == pages[j]
            &&& forall|j: int|
                target < j < pages.len() ==> page_free_space(#[trigger] pages[j]) < required
            &&& target == pages.len() ==> forall|j: int|
                0 <= j < pages.len() ==> page_free_space(#[trigger] pages[j]) < required
            &&& page_free_space(before) >= required
            &&& after[target].len() == page_size
            &&& directory_ok(after[target])
            &&& page_free_space(after[target]) == page_free_space(before) - required
            &&& page_data_start(after[target]) == page_data_start(before) - record_len(
                schema,
                record,
            )
            &&& page_slots(after[target]).len() == page_slots(before).len() + 1
        }),
{
    let required = required_space_of(schema, record);
    let target = insert_page(pages, required);
    lemma_last_fit_is_last(pages, required, pages.len() as int);
    lemma_empty_page(page_size);
    lemma_encoded_len(schema, record);
    let before = if target < pages.len() {
        pages[target]
    } else {
        empty_page(page_size)
    };
    assert(place_failure(schema, record, before) is None);
    lemma_place_then_read(schema, record, before);
}

/// A record that was inserted is read back under its identifier as it was
/// inserted: every attribute of the schema that had a value has that value,
/// and no other name has one.
pub proof fn lemma_insert_then_read(
    pages: Seq<Seq<u8>>,
    page_size: nat,
    schema: Seq<Attribute>,
    record: Map<Seq<char>, Value>,
)
    requires
        can_insert(pages, page_size, schema, record),
    ensures
        ({
            let required = required_space_of(schema, record);
            let after = pages_with_record(pages, page_size, encoded_record(schema, record));
            let rid = RecordId {
                page_num: insert_page(pages, required) as u32,
                slot_num: insert_slot(pages, required) as u32,
            };
            resolve(after, schema, rid, after.len()) == Ok::<Map<Seq<char>, Value>, StoreError>(
                stored_part(schema, record),
            )
        }),
{
    let required = required_space_of(schema, record);
    let target = insert_page(pages, required);
    lemma_last_fit_is_last(pages, required, pages.len() as int);
    lemma_empty_page(page_size);
    lemma_encoded_len(schema, record);
    let before = if target < pages.len() {
        pages[target]
    } else {
        empty_page(page_size)
    };
    assert(place_failure(schema, record, before) is None);
    lemma_place_then_read(schema, record, before);
    let after = pages_with_record(pages, page_size, encoded_record(schema, record));
    assert(after[target] == page_with_record(before, encoded_record(schema, record)));
}

/// Whether the file is tidy: in every page the records are outside the free
/// space. A new file is tidy, and inserting keeps a file tidy.
pub open spec fn tidy(pages: Seq<Seq<u8>>) -> bool {
    forall|j: int| 0 <= j < pages.len() ==> records_behind_start(#[trigger] pages[j])
}

/// A file that consists of one page without records is tidy.
pub proof fn lemma_new_file_tidy(page_size: nat)
    requires
        usable_page_size(page_size),
    ensures
        tidy(seq![empty_page(page_size)]),
{
    lemma_empty_page(page_size);
}

/// Inserting a record keeps a tidy file tidy.
pub proof fn lemma_insert_keeps_tidy(
    pages: Seq<Seq<u8>>,
    page_size: nat,
    schema: Seq<Attribute>,
    record: Map<Seq<char>, Value>,
)
    requires
        can_insert(pages, page_size, schema, record),
        tidy(pages),
    ensures
        tidy(pages_with_record(pages, page_size, encoded_record(schema, record))),
{
    let required = required_space_of(schema, record);
    let target = insert_page(pages, required);
    lemma_last_fit_is_last(pages, required, pages.len() as int);
    lemma_empty_page(page_size);
    lemma_encoded_len(schema, record);
    let before = if target < pages.len() {
        pages[target]
    } else {
        empty_page(page_size)
    };
    assert(place_failure(schema, record, before) is None);
    lemma_place_keeps_order(schema, record, before);
    let after = pages_with_record(pages, page_size, encoded_record(schema, record));
    assert forall|j: int| 0 <= j < after.len() implies records_behind_start(#[trigger] after[j]) by {
        if j != target {
            assert(after[j] == pages[j]);
        }
    }
}

/// Inserting a record into a tidy file disturbs no record that is there:
/// what could be read under an identifier before can be read under it after,
/// and is the same.
pub proof fn lemma_insert_keeps_records(
    pages: Seq<Seq<u8>>,
    page_size: nat,
    schema: Seq<Attribute>,
    record: Map<Seq<char>, Value>,
    rid: RecordId,
    hops: nat,
    more_hops: nat,
)
    requires
        can_insert(pages, page_size, schema, record),
        tidy(pages),
        hops <= more_hops,
        resolve(pages, schema, rid, hops) is Ok,
    ensures
        resolve(
            pages_with_record(pages, page_size, encoded_record(schema, record)),
            schema,
            rid,
            more_hops,
        ) == resolve(pages, schema, rid, hops),
    decreases hops,
{
    let required = required_space_of(schema, record);
    let target = insert_page(pages, required);
    lemma_last_fit_is_last(pages, required, pages.len() as int);
    lemma_empty_page(page_size);
    lemma_encoded_len(schema, record);
    let after = pages_with_record(pages, page_size, encoded_record(schema, record));
    let page = pages[rid.page_num as int];
    assert(after.len() >= pages.len());
    if rid.page_num == target {
        assert(place_failure(schema, record, page) is None);
        assert(records_behind_start(page));
        assert(parsed_header(page) is Some);
        assert(rid.slot_num < page_slots(page).len());
        lemma_place_keeps_slot(schema, record, page, rid.slot_num);
    } else {
        assert(after[rid.page_num as int] == page);
    }
    assert(slot_content(schema, after[rid.page_num as int], rid.slot_num) == slot_content(
        schema,
        page,
        rid.slot_num,
    ));
    match slot_content(schema, page, rid.slot_num) {
        Ok(SlotContent::Redirected(next)) => {
            lemma_insert_keeps_records(
                pages,
                page_size,
                schema,
                record,
                next,
                (hops - 1) as nat,
                (more_hops - 1) as nat,
            );
        },
        _ => {},
    }
}

/// A record with a value for no attribute is read back as the empty record,
/// and a record with values for some attributes of the schema as exactly
/// these.
pub proof fn lemma_stored_part(schema: Seq<Attribute>, record: Map<Seq<char>, Value>)
    ensures
        stored_part(schema, Map::<Seq<char>, Value>::empty()) == Map::<Seq<char>, Value>::empty(),
        (forall|name: Seq<char>| #[trigger]
            record.contains_key(name) ==> exists|i: int|
                0 <= i < schema.len() && #[trigger] schema[i].name@ == name) ==> stored_part(
            schema,
            record,
        ) == record,
{
    assert(stored_part(schema, Map::<Seq<char>, Value>::empty()) =~= Map::<
        Seq<char>,
        Value,
    >::empty());
    if forall|name: Seq<char>| #[trigger]
        record.contains_key(name) ==> exists|i: int|
            0 <= i < schema.len() && #[trigger] schema[i].name@ == name {
        assert forall|name: Seq<char>| record.contains_key(name) implies stored_part(
            schema,
            record,
        ).contains_key(name) by {
            let i = choose|i: int| 0 <= i < schema.len() && #[trigger] schema[i].name@ == name;
            assert(crate::codec_laws::schema_names(schema).contains(name));
        }
        assert(stored_part(schema, record) =~= record);
    }
}

/// A record with a value that is not of its attribute's type is refused: an
/// integer for a real, a real for a text, and so on.
pub proof fn lemma_mismatch_refused(
    schema: Seq<Attribute>,
    record: Map<Seq<char>, Value>,
    i: int,
)
    requires
        schema.len() <= 65535,
        0 <= i < schema.len(),
        is_present(schema, record, i),
        !type_matches(schema[i].attribute_type, value_at(schema, record, i)),
    ensures
        encode_failure(schema, record) == Some(StoreError::AttributeTypeMismatch),
{
}

/// A text that is longer than its attribute allows is not of the attribute's
/// type, so a record with such a text is refused.
pub proof fn lemma_long_text_refused(
    schema: Seq<Attribute>,
    record: Map<Seq<char>, Value>,
    i: int,
    text: Seq<char>,
    max: u32,
)
    requires
        schema.len() <= 65535,
        0 <= i < schema.len(),
        schema[i].attribute_type == (AttributeType::Varchar { len: max }),
        is_present(schema, record, i),
        value_at(schema, record, i) == Value::Varchar(text),
        encode_utf8(text).len() > max,
    ensures
        encode_failure(schema, record) == Some(StoreError::AttributeTypeMismatch),
{
}

} // verus!
