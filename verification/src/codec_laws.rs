//! What holds of the record layout: a record that was written is read back
//! as it was.

use crate::attribute::{Attribute, Value};
use crate::error::StoreError;
use crate::bitmap::{
    bit_is_set, bytes_for_bits, lemma_set_then_get, lemma_zero_bytes_clear,
};
use crate::record_codec::{
    decode_field, decode_fields, decode_start, decoded_record, encode_failure, encoded_record,
    end_offsets, is_present, lemma_encoded_len, lemma_part_lengths, lemma_sizes_grow, null_bitmap,
    offsets_start, payload, payload_size, payload_start, present_count, record_len, set_bits,
    stored_bitmap, stored_count, stored_offset, type_matches, value_at, value_bytes, value_size,
    values_start, DecodeState,
};
use vstd::bytes::{
    lemma_auto_spec_u16_to_from_le_bytes, lemma_auto_spec_u32_to_from_le_bytes,
    lemma_auto_spec_u64_to_from_le_bytes, spec_u16_from_le_bytes, spec_u16_to_le_bytes,
    spec_u32_from_le_bytes, spec_u32_to_le_bytes, spec_u64_to_le_bytes,
};
use vstd::prelude::*;
use vstd::utf8::{encode_utf8, encode_utf8_decode_utf8, encode_utf8_valid_utf8};

verus! {

/// The names of the attributes of a schema.
pub open spec fn schema_names(schema: Seq<Attribute>) -> Set<Seq<char>> {
    Set::new(|name: Seq<char>| exists|i: int| 0 <= i < schema.len() && #[trigger] schema[i].name@ == name)
}

/// What a record holds of the attributes of a schema: the record without the
/// names that the schema does not have.
pub open spec fn stored_part(schema: Seq<Attribute>, record: Map<Seq<char>, Value>) -> Map<
    Seq<char>,
    Value,
> {
    record.restrict(schema_names(schema))
}

/// The values of the first `n` attributes of the schema, by name.
pub open spec fn fields_of(schema: Seq<Attribute>, record: Map<Seq<char>, Value>, n: int) -> Map<
    Seq<char>,
    Value,
>
    decreases n,
{
    if n <= 0 {
        Map::empty()
    } else if is_present(schema, record, n - 1) {
        fields_of(schema, record, n - 1).insert(schema[n - 1].name@, value_at(schema, record, n - 1))
    } else {
        fields_of(schema, record, n - 1)
    }
}

proof fn lemma_fields_of(schema: Seq<Attribute>, record: Map<Seq<char>, Value>, n: int)
    requires
        0 <= n <= schema.len(),
    ensures
        forall|name: Seq<char>| #[trigger]
            fields_of(schema, record, n).contains_key(name) <==> record.contains_key(name) && exists|
                i: int,
            |
                0 <= i < n && #[trigger] schema[i].name@ == name,
        forall|name: Seq<char>| #[trigger]
            fields_of(schema, record, n).contains_key(name) ==> fields_of(schema, record, n)[name]
                == record[name],
    decreases n,
{
    if n > 0 {
        lemma_fields_of(schema, record, n - 1);
        assert forall|name: Seq<char>| #[trigger]
            fields_of(schema, record, n).contains_key(name) <==> record.contains_key(name) && exists|
                i: int,
            |
                0 <= i < n && #[trigger] schema[i].name@ == name by {
            if record.contains_key(name) && exists|i: int|
                0 <= i < n && #[trigger] schema[i].name@ == name {
                let i = choose|i: int| 0 <= i < n && #[trigger] schema[i].name@ == name;
                if i < n - 1 {
                    assert(fields_of(schema, record, n - 1).contains_key(name));
                } else {
                    assert(is_present(schema, record, n - 1));
                }
            }
            if fields_of(schema, record, n).contains_key(name) {
                if fields_of(schema, record, n - 1).contains_key(name) {
                    let i = choose|i: int| 0 <= i < n - 1 && #[trigger] schema[i].name@ == name;
                    assert(0 <= i < n && schema[i].name@ == name);
                } else {
                    assert(schema[n - 1].name@ == name);
                }
            }
        }
        assert forall|name: Seq<char>| #[trigger]
            fields_of(schema, record, n).contains_key(name) implies fields_of(schema, record, n)[name]
            == record[name] by {
            if is_present(schema, record, n - 1) && schema[n - 1].name@ == name {
            } else {
                assert(fields_of(schema, record, n - 1).contains_key(name));
            }
        }
    }
}

/// All attributes read, the fields are the stored part of the record.
pub proof fn lemma_all_fields(schema: Seq<Attribute>, record: Map<Seq<char>, Value>)
    ensures
        fields_of(schema, record, schema.len() as int) == stored_part(schema, record),
{
    lemma_fields_of(schema, record, schema.len() as int);
    let a = fields_of(schema, record, schema.len() as int);
    let b = stored_part(schema, record);
    assert forall|name: Seq<char>| a.contains_key(name) == b.contains_key(name) by {
        if b.contains_key(name) {
            assert(schema_names(schema).contains(name));
        }
        if a.contains_key(name) {
            let i = choose|i: int| 0 <= i < schema.len() && #[trigger] schema[i].name@ == name;
            assert(schema_names(schema).contains(name));
        }
    }
    assert(a =~= b);
}

/// A bit of the null bitmap is set exactly for an attribute with a value.
pub proof fn lemma_null_bitmap_bits(
    schema: Seq<Attribute>,
    record: Map<Seq<char>, Value>,
    n: int,
    j: int,
)
    requires
        0 <= n <= schema.len(),
        0 <= j < schema.len(),
    ensures
        bit_is_set(null_bitmap(schema, record, n), j) == (j < n && is_present(schema, record, j)),
    decreases n,
{
    let len = bytes_for_bits(schema.len());
    assert(j < 8 * len);
    if n <= 0 {
        lemma_zero_bytes_clear(len, j);
    } else {
        lemma_null_bitmap_bits(schema, record, n - 1, j);
        lemma_part_lengths(schema, record, n - 1);
        if is_present(schema, record, n - 1) {
            lemma_set_then_get(null_bitmap(schema, record, n - 1), n - 1, j);
        }
    }
}

/// As many bits are set in the null bitmap as attributes have a value.
pub proof fn lemma_null_bitmap_count(schema: Seq<Attribute>, record: Map<Seq<char>, Value>, n: int)
    requires
        0 <= n <= schema.len(),
    ensures
        set_bits(null_bitmap(schema, record, schema.len() as int), n) == present_count(
            schema,
            record,
            n,
        ),
    decreases n,
{
    if n > 0 {
        lemma_null_bitmap_count(schema, record, n - 1);
        lemma_null_bitmap_bits(schema, record, schema.len() as int, n - 1);
    }
}

/// The end offsets and the values of the first attributes stay in front
/// when more attributes are added.
proof fn lemma_prefixes(schema: Seq<Attribute>, record: Map<Seq<char>, Value>, i: int, n: int)
    requires
        0 <= i <= n <= schema.len(),
    ensures
        end_offsets(schema, record, n).subrange(0, 2 * present_count(schema, record, i) as int)
            == end_offsets(schema, record, i),
        payload(schema, record, n).subrange(0, payload_size(schema, record, i) as int) == payload(
            schema,
            record,
            i,
        ),
    decreases n,
{
    lemma_part_lengths(schema, record, i);
    lemma_part_lengths(schema, record, n);
    lemma_sizes_grow(schema, record, i, n);
    if i < n {
        lemma_prefixes(schema, record, i, n - 1);
        lemma_part_lengths(schema, record, n - 1);
        lemma_sizes_grow(schema, record, i, n - 1);
        assert(end_offsets(schema, record, n).subrange(0, 2 * present_count(schema, record, i) as int)
            =~= end_offsets(schema, record, n - 1).subrange(
            0,
            2 * present_count(schema, record, i) as int,
        ));
        assert(payload(schema, record, n).subrange(0, payload_size(schema, record, i) as int)
            =~= payload(schema, record, n - 1).subrange(
            0,
            payload_size(schema, record, i) as int,
        ));
    } else {
        assert(end_offsets(schema, record, n).subrange(0, 2 * present_count(schema, record, i) as int)
            =~= end_offsets(schema, record, i));
        assert(payload(schema, record, n).subrange(0, payload_size(schema, record, i) as int)
            =~= payload(schema, record, i));
    }
}

/// Where the end offset and the bytes of the value of attribute `i` stand in
/// the record.
proof fn lemma_field_places(schema: Seq<Attribute>, record: Map<Seq<char>, Value>, i: int)
    requires
        0 <= i < schema.len(),
        is_present(schema, record, i),
    ensures
        ({
            let bytes = encoded_record(schema, record);
            let at = (2 + bytes_for_bits(schema.len()) + 2 * present_count(schema, record, i)) as int;
            let from = (payload_start(schema, record) + payload_size(schema, record, i)) as int;
            let to = (payload_start(schema, record) + payload_size(schema, record, i + 1)) as int;
            &&& bytes.subrange(at, at + 2) == spec_u16_to_le_bytes(to as u16)
            &&& bytes.subrange(from, to) == value_bytes(value_at(schema, record, i))
            &&& to <= bytes.len()
            &&& to - from == value_size(value_at(schema, record, i))
        }),
{
    let n = schema.len() as int;
    let bytes = encoded_record(schema, record);
    let at = (2 + bytes_for_bits(schema.len()) + 2 * present_count(schema, record, i)) as int;
    let from = (payload_start(schema, record) + payload_size(schema, record, i)) as int;
    let to = (payload_start(schema, record) + payload_size(schema, record, i + 1)) as int;
    lemma_auto_spec_u16_to_from_le_bytes();
    lemma_part_lengths(schema, record, n);
    lemma_part_lengths(schema, record, i);
    lemma_part_lengths(schema, record, i + 1);
    lemma_sizes_grow(schema, record, i + 1, n);
    lemma_sizes_grow(schema, record, i, i + 1);
    lemma_encoded_len(schema, record);
    lemma_prefixes(schema, record, i + 1, n);
    let offsets = end_offsets(schema, record, n);
    let values = payload(schema, record, n);
    let k = present_count(schema, record, i) as int;
    assert(end_offsets(schema, record, i + 1) == end_offsets(schema, record, i)
        + spec_u16_to_le_bytes(to as u16));
    assert(offsets.subrange(2 * k, 2 * k + 2) =~= end_offsets(schema, record, i + 1).subrange(
        2 * k,
        2 * k + 2,
    ));
    assert(end_offsets(schema, record, i + 1).subrange(2 * k, 2 * k + 2) =~= spec_u16_to_le_bytes(
        to as u16,
    ));
    assert(bytes.subrange(at, at + 2) =~= offsets.subrange(2 * k, 2 * k + 2));
    let a = payload_size(schema, record, i) as int;
    let b = payload_size(schema, record, i + 1) as int;
    assert(payload(schema, record, i + 1) == payload(schema, record, i) + value_bytes(
        value_at(schema, record, i),
    ));
    assert(values.subrange(a, b) =~= payload(schema, record, i + 1).subrange(a, b));
    assert(payload(schema, record, i + 1).subrange(a, b) =~= value_bytes(
        value_at(schema, record, i),
    ));
    assert(bytes.subrange(from, to) =~= values.subrange(a, b));
}

/// The head of a written record says what was written.
proof fn lemma_head(schema: Seq<Attribute>, record: Map<Seq<char>, Value>)
    requires
        encode_failure(schema, record) is None,
    ensures
        ({
            let bytes = encoded_record(schema, record);
            &&& bytes.len() == record_len(schema, record)
            &&& stored_count(bytes) == schema.len()
            &&& offsets_start(bytes) == 2 + bytes_for_bits(schema.len())
            &&& stored_bitmap(bytes) == null_bitmap(schema, record, schema.len() as int)
            &&& values_start(bytes) == payload_start(schema, record)
        }),
{
    let n = schema.len() as int;
    let bytes = encoded_record(schema, record);
    lemma_auto_spec_u16_to_from_le_bytes();
    lemma_part_lengths(schema, record, n);
    lemma_encoded_len(schema, record);
    assert(bytes.subrange(0, 2) =~= spec_u16_to_le_bytes(schema.len() as u16));
    assert(stored_count(bytes) == schema.len());
    assert(bytes.subrange(2, 2 + bytes_for_bits(schema.len()) as int) =~= null_bitmap(
        schema,
        record,
        n,
    ));
    lemma_null_bitmap_count(schema, record, n);
}

proof fn lemma_int_bits(v: i32)
    ensures
        ((v as u32) as i32) == v,
{
    assert(((v as u32) as i32) == v) by (bit_vector);
}

/// Reading the first `n` attributes of a written record gives their values.
proof fn lemma_decode_written(schema: Seq<Attribute>, record: Map<Seq<char>, Value>, n: int)
    requires
        encode_failure(schema, record) is None,
        0 <= n <= schema.len(),
    ensures
        decode_fields(schema, encoded_record(schema, record), n) == Ok::<DecodeState, StoreError>(
            DecodeState {
                pos: (payload_start(schema, record) + payload_size(schema, record, n)) as int,
                next_offset: present_count(schema, record, n) as int,
                fields: fields_of(schema, record, n),
            },
        ),
    decreases n,
{
    let bytes = encoded_record(schema, record);
    lemma_head(schema, record);
    lemma_sizes_grow(schema, record, n, schema.len() as int);
    if n <= 0 {
        assert(decode_start(bytes) == Ok::<DecodeState, StoreError>(
            DecodeState { pos: values_start(bytes), next_offset: 0, fields: Map::empty() },
        ));
    } else {
        let i = n - 1;
        lemma_decode_written(schema, record, i);
        let before = DecodeState {
            pos: (payload_start(schema, record) + payload_size(schema, record, i)) as int,
            next_offset: present_count(schema, record, i) as int,
            fields: fields_of(schema, record, i),
        };
        lemma_null_bitmap_bits(schema, record, schema.len() as int, i);
        let after = DecodeState {
            pos: (payload_start(schema, record) + payload_size(schema, record, n)) as int,
            next_offset: present_count(schema, record, n) as int,
            fields: fields_of(schema, record, n),
        };
        assert(decode_fields(schema, bytes, i) == Ok::<DecodeState, StoreError>(before));
        assert(i < stored_count(bytes));
        if is_present(schema, record, i) {
            assert(bit_is_set(stored_bitmap(bytes), i));
            lemma_field_places(schema, record, i);
            lemma_auto_spec_u16_to_from_le_bytes();
            lemma_auto_spec_u32_to_from_le_bytes();
            lemma_auto_spec_u64_to_from_le_bytes();
            let value = value_at(schema, record, i);
            assert(type_matches(schema[i].attribute_type, value));
            let to = (payload_start(schema, record) + payload_size(schema, record, n)) as int;
            match value {
                Value::Int(v) => {
                    lemma_int_bits(v);
                    assert(spec_u32_to_le_bytes(v as u32).len() == 4);
                    assert(spec_u32_from_le_bytes(spec_u32_to_le_bytes(v as u32)) == v as u32);
                    assert(schema[i].attribute_type is Int);
                    assert(to == before.pos + 4);
                    assert(bytes.subrange(before.pos, before.pos + 4) == spec_u32_to_le_bytes(
                        v as u32,
                    ));
                    assert(decode_field(schema[i], i, bytes, before) == Ok::<
                        DecodeState,
                        StoreError,
                    >(after));
                },
                Value::Real(bits) => {
                    assert(spec_u64_to_le_bytes(bits).len() == 8);
                    assert(schema[i].attribute_type is Real);
                    assert(to == before.pos + 8);
                    assert(bytes.subrange(before.pos, before.pos + 8) == spec_u64_to_le_bytes(
                        bits,
                    ));
                    assert(decode_field(schema[i], i, bytes, before) == Ok::<
                        DecodeState,
                        StoreError,
                    >(after));
                },
                Value::Varchar(text) => {
                    encode_utf8_valid_utf8(text);
                    encode_utf8_decode_utf8(text);
                    let at = offsets_start(bytes) + 2 * before.next_offset;
                    assert(bytes.subrange(at, at + 2) == spec_u16_to_le_bytes(to as u16));
                    assert(to <= 65535);
                    assert((to as u16) as int == to);
                    assert(spec_u16_to_le_bytes(to as u16).len() == 2);
                    assert(spec_u16_from_le_bytes(spec_u16_to_le_bytes(to as u16)) == to as u16);
                    assert(stored_offset(bytes, before.next_offset) == to);
                    assert(bytes.subrange(before.pos, to) == encode_utf8(text));
                    assert(decode_field(schema[i], i, bytes, before) == Ok::<
                        DecodeState,
                        StoreError,
                    >(after));
                },
            }
        } else {
            assert(!bit_is_set(stored_bitmap(bytes), i));
            assert(decode_field(schema[i], i, bytes, before) == Ok::<DecodeState, StoreError>(
                after,
            ));
        }
    }
}

/// A record that can be stored is read back from its bytes as it was written:
/// each attribute of the schema that had a value has that value, and no other
/// name has one.
pub proof fn lemma_write_then_read(schema: Seq<Attribute>, record: Map<Seq<char>, Value>)
    requires
        encode_failure(schema, record) is None,
    ensures
        decoded_record(schema, encoded_record(schema, record)) == Ok::<
            Map<Seq<char>, Value>,
            StoreError,
        >(stored_part(schema, record)),
{
    lemma_decode_written(schema, record, schema.len() as int);
    lemma_all_fields(schema, record);
}

proof fn lemma_nothing_present(schema: Seq<Attribute>, n: int)
    ensures
        present_count(schema, Map::empty(), n) == 0,
        payload_size(schema, Map::empty(), n) == 0,
    decreases n,
{
    if n > 0 {
        lemma_nothing_present(schema, n - 1);
    }
}

/// A record with a value for no attribute can be stored under every schema
/// that can be stored under, takes the attribute count and the null bitmap
/// and no more, and is read back as the empty record.
pub proof fn lemma_all_null(schema: Seq<Attribute>)
    requires
        schema.len() <= 65535,
    ensures
        encode_failure(schema, Map::empty()) is None,
        record_len(schema, Map::empty()) == 2 + bytes_for_bits(schema.len()),
        decoded_record(schema, encoded_record(schema, Map::empty())) == Ok::<
            Map<Seq<char>, Value>,
            StoreError,
        >(Map::empty()),
{
    let record = Map::<Seq<char>, Value>::empty();
    lemma_nothing_present(schema, schema.len() as int);
    lemma_write_then_read(schema, record);
    assert(stored_part(schema, record) =~= record);
}

} // verus!
