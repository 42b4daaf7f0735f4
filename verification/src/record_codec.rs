//! The byte layout of a record.
//!
//! A record is stored as
//!
//! 1. the number of attributes of the schema, two bytes, little-endian;
//! 2. the null bitmap, one bit for each attribute of the schema, set where
//!    the attribute has a value;
//! 3. for each attribute that has a value, in schema order, two bytes,
//!    little-endian: the offset from the start of the record at which the
//!    value's bytes end;
//! 4. the bytes of the values, in schema order: four bytes for an integer,
//!    eight for a real, the UTF-8 bytes for a text.

use crate::attribute::{Attribute, AttributeType, AttributeValue, Value};
use crate::bitmap::{bit_is_set, bytes_for_bits, with_bit_set, zero_bytes, Bitmap};
use crate::byte_ops::{append_bytes, copy_into, overwritten};
use crate::error::StoreError;
use crate::record::Record;
use vstd::bytes::{
    lemma_auto_spec_u16_to_from_le_bytes, lemma_auto_spec_u32_to_from_le_bytes,
    lemma_auto_spec_u64_to_from_le_bytes, spec_u16_from_le_bytes, spec_u16_to_le_bytes,
    spec_u32_from_le_bytes, spec_u32_to_le_bytes, spec_u64_from_le_bytes, spec_u64_to_le_bytes,
    u16_from_le_bytes, u16_to_le_bytes, u32_from_le_bytes, u32_to_le_bytes, u64_from_le_bytes,
    u64_to_le_bytes,
};
use vstd::prelude::*;
use vstd::slice::slice_to_vec;
use vstd::utf8::{decode_utf8, encode_utf8, valid_utf8};

verus! {

/// The largest number that two bytes hold: the bound on the number of
/// attributes and on the length of a record.
pub const MAX_U16: usize = 65535;

/// Whether a value is of a type. A text is of a text type only if its UTF-8
/// form is no longer than the type allows.
pub open spec fn type_matches(attribute_type: AttributeType, value: Value) -> bool {
    match attribute_type {
        AttributeType::Int => value is Int,
        AttributeType::Real => value is Real,
        AttributeType::Varchar { len } => match value {
            Value::Varchar(text) => encode_utf8(text).len() <= len,
            _ => false,
        },
    }
}

/// The number of bytes that a value takes in a record.
pub open spec fn value_size(value: Value) -> nat {
    match value {
        Value::Int(_) => 4,
        Value::Real(_) => 8,
        Value::Varchar(text) => encode_utf8(text).len(),
    }
}

/// The bytes that a value takes in a record.
pub open spec fn value_bytes(value: Value) -> Seq<u8> {
    match value {
        Value::Int(v) => spec_u32_to_le_bytes(v as u32),
        Value::Real(bits) => spec_u64_to_le_bytes(bits),
        Value::Varchar(text) => encode_utf8(text),
    }
}

/// Whether attribute `i` of the schema has a value in the record.
pub open spec fn is_present(schema: Seq<Attribute>, record: Map<Seq<char>, Value>, i: int) -> bool {
    record.contains_key(schema[i].name@)
}

/// The value of attribute `i` of the schema in the record.
pub open spec fn value_at(schema: Seq<Attribute>, record: Map<Seq<char>, Value>, i: int) -> Value {
    record[schema[i].name@]
}

/// Whether every attribute that has a value has one of its type.
pub open spec fn well_typed(schema: Seq<Attribute>, record: Map<Seq<char>, Value>) -> bool {
    forall|i: int|
        0 <= i < schema.len() && #[trigger] is_present(schema, record, i) ==> type_matches(
            schema[i].attribute_type,
            value_at(schema, record, i),
        )
}

/// The number of attributes with a value among the first `n`.
pub open spec fn present_count(
    schema: Seq<Attribute>,
    record: Map<Seq<char>, Value>,
    n: int,
) -> nat
    decreases n,
{
    if n <= 0 {
        0
    } else {
        present_count(schema, record, n - 1) + if is_present(schema, record, n - 1) {
            1nat
        } else {
            0nat
        }
    }
}

/// The bytes that the values of the first `n` attributes take together.
pub open spec fn payload_size(
    schema: Seq<Attribute>,
    record: Map<Seq<char>, Value>,
    n: int,
) -> nat
    decreases n,
{
    if n <= 0 {
        0
    } else {
        payload_size(schema, record, n - 1) + if is_present(schema, record, n - 1) {
            value_size(value_at(schema, record, n - 1))
        } else {
            0nat
        }
    }
}

/// Where the values start in a record: behind the attribute count, the null
/// bitmap and the end offsets.
pub open spec fn payload_start(schema: Seq<Attribute>, record: Map<Seq<char>, Value>) -> nat {
    2 + bytes_for_bits(schema.len()) + 2 * present_count(schema, record, schema.len() as int)
}

/// The length of a record in bytes.
pub open spec fn record_len(schema: Seq<Attribute>, record: Map<Seq<char>, Value>) -> nat {
    payload_start(schema, record) + payload_size(schema, record, schema.len() as int)
}

/// Why a record cannot be stored, if it cannot.
pub open spec fn encode_failure(schema: Seq<Attribute>, record: Map<Seq<char>, Value>) -> Option<
    StoreError,
> {
    if schema.len() > MAX_U16 {
        Some(StoreError::SchemaTooLong)
    } else if !well_typed(schema, record) {
        Some(StoreError::AttributeTypeMismatch)
    } else if record_len(schema, record) > MAX_U16 {
        Some(StoreError::RecordTooLarge)
    } else {
        None
    }
}

/// The null bitmap after the first `n` attributes were looked at.
pub open spec fn null_bitmap(
    schema: Seq<Attribute>,
    record: Map<Seq<char>, Value>,
    n: int,
) -> Seq<u8>
    decreases n,
{
    if n <= 0 {
        zero_bytes(bytes_for_bits(schema.len()))
    } else if is_present(schema, record, n - 1) {
        with_bit_set(null_bitmap(schema, record, n - 1), n - 1)
    } else {
        null_bitmap(schema, record, n - 1)
    }
}

/// The bytes of the values of the first `n` attributes.
pub open spec fn payload(schema: Seq<Attribute>, record: Map<Seq<char>, Value>, n: int) -> Seq<u8>
    decreases n,
{
    if n <= 0 {
        Seq::empty()
    } else if is_present(schema, record, n - 1) {
        payload(schema, record, n - 1) + value_bytes(value_at(schema, record, n - 1))
    } else {
        payload(schema, record, n - 1)
    }
}

/// The end offsets of the values of the first `n` attributes.
pub open spec fn end_offsets(
    schema: Seq<Attribute>,
    record: Map<Seq<char>, Value>,
    n: int,
) -> Seq<u8>
    decreases n,
{
    if n <= 0 {
        Seq::empty()
    } else if is_present(schema, record, n - 1) {
        end_offsets(schema, record, n - 1) + spec_u16_to_le_bytes(
            (payload_start(schema, record) + payload_size(schema, record, n)) as u16,
        )
    } else {
        end_offsets(schema, record, n - 1)
    }
}

/// The bytes of a record.
pub open spec fn encoded_record(schema: Seq<Attribute>, record: Map<Seq<char>, Value>) -> Seq<u8> {
    spec_u16_to_le_bytes(schema.len() as u16) + null_bitmap(schema, record, schema.len() as int)
        + end_offsets(schema, record, schema.len() as int) + payload(
        schema,
        record,
        schema.len() as int,
    )
}

/// True if AttributeValue matches the expected type based on AttributeType
pub fn attribute_type_matches_value(attr_type: &AttributeType, attr_val: &AttributeValue) -> (matches:
    bool)
    ensures
        matches == type_matches(*attr_type, attr_val@),
{
    match attr_type {
        AttributeType::Int => match attr_val {
            AttributeValue::Int(_) => true,
            _ => false,
        },
        AttributeType::Real => match attr_val {
            AttributeValue::Real(_) => true,
            _ => false,
        },
        AttributeType::Varchar { len: max } => match attr_val {
            AttributeValue::Varchar(s) => s.as_str().as_bytes().len() <= *max as usize,
            _ => false,
        },
    }
}

/// Calculate the length of the null bitmap in bytes
pub fn null_bitmap_len(attrs_len: usize) -> (len: usize)
    ensures
        len == bytes_for_bits(attrs_len as nat),
{
    crate::bitmap::Bitmap::bmp_size_in_bytes(attrs_len)
}

/// The number of bytes that the record takes when stored: two for the
/// attribute count, the null bitmap, two for each attribute with a value, and
/// the bytes of the values.
pub fn record_size(schema: &Vec<Attribute>, insert_vals: &Record) -> (result: Result<
    usize,
    StoreError,
>)
    ensures
        match encode_failure(schema@, insert_vals@) {
            Some(e) => result == Err::<usize, StoreError>(e),
            None => result == Ok::<usize, StoreError>(record_len(schema@, insert_vals@) as usize),
        },
{
    if schema.len() > MAX_U16 {
        return Err(StoreError::SchemaTooLong);
    }
    let bmp_len = null_bitmap_len(schema.len());
    let num_attributes_len: usize = 2;
    let mut offset_headers_len: u64 = 0;
    let mut data_len: u64 = 0;
    let mut i: usize = 0;
    while i < schema.len()
        invariant
            i <= schema@.len() <= MAX_U16,
            offset_headers_len == 2 * present_count(schema@, insert_vals@, i as int),
            data_len == payload_size(schema@, insert_vals@, i as int),
            present_count(schema@, insert_vals@, i as int) <= i,
            data_len <= i * 0x1_0000_0000,
            forall|j: int|
                0 <= j < i && #[trigger] is_present(schema@, insert_vals@, j) ==> type_matches(
                    schema@[j].attribute_type,
                    value_at(schema@, insert_vals@, j),
                ),
        decreases schema@.len() - i,
    {
        let attr = &schema[i];
        // No change in size for null values
        match insert_vals.get(attr.name.as_str()) {
            None => {},
            Some(attr_val) => {
                if !attribute_type_matches_value(&attr.attribute_type, attr_val) {
                    proof {
                        assert(is_present(schema@, insert_vals@, i as int));
                    }
                    return Err(StoreError::AttributeTypeMismatch);
                }
                // All non-null fields have a 2 byte offset header
                offset_headers_len += 2;
                match attr_val {
                    // All ints are 4 bytes
                    AttributeValue::Int(_) => {
                        data_len += 4;
                    },
                    // All reals are 8 bytes
                    AttributeValue::Real(_) => {
                        data_len += 8;
                    },
                    // Get the length of the actual string value
                    AttributeValue::Varchar(val) => {
                        data_len += val.as_str().as_bytes().len() as u64;
                    },
                }
            },
        }
        i += 1;
    }
    let total: u64 = bmp_len as u64 + num_attributes_len as u64 + offset_headers_len + data_len;
    if total > MAX_U16 as u64 {
        return Err(StoreError::RecordTooLarge);
    }
    Ok(total as usize)
}

/// Why a record cannot be written into a buffer of `capacity` bytes, if it
/// cannot.
pub open spec fn write_failure(
    schema: Seq<Attribute>,
    record: Map<Seq<char>, Value>,
    capacity: int,
) -> Option<StoreError> {
    match encode_failure(schema, record) {
        Some(e) => Some(e),
        None => if capacity < record_len(schema, record) {
            Some(StoreError::BufferTooSmall)
        } else {
            None
        },
    }
}

/// Counts and sizes only grow with the number of attributes looked at.
pub proof fn lemma_sizes_grow(
    schema: Seq<Attribute>,
    record: Map<Seq<char>, Value>,
    i: int,
    n: int,
)
    requires
        0 <= i <= n,
    ensures
        present_count(schema, record, i) <= present_count(schema, record, n),
        present_count(schema, record, n) <= n,
        payload_size(schema, record, i) <= payload_size(schema, record, n),
    decreases n,
{
    if i < n {
        lemma_sizes_grow(schema, record, i, n - 1);
    } else if n > 0 {
        lemma_sizes_grow(schema, record, n - 1, n - 1);
    }
}

/// The lengths of the parts of a record.
pub proof fn lemma_part_lengths(schema: Seq<Attribute>, record: Map<Seq<char>, Value>, n: int)
    requires
        0 <= n <= schema.len(),
    ensures
        null_bitmap(schema, record, n).len() == bytes_for_bits(schema.len()),
        end_offsets(schema, record, n).len() == 2 * present_count(schema, record, n),
        payload(schema, record, n).len() == payload_size(schema, record, n),
    decreases n,
{
    lemma_auto_spec_u16_to_from_le_bytes();
    lemma_auto_spec_u32_to_from_le_bytes();
    lemma_auto_spec_u64_to_from_le_bytes();
    if n > 0 {
        lemma_part_lengths(schema, record, n - 1);
    }
}

/// The length of the bytes of a record.
pub proof fn lemma_encoded_len(schema: Seq<Attribute>, record: Map<Seq<char>, Value>)
    ensures
        encoded_record(schema, record).len() == record_len(schema, record),
{
    lemma_auto_spec_u16_to_from_le_bytes();
    lemma_part_lengths(schema, record, schema.len() as int);
}

/// Writes the record into `buf` from `offset` on, in the layout of this
/// module, and returns the number of bytes written. Nothing is written where
/// the record cannot be stored or `buf` is too short behind `offset` for it.
pub fn write_record_into_buf(
    schema: &Vec<Attribute>,
    buf: &mut [u8],
    offset: usize,
    insert_vals: &Record,
) -> (result: Result<usize, StoreError>)
    ensures
        match write_failure(schema@, insert_vals@, old(buf)@.len() - offset) {
            Some(e) => result == Err::<usize, StoreError>(e) && final(buf)@ == old(buf)@,
            None => result == Ok::<usize, StoreError>(record_len(schema@, insert_vals@) as usize)
                && final(buf)@ == overwritten(
                old(buf)@,
                offset as int,
                encoded_record(schema@, insert_vals@),
            ),
        },
{
    let size = match record_size(schema, insert_vals) {
        Ok(size) => size,
        Err(e) => {
            return Err(e);
        },
    };
    if buf.len() < offset || buf.len() - offset < size {
        return Err(StoreError::BufferTooSmall);
    }
    let num_attributes: u16 = schema.len() as u16;
    let bmp_len = null_bitmap_len(schema.len());
    let mut bmp = Bitmap::new(schema.len());
    let mut valid_cnt: usize = 0;

    // First iteration, determine what is null/valid
    let mut i: usize = 0;
    while i < schema.len()
        invariant
            i <= schema@.len() <= MAX_U16,
            bmp.wf(),
            bmp.bit_len() == schema@.len(),
            bmp.bytes() == null_bitmap(schema@, insert_vals@, i as int),
            valid_cnt == present_count(schema@, insert_vals@, i as int),
            valid_cnt <= i,
        decreases schema@.len() - i,
    {
        if insert_vals.contains_key(schema[i].name.as_str()) {
            bmp.set(i);
            valid_cnt += 1;
        }
        i += 1;
    }
    // At this point, our null bmp is ready
    // and we know the number of offset headers

    // num_attributes = 2 bytes
    // + bmp_len in bytes
    // + 2 bytes for each valid entry
    let data_start: usize = 2 + bmp_len + valid_cnt * 2;
    let mut offset_hdrs: Vec<u8> = Vec::new();
    let mut data: Vec<u8> = Vec::new();
    let mut i: usize = 0;
    while i < schema.len()
        invariant
            i <= schema@.len() <= MAX_U16,
            data_start == payload_start(schema@, insert_vals@),
            record_len(schema@, insert_vals@) <= MAX_U16,
            offset_hdrs@ == end_offsets(schema@, insert_vals@, i as int),
            data@ == payload(schema@, insert_vals@, i as int),
        decreases schema@.len() - i,
    {
        proof {
            lemma_part_lengths(schema@, insert_vals@, i as int);
            lemma_part_lengths(schema@, insert_vals@, i + 1);
            lemma_sizes_grow(schema@, insert_vals@, i + 1, schema@.len() as int);
        }
        // Skip nulls
        match insert_vals.get(schema[i].name.as_str()) {
            None => {},
            Some(attr_val) => {
                // Convert the attribute value to bytes
                match attr_val {
                    AttributeValue::Int(val) => {
                        let bytes = u32_to_le_bytes(#[verifier::truncate] (*val as u32));
                        append_bytes(&mut data, bytes.as_slice());
                    },
                    AttributeValue::Real(val) => {
                        let bytes = u64_to_le_bytes(*val);
                        append_bytes(&mut data, bytes.as_slice());
                    },
                    // Inverse is from_utf8 for reading
                    AttributeValue::Varchar(val) => {
                        append_bytes(&mut data, val.as_str().as_bytes());
                    },
                }
                // Offset headers point to END of value
                let data_offset: usize = data_start + data.len();
                let bytes = u16_to_le_bytes(data_offset as u16);
                append_bytes(&mut offset_hdrs, bytes.as_slice());
            },
        }
        i += 1;
    }

    // Headers first, then the values
    let mut out = u16_to_le_bytes(num_attributes);
    let bmp_bytes = bmp.into_bytes();
    append_bytes(&mut out, bmp_bytes.as_slice());
    append_bytes(&mut out, offset_hdrs.as_slice());
    append_bytes(&mut out, data.as_slice());
    proof {
        lemma_encoded_len(schema@, insert_vals@);
        assert(out@ == encoded_record(schema@, insert_vals@));
    }
    copy_into(buf, offset, out.as_slice());
    Ok(size)
}

/// How far the reading of a record has come.
pub struct DecodeState {
    /// The offset of the next value's bytes.
    pub pos: int,
    /// The number of values read so far, which is the index of the next end
    /// offset.
    pub next_offset: int,
    /// The values read so far, by attribute name.
    pub fields: Map<Seq<char>, Value>,
}

/// The number of attributes that the record says it was written for.
pub open spec fn stored_count(bytes: Seq<u8>) -> int {
    spec_u16_from_le_bytes(bytes.subrange(0, 2)) as int
}

/// Where the end offsets start in the record.
pub open spec fn offsets_start(bytes: Seq<u8>) -> int {
    2 + bytes_for_bits(stored_count(bytes) as nat) as int
}

/// The null bitmap of the record.
pub open spec fn stored_bitmap(bytes: Seq<u8>) -> Seq<u8> {
    bytes.subrange(2, offsets_start(bytes))
}

/// The number of bits set among the first `n` of a bitmap.
pub open spec fn set_bits(bitmap: Seq<u8>, n: int) -> nat
    decreases n,
{
    if n <= 0 {
        0
    } else {
        set_bits(bitmap, n - 1) + if bit_is_set(bitmap, n - 1) {
            1nat
        } else {
            0nat
        }
    }
}

/// Where the values start in the record.
pub open spec fn values_start(bytes: Seq<u8>) -> int {
    offsets_start(bytes) + 2 * set_bits(stored_bitmap(bytes), stored_count(bytes))
}

/// End offset number `k` of the record.
pub open spec fn stored_offset(bytes: Seq<u8>, k: int) -> int {
    spec_u16_from_le_bytes(
        bytes.subrange(offsets_start(bytes) + 2 * k, offsets_start(bytes) + 2 * k + 2),
    ) as int
}

/// Reading the attribute count, the null bitmap and the end offsets.
pub open spec fn decode_start(bytes: Seq<u8>) -> Result<DecodeState, StoreError> {
    if bytes.len() < 2 {
        Err(StoreError::UnexpectedEof)
    } else if bytes.len() < offsets_start(bytes) {
        Err(StoreError::UnexpectedEof)
    } else if bytes.len() < values_start(bytes) {
        Err(StoreError::UnexpectedEof)
    } else {
        Ok(DecodeState { pos: values_start(bytes), next_offset: 0, fields: Map::empty() })
    }
}

/// Reading the value of the attribute with the given index, if it has one.
///
/// An integer or a real is read from the next four or eight bytes. A text
/// reaches from the end of the value before it to its own end offset.
pub open spec fn decode_field(
    attribute: Attribute,
    index: int,
    bytes: Seq<u8>,
    state: DecodeState,
) -> Result<DecodeState, StoreError> {
    if index >= stored_count(bytes) {
        Err(StoreError::CorruptRecord)
    } else if !bit_is_set(stored_bitmap(bytes), index) {
        Ok(state)
    } else {
        match attribute.attribute_type {
            AttributeType::Int => if state.pos + 4 > bytes.len() {
                Err(StoreError::UnexpectedEof)
            } else {
                Ok(
                    DecodeState {
                        pos: state.pos + 4,
                        next_offset: state.next_offset + 1,
                        fields: state.fields.insert(
                            attribute.name@,
                            Value::Int(
                                spec_u32_from_le_bytes(
                                    bytes.subrange(state.pos, state.pos + 4),
                                ) as i32,
                            ),
                        ),
                    },
                )
            },
            AttributeType::Real => if state.pos + 8 > bytes.len() {
                Err(StoreError::UnexpectedEof)
            } else {
                Ok(
                    DecodeState {
                        pos: state.pos + 8,
                        next_offset: state.next_offset + 1,
                        fields: state.fields.insert(
                            attribute.name@,
                            Value::Real(
                                spec_u64_from_le_bytes(bytes.subrange(state.pos, state.pos + 8)),
                            ),
                        ),
                    },
                )
            },
            AttributeType::Varchar { len } => {
                let end = stored_offset(bytes, state.next_offset);
                if end < state.pos {
                    Err(StoreError::CorruptRecord)
                } else if end - state.pos > len {
                    Err(StoreError::VarcharTooLong)
                } else if end > bytes.len() {
                    Err(StoreError::UnexpectedEof)
                } else if !valid_utf8(bytes.subrange(state.pos, end)) {
                    Err(StoreError::CorruptRecord)
                } else {
                    Ok(
                        DecodeState {
                            pos: end,
                            next_offset: state.next_offset + 1,
                            fields: state.fields.insert(
                                attribute.name@,
                                Value::Varchar(decode_utf8(bytes.subrange(state.pos, end))),
                            ),
                        },
                    )
                }
            },
        }
    }
}

/// Reading the values of the first `n` attributes of the schema.
pub open spec fn decode_fields(schema: Seq<Attribute>, bytes: Seq<u8>, n: int) -> Result<
    DecodeState,
    StoreError,
>
    decreases n,
{
    if n <= 0 {
        decode_start(bytes)
    } else {
        match decode_fields(schema, bytes, n - 1) {
            Ok(state) => decode_field(schema[n - 1], n - 1, bytes, state),
            Err(e) => Err(e),
        }
    }
}

/// The record that the bytes hold under the schema, or why they hold none.
pub open spec fn decoded_record(schema: Seq<Attribute>, bytes: Seq<u8>) -> Result<
    Map<Seq<char>, Value>,
    StoreError,
> {
    match decode_fields(schema, bytes, schema.len() as int) {
        Ok(state) => Ok(state.fields),
        Err(e) => Err(e),
    }
}

/// Once reading has failed, it has failed for good.
pub proof fn lemma_decode_failure_stays(schema: Seq<Attribute>, bytes: Seq<u8>, m: int, n: int)
    requires
        0 <= m <= n,
        decode_fields(schema, bytes, m) is Err,
    ensures
        decode_fields(schema, bytes, n) == decode_fields(schema, bytes, m),
    decreases n,
{
    if m < n {
        lemma_decode_failure_stays(schema, bytes, m, n - 1);
    }
}

/// The number of set bits only grows with the number of bits looked at.
pub proof fn lemma_set_bits_grow(bitmap: Seq<u8>, i: int, n: int)
    requires
        0 <= i <= n,
    ensures
        set_bits(bitmap, i) <= set_bits(bitmap, n),
        set_bits(bitmap, n) <= n,
    decreases n,
{
    if i < n {
        lemma_set_bits_grow(bitmap, i, n - 1);
    } else if n > 0 {
        lemma_set_bits_grow(bitmap, n - 1, n - 1);
    }
}

/// Calls `String::from_utf8`. The bytes make a `String` exactly if they are
/// valid UTF-8, and the `String` is then made of these bytes.
#[verifier::external_body]
fn string_from_utf8(bytes: Vec<u8>) -> (text: Option<String>)
    ensures
        match text {
            Some(s) => valid_utf8(bytes@) && encode_utf8(s@) == bytes@,
            None => !valid_utf8(bytes@),
        },
{
    match String::from_utf8(bytes) {
        Ok(s) => Some(s),
        Err(_) => None,
    }
}

/// Reads a record from the front of `buf`: a mapping from attribute name to
/// value that holds the attributes that have a value.
pub fn read_record_from_buf(schema: &Vec<Attribute>, buf: &[u8]) -> (result: Result<
    Record,
    StoreError,
>)
    ensures
        match decoded_record(schema@, buf@) {
            Ok(fields) => result matches Ok(record) && record@ == fields,
            Err(e) => result matches Err(f) && f == e,
        },
{
    if buf.len() < 2 {
        proof {
            lemma_decode_failure_stays(schema@, buf@, 0, schema@.len() as int);
        }
        return Err(StoreError::UnexpectedEof);
    }
    let num_attributes = u16_from_le_bytes(slice_subrange_of(buf, 0, 2));
    let count: usize = num_attributes as usize;
    let bmp_len = Bitmap::bmp_size_in_bytes(count);
    if buf.len() - 2 < bmp_len {
        proof {
            lemma_decode_failure_stays(schema@, buf@, 0, schema@.len() as int);
        }
        return Err(StoreError::UnexpectedEof);
    }
    let bmp_vec = slice_to_vec(slice_subrange_of(buf, 2, 2 + bmp_len));
    let bmp = Bitmap::new_with_vec(count, bmp_vec);

    // One end offset for each value
    let mut valid_cnt: usize = 0;
    let mut i: usize = 0;
    while i < count
        invariant
            i <= count <= MAX_U16,
            bmp.wf(),
            bmp.bit_len() == count,
            bmp.bytes() == stored_bitmap(buf@),
            valid_cnt == set_bits(stored_bitmap(buf@), i as int),
            valid_cnt <= i,
        decreases count - i,
    {
        if bmp.get(i) {
            valid_cnt += 1;
        }
        i += 1;
    }
    let hdrs_start: usize = 2 + bmp_len;
    if buf.len() - hdrs_start < 2 * valid_cnt {
        proof {
            lemma_decode_failure_stays(schema@, buf@, 0, schema@.len() as int);
        }
        return Err(StoreError::UnexpectedEof);
    }
    let mut results = Record::new();
    let mut pos: usize = hdrs_start + 2 * valid_cnt;
    // offset_idx skips nulls
    let mut offset_idx: usize = 0;
    let mut i: usize = 0;
    while i < schema.len()
        invariant
            i <= schema@.len(),
            count == stored_count(buf@),
            count <= MAX_U16,
            hdrs_start == offsets_start(buf@),
            valid_cnt == set_bits(stored_bitmap(buf@), count as int),
            hdrs_start + 2 * valid_cnt <= buf@.len(),
            bmp.wf(),
            bmp.bit_len() == count,
            bmp.bytes() == stored_bitmap(buf@),
            i <= count ==> offset_idx == set_bits(stored_bitmap(buf@), i as int),
            pos <= buf@.len(),
            decode_fields(schema@, buf@, i as int) == Ok::<DecodeState, StoreError>(
                DecodeState { pos: pos as int, next_offset: offset_idx as int, fields: results@ },
            ),
        decreases schema@.len() - i,
    {
        let attr = &schema[i];
        let ghost before = DecodeState {
            pos: pos as int,
            next_offset: offset_idx as int,
            fields: results@,
        };
        proof {
            if decode_field(schema@[i as int], i as int, buf@, before) is Err {
                lemma_decode_failure_stays(schema@, buf@, i + 1, schema@.len() as int);
            }
            if i < count {
                lemma_set_bits_grow(stored_bitmap(buf@), i + 1, count as int);
            }
        }
        if i >= count {
            return Err(StoreError::CorruptRecord);
        }
        // Skip nulls
        if bmp.get(i) {
            let attr_val = match attr.attribute_type {
                AttributeType::Int => {
                    if buf.len() - pos < 4 {
                        return Err(StoreError::UnexpectedEof);
                    }
                    let bits = u32_from_le_bytes(slice_subrange_of(buf, pos, pos + 4));
                    pos += 4;
                    AttributeValue::Int(#[verifier::truncate] (bits as i32))
                },
                AttributeType::Real => {
                    if buf.len() - pos < 8 {
                        return Err(StoreError::UnexpectedEof);
                    }
                    let bits = u64_from_le_bytes(slice_subrange_of(buf, pos, pos + 8));
                    pos += 8;
                    AttributeValue::Real(bits)
                },
                AttributeType::Varchar { len: max } => {
                    let hdr_at: usize = hdrs_start + 2 * offset_idx;
                    let end = u16_from_le_bytes(slice_subrange_of(buf, hdr_at, hdr_at + 2)) as usize;
                    if end < pos {
                        return Err(StoreError::CorruptRecord);
                    }
                    let str_len = end - pos;
                    if str_len > max as usize {
                        return Err(StoreError::VarcharTooLong);
                    }
                    if end > buf.len() {
                        return Err(StoreError::UnexpectedEof);
                    }
                    let str_bytes = slice_to_vec(slice_subrange_of(buf, pos, end));
                    let text = match string_from_utf8(str_bytes) {
                        Some(text) => text,
                        None => {
                            return Err(StoreError::CorruptRecord);
                        },
                    };
                    proof {
                        vstd::utf8::encode_utf8_decode_utf8(text@);
                    }
                    pos = end;
                    AttributeValue::Varchar(text)
                },
            };
            results.insert(attr.name.clone(), attr_val);
            offset_idx += 1;
        }
        i += 1;
    }
    Ok(results)
}

/// The part of a slice from `start` up to `end`.
fn slice_subrange_of(bytes: &[u8], start: usize, end: usize) -> (part: &[u8])
    requires
        start <= end <= bytes@.len(),
    ensures
        part@ == bytes@.subrange(start as int, end as int),
{
    &bytes[start..end]
}

} // verus!
