//! Schema and value types.
//!
//! A schema is an ordered sequence of [`Attribute`]s. The order is
//! significant: it fixes the order of the fields of every stored record.

use vstd::prelude::*;

verus! {

/// The type of an attribute: an integer, a real number, or a text of at most
/// `len` bytes of UTF-8.
#[derive(Clone, Copy, Debug, PartialEq, Eq, Structural)]
pub enum AttributeType {
    Int,
    Real,
    Varchar { len: u32 },
}

/// One attribute of a schema.
#[derive(Debug)]
pub struct Attribute {
    pub name: String,
    pub attribute_type: AttributeType,
}

/// A value of one attribute.
///
/// A real number is held as the 64 bits of its IEEE 754 binary64
/// representation, which is also what is stored on a page.
#[derive(Debug, PartialEq)]
pub enum AttributeValue {
    Int(i32),
    Real(u64),
    Varchar(String),
}

/// The mathematical value that an [`AttributeValue`] stands for.
pub enum Value {
    Int(i32),
    Real(u64),
    Varchar(Seq<char>),
}

impl View for AttributeValue {
    type V = Value;

    open spec fn view(&self) -> Value {
        match self {
            AttributeValue::Int(v) => Value::Int(*v),
            AttributeValue::Real(bits) => Value::Real(*bits),
            AttributeValue::Varchar(s) => Value::Varchar(s@),
        }
    }
}

impl AttributeValue {
    /// A copy of this value.
    pub fn duplicate(&self) -> (copy: AttributeValue)
        ensures
            copy@ == self@,
    {
        match self {
            AttributeValue::Int(v) => AttributeValue::Int(*v),
            AttributeValue::Real(bits) => AttributeValue::Real(*bits),
            AttributeValue::Varchar(s) => AttributeValue::Varchar(s.clone()),
        }
    }

    /// Whether two values are the same: same variant, same content.
    pub fn same_as(&self, other: &AttributeValue) -> (same: bool)
        ensures
            same == (self@ == other@),
    {
        match (self, other) {
            (AttributeValue::Int(a), AttributeValue::Int(b)) => *a == *b,
            (AttributeValue::Real(a), AttributeValue::Real(b)) => *a == *b,
            (AttributeValue::Varchar(a), AttributeValue::Varchar(b)) => *a == *b,
            _ => false,
        }
    }
}

} // verus!
