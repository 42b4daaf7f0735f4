//! The failures that the store reports.

use vstd::prelude::*;
use vstd::string::StringExecFns;

verus! {

/// The broad class of a failure.
#[derive(Clone, Copy, Debug, PartialEq, Eq, Structural)]
pub enum StoreErrorKind {
    /// A page that the file does not have.
    NotFound,
    /// A request that the schema or the format rules out.
    InvalidInput,
    /// Stored bytes that cannot be what the store wrote.
    InvalidData,
    /// Stored bytes that end too early.
    UnexpectedEof,
    /// A file made for another page size.
    Other,
}

/// A failure of the store.
#[derive(Clone, Copy, Debug, PartialEq, Eq, Structural)]
pub enum StoreError {
    /// The page size stored in the file's header is not the configured one.
    PageSizeMismatch { header: u64, expected: u64 },
    /// The page index is not below the number of pages.
    PageNotFound { page_num: u64, num_pages: u64 },
    /// The slot index is not below the number of slots of the page.
    SlotNotFound,
    /// The slot's record was removed.
    RecordDeleted,
    /// A value is not of its attribute's type, or a text is longer than its
    /// attribute allows.
    AttributeTypeMismatch,
    /// A stored text is longer than its attribute allows.
    VarcharTooLong,
    /// The bytes end before the value that is being read.
    UnexpectedEof,
    /// The configured page size cannot be used.
    InvalidPageSize,
    /// The schema has more attributes than a record can count.
    SchemaTooLong,
    /// The record does not fit into an empty page.
    RecordTooLarge,
    /// The buffer is shorter than the record.
    BufferTooSmall,
    /// The page has too little free space for the record and its slot.
    PageFull,
    /// The file cannot grow by another page.
    FileTooLarge,
    /// The file does not end at a page boundary.
    PartialPage,
    /// A page does not start with a usable slot directory.
    CorruptPage,
    /// Stored record bytes contradict themselves or the schema.
    CorruptRecord,
    /// A chain of redirections is longer than the file has pages.
    RedirectionLimit,
}

/// The character that stands for a digit.
pub open spec fn digit_char(digit: nat) -> char {
    if digit == 0 {
        '0'
    } else if digit == 1 {
        '1'
    } else if digit == 2 {
        '2'
    } else if digit == 3 {
        '3'
    } else if digit == 4 {
        '4'
    } else if digit == 5 {
        '5'
    } else if digit == 6 {
        '6'
    } else if digit == 7 {
        '7'
    } else if digit == 8 {
        '8'
    } else {
        '9'
    }
}

/// The text that stands for a number in a message: its decimal digits,
/// without leading zeros.
pub open spec fn decimal_text(n: nat) -> Seq<char>
    decreases n,
{
    if n < 10 {
        seq![digit_char(n)]
    } else {
        decimal_text(n / 10).push(digit_char(n % 10))
    }
}

/// The text of one digit.
fn digit_text(digit: u64) -> (text: &'static str)
    requires
        digit < 10,
    ensures
        text@ == seq![digit_char(digit as nat)],
{
    proof {
        reveal_strlit("0");
        reveal_strlit("1");
        reveal_strlit("2");
        reveal_strlit("3");
        reveal_strlit("4");
        reveal_strlit("5");
        reveal_strlit("6");
        reveal_strlit("7");
        reveal_strlit("8");
        reveal_strlit("9");
    }
    let text = if digit == 0 {
        "0"
    } else if digit == 1 {
        "1"
    } else if digit == 2 {
        "2"
    } else if digit == 3 {
        "3"
    } else if digit == 4 {
        "4"
    } else if digit == 5 {
        "5"
    } else if digit == 6 {
        "6"
    } else if digit == 7 {
        "7"
    } else if digit == 8 {
        "8"
    } else {
        "9"
    };
    assert(text@ =~= seq![digit_char(digit as nat)]);
    text
}

/// The decimal digits of a number.
fn decimal(n: u64) -> (text: String)
    ensures
        text@ == decimal_text(n as nat),
    decreases n,
{
    if n < 10 {
        digit_text(n).to_owned()
    } else {
        let front = decimal(n / 10);
        let last = digit_text(n % 10);
        let text = front.concat(last);
        assert(text@ =~= decimal_text(n as nat));
        text
    }
}

impl StoreError {
    /// The class of the failure.
    pub open spec fn spec_kind(self) -> StoreErrorKind {
        match self {
            StoreError::PageSizeMismatch { .. } => StoreErrorKind::Other,
            StoreError::PageNotFound { .. } => StoreErrorKind::NotFound,
            StoreError::SlotNotFound => StoreErrorKind::InvalidInput,
            StoreError::RecordDeleted => StoreErrorKind::InvalidData,
            StoreError::AttributeTypeMismatch => StoreErrorKind::InvalidInput,
            StoreError::VarcharTooLong => StoreErrorKind::InvalidData,
            StoreError::UnexpectedEof => StoreErrorKind::UnexpectedEof,
            StoreError::InvalidPageSize => StoreErrorKind::InvalidInput,
            StoreError::SchemaTooLong => StoreErrorKind::InvalidInput,
            StoreError::RecordTooLarge => StoreErrorKind::InvalidInput,
            StoreError::BufferTooSmall => StoreErrorKind::InvalidInput,
            StoreError::PageFull => StoreErrorKind::InvalidInput,
            StoreError::FileTooLarge => StoreErrorKind::InvalidInput,
            StoreError::PartialPage => StoreErrorKind::InvalidData,
            StoreError::CorruptPage => StoreErrorKind::InvalidData,
            StoreError::CorruptRecord => StoreErrorKind::InvalidData,
            StoreError::RedirectionLimit => StoreErrorKind::InvalidData,
        }
    }

    /// The class of the failure.
    #[verifier::when_used_as_spec(spec_kind)]
    pub fn kind(self) -> (kind: StoreErrorKind)
        ensures
            kind == self.spec_kind(),
    {
        match self {
            StoreError::PageSizeMismatch { .. } => StoreErrorKind::Other,
            StoreError::PageNotFound { .. } => StoreErrorKind::NotFound,
            StoreError::SlotNotFound => StoreErrorKind::InvalidInput,
            StoreError::RecordDeleted => StoreErrorKind::InvalidData,
            StoreError::AttributeTypeMismatch => StoreErrorKind::InvalidInput,
            StoreError::VarcharTooLong => StoreErrorKind::InvalidData,
            StoreError::UnexpectedEof => StoreErrorKind::UnexpectedEof,
            StoreError::InvalidPageSize => StoreErrorKind::InvalidInput,
            StoreError::SchemaTooLong => StoreErrorKind::InvalidInput,
            StoreError::RecordTooLarge => StoreErrorKind::InvalidInput,
            StoreError::BufferTooSmall => StoreErrorKind::InvalidInput,
            StoreError::PageFull => StoreErrorKind::InvalidInput,
            StoreError::FileTooLarge => StoreErrorKind::InvalidInput,
            StoreError::PartialPage => StoreErrorKind::InvalidData,
            StoreError::CorruptPage => StoreErrorKind::InvalidData,
            StoreError::CorruptRecord => StoreErrorKind::InvalidData,
            StoreError::RedirectionLimit => StoreErrorKind::InvalidData,
        }
    }

    /// The message of the failure.
    pub open spec fn spec_message(self) -> Seq<char> {
        match self {
            StoreError::PageSizeMismatch { header, expected } => "Page size mismatch. Header: "@
                + decimal_text(header as nat) + ", Expected: "@ + decimal_text(expected as nat),
            StoreError::PageNotFound { page_num, num_pages } => "Page "@ + decimal_text(page_num as nat)
                + " does not exist. Total pages: "@ + decimal_text(num_pages as nat),
            StoreError::SlotNotFound => "Slot does not exist"@,
            StoreError::RecordDeleted => "Record deleted"@,
            StoreError::AttributeTypeMismatch => "Attribute type mismatch"@,
            StoreError::VarcharTooLong => "Varchar larger than max len"@,
            StoreError::UnexpectedEof => "Unexpected end of data"@,
            StoreError::InvalidPageSize => "Page size not usable"@,
            StoreError::SchemaTooLong => "Too many attributes"@,
            StoreError::RecordTooLarge => "Record larger than a page"@,
            StoreError::BufferTooSmall => "Buffer shorter than the record"@,
            StoreError::PageFull => "Page has too little free space"@,
            StoreError::FileTooLarge => "File cannot grow"@,
            StoreError::PartialPage => "File ends inside a page"@,
            StoreError::CorruptPage => "Slot directory unreadable"@,
            StoreError::CorruptRecord => "Record unreadable"@,
            StoreError::RedirectionLimit => "Too many redirections"@,
        }
    }

    /// The message of the failure. For a page size mismatch it names both
    /// page sizes.
    pub fn to_string(&self) -> (message: String)
        ensures
            message@ == self.spec_message(),
    {
        match self {
            StoreError::PageSizeMismatch { header, expected } => {
                let message = "Page size mismatch. Header: ".to_owned();
                let message = message.concat(decimal(*header).as_str());
                let message = message.concat(", Expected: ");
                message.concat(decimal(*expected).as_str())
            },
            StoreError::PageNotFound { page_num, num_pages } => {
                let message = "Page ".to_owned();
                let message = message.concat(decimal(*page_num).as_str());
                let message = message.concat(" does not exist. Total pages: ");
                message.concat(decimal(*num_pages).as_str())
            },
            StoreError::SlotNotFound => "Slot does not exist".to_owned(),
            StoreError::RecordDeleted => "Record deleted".to_owned(),
            StoreError::AttributeTypeMismatch => "Attribute type mismatch".to_owned(),
            StoreError::VarcharTooLong => "Varchar larger than max len".to_owned(),
            StoreError::UnexpectedEof => "Unexpected end of data".to_owned(),
            StoreError::InvalidPageSize => "Page size not usable".to_owned(),
            StoreError::SchemaTooLong => "Too many attributes".to_owned(),
            StoreError::RecordTooLarge => "Record larger than a page".to_owned(),
            StoreError::BufferTooSmall => "Buffer shorter than the record".to_owned(),
            StoreError::PageFull => "Page has too little free space".to_owned(),
            StoreError::FileTooLarge => "File cannot grow".to_owned(),
            StoreError::PartialPage => "File ends inside a page".to_owned(),
            StoreError::CorruptPage => "Slot directory unreadable".to_owned(),
            StoreError::CorruptRecord => "Record unreadable".to_owned(),
            StoreError::RedirectionLimit => "Too many redirections".to_owned(),
        }
    }
}

} // verus!
