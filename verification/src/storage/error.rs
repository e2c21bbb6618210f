use crate::text::{decimal, push_decimal, push_str};
use crate::value::{spec_type_name, DataType};
use vstd::prelude::*;

verus! {

/// Errors reported by the storage layer.
#[derive(Debug, Clone, PartialEq, Eq)]
pub enum DbError {
    TableAlreadyExists { table: String },
    TableNotFound { table: String },
    ColumnNotFound { table: String, column: String },
    DuplicateColumn { column: String },
    WrongColumnCount { table: String, expected: usize, actual: usize },
    TypeMismatch { table: String, column: String, expected: DataType, actual: DataType },
    NullNotAllowed { table: String, column: String },
    IdentityOverflow { table: String },
    Io(String),
    Corrupt(String),
    Encoding(String),
    PageFull,
    RecordTooLarge { size: usize, maximum: usize },
    CatalogFull,
}

/// The content of a `DbError`, with its text as character sequences.
pub enum SpecDbError {
    TableAlreadyExists { table: Seq<char> },
    TableNotFound { table: Seq<char> },
    ColumnNotFound { table: Seq<char>, column: Seq<char> },
    DuplicateColumn { column: Seq<char> },
    WrongColumnCount { table: Seq<char>, expected: usize, actual: usize },
    TypeMismatch { table: Seq<char>, column: Seq<char>, expected: DataType, actual: DataType },
    NullNotAllowed { table: Seq<char>, column: Seq<char> },
    IdentityOverflow { table: Seq<char> },
    Io(Seq<char>),
    Corrupt(Seq<char>),
    Encoding(Seq<char>),
    PageFull,
    RecordTooLarge { size: usize, maximum: usize },
    CatalogFull,
}

impl View for DbError {
    type V = SpecDbError;

    open spec fn view(&self) -> SpecDbError {
        match self {
            DbError::TableAlreadyExists { table } => SpecDbError::TableAlreadyExists { table: table@ },
            DbError::TableNotFound { table } => SpecDbError::TableNotFound { table: table@ },
            DbError::ColumnNotFound { table, column } => SpecDbError::ColumnNotFound {
                table: table@,
                column: column@,
            },
            DbError::DuplicateColumn { column } => SpecDbError::DuplicateColumn { column: column@ },
            DbError::WrongColumnCount { table, expected, actual } => SpecDbError::WrongColumnCount {
                table: table@,
                expected: *expected,
                actual: *actual,
            },
            DbError::TypeMismatch { table, column, expected, actual } => SpecDbError::TypeMismatch {
                table: table@,
                column: column@,
                expected: *expected,
                actual: *actual,
            },
            DbError::NullNotAllowed { table, column } => SpecDbError::NullNotAllowed {
                table: table@,
                column: column@,
            },
            DbError::IdentityOverflow { table } => SpecDbError::IdentityOverflow { table: table@ },
            DbError::Io(m) => SpecDbError::Io(m@),
            DbError::Corrupt(m) => SpecDbError::Corrupt(m@),
            DbError::Encoding(m) => SpecDbError::Encoding(m@),
            DbError::PageFull => SpecDbError::PageFull,
            DbError::RecordTooLarge { size, maximum } => SpecDbError::RecordTooLarge {
                size: *size,
                maximum: *maximum,
            },
            DbError::CatalogFull => SpecDbError::CatalogFull,
        }
    }
}

/// The text that describes a storage error to a person.
pub open spec fn db_message(e: SpecDbError) -> Seq<char> {
    match e {
        SpecDbError::TableAlreadyExists { table } => "table '"@ + table + "' already exists"@,
        SpecDbError::TableNotFound { table } => "table '"@ + table + "' does not exist"@,
        SpecDbError::ColumnNotFound { table, column } => "column '"@ + column + "' does not exist in table '"@
            + table + "'"@,
        SpecDbError::DuplicateColumn { column } => "column '"@ + column + "' is defined more than once"@,
        SpecDbError::WrongColumnCount { table, expected, actual } => "table '"@ + table + "' expects "@
            + decimal(expected as nat) + " values, but received "@ + decimal(actual as nat),
        SpecDbError::TypeMismatch { table, column, expected, actual } => "column '"@ + column
            + "' in table '"@ + table + "' expects "@ + spec_type_name(expected) + ", but received "@
            + spec_type_name(actual),
        SpecDbError::NullNotAllowed { table, column } => "column '"@ + column + "' in table '"@ + table
            + "' does not allow NULL"@,
        SpecDbError::IdentityOverflow { table } => "identity column in table '"@ + table
            + "' has no remaining values"@,
        SpecDbError::Io(m) => "I/O error: "@ + m,
        SpecDbError::Corrupt(m) => "corrupt database: "@ + m,
        SpecDbError::Encoding(m) => "cannot encode value: "@ + m,
        SpecDbError::PageFull => "page has no room for this record"@,
        SpecDbError::RecordTooLarge { size, maximum } => "record is "@ + decimal(size as nat)
            + " bytes, but a page can hold at most "@ + decimal(maximum as nat),
        SpecDbError::CatalogFull => "the single-page system catalog is full"@,
    }
}

impl DbError {
    /// The text that describes this error to a person.
    pub fn message(&self) -> (r: String)
        ensures
            r@ == db_message(self@),
    {
        let mut s = String::new();
        match self {
            DbError::TableAlreadyExists { table } => {
                push_str(&mut s, "table '");
                push_str(&mut s, table.as_str());
                push_str(&mut s, "' already exists");
            },
            DbError::TableNotFound { table } => {
                push_str(&mut s, "table '");
                push_str(&mut s, table.as_str());
                push_str(&mut s, "' does not exist");
            },
            DbError::ColumnNotFound { table, column } => {
                push_str(&mut s, "column '");
                push_str(&mut s, column.as_str());
                push_str(&mut s, "' does not exist in table '");
                push_str(&mut s, table.as_str());
                push_str(&mut s, "'");
            },
            DbError::DuplicateColumn { column } => {
                push_str(&mut s, "column '");
                push_str(&mut s, column.as_str());
                push_str(&mut s, "' is defined more than once");
            },
            DbError::WrongColumnCount { table, expected, actual } => {
                push_str(&mut s, "table '");
                push_str(&mut s, table.as_str());
                push_str(&mut s, "' expects ");
                push_decimal(&mut s, *expected as u64);
                push_str(&mut s, " values, but received ");
                push_decimal(&mut s, *actual as u64);
            },
            DbError::TypeMismatch { table, column, expected, actual } => {
                push_str(&mut s, "column '");
                push_str(&mut s, column.as_str());
                push_str(&mut s, "' in table '");
                push_str(&mut s, table.as_str());
                push_str(&mut s, "' expects ");
                push_str(&mut s, expected.name().as_str());
                push_str(&mut s, ", but received ");
                push_str(&mut s, actual.name().as_str());
            },
            DbError::NullNotAllowed { table, column } => {
                push_str(&mut s, "column '");
                push_str(&mut s, column.as_str());
                push_str(&mut s, "' in table '");
                push_str(&mut s, table.as_str());
                push_str(&mut s, "' does not allow NULL");
            },
            DbError::IdentityOverflow { table } => {
                push_str(&mut s, "identity column in table '");
                push_str(&mut s, table.as_str());
                push_str(&mut s, "' has no remaining values");
            },
            DbError::Io(m) => {
                push_str(&mut s, "I/O error: ");
                push_str(&mut s, m.as_str());
            },
            DbError::Corrupt(m) => {
                push_str(&mut s, "corrupt database: ");
                push_str(&mut s, m.as_str());
            },
            DbError::Encoding(m) => {
                push_str(&mut s, "cannot encode value: ");
                push_str(&mut s, m.as_str());
            },
            DbError::PageFull => {
                push_str(&mut s, "page has no room for this record");
            },
            DbError::RecordTooLarge { size, maximum } => {
                push_str(&mut s, "record is ");
                push_decimal(&mut s, *size as u64);
                push_str(&mut s, " bytes, but a page can hold at most ");
                push_decimal(&mut s, *maximum as u64);
            },
            DbError::CatalogFull => {
                push_str(&mut s, "the single-page system catalog is full");
            },
        }
        s
    }
}

/// A corruption error whose message is `message`.
pub fn corrupt(message: &str) -> (r: DbError)
    ensures
        r@ == SpecDbError::Corrupt(message@),
{
    DbError::Corrupt(message.to_owned())
}

/// A corruption error whose message is `before`, the decimal digits of `n`,
/// then `after`.
pub fn corrupt_with_number(before: &str, n: u64, after: &str) -> (r: DbError)
    ensures
        r@ == SpecDbError::Corrupt(before@ + decimal(n as nat) + after@),
{
    let mut s = String::new();
    push_str(&mut s, before);
    push_decimal(&mut s, n);
    push_str(&mut s, after);
    DbError::Corrupt(s)
}

} // verus!
