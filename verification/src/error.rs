//! Errors of the parser, the planner, the storage layer and the evaluator.

use vstd::prelude::*;
use crate::text::{decimal, decimal_count, decimal_text, join2, join3};

verus! {

broadcast use vstd::string::group_string_axioms;

/// Errors returned by the parser, planner, storage layer, or expression evaluator.
#[derive(Debug, Clone, PartialEq)]
#[allow(inconsistent_fields)]
pub enum Error {
    Parse(String),
    Unsupported(String),
    TableAlreadyExists(String),
    TableNotFound(String),
    IndexAlreadyExists(String),
    IndexNotFound(String),
    ColumnNotFound(String),
    DuplicateColumn(String),
    TypeMismatch { expected: String, found: String },
    DimensionMismatch { left: usize, right: usize },
    InvalidVectorDimension,
    VectorDimensionLimit { found: usize, max: usize },
    NonFiniteVectorElement { index: usize },
    ZeroNorm,
    NullViolation(String),
    UniqueViolation(String),
    InvalidQuery(String),
    ResultLimitExceeded { found_at_least: usize, max: usize },
    TableRowLimit { found: usize, max: usize },
    RevisionConflict { expected: u64, actual: u64 },
    LockPoisoned,
    GpuUnavailable(String),
    StorageIo(String),
    StorageBusy(String),
    CorruptSnapshot(String),
    CorruptWal(String),
}

/// An error with its texts as character sequences.
#[allow(inconsistent_fields)]
pub enum ErrorView {
    Parse(Seq<char>),
    Unsupported(Seq<char>),
    TableAlreadyExists(Seq<char>),
    TableNotFound(Seq<char>),
    IndexAlreadyExists(Seq<char>),
    IndexNotFound(Seq<char>),
    ColumnNotFound(Seq<char>),
    DuplicateColumn(Seq<char>),
    TypeMismatch { expected: Seq<char>, found: Seq<char> },
    DimensionMismatch { left: nat, right: nat },
    InvalidVectorDimension,
    VectorDimensionLimit { found: nat, max: nat },
    NonFiniteVectorElement { index: nat },
    ZeroNorm,
    NullViolation(Seq<char>),
    UniqueViolation(Seq<char>),
    InvalidQuery(Seq<char>),
    ResultLimitExceeded { found_at_least: nat, max: nat },
    TableRowLimit { found: nat, max: nat },
    RevisionConflict { expected: nat, actual: nat },
    LockPoisoned,
    GpuUnavailable(Seq<char>),
    StorageIo(Seq<char>),
    StorageBusy(Seq<char>),
    CorruptSnapshot(Seq<char>),
    CorruptWal(Seq<char>),
}

impl View for Error {
    type V = ErrorView;

    open spec fn view(&self) -> ErrorView {
        match self {
            Error::Parse(m) => ErrorView::Parse(m@),
            Error::Unsupported(m) => ErrorView::Unsupported(m@),
            Error::TableAlreadyExists(m) => ErrorView::TableAlreadyExists(m@),
            Error::TableNotFound(m) => ErrorView::TableNotFound(m@),
            Error::IndexAlreadyExists(m) => ErrorView::IndexAlreadyExists(m@),
            Error::IndexNotFound(m) => ErrorView::IndexNotFound(m@),
            Error::ColumnNotFound(m) => ErrorView::ColumnNotFound(m@),
            Error::DuplicateColumn(m) => ErrorView::DuplicateColumn(m@),
            Error::TypeMismatch { expected, found } => ErrorView::TypeMismatch { expected: expected@, found: found@ },
            Error::DimensionMismatch { left, right } => ErrorView::DimensionMismatch { left: *left as nat, right: *right as nat },
            Error::InvalidVectorDimension => ErrorView::InvalidVectorDimension,
            Error::VectorDimensionLimit { found, max } => ErrorView::VectorDimensionLimit { found: *found as nat, max: *max as nat },
            Error::NonFiniteVectorElement { index } => ErrorView::NonFiniteVectorElement { index: *index as nat },
            Error::ZeroNorm => ErrorView::ZeroNorm,
            Error::NullViolation(m) => ErrorView::NullViolation(m@),
            Error::UniqueViolation(m) => ErrorView::UniqueViolation(m@),
            Error::InvalidQuery(m) => ErrorView::InvalidQuery(m@),
            Error::ResultLimitExceeded { found_at_least, max } => ErrorView::ResultLimitExceeded { found_at_least: *found_at_least as nat, max: *max as nat },
            Error::TableRowLimit { found, max } => ErrorView::TableRowLimit { found: *found as nat, max: *max as nat },
            Error::RevisionConflict { expected, actual } => ErrorView::RevisionConflict { expected: *expected as nat, actual: *actual as nat },
            Error::LockPoisoned => ErrorView::LockPoisoned,
            Error::GpuUnavailable(m) => ErrorView::GpuUnavailable(m@),
            Error::StorageIo(m) => ErrorView::StorageIo(m@),
            Error::StorageBusy(m) => ErrorView::StorageBusy(m@),
            Error::CorruptSnapshot(m) => ErrorView::CorruptSnapshot(m@),
            Error::CorruptWal(m) => ErrorView::CorruptWal(m@),
        }
    }
}

impl ErrorView {
    /// The text shown to a user.
    pub open spec fn message(self) -> Seq<char> {
        match self {
            ErrorView::Parse(m) => "SQL parse error: "@ + m,
            ErrorView::Unsupported(m) => "unsupported SQL: "@ + m,
            ErrorView::TableAlreadyExists(m) => "table '"@ + m + "' already exists"@,
            ErrorView::TableNotFound(m) => "table '"@ + m + "' does not exist"@,
            ErrorView::IndexAlreadyExists(m) => "index '"@ + m + "' already exists"@,
            ErrorView::IndexNotFound(m) => "index '"@ + m + "' does not exist"@,
            ErrorView::ColumnNotFound(m) => "column '"@ + m + "' does not exist"@,
            ErrorView::DuplicateColumn(m) => "column '"@ + m + "' appears more than once"@,
            ErrorView::TypeMismatch { expected, found } => "expected "@ + expected + ", found "@ + found,
            ErrorView::DimensionMismatch { left, right } => "vector dimensions differ: left has "@ + decimal_text(left)
                + ", right has "@ + decimal_text(right),
            ErrorView::InvalidVectorDimension => "vector dimension must be greater than zero"@,
            ErrorView::VectorDimensionLimit { found, max } => "vector has "@ + decimal_text(found)
                + " dimensions; the maximum is "@ + decimal_text(max),
            ErrorView::NonFiniteVectorElement { index } => "vector element at index "@ + decimal_text(index)
                + " is not finite"@,
            ErrorView::ZeroNorm => "cosine distance is undefined for a zero vector"@,
            ErrorView::NullViolation(m) => "column '"@ + m + "' cannot be null"@,
            ErrorView::UniqueViolation(m) => "duplicate value violates unique constraint on column '"@ + m + "'"@,
            ErrorView::InvalidQuery(m) => "invalid query: "@ + m,
            ErrorView::ResultLimitExceeded { found_at_least, max } => "query returns at least "@
                + decimal_text(found_at_least) + " rows; maximum is "@ + decimal_text(max),
            ErrorView::TableRowLimit { found, max } => "table would contain "@ + decimal_text(found)
                + " rows; maximum is "@ + decimal_text(max),
            ErrorView::RevisionConflict { expected, actual } => "expected catalog revision "@ + decimal_text(expected)
                + ", found "@ + decimal_text(actual),
            ErrorView::LockPoisoned => "database lock was poisoned"@,
            ErrorView::GpuUnavailable(m) => "GPU compute is unavailable: "@ + m,
            ErrorView::StorageIo(m) => "storage I/O error: "@ + m,
            ErrorView::StorageBusy(m) => "data directory '"@ + m + "' is already open by another process"@,
            ErrorView::CorruptSnapshot(m) => "corrupt snapshot: "@ + m,
            ErrorView::CorruptWal(m) => "corrupt write-ahead log: "@ + m,
        }
    }
}

fn numbers(before: &str, first: String, between: &str, second: String) -> (text: String)
    ensures
        text@ == before@ + first@ + between@ + second@,
{
    let mut out = join3(before, first.as_str(), between);
    out.append(second.as_str());
    out
}

impl Error {
    /// The text shown to a user.
    pub fn message(&self) -> (text: String)
        ensures
            text@ == self@.message(),
    {
        match self {
            Error::Parse(m) => join2("SQL parse error: ", m.as_str()),
            Error::Unsupported(m) => join2("unsupported SQL: ", m.as_str()),
            Error::TableAlreadyExists(m) => join3("table '", m.as_str(), "' already exists"),
            Error::TableNotFound(m) => join3("table '", m.as_str(), "' does not exist"),
            Error::IndexAlreadyExists(m) => join3("index '", m.as_str(), "' already exists"),
            Error::IndexNotFound(m) => join3("index '", m.as_str(), "' does not exist"),
            Error::ColumnNotFound(m) => join3("column '", m.as_str(), "' does not exist"),
            Error::DuplicateColumn(m) => join3("column '", m.as_str(), "' appears more than once"),
            Error::TypeMismatch { expected, found } => numbers("expected ", expected.clone(), ", found ", found.clone()),
            Error::DimensionMismatch { left, right } => numbers(
                "vector dimensions differ: left has ",
                decimal_count(*left),
                ", right has ",
                decimal_count(*right),
            ),
            Error::InvalidVectorDimension => "vector dimension must be greater than zero".to_owned(),
            Error::VectorDimensionLimit { found, max } => numbers(
                "vector has ",
                decimal_count(*found),
                " dimensions; the maximum is ",
                decimal_count(*max),
            ),
            Error::NonFiniteVectorElement { index } => join3(
                "vector element at index ",
                decimal_count(*index).as_str(),
                " is not finite",
            ),
            Error::ZeroNorm => "cosine distance is undefined for a zero vector".to_owned(),
            Error::NullViolation(m) => join3("column '", m.as_str(), "' cannot be null"),
            Error::UniqueViolation(m) => join3(
                "duplicate value violates unique constraint on column '",
                m.as_str(),
                "'",
            ),
            Error::InvalidQuery(m) => join2("invalid query: ", m.as_str()),
            Error::ResultLimitExceeded { found_at_least, max } => numbers(
                "query returns at least ",
                decimal_count(*found_at_least),
                " rows; maximum is ",
                decimal_count(*max),
            ),
            Error::TableRowLimit { found, max } => numbers(
                "table would contain ",
                decimal_count(*found),
                " rows; maximum is ",
                decimal_count(*max),
            ),
            Error::RevisionConflict { expected, actual } => numbers(
                "expected catalog revision ",
                decimal(*expected),
                ", found ",
                decimal(*actual),
            ),
            Error::LockPoisoned => "database lock was poisoned".to_owned(),
            Error::GpuUnavailable(m) => join2("GPU compute is unavailable: ", m.as_str()),
            Error::StorageIo(m) => join2("storage I/O error: ", m.as_str()),
            Error::StorageBusy(m) => join3("data directory '", m.as_str(), "' is already open by another process"),
            Error::CorruptSnapshot(m) => join2("corrupt snapshot: ", m.as_str()),
            Error::CorruptWal(m) => join2("corrupt write-ahead log: ", m.as_str()),
        }
    }
}

/// A result with its success value and its error by their views.
pub open spec fn outcome<T: View>(result: Result<T, Error>) -> Result<T::V, ErrorView> {
    match result {
        Ok(value) => Ok(value@),
        Err(error) => Err(error@),
    }
}

/// A result with its error by its view.
pub open spec fn plain<T>(result: Result<T, Error>) -> Result<T, ErrorView> {
    match result {
        Ok(value) => Ok(value),
        Err(error) => Err(error@),
    }
}

/// An invalid-query error with this message.
pub fn invalid(message: &str) -> (error: Error)
    ensures
        error@ == ErrorView::InvalidQuery(message@),
{
    Error::InvalidQuery(message.to_owned())
}

/// An unsupported-SQL error with this message.
pub fn unsupported(message: &str) -> (error: Error)
    ensures
        error@ == ErrorView::Unsupported(message@),
{
    Error::Unsupported(message.to_owned())
}

} // verus!
