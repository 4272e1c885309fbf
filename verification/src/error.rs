//! Neo4j CSV parser error types.

use vstd::prelude::*;
use vstd::string::StringExecFns;

use crate::text::push_char;

verus! {

/// Errors from parsing Neo4j CSV files.
#[derive(Debug)]
pub enum Neo4jCsvError {
    /// The CSV header is missing or empty.
    EmptyHeader,
    /// The CSV header is ambiguous (has both node and relationship
    /// columns).
    AmbiguousHeader,
    /// A required header column is missing.
    MissingColumn {
        /// The missing column name.
        column: String,
    },
    /// A duplicate header column was found.
    DuplicateColumn {
        /// The duplicate column name.
        column: String,
    },
    /// A data row has the wrong number of fields.
    FieldCountMismatch {
        /// 1-based row number (excluding header).
        row: usize,
        /// Number of fields found.
        found: usize,
        /// Expected number of fields.
        expected: usize,
    },
    /// The header describes neither a node file nor a relationship
    /// file.
    UnrecognizedFileType,
}

/// The mathematical content of a [`Neo4jCsvError`].
pub enum ErrorView {
    EmptyHeader,
    AmbiguousHeader,
    MissingColumn { column: Seq<char> },
    DuplicateColumn { column: Seq<char> },
    FieldCountMismatch { row: nat, found: nat, expected: nat },
    UnrecognizedFileType,
}

impl View for Neo4jCsvError {
    type V = ErrorView;

    open spec fn view(&self) -> ErrorView {
        match self {
            Neo4jCsvError::EmptyHeader => ErrorView::EmptyHeader,
            Neo4jCsvError::AmbiguousHeader => ErrorView::AmbiguousHeader,
            Neo4jCsvError::MissingColumn { column } => ErrorView::MissingColumn { column: column@ },
            Neo4jCsvError::DuplicateColumn { column } => ErrorView::DuplicateColumn {
                column: column@,
            },
            Neo4jCsvError::FieldCountMismatch { row, found, expected } =>
                ErrorView::FieldCountMismatch {
                row: *row as nat,
                found: *found as nat,
                expected: *expected as nat,
            },
            Neo4jCsvError::UnrecognizedFileType => ErrorView::UnrecognizedFileType,
        }
    }
}

/// The decimal digit `d`, for `0 <= d < 10`.
pub open spec fn digit_char(d: nat) -> char {
    if d == 0 {
        '0'
    } else if d == 1 {
        '1'
    } else if d == 2 {
        '2'
    } else if d == 3 {
        '3'
    } else if d == 4 {
        '4'
    } else if d == 5 {
        '5'
    } else if d == 6 {
        '6'
    } else if d == 7 {
        '7'
    } else if d == 8 {
        '8'
    } else {
        '9'
    }
}

/// The decimal representation of `n`, without leading zeros.
pub open spec fn decimal(n: nat) -> Seq<char>
    decreases n,
{
    if n < 10 {
        seq![digit_char(n)]
    } else {
        decimal(n / 10).push(digit_char(n % 10))
    }
}

/// The human-readable text of an error: a fixed prefix, then the
/// variant's description with its column or its numbers in decimal.
pub open spec fn message(e: ErrorView) -> Seq<char> {
    match e {
        ErrorView::EmptyHeader => "Neo4j CSV: empty or missing header"@,
        ErrorView::AmbiguousHeader => "Neo4j CSV: ambiguous header — contains both :ID and :START_ID"@,
        ErrorView::MissingColumn { column } => "Neo4j CSV: missing required column: "@ + column,
        ErrorView::DuplicateColumn { column } => "Neo4j CSV: duplicate column: "@ + column,
        ErrorView::FieldCountMismatch { row, found, expected } => "Neo4j CSV: row "@ + decimal(row)
            + " has "@ + decimal(found) + " fields, expected "@ + decimal(expected),
        ErrorView::UnrecognizedFileType =>
            "Neo4j CSV: header is neither a node file (:ID) nor a relationship file (:START_ID + :END_ID + :TYPE)"@,
    }
}

fn digit(d: usize) -> (c: char)
    requires
        d < 10,
    ensures
        c == digit_char(d as nat),
{
    if d == 0 {
        '0'
    } else if d == 1 {
        '1'
    } else if d == 2 {
        '2'
    } else if d == 3 {
        '3'
    } else if d == 4 {
        '4'
    } else if d == 5 {
        '5'
    } else if d == 6 {
        '6'
    } else if d == 7 {
        '7'
    } else if d == 8 {
        '8'
    } else {
        '9'
    }
}

/// Appends the decimal representation of `n` to `s`.
fn push_decimal(s: &mut String, n: usize)
    ensures
        final(s)@ == old(s)@ + decimal(n as nat),
    decreases n,
{
    if n >= 10 {
        push_decimal(s, n / 10);
        push_char(s, digit(n % 10));
        assert(final(s)@ =~= old(s)@ + decimal(n as nat));
    } else {
        push_char(s, digit(n));
        assert(final(s)@ =~= old(s)@ + decimal(n as nat));
    }
}

impl Neo4jCsvError {
    /// The human-readable text of this error.
    pub fn to_string(&self) -> (res: String)
        ensures
            res@ == message(self@),
    {
        match self {
            Neo4jCsvError::EmptyHeader => String::from_str("Neo4j CSV: empty or missing header"),
            Neo4jCsvError::AmbiguousHeader => String::from_str(
                "Neo4j CSV: ambiguous header — contains both :ID and :START_ID",
            ),
            Neo4jCsvError::MissingColumn { column } => {
                let mut s = String::from_str("Neo4j CSV: missing required column: ");
                s.append(column.as_str());
                s
            },
            Neo4jCsvError::DuplicateColumn { column } => {
                let mut s = String::from_str("Neo4j CSV: duplicate column: ");
                s.append(column.as_str());
                s
            },
            Neo4jCsvError::FieldCountMismatch { row, found, expected } => {
                let mut s = String::from_str("Neo4j CSV: row ");
                push_decimal(&mut s, *row);
                s.append(" has ");
                push_decimal(&mut s, *found);
                s.append(" fields, expected ");
                push_decimal(&mut s, *expected);
                s
            },
            Neo4jCsvError::UnrecognizedFileType => String::from_str(
                "Neo4j CSV: header is neither a node file (:ID) nor a relationship file (:START_ID + :END_ID + :TYPE)",
            ),
        }
    }
}

} // verus!
