//! Errors reported while reading the transactions CSV.

use vstd::prelude::*;

use crate::text::{decimal, push_decimal, push_str};

verus! {

/// Why a transactions CSV could not be read.
#[derive(Debug)]
pub enum ParseCsvError {
    MissingHeader,
    InvalidColumnCount { expected: usize, found: usize, line: usize },
    InvalidPrefix { field: &'static str, expected_prefix: &'static str, value: String },
    InvalidNumber { field: &'static str, value: String },
    InvalidFloat { field: &'static str, value: String },
    InvalidEnumValue { field: &'static str, value: String },
    InvalidDateTime { field: &'static str, value: String },
    InvalidIpAddress { field: &'static str, value: String },
}

/// The mathematical content of a [`ParseCsvError`]: texts as character sequences.
pub enum CsvErrorView {
    MissingHeader,
    InvalidColumnCount { expected: nat, found: nat, line: nat },
    InvalidPrefix { field: Seq<char>, expected_prefix: Seq<char>, value: Seq<char> },
    InvalidNumber { field: Seq<char>, value: Seq<char> },
    InvalidFloat { field: Seq<char>, value: Seq<char> },
    InvalidEnumValue { field: Seq<char>, value: Seq<char> },
    InvalidDateTime { field: Seq<char>, value: Seq<char> },
    InvalidIpAddress { field: Seq<char>, value: Seq<char> },
}

impl View for ParseCsvError {
    type V = CsvErrorView;

    open spec fn view(&self) -> CsvErrorView {
        match self {
            ParseCsvError::MissingHeader => CsvErrorView::MissingHeader,
            ParseCsvError::InvalidColumnCount { expected, found, line } => {
                CsvErrorView::InvalidColumnCount {
                    expected: *expected as nat,
                    found: *found as nat,
                    line: *line as nat,
                }
            },
            ParseCsvError::InvalidPrefix { field, expected_prefix, value } => {
                CsvErrorView::InvalidPrefix {
                    field: field@,
                    expected_prefix: expected_prefix@,
                    value: value@,
                }
            },
            ParseCsvError::InvalidNumber { field, value } => CsvErrorView::InvalidNumber {
                field: field@,
                value: value@,
            },
            ParseCsvError::InvalidFloat { field, value } => CsvErrorView::InvalidFloat {
                field: field@,
                value: value@,
            },
            ParseCsvError::InvalidEnumValue { field, value } => CsvErrorView::InvalidEnumValue {
                field: field@,
                value: value@,
            },
            ParseCsvError::InvalidDateTime { field, value } => CsvErrorView::InvalidDateTime {
                field: field@,
                value: value@,
            },
            ParseCsvError::InvalidIpAddress { field, value } => CsvErrorView::InvalidIpAddress {
                field: field@,
                value: value@,
            },
        }
    }
}

/// The message shown for an error.
pub open spec fn error_message(e: CsvErrorView) -> Seq<char> {
    match e {
        CsvErrorView::MissingHeader => "csv is missing a header row"@,
        CsvErrorView::InvalidColumnCount { expected, found, line } => "line "@ + decimal(line) + " has "@
            + decimal(found) + " columns, expected "@ + decimal(expected),
        CsvErrorView::InvalidPrefix { field, expected_prefix, value } => "field "@ + field + " must start with "@
            + expected_prefix + ", got "@ + value,
        CsvErrorView::InvalidNumber { field, value } => "field "@ + field + " must contain a valid number, got "@
            + value,
        CsvErrorView::InvalidFloat { field, value } => "field "@ + field + " must contain a valid float, got "@
            + value,
        CsvErrorView::InvalidEnumValue { field, value } => "field "@ + field + " has unsupported value "@ + value,
        CsvErrorView::InvalidDateTime { field, value } => "field "@ + field
            + " must contain a valid datetime, got "@ + value,
        CsvErrorView::InvalidIpAddress { field, value } => "field "@ + field
            + " must contain a valid ip address, got "@ + value,
    }
}

impl ParseCsvError {
    /// The message shown for the error (see [`error_message`]).
    pub fn message(&self) -> (r: String)
        ensures
            r@ == error_message(self@),
    {
        let mut out = String::new();
        match self {
            ParseCsvError::MissingHeader => push_str(&mut out, "csv is missing a header row"),
            ParseCsvError::InvalidColumnCount { expected, found, line } => {
                push_str(&mut out, "line ");
                push_decimal(&mut out, *line as u64);
                push_str(&mut out, " has ");
                push_decimal(&mut out, *found as u64);
                push_str(&mut out, " columns, expected ");
                push_decimal(&mut out, *expected as u64);
            },
            ParseCsvError::InvalidPrefix { field, expected_prefix, value } => {
                push_str(&mut out, "field ");
                push_str(&mut out, field);
                push_str(&mut out, " must start with ");
                push_str(&mut out, expected_prefix);
                push_str(&mut out, ", got ");
                push_str(&mut out, value.as_str());
            },
            ParseCsvError::InvalidNumber { field, value } => {
                push_str(&mut out, "field ");
                push_str(&mut out, field);
                push_str(&mut out, " must contain a valid number, got ");
                push_str(&mut out, value.as_str());
            },
            ParseCsvError::InvalidFloat { field, value } => {
                push_str(&mut out, "field ");
                push_str(&mut out, field);
                push_str(&mut out, " must contain a valid float, got ");
                push_str(&mut out, value.as_str());
            },
            ParseCsvError::InvalidEnumValue { field, value } => {
                push_str(&mut out, "field ");
                push_str(&mut out, field);
                push_str(&mut out, " has unsupported value ");
                push_str(&mut out, value.as_str());
            },
            ParseCsvError::InvalidDateTime { field, value } => {
                push_str(&mut out, "field ");
                push_str(&mut out, field);
                push_str(&mut out, " must contain a valid datetime, got ");
                push_str(&mut out, value.as_str());
            },
            ParseCsvError::InvalidIpAddress { field, value } => {
                push_str(&mut out, "field ");
                push_str(&mut out, field);
                push_str(&mut out, " must contain a valid ip address, got ");
                push_str(&mut out, value.as_str());
            },
        }
        assert(out@ =~= error_message(self@));
        out
    }
}

} // verus!
