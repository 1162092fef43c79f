//! Errors of the table loader.

use crate::data::DataId;
use vstd::prelude::*;

verus! {

/// Why a cell, or a text taken from a cell, cannot be read as a value.
#[derive(Debug, Clone, PartialEq, Eq)]
#[allow(inconsistent_fields)]
pub enum ParseError {
    /// The cell or text is not of the form that the type is read from.
    InvalidFormat { type_label: String, expected: String, actual: String },
    /// The text names no variant of the enumeration.
    InvalidEnumValue { type_label: String, value: String },
    /// The integer lies outside the range of the type.
    OutOfRange { type_label: String, min: i64, max: i64, value: i64 },
    /// The row has fewer cells than the table has fields.
    InvalidColumnCount { expected: usize, actual: usize },
    /// The tuple has fewer items than the type has components.
    InvalidItemCount { type_label: String, expected: usize, actual: usize },
}

/// Why a link cannot be resolved.
#[derive(Debug, Clone, PartialEq, Eq)]
pub enum LinkError {
    /// The target table has no row of that id.
    Missing { type_label: String, id: DataId },
}

/// Which constraint a value breaks.
#[derive(Debug, Clone, PartialEq, Eq)]
#[allow(inconsistent_fields)]
pub enum ConstraintError {
    /// An earlier row has the same value.
    Unique { type_label: String, value: String },
    /// The value lies above the largest value allowed; both are given as
    /// they are written.
    Max { type_label: String, expected: String, actual: String },
    /// The value lies below the smallest value allowed.
    Min { type_label: String, expected: String, actual: String },
}

/// An error that aborts the loading of the tables.
#[derive(Debug, Clone, PartialEq, Eq)]
#[allow(inconsistent_fields)]
pub enum Error {
    /// A cell of a row cannot be read. `row` counts the rows of the sheet
    /// from one, header rows included; `column` names the field, and is
    /// empty where the row as a whole is at fault.
    Parse { workbook: String, sheet: String, row: usize, column: String, error: ParseError },
    /// A link of the row with that id cannot be resolved.
    Link { workbook: String, sheet: String, id: DataId, error: LinkError },
    /// Two rows of a table, or of the tables below an abstract table, have
    /// the same id: `a` is the one that is held, `b` the one that is
    /// refused, both as they are written.
    DuplicateId { type_label: String, id: DataId, a: String, b: String },
    /// A value of a row breaks a constraint of its field.
    Constraint {
        workbook: String,
        sheet: String,
        row: usize,
        column: String,
        error: ConstraintError,
    },
}

/// The mathematical content of a `ParseError`.
#[allow(inconsistent_fields)]
pub enum ParseErrorView {
    InvalidFormat { type_label: Seq<char>, expected: Seq<char>, actual: Seq<char> },
    InvalidEnumValue { type_label: Seq<char>, value: Seq<char> },
    OutOfRange { type_label: Seq<char>, min: i64, max: i64, value: i64 },
    InvalidColumnCount { expected: usize, actual: usize },
    InvalidItemCount { type_label: Seq<char>, expected: usize, actual: usize },
}

/// The mathematical content of a `LinkError`.
pub enum LinkErrorView {
    Missing { type_label: Seq<char>, id: u32 },
}

/// The mathematical content of a `ConstraintError`.
#[allow(inconsistent_fields)]
pub enum ConstraintErrorView {
    Unique { type_label: Seq<char>, value: Seq<char> },
    Max { type_label: Seq<char>, expected: Seq<char>, actual: Seq<char> },
    Min { type_label: Seq<char>, expected: Seq<char>, actual: Seq<char> },
}

/// The mathematical content of an `Error`.
#[allow(inconsistent_fields)]
pub enum ErrorView {
    Parse {
        workbook: Seq<char>,
        sheet: Seq<char>,
        row: usize,
        column: Seq<char>,
        error: ParseErrorView,
    },
    Link { workbook: Seq<char>, sheet: Seq<char>, id: u32, error: LinkErrorView },
    DuplicateId { type_label: Seq<char>, id: u32, a: Seq<char>, b: Seq<char> },
    Constraint {
        workbook: Seq<char>,
        sheet: Seq<char>,
        row: usize,
        column: Seq<char>,
        error: ConstraintErrorView,
    },
}

impl View for ParseError {
    type V = ParseErrorView;

    open spec fn view(&self) -> ParseErrorView {
        match *self {
            ParseError::InvalidFormat { type_label, expected, actual } => {
                ParseErrorView::InvalidFormat {
                    type_label: type_label@,
                    expected: expected@,
                    actual: actual@,
                }
            },
            ParseError::InvalidEnumValue { type_label, value } => ParseErrorView::InvalidEnumValue {
                type_label: type_label@,
                value: value@,
            },
            ParseError::OutOfRange { type_label, min, max, value } => ParseErrorView::OutOfRange {
                type_label: type_label@,
                min,
                max,
                value,
            },
            ParseError::InvalidColumnCount { expected, actual } => {
                ParseErrorView::InvalidColumnCount { expected, actual }
            },
            ParseError::InvalidItemCount { type_label, expected, actual } => {
                ParseErrorView::InvalidItemCount { type_label: type_label@, expected, actual }
            },
        }
    }
}

impl View for LinkError {
    type V = LinkErrorView;

    open spec fn view(&self) -> LinkErrorView {
        match *self {
            LinkError::Missing { type_label, id } => LinkErrorView::Missing {
                type_label: type_label@,
                id: id.0,
            },
        }
    }
}

impl View for ConstraintError {
    type V = ConstraintErrorView;

    open spec fn view(&self) -> ConstraintErrorView {
        match *self {
            ConstraintError::Unique { type_label, value } => ConstraintErrorView::Unique {
                type_label: type_label@,
                value: value@,
            },
            ConstraintError::Max { type_label, expected, actual } => ConstraintErrorView::Max {
                type_label: type_label@,
                expected: expected@,
                actual: actual@,
            },
            ConstraintError::Min { type_label, expected, actual } => ConstraintErrorView::Min {
                type_label: type_label@,
                expected: expected@,
                actual: actual@,
            },
        }
    }
}

impl View for Error {
    type V = ErrorView;

    open spec fn view(&self) -> ErrorView {
        match *self {
            Error::Parse { workbook, sheet, row, column, error } => ErrorView::Parse {
                workbook: workbook@,
                sheet: sheet@,
                row,
                column: column@,
                error: error@,
            },
            Error::Link { workbook, sheet, id, error } => ErrorView::Link {
                workbook: workbook@,
                sheet: sheet@,
                id: id.0,
                error: error@,
            },
            Error::DuplicateId { type_label, id, a, b } => ErrorView::DuplicateId {
                type_label: type_label@,
                id: id.0,
                a: a@,
                b: b@,
            },
            Error::Constraint { workbook, sheet, row, column, error } => ErrorView::Constraint {
                workbook: workbook@,
                sheet: sheet@,
                row,
                column: column@,
                error: error@,
            },
        }
    }
}

} // verus!
