//! The cells of a sheet.

use calamine::DataType;
use vstd::prelude::*;
use vstd::string::StringExecFns;

verus! {

/// A typed cell of a sheet.
///
/// A floating-point cell holds what is read from it: the number as text, and
/// the integer the number is cut down to. A cell of another kind, such as a
/// date or an error, holds what it is written as; nothing is read from it.
#[derive(Debug, Clone, PartialEq, Eq)]
pub enum Cell {
    Int(i64),
    Float { text: String, truncated: i64 },
    Text(String),
    Bool(bool),
    Other(String),
    Empty,
}

/// The mathematical content of a `Cell`.
pub enum CellView {
    Int(i64),
    Float { text: Seq<char>, truncated: i64 },
    Text(Seq<char>),
    Bool(bool),
    Other(Seq<char>),
    Empty,
}

impl View for Cell {
    type V = CellView;

    open spec fn view(&self) -> CellView {
        match *self {
            Cell::Int(v) => CellView::Int(v),
            Cell::Float { text, truncated } => CellView::Float { text: text@, truncated },
            Cell::Text(s) => CellView::Text(s@),
            Cell::Bool(b) => CellView::Bool(b),
            Cell::Other(s) => CellView::Other(s@),
            Cell::Empty => CellView::Empty,
        }
    }
}

/// The views of the cells of a row.
pub open spec fn row_view(row: Seq<Cell>) -> Seq<CellView> {
    row.map_values(|c: Cell| c@)
}

/// The views of the rows of a sheet.
pub open spec fn sheet_view(rows: Seq<Vec<Cell>>) -> Seq<Seq<CellView>> {
    rows.map_values(|r: Vec<Cell>| row_view(r@))
}

/// The integer that `calamine::DataType::as_i64` reads from a string cell
/// with this text, if it reads one.
pub uninterp spec fn text_as_i64(s: Seq<char>) -> Option<i64>;

/// The character of a digit.
pub open spec fn digit_char(d: int) -> char {
    ((48 + d) as u8) as char
}

/// The digits that write a natural number in decimal.
pub open spec fn natural_text(n: nat) -> Seq<char>
    decreases n,
{
    if n < 10 {
        seq![digit_char(n as int)]
    } else {
        natural_text(n / 10).push(digit_char((n % 10) as int))
    }
}

/// The text that an integer is written as in decimal: its digits, behind a
/// minus sign if it is negative.
pub open spec fn decimal_text(v: int) -> Seq<char> {
    if v < 0 {
        seq!['-'] + natural_text((-v) as nat)
    } else {
        natural_text(v as nat)
    }
}

/// Calls `calamine::DataType::as_i64` on a string cell with the text `s`.
/// What it reads depends on the text alone and is known as `text_as_i64`.
#[verifier::external_body]
fn string_cell_as_i64(s: &str) -> (r: Option<i64>)
    ensures
        r == text_as_i64(s@),
{
    calamine::Data::String(s.to_owned()).as_i64()
}

/// The integer written in decimal.
pub fn integer_text(v: i128) -> (r: String)
    ensures
        r@ == decimal_text(v as int),
{
    let negative = v < 0;
    let start: u128 = if negative {
        (-(v + 1)) as u128 + 1
    } else {
        v as u128
    };
    let mut digits: Vec<char> = Vec::new();
    digits.push(((48 + (start % 10) as u8) as u8) as char);
    let mut n: u128 = start / 10;
    assert(digits@ =~= seq![digit_char((start % 10) as int)]);
    while n > 0
        invariant
            natural_text(start as nat) == (if n == 0 {
                Seq::<char>::empty()
            } else {
                natural_text(n as nat)
            }) + digits@,
        decreases n,
    {
        let ghost before = digits@;
        digits.insert(0, ((48 + (n % 10) as u8) as u8) as char);
        proof {
            let d = digit_char((n % 10) as int);
            assert(digits@ =~= seq![d] + before);
            if n < 10 {
                assert(natural_text(n as nat) =~= seq![d]);
                assert(Seq::<char>::empty() + digits@ =~= natural_text(n as nat) + before);
            } else {
                assert(natural_text((n / 10) as nat) + digits@ =~= natural_text(n as nat) + before);
            }
        }
        n = n / 10;
    }
    assert(Seq::<char>::empty() + digits@ =~= digits@);
    if negative {
        let ghost before = digits@;
        digits.insert(0, '-');
        assert(digits@ =~= seq!['-'] + before);
    }
    crate::text::text_of(&digits)
}

impl CellView {
    /// The integer read from the cell: the integer of an integer cell, the
    /// cut-down number of a floating-point cell, 0 or 1 for a boolean, and
    /// what `text_as_i64` reads from a text.
    pub open spec fn as_i64(self) -> Option<i64> {
        match self {
            CellView::Int(v) => Some(v),
            CellView::Float { truncated, .. } => Some(truncated),
            CellView::Bool(b) => Some(if b { 1i64 } else { 0i64 }),
            CellView::Text(s) => text_as_i64(s),
            CellView::Other(_) => None,
            CellView::Empty => None,
        }
    }

    /// The text of a text cell.
    pub open spec fn get_string(self) -> Option<Seq<char>> {
        match self {
            CellView::Text(s) => Some(s),
            _ => None,
        }
    }

    /// The boolean of a boolean cell.
    pub open spec fn get_bool(self) -> Option<bool> {
        match self {
            CellView::Bool(b) => Some(b),
            _ => None,
        }
    }

    /// The cell written out: the empty text for an empty cell.
    pub open spec fn text(self) -> Seq<char> {
        match self {
            CellView::Int(v) => decimal_text(v as int),
            CellView::Float { text, .. } => text,
            CellView::Text(s) => s,
            CellView::Bool(b) => if b { "true"@ } else { "false"@ },
            CellView::Other(s) => s,
            CellView::Empty => Seq::empty(),
        }
    }
}

impl Cell {
    /// Whether the cell is empty.
    pub fn is_empty(&self) -> (r: bool)
        ensures
            r == (self@ == CellView::Empty),
    {
        match self {
            Cell::Empty => true,
            _ => false,
        }
    }

    /// The integer read from the cell, if one can be read.
    pub fn as_i64(&self) -> (r: Option<i64>)
        ensures
            r == self@.as_i64(),
    {
        match self {
            Cell::Int(v) => Some(*v),
            Cell::Float { truncated, .. } => Some(*truncated),
            Cell::Bool(b) => Some(if *b { 1 } else { 0 }),
            Cell::Text(s) => string_cell_as_i64(s.as_str()),
            Cell::Other(_) => None,
            Cell::Empty => None,
        }
    }

    /// The text of a text cell.
    pub fn get_string(&self) -> (r: Option<&str>)
        ensures
            match r {
                Some(s) => self@.get_string() == Some(s@),
                None => self@.get_string() is None,
            },
    {
        match self {
            Cell::Text(s) => Some(s.as_str()),
            _ => None,
        }
    }

    /// The boolean of a boolean cell.
    pub fn get_bool(&self) -> (r: Option<bool>)
        ensures
            r == self@.get_bool(),
    {
        match self {
            Cell::Bool(b) => Some(*b),
            _ => None,
        }
    }

    /// The cell written out.
    pub fn to_text(&self) -> (r: String)
        ensures
            r@ == self@.text(),
    {
        match self {
            Cell::Int(v) => integer_text(*v as i128),
            Cell::Float { text, .. } => text.clone(),
            Cell::Text(s) => s.clone(),
            Cell::Bool(b) => if *b {
                String::from_str("true")
            } else {
                String::from_str("false")
            },
            Cell::Other(s) => s.clone(),
            Cell::Empty => String::new(),
        }
    }
}

} // verus!
