//! Reading cells, and texts taken from cells, as typed values.
//!
//! A field that holds its value once is read from the cell as a whole. The
//! components of a tuple and the items of a multi field are read from the
//! texts that the cell's text is parted into.

use crate::data::cell::{Cell, CellView};
use crate::data::error::{ParseError, ParseErrorView};
use crate::data::number::{integer_in_range, parse_integer};
use crate::data::plan::{Cardinality, ElementPlan, FieldPlan, KindPlan, TablePlan};
use crate::data::value::{
    elements_view, scalars_view, values_view, Element, ElementView, Row, RowView, Scalar,
    ScalarView, Value, ValueView,
};
use crate::data::{DataId, Link};
use crate::generator::table::ScalarAllType;
use crate::generator::{find_text, position_of};
use crate::text::{
    chars_of,
    pieces_view,
    same_text,
    split,
    split_spec,
    text_of,
    trim,
    trim_spec,
    views,
};
use vstd::prelude::*;
use vstd::string::StringExecFns;

verus! {

/// The name of a scalar type, as generated code and errors cite it.
pub open spec fn scalar_label(t: ScalarAllType) -> Seq<char> {
    match t {
        ScalarAllType::Id => "DataId"@,
        ScalarAllType::Bool => "bool"@,
        ScalarAllType::Int8 => "i8"@,
        ScalarAllType::Int16 => "i16"@,
        ScalarAllType::Int32 => "i32"@,
        ScalarAllType::Int64 => "i64"@,
        ScalarAllType::Uint8 => "u8"@,
        ScalarAllType::Uint16 => "u16"@,
        ScalarAllType::Uint32 => "u32"@,
        ScalarAllType::Uint64 => "u64"@,
        ScalarAllType::Float32 => "f32"@,
        ScalarAllType::Float64 => "f64"@,
        ScalarAllType::String => "String"@,
        ScalarAllType::Datetime => "chrono::DateTime"@,
        ScalarAllType::Duration => "chrono::Duration"@,
    }
}

/// Whether values of the type are integers.
pub open spec fn is_integer_type(t: ScalarAllType) -> bool {
    match t {
        ScalarAllType::Id
        | ScalarAllType::Int8
        | ScalarAllType::Int16
        | ScalarAllType::Int32
        | ScalarAllType::Int64
        | ScalarAllType::Uint8
        | ScalarAllType::Uint16
        | ScalarAllType::Uint32
        | ScalarAllType::Uint64 => true,
        _ => false,
    }
}

/// Whether values of the type are floating-point numbers.
pub open spec fn is_float_type(t: ScalarAllType) -> bool {
    t == ScalarAllType::Float32 || t == ScalarAllType::Float64
}

/// The type that an error names when a cell holds no integer.
pub open spec fn cell_format_label(t: ScalarAllType) -> Seq<char> {
    scalar_label(t)
}

/// The range that an integer read from a cell is held to, with the name of
/// the type whose range it is: the range of the type, as far as a cell can
/// hold it.
pub open spec fn cell_range(t: ScalarAllType) -> Option<(Seq<char>, i64, i64)> {
    match t {
        ScalarAllType::Id => Some(("u32"@, 0i64, 0xffff_ffffi64)),
        ScalarAllType::Int8 => Some(("i8"@, -128i64, 127i64)),
        ScalarAllType::Int16 => Some(("i16"@, -32768i64, 32767i64)),
        ScalarAllType::Int32 => Some(("i32"@, -2147483648i64, 2147483647i64)),
        ScalarAllType::Uint8 => Some(("u8"@, 0i64, 0xffi64)),
        ScalarAllType::Uint16 => Some(("u16"@, 0i64, 0xffffi64)),
        ScalarAllType::Uint32 => Some(("u32"@, 0i64, 0xffff_ffffi64)),
        ScalarAllType::Uint64 => Some(("u64"@, 0i64, 0x7fff_ffff_ffff_ffffi64)),
        _ => None,
    }
}

/// The value of an integer type that the integer `v`, read from a cell,
/// stands for.
pub open spec fn cell_integer(t: ScalarAllType, v: i64) -> ScalarView {
    match t {
        ScalarAllType::Id => ScalarView::Id(v as u32),
        ScalarAllType::Uint8
        | ScalarAllType::Uint16
        | ScalarAllType::Uint32
        | ScalarAllType::Uint64 => ScalarView::Uint(v as u64),
        _ => ScalarView::Int(v),
    }
}

/// `Ok` where `value` lies between `min` and `max`.
pub open spec fn check_range_spec(type_label: Seq<char>, value: i64, min: i64, max: i64) -> Result<
    (),
    ParseErrorView,
> {
    if min <= value <= max {
        Ok(())
    } else {
        Err(ParseErrorView::OutOfRange { type_label, min, max, value })
    }
}

/// The integer that a cell holds.
pub open spec fn to_integer_spec(type_label: Seq<char>, cell: CellView) -> Result<
    i64,
    ParseErrorView,
> {
    match cell.as_i64() {
        Some(v) => Ok(v),
        None => Err(
            ParseErrorView::InvalidFormat {
                type_label,
                expected: "integer"@,
                actual: cell.text(),
            },
        ),
    }
}

/// The value of a scalar type that a cell holds.
pub open spec fn scalar_of_cell(t: ScalarAllType, cell: CellView) -> Result<
    ScalarView,
    ParseErrorView,
> {
    if is_integer_type(t) {
        match to_integer_spec(cell_format_label(t), cell) {
            Err(e) => Err(e),
            Ok(v) => match cell_range(t) {
                None => Ok(cell_integer(t, v)),
                Some((label, min, max)) => match check_range_spec(label, v, min, max) {
                    Err(e) => Err(e),
                    Ok(_) => Ok(cell_integer(t, v)),
                },
            },
        }
    } else if t == ScalarAllType::Bool {
        match cell.get_bool() {
            Some(b) => Ok(ScalarView::Bool(b)),
            None => Err(
                ParseErrorView::InvalidFormat {
                    type_label: "bool"@,
                    expected: "bool"@,
                    actual: cell.text(),
                },
            ),
        }
    } else if t == ScalarAllType::String {
        match cell.get_string() {
            Some(s) => Ok(ScalarView::Text(trim_spec(s))),
            None => Err(
                ParseErrorView::InvalidFormat {
                    type_label: "String"@,
                    expected: "string"@,
                    actual: cell.text(),
                },
            ),
        }
    } else if is_float_type(t) {
        if cell == CellView::Empty || cell is Other {
            Err(
                ParseErrorView::InvalidFormat {
                    type_label: scalar_label(t),
                    expected: "float"@,
                    actual: cell.text(),
                },
            )
        } else {
            Ok(ScalarView::Float(cell.text()))
        }
    } else {
        Err(
            ParseErrorView::InvalidFormat {
                type_label: scalar_label(t),
                expected: "supported type"@,
                actual: cell.text(),
            },
        )
    }
}

/// The type that an error names when a text writes no integer.
pub open spec fn text_format_label(t: ScalarAllType) -> Seq<char> {
    match t {
        ScalarAllType::Id => "u32"@,
        _ => scalar_label(t),
    }
}

/// Whether an integer type takes a minus sign, and its range.
pub open spec fn text_range(t: ScalarAllType) -> (bool, int, int) {
    match t {
        ScalarAllType::Int8 => (true, -128, 127),
        ScalarAllType::Int16 => (true, -32768, 32767),
        ScalarAllType::Int32 => (true, -2147483648, 2147483647),
        ScalarAllType::Int64 => (true, -0x8000_0000_0000_0000, 0x7fff_ffff_ffff_ffff),
        ScalarAllType::Uint8 => (false, 0, 0xff),
        ScalarAllType::Uint16 => (false, 0, 0xffff),
        ScalarAllType::Uint64 => (false, 0, 0xffff_ffff_ffff_ffff),
        _ => (false, 0, 0xffff_ffff),
    }
}

/// The value of an integer type that the integer `v`, written in a text,
/// stands for.
pub open spec fn text_integer(t: ScalarAllType, v: int) -> ScalarView {
    match t {
        ScalarAllType::Id => ScalarView::Id(v as u32),
        ScalarAllType::Uint8
        | ScalarAllType::Uint16
        | ScalarAllType::Uint32
        | ScalarAllType::Uint64 => ScalarView::Uint(v as u64),
        _ => ScalarView::Int(v as i64),
    }
}

/// The value of a scalar type that a text writes.
pub open spec fn scalar_of_text(t: ScalarAllType, s: Seq<char>) -> Result<
    ScalarView,
    ParseErrorView,
> {
    if is_integer_type(t) {
        match integer_in_range(s, text_range(t).0, text_range(t).1, text_range(t).2) {
            Some(v) => Ok(text_integer(t, v)),
            None => Err(
                ParseErrorView::InvalidFormat {
                    type_label: text_format_label(t),
                    expected: "integer"@,
                    actual: s,
                },
            ),
        }
    } else if t == ScalarAllType::Bool {
        if s == "true"@ {
            Ok(ScalarView::Bool(true))
        } else if s == "false"@ {
            Ok(ScalarView::Bool(false))
        } else {
            Err(
                ParseErrorView::InvalidFormat {
                    type_label: "bool"@,
                    expected: "bool"@,
                    actual: s,
                },
            )
        }
    } else if t == ScalarAllType::String {
        Ok(ScalarView::Text(s))
    } else if is_float_type(t) {
        Ok(ScalarView::Float(s))
    } else {
        Err(
            ParseErrorView::InvalidFormat {
                type_label: scalar_label(t),
                expected: "supported type"@,
                actual: s,
            },
        )
    }
}

/// The variant of an enumeration that a text names: the first variant of
/// exactly that name.
pub open spec fn variant_of_text(label: Seq<char>, variants: Seq<Seq<char>>, s: Seq<char>) -> Result<
    ScalarView,
    ParseErrorView,
> {
    match position_of(variants, s) {
        Some(i) => if i <= u32::MAX {
            Ok(ScalarView::Enum(i as u32))
        } else {
            Err(ParseErrorView::InvalidEnumValue { type_label: label, value: s })
        },
        None => Err(ParseErrorView::InvalidEnumValue { type_label: label, value: s }),
    }
}

/// The id that a cell holds: an integer that an unsigned 32-bit number can
/// hold.
pub open spec fn id_of_cell(cell: CellView) -> Result<u32, ParseErrorView> {
    match to_integer_spec("DataId"@, cell) {
        Err(e) => Err(e),
        Ok(v) => match check_range_spec("u32"@, v, 0i64, 0xffff_ffffi64) {
            Err(e) => Err(e),
            Ok(_) => Ok(v as u32),
        },
    }
}

/// The id that a text writes in decimal.
pub open spec fn id_of_text(s: Seq<char>) -> Result<u32, ParseErrorView> {
    match integer_in_range(s, false, 0, 0xffff_ffff) {
        Some(v) => Ok(v as u32),
        None => Err(
            ParseErrorView::InvalidFormat { type_label: "u32"@, expected: "integer"@, actual: s },
        ),
    }
}

/// The unresolved link to the row of an id.
pub open spec fn link_to(id: Result<u32, ParseErrorView>) -> Result<ScalarView, ParseErrorView> {
    match id {
        Ok(v) => Ok(ScalarView::Link(Link::Unresolved(DataId(v)))),
        Err(e) => Err(e),
    }
}

/// The scalar that a text writes.
pub open spec fn element_of_text(plan: ElementPlan, s: Seq<char>) -> Result<
    ScalarView,
    ParseErrorView,
> {
    match plan {
        ElementPlan::Scalar(t) => scalar_of_text(t, s),
        ElementPlan::Enum { label, variants } => variant_of_text(label@, views(variants@), s),
        ElementPlan::Link { .. } => link_to(id_of_text(s)),
    }
}

/// The scalar that a cell holds.
pub open spec fn element_of_cell(plan: ElementPlan, cell: CellView) -> Result<
    ScalarView,
    ParseErrorView,
> {
    match plan {
        ElementPlan::Scalar(t) => scalar_of_cell(t, cell),
        ElementPlan::Enum { label, variants } => match cell.get_string() {
            Some(s) => variant_of_text(label@, views(variants@), trim_spec(s)),
            None => Err(
                ParseErrorView::InvalidFormat {
                    type_label: "String"@,
                    expected: "string"@,
                    actual: cell.text(),
                },
            ),
        },
        ElementPlan::Link { .. } => link_to(id_of_cell(cell)),
    }
}

/// Whether a text begins with `open` and ends with `close`, two characters
/// at least.
pub open spec fn is_wrapped(s: Seq<char>, open: char, close: char) -> bool {
    s.len() >= 2 && s[0] == open && s.last() == close
}

/// What stands between the first and the last character of a text, without
/// the whitespace around it.
pub open spec fn unwrapped(s: Seq<char>) -> Seq<char> {
    trim_spec(s.subrange(1, s.len() - 1))
}

/// The items of a tuple written as `(a, b, ...)`: the texts between the
/// commas, each without the whitespace around it.
pub open spec fn tuple_items(s: Seq<char>) -> Result<Seq<Seq<char>>, ParseErrorView> {
    if is_wrapped(s, '(', ')') {
        Ok(split_spec(unwrapped(s), false).map_values(|p: Seq<char>| trim_spec(p)))
    } else {
        Err(
            ParseErrorView::InvalidFormat {
                type_label: "tuple"@,
                expected: "wrappers"@,
                actual: s,
            },
        )
    }
}

/// The components of a tuple, each read from the item at its position. The
/// first item that cannot be read decides the error.
pub open spec fn components_of_items(plans: Seq<ElementPlan>, items: Seq<Seq<char>>) -> Result<
    Seq<ScalarView>,
    ParseErrorView,
>
    decreases plans.len(),
{
    if plans.len() == 0 {
        Ok(Seq::empty())
    } else {
        match components_of_items(plans.drop_last(), items) {
            Err(e) => Err(e),
            Ok(found) => match element_of_text(plans.last(), items[plans.len() - 1]) {
                Err(e) => Err(e),
                Ok(v) => Ok(found.push(v)),
            },
        }
    }
}

/// The items of a tuple of `count` components: the items of the text, of
/// which there must be `count` at least.
pub open spec fn counted_tuple_items(s: Seq<char>, count: usize) -> Result<
    Seq<Seq<char>>,
    ParseErrorView,
> {
    match tuple_items(s) {
        Err(e) => Err(e),
        Ok(items) => if items.len() < count {
            Err(
                ParseErrorView::InvalidItemCount {
                    type_label: "tuple"@,
                    expected: count,
                    actual: items.len() as usize,
                },
            )
        } else {
            Ok(items)
        },
    }
}

/// The tuple that a text writes. Items beyond the components are ignored.
pub open spec fn tuple_of_text(plans: Seq<ElementPlan>, s: Seq<char>) -> Result<
    Seq<ScalarView>,
    ParseErrorView,
> {
    match counted_tuple_items(s, plans.len() as usize) {
        Err(e) => Err(e),
        Ok(items) => components_of_items(plans, items),
    }
}

/// What a field holds once, read from a text.
pub open spec fn kind_of_text(kind: KindPlan, s: Seq<char>) -> Result<ElementView, ParseErrorView> {
    match kind {
        KindPlan::One(plan) => match element_of_text(plan, s) {
            Ok(v) => Ok(ElementView::One(v)),
            Err(e) => Err(e),
        },
        KindPlan::Tuple(plans) => match tuple_of_text(plans@, s) {
            Ok(v) => Ok(ElementView::Tuple(v)),
            Err(e) => Err(e),
        },
    }
}

/// What a field holds once, read from a cell.
pub open spec fn kind_of_cell(kind: KindPlan, cell: CellView) -> Result<
    ElementView,
    ParseErrorView,
> {
    match kind {
        KindPlan::One(plan) => match element_of_cell(plan, cell) {
            Ok(v) => Ok(ElementView::One(v)),
            Err(e) => Err(e),
        },
        KindPlan::Tuple(plans) => match cell.get_string() {
            None => Err(
                ParseErrorView::InvalidFormat {
                    type_label: "tuple"@,
                    expected: "string"@,
                    actual: cell.text(),
                },
            ),
            Some(s) => match tuple_of_text(plans@, trim_spec(s)) {
                Ok(v) => Ok(ElementView::Tuple(v)),
                Err(e) => Err(e),
            },
        },
    }
}

/// The items of a list written as `[a, b, ...]`: the texts between the
/// commas that stand outside all parentheses, each without the whitespace
/// around it. Nothing after the last comma is no item.
pub open spec fn multi_items(s: Seq<char>) -> Result<Seq<Seq<char>>, ParseErrorView> {
    if is_wrapped(s, '[', ']') {
        let parts = split_spec(unwrapped(s), true);
        let kept = if parts.last().len() == 0 {
            parts.drop_last()
        } else {
            parts
        };
        Ok(kept.map_values(|p: Seq<char>| trim_spec(p)))
    } else {
        Err(
            ParseErrorView::InvalidFormat {
                type_label: "array"@,
                expected: "wrappers"@,
                actual: s,
            },
        )
    }
}

/// Every item read as what the field holds once. The first item that cannot
/// be read decides the error.
pub open spec fn elements_of_items(kind: KindPlan, items: Seq<Seq<char>>) -> Result<
    Seq<ElementView>,
    ParseErrorView,
>
    decreases items.len(),
{
    if items.len() == 0 {
        Ok(Seq::empty())
    } else {
        match elements_of_items(kind, items.drop_last()) {
            Err(e) => Err(e),
            Ok(found) => match kind_of_text(kind, items.last()) {
                Err(e) => Err(e),
                Ok(v) => Ok(found.push(v)),
            },
        }
    }
}

/// The list that a cell holds.
pub open spec fn multi_of_cell(kind: KindPlan, cell: CellView) -> Result<
    Seq<ElementView>,
    ParseErrorView,
> {
    match cell.get_string() {
        None => Err(
            ParseErrorView::InvalidFormat {
                type_label: "array"@,
                expected: "string"@,
                actual: cell.text(),
            },
        ),
        Some(s) => match multi_items(trim_spec(s)) {
            Err(e) => Err(e),
            Ok(items) => elements_of_items(kind, items),
        },
    }
}

/// The value of a field that a cell holds: an empty cell is the absent value
/// of an optional field.
pub open spec fn value_of_cell(kind: KindPlan, cardinality: Cardinality, cell: CellView) -> Result<
    ValueView,
    ParseErrorView,
> {
    match cardinality {
        Cardinality::Single => match kind_of_cell(kind, cell) {
            Ok(v) => Ok(ValueView::Single(v)),
            Err(e) => Err(e),
        },
        Cardinality::Optional => if cell == CellView::Empty {
            Ok(ValueView::Optional(None))
        } else {
            match kind_of_cell(kind, cell) {
                Ok(v) => Ok(ValueView::Optional(Some(v))),
                Err(e) => Err(e),
            }
        },
        Cardinality::Multi => match multi_of_cell(kind, cell) {
            Ok(v) => Ok(ValueView::Multi(v)),
            Err(e) => Err(e),
        },
    }
}

/// The values of the fields, each read from the cell of its column. The
/// first field that cannot be read decides the error, which comes with the
/// field's name.
pub open spec fn values_of_row(fields: Seq<FieldPlan>, row: Seq<CellView>) -> Result<
    Seq<ValueView>,
    (Seq<char>, ParseErrorView),
>
    decreases fields.len(),
{
    if fields.len() == 0 {
        Ok(Seq::empty())
    } else {
        match values_of_row(fields.drop_last(), row) {
            Err(e) => Err(e),
            Ok(found) => match value_of_cell(
                fields.last().kind,
                fields.last().cardinality,
                row[fields.last().column as int],
            ) {
                Err(e) => Err((fields.last().name@, e)),
                Ok(v) => Ok(found.push(v)),
            },
        }
    }
}

/// The id of a row: the id that its first cell holds.
pub open spec fn id_of_row(fields_count: usize, row: Seq<CellView>) -> Result<
    u32,
    (Seq<char>, ParseErrorView),
> {
    if row.len() < fields_count {
        Err(
            (
                Seq::empty(),
                ParseErrorView::InvalidColumnCount {
                    expected: fields_count,
                    actual: row.len() as usize,
                },
            ),
        )
    } else if row.len() == 0 {
        Err((Seq::empty(), ParseErrorView::InvalidColumnCount { expected: 1, actual: 0 }))
    } else {
        match id_of_cell(row[0]) {
            Ok(id) => Ok(id),
            Err(e) => Err(("id"@, e)),
        }
    }
}

/// The row that the cells of a sheet's row hold: its id from the first cell,
/// then the values of the loaded fields. A row with fewer cells than the
/// table has fields is refused, with no column named.
pub open spec fn row_of_cells(plan: TablePlan, row: Seq<CellView>) -> Result<
    RowView,
    (Seq<char>, ParseErrorView),
> {
    match id_of_row(plan.fields_count, row) {
        Err(e) => Err(e),
        Ok(id) => match values_of_row(plan.fields@, row) {
            Err(e) => Err(e),
            Ok(values) => Ok(RowView { id, values }),
        },
    }
}

/// The name of a scalar type.
pub fn scalar_label_text(t: ScalarAllType) -> (r: &'static str)
    ensures
        r@ == scalar_label(t),
{
    match t {
        ScalarAllType::Id => "DataId",
        ScalarAllType::Bool => "bool",
        ScalarAllType::Int8 => "i8",
        ScalarAllType::Int16 => "i16",
        ScalarAllType::Int32 => "i32",
        ScalarAllType::Int64 => "i64",
        ScalarAllType::Uint8 => "u8",
        ScalarAllType::Uint16 => "u16",
        ScalarAllType::Uint32 => "u32",
        ScalarAllType::Uint64 => "u64",
        ScalarAllType::Float32 => "f32",
        ScalarAllType::Float64 => "f64",
        ScalarAllType::String => "String",
        ScalarAllType::Datetime => "chrono::DateTime",
        ScalarAllType::Duration => "chrono::Duration",
    }
}

/// An error for a cell or text that is not of the expected form.
fn invalid_format(type_label: &str, expected: &str, actual: String) -> (r: ParseError)
    ensures
        r@ == (ParseErrorView::InvalidFormat {
            type_label: type_label@,
            expected: expected@,
            actual: actual@,
        }),
{
    ParseError::InvalidFormat {
        type_label: String::from_str(type_label),
        expected: String::from_str(expected),
        actual,
    }
}

/// Checks that `value` lies between `min` and `max`.
pub fn check_range(value: i64, min: i64, max: i64, type_label: &str) -> (r: Result<(), ParseError>)
    ensures
        match r {
            Ok(_) => check_range_spec(type_label@, value, min, max) is Ok,
            Err(e) => check_range_spec(type_label@, value, min, max) == Err::<(), ParseErrorView>(
                e@,
            ),
        },
{
    if min <= value && value <= max {
        return Ok(());
    }
    Err(ParseError::OutOfRange { type_label: String::from_str(type_label), min, max, value })
}

/// The integer that a cell holds.
pub fn to_integer(cell: &Cell, type_label: &str) -> (r: Result<i64, ParseError>)
    ensures
        match r {
            Ok(v) => to_integer_spec(type_label@, cell@) == Ok::<i64, ParseErrorView>(v),
            Err(e) => to_integer_spec(type_label@, cell@) == Err::<i64, ParseErrorView>(e@),
        },
{
    match cell.as_i64() {
        Some(v) => Ok(v),
        None => Err(invalid_format(type_label, "integer", cell.to_text())),
    }
}

/// The value of an integer type that an integer read from a cell stands
/// for.
fn integer_from_cell(t: ScalarAllType, v: i64) -> (r: Scalar)
    requires
        is_integer_type(t),
        cell_range(t) matches Some((_, min, max)) ==> min <= v <= max,
    ensures
        r@ == cell_integer(t, v),
{
    match t {
        ScalarAllType::Id => Scalar::Id(DataId(v as u32)),
        ScalarAllType::Uint8
        | ScalarAllType::Uint16
        | ScalarAllType::Uint32
        | ScalarAllType::Uint64 => Scalar::Uint(v as u64),
        _ => Scalar::Int(v),
    }
}

/// The value of a scalar type that a cell holds.
pub fn parse_scalar(cell: &Cell, t: ScalarAllType) -> (r: Result<Scalar, ParseError>)
    ensures
        match r {
            Ok(v) => scalar_of_cell(t, cell@) == Ok::<ScalarView, ParseErrorView>(v@),
            Err(e) => scalar_of_cell(t, cell@) == Err::<ScalarView, ParseErrorView>(e@),
        },
{
    match t {
        ScalarAllType::Id
        | ScalarAllType::Int8
        | ScalarAllType::Int16
        | ScalarAllType::Int32
        | ScalarAllType::Int64
        | ScalarAllType::Uint8
        | ScalarAllType::Uint16
        | ScalarAllType::Uint32
        | ScalarAllType::Uint64 => {
            let v = match to_integer(cell, scalar_label_text(t)) {
                Err(e) => {
                    return Err(e);
                },
                Ok(v) => v,
            };
            let checked = match t {
                ScalarAllType::Id => check_range(v, 0, 0xffff_ffff, "u32"),
                ScalarAllType::Int8 => check_range(v, -128, 127, "i8"),
                ScalarAllType::Int16 => check_range(v, -32768, 32767, "i16"),
                ScalarAllType::Int32 => check_range(v, -2147483648, 2147483647, "i32"),
                ScalarAllType::Uint8 => check_range(v, 0, 0xff, "u8"),
                ScalarAllType::Uint16 => check_range(v, 0, 0xffff, "u16"),
                ScalarAllType::Uint32 => check_range(v, 0, 0xffff_ffff, "u32"),
                ScalarAllType::Uint64 => check_range(v, 0, 0x7fff_ffff_ffff_ffff, "u64"),
                _ => Ok(()),
            };
            match checked {
                Err(e) => Err(e),
                Ok(_) => Ok(integer_from_cell(t, v)),
            }
        },
        ScalarAllType::Bool => match cell.get_bool() {
            Some(b) => Ok(Scalar::Bool(b)),
            None => Err(invalid_format("bool", "bool", cell.to_text())),
        },
        ScalarAllType::String => match cell.get_string() {
            Some(s) => {
                let trimmed = trim(&chars_of(s));
                Ok(Scalar::Text(text_of(&trimmed)))
            },
            None => Err(invalid_format("String", "string", cell.to_text())),
        },
        ScalarAllType::Float32 | ScalarAllType::Float64 => {
            let numberless = match cell {
                Cell::Empty => true,
                Cell::Other(_) => true,
                _ => false,
            };
            if numberless {
                Err(invalid_format(scalar_label_text(t), "float", cell.to_text()))
            } else {
                Ok(Scalar::Float(cell.to_text()))
            }
        },
        _ => Err(invalid_format(scalar_label_text(t), "supported type", cell.to_text())),
    }
}

/// The value of a scalar type that a text writes.
pub fn parse_scalar_string(s: &str, t: ScalarAllType) -> (r: Result<Scalar, ParseError>)
    ensures
        match r {
            Ok(v) => scalar_of_text(t, s@) == Ok::<ScalarView, ParseErrorView>(v@),
            Err(e) => scalar_of_text(t, s@) == Err::<ScalarView, ParseErrorView>(e@),
        },
{
    match t {
        ScalarAllType::Id
        | ScalarAllType::Int8
        | ScalarAllType::Int16
        | ScalarAllType::Int32
        | ScalarAllType::Int64
        | ScalarAllType::Uint8
        | ScalarAllType::Uint16
        | ScalarAllType::Uint32
        | ScalarAllType::Uint64 => string_to_integer(s, t),
        ScalarAllType::Bool => {
            if same_text(s, "true") {
                Ok(Scalar::Bool(true))
            } else if same_text(s, "false") {
                Ok(Scalar::Bool(false))
            } else {
                Err(invalid_format("bool", "bool", String::from_str(s)))
            }
        },
        ScalarAllType::String => Ok(Scalar::Text(String::from_str(s))),
        ScalarAllType::Float32 | ScalarAllType::Float64 => Ok(Scalar::Float(String::from_str(s))),
        _ => Err(invalid_format(scalar_label_text(t), "supported type", String::from_str(s))),
    }
}

/// The value of an integer type that a text writes in decimal.
pub fn string_to_integer(s: &str, t: ScalarAllType) -> (r: Result<Scalar, ParseError>)
    requires
        is_integer_type(t),
    ensures
        match r {
            Ok(v) => scalar_of_text(t, s@) == Ok::<ScalarView, ParseErrorView>(v@),
            Err(e) => scalar_of_text(t, s@) == Err::<ScalarView, ParseErrorView>(e@),
        },
{
    let (signed, min, max): (bool, i128, i128) = match t {
        ScalarAllType::Int8 => (true, -128, 127),
        ScalarAllType::Int16 => (true, -32768, 32767),
        ScalarAllType::Int32 => (true, -2147483648, 2147483647),
        ScalarAllType::Int64 => (true, -0x8000_0000_0000_0000, 0x7fff_ffff_ffff_ffff),
        ScalarAllType::Uint8 => (false, 0, 0xff),
        ScalarAllType::Uint16 => (false, 0, 0xffff),
        ScalarAllType::Uint64 => (false, 0, 0xffff_ffff_ffff_ffff),
        _ => (false, 0, 0xffff_ffff),
    };
    match parse_integer(s, signed, min, max) {
        Some(v) => Ok(
            match t {
                ScalarAllType::Id => Scalar::Id(DataId(v as u32)),
                ScalarAllType::Uint8
                | ScalarAllType::Uint16
                | ScalarAllType::Uint32
                | ScalarAllType::Uint64 => Scalar::Uint(v as u64),
                _ => Scalar::Int(v as i64),
            },
        ),
        None => {
            let label = match t {
                ScalarAllType::Id => "u32",
                _ => scalar_label_text(t),
            };
            Err(invalid_format(label, "integer", String::from_str(s)))
        },
    }
}

/// What stands between the first and the last character of `v`, without
/// the whitespace around it, where `v` begins with `open` and ends with
/// `close`.
fn unwrap_text(v: &Vec<char>, open: char, close: char) -> (r: Option<Vec<char>>)
    ensures
        match r {
            Some(inner) => is_wrapped(v@, open, close) && inner@ == unwrapped(v@),
            None => !is_wrapped(v@, open, close),
        },
{
    if v.len() < 2 || v[0] != open || v[v.len() - 1] != close {
        return None;
    }
    let mut inner: Vec<char> = Vec::new();
    let mut i: usize = 1;
    while i < v.len() - 1
        invariant
            1 <= i <= v.len() - 1,
            inner@ == v@.subrange(1, i as int),
        decreases v.len() - i,
    {
        inner.push(v[i]);
        assert(v@.subrange(1, i as int).push(v@[i as int]) == v@.subrange(1, i + 1));
        i += 1;
    }
    Some(trim(&inner))
}

/// Every piece without the whitespace around it, as a string.
fn trimmed_texts(pieces: &Vec<Vec<char>>, count: usize) -> (r: Vec<String>)
    requires
        count <= pieces.len(),
    ensures
        views(r@) == pieces_view(pieces@).take(count as int).map_values(
            |p: Seq<char>| trim_spec(p),
        ),
{
    let mut out: Vec<String> = Vec::new();
    let mut i: usize = 0;
    while i < count
        invariant
            i <= count <= pieces.len(),
            out.len() == i,
            forall|k: int| 0 <= k < i ==> out@[k]@ == trim_spec(pieces@[k]@),
        decreases count - i,
    {
        let t = trim(&pieces[i]);
        out.push(text_of(&t));
        i += 1;
    }
    assert(views(out@) =~= pieces_view(pieces@).take(count as int).map_values(
        |p: Seq<char>| trim_spec(p),
    ));
    out
}

/// The items of a tuple of `count` components written as `(a, b, ...)`.
pub fn parse_tuple_string(s: &str, count: usize) -> (r: Result<Vec<String>, ParseError>)
    ensures
        match r {
            Ok(items) => counted_tuple_items(s@, count) == Ok::<Seq<Seq<char>>, ParseErrorView>(
                views(items@),
            ),
            Err(e) => counted_tuple_items(s@, count) == Err::<Seq<Seq<char>>, ParseErrorView>(e@),
        },
{
    let v = chars_of(s);
    let inner = match unwrap_text(&v, '(', ')') {
        None => {
            return Err(invalid_format("tuple", "wrappers", String::from_str(s)));
        },
        Some(inner) => inner,
    };
    let pieces = split(&inner, false);
    let items = trimmed_texts(&pieces, pieces.len());
    assert(pieces_view(pieces@).take(pieces.len() as int) == pieces_view(pieces@));
    if items.len() < count {
        return Err(
            ParseError::InvalidItemCount {
                type_label: String::from_str("tuple"),
                expected: count,
                actual: items.len(),
            },
        );
    }
    Ok(items)
}

/// The items of a list written as `[a, b, ...]`.
fn parse_multi_string(s: &Vec<char>) -> (r: Result<Vec<String>, ParseError>)
    ensures
        match r {
            Ok(items) => multi_items(s@) == Ok::<Seq<Seq<char>>, ParseErrorView>(views(items@)),
            Err(e) => multi_items(s@) == Err::<Seq<Seq<char>>, ParseErrorView>(e@),
        },
{
    let inner = match unwrap_text(s, '[', ']') {
        None => {
            return Err(invalid_format("array", "wrappers", text_of(s)));
        },
        Some(inner) => inner,
    };
    let pieces = split(&inner, true);
    let kept = if pieces[pieces.len() - 1].len() == 0 {
        pieces.len() - 1
    } else {
        pieces.len()
    };
    proof {
        let parts = pieces_view(pieces@);
        assert(parts.last() == pieces@[pieces.len() - 1]@);
        assert(parts.take(pieces.len() as int) == parts);
        assert(parts.take(pieces.len() - 1) == parts.drop_last());
    }
    Ok(trimmed_texts(&pieces, kept))
}

/// The variant of an enumeration that a text names.
fn parse_variant(s: &str, label: &String, variants: &Vec<String>) -> (r: Result<Scalar, ParseError>)
    ensures
        match r {
            Ok(v) => variant_of_text(label@, views(variants@), s@) == Ok::<
                ScalarView,
                ParseErrorView,
            >(v@),
            Err(e) => variant_of_text(label@, views(variants@), s@) == Err::<
                ScalarView,
                ParseErrorView,
            >(e@),
        },
{
    match find_text(variants, s) {
        Some(i) => {
            if i <= u32::MAX as usize {
                return Ok(Scalar::Enum(i as u32));
            }
            Err(ParseError::InvalidEnumValue { type_label: label.clone(), value: String::from_str(s) })
        },
        None => Err(
            ParseError::InvalidEnumValue { type_label: label.clone(), value: String::from_str(s) },
        ),
    }
}

impl DataId {
    /// The id that a cell holds.
    pub fn parse(cell: &Cell) -> (r: Result<DataId, ParseError>)
        ensures
            match r {
                Ok(id) => id_of_cell(cell@) == Ok::<u32, ParseErrorView>(id.0),
                Err(e) => id_of_cell(cell@) == Err::<u32, ParseErrorView>(e@),
            },
    {
        let v = match to_integer(cell, "DataId") {
            Err(e) => {
                return Err(e);
            },
            Ok(v) => v,
        };
        match check_range(v, 0, 0xffff_ffff, "u32") {
            Err(e) => Err(e),
            Ok(_) => Ok(DataId(v as u32)),
        }
    }

    /// The id that a text writes in decimal.
    pub fn parse_string(s: &str) -> (r: Result<DataId, ParseError>)
        ensures
            match r {
                Ok(id) => id_of_text(s@) == Ok::<u32, ParseErrorView>(id.0),
                Err(e) => id_of_text(s@) == Err::<u32, ParseErrorView>(e@),
            },
    {
        match parse_integer(s, false, 0, 0xffff_ffff) {
            Some(v) => Ok(DataId(v as u32)),
            None => Err(invalid_format("u32", "integer", String::from_str(s))),
        }
    }
}

/// The scalar that a text writes.
pub fn parse_element_string(s: &str, plan: &ElementPlan) -> (r: Result<Scalar, ParseError>)
    ensures
        match r {
            Ok(v) => element_of_text(*plan, s@) == Ok::<ScalarView, ParseErrorView>(v@),
            Err(e) => element_of_text(*plan, s@) == Err::<ScalarView, ParseErrorView>(e@),
        },
{
    match plan {
        ElementPlan::Scalar(t) => parse_scalar_string(s, *t),
        ElementPlan::Enum { label, variants } => parse_variant(s, label, variants),
        ElementPlan::Link { .. } => match DataId::parse_string(s) {
            Ok(id) => Ok(Scalar::Link(Link::Unresolved(id))),
            Err(e) => Err(e),
        },
    }
}

/// The scalar that a cell holds.
pub fn parse_element(cell: &Cell, plan: &ElementPlan) -> (r: Result<Scalar, ParseError>)
    ensures
        match r {
            Ok(v) => element_of_cell(*plan, cell@) == Ok::<ScalarView, ParseErrorView>(v@),
            Err(e) => element_of_cell(*plan, cell@) == Err::<ScalarView, ParseErrorView>(e@),
        },
{
    match plan {
        ElementPlan::Scalar(t) => parse_scalar(cell, *t),
        ElementPlan::Enum { label, variants } => match cell.get_string() {
            Some(s) => {
                let trimmed = text_of(&trim(&chars_of(s)));
                parse_variant(trimmed.as_str(), label, variants)
            },
            None => Err(invalid_format("String", "string", cell.to_text())),
        },
        ElementPlan::Link { .. } => match DataId::parse(cell) {
            Ok(id) => Ok(Scalar::Link(Link::Unresolved(id))),
            Err(e) => Err(e),
        },
    }
}

/// A fault among the first components is the fault of the tuple.
proof fn lemma_components_fault(plans: Seq<ElementPlan>, items: Seq<Seq<char>>, upto: int)
    requires
        0 <= upto <= plans.len(),
        components_of_items(plans.take(upto), items) is Err,
    ensures
        components_of_items(plans, items) == components_of_items(plans.take(upto), items),
    decreases plans.len() - upto,
{
    if upto < plans.len() {
        assert(plans.take(upto + 1).drop_last() == plans.take(upto));
        lemma_components_fault(plans, items, upto + 1);
    } else {
        assert(plans.take(upto) == plans);
    }
}

/// A fault among the first items is the fault of the list.
proof fn lemma_elements_fault(kind: KindPlan, items: Seq<Seq<char>>, upto: int)
    requires
        0 <= upto <= items.len(),
        elements_of_items(kind, items.take(upto)) is Err,
    ensures
        elements_of_items(kind, items) == elements_of_items(kind, items.take(upto)),
    decreases items.len() - upto,
{
    if upto < items.len() {
        assert(items.take(upto + 1).drop_last() == items.take(upto));
        lemma_elements_fault(kind, items, upto + 1);
    } else {
        assert(items.take(upto) == items);
    }
}

/// A fault among the first fields is the fault of the row.
proof fn lemma_values_fault(fields: Seq<FieldPlan>, row: Seq<CellView>, upto: int)
    requires
        0 <= upto <= fields.len(),
        values_of_row(fields.take(upto), row) is Err,
    ensures
        values_of_row(fields, row) == values_of_row(fields.take(upto), row),
    decreases fields.len() - upto,
{
    if upto < fields.len() {
        assert(fields.take(upto + 1).drop_last() == fields.take(upto));
        lemma_values_fault(fields, row, upto + 1);
    } else {
        assert(fields.take(upto) == fields);
    }
}

/// The tuple that a text writes.
fn parse_tuple_text(s: &str, plans: &Vec<ElementPlan>) -> (r: Result<Vec<Scalar>, ParseError>)
    ensures
        match r {
            Ok(v) => tuple_of_text(plans@, s@) == Ok::<Seq<ScalarView>, ParseErrorView>(
                scalars_view(v@),
            ),
            Err(e) => tuple_of_text(plans@, s@) == Err::<Seq<ScalarView>, ParseErrorView>(e@),
        },
{
    let items = match parse_tuple_string(s, plans.len()) {
        Err(e) => {
            return Err(e);
        },
        Ok(items) => items,
    };
    let mut found: Vec<Scalar> = Vec::new();
    let mut i: usize = 0;
    assert(scalars_view(found@) == Seq::<ScalarView>::empty());
    while i < plans.len()
        invariant
            i <= plans.len() <= items.len(),
            counted_tuple_items(s@, plans.len()) == Ok::<Seq<Seq<char>>, ParseErrorView>(
                views(items@),
            ),
            components_of_items(plans@.take(i as int), views(items@)) == Ok::<
                Seq<ScalarView>,
                ParseErrorView,
            >(scalars_view(found@)),
        decreases plans.len() - i,
    {
        proof {
            assert(plans@.take(i + 1).drop_last() == plans@.take(i as int));
            assert(plans@.take(i + 1).last() == plans@[i as int]);
        }
        match parse_element_string(items[i].as_str(), &plans[i]) {
            Err(e) => {
                proof {
                    lemma_components_fault(plans@, views(items@), i + 1);
                }
                return Err(e);
            },
            Ok(v) => {
                let ghost before = scalars_view(found@);
                found.push(v);
                assert(scalars_view(found@) == before.push(v@));
            },
        }
        i += 1;
    }
    assert(plans@.take(plans.len() as int) == plans@);
    Ok(found)
}

/// What a field holds once, read from a text.
pub fn parse_string(s: &str, kind: &KindPlan) -> (r: Result<Element, ParseError>)
    ensures
        match r {
            Ok(v) => kind_of_text(*kind, s@) == Ok::<ElementView, ParseErrorView>(v@),
            Err(e) => kind_of_text(*kind, s@) == Err::<ElementView, ParseErrorView>(e@),
        },
{
    match kind {
        KindPlan::One(plan) => match parse_element_string(s, plan) {
            Ok(v) => Ok(Element::One(v)),
            Err(e) => Err(e),
        },
        KindPlan::Tuple(plans) => match parse_tuple_text(s, plans) {
            Ok(v) => Ok(Element::Tuple(v)),
            Err(e) => Err(e),
        },
    }
}

/// What a field holds once, read from a cell.
pub fn parse(cell: &Cell, kind: &KindPlan) -> (r: Result<Element, ParseError>)
    ensures
        match r {
            Ok(v) => kind_of_cell(*kind, cell@) == Ok::<ElementView, ParseErrorView>(v@),
            Err(e) => kind_of_cell(*kind, cell@) == Err::<ElementView, ParseErrorView>(e@),
        },
{
    match kind {
        KindPlan::One(plan) => match parse_element(cell, plan) {
            Ok(v) => Ok(Element::One(v)),
            Err(e) => Err(e),
        },
        KindPlan::Tuple(plans) => match cell.get_string() {
            None => Err(invalid_format("tuple", "string", cell.to_text())),
            Some(s) => {
                let trimmed = text_of(&trim(&chars_of(s)));
                match parse_tuple_text(trimmed.as_str(), plans) {
                    Ok(v) => Ok(Element::Tuple(v)),
                    Err(e) => Err(e),
                }
            },
        },
    }
}

/// The value of an optional field: nothing for an empty cell.
pub fn parse_optional(cell: &Cell, kind: &KindPlan) -> (r: Result<Option<Element>, ParseError>)
    ensures
        match r {
            Ok(None) => cell@ == CellView::Empty,
            Ok(Some(v)) => cell@ != CellView::Empty && kind_of_cell(*kind, cell@) == Ok::<
                ElementView,
                ParseErrorView,
            >(v@),
            Err(e) => cell@ != CellView::Empty && kind_of_cell(*kind, cell@) == Err::<
                ElementView,
                ParseErrorView,
            >(e@),
        },
{
    if cell.is_empty() {
        return Ok(None);
    }
    match parse(cell, kind) {
        Ok(v) => Ok(Some(v)),
        Err(e) => Err(e),
    }
}

/// The values of a multi field, read from a cell that holds a list.
pub fn parse_multi(cell: &Cell, kind: &KindPlan) -> (r: Result<Vec<Element>, ParseError>)
    ensures
        match r {
            Ok(v) => multi_of_cell(*kind, cell@) == Ok::<Seq<ElementView>, ParseErrorView>(
                elements_view(v@),
            ),
            Err(e) => multi_of_cell(*kind, cell@) == Err::<Seq<ElementView>, ParseErrorView>(e@),
        },
{
    let s = match cell.get_string() {
        None => {
            return Err(invalid_format("array", "string", cell.to_text()));
        },
        Some(s) => s,
    };
    let trimmed = trim(&chars_of(s));
    let items = match parse_multi_string(&trimmed) {
        Err(e) => {
            return Err(e);
        },
        Ok(items) => items,
    };
    let mut found: Vec<Element> = Vec::new();
    let mut i: usize = 0;
    assert(elements_view(found@) == Seq::<ElementView>::empty());
    while i < items.len()
        invariant
            i <= items.len(),
            cell@.get_string() is Some,
            multi_items(trim_spec(cell@.get_string()->0)) == Ok::<Seq<Seq<char>>, ParseErrorView>(
                views(items@),
            ),
            elements_of_items(*kind, views(items@).take(i as int)) == Ok::<
                Seq<ElementView>,
                ParseErrorView,
            >(elements_view(found@)),
        decreases items.len() - i,
    {
        proof {
            assert(views(items@).take(i + 1).drop_last() == views(items@).take(i as int));
            assert(views(items@).take(i + 1).last() == items@[i as int]@);
        }
        match parse_string(items[i].as_str(), kind) {
            Err(e) => {
                proof {
                    lemma_elements_fault(*kind, views(items@), i + 1);
                }
                return Err(e);
            },
            Ok(v) => {
                let ghost before = elements_view(found@);
                found.push(v);
                assert(elements_view(found@) == before.push(v@));
            },
        }
        i += 1;
    }
    assert(views(items@).take(items.len() as int) == views(items@));
    Ok(found)
}

/// The value of a field that a cell holds.
pub fn parse_value(cell: &Cell, field: &FieldPlan) -> (r: Result<Value, ParseError>)
    ensures
        match r {
            Ok(v) => value_of_cell(field.kind, field.cardinality, cell@) == Ok::<
                ValueView,
                ParseErrorView,
            >(v@),
            Err(e) => value_of_cell(field.kind, field.cardinality, cell@) == Err::<
                ValueView,
                ParseErrorView,
            >(e@),
        },
{
    match field.cardinality {
        Cardinality::Single => match parse(cell, &field.kind) {
            Ok(v) => Ok(Value::Single(v)),
            Err(e) => Err(e),
        },
        Cardinality::Optional => match parse_optional(cell, &field.kind) {
            Ok(v) => Ok(Value::Optional(v)),
            Err(e) => Err(e),
        },
        Cardinality::Multi => match parse_multi(cell, &field.kind) {
            Ok(v) => Ok(Value::Multi(v)),
            Err(e) => Err(e),
        },
    }
}

impl Row {
    /// The row that the cells of a sheet's row hold. An error names the
    /// field whose cell cannot be read.
    pub fn parse(row: &Vec<Cell>, plan: &TablePlan) -> (r: Result<Row, (String, ParseError)>)
        requires
            plan.wf(),
        ensures
            match r {
                Ok(v) => row_of_cells(*plan, crate::data::cell::row_view(row@)) == Ok::<
                    RowView,
                    (Seq<char>, ParseErrorView),
                >(v@),
                Err(e) => row_of_cells(*plan, crate::data::cell::row_view(row@)) == Err::<
                    RowView,
                    (Seq<char>, ParseErrorView),
                >((e.0@, e.1@)),
            },
    {
        let ghost cells = crate::data::cell::row_view(row@);
        if row.len() < plan.fields_count {
            return Err(
                (
                    String::new(),
                    ParseError::InvalidColumnCount {
                        expected: plan.fields_count,
                        actual: row.len(),
                    },
                ),
            );
        }
        if row.len() == 0 {
            return Err(
                (String::new(), ParseError::InvalidColumnCount { expected: 1, actual: 0 }),
            );
        }
        let id = match DataId::parse(&row[0]) {
            Err(e) => {
                return Err((String::from_str("id"), e));
            },
            Ok(id) => id,
        };
        let mut values: Vec<Value> = Vec::new();
        let mut i: usize = 0;
        assert(values_view(values@) == Seq::<ValueView>::empty());
        while i < plan.fields.len()
            invariant
                i <= plan.fields.len(),
                plan.wf(),
                plan.fields_count <= row.len(),
                cells == crate::data::cell::row_view(row@),
                id_of_row(plan.fields_count, cells) == Ok::<u32, (Seq<char>, ParseErrorView)>(
                    id.0,
                ),
                values_of_row(plan.fields@.take(i as int), cells) == Ok::<
                    Seq<ValueView>,
                    (Seq<char>, ParseErrorView),
                >(values_view(values@)),
            decreases plan.fields.len() - i,
        {
            let field = &plan.fields[i];
            proof {
                assert(plan.fields@.take(i + 1).drop_last() == plan.fields@.take(i as int));
                assert(plan.fields@.take(i + 1).last() == plan.fields@[i as int]);
                assert(plan.fields@[i as int].column < plan.fields_count);
            }
            match parse_value(&row[field.column], field) {
                Err(e) => {
                    proof {
                        lemma_values_fault(plan.fields@, cells, i + 1);
                    }
                    return Err((field.name.clone(), e));
                },
                Ok(v) => {
                    let ghost before = values_view(values@);
                    values.push(v);
                    assert(values_view(values@) == before.push(v@));
                },
            }
            i += 1;
        }
        assert(plan.fields@.take(plan.fields.len() as int) == plan.fields@);
        Ok(Row { id, values })
    }
}

} // verus!
