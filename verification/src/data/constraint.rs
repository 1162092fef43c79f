//! The constraints on the values of a field: no value twice, no value above
//! a maximum, none below a minimum.

use crate::data::cell::{decimal_text, integer_text};
use crate::data::error::ConstraintErrorView;
use crate::data::plan::FieldPlan;
use crate::data::value::{
    elements_view,
    scalars_view,
    Element,
    ElementView,
    RowView,
    Scalar,
    ScalarView,
    Value,
    ValueView,
};
use crate::data::{DataId, Link};
use crate::generator::table::Constraint;
use vstd::prelude::*;
use vstd::string::StringExecFns;

verus! {

/// What a scalar is compared by: a link by the id of its target alone.
pub open spec fn scalar_key(s: ScalarView) -> ScalarView {
    match s {
        ScalarView::Link(l) => ScalarView::Link(Link::Unresolved(l.spec_id())),
        other => other,
    }
}

/// What an element is compared by.
pub open spec fn element_key(e: ElementView) -> ElementView {
    match e {
        ElementView::One(s) => ElementView::One(scalar_key(s)),
        ElementView::Tuple(v) => ElementView::Tuple(v.map_values(|s: ScalarView| scalar_key(s))),
    }
}

/// What a value is compared by.
pub open spec fn value_key(v: ValueView) -> ValueView {
    match v {
        ValueView::Single(e) => ValueView::Single(element_key(e)),
        ValueView::Optional(Some(e)) => ValueView::Optional(Some(element_key(e))),
        ValueView::Optional(None) => ValueView::Optional(None),
        ValueView::Multi(v) => ValueView::Multi(v.map_values(|e: ElementView| element_key(e))),
    }
}

/// The integer that a value is, where it is one integer: an id, a signed or
/// unsigned integer, or a link, which counts as the id of its target.
pub open spec fn value_integer(v: ValueView) -> Option<int> {
    match v {
        ValueView::Single(ElementView::One(ScalarView::Id(x))) => Some(x as int),
        ValueView::Single(ElementView::One(ScalarView::Int(x))) => Some(x as int),
        ValueView::Single(ElementView::One(ScalarView::Uint(x))) => Some(x as int),
        ValueView::Single(ElementView::One(ScalarView::Link(l))) => Some(l.spec_id().0 as int),
        _ => None,
    }
}

/// A scalar written out.
pub open spec fn scalar_text(s: ScalarView) -> Seq<char> {
    match s {
        ScalarView::Id(x) => DataId(x).text(),
        ScalarView::Bool(b) => if b {
            "true"@
        } else {
            "false"@
        },
        ScalarView::Int(x) => decimal_text(x as int),
        ScalarView::Uint(x) => decimal_text(x as int),
        ScalarView::Float(t) => t,
        ScalarView::Text(t) => t,
        ScalarView::Enum(d) => decimal_text(d as int),
        ScalarView::Link(l) => l.text(),
    }
}

/// A value written out, where it is one scalar; the empty text otherwise.
pub open spec fn value_text(v: ValueView) -> Seq<char> {
    match v {
        ValueView::Single(ElementView::One(s)) => scalar_text(s),
        ValueView::Optional(Some(ElementView::One(s))) => scalar_text(s),
        _ => Seq::empty(),
    }
}

/// Whether one of `earlier` has, at `position`, a value that compares equal
/// to `value`.
pub open spec fn taken(earlier: Seq<RowView>, position: int, value: ValueView) -> bool {
    exists|k: int|
        0 <= k < earlier.len() && value_key((#[trigger] earlier[k]).values[position]) == value_key(
            value,
        )
}

/// The error of a constraint that the value at `position` of `row` breaks,
/// given the rows loaded before it.
pub open spec fn broken(
    constraint: Constraint,
    label: Seq<char>,
    earlier: Seq<RowView>,
    position: int,
    value: ValueView,
) -> Option<ConstraintErrorView> {
    match constraint {
        Constraint::Unique => if taken(earlier, position, value) {
            Some(ConstraintErrorView::Unique { type_label: label, value: value_text(value) })
        } else {
            None
        },
        Constraint::Max(m) => match value_integer(value) {
            Some(v) => if v > m {
                Some(
                    ConstraintErrorView::Max {
                        type_label: label,
                        expected: decimal_text(m as int),
                        actual: value_text(value),
                    },
                )
            } else {
                None
            },
            None => None,
        },
        Constraint::Min(m) => match value_integer(value) {
            Some(v) => if v < m {
                Some(
                    ConstraintErrorView::Min {
                        type_label: label,
                        expected: decimal_text(m as int),
                        actual: value_text(value),
                    },
                )
            } else {
                None
            },
            None => None,
        },
    }
}

/// The error of the first of `constraints` that the value breaks.
pub open spec fn first_broken(
    constraints: Seq<Constraint>,
    label: Seq<char>,
    earlier: Seq<RowView>,
    position: int,
    value: ValueView,
) -> Option<ConstraintErrorView>
    decreases constraints.len(),
{
    if constraints.len() == 0 {
        None
    } else {
        match first_broken(constraints.drop_last(), label, earlier, position, value) {
            Some(e) => Some(e),
            None => broken(constraints.last(), label, earlier, position, value),
        }
    }
}

/// The first constraint that `row` breaks, going through the fields in
/// order and through the constraints of each field in order: the name of
/// the field, and the error.
pub open spec fn violation(fields: Seq<FieldPlan>, earlier: Seq<RowView>, row: RowView) -> Option<
    (Seq<char>, ConstraintErrorView),
>
    decreases fields.len(),
{
    if fields.len() == 0 {
        None
    } else {
        match violation(fields.drop_last(), earlier, row) {
            Some(e) => Some(e),
            None => match first_broken(
                fields.last().constraints@,
                fields.last().label@,
                earlier,
                fields.len() - 1,
                row.values[fields.len() - 1],
            ) {
                Some(e) => Some((fields.last().name@, e)),
                None => None,
            },
        }
    }
}

/// Whether two scalars compare equal.
pub fn same_scalar(a: &Scalar, b: &Scalar) -> (r: bool)
    ensures
        r == (scalar_key(a@) == scalar_key(b@)),
{
    match (a, b) {
        (Scalar::Id(x), Scalar::Id(y)) => x.0 == y.0,
        (Scalar::Bool(x), Scalar::Bool(y)) => *x == *y,
        (Scalar::Int(x), Scalar::Int(y)) => *x == *y,
        (Scalar::Uint(x), Scalar::Uint(y)) => *x == *y,
        (Scalar::Float(x), Scalar::Float(y)) => crate::text::same_text(x.as_str(), y.as_str()),
        (Scalar::Text(x), Scalar::Text(y)) => crate::text::same_text(x.as_str(), y.as_str()),
        (Scalar::Enum(x), Scalar::Enum(y)) => *x == *y,
        (Scalar::Link(x), Scalar::Link(y)) => x.id().0 == y.id().0,
        _ => false,
    }
}

/// Whether two elements compare equal.
pub fn same_element(a: &Element, b: &Element) -> (r: bool)
    ensures
        r == (element_key(a@) == element_key(b@)),
{
    match (a, b) {
        (Element::One(x), Element::One(y)) => same_scalar(x, y),
        (Element::Tuple(x), Element::Tuple(y)) => {
            let ghost kx = scalars_view(x@).map_values(|s: ScalarView| scalar_key(s));
            let ghost ky = scalars_view(y@).map_values(|s: ScalarView| scalar_key(s));
            if x.len() != y.len() {
                assert(kx.len() != ky.len());
                return false;
            }
            let mut i: usize = 0;
            while i < x.len()
                invariant
                    i <= x.len(),
                    x.len() == y.len(),
                    kx == scalars_view(x@).map_values(|s: ScalarView| scalar_key(s)),
                    ky == scalars_view(y@).map_values(|s: ScalarView| scalar_key(s)),
                    a@ == ElementView::Tuple(scalars_view(x@)),
                    b@ == ElementView::Tuple(scalars_view(y@)),
                    forall|k: int| 0 <= k < i ==> kx[k] == ky[k],
                decreases x.len() - i,
            {
                if !same_scalar(&x[i], &y[i]) {
                    assert(kx[i as int] != ky[i as int]);
                    return false;
                }
                i += 1;
            }
            assert(kx =~= ky);
            true
        },
        _ => false,
    }
}

/// Whether two values compare equal.
pub fn same_value(a: &Value, b: &Value) -> (r: bool)
    ensures
        r == (value_key(a@) == value_key(b@)),
{
    match (a, b) {
        (Value::Single(x), Value::Single(y)) => same_element(x, y),
        (Value::Optional(None), Value::Optional(None)) => true,
        (Value::Optional(Some(x)), Value::Optional(Some(y))) => same_element(x, y),
        (Value::Multi(x), Value::Multi(y)) => {
            let ghost kx = elements_view(x@).map_values(|e: ElementView| element_key(e));
            let ghost ky = elements_view(y@).map_values(|e: ElementView| element_key(e));
            if x.len() != y.len() {
                assert(kx.len() != ky.len());
                return false;
            }
            let mut i: usize = 0;
            while i < x.len()
                invariant
                    i <= x.len(),
                    x.len() == y.len(),
                    kx == elements_view(x@).map_values(|e: ElementView| element_key(e)),
                    ky == elements_view(y@).map_values(|e: ElementView| element_key(e)),
                    a@ == ValueView::Multi(elements_view(x@)),
                    b@ == ValueView::Multi(elements_view(y@)),
                    forall|k: int| 0 <= k < i ==> kx[k] == ky[k],
                decreases x.len() - i,
            {
                if !same_element(&x[i], &y[i]) {
                    assert(kx[i as int] != ky[i as int]);
                    return false;
                }
                i += 1;
            }
            assert(kx =~= ky);
            true
        },
        _ => false,
    }
}

/// The integer that a value is, where it is one integer.
pub fn integer_of(v: &Value) -> (r: Option<i128>)
    ensures
        match r {
            Some(x) => value_integer(v@) == Some(x as int),
            None => value_integer(v@) is None,
        },
{
    match v {
        Value::Single(Element::One(Scalar::Id(x))) => Some(x.0 as i128),
        Value::Single(Element::One(Scalar::Int(x))) => Some(*x as i128),
        Value::Single(Element::One(Scalar::Uint(x))) => Some(*x as i128),
        Value::Single(Element::One(Scalar::Link(l))) => Some(l.id().0 as i128),
        _ => None,
    }
}

/// A scalar written out.
pub fn text_of_scalar(s: &Scalar) -> (r: String)
    ensures
        r@ == scalar_text(s@),
{
    match s {
        Scalar::Id(x) => x.to_text(),
        Scalar::Bool(b) => if *b {
            String::from_str("true")
        } else {
            String::from_str("false")
        },
        Scalar::Int(x) => integer_text(*x as i128),
        Scalar::Uint(x) => integer_text(*x as i128),
        Scalar::Float(t) => t.clone(),
        Scalar::Text(t) => t.clone(),
        Scalar::Enum(d) => integer_text(*d as i128),
        Scalar::Link(l) => l.to_text(),
    }
}

/// A value written out, where it is one scalar.
pub fn text_of_value(v: &Value) -> (r: String)
    ensures
        r@ == value_text(v@),
{
    match v {
        Value::Single(Element::One(s)) => text_of_scalar(s),
        Value::Optional(Some(Element::One(s))) => text_of_scalar(s),
        _ => String::new(),
    }
}

} // verus!
