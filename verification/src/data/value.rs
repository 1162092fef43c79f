//! The typed values that cells are read into, and the rows made of them.

use crate::data::{DataId, Link};
use vstd::prelude::*;

verus! {

/// A value of a scalar type, of an enumeration, or a link.
///
/// Signed integers of every width are held as `Int`, unsigned ones as
/// `Uint`; a floating-point number is held as the text it was written with.
#[derive(Debug, Clone, PartialEq, Eq)]
pub enum Scalar {
    Id(DataId),
    Bool(bool),
    Int(i64),
    Uint(u64),
    Float(String),
    Text(String),
    /// A variant of an enumeration, by its discriminant.
    Enum(u32),
    Link(Link),
}

/// What stands in a field once: one scalar, or a tuple of scalars.
#[derive(Debug, Clone, PartialEq, Eq)]
pub enum Element {
    One(Scalar),
    Tuple(Vec<Scalar>),
}

/// The value of a field, by its cardinality.
#[derive(Debug, Clone, PartialEq, Eq)]
pub enum Value {
    Single(Element),
    Optional(Option<Element>),
    Multi(Vec<Element>),
}

/// A loaded row: its id, and the values of the fields that are loaded, in
/// the order of the fields.
#[derive(Debug, Clone, PartialEq, Eq)]
pub struct Row {
    pub id: DataId,
    pub values: Vec<Value>,
}

/// The mathematical content of a `Scalar`.
pub enum ScalarView {
    Id(u32),
    Bool(bool),
    Int(i64),
    Uint(u64),
    Float(Seq<char>),
    Text(Seq<char>),
    Enum(u32),
    Link(Link),
}

/// The mathematical content of an `Element`.
pub enum ElementView {
    One(ScalarView),
    Tuple(Seq<ScalarView>),
}

/// The mathematical content of a `Value`.
pub enum ValueView {
    Single(ElementView),
    Optional(Option<ElementView>),
    Multi(Seq<ElementView>),
}

/// The mathematical content of a `Row`.
pub struct RowView {
    pub id: u32,
    pub values: Seq<ValueView>,
}

impl View for Scalar {
    type V = ScalarView;

    open spec fn view(&self) -> ScalarView {
        match *self {
            Scalar::Id(id) => ScalarView::Id(id.0),
            Scalar::Bool(b) => ScalarView::Bool(b),
            Scalar::Int(v) => ScalarView::Int(v),
            Scalar::Uint(v) => ScalarView::Uint(v),
            Scalar::Float(s) => ScalarView::Float(s@),
            Scalar::Text(s) => ScalarView::Text(s@),
            Scalar::Enum(d) => ScalarView::Enum(d),
            Scalar::Link(l) => ScalarView::Link(l),
        }
    }
}

/// The views of a sequence of scalars.
pub open spec fn scalars_view(v: Seq<Scalar>) -> Seq<ScalarView> {
    v.map_values(|s: Scalar| s@)
}

impl View for Element {
    type V = ElementView;

    open spec fn view(&self) -> ElementView {
        match *self {
            Element::One(s) => ElementView::One(s@),
            Element::Tuple(v) => ElementView::Tuple(scalars_view(v@)),
        }
    }
}

/// The views of a sequence of elements.
pub open spec fn elements_view(v: Seq<Element>) -> Seq<ElementView> {
    v.map_values(|e: Element| e@)
}

impl View for Value {
    type V = ValueView;

    open spec fn view(&self) -> ValueView {
        match *self {
            Value::Single(e) => ValueView::Single(e@),
            Value::Optional(o) => ValueView::Optional(
                match o {
                    Some(e) => Some(e@),
                    None => None,
                },
            ),
            Value::Multi(v) => ValueView::Multi(elements_view(v@)),
        }
    }
}

/// The views of a sequence of values.
pub open spec fn values_view(v: Seq<Value>) -> Seq<ValueView> {
    v.map_values(|x: Value| x@)
}

impl View for Row {
    type V = RowView;

    open spec fn view(&self) -> RowView {
        RowView { id: self.id.0, values: values_view(self.values@) }
    }
}

/// The views of a sequence of rows.
pub open spec fn rows_view(v: Seq<Row>) -> Seq<RowView> {
    v.map_values(|r: Row| r@)
}

} // verus!
