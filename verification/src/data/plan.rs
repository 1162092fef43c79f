//! What the loader knows of a table: for each field that is loaded, the
//! column it is read from, what it holds and how often, and the constraints
//! on it.

use crate::generator::table::{Constraint, ScalarAllType};
use crate::text::views;
use vstd::prelude::*;

verus! {

/// How often a field holds a value.
#[derive(Debug, Clone, Copy, PartialEq, Eq, Structural)]
pub enum Cardinality {
    Single,
    Optional,
    Multi,
}

/// What a scalar position holds.
#[derive(Debug, Clone, PartialEq, Eq)]
pub enum ElementPlan {
    Scalar(ScalarAllType),
    /// A variant of an enumeration, written by its name.
    Enum { label: String, variants: Vec<String> },
    /// A link to a row of the table with that index.
    Link { table: usize, label: String },
}

/// What a field holds once: one scalar, or a tuple.
#[derive(Debug, Clone, PartialEq, Eq)]
pub enum KindPlan {
    One(ElementPlan),
    Tuple(Vec<ElementPlan>),
}

/// A field that is loaded.
#[derive(Debug, Clone, PartialEq, Eq)]
pub struct FieldPlan {
    pub name: String,
    /// The position of the field's cell in a row.
    pub column: usize,
    pub kind: KindPlan,
    pub cardinality: Cardinality,
    pub constraints: Vec<Constraint>,
    /// The name of the field's type, as errors cite it.
    pub label: String,
}

/// A table as the loader sees it.
#[derive(Debug, Clone, PartialEq, Eq)]
pub struct TablePlan {
    /// The qualified type identifier of the table.
    pub label: String,
    /// Whether the table is backed by a sheet.
    pub concrete: bool,
    pub workbook: String,
    pub sheet: String,
    /// The number of effective fields: a row has at least as many cells.
    pub fields_count: usize,
    /// The fields that are loaded, in the order of their columns.
    pub fields: Vec<FieldPlan>,
    /// The table that this one extends.
    pub parent: Option<usize>,
}

impl TablePlan {
    /// Every loaded field is read from a column that a row has.
    pub open spec fn wf(&self) -> bool {
        forall|i: int| 0 <= i < self.fields@.len() ==> (#[trigger] self.fields@[i]).column
            < self.fields_count
    }
}

/// The mathematical content of an `ElementPlan`.
pub enum ElementPlanView {
    Scalar(ScalarAllType),
    Enum { label: Seq<char>, variants: Seq<Seq<char>> },
    Link { table: usize, label: Seq<char> },
}

/// The mathematical content of a `KindPlan`.
pub enum KindPlanView {
    One(ElementPlanView),
    Tuple(Seq<ElementPlanView>),
}

/// The mathematical content of a `FieldPlan`.
pub struct FieldPlanView {
    pub name: Seq<char>,
    pub column: usize,
    pub kind: KindPlanView,
    pub cardinality: Cardinality,
    pub constraints: Seq<Constraint>,
    pub label: Seq<char>,
}

/// The mathematical content of a `TablePlan`.
pub struct TablePlanView {
    pub label: Seq<char>,
    pub concrete: bool,
    pub workbook: Seq<char>,
    pub sheet: Seq<char>,
    pub fields_count: usize,
    pub fields: Seq<FieldPlanView>,
    pub parent: Option<usize>,
}

impl View for ElementPlan {
    type V = ElementPlanView;

    open spec fn view(&self) -> ElementPlanView {
        match *self {
            ElementPlan::Scalar(t) => ElementPlanView::Scalar(t),
            ElementPlan::Enum { label, variants } => ElementPlanView::Enum {
                label: label@,
                variants: views(variants@),
            },
            ElementPlan::Link { table, label } => ElementPlanView::Link { table, label: label@ },
        }
    }
}

/// The views of a sequence of element plans.
pub open spec fn element_plans_view(v: Seq<ElementPlan>) -> Seq<ElementPlanView> {
    v.map_values(|p: ElementPlan| p@)
}

impl View for KindPlan {
    type V = KindPlanView;

    open spec fn view(&self) -> KindPlanView {
        match *self {
            KindPlan::One(p) => KindPlanView::One(p@),
            KindPlan::Tuple(v) => KindPlanView::Tuple(element_plans_view(v@)),
        }
    }
}

impl View for FieldPlan {
    type V = FieldPlanView;

    open spec fn view(&self) -> FieldPlanView {
        FieldPlanView {
            name: self.name@,
            column: self.column,
            kind: self.kind@,
            cardinality: self.cardinality,
            constraints: self.constraints@,
            label: self.label@,
        }
    }
}

/// The views of a sequence of field plans.
pub open spec fn field_plans_view(v: Seq<FieldPlan>) -> Seq<FieldPlanView> {
    v.map_values(|p: FieldPlan| p@)
}

impl View for TablePlan {
    type V = TablePlanView;

    open spec fn view(&self) -> TablePlanView {
        TablePlanView {
            label: self.label@,
            concrete: self.concrete,
            workbook: self.workbook@,
            sheet: self.sheet@,
            fields_count: self.fields_count,
            fields: field_plans_view(self.fields@),
            parent: self.parent,
        }
    }
}

} // verus!
