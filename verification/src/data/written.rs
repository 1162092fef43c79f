//! Values, rows and entries written out, as errors cite them.

use crate::data::cell::{decimal_text, integer_text};
use crate::data::constraint::{scalar_text, text_of_scalar};
use crate::data::store::AbstractRow;
use crate::data::value::{
    elements_view,
    scalars_view,
    values_view,
    Element,
    ElementView,
    Row,
    RowView,
    ScalarView,
    Value,
    ValueView,
};
use crate::data::DataId;
use crate::text::{join, join_spec, views};
use vstd::prelude::*;
use vstd::string::StringExecFns;

verus! {

/// An element written out: a tuple between parentheses.
pub open spec fn element_text(e: ElementView) -> Seq<char> {
    match e {
        ElementView::One(s) => scalar_text(s),
        ElementView::Tuple(v) => "("@ + join_spec(
            v.map_values(|s: ScalarView| scalar_text(s)),
            ", "@,
        ) + ")"@,
    }
}

/// A value written out: an absent value as `None`, a present optional one
/// in `Some(..)`, a list between brackets.
pub open spec fn written(v: ValueView) -> Seq<char> {
    match v {
        ValueView::Single(e) => element_text(e),
        ValueView::Optional(None) => "None"@,
        ValueView::Optional(Some(e)) => "Some("@ + element_text(e) + ")"@,
        ValueView::Multi(es) => "["@ + join_spec(
            es.map_values(|e: ElementView| element_text(e)),
            ", "@,
        ) + "]"@,
    }
}

/// A row written out: its id and its values.
pub open spec fn row_text(r: RowView) -> Seq<char> {
    "Row { id: "@ + DataId(r.id).text() + ", values: ["@ + join_spec(
        r.values.map_values(|v: ValueView| written(v)),
        ", "@,
    ) + "] }"@
}

/// An entry written out: its id, the table it comes from and its place
/// there.
pub open spec fn entry_text(e: AbstractRow) -> Seq<char> {
    "Entry { id: "@ + e.id.text() + ", table: "@ + decimal_text(e.variant as int) + ", place: "@
        + decimal_text(e.slot as int) + " }"@
}

/// An element written out.
pub fn text_of_element(e: &Element) -> (r: String)
    ensures
        r@ == element_text(e@),
{
    match e {
        Element::One(s) => text_of_scalar(s),
        Element::Tuple(v) => {
            let mut parts: Vec<String> = Vec::new();
            let mut i: usize = 0;
            while i < v.len()
                invariant
                    i <= v.len(),
                    parts.len() == i,
                    forall|k: int| 0 <= k < i ==> (#[trigger] parts@[k])@ == scalar_text(v@[k]@),
                decreases v.len() - i,
            {
                parts.push(text_of_scalar(&v[i]));
                i += 1;
            }
            assert(views(parts@) =~= scalars_view(v@).map_values(|s: ScalarView| scalar_text(s)));
            let mut out = String::from_str("(");
            out.append(join(parts.as_slice(), ", ").as_str());
            out.append(")");
            out
        },
    }
}

/// A value written out.
pub fn text_written(v: &Value) -> (r: String)
    ensures
        r@ == written(v@),
{
    match v {
        Value::Single(e) => text_of_element(e),
        Value::Optional(None) => String::from_str("None"),
        Value::Optional(Some(e)) => {
            let mut out = String::from_str("Some(");
            out.append(text_of_element(e).as_str());
            out.append(")");
            out
        },
        Value::Multi(es) => {
            let mut parts: Vec<String> = Vec::new();
            let mut i: usize = 0;
            while i < es.len()
                invariant
                    i <= es.len(),
                    parts.len() == i,
                    forall|k: int| 0 <= k < i ==> (#[trigger] parts@[k])@ == element_text(es@[k]@),
                decreases es.len() - i,
            {
                parts.push(text_of_element(&es[i]));
                i += 1;
            }
            assert(views(parts@) =~= elements_view(es@).map_values(
                |e: ElementView| element_text(e),
            ));
            let mut out = String::from_str("[");
            out.append(join(parts.as_slice(), ", ").as_str());
            out.append("]");
            out
        },
    }
}

impl Row {
    /// The row written out.
    pub fn to_text(&self) -> (r: String)
        ensures
            r@ == row_text(self@),
    {
        let mut parts: Vec<String> = Vec::new();
        let mut i: usize = 0;
        while i < self.values.len()
            invariant
                i <= self.values.len(),
                parts.len() == i,
                forall|k: int| 0 <= k < i ==> (#[trigger] parts@[k])@ == written(self.values@[k]@),
            decreases self.values.len() - i,
        {
            parts.push(text_written(&self.values[i]));
            i += 1;
        }
        assert(views(parts@) =~= values_view(self.values@).map_values(|v: ValueView| written(v)));
        let mut out = String::from_str("Row { id: ");
        out.append(self.id.to_text().as_str());
        out.append(", values: [");
        out.append(join(parts.as_slice(), ", ").as_str());
        out.append("] }");
        out
    }
}

impl AbstractRow {
    /// The entry written out.
    pub fn to_text(&self) -> (r: String)
        ensures
            r@ == entry_text(*self),
    {
        let mut out = String::from_str("Entry { id: ");
        out.append(self.id.to_text().as_str());
        out.append(", table: ");
        out.append(integer_text(self.variant as i128).as_str());
        out.append(", place: ");
        out.append(integer_text(self.slot as i128).as_str());
        out.append(" }");
        out
    }
}

} // verus!
