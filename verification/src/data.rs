//! The load/link model: cells are read into typed values, rows are kept in
//! arenas by their id, and links between rows are resolved once every table
//! is loaded.

pub mod arena;
pub mod cell;
pub mod count;
pub mod constraint;
pub mod entries;
pub mod error;
pub mod laws;
pub mod link;
pub mod number;
pub mod parse;
pub mod plan;
pub mod resolve;
pub mod sound;
pub mod store;
pub mod value;
pub mod written;

use crate::data::cell::{decimal_text, integer_text};
use vstd::prelude::*;
use vstd::string::StringExecFns;

verus! {

/// The identifier of a row: the number in the first column of its sheet.
#[derive(Debug, Clone, Copy, Hash, PartialEq, Eq, Structural)]
pub struct DataId(pub u32);

impl DataId {
    /// The number of the identifier.
    pub fn value(&self) -> (r: u32)
        ensures
            r == self.0,
    {
        self.0
    }
}

impl DataId {
    /// The identifier written out.
    pub open spec fn text(&self) -> Seq<char> {
        "DataId("@ + decimal_text(self.0 as int) + ")"@
    }

    /// The identifier written out.
    pub fn to_text(&self) -> (r: String)
        ensures
            r@ == self.text(),
    {
        let mut out = String::from_str("DataId(");
        out.append(integer_text(self.0 as i128).as_str());
        out.append(")");
        out
    }
}

impl From<i32> for DataId {
    fn from(value: i32) -> (r: Self) {
        if value < 0 {
            DataId((value as i64 + 0x1_0000_0000) as u32)
        } else {
            DataId(value as u32)
        }
    }
}

impl vstd::std_specs::convert::FromSpecImpl<i32> for DataId {
    open spec fn obeys_from_spec() -> bool {
        true
    }

    /// A negative number stands for the identifier of the same bits.
    open spec fn from_spec(value: i32) -> Self {
        if value < 0 {
            DataId((value + 0x1_0000_0000) as u32)
        } else {
            DataId(value as u32)
        }
    }
}

impl From<u32> for DataId {
    fn from(value: u32) -> (r: Self) {
        DataId(value)
    }
}

impl vstd::std_specs::convert::FromSpecImpl<u32> for DataId {
    open spec fn obeys_from_spec() -> bool {
        true
    }

    open spec fn from_spec(value: u32) -> Self {
        DataId(value)
    }
}

/// A place in an arena: the table, and the position of the row among the
/// rows of that table.
#[derive(Debug, Clone, Copy, PartialEq, Eq, Structural)]
pub struct RowRef {
    pub table: usize,
    pub slot: usize,
}

/// A reference from a row to a row of another table. It is read from a sheet
/// as the bare id of its target and is resolved, once the target table is
/// loaded, to the place of the target row.
#[derive(Debug, Clone, Copy, PartialEq, Eq, Structural)]
pub enum Link {
    Unresolved(DataId),
    Resolved { id: DataId, target: RowRef },
}

impl Link {
    /// The id of the target row.
    pub open spec fn spec_id(&self) -> DataId {
        match *self {
            Link::Unresolved(id) => id,
            Link::Resolved { id, .. } => id,
        }
    }

    /// The id of the target row.
    pub fn id(&self) -> (r: DataId)
        ensures
            r == self.spec_id(),
    {
        match self {
            Link::Unresolved(id) => *id,
            Link::Resolved { id, .. } => *id,
        }
    }

    /// The link written out: by the id of its target.
    pub open spec fn text(&self) -> Seq<char> {
        "Link("@ + self.spec_id().text() + ")"@
    }

    /// The link written out.
    pub fn to_text(&self) -> (r: String)
        ensures
            r@ == self.text(),
    {
        let mut out = String::from_str("Link(");
        out.append(self.id().to_text().as_str());
        out.append(")");
        out
    }

    /// The place of the target row, once the link is resolved.
    pub fn target(&self) -> (r: Option<RowRef>)
        ensures
            r == (match *self {
                Link::Unresolved(_) => None,
                Link::Resolved { target, .. } => Some(target),
            }),
    {
        match self {
            Link::Unresolved(_) => None,
            Link::Resolved { target, .. } => Some(*target),
        }
    }
}

} // verus!
