//! Table schemas: concrete and abstract tables, their fields, field kinds
//! and constraints.

use crate::name::Name;
use crate::Target;
use vstd::prelude::*;

verus! {

/// The largest number of components a tuple may have.
pub const TUPLE_TYPES_MAX_COUNT: usize = 4;

/// A table as it is registered: its name and its schema.
#[derive(Debug, PartialEq, Eq)]
pub struct TableEntry {
    pub name: Name,
    pub schema: TableSchema,
}

/// The schema of a table, by kind.
#[derive(Debug, PartialEq, Eq)]
pub enum TableSchema {
    Concrete(ConcreteTableSchema),
    Abstract(AbstractTableSchema),
}

/// A table backed by a sheet of a workbook.
#[derive(Debug, PartialEq, Eq)]
pub struct ConcreteTableSchema {
    pub name: String,
    pub workbook: String,
    pub sheet: String,
    pub fields: Vec<Field>,
    pub extend: Option<String>,
}

/// A table without data of its own: the union of the tables that extend it.
#[derive(Debug, PartialEq, Eq)]
pub struct AbstractTableSchema {
    pub name: String,
    pub fields: Vec<Field>,
    pub extend: Option<String>,
}

/// What every table schema has, whatever its kind.
pub trait TableSchematic {
    fn name(&self) -> (r: &str)
        ensures
            r@ == self.spec_name(),
    ;

    fn fields(&self) -> (r: &Vec<Field>)
        ensures
            *r == self.spec_fields(),
    ;

    fn extend(&self) -> (r: &Option<String>)
        ensures
            *r == self.spec_extend(),
    ;

    spec fn spec_name(&self) -> Seq<char>;

    spec fn spec_fields(&self) -> Vec<Field>;

    spec fn spec_extend(&self) -> Option<String>;
}

/// A column of a table.
#[derive(Debug, PartialEq, Eq)]
pub struct Field {
    pub name: String,
    pub target: Target,
    pub kind: FieldKind,
    pub optional: Option<bool>,
    pub multi: Option<bool>,
    pub constraints: Option<Vec<Constraint>>,
}

/// What a field holds.
#[derive(Debug, PartialEq, Eq)]
pub enum FieldKind {
    Scalar { scalar_type: ScalarAllType },
    Enum { enum_type: String },
    Link { link_type: String },
    Tuple { types: Vec<FieldKind> },
}

/// The scalar types a field can have.
#[derive(Debug, Clone, Copy, PartialEq, Eq, Structural)]
pub enum ScalarAllType {
    Id,
    Bool,
    Int8,
    Int16,
    Int32,
    Int64,
    Uint8,
    Uint16,
    Uint32,
    Uint64,
    Float32,
    Float64,
    String,
    Datetime,
    Duration,
}

/// A condition on the values of a field.
#[derive(Debug, Clone, Copy, PartialEq, Eq, Structural)]
pub enum Constraint {
    Unique,
    Max(i32),
    Min(i32),
}

impl TableSchematic for ConcreteTableSchema {
    fn name(&self) -> (r: &str) {
        self.name.as_str()
    }

    fn fields(&self) -> (r: &Vec<Field>) {
        &self.fields
    }

    fn extend(&self) -> (r: &Option<String>) {
        &self.extend
    }

    open spec fn spec_name(&self) -> Seq<char> {
        self.name@
    }

    open spec fn spec_fields(&self) -> Vec<Field> {
        self.fields
    }

    open spec fn spec_extend(&self) -> Option<String> {
        self.extend
    }
}

impl TableSchematic for AbstractTableSchema {
    fn name(&self) -> (r: &str) {
        self.name.as_str()
    }

    fn fields(&self) -> (r: &Vec<Field>) {
        &self.fields
    }

    fn extend(&self) -> (r: &Option<String>) {
        &self.extend
    }

    open spec fn spec_name(&self) -> Seq<char> {
        self.name@
    }

    open spec fn spec_fields(&self) -> Vec<Field> {
        self.fields
    }

    open spec fn spec_extend(&self) -> Option<String> {
        self.extend
    }
}

impl TableSchematic for TableSchema {
    fn name(&self) -> (r: &str) {
        match self {
            TableSchema::Concrete(c) => c.name.as_str(),
            TableSchema::Abstract(a) => a.name.as_str(),
        }
    }

    fn fields(&self) -> (r: &Vec<Field>) {
        match self {
            TableSchema::Concrete(c) => &c.fields,
            TableSchema::Abstract(a) => &a.fields,
        }
    }

    fn extend(&self) -> (r: &Option<String>) {
        match self {
            TableSchema::Concrete(c) => &c.extend,
            TableSchema::Abstract(a) => &a.extend,
        }
    }

    open spec fn spec_name(&self) -> Seq<char> {
        match *self {
            TableSchema::Concrete(c) => c.name@,
            TableSchema::Abstract(a) => a.name@,
        }
    }

    open spec fn spec_fields(&self) -> Vec<Field> {
        match *self {
            TableSchema::Concrete(c) => c.fields,
            TableSchema::Abstract(a) => a.fields,
        }
    }

    open spec fn spec_extend(&self) -> Option<String> {
        match *self {
            TableSchema::Concrete(c) => c.extend,
            TableSchema::Abstract(a) => a.extend,
        }
    }
}

impl TableSchema {
    /// The schema seen as what every table schema has: its name, its own
    /// fields and the type it extends.
    pub fn schematic(&self) -> (r: &TableSchema)
        ensures
            r == self,
    {
        self
    }

    /// Whether the table is backed by a sheet.
    pub fn is_concrete(&self) -> (r: bool)
        ensures
            r == (*self is Concrete),
    {
        match self {
            TableSchema::Concrete(_) => true,
            TableSchema::Abstract(_) => false,
        }
    }
}

} // verus!
