//! Errors of the schema compiler.

use vstd::prelude::*;
use vstd::string::StringExecFns;

verus! {

/// Why the attributes of a field are rejected.
#[derive(Debug, Clone, Copy, PartialEq, Eq, Structural)]
pub enum AttributeFault {
    /// The field is both optional and multi.
    OptionalAndMulti,
    /// The field is multi and carries a unique constraint.
    UniqueAndMulti,
    /// A tuple has fewer than two or more than four components.
    TupleArity,
    /// A tuple has a tuple among its components.
    NestedTuple,
}

/// An error that aborts the compilation of a schema tree.
#[derive(Debug, Clone, PartialEq, Eq)]
pub enum Error {
    /// A declaration names a file whose name has not the expected shape.
    InvalidDeclarationFilename(String),
    /// The qualified type identifier is already registered.
    NamespaceCollision(String),
    /// A table extends a type that is not a registered table.
    UnknownParent { table: String, parent: String },
    /// A link refers to a type that is not a registered table.
    UnknownLinkTarget { table: String, target: String },
    /// A field refers to a type that is not a registered enumeration.
    UnknownEnumeration { table: String, target: String },
    /// A table extends a table that is backed by a sheet: only an abstract
    /// table can be extended.
    ExtendsConcrete { table: String, parent: String },
    /// The chain of `extend` references that starts at the table never ends.
    CircularInheritance(String),
    /// The links between the tables form a cycle.
    CircularDependency,
    /// The attributes of the named field contradict each other.
    InvalidAttribute { field: String, fault: AttributeFault },
}

/// The mathematical content of an `Error`.
pub enum ErrorView {
    InvalidDeclarationFilename(Seq<char>),
    NamespaceCollision(Seq<char>),
    UnknownParent { table: Seq<char>, parent: Seq<char> },
    UnknownLinkTarget { table: Seq<char>, target: Seq<char> },
    UnknownEnumeration { table: Seq<char>, target: Seq<char> },
    ExtendsConcrete { table: Seq<char>, parent: Seq<char> },
    CircularInheritance(Seq<char>),
    CircularDependency,
    InvalidAttribute { field: Seq<char>, fault: AttributeFault },
}

impl View for Error {
    type V = ErrorView;

    open spec fn view(&self) -> ErrorView {
        match *self {
            Error::InvalidDeclarationFilename(s) => ErrorView::InvalidDeclarationFilename(s@),
            Error::NamespaceCollision(s) => ErrorView::NamespaceCollision(s@),
            Error::UnknownParent { table, parent } => ErrorView::UnknownParent {
                table: table@,
                parent: parent@,
            },
            Error::UnknownLinkTarget { table, target } => ErrorView::UnknownLinkTarget {
                table: table@,
                target: target@,
            },
            Error::UnknownEnumeration { table, target } => ErrorView::UnknownEnumeration {
                table: table@,
                target: target@,
            },
            Error::ExtendsConcrete { table, parent } => ErrorView::ExtendsConcrete {
                table: table@,
                parent: parent@,
            },
            Error::CircularInheritance(s) => ErrorView::CircularInheritance(s@),
            Error::CircularDependency => ErrorView::CircularDependency,
            Error::InvalidAttribute { field, fault } => ErrorView::InvalidAttribute {
                field: field@,
                fault,
            },
        }
    }
}

impl AttributeFault {
    /// A sentence that describes the fault.
    pub fn message(&self) -> (r: String)
        ensures
            r@ == (match *self {
                AttributeFault::OptionalAndMulti => "Optional and multi cannot be both true"@,
                AttributeFault::UniqueAndMulti => "Multi field cannot have unique constraint"@,
                AttributeFault::TupleArity => "Tuples must have two to four fields"@,
                AttributeFault::NestedTuple => "Nested tuples are not supported"@,
            }),
    {
        match self {
            AttributeFault::OptionalAndMulti => String::from_str(
                "Optional and multi cannot be both true",
            ),
            AttributeFault::UniqueAndMulti => String::from_str(
                "Multi field cannot have unique constraint",
            ),
            AttributeFault::TupleArity => String::from_str("Tuples must have two to four fields"),
            AttributeFault::NestedTuple => String::from_str("Nested tuples are not supported"),
        }
    }
}

} // verus!
