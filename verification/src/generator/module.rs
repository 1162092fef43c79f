//! Modules: the nodes of the namespace tree.

use crate::name::Name;
use vstd::prelude::*;

verus! {

/// A module and what it declares, in the order of declaration.
#[derive(Debug, Clone, PartialEq, Eq)]
pub struct ModuleEntry {
    pub name: Name,
    pub entries: Vec<EntityEntry>,
}

/// A declared entity, by its index in the registry of its kind.
#[derive(Debug, Clone, Copy, PartialEq, Eq, Structural)]
pub enum EntityEntry {
    ModuleIndex(usize),
    TableIndex(usize),
    EnumerationIndex(usize),
    ConstantIndex(usize),
}

impl ModuleEntry {
    /// A module of the given name that declares nothing yet.
    pub fn new(name: Name) -> (r: Self)
        ensures
            r.name == name,
            r.entries@ == Seq::<EntityEntry>::empty(),
    {
        Self { name, entries: Vec::new() }
    }
}

} // verus!
