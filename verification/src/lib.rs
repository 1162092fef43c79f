//! A data-definition compiler for game content tables, and the load/link
//! model that the tables it describes are loaded under.

pub mod collect;
pub mod data;
pub mod depend;
pub mod error;
pub mod generate;
pub mod generator;
pub mod inherit;
pub mod levels;
pub mod name;
pub mod plan;
pub mod text;

use vstd::prelude::*;

verus! {

/// The number of leading rows of a sheet that are header and carry no data.
pub const HEADER_ROWS: usize = 2;

/// Where an entity or a field is meant to exist.
#[derive(Debug, Clone, Copy, PartialEq, Eq, Structural)]
pub enum Target {
    Client,
    Server,
    All,
    Nowhere,
}

impl Target {
    /// Whether the entity or field exists on this side: on the server.
    pub fn is_target(&self) -> (r: bool)
        ensures
            r == (*self == Target::Server || *self == Target::All),
    {
        match self {
            Target::Server => true,
            Target::All => true,
            _ => false,
        }
    }
}

} // verus!
