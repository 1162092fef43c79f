//! Enumeration schemas.

use crate::name::Name;
use crate::Target;
use vstd::prelude::*;

verus! {

/// An enumeration as it is registered: its name and its schema.
#[derive(Debug, Clone, PartialEq, Eq)]
pub struct EnumerationEntry {
    pub name: Name,
    pub schema: EnumerationSchema,
}

/// An enumeration: its variants in order of declaration, the discriminant of
/// a variant being its position.
#[derive(Debug, Clone, PartialEq, Eq)]
pub struct EnumerationSchema {
    pub name: String,
    pub base: EnumerationBase,
    pub enums: Vec<String>,
    pub target: Target,
    pub protocol: bool,
    pub queryable: bool,
    pub attributes: Vec<EnumerationAttribute>,
}

/// The unsigned integer type that holds a discriminant.
#[derive(Debug, Clone, Copy, PartialEq, Eq, Structural)]
pub enum EnumerationBase {
    Uint8,
    Uint16,
    Uint32,
}

/// An attribute put on the generated type where the target is met.
#[derive(Debug, Clone, PartialEq, Eq)]
pub struct EnumerationAttribute {
    pub target: Target,
    pub attribute: String,
}

impl EnumerationBase {
    /// The name of the integer type.
    pub fn to_rust_type(&self) -> (r: &'static str)
        ensures
            r@ == self.rust_type(),
    {
        match self {
            EnumerationBase::Uint8 => "u8",
            EnumerationBase::Uint16 => "u16",
            EnumerationBase::Uint32 => "u32",
        }
    }

    /// The name of the integer type.
    pub open spec fn rust_type(&self) -> Seq<char> {
        match *self {
            EnumerationBase::Uint8 => "u8"@,
            EnumerationBase::Uint16 => "u16"@,
            EnumerationBase::Uint32 => "u32"@,
        }
    }

    /// The largest discriminant the type can hold.
    pub open spec fn max_value(&self) -> nat {
        match *self {
            EnumerationBase::Uint8 => 0xff,
            EnumerationBase::Uint16 => 0xffff,
            EnumerationBase::Uint32 => 0xffff_ffff,
        }
    }
}

} // verus!
