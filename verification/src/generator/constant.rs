//! Constant schemas.

use crate::name::Name;
use crate::Target;
use vstd::prelude::*;

verus! {

/// A constant as it is registered: its name and its schema.
#[derive(Debug, Clone, PartialEq, Eq)]
pub struct ConstantEntry {
    pub name: Name,
    pub schema: ConstantSchema,
}

/// A named, typed literal.
#[derive(Debug, Clone, PartialEq, Eq)]
pub struct ConstantSchema {
    pub name: String,
    pub target: Target,
    pub scalar: ConstantScalar,
}

/// The type and the value of a constant. A floating-point value is held as
/// the decimal text it was written with.
#[derive(Debug, Clone, PartialEq, Eq)]
#[allow(inconsistent_fields)]
pub enum ConstantScalar {
    SignedInteger { scalar_type: ScalarSignedIntegerType, value: i64 },
    UnsignedInteger { scalar_type: ScalarUnsignedIntegerType, value: u64 },
    Float { scalar_type: ScalarFloatType, value: String },
    String { scalar_type: ScalarStringType, value: String },
}

#[derive(Debug, Clone, Copy, PartialEq, Eq, Structural)]
pub enum ScalarSignedIntegerType {
    Int8,
    Int16,
    Int32,
    Int64,
}

#[derive(Debug, Clone, Copy, PartialEq, Eq, Structural)]
pub enum ScalarUnsignedIntegerType {
    Uint8,
    Uint16,
    Uint32,
    Uint64,
}

#[derive(Debug, Clone, Copy, PartialEq, Eq, Structural)]
pub enum ScalarFloatType {
    Float32,
    Float64,
}

#[derive(Debug, Clone, Copy, PartialEq, Eq, Structural)]
pub enum ScalarStringType {
    String,
}

} // verus!
