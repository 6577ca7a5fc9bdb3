//! Value type tags: the closed set of types an instruction can
//! produce or consume, plus the `Any` input wildcard and the `Void`
//! output marker. A tag is encoded as a single byte.

use vstd::prelude::*;

verus! {

/// A concrete value type.
#[derive(Clone, Copy, Debug, PartialEq, Eq, Structural)]
pub enum IrTypeId {
    Bool,
    Int32,
    Int64,
    PtrInt,
}

/// The type expected in an input slot: a concrete type or any.
#[derive(Clone, Copy, Debug, PartialEq, Eq, Structural)]
pub enum IrInputTypeId {
    Specific(IrTypeId),
    Any,
}

/// The type produced in an output slot: a concrete type or none.
#[derive(Clone, Copy, Debug, PartialEq, Eq, Structural)]
pub enum IrOutputTypeId {
    Specific(IrTypeId),
    Void,
}

impl IrTypeId {
    /// The byte that encodes this tag.
    pub open spec fn tag(self) -> u8 {
        match self {
            IrTypeId::Bool => 1,
            IrTypeId::Int32 => 2,
            IrTypeId::Int64 => 3,
            IrTypeId::PtrInt => 4,
        }
    }

    /// The tag of this type as a printable name.
    pub open spec fn spec_name(self) -> Seq<char> {
        match self {
            IrTypeId::Bool => "Bool"@,
            IrTypeId::Int32 => "Int32"@,
            IrTypeId::Int64 => "Int64"@,
            IrTypeId::PtrInt => "PtrInt"@,
        }
    }

    pub fn as_str(&self) -> (r: &'static str)
        ensures
            r@ == self.spec_name(),
    {
        match *self {
            IrTypeId::Bool => "Bool",
            IrTypeId::Int32 => "Int32",
            IrTypeId::Int64 => "Int64",
            IrTypeId::PtrInt => "PtrInt",
        }
    }

    /// Whether `byte` encodes some tag.
    pub open spec fn valid_tag(byte: u8) -> bool {
        1 <= byte <= 4
    }

    pub fn into_u8(self) -> (r: u8)
        ensures
            r == self.tag(),
    {
        match self {
            IrTypeId::Bool => 1,
            IrTypeId::Int32 => 2,
            IrTypeId::Int64 => 3,
            IrTypeId::PtrInt => 4,
        }
    }

    pub fn from_u8(byte: u8) -> (r: IrTypeId)
        requires
            IrTypeId::valid_tag(byte),
        ensures
            r.tag() == byte,
    {
        if byte == 1 {
            IrTypeId::Bool
        } else if byte == 2 {
            IrTypeId::Int32
        } else if byte == 3 {
            IrTypeId::Int64
        } else {
            IrTypeId::PtrInt
        }
    }
}

} // verus!
