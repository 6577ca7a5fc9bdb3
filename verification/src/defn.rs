//! Definitions: value handles that refer to the instruction that
//! produced the value. The typed form carries the static output type
//! tag beside the id; the untyped form drops it.

use vstd::prelude::*;

use crate::instr::InstrId;
use crate::ir_types::IrTypeId;

verus! {

/// A reference to the value an instruction defines.
#[derive(Clone, Copy, Debug)]
pub struct Defn(pub InstrId);

impl Defn {
    /// The id value carried by this definition.
    pub open spec fn spec_val(self) -> u32 {
        self.0.spec_val()
    }

    pub open spec fn is_valid(self) -> bool {
        self.0.is_valid()
    }

    pub(crate) fn new(instr_id: InstrId) -> (r: Defn)
        ensures
            r.0 == instr_id,
    {
        Defn(instr_id)
    }

    pub fn instr_id(&self) -> (r: InstrId)
        ensures
            r == self.0,
    {
        self.0
    }

    pub fn as_u32(&self) -> (r: u32)
        requires
            self.is_valid(),
        ensures
            r == self.spec_val(),
    {
        self.0.as_u32()
    }
}

/// A definition together with the type tag of the value it refers
/// to. The tag travels with the handle; the byte stream carries tags
/// in operation payloads where disambiguation is needed.
#[derive(Clone, Copy, Debug)]
pub struct TypedDefn {
    pub id: InstrId,
    pub tyid: IrTypeId,
}

impl TypedDefn {
    /// The id value carried by this definition.
    pub open spec fn spec_val(self) -> u32 {
        self.id.spec_val()
    }

    pub open spec fn is_valid(self) -> bool {
        self.id.is_valid()
    }

    /// The type tag carried by this definition.
    pub open spec fn spec_tyid(self) -> IrTypeId {
        self.tyid
    }

    pub fn new(instr_id: InstrId, tyid: IrTypeId) -> (r: TypedDefn)
        ensures
            r.id == instr_id,
            r.tyid == tyid,
    {
        TypedDefn { id: instr_id, tyid }
    }

    pub fn instr_id(&self) -> (r: InstrId)
        ensures
            r == self.id,
    {
        self.id
    }

    pub fn tyid(&self) -> (r: IrTypeId)
        ensures
            r == self.tyid,
    {
        self.tyid
    }

    /// Drops the type tag.
    pub fn untyped_defn(&self) -> (r: Defn)
        ensures
            r.spec_val() == self.spec_val(),
            r.is_valid() == self.is_valid(),
    {
        Defn::new(self.id)
    }

    pub fn as_u32(&self) -> (r: u32)
        requires
            self.is_valid(),
        ensures
            r == self.spec_val(),
    {
        self.id.as_u32()
    }

    /// The same definition under another type tag.
    pub fn cast(&self, tyid: IrTypeId) -> (r: TypedDefn)
        ensures
            r.id == self.id,
            r.tyid == tyid,
    {
        TypedDefn { id: self.id, tyid }
    }
}

} // verus!
