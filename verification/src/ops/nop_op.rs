//! The nop operation: no inputs, no output, empty payload.

use vstd::prelude::*;

use crate::ir_types::IrOutputTypeId;
use crate::ops::bytes_at;
use crate::ops::op::Op;
use crate::ops::opcode::Opcode;

verus! {

#[derive(Clone, Copy, Debug, PartialEq, Eq, Structural)]
pub struct NopOp;

impl NopOp {
    /// An empty payload.
    pub open spec fn enc(self) -> Seq<u8> {
        Seq::empty()
    }

    pub fn new() -> (r: NopOp)
        ensures
            r == NopOp,
    {
        NopOp
    }

    pub fn opcode(&self) -> (r: Opcode)
        ensures
            r == Opcode::Nop,
    {
        Opcode::Nop
    }

    pub fn op(&self) -> (r: Op)
        ensures
            r == Op::Nop(*self),
    {
        Op::Nop(*self)
    }

    pub fn out_type(&self) -> (r: IrOutputTypeId)
        ensures
            r == IrOutputTypeId::Void,
    {
        IrOutputTypeId::Void
    }

    pub fn num_operands(&self) -> (r: u32)
        ensures
            r == 0,
    {
        0
    }

    /// Writes the (empty) payload.
    pub fn write_to(&self, vec: &mut Vec<u8>)
        ensures
            final(vec)@ == old(vec)@ + self.enc(),
    {
        assert(vec@ =~= old(vec)@ + self.enc());
    }

    /// Reads the (empty) payload back; the inverse of `write_to`.
    pub fn read_from(bytes: &[u8], off: usize) -> (r: (usize, NopOp))
        requires
            off <= bytes@.len(),
        ensures
            bytes_at(bytes@, off as int, r.1.enc()),
            r.0 == r.1.enc().len(),
    {
        proof {
            assert(bytes@.subrange(off as int, off as int) =~= Seq::<u8>::empty());
        }
        (0, NopOp)
    }
}

} // verus!
