//! The return operation: a terminal that consumes one operand of the
//! recorded type and targets no block.

use vstd::prelude::*;

use crate::ir_types::{IrInputTypeId, IrOutputTypeId, IrTypeId};
use crate::ops::bytes_at;
use crate::ops::op::Op;
use crate::ops::opcode::Opcode;

verus! {

#[derive(Clone, Copy, Debug, PartialEq, Eq, Structural)]
pub struct RetOp {
    pub tyid: IrTypeId,
}

impl RetOp {
    /// The payload is the returned operand's type tag.
    pub open spec fn enc(self) -> Seq<u8> {
        seq![self.tyid.tag()]
    }

    pub fn new(tyid: IrTypeId) -> (r: RetOp)
        ensures
            r == (RetOp { tyid }),
    {
        RetOp { tyid }
    }

    pub fn opcode(&self) -> (r: Opcode)
        ensures
            r == Opcode::Ret,
    {
        Opcode::Ret
    }

    pub fn terminal(&self) -> (r: bool)
        ensures
            r,
    {
        true
    }

    pub fn op(&self) -> (r: Op)
        ensures
            r == Op::Ret(*self),
    {
        Op::Ret(*self)
    }

    pub fn out_type(&self) -> (r: IrOutputTypeId)
        ensures
            r == IrOutputTypeId::Void,
    {
        IrOutputTypeId::Void
    }

    pub fn in_type(&self) -> (r: IrInputTypeId)
        ensures
            r == IrInputTypeId::Specific(self.tyid),
    {
        IrInputTypeId::Specific(self.tyid)
    }

    pub fn num_operands(&self) -> (r: u32)
        ensures
            r == 1,
    {
        1
    }

    pub fn num_targets(&self) -> (r: u32)
        ensures
            r == 0,
    {
        0
    }

    /// Writes the payload: the operand type tag.
    pub fn write_to(&self, vec: &mut Vec<u8>)
        ensures
            final(vec)@ == old(vec)@ + self.enc(),
    {
        vec.push(self.tyid.into_u8());
        assert(vec@ =~= old(vec)@ + self.enc());
    }

    /// Reads a payload back; the inverse of `write_to`: on bytes an
    /// encoder wrote, it returns the value the encoder was given.
    pub fn read_from(bytes: &[u8], off: usize) -> (r: (usize, RetOp))
        requires
            exists|op: RetOp| bytes_at(bytes@, off as int, op.enc()),
        ensures
            bytes_at(bytes@, off as int, r.1.enc()),
            r.0 == r.1.enc().len(),
            forall|op: RetOp| bytes_at(bytes@, off as int, op.enc()) ==> op == r.1,
    {
        let ghost w = choose|op: RetOp| bytes_at(bytes@, off as int, op.enc());
        proof {
            assert(bytes@.subrange(off as int, off + 1)[0] == bytes@[off as int]);
        }
        let tyid = IrTypeId::from_u8(bytes[off]);
        let r = RetOp { tyid };
        proof {
            assert(bytes@.subrange(off as int, off + 1) =~= r.enc());
        }
        (1, r)
    }
}

} // verus!
