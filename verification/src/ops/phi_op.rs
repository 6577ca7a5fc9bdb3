//! The phi operation: introduces a block-head value whose incoming
//! definitions are carried on predecessor terminals.

use vstd::prelude::*;

use crate::ir_types::{IrOutputTypeId, IrTypeId};
use crate::ops::bytes_at;
use crate::ops::op::Op;
use crate::ops::opcode::Opcode;

verus! {

#[derive(Clone, Copy, Debug, PartialEq, Eq, Structural)]
pub struct PhiOp {
    pub tyid: IrTypeId,
}

impl PhiOp {
    /// The payload is the single output type tag.
    pub open spec fn enc(self) -> Seq<u8> {
        seq![self.tyid.tag()]
    }

    pub fn new(tyid: IrTypeId) -> (r: PhiOp)
        ensures
            r == (PhiOp { tyid }),
    {
        PhiOp { tyid }
    }

    pub fn opcode(&self) -> (r: Opcode)
        ensures
            r == Opcode::Phi,
    {
        Opcode::Phi
    }

    pub fn op(&self) -> (r: Op)
        ensures
            r == Op::Phi(*self),
    {
        Op::Phi(*self)
    }

    pub fn out_type(&self) -> (r: IrOutputTypeId)
        ensures
            r == IrOutputTypeId::Specific(self.tyid),
    {
        IrOutputTypeId::Specific(self.tyid)
    }

    pub fn num_operands(&self) -> (r: u32)
        ensures
            r == 0,
    {
        0
    }

    /// Writes the payload: the output type tag.
    pub fn write_to(&self, vec: &mut Vec<u8>)
        ensures
            final(vec)@ == old(vec)@ + self.enc(),
    {
        vec.push(self.tyid.into_u8());
        assert(vec@ =~= old(vec)@ + self.enc());
    }

    /// Reads a payload back; the inverse of `write_to`: on bytes an
    /// encoder wrote, it returns the value the encoder was given.
    pub fn read_from(bytes: &[u8], off: usize) -> (r: (usize, PhiOp))
        requires
            exists|op: PhiOp| bytes_at(bytes@, off as int, op.enc()),
        ensures
            bytes_at(bytes@, off as int, r.1.enc()),
            r.0 == r.1.enc().len(),
            forall|op: PhiOp| bytes_at(bytes@, off as int, op.enc()) ==> op == r.1,
    {
        let ghost w = choose|op: PhiOp| bytes_at(bytes@, off as int, op.enc());
        proof {
            assert(bytes@.subrange(off as int, off + 1)[0] == bytes@[off as int]);
        }
        let tyid = IrTypeId::from_u8(bytes[off]);
        let r = PhiOp { tyid };
        proof {
            assert(bytes@.subrange(off as int, off + 1) =~= r.enc());
        }
        (1, r)
    }
}

} // verus!
