//! Binary integer operations: two operands of one type, result of the
//! same type.

use vstd::prelude::*;

use crate::ir_types::{IrInputTypeId, IrOutputTypeId, IrTypeId};
use crate::ops::bytes_at;
use crate::ops::op::Op;
use crate::ops::opcode::Opcode;

verus! {

/// The operation kind, encoded as one byte.
#[derive(Clone, Copy, Debug, PartialEq, Eq, Structural)]
pub enum BiniKind {
    Add,
    Sub,
    Mul,
    And,
    Or,
    Xor,
}

impl BiniKind {
    /// The byte that encodes this kind.
    pub open spec fn code(self) -> u8 {
        match self {
            BiniKind::Add => 1,
            BiniKind::Sub => 2,
            BiniKind::Mul => 3,
            BiniKind::And => 4,
            BiniKind::Or => 5,
            BiniKind::Xor => 6,
        }
    }

    /// Whether `code` encodes some kind.
    pub open spec fn spec_valid_code(code: u8) -> bool {
        1 <= code <= 6
    }

    pub fn is_valid_code(code: u8) -> (r: bool)
        ensures
            r == BiniKind::spec_valid_code(code),
    {
        1 <= code && code <= 6
    }

    pub fn from_u8(code: u8) -> (r: BiniKind)
        requires
            BiniKind::spec_valid_code(code),
        ensures
            r.code() == code,
    {
        if code == 1 {
            BiniKind::Add
        } else if code == 2 {
            BiniKind::Sub
        } else if code == 3 {
            BiniKind::Mul
        } else if code == 4 {
            BiniKind::And
        } else if code == 5 {
            BiniKind::Or
        } else {
            BiniKind::Xor
        }
    }

    pub fn into_u8(self) -> (r: u8)
        ensures
            r == self.code(),
    {
        match self {
            BiniKind::Add => 1,
            BiniKind::Sub => 2,
            BiniKind::Mul => 3,
            BiniKind::And => 4,
            BiniKind::Or => 5,
            BiniKind::Xor => 6,
        }
    }

    /// The kind as a printable name.
    pub open spec fn spec_name(self) -> Seq<char> {
        match self {
            BiniKind::Add => "Add"@,
            BiniKind::Sub => "Sub"@,
            BiniKind::Mul => "Mul"@,
            BiniKind::And => "And"@,
            BiniKind::Or => "Or"@,
            BiniKind::Xor => "Xor"@,
        }
    }

    pub fn as_str(self) -> (r: &'static str)
        ensures
            r@ == self.spec_name(),
    {
        match self {
            BiniKind::Add => "Add",
            BiniKind::Sub => "Sub",
            BiniKind::Mul => "Mul",
            BiniKind::And => "And",
            BiniKind::Or => "Or",
            BiniKind::Xor => "Xor",
        }
    }
}

#[derive(Clone, Copy, Debug, PartialEq, Eq, Structural)]
pub struct BiniOp {
    pub kind: BiniKind,
    pub tyid: IrTypeId,
}

impl BiniOp {
    /// The payload is the kind byte then the operand type tag.
    pub open spec fn enc(self) -> Seq<u8> {
        seq![self.kind.code(), self.tyid.tag()]
    }

    pub fn new(kind: BiniKind, tyid: IrTypeId) -> (r: BiniOp)
        ensures
            r == (BiniOp { kind, tyid }),
    {
        BiniOp { kind, tyid }
    }

    pub fn kind(&self) -> (r: BiniKind)
        ensures
            r == self.kind,
    {
        self.kind
    }

    pub fn tyid(&self) -> (r: IrTypeId)
        ensures
            r == self.tyid,
    {
        self.tyid
    }

    pub fn opcode(&self) -> (r: Opcode)
        ensures
            r == Opcode::Bini,
    {
        Opcode::Bini
    }

    pub fn op(&self) -> (r: Op)
        ensures
            r == Op::Bini(*self),
    {
        Op::Bini(*self)
    }

    /// The result has the operand type.
    pub fn out_type(&self) -> (r: IrOutputTypeId)
        ensures
            r == IrOutputTypeId::Specific(self.tyid),
    {
        IrOutputTypeId::Specific(self.tyid)
    }

    pub fn in_type(&self) -> (r: IrInputTypeId)
        ensures
            r == IrInputTypeId::Specific(self.tyid),
    {
        IrInputTypeId::Specific(self.tyid)
    }

    pub fn num_operands(&self) -> (r: u32)
        ensures
            r == 2,
    {
        2
    }

    /// Writes the payload: kind byte, then type tag.
    pub fn write_to(&self, vec: &mut Vec<u8>)
        ensures
            final(vec)@ == old(vec)@ + self.enc(),
    {
        vec.push(self.kind.into_u8());
        vec.push(self.tyid.into_u8());
        assert(vec@ =~= old(vec)@ + self.enc());
    }

    /// Reads a payload back; the inverse of `write_to`: on bytes an
    /// encoder wrote, it returns the value the encoder was given.
    pub fn read_from(bytes: &[u8], off: usize) -> (r: (usize, BiniOp))
        requires
            exists|op: BiniOp| bytes_at(bytes@, off as int, op.enc()),
        ensures
            bytes_at(bytes@, off as int, r.1.enc()),
            r.0 == r.1.enc().len(),
            forall|op: BiniOp| bytes_at(bytes@, off as int, op.enc()) ==> op == r.1,
    {
        let ghost w = choose|op: BiniOp| bytes_at(bytes@, off as int, op.enc());
        proof {
            assert(bytes@.subrange(off as int, off + 2)[0] == bytes@[off as int]);
            assert(bytes@.subrange(off as int, off + 2)[1] == bytes@[off + 1]);
        }
        let kind = BiniKind::from_u8(bytes[off]);
        let tyid = IrTypeId::from_u8(bytes[off + 1]);
        let r = BiniOp { kind, tyid };
        proof {
            assert(bytes@.subrange(off as int, off + 2) =~= r.enc());
        }
        (2, r)
    }
}

} // verus!
