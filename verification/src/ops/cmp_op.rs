//! The comparison operation: two operands of one type, boolean result.

use vstd::prelude::*;

use crate::ir_types::{IrInputTypeId, IrOutputTypeId, IrTypeId};
use crate::ops::bytes_at;
use crate::ops::op::Op;
use crate::ops::opcode::Opcode;

verus! {

/// The comparison kind, encoded as one byte.
#[derive(Clone, Copy, Debug, PartialEq, Eq, Structural)]
pub enum CmpKind {
    Lt,
    Gt,
    Le,
    Ge,
    Eq,
    Ne,
}

impl CmpKind {
    /// The byte that encodes this kind.
    pub open spec fn code(self) -> u8 {
        match self {
            CmpKind::Lt => 1,
            CmpKind::Gt => 2,
            CmpKind::Le => 3,
            CmpKind::Ge => 4,
            CmpKind::Eq => 5,
            CmpKind::Ne => 6,
        }
    }

    /// Whether `code` encodes some kind.
    pub open spec fn spec_valid_code(code: u8) -> bool {
        1 <= code <= 6
    }

    pub fn is_valid_code(code: u8) -> (r: bool)
        ensures
            r == CmpKind::spec_valid_code(code),
    {
        1 <= code && code <= 6
    }

    pub fn from_u8(code: u8) -> (r: CmpKind)
        requires
            CmpKind::spec_valid_code(code),
        ensures
            r.code() == code,
    {
        if code == 1 {
            CmpKind::Lt
        } else if code == 2 {
            CmpKind::Gt
        } else if code == 3 {
            CmpKind::Le
        } else if code == 4 {
            CmpKind::Ge
        } else if code == 5 {
            CmpKind::Eq
        } else {
            CmpKind::Ne
        }
    }

    pub fn into_u8(self) -> (r: u8)
        ensures
            r == self.code(),
    {
        match self {
            CmpKind::Lt => 1,
            CmpKind::Gt => 2,
            CmpKind::Le => 3,
            CmpKind::Ge => 4,
            CmpKind::Eq => 5,
            CmpKind::Ne => 6,
        }
    }

    /// The kind as a printable name.
    pub open spec fn spec_name(self) -> Seq<char> {
        match self {
            CmpKind::Lt => "Lt"@,
            CmpKind::Gt => "Gt"@,
            CmpKind::Le => "Le"@,
            CmpKind::Ge => "Ge"@,
            CmpKind::Eq => "Eq"@,
            CmpKind::Ne => "Ne"@,
        }
    }

    pub fn as_str(&self) -> (r: &'static str)
        ensures
            r@ == self.spec_name(),
    {
        match *self {
            CmpKind::Lt => "Lt",
            CmpKind::Gt => "Gt",
            CmpKind::Le => "Le",
            CmpKind::Ge => "Ge",
            CmpKind::Eq => "Eq",
            CmpKind::Ne => "Ne",
        }
    }
}

#[derive(Clone, Copy, Debug, PartialEq, Eq, Structural)]
pub struct CmpOp {
    pub kind: CmpKind,
    pub tyid: IrTypeId,
}

impl CmpOp {
    /// The payload is the kind byte then the operand type tag.
    pub open spec fn enc(self) -> Seq<u8> {
        seq![self.kind.code(), self.tyid.tag()]
    }

    pub fn new(kind: CmpKind, tyid: IrTypeId) -> (r: CmpOp)
        ensures
            r == (CmpOp { kind, tyid }),
    {
        CmpOp { kind, tyid }
    }

    pub fn opcode(&self) -> (r: Opcode)
        ensures
            r == Opcode::Cmp,
    {
        Opcode::Cmp
    }

    pub fn op(&self) -> (r: Op)
        ensures
            r == Op::Cmp(*self),
    {
        Op::Cmp(*self)
    }

    /// A comparison always produces a boolean.
    pub fn out_type(&self) -> (r: IrOutputTypeId)
        ensures
            r == IrOutputTypeId::Specific(IrTypeId::Bool),
    {
        IrOutputTypeId::Specific(IrTypeId::Bool)
    }

    pub fn in_type(&self) -> (r: IrInputTypeId)
        ensures
            r == IrInputTypeId::Specific(self.tyid),
    {
        IrInputTypeId::Specific(self.tyid)
    }

    pub fn num_operands(&self) -> (r: u32)
        ensures
            r == 2,
    {
        2
    }

    /// Writes the payload: kind byte, then type tag.
    pub fn write_to(&self, vec: &mut Vec<u8>)
        ensures
            final(vec)@ == old(vec)@ + self.enc(),
    {
        vec.push(self.kind.into_u8());
        vec.push(self.tyid.into_u8());
        assert(vec@ =~= old(vec)@ + self.enc());
    }

    /// Reads a payload back; the inverse of `write_to`: on bytes an
    /// encoder wrote, it returns the value the encoder was given.
    pub fn read_from(bytes: &[u8], off: usize) -> (r: (usize, CmpOp))
        requires
            exists|op: CmpOp| bytes_at(bytes@, off as int, op.enc()),
        ensures
            bytes_at(bytes@, off as int, r.1.enc()),
            r.0 == r.1.enc().len(),
            forall|op: CmpOp| bytes_at(bytes@, off as int, op.enc()) ==> op == r.1,
    {
        let ghost w = choose|op: CmpOp| bytes_at(bytes@, off as int, op.enc());
        proof {
            assert(bytes@.subrange(off as int, off + 2)[0] == bytes@[off as int]);
            assert(bytes@.subrange(off as int, off + 2)[1] == bytes@[off + 1]);
        }
        let kind = CmpKind::from_u8(bytes[off]);
        let tyid = IrTypeId::from_u8(bytes[off + 1]);
        let r = CmpOp { kind, tyid };
        proof {
            assert(bytes@.subrange(off as int, off + 2) =~= r.enc());
        }
        (2, r)
    }
}

} // verus!
