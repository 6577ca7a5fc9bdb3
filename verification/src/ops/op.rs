//! The sum of all operations, with the codec for the opcode byte and
//! the operation payload together.

use vstd::prelude::*;

use crate::ir_types::{IrOutputTypeId, IrTypeId};
use crate::ops::{bytes_at, lemma_bytes_at_split};
use crate::ops::bini_op::BiniOp;
use crate::ops::branch_op::BranchOp;
use crate::ops::cmp_op::CmpOp;
use crate::ops::const_op::ConstOp;
use crate::ops::jump_op::JumpOp;
use crate::ops::nop_op::NopOp;
use crate::ops::opcode::Opcode;
use crate::ops::phi_op::PhiOp;
use crate::ops::ret_op::RetOp;

verus! {

#[derive(Clone, Copy, Debug, PartialEq, Eq, Structural)]
pub enum Op {
    Nop(NopOp),
    Phi(PhiOp),
    Const(ConstOp),
    Cmp(CmpOp),
    Bini(BiniOp),
    Ret(RetOp),
    Branch(BranchOp),
    Jump(JumpOp),
}

impl Op {
    /// The opcode of this operation.
    pub open spec fn spec_opcode(self) -> Opcode {
        match self {
            Op::Nop(_) => Opcode::Nop,
            Op::Phi(_) => Opcode::Phi,
            Op::Const(_) => Opcode::Const,
            Op::Cmp(_) => Opcode::Cmp,
            Op::Bini(_) => Opcode::Bini,
            Op::Ret(_) => Opcode::Ret,
            Op::Branch(_) => Opcode::Branch,
            Op::Jump(_) => Opcode::Jump,
        }
    }

    /// The payload bytes of this operation.
    pub open spec fn payload_enc(self) -> Seq<u8> {
        match self {
            Op::Nop(op) => op.enc(),
            Op::Phi(op) => op.enc(),
            Op::Const(op) => op.enc(),
            Op::Cmp(op) => op.enc(),
            Op::Bini(op) => op.enc(),
            Op::Ret(op) => op.enc(),
            Op::Branch(op) => op.enc(),
            Op::Jump(op) => op.enc(),
        }
    }

    /// The full head encoding: opcode byte, then payload.
    pub open spec fn enc(self) -> Seq<u8> {
        seq![self.spec_opcode().code()] + self.payload_enc()
    }

    /// Whether the operation ends a block.
    pub open spec fn spec_terminal(self) -> bool {
        match self {
            Op::Ret(_) | Op::Branch(_) | Op::Jump(_) => true,
            _ => false,
        }
    }

    /// How many input operands the operation reads.
    pub open spec fn spec_num_inputs(self) -> u32 {
        match self {
            Op::Nop(_) => 0,
            Op::Phi(_) => 0,
            Op::Const(_) => 0,
            Op::Cmp(_) => 2,
            Op::Bini(_) => 2,
            Op::Ret(_) => 1,
            Op::Branch(_) => 1,
            Op::Jump(_) => 0,
        }
    }

    /// How many target blocks a terminal names.
    pub open spec fn spec_num_targets(self) -> u32 {
        match self {
            Op::Ret(_) => 0,
            Op::Branch(_) => 2,
            Op::Jump(_) => 1,
            _ => 0,
        }
    }

    /// The output type; `Void` for terminals and nops.
    pub open spec fn spec_out_type(self) -> IrOutputTypeId {
        match self {
            Op::Nop(_) => IrOutputTypeId::Void,
            Op::Phi(op) => IrOutputTypeId::Specific(op.tyid),
            Op::Const(op) => IrOutputTypeId::Specific(op.spec_tyid()),
            Op::Cmp(_) => IrOutputTypeId::Specific(IrTypeId::Bool),
            Op::Bini(op) => IrOutputTypeId::Specific(op.tyid),
            Op::Ret(_) => IrOutputTypeId::Void,
            Op::Branch(_) => IrOutputTypeId::Void,
            Op::Jump(_) => IrOutputTypeId::Void,
        }
    }

    pub fn opcode(&self) -> (r: Opcode)
        ensures
            r == self.spec_opcode(),
    {
        match self {
            Op::Nop(_) => Opcode::Nop,
            Op::Phi(_) => Opcode::Phi,
            Op::Const(_) => Opcode::Const,
            Op::Cmp(_) => Opcode::Cmp,
            Op::Bini(_) => Opcode::Bini,
            Op::Ret(_) => Opcode::Ret,
            Op::Branch(_) => Opcode::Branch,
            Op::Jump(_) => Opcode::Jump,
        }
    }

    pub fn terminal(&self) -> (r: bool)
        ensures
            r == self.spec_terminal(),
    {
        match self {
            Op::Ret(_) | Op::Branch(_) | Op::Jump(_) => true,
            _ => false,
        }
    }

    pub fn num_inputs(&self) -> (r: u32)
        ensures
            r == self.spec_num_inputs(),
    {
        match self {
            Op::Nop(_) => 0,
            Op::Phi(_) => 0,
            Op::Const(_) => 0,
            Op::Cmp(_) => 2,
            Op::Bini(_) => 2,
            Op::Ret(_) => 1,
            Op::Branch(_) => 1,
            Op::Jump(_) => 0,
        }
    }

    pub fn num_targets(&self) -> (r: u32)
        ensures
            r == self.spec_num_targets(),
    {
        match self {
            Op::Ret(_) => 0,
            Op::Branch(_) => 2,
            Op::Jump(_) => 1,
            _ => 0,
        }
    }

    pub fn out_type(&self) -> (r: IrOutputTypeId)
        ensures
            r == self.spec_out_type(),
    {
        match self {
            Op::Nop(op) => op.out_type(),
            Op::Phi(op) => op.out_type(),
            Op::Const(op) => op.out_type(),
            Op::Cmp(op) => op.out_type(),
            Op::Bini(op) => op.out_type(),
            Op::Ret(op) => op.out_type(),
            Op::Branch(op) => op.out_type(),
            Op::Jump(op) => op.out_type(),
        }
    }

    /// Writes the opcode byte and the payload.
    pub fn write_to(&self, vec: &mut Vec<u8>)
        ensures
            final(vec)@ == old(vec)@ + self.enc(),
    {
        vec.push(self.opcode().into_u8());
        match self {
            Op::Nop(op) => op.write_to(vec),
            Op::Phi(op) => op.write_to(vec),
            Op::Const(op) => op.write_to(vec),
            Op::Cmp(op) => op.write_to(vec),
            Op::Bini(op) => op.write_to(vec),
            Op::Ret(op) => op.write_to(vec),
            Op::Branch(op) => op.write_to(vec),
            Op::Jump(op) => op.write_to(vec),
        }
        assert(vec@ =~= old(vec)@ + self.enc());
    }

    /// Reads an operation head back; the inverse of `write_to`: on
    /// bytes an encoder wrote, it returns the operation the encoder
    /// was given, and consumes exactly the bytes written.
    pub fn read_from(bytes: &[u8], off: usize) -> (r: (usize, Op))
        requires
            exists|op: Op| bytes_at(bytes@, off as int, op.enc()),
        ensures
            bytes_at(bytes@, off as int, r.1.enc()),
            r.0 == r.1.enc().len(),
            forall|op: Op| bytes_at(bytes@, off as int, op.enc()) ==> op == r.1,
    {
        let ghost w = choose|op: Op| bytes_at(bytes@, off as int, op.enc());
        proof {
            lemma_bytes_at_split(
                bytes@, off as int, seq![w.spec_opcode().code()], w.payload_enc());
            assert(bytes@.subrange(off as int, off + 1)[0] == bytes@[off as int]);
            assert(bytes@[off as int] == w.spec_opcode().code());
        }
        let code = bytes[off];
        let (n, r) = if code == 1 {
            proof { assert(w is Nop); }
            let (n, op) = NopOp::read_from(bytes, off + 1);
            (n, Op::Nop(op))
        } else if code == 2 {
            proof { assert(w is Phi); }
            let (n, op) = PhiOp::read_from(bytes, off + 1);
            (n, Op::Phi(op))
        } else if code == 3 {
            proof { assert(w is Const); }
            let (n, op) = ConstOp::read_from(bytes, off + 1);
            (n, Op::Const(op))
        } else if code == 4 {
            proof { assert(w is Cmp); }
            let (n, op) = CmpOp::read_from(bytes, off + 1);
            (n, Op::Cmp(op))
        } else if code == 5 {
            proof { assert(w is Bini); }
            let (n, op) = BiniOp::read_from(bytes, off + 1);
            (n, Op::Bini(op))
        } else if code == 6 {
            proof { assert(w is Ret); }
            let (n, op) = RetOp::read_from(bytes, off + 1);
            (n, Op::Ret(op))
        } else if code == 7 {
            proof { assert(w is Branch); }
            let (n, op) = BranchOp::read_from(bytes, off + 1);
            (n, Op::Branch(op))
        } else {
            proof { assert(w is Jump); }
            let (n, op) = JumpOp::read_from(bytes, off + 1);
            (n, Op::Jump(op))
        };
        proof {
            lemma_bytes_at_split(bytes@, off as int, seq![code], r.payload_enc());
            assert(bytes@.subrange(off as int, off + 1) =~= seq![code]);
            assert(r.enc() =~= seq![code] + r.payload_enc());
            assert forall|op: Op| bytes_at(bytes@, off as int, op.enc()) implies op == r by {
                lemma_bytes_at_split(
                    bytes@, off as int, seq![op.spec_opcode().code()], op.payload_enc());
                assert(bytes@.subrange(off as int, off + 1)[0] == bytes@[off as int]);
                assert(op.spec_opcode().code() == code);
                lemma_payload_unique(bytes@, off as int + 1, op, r);
            }
        }
        (1 + n, r)
    }
}

/// An operation head is at most thirteen bytes: the opcode byte and a
/// payload of at most a tag, a kind, and one ten-byte varint.
pub proof fn lemma_op_enc_len(op: Op)
    ensures
        1 <= op.enc().len() <= 13,
{
    match op {
        Op::Const(c) => match c {
            ConstOp::Bool(_) => {}
            ConstOp::Int32(v) => {
                crate::leb128::lemma_leb_len(v as u64);
            }
            ConstOp::Int64(v) => {
                crate::leb128::lemma_leb_len(v);
            }
        },
        _ => {}
    }
}

/// Two operations of the same opcode whose payloads sit at the same
/// place are the same operation.
proof fn lemma_payload_unique(s: Seq<u8>, off: int, a: Op, b: Op)
    requires
        a.spec_opcode() == b.spec_opcode(),
        bytes_at(s, off, a.payload_enc()),
        bytes_at(s, off, b.payload_enc()),
    ensures
        a == b,
{
    match (a, b) {
        (Op::Phi(pa), Op::Phi(pb)) => {
            assert(s.subrange(off, off + 1)[0] == s[off]);
            assert(pa.tyid.tag() == s[off] && pb.tyid.tag() == s[off]);
        }
        (Op::Cmp(pa), Op::Cmp(pb)) => {
            assert(s.subrange(off, off + 2)[0] == s[off]);
            assert(s.subrange(off, off + 2)[1] == s[off + 1]);
        }
        (Op::Bini(pa), Op::Bini(pb)) => {
            assert(s.subrange(off, off + 2)[0] == s[off]);
            assert(s.subrange(off, off + 2)[1] == s[off + 1]);
        }
        (Op::Ret(pa), Op::Ret(pb)) => {
            assert(s.subrange(off, off + 1)[0] == s[off]);
        }
        (Op::Const(pa), Op::Const(pb)) => {
            lemma_const_unique(s, off, pa, pb);
        }
        _ => {}
    }
}

proof fn lemma_const_unique(s: Seq<u8>, off: int, a: ConstOp, b: ConstOp)
    requires
        bytes_at(s, off, a.enc()),
        bytes_at(s, off, b.enc()),
    ensures
        a == b,
{
    assert(s.subrange(off, off + a.enc().len() as int)[0] == s[off]);
    assert(s.subrange(off, off + b.enc().len() as int)[0] == s[off]);
    assert(a.enc()[0] == s[off] && b.enc()[0] == s[off]);
    match (a, b) {
        (ConstOp::Bool(ba), ConstOp::Bool(bb)) => {
            assert(s.subrange(off, off + 2)[1] == s[off + 1]);
        }
        (ConstOp::Int32(ia), ConstOp::Int32(ib)) => {
            crate::ops::lemma_bytes_at_split(s, off, seq![2u8], crate::leb128::leb(ia as u64));
            crate::ops::lemma_bytes_at_split(s, off, seq![2u8], crate::leb128::leb(ib as u64));
            assert(a.enc() =~= seq![2u8] + crate::leb128::leb(ia as u64));
            assert(b.enc() =~= seq![2u8] + crate::leb128::leb(ib as u64));
            crate::leb128::lemma_leb_unique(s, off + 1, ia as u64, ib as u64);
        }
        (ConstOp::Int64(ia), ConstOp::Int64(ib)) => {
            crate::ops::lemma_bytes_at_split(s, off, seq![3u8], crate::leb128::leb(ia));
            crate::ops::lemma_bytes_at_split(s, off, seq![3u8], crate::leb128::leb(ib));
            assert(a.enc() =~= seq![3u8] + crate::leb128::leb(ia));
            assert(b.enc() =~= seq![3u8] + crate::leb128::leb(ib));
            crate::leb128::lemma_leb_unique(s, off + 1, ia, ib);
        }
        _ => {}
    }
}

} // verus!
