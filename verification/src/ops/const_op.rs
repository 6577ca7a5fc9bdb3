//! The constant operation: introduces a boolean or integer value. The
//! payload carries the type tag and the value: booleans as one byte,
//! integers in unsigned LEB128.

use vstd::prelude::*;

use crate::ir_types::{IrOutputTypeId, IrTypeId};
use crate::leb128::{leb, read_leb128u, write_leb128u};
use crate::ops::{bytes_at, lemma_bytes_at_split};
use crate::ops::op::Op;
use crate::ops::opcode::Opcode;

verus! {

#[derive(Clone, Copy, Debug, PartialEq, Eq, Structural)]
pub enum ConstOp {
    Bool(bool),
    Int32(u32),
    Int64(u64),
}

impl ConstOp {
    /// The payload: the type tag, then the value.
    pub open spec fn enc(self) -> Seq<u8> {
        match self {
            ConstOp::Bool(b) => seq![
                IrTypeId::Bool.tag(),
                if b { 1u8 } else { 0u8 },
            ],
            ConstOp::Int32(i) => seq![IrTypeId::Int32.tag()] + leb(i as u64),
            ConstOp::Int64(i) => seq![IrTypeId::Int64.tag()] + leb(i),
        }
    }

    pub fn new_bool(b: bool) -> (r: ConstOp)
        ensures
            r == ConstOp::Bool(b),
    {
        ConstOp::Bool(b)
    }

    pub fn new_int32(i: u32) -> (r: ConstOp)
        ensures
            r == ConstOp::Int32(i),
    {
        ConstOp::Int32(i)
    }

    pub fn new_int64(i: u64) -> (r: ConstOp)
        ensures
            r == ConstOp::Int64(i),
    {
        ConstOp::Int64(i)
    }

    /// The type of the constant.
    pub open spec fn spec_tyid(self) -> IrTypeId {
        match self {
            ConstOp::Bool(_) => IrTypeId::Bool,
            ConstOp::Int32(_) => IrTypeId::Int32,
            ConstOp::Int64(_) => IrTypeId::Int64,
        }
    }

    pub fn tyid(&self) -> (r: IrTypeId)
        ensures
            r == self.spec_tyid(),
    {
        match *self {
            ConstOp::Bool(_) => IrTypeId::Bool,
            ConstOp::Int32(_) => IrTypeId::Int32,
            ConstOp::Int64(_) => IrTypeId::Int64,
        }
    }

    pub fn opcode(&self) -> (r: Opcode)
        ensures
            r == Opcode::Const,
    {
        Opcode::Const
    }

    pub fn op(&self) -> (r: Op)
        ensures
            r == Op::Const(*self),
    {
        Op::Const(*self)
    }

    pub fn out_type(&self) -> (r: IrOutputTypeId)
        ensures
            r == IrOutputTypeId::Specific(self.spec_tyid()),
    {
        IrOutputTypeId::Specific(self.tyid())
    }

    pub fn num_operands(&self) -> (r: u32)
        ensures
            r == 0,
    {
        0
    }

    /// Writes the payload: type tag, then the value bytes.
    pub fn write_to(&self, vec: &mut Vec<u8>)
        ensures
            final(vec)@ == old(vec)@ + self.enc(),
    {
        match *self {
            ConstOp::Bool(b) => {
                vec.push(IrTypeId::Bool.into_u8());
                vec.push(if b { 1 } else { 0 });
            }
            ConstOp::Int32(i) => {
                vec.push(IrTypeId::Int32.into_u8());
                write_leb128u(i as u64, vec);
            }
            ConstOp::Int64(i) => {
                vec.push(IrTypeId::Int64.into_u8());
                write_leb128u(i, vec);
            }
        }
        assert(vec@ =~= old(vec)@ + self.enc());
    }

    /// Reads a payload back; the inverse of `write_to`: on bytes an
    /// encoder wrote, it returns the value the encoder was given.
    pub fn read_from(bytes: &[u8], off: usize) -> (r: (usize, ConstOp))
        requires
            exists|op: ConstOp| bytes_at(bytes@, off as int, op.enc()),
        ensures
            bytes_at(bytes@, off as int, r.1.enc()),
            r.0 == r.1.enc().len(),
            forall|op: ConstOp| bytes_at(bytes@, off as int, op.enc()) ==> op == r.1,
    {
        let ghost w = choose|op: ConstOp| bytes_at(bytes@, off as int, op.enc());
        proof {
            assert(bytes@.subrange(off as int, off + w.enc().len() as int)[0]
                == bytes@[off as int]);
            assert(bytes@[off as int] == w.enc()[0]);
        }
        let tag = bytes[off];
        if tag == 1 {
            proof {
                assert(w is Bool);
                assert(bytes@.subrange(off as int, off + 2)[1] == bytes@[off + 1]);
            }
            let v = bytes[off + 1];
            let r = ConstOp::Bool(v == 1);
            proof {
                assert(bytes@.subrange(off as int, off + 2) =~= r.enc());
                assert forall|op: ConstOp| bytes_at(bytes@, off as int, op.enc())
                    implies op == r by {
                    assert(op.enc()[0] == bytes@[off as int]);
                    assert(op is Bool);
                    assert(op.enc()[1] == bytes@[off + 1]);
                }
            }
            (2, r)
        } else if tag == 2 {
            proof {
                assert(w is Int32);
                let wi = w->Int32_0;
                lemma_bytes_at_split(bytes@, off as int, seq![2u8], leb(wi as u64));
                assert(w.enc() =~= seq![2u8] + leb(wi as u64));
                assert(crate::leb128::leb_at(bytes@, off as int + 1, wi as u64));
            }
            let (n, v64) = read_leb128u(bytes, off + 1);
            proof {
                let wi = w->Int32_0;
                assert(v64 == wi as u64);
            }
            let r = ConstOp::Int32(v64 as u32);
            proof {
                assert(r.enc() =~= seq![2u8] + leb(v64));
                lemma_bytes_at_split(bytes@, off as int, seq![2u8], leb(v64));
                assert(bytes@.subrange(off as int, off + 1) =~= seq![2u8]);
                assert forall|op: ConstOp| bytes_at(bytes@, off as int, op.enc())
                    implies op == r by {
                    assert(op.enc()[0] == bytes@[off as int]);
                    assert(op is Int32);
                    let oi = op->Int32_0;
                    assert(op.enc() =~= seq![2u8] + leb(oi as u64));
                    lemma_bytes_at_split(bytes@, off as int, seq![2u8], leb(oi as u64));
                    assert(crate::leb128::leb_at(bytes@, off as int + 1, oi as u64));
                    assert(oi as u64 == v64);
                }
            }
            (1 + n, r)
        } else {
            proof {
                assert(w is Int64);
                let wi = w->Int64_0;
                lemma_bytes_at_split(bytes@, off as int, seq![3u8], leb(wi));
                assert(w.enc() =~= seq![3u8] + leb(wi));
                assert(crate::leb128::leb_at(bytes@, off as int + 1, wi));
            }
            let (n, v64) = read_leb128u(bytes, off + 1);
            let r = ConstOp::Int64(v64);
            proof {
                assert(r.enc() =~= seq![3u8] + leb(v64));
                lemma_bytes_at_split(bytes@, off as int, seq![3u8], leb(v64));
                assert(bytes@.subrange(off as int, off + 1) =~= seq![3u8]);
                assert forall|op: ConstOp| bytes_at(bytes@, off as int, op.enc())
                    implies op == r by {
                    assert(op.enc()[0] == bytes@[off as int]);
                    assert(op is Int64);
                    let oi = op->Int64_0;
                    assert(op.enc() =~= seq![3u8] + leb(oi));
                    lemma_bytes_at_split(bytes@, off as int, seq![3u8], leb(oi));
                    assert(crate::leb128::leb_at(bytes@, off as int + 1, oi));
                    assert(oi == v64);
                }
            }
            (1 + n, r)
        }
    }
}

} // verus!
