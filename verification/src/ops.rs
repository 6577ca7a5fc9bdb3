//! Operations: the closed family of opcodes, each with a payload
//! codec, an input arity, a target count, and an output type.

pub mod opcode;
pub mod nop_op;
pub mod phi_op;
pub mod const_op;
pub mod cmp_op;
pub mod bini_op;
pub mod ret_op;
pub mod jump_op;
pub mod branch_op;
pub mod op;

pub use opcode::Opcode;
pub use nop_op::NopOp;
pub use phi_op::PhiOp;
pub use const_op::ConstOp;
pub use cmp_op::{CmpKind, CmpOp};
pub use bini_op::{BiniKind, BiniOp};
pub use ret_op::RetOp;
pub use jump_op::JumpOp;
pub use branch_op::BranchOp;
pub use op::Op;

use vstd::prelude::*;

verus! {

/// The bytes `enc` sit in `s` starting at `off`.
pub open spec fn bytes_at(s: Seq<u8>, off: int, enc: Seq<u8>) -> bool {
    &&& 0 <= off
    &&& off + enc.len() <= s.len()
    &&& s.subrange(off, off + enc.len() as int) == enc
}

/// A concatenation sits at `off` exactly when its parts sit at `off`
/// and at `off` plus the length of the first part.
pub proof fn lemma_bytes_at_split(s: Seq<u8>, off: int, a: Seq<u8>, b: Seq<u8>)
    ensures
        bytes_at(s, off, a + b) <==> (bytes_at(s, off, a) && bytes_at(s, off + a.len(), b)),
{
    if bytes_at(s, off, a + b) {
        assert(s.subrange(off, off + a.len() as int) =~= a) by {
            assert forall|j: int| 0 <= j < a.len() implies s[off + j] == a[j] by {
                assert(s.subrange(off, off + (a + b).len() as int)[j] == (a + b)[j]);
            }
        }
        assert(s.subrange(off + a.len(), off + a.len() + b.len() as int) =~= b) by {
            assert forall|j: int| 0 <= j < b.len() implies s[off + a.len() + j] == b[j] by {
                assert(s.subrange(off, off + (a + b).len() as int)[a.len() + j]
                    == (a + b)[a.len() + j]);
            }
        }
    }
    if bytes_at(s, off, a) && bytes_at(s, off + a.len(), b) {
        assert(s.subrange(off, off + (a + b).len() as int) =~= a + b) by {
            assert forall|j: int| 0 <= j < (a + b).len() implies
                s[off + j] == (a + b)[j] by {
                if j < a.len() {
                    assert(s.subrange(off, off + a.len() as int)[j] == a[j]);
                } else {
                    assert(s.subrange(off + a.len(), off + a.len() + b.len() as int)[
                        j - a.len()] == b[j - a.len()]);
                }
            }
        }
    }
}

/// Whatever sits at `off` still sits there when the buffer grows at
/// the end.
pub proof fn lemma_bytes_at_extend(s: Seq<u8>, t: Seq<u8>, off: int, e: Seq<u8>)
    requires
        bytes_at(s, off, e),
    ensures
        bytes_at(s + t, off, e),
{
    assert((s + t).subrange(off, off + e.len() as int) =~= e) by {
        assert forall|j: int| 0 <= j < e.len() implies (s + t)[off + j] == e[j] by {
            assert(s.subrange(off, off + e.len() as int)[j] == s[off + j]);
        }
    }
}

} // verus!
