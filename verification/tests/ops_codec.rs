//! Payload round trips: writing an operation and reading it back at
//! the same place yields an equal value with the same byte count.

use cog_ir::ir_types::{IrOutputTypeId, IrTypeId};
use cog_ir::ops::{BiniKind, BiniOp, CmpKind, CmpOp, ConstOp, Op, Opcode, PhiOp, RetOp};

fn round_trip_op(op: Op) {
    let mut buf: Vec<u8> = vec![0xaa];
    op.write_to(&mut buf);
    let written = buf.len() - 1;
    buf.push(0xbb);
    let (n, back) = Op::read_from(&buf, 1);
    assert_eq!(n, written);
    assert!(back == op);
}

#[test]
fn const_payload_round_trip() {
    round_trip_op(Op::Const(ConstOp::new_bool(false)));
    round_trip_op(Op::Const(ConstOp::new_bool(true)));
    round_trip_op(Op::Const(ConstOp::new_int32(0)));
    round_trip_op(Op::Const(ConstOp::new_int32(4711)));
    round_trip_op(Op::Const(ConstOp::new_int32(u32::MAX)));
    round_trip_op(Op::Const(ConstOp::new_int64(0)));
    round_trip_op(Op::Const(ConstOp::new_int64(1 << 40)));
    round_trip_op(Op::Const(ConstOp::new_int64(u64::MAX)));
}

#[test]
fn cmp_payload_round_trip() {
    let kinds = [CmpKind::Lt, CmpKind::Gt, CmpKind::Le, CmpKind::Ge, CmpKind::Eq, CmpKind::Ne];
    let tys = [IrTypeId::Bool, IrTypeId::Int32, IrTypeId::Int64, IrTypeId::PtrInt];
    for kind in kinds {
        for tyid in tys {
            round_trip_op(Op::Cmp(CmpOp::new(kind, tyid)));
        }
    }
}

#[test]
fn bini_payload_round_trip() {
    let kinds = [BiniKind::Add, BiniKind::Sub, BiniKind::Mul, BiniKind::And, BiniKind::Or,
        BiniKind::Xor];
    for kind in kinds {
        round_trip_op(Op::Bini(BiniOp::new(kind, IrTypeId::Int64)));
    }
}

#[test]
fn tagged_payload_round_trip() {
    for tyid in [IrTypeId::Bool, IrTypeId::Int32, IrTypeId::Int64, IrTypeId::PtrInt] {
        round_trip_op(Op::Phi(PhiOp::new(tyid)));
        round_trip_op(Op::Ret(RetOp::new(tyid)));
    }
}

#[test]
fn const_int64_encoding_keeps_its_own_tag() {
    // the 64-bit constant must decode as a 64-bit constant, not
    // through the 32-bit path
    let mut buf: Vec<u8> = Vec::new();
    Op::Const(ConstOp::new_int64(7)).write_to(&mut buf);
    assert_eq!(buf[0], Opcode::Const.into_u8());
    assert_eq!(buf[1], IrTypeId::Int64.into_u8());
    let (_, back) = Op::read_from(&buf, 0);
    assert!(matches!(back, Op::Const(ConstOp::Int64(7))));
}

#[test]
fn opcode_codec() {
    let all = [Opcode::Nop, Opcode::Phi, Opcode::Const, Opcode::Cmp, Opcode::Bini, Opcode::Ret,
        Opcode::Branch, Opcode::Jump];
    for opcode in all {
        let byte = opcode.into_u8();
        assert!(Opcode::valid_u8(byte));
        assert!(Opcode::from_u8(byte) == opcode);
    }
    assert!(!Opcode::valid_u8(0));
    assert!(!Opcode::valid_u8(9));
}

#[test]
fn kind_codecs() {
    for code in 1u8..=6 {
        assert!(CmpKind::is_valid_code(code));
        assert_eq!(CmpKind::from_u8(code).into_u8(), code);
        assert!(BiniKind::is_valid_code(code));
        assert_eq!(BiniKind::from_u8(code).into_u8(), code);
    }
    assert!(!CmpKind::is_valid_code(0));
    assert!(!CmpKind::is_valid_code(7));
    assert!(!BiniKind::is_valid_code(0));
    assert!(!BiniKind::is_valid_code(7));
}

#[test]
fn operation_shapes() {
    assert!(!Op::Nop(cog_ir::ops::NopOp::new()).terminal());
    assert!(Op::Ret(RetOp::new(IrTypeId::Int32)).terminal());
    assert!(Op::Jump(cog_ir::ops::JumpOp::new()).terminal());
    assert!(Op::Branch(cog_ir::ops::BranchOp::new()).terminal());
    assert_eq!(Op::Nop(cog_ir::ops::NopOp::new()).num_inputs(), 0);
    assert_eq!(Op::Cmp(CmpOp::new(CmpKind::Eq, IrTypeId::Int32)).num_inputs(), 2);
    assert_eq!(Op::Bini(BiniOp::new(BiniKind::Add, IrTypeId::Int32)).num_inputs(), 2);
    assert_eq!(Op::Ret(RetOp::new(IrTypeId::Int32)).num_inputs(), 1);
    assert_eq!(Op::Branch(cog_ir::ops::BranchOp::new()).num_inputs(), 1);
    assert_eq!(Op::Jump(cog_ir::ops::JumpOp::new()).num_targets(), 1);
    assert_eq!(Op::Branch(cog_ir::ops::BranchOp::new()).num_targets(), 2);
    assert_eq!(Op::Ret(RetOp::new(IrTypeId::Int32)).num_targets(), 0);
    assert!(Op::Cmp(CmpOp::new(CmpKind::Lt, IrTypeId::Int64)).out_type()
        == IrOutputTypeId::Specific(IrTypeId::Bool));
    assert!(Op::Bini(BiniOp::new(BiniKind::Xor, IrTypeId::Int64)).out_type()
        == IrOutputTypeId::Specific(IrTypeId::Int64));
    assert!(Op::Ret(RetOp::new(IrTypeId::Int32)).out_type() == IrOutputTypeId::Void);
}

#[test]
fn type_tag_names() {
    assert_eq!(IrTypeId::Bool.as_str(), "Bool");
    assert_eq!(IrTypeId::Int32.as_str(), "Int32");
    assert_eq!(IrTypeId::Int64.as_str(), "Int64");
    assert_eq!(IrTypeId::PtrInt.as_str(), "PtrInt");
    assert_eq!(CmpKind::Lt.as_str(), "Lt");
    assert_eq!(BiniKind::Xor.as_str(), "Xor");
}
