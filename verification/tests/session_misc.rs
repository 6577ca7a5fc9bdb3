//! Session odds and ends: the comparison and integer-operation
//! shorthands, nops, extra start blocks, and nested subgraph scopes.

use cog_ir::block::BlockId;
use cog_ir::builder::BuildSession;
use cog_ir::ir_types::IrTypeId;
use cog_ir::ops::{BiniKind, CmpKind, Op, Opcode};

#[test]
fn cmp_shorthands_emit_their_kinds() {
    let mut bs: BuildSession = cog_ir::build();
    let a = bs.emit_const_int64(1);
    let b = bs.emit_const_int64(2);
    let lt = bs.emit_lt(a, b);
    let le = bs.emit_le(a, b);
    let eq = bs.emit_eq(a, b);
    let ne = bs.emit_ne(a, b);
    let ge = bs.emit_ge(a, b);
    let gt = bs.emit_gt(a, b);
    for d in [lt, le, eq, ne, ge, gt] {
        assert!(d.tyid() == IrTypeId::Bool);
    }
    bs.ret(gt);
    let g = cog_ir::graph(bs.finish());
    let mut gs = g.enter_session();
    gs.next_defn().unwrap();
    gs.next_defn().unwrap();
    let expected = [CmpKind::Lt, CmpKind::Le, CmpKind::Eq, CmpKind::Ne, CmpKind::Ge, CmpKind::Gt];
    for kind in expected {
        match gs.cur_op() {
            Op::Cmp(op) => assert!(op.kind == kind && op.tyid == IrTypeId::Int64),
            _ => panic!("expected a comparison"),
        }
        gs.next_defn().unwrap();
    }
    assert!(gs.cur_op().opcode() == Opcode::Ret);
}

#[test]
fn bini_shorthands_emit_their_kinds() {
    let mut bs: BuildSession = cog_ir::build();
    let a = bs.emit_const_int32(6);
    let b = bs.emit_const_int32(7);
    let add = bs.emit_add(a, b);
    let sub = bs.emit_sub(a, b);
    let mul = bs.emit_mul(a, b);
    let and = bs.emit_and(a, b);
    let or = bs.emit_or(a, b);
    let xor = bs.emit_xor(a, b);
    for d in [add, sub, mul, and, or, xor] {
        assert!(d.tyid() == IrTypeId::Int32);
    }
    bs.ret(xor);
    let g = cog_ir::graph(bs.finish());
    let mut gs = g.enter_session();
    gs.next_defn().unwrap();
    gs.next_defn().unwrap();
    let expected = [BiniKind::Add, BiniKind::Sub, BiniKind::Mul, BiniKind::And, BiniKind::Or,
        BiniKind::Xor];
    for kind in expected {
        match gs.cur_op() {
            Op::Bini(op) => assert!(op.kind() == kind && op.tyid() == IrTypeId::Int32),
            _ => panic!("expected an integer operation"),
        }
        gs.next_defn().unwrap();
    }
}

#[test]
fn nop_takes_one_byte_and_no_value() {
    let mut bs: BuildSession = cog_ir::build();
    bs.emit_nop();
    let v = bs.emit_const_bool(true);
    // the nop occupied exactly the opcode byte
    assert_eq!(v.as_u32(), 1);
    bs.ret(v);
    let g = cog_ir::graph(bs.finish());
    let mut gs = g.enter_session();
    assert!(gs.cur_op().opcode() == Opcode::Nop);
    assert_eq!(gs.cur_op().num_inputs(), 0);
}

#[test]
fn extra_start_block_declares_like_any_other() {
    let mut bs: BuildSession = cog_ir::build();
    let second = bs.decl_start_block();
    let v = bs.emit_const_int32(1);
    bs.ret(v);
    bs.def_block(second);
    let w = bs.emit_const_int32(2);
    bs.ret(w);
    let g = cog_ir::graph(bs.finish());
    assert_eq!(g.total_blocks(), 2);
    assert!(g.block(BlockId(0)).is_start());
    assert!(g.block(second.id()).is_start());
    assert_eq!(g.block(second.id()).num_phis(), 0);
    assert_eq!(g.block(second.id()).input_edges(), 0);
}

#[test]
fn subgraph_scopes_nest() {
    let mut bs: BuildSession = cog_ir::build();
    let x = bs.decl_plain_block(0);
    let v = bs.emit_const_int32(1);
    bs.jump(x, &[]);

    bs.def_block(x);
    bs.def_subgraph();
    let y = bs.decl_plain_block(0);
    let vy = bs.emit_add(v, v);
    bs.jump(y, &[]);
    bs.def_block(y);
    bs.def_subgraph();
    let z = bs.decl_plain_block(0);
    let vz = bs.emit_add(vy, vy);
    bs.jump(z, &[]);
    bs.def_block(z);
    bs.ret(vz);
    bs.end_subgraph();
    bs.end_subgraph();

    let g = cog_ir::graph(bs.finish());
    assert_eq!(g.total_blocks(), 4);
    for i in 0u32..4 {
        assert!(g.block(BlockId(i)).has_finished());
        assert!(!g.block(BlockId(i)).has_loop_complete());
    }
    assert_eq!(g.block(x.id()).input_edges(), 1);
    assert_eq!(g.block(y.id()).input_edges(), 1);
    assert_eq!(g.block(z.id()).input_edges(), 1);
}

#[test]
fn session_scope_accounting_is_visible() {
    let mut bs: BuildSession = cog_ir::build();
    assert_eq!(bs.subgraph_decls_len(), 0);
    assert!(bs.subgraph_complete());
    let a = bs.decl_plain_block(0);
    assert_eq!(bs.subgraph_decls_len(), 1);
    assert!(!bs.subgraph_complete());
    assert_eq!(bs.subgraph_cur_end(), 0);
    let v = bs.emit_const_int32(3);
    bs.jump(a, &[]);
    assert!(!bs.get_cur_block().has_entered() || bs.get_cur_block().has_finished());
    bs.def_block(a);
    assert!(bs.subgraph_complete());
    assert_eq!(bs.subgraph_cur_end(), 1);
    assert!(!bs.get_cur_block().has_finished());
    bs.ret(v);
    assert!(bs.get_cur_block().has_finished());
    let _ = cog_ir::graph(bs.finish());
}
