//! The reading session: decoding the built stream one instruction at
//! a time recovers the emission order, operations, and inputs.

use cog_ir::builder::BuildSession;
use cog_ir::ir_types::IrTypeId;
use cog_ir::ops::{CmpKind, Op, Opcode};

#[test]
fn reader_walks_start_block_in_emission_order() {
    let mut bs: BuildSession = cog_ir::build();
    let block_a = bs.decl_plain_block(0);
    let block_b = bs.decl_plain_block(0);

    let a = bs.emit_const_int32(0);
    let b = bs.emit_const_int32(10);
    let c = bs.emit_eq(a, b);
    bs.branch(c, block_a, &[], block_b, &[]);
    bs.def_block(block_a);
    let r1 = bs.emit_const_int32(1);
    bs.ret(r1);
    bs.def_block(block_b);
    let r2 = bs.emit_const_int32(2);
    bs.ret(r2);

    let g = cog_ir::graph(bs.finish());
    let mut gs = g.enter_session();

    assert!(gs.get_cur_block().is_start());
    // the opcodes of the start block, in emission order
    assert!(gs.cur_op().opcode() == Opcode::Const);
    assert!(gs.next_defn().is_some());
    assert!(gs.cur_op().opcode() == Opcode::Const);
    assert!(gs.next_defn().is_some());
    assert!(gs.cur_op().opcode() == Opcode::Cmp);
    assert!(gs.next_defn().is_some());
    assert!(gs.cur_op().opcode() == Opcode::Branch);
    // the cursor stops at the terminal
    assert!(gs.next_defn().is_none());
    assert!(gs.next_defn().is_none());
}

#[test]
fn reader_recovers_operations_and_inputs() {
    let mut bs: BuildSession = cog_ir::build();
    let a = bs.emit_const_int32(7);
    let b = bs.emit_const_int32(35);
    let a_id = a.as_u32();
    let b_id = b.as_u32();
    let c = bs.emit_cmp(CmpKind::Le, a, b);
    bs.ret(c);

    let g = cog_ir::graph(bs.finish());
    let mut gs = g.enter_session();

    match gs.cur_op() {
        Op::Const(k) => assert!(k.tyid() == IrTypeId::Int32),
        _ => panic!("expected a constant first"),
    }
    // a constant has no inputs
    let mut inputs = gs.cur_inputs();
    assert!(inputs.next_input().is_none());
    assert_eq!(inputs.bytes_read(), 0);

    gs.next_defn().unwrap();
    let second = gs.next_defn().unwrap();
    assert_eq!(second.as_u32(), c.as_u32());
    match gs.cur_op() {
        Op::Cmp(k) => {
            assert!(k.kind == CmpKind::Le);
            assert!(k.tyid == IrTypeId::Int32);
        }
        _ => panic!("expected the comparison"),
    }
    // the comparison reads the two constants, in order
    let mut inputs = gs.cur_inputs();
    let first_in = inputs.next_input().unwrap();
    let second_in = inputs.next_input().unwrap();
    assert_eq!(first_in.as_u32(), a_id);
    assert_eq!(second_in.as_u32(), b_id);
    assert!(inputs.next_input().is_none());
    // both input ids were below 128, so one byte each
    assert_eq!(inputs.bytes_read(), 2);

    gs.next_defn().unwrap();
    assert!(gs.cur_op().terminal());
    assert!(gs.next_defn().is_none());
}

#[test]
fn instruction_ids_are_byte_offsets() {
    let mut bs: BuildSession = cog_ir::build();
    // ConstBool occupies three bytes: opcode, type tag, value
    let a = bs.emit_const_bool(true);
    let b = bs.emit_const_bool(false);
    // Phi-free block: a comparison follows at offset 6
    let c = bs.emit_eq(a, b);
    bs.ret(c);
    assert_eq!(a.as_u32(), 0);
    assert_eq!(b.as_u32(), 3);
    assert_eq!(c.as_u32(), 6);
    let untyped = c.untyped_defn();
    assert_eq!(untyped.as_u32(), 6);
    assert_eq!(untyped.instr_id().as_u32(), 6);
    let recast = c.cast(IrTypeId::Int64);
    assert_eq!(recast.as_u32(), 6);
    assert!(recast.tyid() == IrTypeId::Int64);
    assert!(c.tyid() == IrTypeId::Bool);
    let g = cog_ir::graph(bs.finish());
    // opcode+tag+value for two ConstBools, opcode+kind+tag+two ids
    // for the Cmp, opcode+tag+id for the Ret
    assert_eq!(g.dump_stats("offsets").0, 3 + 3 + 5 + 3);
}
