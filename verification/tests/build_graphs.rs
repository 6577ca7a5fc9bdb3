//! Whole-graph construction: an if/else diamond with a nested
//! subgraph and phi merges, and a counted loop with a back edge.

use cog_ir::block::BlockId;
use cog_ir::builder::BuildSession;
use cog_ir::graph::Graph;
use cog_ir::ir_types::IrTypeId;

/// Build the diamond: start branches to A or B; A jumps to the merge
/// C; B opens a subgraph that branches to C or its local D, and D
/// jumps to the exit E; C and E each merge one phi.
fn build_diamond() -> Graph {
    let mut bs: BuildSession = cog_ir::build();

    let block_a = bs.decl_plain_block(0);
    let block_b = bs.decl_plain_block(0);
    let block_c = bs.decl_plain_block(1);
    let block_e = bs.decl_plain_block(1);

    let a = bs.emit_const_int32(0);
    let b = bs.emit_const_int32(10);
    let c = bs.emit_eq(a, b);
    bs.branch(c, block_a, &[], block_b, &[]);

    bs.def_block(block_a);
    let one = bs.emit_const_int32(1);
    let d = bs.emit_add(a, one);
    bs.jump(block_c, &[d.untyped_defn()]);

    bs.def_block(block_b);
    bs.def_subgraph();
    let block_d = bs.decl_plain_block(0);
    let e = bs.emit_add(a, b);
    let f = bs.emit_const_int32(9);
    let g = bs.emit_eq(e, f);
    bs.branch(g, block_c, &[f.untyped_defn()], block_d, &[]);
    bs.def_block(block_d);
    let one2 = bs.emit_const_int32(1);
    let i = bs.emit_add(f, one2);
    bs.jump(block_e, &[i.untyped_defn()]);
    bs.end_subgraph();

    bs.def_block(block_c);
    let h = bs.emit_phi(IrTypeId::Int32);
    bs.jump(block_e, &[h.untyped_defn()]);

    bs.def_block(block_e);
    let j = bs.emit_phi(IrTypeId::Int32);
    bs.ret(j);

    cog_ir::graph(bs.finish())
}

#[test]
fn diamond_builds_and_counts_edges() {
    let g = build_diamond();
    // start, A, B, C, E, and the subgraph's D
    assert_eq!(g.total_blocks(), 6);
    for idx in 0u32..6 {
        let blk = g.block(BlockId(idx));
        assert!(blk.has_entered());
        assert!(blk.has_finished());
    }
    // A and B each take one branch arm
    assert_eq!(g.block(BlockId(1)).input_edges(), 1);
    assert_eq!(g.block(BlockId(2)).input_edges(), 1);
    // the merge C is reached from A and from B's branch
    assert_eq!(g.block(BlockId(3)).input_edges(), 2);
    // the exit E is reached from C and from D
    assert_eq!(g.block(BlockId(4)).input_edges(), 2);
    // the subgraph block D takes B's other arm
    assert_eq!(g.block(BlockId(5)).input_edges(), 1);
    // nothing jumps back into the start block
    assert_eq!(g.block(BlockId(0)).input_edges(), 0);
    assert!(g.block(BlockId(0)).is_start());
    assert!(!g.block(BlockId(1)).is_start());
}

#[test]
fn diamond_phi_counts() {
    let g = build_diamond();
    assert_eq!(g.block(BlockId(0)).num_phis(), 0);
    assert_eq!(g.block(BlockId(3)).num_phis(), 1);
    assert_eq!(g.block(BlockId(4)).num_phis(), 1);
}

/// Build the loop: start jumps into the loop head L with one phi; the
/// body compares, branches to B (increment, back edge to L) or to C
/// (return).
fn build_loop() -> Graph {
    let mut bs: BuildSession = cog_ir::build();

    let block_l = bs.decl_loop_head(1);

    let a = bs.emit_const_int32(0);
    let b = bs.emit_const_int32(10);
    bs.jump(block_l, &[a.untyped_defn()]);

    bs.def_loop(block_l);
    let block_b = bs.decl_plain_block(0);
    let block_c = bs.decl_plain_block(0);

    let c = bs.emit_phi(IrTypeId::Int32);
    let d = bs.emit_lt(c, b);
    bs.branch(d, block_b, &[], block_c, &[]);

    bs.def_block(block_b);
    let one = bs.emit_const_int32(1);
    let e = bs.emit_add(c, one);
    bs.jump(block_l, &[e.untyped_defn()]);

    bs.def_block(block_c);
    bs.ret(c);
    bs.end_loop();

    cog_ir::graph(bs.finish())
}

#[test]
fn loop_head_takes_entry_and_back_edge() {
    let g = build_loop();
    assert_eq!(g.total_blocks(), 4);
    let head = g.block(BlockId(1));
    assert!(head.is_loop());
    assert!(head.has_finished());
    assert!(head.has_loop_complete());
    // one edge from the start block, one back edge from the body
    assert_eq!(head.input_edges(), 2);
    assert!(!g.block(BlockId(2)).is_loop());
    assert!(!g.block(BlockId(2)).has_loop_complete());
}

#[test]
fn blocks_enter_in_declaration_order() {
    let g = build_diamond();
    // declaration ids 0..=4 enter in order; the subgraph block D
    // (declaration id 5) enters between B (2) and C (3)
    let order_of = |i: u32| g.block(BlockId(i)).order;
    assert_eq!(order_of(0), 0);
    assert_eq!(order_of(1), 1);
    assert_eq!(order_of(2), 2);
    assert_eq!(order_of(5), 3);
    assert_eq!(order_of(3), 4);
    assert_eq!(order_of(4), 5);
}

#[test]
fn builder_stats_count_bytes_and_blocks() {
    let mut bs: BuildSession = cog_ir::build();
    let v = bs.emit_const_bool(true);
    bs.ret(v);
    let builder = bs.finish();
    let (bytes, blocks) = builder.dump_stats("tiny");
    // ConstBool is three bytes (opcode, tag, value); Ret is two
    // (opcode, tag) plus one input id byte
    assert_eq!(bytes, 6);
    assert_eq!(blocks, 1);
    let g = cog_ir::graph(builder);
    assert_eq!(g.dump_stats("tiny"), (6, 1));
}

#[test]
fn rpo_walk_visits_blocks_in_enter_order() {
    let g = build_diamond();
    // enter order: start, A, B, D (inside the subgraph), C, E
    let expected: [u32; 6] = [0, 1, 2, 5, 3, 4];
    let mut cur = BlockId(0);
    for (pos, want) in expected.iter().enumerate() {
        assert_eq!(cur.as_u32(), *want);
        match g.block_store.next_rpo_block(cur) {
            Some(next) => {
                assert!(pos + 1 < expected.len());
                assert_eq!(g.block_store.prior_rpo_block(next), Some(cur));
                cur = next;
            }
            None => {
                assert_eq!(pos + 1, expected.len());
                assert_eq!(g.block_store.last_rpo_block(), cur);
            }
        }
    }
    assert!(g.block_store.prior_rpo_block(BlockId(0)).is_none());
}
