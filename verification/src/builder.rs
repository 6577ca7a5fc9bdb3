//! The structured construction protocol. A build session owns the
//! stores and a stack of scope frames over one flat list of declared
//! block ids; blocks are defined in declaration order within each
//! scope, emission appends to the instruction stream, and terminals
//! finish the current block and count edges into their targets.

use vstd::prelude::*;

use crate::block::{
    block_shape, lemma_block_shape_push, Block, BlockId, BlockRef, BlockState, BlockStore,
    BlockVariant, MAX_DECL_BLOCKS,
};
use crate::defn::{Defn, TypedDefn};
use crate::instr::{
    count_targets, count_tgt_list, defn_ids, enc_instr, idx_of, is_record_off,
    lemma_count_targets_absent, lemma_count_targets_bound, lemma_count_targets_push,
    lemma_count_tgt_bound, lemma_count_tgt_take, lemma_enc_instr_len, lemma_idx_of,
    lemma_off_end, lemma_off_push, off_of, target_recs, InstrId, InstrRec,
    InstrStore, TargetRec, MAX_INSTR_BYTES,
};
use crate::ir_types::IrTypeId;
use crate::ops::{BiniKind, BiniOp, BranchOp, CmpKind, CmpOp, ConstOp, JumpOp, NopOp, Op, PhiOp,
    RetOp};

verus! {

/// A record for a non-terminal emission: the operation and its input
/// ids, with no targets.
pub open spec fn simple_rec(op: Op, ids: Seq<u32>) -> InstrRec {
    InstrRec { op, inputs: ids, targets: Seq::empty() }
}

/// A record for a terminal emission.
pub open spec fn end_rec(op: Op, ids: Seq<u32>, targets: Seq<TargetRec>) -> InstrRec {
    InstrRec { op, inputs: ids, targets }
}

/// The record a comparison emits.
pub open spec fn cmp_rec(kind: CmpKind, lhs: TypedDefn, rhs: TypedDefn) -> InstrRec {
    simple_rec(
        Op::Cmp(CmpOp { kind, tyid: lhs.spec_tyid() }),
        seq![lhs.spec_val(), rhs.spec_val()],
    )
}

/// The record an integer binary operation emits.
pub open spec fn bini_rec(kind: BiniKind, lhs: TypedDefn, rhs: TypedDefn) -> InstrRec {
    simple_rec(
        Op::Bini(BiniOp { kind, tyid: lhs.spec_tyid() }),
        seq![lhs.spec_val(), rhs.spec_val()],
    )
}

/// The record a return emits.
pub open spec fn ret_rec(v: TypedDefn) -> InstrRec {
    end_rec(Op::Ret(RetOp { tyid: v.spec_tyid() }), seq![v.spec_val()], Seq::empty())
}

/// The record a jump emits.
pub open spec fn jump_rec(target: u32, phi_args: Seq<u32>) -> InstrRec {
    end_rec(Op::Jump(JumpOp), Seq::empty(), seq![TargetRec { block: target, phi_args }])
}

/// The record a branch emits: the true target first.
pub open spec fn branch_rec(
    cond: TypedDefn,
    if_true: u32,
    true_args: Seq<u32>,
    if_false: u32,
    false_args: Seq<u32>,
) -> InstrRec {
    end_rec(Op::Branch(BranchOp), seq![cond.spec_val()], seq![
        TargetRec { block: if_true, phi_args: true_args },
        TargetRec { block: if_false, phi_args: false_args },
    ])
}

/// Every target in the stream names a declared block and carries
/// exactly that block's declared phi count.
pub open spec fn targets_ok(rs: Seq<InstrRec>, blocks: Seq<Block>) -> bool {
    forall|i: int, k: int| 0 <= i < rs.len() && 0 <= k < rs[i].targets.len() ==> {
        &&& (#[trigger] rs[i].targets[k]).block < blocks.len()
        &&& rs[i].targets[k].phi_args.len()
            == blocks[rs[i].targets[k].block as int].spec_num_phis()
    }
}

/// Every block's input-edge counter equals the number of terminal
/// targets in the stream that name it.
pub open spec fn edges_ok(rs: Seq<InstrRec>, blocks: Seq<Block>) -> bool {
    forall|b: int| 0 <= b < blocks.len()
        ==> (#[trigger] blocks[b]).input_edges == count_targets(rs, b)
}

/// Every finished block owns a well-shaped slice of the stream.
pub open spec fn shapes_ok(rs: Seq<InstrRec>, blocks: Seq<Block>) -> bool {
    forall|b: int| 0 <= b < blocks.len() && (#[trigger] blocks[b]).spec_finished()
        ==> block_shape(rs, blocks[b])
}

/// A builder exactly as `Builder::new` leaves it: an empty stream and
/// a single entered, unfinished start block.
pub open spec fn builder_fresh(b: &Builder) -> bool {
    &&& b.instr_store.wf()
    &&& b.block_store.wf()
    &&& b.instr_store.recs().len() == 0
    &&& b.instr_store.stream_len() == 0
    &&& b.block_store.blocks().len() == 1
    &&& b.block_store.rpo().len() == 1
    &&& !b.block_store.blocks()[0].spec_finished()
    &&& b.block_store.blocks()[0].first_instr.spec_val() == 0
    &&& b.block_store.blocks()[0].input_edges == 0
    &&& b.block_store.cur_block_id.spec_val() == 0
    &&& b.subgraph_decls@.len() == 0
}

/// A fully built graph-to-be: every block finished, every loop head
/// sealed, targets and edge counts consistent, blocks well shaped,
/// and the stream ending in a terminal.
pub open spec fn builder_complete(b: &Builder) -> bool {
    &&& b.instr_store.wf()
    &&& b.block_store.wf()
    &&& forall|i: int| 0 <= i < b.block_store.blocks().len()
        ==> (#[trigger] b.block_store.blocks()[i]).spec_finished()
    &&& forall|i: int| 0 <= i < b.block_store.blocks().len()
        && (#[trigger] b.block_store.blocks()[i]).spec_is_loop()
        ==> b.block_store.blocks()[i].spec_loop_complete()
    &&& targets_ok(b.instr_store.recs(), b.block_store.blocks())
    &&& edges_ok(b.instr_store.recs(), b.block_store.blocks())
    &&& shapes_ok(b.instr_store.recs(), b.block_store.blocks())
    &&& b.instr_store.recs().len() >= 1
    &&& b.instr_store.recs().last().op.spec_terminal()
}

/// Owns the instruction stream, the block table, and the flat list of
/// block ids declared through session scopes.
pub struct Builder {
    pub instr_store: InstrStore,
    pub block_store: BlockStore,
    pub subgraph_decls: Vec<BlockId>,
}

impl Builder {
    pub fn new() -> (r: Builder)
        ensures
            builder_fresh(&r),
    {
        Builder {
            instr_store: InstrStore::new(),
            block_store: BlockStore::new(),
            subgraph_decls: Vec::new(),
        }
    }

    /// Diagnostic: the stream's byte length and the block count.
    pub fn dump_stats(&self, _name: &str) -> (r: (usize, usize))
        ensures
            r.0 == self.instr_store.stream().len(),
            r.1 == self.block_store.blocks().len(),
    {
        (self.instr_store.instr_bytes_len(), self.block_store.total_blocks())
    }
}

/// One scope over the declaration list: blocks declared at indices
/// `start..` belong to it, `entered` of them are defined, and a loop
/// scope remembers its loop head.
#[derive(Clone, Copy, Debug)]
pub struct SessionFrame {
    pub start: usize,
    pub entered: usize,
    pub loop_block: Option<BlockId>,
}

/// The construction protocol over a builder: a stack of scopes, the
/// block being filled, and its phi accounting.
pub struct BuildSession {
    pub builder: Builder,
    pub frames: Vec<SessionFrame>,
    pub cur_block: BlockId,
    pub emitted_phis: u32,
    pub cur_emitted: u32,
}

impl BuildSession {
    /// The emitted instructions.
    pub open spec fn recs(&self) -> Seq<InstrRec> {
        self.builder.instr_store.recs()
    }

    /// The stream's byte length; also the next instruction's id.
    pub open spec fn stream_len(&self) -> int {
        self.builder.instr_store.stream_len()
    }

    /// The declared blocks.
    pub open spec fn blocks(&self) -> Seq<Block> {
        self.builder.block_store.blocks()
    }

    /// Block ids in enter order.
    pub open spec fn rpo(&self) -> Seq<BlockId> {
        self.builder.block_store.rpo()
    }

    /// Block ids in declaration order, all scopes flattened.
    pub open spec fn decls(&self) -> Seq<BlockId> {
        self.builder.subgraph_decls@
    }

    /// The scope stack.
    pub open spec fn framev(&self) -> Seq<SessionFrame> {
        self.frames@
    }

    /// The innermost open scope.
    pub open spec fn top(&self) -> SessionFrame {
        self.framev().last()
    }

    /// The current block's index.
    pub open spec fn cur(&self) -> int {
        self.cur_block.spec_val() as int
    }

    /// The current block.
    pub open spec fn cur_blk(&self) -> Block {
        self.blocks()[self.cur()]
    }

    /// The block declared at position `j` of the declaration list.
    pub open spec fn decl_block_at(&self, j: int) -> Block {
        self.blocks()[self.decls()[j].spec_val() as int]
    }

    /// Scope `k`'s region is in bounds, its defined blocks are
    /// entered, and they were entered in declaration order.
    pub open spec fn frame_range_ok(&self, k: int) -> bool {
        let f = self.framev()[k];
        &&& f.start + f.entered <= self.decls().len()
        &&& forall|j: int| f.start <= j < f.start + f.entered
            ==> (#[trigger] self.decl_block_at(j)).spec_entered()
        &&& forall|j1: int, j2: int| f.start <= j1 < j2 < f.start + f.entered
            ==> (#[trigger] self.decl_block_at(j1)).order
                < (#[trigger] self.decl_block_at(j2)).order
    }

    /// An open loop scope pins an entered loop head not yet sealed.
    pub open spec fn loop_frame_ok(&self, k: int) -> bool {
        match self.framev()[k].loop_block {
            Some(lb) => {
                &&& lb.spec_val() < self.blocks().len()
                &&& self.blocks()[lb.spec_val() as int].spec_is_loop()
                &&& self.blocks()[lb.spec_val() as int].spec_entered()
                &&& !self.blocks()[lb.spec_val() as int].spec_loop_complete()
            }
            None => true,
        }
    }

    /// The current block's not-yet-finished slice of the stream: its
    /// tail records, none terminal, the emitted phis exactly first.
    pub open spec fn cur_shape_ok(&self) -> bool {
        if !self.cur_blk().spec_finished() {
            let i0 = self.recs().len() - self.cur_emitted;
            &&& self.cur_emitted <= self.recs().len()
            &&& self.emitted_phis <= self.cur_emitted
            &&& self.emitted_phis <= self.cur_blk().spec_num_phis()
            &&& self.cur_blk().first_instr.is_valid()
            &&& off_of(self.recs(), i0) == self.cur_blk().first_instr.spec_val() as int
            &&& forall|i: int| i0 <= i < self.recs().len()
                ==> !(#[trigger] self.recs()[i]).op.spec_terminal()
            &&& forall|i: int| i0 <= i < self.recs().len()
                ==> ((#[trigger] self.recs()[i]).op is Phi <==> i < i0 + self.emitted_phis)
        } else {
            &&& self.recs().len() >= 1
            &&& is_record_off(self.recs(), self.cur_blk().last_instr.spec_val() as int)
            &&& idx_of(self.recs(), self.cur_blk().last_instr.spec_val() as int)
                == self.recs().len() - 1
        }
    }

    /// The session invariant; every public method keeps it.
    pub open spec fn wf(&self) -> bool {
        &&& self.builder.instr_store.wf()
        &&& self.builder.block_store.wf()
        &&& self.decls().len() == self.blocks().len() - 1
        &&& forall|i: int| 0 <= i < self.decls().len()
            ==> (#[trigger] self.decls()[i]).spec_val() == i + 1
        &&& self.framev().len() >= 1
        &&& self.framev()[0].start == 0
        &&& self.framev()[0].loop_block is None
        &&& forall|k: int| 0 <= k < self.framev().len() ==> #[trigger] self.frame_range_ok(k)
        &&& forall|k: int| 0 <= k < self.framev().len() - 1
            ==> (#[trigger] self.framev()[k]).start + self.framev()[k].entered
                <= self.framev()[k + 1].start
        &&& forall|k: int| 0 <= k < self.framev().len() ==> #[trigger] self.loop_frame_ok(k)
        &&& forall|k1: int, k2: int| 0 <= k1 < k2 < self.framev().len()
            && (#[trigger] self.framev()[k1]).loop_block is Some
            && (#[trigger] self.framev()[k2]).loop_block is Some
            ==> self.framev()[k1].loop_block != self.framev()[k2].loop_block
        &&& 0 <= self.cur() < self.blocks().len()
        &&& self.cur_blk().spec_entered()
        &&& forall|i: int| 0 <= i < self.blocks().len()
            && (#[trigger] self.blocks()[i]).spec_entered()
            && !self.blocks()[i].spec_finished() ==> i == self.cur()
        &&& targets_ok(self.recs(), self.blocks())
        &&& edges_ok(self.recs(), self.blocks())
        &&& shapes_ok(self.recs(), self.blocks())
        &&& self.cur_shape_ok()
    }

    /// Open the root session over a fresh builder: the start block is
    /// already entered and current.
    pub fn new(builder: Builder) -> (r: BuildSession)
        requires
            builder_fresh(&builder),
        ensures
            r.wf(),
            r.blocks().len() == 1,
            r.recs().len() == 0,
            r.framev().len() == 1,
            r.cur() == 0,
    {
        let mut frames: Vec<SessionFrame> = Vec::new();
        frames.push(SessionFrame { start: 0, entered: 0, loop_block: None });
        let r = BuildSession {
            builder,
            frames,
            cur_block: BlockId::new(0),
            emitted_phis: 0,
            cur_emitted: 0,
        };
        proof {
            assert(r.recs().take(0) =~= Seq::<InstrRec>::empty());
            assert(off_of(r.recs(), 0) == 0);
            lemma_count_targets_absent(r.recs(), 0);
            assert(r.frame_range_ok(0));
            assert(r.loop_frame_ok(0));
            assert forall|b: int| 0 <= b < r.blocks().len() implies
                (#[trigger] r.blocks()[b]).input_edges == count_targets(r.recs(), b) by {
                lemma_count_targets_absent(r.recs(), b);
            }
        }
        r
    }

    /// How many block ids have been declared across all scopes.
    pub fn subgraph_decls_len(&self) -> (r: usize)
        ensures
            r == self.decls().len(),
    {
        self.builder.subgraph_decls.len()
    }

    /// The position after the innermost scope's defined blocks.
    pub fn subgraph_cur_end(&self) -> (r: usize)
        requires
            self.wf(),
        ensures
            r == self.top().start + self.top().entered,
    {
        let k = self.frames.len() - 1;
        let f = self.frames[k];
        proof {
            assert(self.frame_range_ok(self.framev().len() - 1));
        }
        f.start + f.entered
    }

    /// Whether the innermost scope has defined every block declared
    /// since it opened.
    pub fn subgraph_complete(&self) -> (r: bool)
        requires
            self.wf(),
        ensures
            r == (self.top().start + self.top().entered == self.decls().len()),
    {
        self.subgraph_cur_end() == self.builder.subgraph_decls.len()
    }

    /// The current block.
    pub fn get_cur_block(&self) -> (r: &Block)
        requires
            self.wf(),
        ensures
            *r == self.cur_blk(),
    {
        self.builder.block_store.get_block(self.cur_block)
    }

    /// Declare a plain block with `num_phis` phi slots.
    pub fn decl_plain_block(&mut self, num_phis: u32) -> (r: BlockRef)
        requires
            old(self).wf(),
            old(self).blocks().len() < MAX_DECL_BLOCKS,
            old(self).builder.block_store.total_phis + num_phis <= u32::MAX,
        ensures
            final(self).wf(),
            r.spec_val() == old(self).blocks().len(),
            final(self).blocks() == old(self).blocks().push(crate::block::spec_new_block(
                BlockId(old(self).blocks().len() as u32), BlockVariant::Plain { num_phis })),
            final(self).decls() == old(self).decls().push(r.0),
            final(self).recs() == old(self).recs(),
            final(self).rpo() == old(self).rpo(),
            final(self).framev() == old(self).framev(),
            final(self).cur_block == old(self).cur_block,
            final(self).emitted_phis == old(self).emitted_phis,
            final(self).cur_emitted == old(self).cur_emitted,
            final(self).stream_len() == old(self).stream_len(),
    {
        let id = self.builder.block_store.decl_plain_block(num_phis);
        self.builder.subgraph_decls.push(id);
        proof {
            lemma_wf_after_decl(old(self), self);
        }
        BlockRef::new(id)
    }

    /// Declare a further start block.
    pub fn decl_start_block(&mut self) -> (r: BlockRef)
        requires
            old(self).wf(),
            old(self).blocks().len() < MAX_DECL_BLOCKS,
            old(self).builder.block_store.num_starts < u16::MAX,
        ensures
            final(self).wf(),
            r.spec_val() == old(self).blocks().len(),
            final(self).blocks() == old(self).blocks().push(crate::block::spec_new_block(
                BlockId(old(self).blocks().len() as u32),
                BlockVariant::Start { start_no: old(self).builder.block_store.num_starts })),
            final(self).decls() == old(self).decls().push(r.0),
            final(self).recs() == old(self).recs(),
            final(self).rpo() == old(self).rpo(),
            final(self).framev() == old(self).framev(),
            final(self).cur_block == old(self).cur_block,
            final(self).emitted_phis == old(self).emitted_phis,
            final(self).cur_emitted == old(self).cur_emitted,
            final(self).stream_len() == old(self).stream_len(),
    {
        let id = self.builder.block_store.decl_start_block();
        self.builder.subgraph_decls.push(id);
        proof {
            lemma_wf_after_decl(old(self), self);
        }
        BlockRef::new(id)
    }

    /// Declare a loop head with `num_phis` phi slots.
    pub fn decl_loop_head(&mut self, num_phis: u32) -> (r: BlockRef)
        requires
            old(self).wf(),
            old(self).blocks().len() < MAX_DECL_BLOCKS,
            old(self).builder.block_store.total_phis + num_phis <= u32::MAX,
            old(self).builder.block_store.num_loops < u16::MAX,
        ensures
            final(self).wf(),
            r.spec_val() == old(self).blocks().len(),
            final(self).blocks() == old(self).blocks().push(crate::block::spec_new_block(
                BlockId(old(self).blocks().len() as u32),
                BlockVariant::Loop {
                    num_phis,
                    loop_no: old(self).builder.block_store.num_loops,
                })),
            final(self).decls() == old(self).decls().push(r.0),
            final(self).recs() == old(self).recs(),
            final(self).rpo() == old(self).rpo(),
            final(self).framev() == old(self).framev(),
            final(self).cur_block == old(self).cur_block,
            final(self).emitted_phis == old(self).emitted_phis,
            final(self).cur_emitted == old(self).cur_emitted,
            final(self).stream_len() == old(self).stream_len(),
    {
        let id = self.builder.block_store.decl_loop_head(num_phis);
        self.builder.subgraph_decls.push(id);
        proof {
            lemma_wf_after_decl(old(self), self);
        }
        BlockRef::new(id)
    }

    /// Enter `block`: the current block must be finished, and `block`
    /// must be the innermost scope's next declared, still undefined
    /// block. Shared by plain and loop definition.
    fn def_block_impl(&mut self, block: BlockRef)
        requires
            old(self).wf(),
            old(self).cur_blk().spec_finished(),
            old(self).top().start + old(self).top().entered < old(self).decls().len(),
            block.0 == old(self).decls()[
                old(self).top().start + old(self).top().entered],
            !old(self).blocks()[block.spec_val() as int].spec_entered(),
            old(self).stream_len() <= MAX_INSTR_BYTES,
        ensures
            final(self).wf(),
            final(self).blocks() == old(self).blocks().update(block.spec_val() as int, Block {
                state: BlockState::Entered,
                order: old(self).rpo().len() as u32,
                first_instr: InstrId(crate::instr::InstrPosn(old(self).stream_len() as u32)),
                ..old(self).blocks()[block.spec_val() as int]
            }),
            final(self).rpo() == old(self).rpo().push(block.0),
            final(self).cur_block == block.0,
            final(self).emitted_phis == 0,
            final(self).cur_emitted == 0,
            final(self).recs() == old(self).recs(),
            final(self).decls() == old(self).decls(),
            final(self).stream_len() == old(self).stream_len(),
            final(self).framev() == old(self).framev().update(
                old(self).framev().len() - 1,
                SessionFrame {
                    entered: (old(self).top().entered + 1) as usize,
                    ..old(self).top()
                }),
    {
        proof {
            assert(old(self).frame_range_ok(old(self).framev().len() - 1));
        }
        let first = self.builder.instr_store.front_instr_id();
        self.builder.block_store.enter_block(block.id(), first);
        self.cur_block = block.id();
        let k = self.frames.len() - 1;
        let f = &mut self.frames[k];
        f.entered = f.entered + 1;
        self.emitted_phis = 0;
        self.cur_emitted = 0;
        proof {
            lemma_wf_after_enter(old(self), self, block);
        }
    }

    /// Define the next declared plain block of the innermost scope.
    pub fn def_block(&mut self, block: BlockRef)
        requires
            old(self).wf(),
            old(self).cur_blk().spec_finished(),
            old(self).top().start + old(self).top().entered < old(self).decls().len(),
            block.0 == old(self).decls()[
                old(self).top().start + old(self).top().entered],
            !old(self).blocks()[block.spec_val() as int].spec_entered(),
            !old(self).blocks()[block.spec_val() as int].spec_is_loop(),
            old(self).stream_len() <= MAX_INSTR_BYTES,
        ensures
            final(self).wf(),
            final(self).blocks() == old(self).blocks().update(block.spec_val() as int, Block {
                state: BlockState::Entered,
                order: old(self).rpo().len() as u32,
                first_instr: InstrId(crate::instr::InstrPosn(old(self).stream_len() as u32)),
                ..old(self).blocks()[block.spec_val() as int]
            }),
            final(self).rpo() == old(self).rpo().push(block.0),
            final(self).cur_block == block.0,
            final(self).emitted_phis == 0,
            final(self).cur_emitted == 0,
            final(self).recs() == old(self).recs(),
            final(self).decls() == old(self).decls(),
            final(self).stream_len() == old(self).stream_len(),
            final(self).framev() == old(self).framev().update(
                old(self).framev().len() - 1,
                SessionFrame {
                    entered: (old(self).top().entered + 1) as usize,
                    ..old(self).top()
                }),
    {
        self.def_block_impl(block);
    }

    /// Open a subgraph scope: blocks declared from here on belong to
    /// it and must be defined before it closes.
    pub fn def_subgraph(&mut self)
        requires
            old(self).wf(),
        ensures
            final(self).wf(),
            final(self).framev() == old(self).framev().push(SessionFrame {
                start: old(self).decls().len() as usize,
                entered: 0,
                loop_block: None,
            }),
            final(self).blocks() == old(self).blocks(),
            final(self).rpo() == old(self).rpo(),
            final(self).decls() == old(self).decls(),
            final(self).recs() == old(self).recs(),
            final(self).cur_block == old(self).cur_block,
            final(self).emitted_phis == old(self).emitted_phis,
            final(self).cur_emitted == old(self).cur_emitted,
            final(self).stream_len() == old(self).stream_len(),
    {
        proof {
            assert(old(self).frame_range_ok(old(self).framev().len() - 1));
        }
        let start = self.builder.subgraph_decls.len();
        self.frames.push(SessionFrame { start, entered: 0, loop_block: None });
        proof {
            let s = self;
            let o = old(self);
            assert forall|k: int| 0 <= k < s.framev().len() implies
                #[trigger] s.frame_range_ok(k) by {
                if k < o.framev().len() {
                    lemma_frame_range_transfer(o, s, k, k);
                } else {
                    let f = s.framev()[k];
                    assert(f.entered == 0);
                }
            }
            assert forall|k: int| 0 <= k < s.framev().len() implies
                #[trigger] s.loop_frame_ok(k) by {
                if k < o.framev().len() {
                    lemma_loop_frame_transfer(o, s, k, k);
                }
            }
            assert(s.cur_blk() == o.cur_blk());
            assert(s.cur_shape_ok()) by {
                assert(o.cur_shape_ok());
            }
        }
    }

    /// Close the innermost subgraph scope; every block it declared
    /// must have been defined. The caller's scope resumes with the
    /// closing scope's current block.
    pub fn end_subgraph(&mut self)
        requires
            old(self).wf(),
            old(self).framev().len() >= 2,
            old(self).top().loop_block is None,
            old(self).top().start + old(self).top().entered == old(self).decls().len(),
        ensures
            final(self).wf(),
            final(self).framev() == old(self).framev().drop_last(),
            final(self).blocks() == old(self).blocks(),
            final(self).rpo() == old(self).rpo(),
            final(self).decls() == old(self).decls(),
            final(self).recs() == old(self).recs(),
            final(self).cur_block == old(self).cur_block,
            final(self).emitted_phis == old(self).emitted_phis,
            final(self).cur_emitted == old(self).cur_emitted,
            final(self).stream_len() == old(self).stream_len(),
    {
        let k = self.frames.len() - 1;
        self.frames.truncate(k);
        proof {
            let s = self;
            let o = old(self);
            assert(s.framev() =~= o.framev().drop_last());
            assert forall|k2: int| 0 <= k2 < s.framev().len() implies
                #[trigger] s.frame_range_ok(k2) by {
                assert(o.frame_range_ok(k2));
                lemma_frame_range_transfer(o, s, k2, k2);
            }
            assert forall|k2: int| 0 <= k2 < s.framev().len() implies
                #[trigger] s.loop_frame_ok(k2) by {
                assert(o.loop_frame_ok(k2));
                lemma_loop_frame_transfer(o, s, k2, k2);
            }
            assert(s.cur_blk() == o.cur_blk());
            assert(s.cur_shape_ok()) by {
                assert(o.cur_shape_ok());
            }
        }
    }

    /// Define a loop head and open its loop scope: the body is built
    /// inside, and `end_loop` seals the head when it closes.
    #[verifier::rlimit(60)]
    #[verifier::spinoff_prover]
    pub fn def_loop(&mut self, block: BlockRef)
        requires
            old(self).wf(),
            old(self).cur_blk().spec_finished(),
            old(self).top().start + old(self).top().entered < old(self).decls().len(),
            block.0 == old(self).decls()[
                old(self).top().start + old(self).top().entered],
            !old(self).blocks()[block.spec_val() as int].spec_entered(),
            old(self).blocks()[block.spec_val() as int].spec_is_loop(),
            old(self).stream_len() <= MAX_INSTR_BYTES,
        ensures
            final(self).wf(),
            final(self).blocks() == old(self).blocks().update(block.spec_val() as int, Block {
                state: BlockState::Entered,
                order: old(self).rpo().len() as u32,
                first_instr: InstrId(crate::instr::InstrPosn(old(self).stream_len() as u32)),
                ..old(self).blocks()[block.spec_val() as int]
            }),
            final(self).rpo() == old(self).rpo().push(block.0),
            final(self).cur_block == block.0,
            final(self).emitted_phis == 0,
            final(self).cur_emitted == 0,
            final(self).recs() == old(self).recs(),
            final(self).decls() == old(self).decls(),
            final(self).stream_len() == old(self).stream_len(),
            final(self).framev() == old(self).framev().update(
                old(self).framev().len() - 1,
                SessionFrame {
                    entered: (old(self).top().entered + 1) as usize,
                    ..old(self).top()
                }).push(SessionFrame {
                    start: old(self).decls().len() as usize,
                    entered: 0,
                    loop_block: Some(block.0),
                }),
    {
        self.def_block_impl(block);
        let ghost mid = *self;
        let start = self.builder.subgraph_decls.len();
        self.frames.push(SessionFrame { start, entered: 0, loop_block: Some(block.id()) });
        proof {
            let s = self;
            assert(mid.wf());
            assert forall|k: int| 0 <= k < s.framev().len() implies
                #[trigger] s.frame_range_ok(k) by {
                if k < mid.framev().len() {
                    assert(mid.frame_range_ok(k));
                    lemma_frame_range_transfer(&mid, s, k, k);
                } else {
                    let f = s.framev()[k];
                    assert(f.entered == 0);
                }
            }
            assert forall|k: int| 0 <= k < s.framev().len() implies
                #[trigger] s.loop_frame_ok(k) by {
                if k < mid.framev().len() {
                    assert(mid.loop_frame_ok(k));
                    lemma_loop_frame_transfer(&mid, s, k, k);
                } else {
                    assert(s.blocks()[block.spec_val() as int].spec_is_loop());
                    assert(s.blocks()[block.spec_val() as int].spec_entered());
                    assert(s.blocks()[block.spec_val() as int].state == BlockState::Entered);
                }
            }
            assert forall|k1: int, k2: int| 0 <= k1 < k2 < s.framev().len()
                && (#[trigger] s.framev()[k1]).loop_block is Some
                && (#[trigger] s.framev()[k2]).loop_block is Some implies
                s.framev()[k1].loop_block != s.framev()[k2].loop_block by {
                if k2 < mid.framev().len() {
                    assert(mid.framev()[k1] == s.framev()[k1]);
                    assert(mid.framev()[k2] == s.framev()[k2]);
                } else {
                    // the new scope's head was only just entered, so no
                    // older open loop scope can pin it
                    assert(old(self).framev()[k1].loop_block == mid.framev()[k1].loop_block);
                    assert(old(self).loop_frame_ok(k1));
                    match old(self).framev()[k1].loop_block {
                        Some(lb) => {
                            assert(old(self).blocks()[lb.spec_val() as int].spec_entered());
                            assert(!old(self).blocks()[block.spec_val() as int].spec_entered());
                        }
                        None => {}
                    }
                }
            }
            assert(s.cur_blk() == mid.cur_blk());
            assert(s.cur_shape_ok()) by {
                assert(mid.cur_shape_ok());
            }
        }
    }

    /// Close the innermost loop scope: everything it declared is
    /// defined, the current block is finished, and the loop head is
    /// sealed against further back edges.
    #[verifier::rlimit(60)]
    #[verifier::spinoff_prover]
    pub fn end_loop(&mut self)
        requires
            old(self).wf(),
            old(self).framev().len() >= 2,
            old(self).top().loop_block is Some,
            old(self).top().start + old(self).top().entered == old(self).decls().len(),
            old(self).cur_blk().spec_finished(),
        ensures
            final(self).wf(),
            final(self).framev() == old(self).framev().drop_last(),
            ({
                let lb = old(self).top().loop_block->Some_0;
                final(self).blocks() == old(self).blocks().update(lb.spec_val() as int, Block {
                    state: BlockState::LoopComplete,
                    ..old(self).blocks()[lb.spec_val() as int]
                })
            }),
            final(self).rpo() == old(self).rpo(),
            final(self).decls() == old(self).decls(),
            final(self).recs() == old(self).recs(),
            final(self).cur_block == old(self).cur_block,
            final(self).emitted_phis == old(self).emitted_phis,
            final(self).cur_emitted == old(self).cur_emitted,
            final(self).stream_len() == old(self).stream_len(),
    {
        let k = self.frames.len() - 1;
        let lb = match self.frames[k].loop_block {
            Some(lb) => lb,
            None => vstd::pervasive::unreached(),
        };
        proof {
            assert(old(self).loop_frame_ok(old(self).framev().len() - 1));
            let lv = lb.spec_val() as int;
            // the head is entered; it is not the one unfinished block
            // unless it is current, and the current block is finished
            if lv != old(self).cur() {
                assert(old(self).blocks()[lv].spec_entered());
                if !old(self).blocks()[lv].spec_finished() {
                    assert(lv == old(self).cur());
                }
            }
            assert(old(self).blocks()[lv].spec_finished());
        }
        self.frames.truncate(k);
        self.builder.block_store.finish_loop(lb);
        proof {
            let s = self;
            let o = old(self);
            let lv = lb.spec_val() as int;
            assert(s.framev() =~= o.framev().drop_last());
            assert forall|k2: int| 0 <= k2 < s.framev().len() implies
                #[trigger] s.frame_range_ok(k2) by {
                assert(o.frame_range_ok(k2));
                assert(s.framev()[k2] == o.framev()[k2]);
                lemma_frame_range_update(o, s, k2, k2, lv);
            }
            assert forall|k2: int| 0 <= k2 < s.framev().len() implies
                #[trigger] s.loop_frame_ok(k2) by {
                assert(o.loop_frame_ok(k2));
                assert(s.framev()[k2] == o.framev()[k2]);
                match s.framev()[k2].loop_block {
                    Some(lb2) => {
                        // distinct from the sealed head, so untouched
                        assert(o.framev()[k2].loop_block is Some);
                        assert(o.top().loop_block is Some);
                        assert(o.framev()[k2].loop_block != o.top().loop_block);
                        assert(lb2.spec_val() as int != lv) by {
                            if lb2 == lb {
                                assert(o.framev()[k2].loop_block == o.top().loop_block);
                            } else {
                                assert(o.blocks()[lb2.spec_val() as int].spec_is_loop());
                                if lb2.spec_val() == lb.spec_val() {
                                    assert(lb2.0 == lb.0);
                                }
                            }
                        }
                        assert(s.blocks()[lb2.spec_val() as int]
                            == o.blocks()[lb2.spec_val() as int]);
                    }
                    None => {}
                }
            }
            assert forall|i: int| 0 <= i < s.blocks().len()
                && (#[trigger] s.blocks()[i]).spec_entered()
                && !s.blocks()[i].spec_finished() implies i == s.cur() by {
                if i != lv {
                    assert(s.blocks()[i] == o.blocks()[i]);
                }
            }
            assert forall|i: int, k2: int| 0 <= i < s.recs().len()
                && 0 <= k2 < s.recs()[i].targets.len() implies {
                &&& (#[trigger] s.recs()[i].targets[k2]).block < s.blocks().len()
                &&& s.recs()[i].targets[k2].phi_args.len()
                    == s.blocks()[s.recs()[i].targets[k2].block as int].spec_num_phis()
            } by {
                assert(o.recs()[i].targets[k2].block < o.blocks().len());
                assert(s.blocks()[s.recs()[i].targets[k2].block as int].spec_num_phis()
                    == o.blocks()[o.recs()[i].targets[k2].block as int].spec_num_phis());
            }
            assert forall|b: int| 0 <= b < s.blocks().len() implies
                (#[trigger] s.blocks()[b]).input_edges == count_targets(s.recs(), b) by {
                assert(o.blocks()[b].input_edges == count_targets(o.recs(), b));
                assert(s.blocks()[b].input_edges == o.blocks()[b].input_edges);
            }
            assert forall|b: int| 0 <= b < s.blocks().len()
                && (#[trigger] s.blocks()[b]).spec_finished() implies
                block_shape(s.recs(), s.blocks()[b]) by {
                if b == lv {
                    assert(o.blocks()[b].spec_finished());
                    assert(block_shape(o.recs(), o.blocks()[b]));
                    assert(s.blocks()[b].first_instr == o.blocks()[b].first_instr);
                    assert(s.blocks()[b].last_instr == o.blocks()[b].last_instr);
                    assert(s.blocks()[b].spec_num_phis() == o.blocks()[b].spec_num_phis());
                } else {
                    assert(s.blocks()[b] == o.blocks()[b]);
                    assert(block_shape(o.recs(), o.blocks()[b]));
                }
            }
            assert(s.cur_shape_ok()) by {
                if s.cur() == lv {
                    assert(o.cur_blk().spec_finished());
                    assert(s.cur_blk().spec_finished());
                    assert(s.cur_blk().last_instr == o.cur_blk().last_instr);
                } else {
                    assert(s.cur_blk() == o.cur_blk());
                }
            }
        }
    }

    /// Emit one non-phi, non-terminal instruction into the current
    /// block.
    fn emit_instr_op(&mut self, op: Op, inputs: Vec<Defn>) -> (r: InstrId)
        requires
            old(self).wf(),
            !old(self).cur_blk().spec_finished(),
            !op.spec_terminal(),
            !(op is Phi),
            inputs@.len() == op.spec_num_inputs(),
            forall|j: int| 0 <= j < inputs@.len()
                ==> (#[trigger] inputs@[j]).spec_val() < old(self).stream_len(),
            old(self).stream_len() + enc_instr(simple_rec(op, defn_ids(inputs@))).len()
                <= MAX_INSTR_BYTES,
        ensures
            emitted_rec(old(self), final(self), simple_rec(op, defn_ids(inputs@))),
            r.spec_val() == old(self).stream_len(),
            r.is_valid(),
    {
        let ghost rec = simple_rec(op, defn_ids(inputs@));
        proof {
            lemma_enc_instr_len(rec);
            assert(old(self).cur_emitted < u32::MAX) by {
                assert(old(self).cur_emitted <= old(self).recs().len());
                assert(old(self).recs().len() <= old(self).stream_len());
            }
        }
        let id_opt = self.builder.instr_store.emit_instr(&op, &inputs);
        let id = match id_opt {
            Some(id) => id,
            None => vstd::pervasive::unreached(),
        };
        self.cur_emitted = self.cur_emitted + 1;
        proof {
            lemma_wf_after_emit(old(self), self, rec);
        }
        id
    }

    /// Emit a nop: no inputs, no value.
    pub fn emit_nop(&mut self)
        requires
            old(self).wf(),
            !old(self).cur_blk().spec_finished(),
            old(self).stream_len() + enc_instr(simple_rec(Op::Nop(NopOp), Seq::empty())).len()
                <= MAX_INSTR_BYTES,
        ensures
            emitted_rec(old(self), final(self), simple_rec(Op::Nop(NopOp), Seq::empty())),
    {
        let inputs: Vec<Defn> = Vec::new();
        proof {
            assert(defn_ids(inputs@) =~= Seq::<u32>::empty());
        }
        self.emit_instr_op(Op::Nop(NopOp::new()), inputs);
    }

    /// Emit a boolean constant; the definition carries `Bool`.
    pub fn emit_const_bool(&mut self, b: bool) -> (r: TypedDefn)
        requires
            old(self).wf(),
            !old(self).cur_blk().spec_finished(),
            old(self).stream_len()
                + enc_instr(simple_rec(Op::Const(ConstOp::Bool(b)), Seq::empty())).len()
                <= MAX_INSTR_BYTES,
        ensures
            emitted_rec(old(self), final(self),
                simple_rec(Op::Const(ConstOp::Bool(b)), Seq::empty())),
            r.spec_val() == old(self).stream_len(),
            r.is_valid(),
            r.spec_tyid() == IrTypeId::Bool,
    {
        let inputs: Vec<Defn> = Vec::new();
        proof {
            assert(defn_ids(inputs@) =~= Seq::<u32>::empty());
        }
        let id = self.emit_instr_op(Op::Const(ConstOp::new_bool(b)), inputs);
        TypedDefn::new(id, IrTypeId::Bool)
    }

    /// Emit a 32-bit integer constant; the definition carries `Int32`.
    pub fn emit_const_int32(&mut self, i: u32) -> (r: TypedDefn)
        requires
            old(self).wf(),
            !old(self).cur_blk().spec_finished(),
            old(self).stream_len()
                + enc_instr(simple_rec(Op::Const(ConstOp::Int32(i)), Seq::empty())).len()
                <= MAX_INSTR_BYTES,
        ensures
            emitted_rec(old(self), final(self),
                simple_rec(Op::Const(ConstOp::Int32(i)), Seq::empty())),
            r.spec_val() == old(self).stream_len(),
            r.is_valid(),
            r.spec_tyid() == IrTypeId::Int32,
    {
        let inputs: Vec<Defn> = Vec::new();
        proof {
            assert(defn_ids(inputs@) =~= Seq::<u32>::empty());
        }
        let id = self.emit_instr_op(Op::Const(ConstOp::new_int32(i)), inputs);
        TypedDefn::new(id, IrTypeId::Int32)
    }

    /// Emit a 64-bit integer constant; the definition carries `Int64`.
    pub fn emit_const_int64(&mut self, i: u64) -> (r: TypedDefn)
        requires
            old(self).wf(),
            !old(self).cur_blk().spec_finished(),
            old(self).stream_len()
                + enc_instr(simple_rec(Op::Const(ConstOp::Int64(i)), Seq::empty())).len()
                <= MAX_INSTR_BYTES,
        ensures
            emitted_rec(old(self), final(self),
                simple_rec(Op::Const(ConstOp::Int64(i)), Seq::empty())),
            r.spec_val() == old(self).stream_len(),
            r.is_valid(),
            r.spec_tyid() == IrTypeId::Int64,
    {
        let inputs: Vec<Defn> = Vec::new();
        proof {
            assert(defn_ids(inputs@) =~= Seq::<u32>::empty());
        }
        let id = self.emit_instr_op(Op::Const(ConstOp::new_int64(i)), inputs);
        TypedDefn::new(id, IrTypeId::Int64)
    }

    /// Emit a comparison of two definitions of one type; the result
    /// carries `Bool`.
    pub fn emit_cmp(&mut self, kind: CmpKind, lhs: TypedDefn, rhs: TypedDefn) -> (r: TypedDefn)
        requires
            old(self).wf(),
            !old(self).cur_blk().spec_finished(),
            lhs.spec_tyid() == rhs.spec_tyid(),
            lhs.spec_val() < old(self).stream_len(),
            rhs.spec_val() < old(self).stream_len(),
            old(self).stream_len() + enc_instr(cmp_rec(kind, lhs, rhs)).len()
                <= MAX_INSTR_BYTES,
        ensures
            emitted_rec(old(self), final(self), cmp_rec(kind, lhs, rhs)),
            r.spec_val() == old(self).stream_len(),
            r.is_valid(),
            r.spec_tyid() == IrTypeId::Bool,
    {
        let op = Op::Cmp(CmpOp::new(kind, lhs.tyid()));
        let inputs: Vec<Defn> = vec![lhs.untyped_defn(), rhs.untyped_defn()];
        proof {
            assert(defn_ids(inputs@) =~= seq![lhs.spec_val(), rhs.spec_val()]);
        }
        let id = self.emit_instr_op(op, inputs);
        TypedDefn::new(id, IrTypeId::Bool)
    }

    /// Emit an integer binary operation; the result carries the
    /// operands' type.
    pub fn emit_bini(&mut self, kind: BiniKind, lhs: TypedDefn, rhs: TypedDefn) -> (r: TypedDefn)
        requires
            old(self).wf(),
            !old(self).cur_blk().spec_finished(),
            lhs.spec_tyid() == rhs.spec_tyid(),
            lhs.spec_val() < old(self).stream_len(),
            rhs.spec_val() < old(self).stream_len(),
            old(self).stream_len() + enc_instr(bini_rec(kind, lhs, rhs)).len()
                <= MAX_INSTR_BYTES,
        ensures
            emitted_rec(old(self), final(self), bini_rec(kind, lhs, rhs)),
            r.spec_val() == old(self).stream_len(),
            r.is_valid(),
            r.spec_tyid() == lhs.spec_tyid(),
    {
        let op = Op::Bini(BiniOp::new(kind, lhs.tyid()));
        let inputs: Vec<Defn> = vec![lhs.untyped_defn(), rhs.untyped_defn()];
        proof {
            assert(defn_ids(inputs@) =~= seq![lhs.spec_val(), rhs.spec_val()]);
        }
        let ty = lhs.tyid();
        let id = self.emit_instr_op(op, inputs);
        TypedDefn::new(id, ty)
    }


    /// Emit the comparison "strictly below".
    pub fn emit_lt(&mut self, lhs: TypedDefn, rhs: TypedDefn) -> (r: TypedDefn)
        requires
            old(self).wf(),
            !old(self).cur_blk().spec_finished(),
            lhs.spec_tyid() == rhs.spec_tyid(),
            lhs.spec_val() < old(self).stream_len(),
            rhs.spec_val() < old(self).stream_len(),
            old(self).stream_len() + enc_instr(cmp_rec(CmpKind::Lt, lhs, rhs)).len()
                <= MAX_INSTR_BYTES,
        ensures
            emitted_rec(old(self), final(self), cmp_rec(CmpKind::Lt, lhs, rhs)),
            r.spec_val() == old(self).stream_len(),
            r.is_valid(),
            r.spec_tyid() == IrTypeId::Bool,
    {
        self.emit_cmp(CmpKind::Lt, lhs, rhs)
    }

    /// Emit the comparison "at most".
    pub fn emit_le(&mut self, lhs: TypedDefn, rhs: TypedDefn) -> (r: TypedDefn)
        requires
            old(self).wf(),
            !old(self).cur_blk().spec_finished(),
            lhs.spec_tyid() == rhs.spec_tyid(),
            lhs.spec_val() < old(self).stream_len(),
            rhs.spec_val() < old(self).stream_len(),
            old(self).stream_len() + enc_instr(cmp_rec(CmpKind::Le, lhs, rhs)).len()
                <= MAX_INSTR_BYTES,
        ensures
            emitted_rec(old(self), final(self), cmp_rec(CmpKind::Le, lhs, rhs)),
            r.spec_val() == old(self).stream_len(),
            r.is_valid(),
            r.spec_tyid() == IrTypeId::Bool,
    {
        self.emit_cmp(CmpKind::Le, lhs, rhs)
    }

    /// Emit the comparison "equal to".
    pub fn emit_eq(&mut self, lhs: TypedDefn, rhs: TypedDefn) -> (r: TypedDefn)
        requires
            old(self).wf(),
            !old(self).cur_blk().spec_finished(),
            lhs.spec_tyid() == rhs.spec_tyid(),
            lhs.spec_val() < old(self).stream_len(),
            rhs.spec_val() < old(self).stream_len(),
            old(self).stream_len() + enc_instr(cmp_rec(CmpKind::Eq, lhs, rhs)).len()
                <= MAX_INSTR_BYTES,
        ensures
            emitted_rec(old(self), final(self), cmp_rec(CmpKind::Eq, lhs, rhs)),
            r.spec_val() == old(self).stream_len(),
            r.is_valid(),
            r.spec_tyid() == IrTypeId::Bool,
    {
        self.emit_cmp(CmpKind::Eq, lhs, rhs)
    }

    /// Emit the comparison "unequal to".
    pub fn emit_ne(&mut self, lhs: TypedDefn, rhs: TypedDefn) -> (r: TypedDefn)
        requires
            old(self).wf(),
            !old(self).cur_blk().spec_finished(),
            lhs.spec_tyid() == rhs.spec_tyid(),
            lhs.spec_val() < old(self).stream_len(),
            rhs.spec_val() < old(self).stream_len(),
            old(self).stream_len() + enc_instr(cmp_rec(CmpKind::Ne, lhs, rhs)).len()
                <= MAX_INSTR_BYTES,
        ensures
            emitted_rec(old(self), final(self), cmp_rec(CmpKind::Ne, lhs, rhs)),
            r.spec_val() == old(self).stream_len(),
            r.is_valid(),
            r.spec_tyid() == IrTypeId::Bool,
    {
        self.emit_cmp(CmpKind::Ne, lhs, rhs)
    }

    /// Emit the comparison "at least".
    pub fn emit_ge(&mut self, lhs: TypedDefn, rhs: TypedDefn) -> (r: TypedDefn)
        requires
            old(self).wf(),
            !old(self).cur_blk().spec_finished(),
            lhs.spec_tyid() == rhs.spec_tyid(),
            lhs.spec_val() < old(self).stream_len(),
            rhs.spec_val() < old(self).stream_len(),
            old(self).stream_len() + enc_instr(cmp_rec(CmpKind::Ge, lhs, rhs)).len()
                <= MAX_INSTR_BYTES,
        ensures
            emitted_rec(old(self), final(self), cmp_rec(CmpKind::Ge, lhs, rhs)),
            r.spec_val() == old(self).stream_len(),
            r.is_valid(),
            r.spec_tyid() == IrTypeId::Bool,
    {
        self.emit_cmp(CmpKind::Ge, lhs, rhs)
    }

    /// Emit the comparison "strictly above".
    pub fn emit_gt(&mut self, lhs: TypedDefn, rhs: TypedDefn) -> (r: TypedDefn)
        requires
            old(self).wf(),
            !old(self).cur_blk().spec_finished(),
            lhs.spec_tyid() == rhs.spec_tyid(),
            lhs.spec_val() < old(self).stream_len(),
            rhs.spec_val() < old(self).stream_len(),
            old(self).stream_len() + enc_instr(cmp_rec(CmpKind::Gt, lhs, rhs)).len()
                <= MAX_INSTR_BYTES,
        ensures
            emitted_rec(old(self), final(self), cmp_rec(CmpKind::Gt, lhs, rhs)),
            r.spec_val() == old(self).stream_len(),
            r.is_valid(),
            r.spec_tyid() == IrTypeId::Bool,
    {
        self.emit_cmp(CmpKind::Gt, lhs, rhs)
    }

    /// Emit the sum of two integer definitions.
    pub fn emit_add(&mut self, lhs: TypedDefn, rhs: TypedDefn) -> (r: TypedDefn)
        requires
            old(self).wf(),
            !old(self).cur_blk().spec_finished(),
            lhs.spec_tyid() == rhs.spec_tyid(),
            lhs.spec_val() < old(self).stream_len(),
            rhs.spec_val() < old(self).stream_len(),
            old(self).stream_len() + enc_instr(bini_rec(BiniKind::Add, lhs, rhs)).len()
                <= MAX_INSTR_BYTES,
        ensures
            emitted_rec(old(self), final(self), bini_rec(BiniKind::Add, lhs, rhs)),
            r.spec_val() == old(self).stream_len(),
            r.is_valid(),
            r.spec_tyid() == lhs.spec_tyid(),
    {
        self.emit_bini(BiniKind::Add, lhs, rhs)
    }

    /// Emit the difference of two integer definitions.
    pub fn emit_sub(&mut self, lhs: TypedDefn, rhs: TypedDefn) -> (r: TypedDefn)
        requires
            old(self).wf(),
            !old(self).cur_blk().spec_finished(),
            lhs.spec_tyid() == rhs.spec_tyid(),
            lhs.spec_val() < old(self).stream_len(),
            rhs.spec_val() < old(self).stream_len(),
            old(self).stream_len() + enc_instr(bini_rec(BiniKind::Sub, lhs, rhs)).len()
                <= MAX_INSTR_BYTES,
        ensures
            emitted_rec(old(self), final(self), bini_rec(BiniKind::Sub, lhs, rhs)),
            r.spec_val() == old(self).stream_len(),
            r.is_valid(),
            r.spec_tyid() == lhs.spec_tyid(),
    {
        self.emit_bini(BiniKind::Sub, lhs, rhs)
    }

    /// Emit the product of two integer definitions.
    pub fn emit_mul(&mut self, lhs: TypedDefn, rhs: TypedDefn) -> (r: TypedDefn)
        requires
            old(self).wf(),
            !old(self).cur_blk().spec_finished(),
            lhs.spec_tyid() == rhs.spec_tyid(),
            lhs.spec_val() < old(self).stream_len(),
            rhs.spec_val() < old(self).stream_len(),
            old(self).stream_len() + enc_instr(bini_rec(BiniKind::Mul, lhs, rhs)).len()
                <= MAX_INSTR_BYTES,
        ensures
            emitted_rec(old(self), final(self), bini_rec(BiniKind::Mul, lhs, rhs)),
            r.spec_val() == old(self).stream_len(),
            r.is_valid(),
            r.spec_tyid() == lhs.spec_tyid(),
    {
        self.emit_bini(BiniKind::Mul, lhs, rhs)
    }

    /// Emit the bitwise and of two integer definitions.
    pub fn emit_and(&mut self, lhs: TypedDefn, rhs: TypedDefn) -> (r: TypedDefn)
        requires
            old(self).wf(),
            !old(self).cur_blk().spec_finished(),
            lhs.spec_tyid() == rhs.spec_tyid(),
            lhs.spec_val() < old(self).stream_len(),
            rhs.spec_val() < old(self).stream_len(),
            old(self).stream_len() + enc_instr(bini_rec(BiniKind::And, lhs, rhs)).len()
                <= MAX_INSTR_BYTES,
        ensures
            emitted_rec(old(self), final(self), bini_rec(BiniKind::And, lhs, rhs)),
            r.spec_val() == old(self).stream_len(),
            r.is_valid(),
            r.spec_tyid() == lhs.spec_tyid(),
    {
        self.emit_bini(BiniKind::And, lhs, rhs)
    }

    /// Emit the bitwise or of two integer definitions.
    pub fn emit_or(&mut self, lhs: TypedDefn, rhs: TypedDefn) -> (r: TypedDefn)
        requires
            old(self).wf(),
            !old(self).cur_blk().spec_finished(),
            lhs.spec_tyid() == rhs.spec_tyid(),
            lhs.spec_val() < old(self).stream_len(),
            rhs.spec_val() < old(self).stream_len(),
            old(self).stream_len() + enc_instr(bini_rec(BiniKind::Or, lhs, rhs)).len()
                <= MAX_INSTR_BYTES,
        ensures
            emitted_rec(old(self), final(self), bini_rec(BiniKind::Or, lhs, rhs)),
            r.spec_val() == old(self).stream_len(),
            r.is_valid(),
            r.spec_tyid() == lhs.spec_tyid(),
    {
        self.emit_bini(BiniKind::Or, lhs, rhs)
    }

    /// Emit the bitwise exclusive or of two integer definitions.
    pub fn emit_xor(&mut self, lhs: TypedDefn, rhs: TypedDefn) -> (r: TypedDefn)
        requires
            old(self).wf(),
            !old(self).cur_blk().spec_finished(),
            lhs.spec_tyid() == rhs.spec_tyid(),
            lhs.spec_val() < old(self).stream_len(),
            rhs.spec_val() < old(self).stream_len(),
            old(self).stream_len() + enc_instr(bini_rec(BiniKind::Xor, lhs, rhs)).len()
                <= MAX_INSTR_BYTES,
        ensures
            emitted_rec(old(self), final(self), bini_rec(BiniKind::Xor, lhs, rhs)),
            r.spec_val() == old(self).stream_len(),
            r.is_valid(),
            r.spec_tyid() == lhs.spec_tyid(),
    {
        self.emit_bini(BiniKind::Xor, lhs, rhs)
    }
    /// Emit a phi. Phis stand first in a block: nothing else may have
    /// been emitted into it, and the declared count is not exhausted.
    pub fn emit_phi(&mut self, tyid: IrTypeId) -> (r: TypedDefn)
        requires
            old(self).wf(),
            !old(self).cur_blk().spec_finished(),
            old(self).emitted_phis < old(self).cur_blk().spec_num_phis(),
            old(self).cur_emitted == old(self).emitted_phis,
            old(self).stream_len()
                + enc_instr(simple_rec(Op::Phi(PhiOp { tyid }), Seq::empty())).len()
                <= MAX_INSTR_BYTES,
        ensures
            emitted_rec(old(self), final(self),
                simple_rec(Op::Phi(PhiOp { tyid }), Seq::empty())),
            r.spec_val() == old(self).stream_len(),
            r.is_valid(),
            r.spec_tyid() == tyid,
    {
        let ghost rec = simple_rec(Op::Phi(PhiOp { tyid }), Seq::empty());
        let op = Op::Phi(PhiOp::new(tyid));
        let inputs: Vec<Defn> = Vec::new();
        proof {
            assert(defn_ids(inputs@) =~= Seq::<u32>::empty());
            lemma_enc_instr_len(rec);
            assert(old(self).cur_emitted < u32::MAX) by {
                assert(old(self).cur_emitted <= old(self).recs().len());
                assert(old(self).recs().len() <= old(self).stream_len());
            }
        }
        let id_opt = self.builder.instr_store.emit_instr(&op, &inputs);
        let id = match id_opt {
            Some(id) => id,
            None => vstd::pervasive::unreached(),
        };
        self.cur_emitted = self.cur_emitted + 1;
        self.emitted_phis = self.emitted_phis + 1;
        proof {
            lemma_wf_after_emit(old(self), self, rec);
        }
        TypedDefn::new(id, tyid)
    }

    /// Emit one terminal: append the record with its target list,
    /// finish the current block, and count one input edge into each
    /// target.
    #[verifier::rlimit(60)]
    #[verifier::spinoff_prover]
    fn emit_end_op(
        &mut self,
        op: Op,
        inputs: Vec<Defn>,
        targets: Vec<(BlockId, Vec<Defn>)>,
    ) -> (r: InstrId)
        requires
            old(self).wf(),
            !old(self).cur_blk().spec_finished(),
            old(self).emitted_phis == old(self).cur_blk().spec_num_phis(),
            op.spec_terminal(),
            inputs@.len() == op.spec_num_inputs(),
            targets@.len() == op.spec_num_targets(),
            forall|j: int| 0 <= j < inputs@.len()
                ==> (#[trigger] inputs@[j]).spec_val() < old(self).stream_len(),
            forall|k: int| 0 <= k < targets@.len()
                ==> (#[trigger] targets@[k]).0.spec_val() < old(self).blocks().len(),
            forall|k: int| 0 <= k < targets@.len()
                ==> (#[trigger] targets@[k]).1@.len() == old(self).blocks()[
                    targets@[k].0.spec_val() as int].spec_num_phis(),
            forall|k: int| 0 <= k < targets@.len()
                ==> (#[trigger] targets@[k]).1@.len() <= MAX_INSTR_BYTES,
            forall|k: int, j: int| 0 <= k < targets@.len() && 0 <= j < targets@[k].1@.len()
                ==> (#[trigger] targets@[k].1@[j]).spec_val() < old(self).stream_len(),
            forall|k: int| 0 <= k < targets@.len()
                ==> target_enterable(old(self), (#[trigger] targets@[k]).0.spec_val() as int),
            old(self).stream_len() + enc_instr(end_rec(
                op, defn_ids(inputs@), target_recs(targets@))).len() <= MAX_INSTR_BYTES,
        ensures
            final(self).wf(),
            final(self).recs() == old(self).recs().push(end_rec(
                op, defn_ids(inputs@), target_recs(targets@))),
            r.spec_val() == old(self).stream_len(),
            r.is_valid(),
            final(self).stream_len() == old(self).stream_len() + enc_instr(end_rec(
                op, defn_ids(inputs@), target_recs(targets@))).len(),
            end_updates(old(self), final(self), target_recs(targets@), old(self).stream_len()),
            final(self).rpo() == old(self).rpo(),
            final(self).decls() == old(self).decls(),
            final(self).framev() == old(self).framev(),
            final(self).cur_block == old(self).cur_block,
    {
        let ghost rec = end_rec(op, defn_ids(inputs@), target_recs(targets@));
        let ghost tr = target_recs(targets@);
        proof {
            lemma_enc_instr_len(rec);
        }
        let id_opt = self.builder.instr_store.emit_end(&op, &inputs, &targets);
        let id = match id_opt {
            Some(id) => id,
            None => vstd::pervasive::unreached(),
        };
        self.builder.block_store.finish_block(self.cur_block, id);
        let ghost mid = *self;
        proof {
            assert forall|b: int| 0 <= b < self.blocks().len() implies
                (#[trigger] self.blocks()[b]).input_edges + targets@.len()
                    <= u32::MAX by {
                assert(old(self).blocks()[b].input_edges
                    == count_targets(old(self).recs(), b));
                lemma_count_targets_bound(old(self).recs(), b);
                assert(old(self).recs().len()
                    <= old(self).builder.instr_store.stream().len());
                if b != old(self).cur() {
                    assert(self.blocks()[b] == old(self).blocks()[b]);
                }
            }
        }
        self.count_edges(&targets);
        proof {
            assert(end_updates(old(self), self, tr, id.spec_val() as int)) by {
                assert forall|i: int| 0 <= i < old(self).blocks().len() implies {
                    let ob = #[trigger] old(self).blocks()[i];
                    let nb = self.blocks()[i];
                    &&& nb.id == ob.id
                    &&& nb.variant == ob.variant
                    &&& nb.order == ob.order
                    &&& nb.first_instr == ob.first_instr
                    &&& nb.input_edges == ob.input_edges + count_tgt_list(tr, i)
                    &&& (i == old(self).cur() ==> nb.state == BlockState::Finished
                        && nb.last_instr.spec_val() == id.spec_val())
                    &&& (i != old(self).cur() ==> nb.state == ob.state
                        && nb.last_instr == ob.last_instr)
                } by {
                    if i != old(self).cur() {
                        assert(mid.blocks()[i] == old(self).blocks()[i]);
                    }
                    assert(mid.blocks()[i].input_edges == old(self).blocks()[i].input_edges);
                }
            }
            assert(self.blocks()[old(self).cur()].last_instr.is_valid()) by {
                assert(mid.blocks()[old(self).cur()].last_instr == id);
            }
            lemma_wf_after_end(old(self), self, rec, id.spec_val() as int);
        }
        id
    }

    /// Count one input edge into each listed target block.
    #[verifier::loop_isolation(false)]
    fn count_edges(&mut self, targets: &Vec<(BlockId, Vec<Defn>)>)
        requires
            old(self).builder.block_store.wf(),
            forall|k: int| 0 <= k < targets@.len()
                ==> (#[trigger] targets@[k]).0.spec_val() < old(self).blocks().len(),
            forall|b: int| 0 <= b < old(self).blocks().len()
                ==> (#[trigger] old(self).blocks()[b]).input_edges + targets@.len()
                    <= u32::MAX,
        ensures
            final(self).builder.block_store.wf(),
            final(self).builder.instr_store == old(self).builder.instr_store,
            final(self).builder.subgraph_decls == old(self).builder.subgraph_decls,
            final(self).frames@ == old(self).frames@,
            final(self).cur_block == old(self).cur_block,
            final(self).emitted_phis == old(self).emitted_phis,
            final(self).cur_emitted == old(self).cur_emitted,
            final(self).rpo() == old(self).rpo(),
            final(self).blocks().len() == old(self).blocks().len(),
            forall|i: int| 0 <= i < old(self).blocks().len() ==> {
                let ob = #[trigger] old(self).blocks()[i];
                let nb = final(self).blocks()[i];
                &&& nb.id == ob.id
                &&& nb.variant == ob.variant
                &&& nb.state == ob.state
                &&& nb.order == ob.order
                &&& nb.first_instr == ob.first_instr
                &&& nb.last_instr == ob.last_instr
                &&& nb.input_edges == ob.input_edges
                    + count_tgt_list(target_recs(targets@), i)
            },
    {
        let ghost tr = target_recs(targets@);
        proof {
            assert(tr.take(0) =~= Seq::<TargetRec>::empty());
        }
        let n = targets.len();
        let mut k: usize = 0;
        while k < n
            invariant
                k <= n,
                self.builder.block_store.wf(),
                self.builder.instr_store == old(self).builder.instr_store,
                self.builder.subgraph_decls == old(self).builder.subgraph_decls,
                self.frames@ == old(self).frames@,
                self.cur_block == old(self).cur_block,
                self.emitted_phis == old(self).emitted_phis,
                self.cur_emitted == old(self).cur_emitted,
                self.rpo() == old(self).rpo(),
                self.blocks().len() == old(self).blocks().len(),
                forall|i: int| 0 <= i < old(self).blocks().len() ==> {
                    let ob = #[trigger] old(self).blocks()[i];
                    let nb = self.blocks()[i];
                    &&& nb.id == ob.id
                    &&& nb.variant == ob.variant
                    &&& nb.state == ob.state
                    &&& nb.order == ob.order
                    &&& nb.first_instr == ob.first_instr
                    &&& nb.last_instr == ob.last_instr
                    &&& nb.input_edges == ob.input_edges
                        + count_tgt_list(tr.take(k as int), i)
                },
            decreases n - k,
        {
            let t_id = targets[k].0;
            proof {
                let b = t_id.spec_val() as int;
                assert(targets@[k as int].0.spec_val() < old(self).blocks().len());
                lemma_count_tgt_bound(tr.take(k as int), b);
                assert(tr.len() == targets@.len());
                assert(tr.take(k as int).len() == k);
                assert(old(self).blocks()[b].input_edges + targets@.len() <= u32::MAX);
                assert(self.blocks()[b].input_edges < u32::MAX);
            }
            self.builder.block_store.incr_input_edges(t_id);
            proof {
                let bv = t_id.spec_val() as int;
                assert(tr[k as int].block == targets@[k as int].0.spec_val());
                assert forall|i: int| 0 <= i < old(self).blocks().len() implies {
                    let ob = #[trigger] old(self).blocks()[i];
                    let nb = self.blocks()[i];
                    &&& nb.id == ob.id
                    &&& nb.variant == ob.variant
                    &&& nb.state == ob.state
                    &&& nb.order == ob.order
                    &&& nb.first_instr == ob.first_instr
                    &&& nb.last_instr == ob.last_instr
                    &&& nb.input_edges == ob.input_edges
                        + count_tgt_list(tr.take(k + 1), i)
                } by {
                    lemma_count_tgt_take(tr, k as int, i);
                }
            }
            k = k + 1;
        }
        proof {
            assert(tr.take(n as int) =~= tr);
        }
    }

    /// Emit a return of `v`: a terminal with no targets.
    pub fn ret(&mut self, v: TypedDefn)
        requires
            old(self).wf(),
            !old(self).cur_blk().spec_finished(),
            old(self).emitted_phis == old(self).cur_blk().spec_num_phis(),
            v.spec_val() < old(self).stream_len(),
            old(self).stream_len() + enc_instr(ret_rec(v)).len() <= MAX_INSTR_BYTES,
        ensures
            final(self).wf(),
            final(self).recs() == old(self).recs().push(ret_rec(v)),
            final(self).stream_len() == old(self).stream_len()
                + enc_instr(ret_rec(v)).len(),
            end_updates(old(self), final(self), Seq::empty(), old(self).stream_len()),
            final(self).rpo() == old(self).rpo(),
            final(self).decls() == old(self).decls(),
            final(self).framev() == old(self).framev(),
            final(self).cur_block == old(self).cur_block,
    {
        let op = Op::Ret(RetOp::new(v.tyid()));
        let inputs: Vec<Defn> = vec![v.untyped_defn()];
        let targets: Vec<(BlockId, Vec<Defn>)> = Vec::new();
        proof {
            assert(defn_ids(inputs@) =~= seq![v.spec_val()]);
            assert(target_recs(targets@) =~= Seq::<TargetRec>::empty());
        }
        self.emit_end_op(op, inputs, targets);
    }

    /// Emit a jump to `target`, handing `phis` to its phi slots: a
    /// terminal with one target.
    pub fn jump(&mut self, target: BlockRef, phis: &[Defn])
        requires
            old(self).wf(),
            !old(self).cur_blk().spec_finished(),
            old(self).emitted_phis == old(self).cur_blk().spec_num_phis(),
            target.spec_val() < old(self).blocks().len(),
            phis@.len() == old(self).blocks()[target.spec_val() as int].spec_num_phis(),
            phis@.len() <= MAX_INSTR_BYTES,
            forall|j: int| 0 <= j < phis@.len()
                ==> (#[trigger] phis@[j]).spec_val() < old(self).stream_len(),
            target_enterable(old(self), target.spec_val() as int),
            old(self).stream_len() + enc_instr(jump_rec(
                target.spec_val(), defn_ids(phis@))).len() <= MAX_INSTR_BYTES,
        ensures
            final(self).wf(),
            final(self).recs() == old(self).recs().push(jump_rec(
                target.spec_val(), defn_ids(phis@))),
            final(self).stream_len() == old(self).stream_len() + enc_instr(jump_rec(
                target.spec_val(), defn_ids(phis@))).len(),
            end_updates(old(self), final(self),
                seq![TargetRec { block: target.spec_val(), phi_args: defn_ids(phis@) }],
                old(self).stream_len()),
            final(self).rpo() == old(self).rpo(),
            final(self).decls() == old(self).decls(),
            final(self).framev() == old(self).framev(),
            final(self).cur_block == old(self).cur_block,
    {
        let op = Op::Jump(JumpOp::new());
        let inputs: Vec<Defn> = Vec::new();
        let phi_vec = defns_to_vec(phis);
        let mut targets: Vec<(BlockId, Vec<Defn>)> = Vec::new();
        targets.push((target.id(), phi_vec));
        proof {
            assert(defn_ids(inputs@) =~= Seq::<u32>::empty());
            assert(target_recs(targets@) =~= seq![
                TargetRec { block: target.spec_val(), phi_args: defn_ids(phis@) },
            ]);
        }
        self.emit_end_op(op, inputs, targets);
    }

    /// Emit a conditional branch on `cond`: a terminal with the true
    /// target first, then the false target, each with its phi list.
    pub fn branch(
        &mut self,
        cond: TypedDefn,
        if_true: BlockRef,
        true_phis: &[Defn],
        if_false: BlockRef,
        false_phis: &[Defn],
    )
        requires
            old(self).wf(),
            !old(self).cur_blk().spec_finished(),
            old(self).emitted_phis == old(self).cur_blk().spec_num_phis(),
            cond.spec_tyid() == IrTypeId::Bool,
            cond.spec_val() < old(self).stream_len(),
            if_true.spec_val() < old(self).blocks().len(),
            if_false.spec_val() < old(self).blocks().len(),
            true_phis@.len() == old(self).blocks()[
                if_true.spec_val() as int].spec_num_phis(),
            false_phis@.len() == old(self).blocks()[
                if_false.spec_val() as int].spec_num_phis(),
            true_phis@.len() <= MAX_INSTR_BYTES,
            false_phis@.len() <= MAX_INSTR_BYTES,
            forall|j: int| 0 <= j < true_phis@.len()
                ==> (#[trigger] true_phis@[j]).spec_val() < old(self).stream_len(),
            forall|j: int| 0 <= j < false_phis@.len()
                ==> (#[trigger] false_phis@[j]).spec_val() < old(self).stream_len(),
            target_enterable(old(self), if_true.spec_val() as int),
            target_enterable(old(self), if_false.spec_val() as int),
            old(self).stream_len() + enc_instr(branch_rec(
                cond, if_true.spec_val(), defn_ids(true_phis@),
                if_false.spec_val(), defn_ids(false_phis@))).len() <= MAX_INSTR_BYTES,
        ensures
            final(self).wf(),
            final(self).recs() == old(self).recs().push(branch_rec(
                cond, if_true.spec_val(), defn_ids(true_phis@),
                if_false.spec_val(), defn_ids(false_phis@))),
            final(self).stream_len() == old(self).stream_len() + enc_instr(branch_rec(
                cond, if_true.spec_val(), defn_ids(true_phis@),
                if_false.spec_val(), defn_ids(false_phis@))).len(),
            end_updates(old(self), final(self), seq![
                TargetRec { block: if_true.spec_val(), phi_args: defn_ids(true_phis@) },
                TargetRec { block: if_false.spec_val(), phi_args: defn_ids(false_phis@) },
            ], old(self).stream_len()),
            final(self).rpo() == old(self).rpo(),
            final(self).decls() == old(self).decls(),
            final(self).framev() == old(self).framev(),
            final(self).cur_block == old(self).cur_block,
    {
        let op = Op::Branch(BranchOp::new());
        let inputs: Vec<Defn> = vec![cond.untyped_defn()];
        let true_vec = defns_to_vec(true_phis);
        let false_vec = defns_to_vec(false_phis);
        let mut targets: Vec<(BlockId, Vec<Defn>)> = Vec::new();
        targets.push((if_true.id(), true_vec));
        targets.push((if_false.id(), false_vec));
        proof {
            assert(defn_ids(inputs@) =~= seq![cond.spec_val()]);
            assert(target_recs(targets@) =~= seq![
                TargetRec { block: if_true.spec_val(), phi_args: defn_ids(true_phis@) },
                TargetRec { block: if_false.spec_val(), phi_args: defn_ids(false_phis@) },
            ]);
        }
        self.emit_end_op(op, inputs, targets);
    }

    /// Close the root scope: every block is finished and every loop
    /// head sealed, and the builder with the finished graph comes
    /// back out.
    pub fn finish(self) -> (r: Builder)
        requires
            self.wf(),
            self.framev().len() == 1,
            forall|i: int| 0 <= i < self.blocks().len()
                ==> (#[trigger] self.blocks()[i]).spec_finished(),
            forall|i: int| 0 <= i < self.blocks().len()
                && (#[trigger] self.blocks()[i]).spec_is_loop()
                ==> self.blocks()[i].spec_loop_complete(),
        ensures
            builder_complete(&r),
            r.instr_store.recs() == self.recs(),
            r.block_store.blocks() == self.blocks(),
            r.block_store.rpo() == self.rpo(),
    {
        proof {
            assert(self.cur_blk().spec_finished());
            assert(self.recs().len() >= 1);
            let lastoff = self.cur_blk().last_instr.spec_val() as int;
            lemma_idx_of(self.recs(), lastoff);
            assert(block_shape(self.recs(), self.cur_blk()));
            assert(self.recs()[self.recs().len() - 1].op.spec_terminal());
            assert(self.recs().last() == self.recs()[self.recs().len() - 1]);
        }
        self.builder
    }
}

/// What one non-terminal emission does to a session: the record is
/// appended at the old stream front and nothing else moves, apart
/// from the per-block phi accounting.
pub open spec fn emitted_rec(o: &BuildSession, s: &BuildSession, rec: InstrRec) -> bool {
    &&& s.wf()
    &&& s.recs() == o.recs().push(rec)
    &&& s.stream_len() == o.stream_len() + enc_instr(rec).len()
    &&& s.blocks() == o.blocks()
    &&& s.rpo() == o.rpo()
    &&& s.decls() == o.decls()
    &&& s.framev() == o.framev()
    &&& s.cur_block == o.cur_block
    &&& s.cur_emitted == o.cur_emitted + 1
    &&& (rec.op is Phi ==> s.emitted_phis == o.emitted_phis + 1)
    &&& (!(rec.op is Phi) ==> s.emitted_phis == o.emitted_phis)
}

/// What one terminal emission does to each block: the current block
/// is finished with the terminal as its last instruction, and every
/// block collects one input edge per target naming it.
pub open spec fn end_updates(
    o: &BuildSession,
    s: &BuildSession,
    tr: Seq<TargetRec>,
    last_id: int,
) -> bool {
    &&& s.blocks().len() == o.blocks().len()
    &&& forall|i: int| 0 <= i < o.blocks().len() ==> {
        let ob = #[trigger] o.blocks()[i];
        let nb = s.blocks()[i];
        &&& nb.id == ob.id
        &&& nb.variant == ob.variant
        &&& nb.order == ob.order
        &&& nb.first_instr == ob.first_instr
        &&& nb.input_edges == ob.input_edges + count_tgt_list(tr, i)
        &&& (i == o.cur() ==> nb.state == BlockState::Finished
            && nb.last_instr.spec_val() == last_id)
        &&& (i != o.cur() ==> nb.state == ob.state && nb.last_instr == ob.last_instr)
    }
}

/// A block a terminal may name: not yet entered, or a loop head whose
/// scope is still open. This is the one permitted back-edge form.
pub open spec fn target_enterable(s: &BuildSession, b: int) -> bool {
    ||| !s.blocks()[b].spec_entered()
    ||| (s.blocks()[b].spec_is_loop() && !s.blocks()[b].spec_loop_complete())
}

/// Emitting a non-terminal record whose ids refer backwards keeps the
/// session invariant.
proof fn lemma_wf_after_emit(o: &BuildSession, s: &BuildSession, rec: InstrRec)
    requires
        o.wf(),
        !o.cur_blk().spec_finished(),
        !rec.op.spec_terminal(),
        rec.targets == Seq::<TargetRec>::empty(),
        s.recs() == o.recs().push(rec),
        s.builder.instr_store.wf(),
        s.builder.block_store == o.builder.block_store,
        s.decls() == o.decls(),
        s.framev() == o.framev(),
        s.cur_block == o.cur_block,
        s.cur_emitted == o.cur_emitted + 1,
        rec.op is Phi ==> {
            &&& s.emitted_phis == o.emitted_phis + 1
            &&& o.cur_emitted == o.emitted_phis
            &&& o.emitted_phis < o.cur_blk().spec_num_phis()
        },
        !(rec.op is Phi) ==> s.emitted_phis == o.emitted_phis,
    ensures
        s.wf(),
{
    let rs = o.recs();
    let rs2 = s.recs();
    assert(s.blocks() == o.blocks());
    assert(s.rpo() == o.rpo());
    assert forall|k: int| 0 <= k < s.framev().len() implies
        #[trigger] s.frame_range_ok(k) by {
        assert(o.frame_range_ok(k));
        lemma_frame_range_transfer(o, s, k, k);
    }
    assert forall|k: int| 0 <= k < s.framev().len() implies
        #[trigger] s.loop_frame_ok(k) by {
        assert(o.loop_frame_ok(k));
        lemma_loop_frame_transfer(o, s, k, k);
    }
    assert forall|i: int, k: int| 0 <= i < rs2.len()
        && 0 <= k < rs2[i].targets.len() implies {
        &&& (#[trigger] rs2[i].targets[k]).block < s.blocks().len()
        &&& rs2[i].targets[k].phi_args.len()
            == s.blocks()[rs2[i].targets[k].block as int].spec_num_phis()
    } by {
        assert(i < rs.len());
        assert(rs2[i] == rs[i]);
        assert(rs[i].targets[k].block < o.blocks().len());
    }
    assert forall|b: int| 0 <= b < s.blocks().len() implies
        (#[trigger] s.blocks()[b]).input_edges == count_targets(rs2, b) by {
        lemma_count_targets_push(rs, rec, b);
        assert(count_tgt_list(rec.targets, b) == 0);
        assert(o.blocks()[b].input_edges == count_targets(rs, b));
    }
    assert forall|b: int| 0 <= b < s.blocks().len()
        && (#[trigger] s.blocks()[b]).spec_finished() implies
        block_shape(rs2, s.blocks()[b]) by {
        assert(block_shape(rs, o.blocks()[b]));
        lemma_block_shape_push(rs, rec, o.blocks()[b]);
    }
    assert(s.cur_shape_ok()) by {
        assert(s.cur_blk() == o.cur_blk());
        assert(!s.cur_blk().spec_finished());
        let i0 = rs2.len() - s.cur_emitted;
        assert(i0 == rs.len() - o.cur_emitted);
        lemma_off_push(rs, rec, i0);
        assert forall|i: int| i0 <= i < rs2.len() implies
            !(#[trigger] rs2[i]).op.spec_terminal() by {
            if i < rs.len() {
                assert(rs2[i] == rs[i]);
            } else {
                assert(rs2[i] == rec);
            }
        }
        assert forall|i: int| i0 <= i < rs2.len() implies
            ((#[trigger] rs2[i]).op is Phi <==> i < i0 + s.emitted_phis) by {
            if i < rs.len() {
                assert(rs2[i] == rs[i]);
                assert(rs[i].op is Phi <==> i < i0 + o.emitted_phis);
                if rec.op is Phi {
                    assert(i < i0 + o.emitted_phis <==> i < i0 + s.emitted_phis) by {
                        assert(rs.len() == i0 + o.cur_emitted);
                        assert(o.cur_emitted == o.emitted_phis);
                    }
                }
            } else {
                assert(rs2[i] == rec);
                assert(i == i0 + o.cur_emitted);
            }
        }
    }
}

/// Copy a borrowed list of definitions.
fn defns_to_vec(s: &[Defn]) -> (r: Vec<Defn>)
    ensures
        r@ == s@,
{
    let mut r: Vec<Defn> = Vec::new();
    let n = s.len();
    let mut i: usize = 0;
    while i < n
        invariant
            n == s@.len(),
            i <= n,
            r@ == s@.take(i as int),
        decreases n - i,
    {
        r.push(s[i]);
        proof {
            assert(r@ =~= s@.take(i + 1));
        }
        i = i + 1;
    }
    proof {
        assert(s@.take(n as int) =~= s@);
    }
    r
}

/// Law: within any open scope, the blocks it has defined were entered
/// in exactly the order they were declared — their enter-order ranks
/// increase along the scope's declaration list.
pub proof fn lemma_scope_enter_order(s: &BuildSession, k: int, j1: int, j2: int)
    requires
        s.wf(),
        0 <= k < s.framev().len(),
        s.framev()[k].start <= j1 < j2
            < s.framev()[k].start + s.framev()[k].entered,
    ensures
        s.decl_block_at(j1).spec_entered(),
        s.decl_block_at(j2).spec_entered(),
        s.decl_block_at(j1).order < s.decl_block_at(j2).order,
{
    assert(s.frame_range_ok(k));
}

/// Emitting a terminal, finishing the current block and counting its
/// edges re-establishes the session invariant.
proof fn lemma_wf_after_end(o: &BuildSession, s: &BuildSession, rec: InstrRec, last_id: int)
    requires
        o.wf(),
        !o.cur_blk().spec_finished(),
        o.emitted_phis == o.cur_blk().spec_num_phis(),
        rec.op.spec_terminal(),
        last_id == o.stream_len(),
        forall|k: int| 0 <= k < rec.targets.len() ==> {
            &&& (#[trigger] rec.targets[k]).block < o.blocks().len()
            &&& rec.targets[k].phi_args.len()
                == o.blocks()[rec.targets[k].block as int].spec_num_phis()
            &&& target_enterable(o, rec.targets[k].block as int)
        },
        s.recs() == o.recs().push(rec),
        s.builder.instr_store.wf(),
        s.builder.block_store.wf(),
        s.decls() == o.decls(),
        s.framev() == o.framev(),
        s.cur_block == o.cur_block,
        s.rpo() == o.rpo(),
        end_updates(o, s, rec.targets, last_id),
        s.blocks()[o.cur()].last_instr.is_valid(),
    ensures
        s.wf(),
{
    let rs = o.recs();
    let rs2 = s.recs();
    let cv = o.cur();
    assert forall|i: int| 0 <= i < s.decls().len() implies
        (#[trigger] s.decls()[i]).spec_val() == i + 1 by {
        assert(o.decls()[i].spec_val() == i + 1);
    }
    assert forall|k: int| 0 <= k < s.framev().len() implies
        #[trigger] s.frame_range_ok(k) by {
        assert(o.frame_range_ok(k));
        let f = s.framev()[k];
        assert(f == o.framev()[k]);
        assert forall|j: int| f.start <= j < f.start + f.entered implies
            (#[trigger] s.decl_block_at(j)).spec_entered() by {
            assert(o.decl_block_at(j).spec_entered());
            assert(o.decls()[j].spec_val() < o.blocks().len());
            let b = o.decls()[j].spec_val() as int;
            assert(s.blocks()[b].state == o.blocks()[b].state || b == cv);
        }
        assert forall|j1: int, j2: int| f.start <= j1 < j2 < f.start + f.entered implies
            (#[trigger] s.decl_block_at(j1)).order < (#[trigger] s.decl_block_at(j2)).order by {
            assert(o.decl_block_at(j1).order < o.decl_block_at(j2).order);
            assert(o.decls()[j1].spec_val() < o.blocks().len());
            assert(o.decls()[j2].spec_val() < o.blocks().len());
            assert(s.decl_block_at(j1).order == o.decl_block_at(j1).order);
            assert(s.decl_block_at(j2).order == o.decl_block_at(j2).order);
        }
    }
    assert forall|k: int| 0 <= k < s.framev().len() implies
        #[trigger] s.loop_frame_ok(k) by {
        assert(o.loop_frame_ok(k));
        assert(s.framev()[k] == o.framev()[k]);
        match s.framev()[k].loop_block {
            Some(lb) => {
                let b = lb.spec_val() as int;
                assert(o.blocks()[b].spec_is_loop());
                if b == cv {
                    assert(s.blocks()[b].state == BlockState::Finished);
                } else {
                    assert(s.blocks()[b].state == o.blocks()[b].state);
                }
            }
            None => {}
        }
    }
    assert(s.cur_blk().spec_entered()) by {
        assert(s.blocks()[cv].state == BlockState::Finished);
    }
    assert forall|i: int| 0 <= i < s.blocks().len()
        && (#[trigger] s.blocks()[i]).spec_entered()
        && !s.blocks()[i].spec_finished() implies i == s.cur() by {
        if i != cv {
            assert(s.blocks()[i].state == o.blocks()[i].state);
            assert(o.blocks()[i].spec_entered() && !o.blocks()[i].spec_finished());
        }
    }
    assert forall|i: int, k: int| 0 <= i < rs2.len()
        && 0 <= k < rs2[i].targets.len() implies {
        &&& (#[trigger] rs2[i].targets[k]).block < s.blocks().len()
        &&& rs2[i].targets[k].phi_args.len()
            == s.blocks()[rs2[i].targets[k].block as int].spec_num_phis()
    } by {
        if i < rs.len() {
            assert(rs2[i] == rs[i]);
            assert(rs[i].targets[k].block < o.blocks().len());
            let b = rs[i].targets[k].block as int;
            assert(s.blocks()[b].variant == o.blocks()[b].variant);
        } else {
            assert(rs2[i] == rec);
            let b = rec.targets[k].block as int;
            assert(s.blocks()[b].variant == o.blocks()[b].variant);
        }
    }
    assert forall|b: int| 0 <= b < s.blocks().len() implies
        (#[trigger] s.blocks()[b]).input_edges == count_targets(rs2, b) by {
        lemma_count_targets_push(rs, rec, b);
        assert(o.blocks()[b].input_edges == count_targets(rs, b));
    }
    let i0c = rs.len() - o.cur_emitted;
    assert(block_shape(rs2, s.blocks()[cv])) by {
        let first = s.blocks()[cv].first_instr.spec_val() as int;
        let lastoff = s.blocks()[cv].last_instr.spec_val() as int;
        assert(first == o.cur_blk().first_instr.spec_val() as int);
        assert(lastoff == last_id);
        assert(off_of(rs, i0c) == first);
        lemma_off_push(rs, rec, i0c);
        lemma_off_push(rs, rec, rs.len() as int);
        lemma_off_end(rs);
        assert(off_of(rs2, i0c) == first);
        assert(off_of(rs2, rs.len() as int) == lastoff);
        assert(is_record_off(rs2, first));
        assert(is_record_off(rs2, lastoff));
        lemma_idx_of(rs2, first);
        lemma_idx_of(rs2, lastoff);
        assert(idx_of(rs2, first) == i0c);
        assert(idx_of(rs2, lastoff) == rs.len());
        assert(rs2[rs.len() as int] == rec);
        assert forall|i: int| i0c <= i < rs.len() implies
            !(#[trigger] rs2[i]).op.spec_terminal() by {
            assert(rs2[i] == rs[i]);
        }
        assert forall|i: int| i0c <= i <= rs.len() implies
            ((#[trigger] rs2[i]).op is Phi
                <==> i < i0c + s.blocks()[cv].spec_num_phis()) by {
            assert(s.blocks()[cv].spec_num_phis() == o.cur_blk().spec_num_phis());
            if i < rs.len() {
                assert(rs2[i] == rs[i]);
                assert(rs[i].op is Phi <==> i < i0c + o.emitted_phis);
            } else {
                assert(rs2[i] == rec);
                assert(i == i0c + o.cur_emitted);
                assert(o.emitted_phis <= o.cur_emitted);
            }
        }
    }
    assert forall|b: int| 0 <= b < s.blocks().len()
        && (#[trigger] s.blocks()[b]).spec_finished() implies
        block_shape(rs2, s.blocks()[b]) by {
        if b != cv {
            assert(s.blocks()[b].state == o.blocks()[b].state);
            assert(o.blocks()[b].spec_finished());
            assert(block_shape(rs, o.blocks()[b]));
            lemma_block_shape_push(rs, rec, o.blocks()[b]);
            assert(s.blocks()[b].first_instr == o.blocks()[b].first_instr);
            assert(s.blocks()[b].last_instr == o.blocks()[b].last_instr);
            assert(s.blocks()[b].variant == o.blocks()[b].variant);
        }
    }
    assert(s.cur_shape_ok()) by {
        assert(s.cur_blk().spec_finished());
        let lastoff = s.cur_blk().last_instr.spec_val() as int;
        lemma_off_push(rs, rec, rs.len() as int);
        lemma_off_end(rs);
        assert(off_of(rs2, rs.len() as int) == lastoff);
        assert(is_record_off(rs2, lastoff));
        lemma_idx_of(rs2, lastoff);
    }
}

/// A scope's conditions carry over to a session with the same blocks
/// and declarations that holds an equal frame.
proof fn lemma_frame_range_transfer(o: &BuildSession, s: &BuildSession, fo: int, fs: int)
    requires
        0 <= fo < o.framev().len(),
        0 <= fs < s.framev().len(),
        o.frame_range_ok(fo),
        s.blocks() == o.blocks(),
        s.decls() == o.decls(),
        s.framev()[fs] == o.framev()[fo],
    ensures
        s.frame_range_ok(fs),
{
    let f = s.framev()[fs];
    assert forall|j: int| f.start <= j < f.start + f.entered implies
        (#[trigger] s.decl_block_at(j)).spec_entered() by {
        assert(o.decl_block_at(j).spec_entered());
        assert(s.decl_block_at(j) == o.decl_block_at(j));
    }
    assert forall|j1: int, j2: int| f.start <= j1 < j2 < f.start + f.entered implies
        (#[trigger] s.decl_block_at(j1)).order < (#[trigger] s.decl_block_at(j2)).order by {
        assert(o.decl_block_at(j1).order < o.decl_block_at(j2).order);
        assert(s.decl_block_at(j1) == o.decl_block_at(j1));
        assert(s.decl_block_at(j2) == o.decl_block_at(j2));
    }
}

/// A scope's conditions also survive a field change on one block that
/// keeps its entered-ness and its enter-order rank.
proof fn lemma_frame_range_update(o: &BuildSession, s: &BuildSession, fo: int, fs: int, iv: int)
    requires
        0 <= fo < o.framev().len(),
        0 <= fs < s.framev().len(),
        o.frame_range_ok(fo),
        s.decls() == o.decls(),
        forall|j: int| 0 <= j < o.decls().len()
            ==> (#[trigger] o.decls()[j]).spec_val() < o.blocks().len(),
        0 <= iv < o.blocks().len(),
        s.blocks().len() == o.blocks().len(),
        s.blocks() == o.blocks().update(iv, s.blocks()[iv]),
        o.blocks()[iv].spec_entered() ==> s.blocks()[iv].spec_entered(),
        s.blocks()[iv].order == o.blocks()[iv].order,
        s.framev()[fs] == o.framev()[fo],
    ensures
        s.frame_range_ok(fs),
{
    let f = s.framev()[fs];
    assert forall|j: int| f.start <= j < f.start + f.entered implies
        (#[trigger] s.decl_block_at(j)).spec_entered() by {
        assert(o.decl_block_at(j).spec_entered());
        assert(o.decls()[j].spec_val() < o.blocks().len());
        if o.decls()[j].spec_val() as int != iv {
            assert(s.decl_block_at(j) == o.decl_block_at(j));
        }
    }
    assert forall|j1: int, j2: int| f.start <= j1 < j2 < f.start + f.entered implies
        (#[trigger] s.decl_block_at(j1)).order < (#[trigger] s.decl_block_at(j2)).order by {
        assert(o.decl_block_at(j1).order < o.decl_block_at(j2).order);
        assert(o.decls()[j1].spec_val() < o.blocks().len());
        assert(o.decls()[j2].spec_val() < o.blocks().len());
        assert(s.decl_block_at(j1).order == o.decl_block_at(j1).order) by {
            if o.decls()[j1].spec_val() as int != iv {
                assert(s.decl_block_at(j1) == o.decl_block_at(j1));
            }
        }
        assert(s.decl_block_at(j2).order == o.decl_block_at(j2).order) by {
            if o.decls()[j2].spec_val() as int != iv {
                assert(s.decl_block_at(j2) == o.decl_block_at(j2));
            }
        }
    }
}

/// Likewise for the loop-scope condition.
proof fn lemma_loop_frame_transfer(o: &BuildSession, s: &BuildSession, fo: int, fs: int)
    requires
        0 <= fo < o.framev().len(),
        0 <= fs < s.framev().len(),
        o.loop_frame_ok(fo),
        s.blocks() == o.blocks(),
        s.framev()[fs] == o.framev()[fo],
    ensures
        s.loop_frame_ok(fs),
{
    match s.framev()[fs].loop_block {
        Some(lb) => {
            assert(o.blocks()[lb.spec_val() as int].spec_is_loop());
        }
        None => {}
    }
}

/// Declaring a block touches nothing the invariant watches except the
/// two lists it extends together.
proof fn lemma_wf_after_decl(o: &BuildSession, s: &BuildSession)
    requires
        o.wf(),
        o.blocks().len() < MAX_DECL_BLOCKS,
        s.blocks().len() == o.blocks().len() + 1,
        s.blocks() == o.blocks().push(s.blocks()[o.blocks().len() as int]),
        !s.blocks()[o.blocks().len() as int].spec_entered(),
        s.blocks()[o.blocks().len() as int].input_edges == 0,
        s.builder.instr_store == o.builder.instr_store,
        s.builder.block_store.wf(),
        s.rpo() == o.rpo(),
        s.builder.block_store.cur_block_id == o.builder.block_store.cur_block_id,
        s.decls() == o.decls().push(BlockId(o.blocks().len() as u32)),
        s.framev() == o.framev(),
        s.cur_block == o.cur_block,
        s.cur_emitted == o.cur_emitted,
        s.emitted_phis == o.emitted_phis,
    ensures
        s.wf(),
{
    let nv = o.blocks().len() as int;
    assert forall|i: int| 0 <= i < s.decls().len() implies
        (#[trigger] s.decls()[i]).spec_val() == i + 1 by {
        if i < o.decls().len() {
            assert(s.decls()[i] == o.decls()[i]);
        }
    }
    assert forall|k: int| 0 <= k < s.framev().len() implies
        #[trigger] s.frame_range_ok(k) by {
        assert(o.frame_range_ok(k));
        let f = s.framev()[k];
        assert forall|j: int| f.start <= j < f.start + f.entered implies
            (#[trigger] s.decl_block_at(j)).spec_entered() by {
            assert(o.decl_block_at(j).spec_entered());
            assert(s.decls()[j] == o.decls()[j]);
            assert(s.decl_block_at(j) == o.decl_block_at(j));
        }
        assert forall|j1: int, j2: int| f.start <= j1 < j2 < f.start + f.entered implies
            (#[trigger] s.decl_block_at(j1)).order
                < (#[trigger] s.decl_block_at(j2)).order by {
            assert(o.decl_block_at(j1).order < o.decl_block_at(j2).order);
            assert(s.decl_block_at(j1) == o.decl_block_at(j1));
            assert(s.decl_block_at(j2) == o.decl_block_at(j2));
        }
    }
    assert forall|k: int| 0 <= k < s.framev().len() implies
        #[trigger] s.loop_frame_ok(k) by {
        assert(o.loop_frame_ok(k));
        match s.framev()[k].loop_block {
            Some(lb) => {
                assert(s.blocks()[lb.spec_val() as int] == o.blocks()[lb.spec_val() as int]);
            }
            None => {}
        }
    }
    assert(s.cur_blk() == o.cur_blk());
    assert forall|i: int| 0 <= i < s.blocks().len()
        && (#[trigger] s.blocks()[i]).spec_entered()
        && !s.blocks()[i].spec_finished() implies i == s.cur() by {
        if i < nv {
            assert(s.blocks()[i] == o.blocks()[i]);
        }
    }
    assert forall|i: int, k: int| 0 <= i < s.recs().len()
        && 0 <= k < s.recs()[i].targets.len() implies {
        &&& (#[trigger] s.recs()[i].targets[k]).block < s.blocks().len()
        &&& s.recs()[i].targets[k].phi_args.len()
            == s.blocks()[s.recs()[i].targets[k].block as int].spec_num_phis()
    } by {
        assert(o.recs()[i].targets[k].block < o.blocks().len());
        assert(s.blocks()[o.recs()[i].targets[k].block as int]
            == o.blocks()[o.recs()[i].targets[k].block as int]);
    }
    assert forall|b: int| 0 <= b < s.blocks().len() implies
        (#[trigger] s.blocks()[b]).input_edges == count_targets(s.recs(), b) by {
        if b < nv {
            assert(s.blocks()[b] == o.blocks()[b]);
            assert(o.blocks()[b].input_edges == count_targets(o.recs(), b));
        } else {
            assert forall|i: int, k: int| 0 <= i < s.recs().len()
                && 0 <= k < s.recs()[i].targets.len() implies
                (#[trigger] s.recs()[i].targets[k]).block as int != b by {
                assert(o.recs()[i].targets[k].block < o.blocks().len());
            }
            lemma_count_targets_absent(s.recs(), b);
        }
    }
    assert forall|b: int| 0 <= b < s.blocks().len()
        && (#[trigger] s.blocks()[b]).spec_finished() implies
        block_shape(s.recs(), s.blocks()[b]) by {
        if b < nv {
            assert(s.blocks()[b] == o.blocks()[b]);
        }
    }
    assert(s.cur_shape_ok()) by {
        assert(s.cur_blk() == o.cur_blk());
    }
}

/// Entering the next declared block re-establishes the invariant.
proof fn lemma_wf_after_enter(o: &BuildSession, s: &BuildSession, block: BlockRef)
    requires
        o.wf(),
        o.cur_blk().spec_finished(),
        o.top().start + o.top().entered < o.decls().len(),
        block.0 == o.decls()[o.top().start + o.top().entered],
        !o.blocks()[block.spec_val() as int].spec_entered(),
        o.stream_len() <= MAX_INSTR_BYTES,
        s.builder.instr_store == o.builder.instr_store,
        s.builder.block_store.wf(),
        s.blocks() == o.blocks().update(block.spec_val() as int, Block {
            state: BlockState::Entered,
            order: o.rpo().len() as u32,
            first_instr: s.blocks()[block.spec_val() as int].first_instr,
            ..o.blocks()[block.spec_val() as int]
        }),
        s.blocks()[block.spec_val() as int].first_instr.spec_val() == o.stream_len(),
        s.blocks()[block.spec_val() as int].first_instr.is_valid(),
        s.rpo() == o.rpo().push(block.0),
        s.decls() == o.decls(),
        s.cur_block == block.0,
        s.framev() == o.framev().update(o.framev().len() - 1, SessionFrame {
            entered: (o.top().entered + 1) as usize,
            ..o.top()
        }),
        s.emitted_phis == 0,
        s.cur_emitted == 0,
    ensures
        s.wf(),
{
    let bv = block.spec_val() as int;
    let p = o.top().start + o.top().entered;
    assert(o.frame_range_ok(o.framev().len() - 1));
    assert(0 <= bv < o.blocks().len()) by {
        assert(o.decls()[p].spec_val() == p + 1);
    }
    assert forall|k: int| 0 <= k < s.framev().len() implies
        #[trigger] s.frame_range_ok(k) by {
        assert(o.frame_range_ok(k));
        let f = s.framev()[k];
        if k < s.framev().len() - 1 {
            assert(f == o.framev()[k]);
            assert forall|j: int| f.start <= j < f.start + f.entered implies
                (#[trigger] s.decl_block_at(j)).spec_entered() by {
                assert(o.decl_block_at(j).spec_entered());
                if o.decls()[j].spec_val() as int == bv {
                    assert(!o.blocks()[bv].spec_entered());
                }
                assert(s.decl_block_at(j) == o.decl_block_at(j));
            }
            assert forall|j1: int, j2: int| f.start <= j1 < j2 < f.start + f.entered implies
                (#[trigger] s.decl_block_at(j1)).order
                    < (#[trigger] s.decl_block_at(j2)).order by {
                assert(o.decl_block_at(j1).spec_entered());
                assert(o.decl_block_at(j2).spec_entered());
                assert(o.decls()[j1].spec_val() as int != bv);
                assert(o.decls()[j2].spec_val() as int != bv);
                assert(s.decl_block_at(j1) == o.decl_block_at(j1));
                assert(s.decl_block_at(j2) == o.decl_block_at(j2));
            }
        } else {
            // the innermost scope gained its next block, whose order
            // rank tops every earlier one
            assert(f.start == o.top().start && f.entered == o.top().entered + 1);
            assert forall|j: int| f.start <= j < f.start + f.entered implies
                (#[trigger] s.decl_block_at(j)).spec_entered() by {
                if j < p {
                    assert(o.decl_block_at(j).spec_entered());
                    assert(o.decls()[j].spec_val() as int != bv);
                    assert(s.decl_block_at(j) == o.decl_block_at(j));
                } else {
                    assert(j == p);
                    assert(s.decls()[j] == block.0);
                    assert(s.decl_block_at(j) == s.blocks()[bv]);
                }
            }
            assert forall|j1: int, j2: int| f.start <= j1 < j2 < f.start + f.entered implies
                (#[trigger] s.decl_block_at(j1)).order
                    < (#[trigger] s.decl_block_at(j2)).order by {
                if j2 < p {
                    assert(o.decl_block_at(j1).order < o.decl_block_at(j2).order);
                    assert(o.decl_block_at(j1).spec_entered());
                    assert(o.decl_block_at(j2).spec_entered());
                    assert(o.decls()[j1].spec_val() as int != bv);
                    assert(o.decls()[j2].spec_val() as int != bv);
                    assert(s.decl_block_at(j1) == o.decl_block_at(j1));
                    assert(s.decl_block_at(j2) == o.decl_block_at(j2));
                } else {
                    assert(j2 == p);
                    assert(s.decl_block_at(j2) == s.blocks()[bv]);
                    assert(s.decl_block_at(j2).order == o.rpo().len());
                    assert(o.decl_block_at(j1).spec_entered());
                    assert(o.decls()[j1].spec_val() as int != bv);
                    assert(s.decl_block_at(j1) == o.decl_block_at(j1));
                    // an entered block's rank is below the index's length
                    assert(o.decl_block_at(j1).order < o.rpo().len());
                }
            }
        }
    }
    assert forall|k: int| 0 <= k < s.framev().len() - 1 implies
        (#[trigger] s.framev()[k]).start + s.framev()[k].entered
            <= s.framev()[k + 1].start by {
        assert(o.framev()[k].start + o.framev()[k].entered <= o.framev()[k + 1].start);
        if k + 1 < s.framev().len() - 1 {
            assert(s.framev()[k] == o.framev()[k]);
            assert(s.framev()[k + 1] == o.framev()[k + 1]);
        } else {
            assert(s.framev()[k] == o.framev()[k]);
        }
    }
    assert forall|k: int| 0 <= k < s.framev().len() implies
        #[trigger] s.loop_frame_ok(k) by {
        assert(o.loop_frame_ok(k));
        let fo = o.framev()[k];
        assert(s.framev()[k].loop_block == fo.loop_block);
        match fo.loop_block {
            Some(lb) => {
                assert(o.blocks()[lb.spec_val() as int].spec_entered());
                assert(lb.spec_val() as int != bv);
                assert(s.blocks()[lb.spec_val() as int] == o.blocks()[lb.spec_val() as int]);
            }
            None => {}
        }
    }
    assert forall|k1: int, k2: int| 0 <= k1 < k2 < s.framev().len()
        && (#[trigger] s.framev()[k1]).loop_block is Some
        && (#[trigger] s.framev()[k2]).loop_block is Some implies
        s.framev()[k1].loop_block != s.framev()[k2].loop_block by {
        assert(s.framev()[k1].loop_block == o.framev()[k1].loop_block);
        assert(s.framev()[k2].loop_block == o.framev()[k2].loop_block);
    }
    assert forall|i: int| 0 <= i < s.blocks().len()
        && (#[trigger] s.blocks()[i]).spec_entered()
        && !s.blocks()[i].spec_finished() implies i == s.cur() by {
        if i != bv {
            assert(s.blocks()[i] == o.blocks()[i]);
        }
    }
    assert forall|i: int, k: int| 0 <= i < s.recs().len()
        && 0 <= k < s.recs()[i].targets.len() implies {
        &&& (#[trigger] s.recs()[i].targets[k]).block < s.blocks().len()
        &&& s.recs()[i].targets[k].phi_args.len()
            == s.blocks()[s.recs()[i].targets[k].block as int].spec_num_phis()
    } by {
        assert(o.recs()[i].targets[k].block < o.blocks().len());
        assert(s.blocks()[o.recs()[i].targets[k].block as int].spec_num_phis()
            == o.blocks()[o.recs()[i].targets[k].block as int].spec_num_phis());
    }
    assert forall|b: int| 0 <= b < s.blocks().len() implies
        (#[trigger] s.blocks()[b]).input_edges == count_targets(s.recs(), b) by {
        assert(o.blocks()[b].input_edges == count_targets(o.recs(), b));
        assert(s.blocks()[b].input_edges == o.blocks()[b].input_edges);
    }
    assert forall|b: int| 0 <= b < s.blocks().len()
        && (#[trigger] s.blocks()[b]).spec_finished() implies
        block_shape(s.recs(), s.blocks()[b]) by {
        assert(b != bv);
        assert(s.blocks()[b] == o.blocks()[b]);
    }
    assert(s.cur_shape_ok()) by {
        assert(!s.cur_blk().spec_finished());
        lemma_off_end(s.recs());
    }
}

} // verus!
