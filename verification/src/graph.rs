//! The finished graph and its reading session: an immutable bundle of
//! the two stores, and a forward cursor that decodes one instruction
//! at a time, starting at the start block's first instruction.

use vstd::prelude::*;

use crate::block::{block_shape, Block, BlockId, BlockStore};
use crate::builder::{builder_complete, edges_ok, shapes_ok, targets_ok, Builder};
use crate::defn::Defn;
use crate::instr::{
    count_targets, enc_ids, enc_instr, enc_targets, idx_of, info_wf, is_record_off,
    lemma_idx_of, lemma_instr_parts, lemma_off_mono, lemma_off_step, off_of, InstrId, InstrInfo,
    InstrInputs, InstrPosn, InstrRec, InstrStore, TargetRec, MAX_INSTR_BYTES,
};
use crate::ops::Op;

verus! {

/// A fully constructed graph: the encoded instruction stream and the
/// block table, immutable from here on.
pub struct Graph {
    pub instr_store: InstrStore,
    pub block_store: BlockStore,
}

impl Graph {
    /// The emitted instructions.
    pub open spec fn recs(&self) -> Seq<InstrRec> {
        self.instr_store.recs()
    }

    /// The declared blocks.
    pub open spec fn blocks(&self) -> Seq<Block> {
        self.block_store.blocks()
    }

    /// Block ids in the order the blocks were entered.
    pub open spec fn rpo(&self) -> Seq<BlockId> {
        self.block_store.rpo()
    }

    /// What finalization guarantees: consistent stores, every block
    /// finished, every loop head sealed, targets naming declared
    /// blocks with their phi counts, edge counters matching the
    /// stream, well-shaped blocks, and a terminal closing the stream.
    pub open spec fn wf(&self) -> bool {
        &&& self.instr_store.wf()
        &&& self.block_store.wf()
        &&& forall|i: int| 0 <= i < self.blocks().len()
            ==> (#[trigger] self.blocks()[i]).spec_finished()
        &&& forall|i: int| 0 <= i < self.blocks().len()
            && (#[trigger] self.blocks()[i]).spec_is_loop()
            ==> self.blocks()[i].spec_loop_complete()
        &&& targets_ok(self.recs(), self.blocks())
        &&& edges_ok(self.recs(), self.blocks())
        &&& shapes_ok(self.recs(), self.blocks())
        &&& self.recs().len() >= 1
        &&& self.recs().last().op.spec_terminal()
    }

    /// Seal a completely built builder into a graph.
    pub fn new(b: Builder) -> (r: Graph)
        requires
            builder_complete(&b),
        ensures
            r.wf(),
            r.recs() == b.instr_store.recs(),
            r.blocks() == b.block_store.blocks(),
            r.rpo() == b.block_store.rpo(),
    {
        Graph { instr_store: b.instr_store, block_store: b.block_store }
    }

    /// Diagnostic: the stream's byte length and the block count.
    pub fn dump_stats(&self, _name: &str) -> (r: (usize, usize))
        ensures
            r.0 == self.instr_store.stream().len(),
            r.1 == self.blocks().len(),
    {
        (self.instr_store.instr_bytes_len(), self.block_store.total_blocks())
    }

    /// How many blocks the graph holds.
    pub fn total_blocks(&self) -> (r: usize)
        ensures
            r == self.blocks().len(),
    {
        self.block_store.total_blocks()
    }

    /// Read one block's table entry.
    pub fn block(&self, id: BlockId) -> (r: &Block)
        requires
            id.spec_val() < self.blocks().len(),
        ensures
            *r == self.blocks()[id.spec_val() as int],
    {
        self.block_store.get_block(id)
    }

    /// Open a cursor at the start block's first instruction.
    pub fn enter_session(&self) -> (r: GraphSession<'_>)
        requires
            self.wf(),
        ensures
            r.wf(),
            r.graph == self,
            r.cur_block.spec_val() == 0,
            r.cur_idx() == idx_of(self.recs(),
                self.blocks()[0].first_instr.spec_val() as int),
            is_record_off(self.recs(), self.blocks()[0].first_instr.spec_val() as int),
    {
        let start = self.block_store.start_block_id();
        GraphSession::new(self, start)
    }
}

/// A forward cursor over a graph's instructions.
pub struct GraphSession<'a> {
    pub graph: &'a Graph,
    pub cur_block: BlockId,
    pub cur_instr: InstrInfo,
}

impl<'a> GraphSession<'a> {
    /// The cursor points at a decoded record of its graph.
    pub open spec fn wf(&self) -> bool {
        &&& self.graph.wf()
        &&& info_wf(self.cur_instr, self.graph.recs())
        &&& self.cur_block.spec_val() < self.graph.blocks().len()
    }

    /// The index of the record under the cursor.
    pub open spec fn cur_idx(&self) -> int {
        self.cur_instr.idx@
    }

    pub(crate) fn new(graph: &'a Graph, cur_block: BlockId) -> (r: GraphSession<'a>)
        requires
            graph.wf(),
            cur_block.spec_val() < graph.blocks().len(),
        ensures
            r.wf(),
            r.graph == graph,
            r.cur_block == cur_block,
            r.cur_idx() == idx_of(graph.recs(), graph.blocks()[
                cur_block.spec_val() as int].first_instr.spec_val() as int),
            is_record_off(graph.recs(), graph.blocks()[
                cur_block.spec_val() as int].first_instr.spec_val() as int),
    {
        let blk = graph.block_store.get_block(cur_block);
        proof {
            let b = graph.blocks()[cur_block.spec_val() as int];
            assert(b.spec_finished());
            assert(block_shape(graph.recs(), b));
            let first = b.first_instr.spec_val() as int;
            lemma_idx_of(graph.recs(), first);
            assert(off_of(graph.recs(), idx_of(graph.recs(), first)) <= MAX_INSTR_BYTES);
            assert(b.first_instr.spec_val() != u32::MAX);
        }
        let first = blk.first_instr();
        let cur_instr = graph.instr_store.read_instr_info(first);
        GraphSession { graph, cur_block, cur_instr }
    }

    /// The block the cursor was opened in.
    pub fn get_cur_block(&self) -> (r: &Block)
        requires
            self.wf(),
        ensures
            *r == self.graph.blocks()[self.cur_block.spec_val() as int],
    {
        self.graph.block_store.get_block(self.cur_block)
    }

    /// The operation of the instruction under the cursor.
    pub fn cur_op(&self) -> (r: &Op)
        requires
            self.wf(),
        ensures
            *r == self.graph.recs()[self.cur_idx()].op,
    {
        self.cur_instr.op()
    }

    /// The definition made by the instruction under the cursor.
    pub fn cur_defn(&self) -> (r: Defn)
        requires
            self.wf(),
        ensures
            r.spec_val() as int == off_of(self.graph.recs(), self.cur_idx()),
            r.is_valid(),
    {
        self.cur_instr.defn()
    }

    /// A single-pass reader over the current instruction's inputs.
    /// Reading it does not move the cursor.
    pub fn cur_inputs(&self) -> (r: InstrInputs<'_>)
        requires
            self.wf(),
        ensures
            r.wf(),
            r.expected@ == self.graph.recs()[self.cur_idx()].inputs,
            r.taken@ == 0,
            r.bytes_read == 0,
    {
        let ghost rs = self.graph.recs();
        let ghost i = self.cur_idx();
        proof {
            lemma_instr_parts(rs, i);
            assert(crate::instr::rec_wf(rs[i]));
            assert(crate::instr::rec_ssa(rs, i));
            assert forall|q: int| 0 <= q < rs[i].inputs.len() implies
                (#[trigger] rs[i].inputs[q]) < u32::MAX by {
                assert(rs[i].inputs[q] < off_of(rs, i));
                assert(off_of(rs, i) <= MAX_INSTR_BYTES);
            }
            assert(rs[i].inputs.skip(0) =~= rs[i].inputs);
            assert(off_of(rs, i) <= MAX_INSTR_BYTES);
            crate::ops::op::lemma_op_enc_len(rs[i].op);
        }
        let pos: usize = self.cur_instr.defn.as_u32() as usize
            + self.cur_instr.inputs_offset as usize;
        InstrInputs {
            bytes: &self.graph.instr_store.instr_bytes,
            pos,
            remaining: self.cur_instr.op.num_inputs(),
            bytes_read: 0,
            expected: Ghost(self.graph.recs()[self.cur_idx()].inputs),
            taken: Ghost(0),
        }
    }

    /// Step to the next instruction in emission order and return its
    /// definition; nothing once the cursor stands on a terminal.
    #[verifier::rlimit(60)]
    #[verifier::spinoff_prover]
    pub fn next_defn(&mut self) -> (r: Option<Defn>)
        requires
            old(self).wf(),
        ensures
            final(self).wf(),
            final(self).graph == old(self).graph,
            final(self).cur_block == old(self).cur_block,
            old(self).graph.recs()[old(self).cur_idx()].op.spec_terminal() ==> {
                &&& r is None
                &&& *final(self) == *old(self)
            },
            !old(self).graph.recs()[old(self).cur_idx()].op.spec_terminal() ==> {
                &&& final(self).cur_idx() == old(self).cur_idx() + 1
                &&& r is Some
                &&& (r matches Some(d) ==> d.spec_val() as int
                    == off_of(old(self).graph.recs(), old(self).cur_idx() + 1)
                    && d.is_valid())
            },
    {
        let terminal = self.cur_instr.op().terminal();
        if terminal {
            return None;
        }
        let ghost rs = self.graph.recs();
        let ghost i = self.cur_idx();
        proof {
            assert(rs.last() == rs[rs.len() - 1]);
            assert(i < rs.len() - 1);
            lemma_off_step(rs, i);
            assert(crate::instr::rec_wf(rs[i]));
            assert(rs[i].targets =~= Seq::<TargetRec>::empty());
            assert(enc_targets(rs[i].targets) =~= Seq::<u8>::empty());
            assert(enc_instr(rs[i]) =~= rs[i].op.enc() + enc_ids(rs[i].inputs));
            assert(enc_instr(rs[i]).len() == self.cur_instr.after_inputs_offset);
            assert(off_of(rs, i + 1) == self.cur_instr.defn.spec_val()
                + self.cur_instr.after_inputs_offset);
            assert(off_of(rs, i + 1) <= MAX_INSTR_BYTES);
            assert(is_record_off(rs, off_of(rs, i + 1)));
        }
        let next_off = self.cur_instr.defn.as_u32() + self.cur_instr.after_inputs_offset;
        let next_id = InstrId::new(InstrPosn::new(next_off));
        let graph = self.graph;
        let info = graph.instr_store.read_instr_info(next_id);
        proof {
            lemma_idx_of(rs, next_off as int);
            assert(info.idx@ == i + 1);
        }
        self.cur_instr = info;
        Some(Defn::new(next_id))
    }
}

/// Law: in a built graph, every block is finished, every loop head is
/// sealed, and each block's input-edge counter equals the number of
/// terminal target entries in the stream that name it.
pub proof fn lemma_graph_complete(g: &Graph)
    requires
        g.wf(),
    ensures
        forall|i: int| 0 <= i < g.blocks().len()
            ==> (#[trigger] g.blocks()[i]).spec_finished(),
        forall|i: int| 0 <= i < g.blocks().len()
            && (#[trigger] g.blocks()[i]).spec_is_loop()
            ==> g.blocks()[i].spec_loop_complete(),
        forall|b: int| 0 <= b < g.blocks().len()
            ==> (#[trigger] g.blocks()[b]).input_edges == count_targets(g.recs(), b),
{
}

/// Law: every emitted instruction's input ids, and every phi argument
/// carried on a terminal, name offsets strictly below the
/// instruction's own offset.
pub proof fn lemma_graph_ssa(g: &Graph)
    requires
        g.wf(),
    ensures
        forall|i: int, j: int|
            0 <= i < g.recs().len() && 0 <= j < g.recs()[i].inputs.len()
            ==> (#[trigger] g.recs()[i].inputs[j]) < off_of(g.recs(), i),
        forall|i: int, k: int, j: int|
            0 <= i < g.recs().len() && 0 <= k < g.recs()[i].targets.len()
                && 0 <= j < g.recs()[i].targets[k].phi_args.len()
            ==> (#[trigger] g.recs()[i].targets[k].phi_args[j]) < off_of(g.recs(), i),
{
    assert forall|i: int, j: int|
        0 <= i < g.recs().len() && 0 <= j < g.recs()[i].inputs.len() implies
        (#[trigger] g.recs()[i].inputs[j]) < off_of(g.recs(), i) by {
        assert(crate::instr::rec_ssa(g.recs(), i));
    }
    assert forall|i: int, k: int, j: int|
        0 <= i < g.recs().len() && 0 <= k < g.recs()[i].targets.len()
            && 0 <= j < g.recs()[i].targets[k].phi_args.len() implies
        (#[trigger] g.recs()[i].targets[k].phi_args[j]) < off_of(g.recs(), i) by {
        assert(crate::instr::rec_ssa(g.recs(), i));
    }
}

/// Law: every terminal target names a declared block and carries
/// exactly that block's declared phi count.
pub proof fn lemma_graph_phi_arity(g: &Graph)
    requires
        g.wf(),
    ensures
        forall|i: int, k: int| 0 <= i < g.recs().len()
            && 0 <= k < g.recs()[i].targets.len() ==> {
            &&& (#[trigger] g.recs()[i].targets[k]).block < g.blocks().len()
            &&& g.recs()[i].targets[k].phi_args.len()
                == g.blocks()[g.recs()[i].targets[k].block as int].spec_num_phis()
        },
{
}

/// Law: the enter-order rank is exactly a block's position in the
/// enter-order index, so ranks increase strictly with enter order.
pub proof fn lemma_graph_rpo(g: &Graph)
    requires
        g.wf(),
    ensures
        forall|j: int| 0 <= j < g.rpo().len() ==> {
            &&& (#[trigger] g.rpo()[j]).spec_val() < g.blocks().len()
            &&& g.blocks()[g.rpo()[j].spec_val() as int].order == j
        },
        forall|j1: int, j2: int| 0 <= j1 < j2 < g.rpo().len()
            ==> (#[trigger] g.blocks()[g.rpo()[j1].spec_val() as int]).order
                < (#[trigger] g.blocks()[g.rpo()[j2].spec_val() as int]).order,
{
}

/// Law: every block owns a well-shaped slice of the stream — its
/// declared phis are exactly its first instructions and its one
/// terminal is exactly its last.
pub proof fn lemma_graph_block_shape(g: &Graph)
    requires
        g.wf(),
    ensures
        forall|b: int| 0 <= b < g.blocks().len()
            ==> block_shape(g.recs(), #[trigger] g.blocks()[b]),
{
}

} // verus!
