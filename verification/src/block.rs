//! Blocks and the block table. A block is declared, entered, and
//! finished in that order; loop heads take one further step when
//! their loop scope closes. The table keeps declaration order and a
//! secondary index in the order blocks were entered.

use vstd::prelude::*;

use crate::instr::{InstrId, InstrPosn};

verus! {

/// The largest number of blocks a store accepts.
pub const MAX_DECL_BLOCKS: u32 = 0xf_ffff;

/// Identifies a block by its 0-based declaration index.
#[derive(Clone, Copy, Debug, PartialEq, Eq, Structural)]
pub struct BlockId(pub u32);

impl BlockId {
    /// The declaration index.
    pub open spec fn spec_val(self) -> u32 {
        self.0
    }

    pub(crate) fn new(val: u32) -> (r: BlockId)
        ensures
            r.spec_val() == val,
    {
        BlockId(val)
    }

    pub fn as_u32(&self) -> (r: u32)
        ensures
            r == self.spec_val(),
    {
        self.0
    }
}

/// A client-facing reference to a declared block.
#[derive(Clone, Copy, Debug, PartialEq, Eq, Structural)]
pub struct BlockRef(pub BlockId);

impl BlockRef {
    /// The declaration index of the referenced block.
    pub open spec fn spec_val(self) -> u32 {
        self.0.spec_val()
    }

    pub(crate) fn new(id: BlockId) -> (r: BlockRef)
        ensures
            r.0 == id,
    {
        BlockRef(id)
    }

    pub fn id(&self) -> (r: BlockId)
        ensures
            r == self.0,
    {
        self.0
    }
}

/// What kind of block was declared, with its per-kind data.
#[derive(Clone, Copy, Debug, PartialEq, Eq, Structural)]
pub enum BlockVariant {
    Plain { num_phis: u32 },
    Loop { num_phis: u32, loop_no: u16 },
    Start { start_no: u16 },
}

/// The lifecycle chain `Declared < Entered < Finished <
/// LoopComplete`; transitions are strictly monotone, and the last
/// step applies to loop heads only.
#[derive(Clone, Copy, Debug, PartialEq, Eq, Structural)]
pub enum BlockState {
    Declared,
    Entered,
    Finished,
    LoopComplete,
}

impl BlockState {
    /// Position in the lifecycle chain.
    pub open spec fn rank(self) -> int {
        match self {
            BlockState::Declared => 0,
            BlockState::Entered => 1,
            BlockState::Finished => 2,
            BlockState::LoopComplete => 3,
        }
    }
}

/// One declared block.
#[derive(Clone, Copy, Debug)]
pub struct Block {
    /// Declaration index.
    pub id: BlockId,
    /// Kind and per-kind data.
    pub variant: BlockVariant,
    /// Lifecycle state.
    pub state: BlockState,
    /// How many terminal targets name this block so far.
    pub input_edges: u32,
    /// Rank in the order blocks were entered; set on entry.
    pub order: u32,
    /// Id of the first instruction; set on entry.
    pub first_instr: InstrId,
    /// Id of the terminal; set when the block finishes.
    pub last_instr: InstrId,
}

/// A block as declaration leaves it: declared, no edges, order and
/// instruction ids unset.
pub open spec fn spec_new_block(id: BlockId, variant: BlockVariant) -> Block {
    Block {
        id,
        variant,
        state: BlockState::Declared,
        input_edges: 0,
        order: u32::MAX,
        first_instr: InstrId(InstrPosn(u32::MAX)),
        last_instr: InstrId(InstrPosn(u32::MAX)),
    }
}

impl Block {
    /// Declared phi count; start blocks declare none.
    pub open spec fn spec_num_phis(self) -> u32 {
        match self.variant {
            BlockVariant::Plain { num_phis } => num_phis,
            BlockVariant::Loop { num_phis, .. } => num_phis,
            BlockVariant::Start { .. } => 0,
        }
    }

    pub open spec fn spec_is_start(self) -> bool {
        self.variant is Start
    }

    pub open spec fn spec_is_loop(self) -> bool {
        self.variant is Loop
    }

    pub open spec fn spec_entered(self) -> bool {
        self.state.rank() >= 1
    }

    pub open spec fn spec_finished(self) -> bool {
        self.state.rank() >= 2
    }

    pub open spec fn spec_loop_complete(self) -> bool {
        self.state.rank() >= 3
    }

    pub(crate) fn new(id: BlockId, variant: BlockVariant) -> (r: Block)
        ensures
            r == spec_new_block(id, variant),
    {
        Block {
            id,
            variant,
            state: BlockState::Declared,
            input_edges: 0,
            order: u32::MAX,
            first_instr: InstrId::invalid(),
            last_instr: InstrId::invalid(),
        }
    }

    pub(crate) fn new_plain(id: BlockId, num_phis: u32) -> (r: Block)
        ensures
            r == spec_new_block(id, BlockVariant::Plain { num_phis }),
    {
        Block::new(id, BlockVariant::Plain { num_phis })
    }

    pub(crate) fn new_start(id: BlockId, start_no: u16) -> (r: Block)
        ensures
            r == spec_new_block(id, BlockVariant::Start { start_no }),
    {
        Block::new(id, BlockVariant::Start { start_no })
    }

    pub(crate) fn new_loop(id: BlockId, num_phis: u32, loop_no: u16) -> (r: Block)
        ensures
            r == spec_new_block(id, BlockVariant::Loop { num_phis, loop_no }),
    {
        Block::new(id, BlockVariant::Loop { num_phis, loop_no })
    }

    pub fn id(&self) -> (r: BlockId)
        ensures
            r == self.id,
    {
        self.id
    }

    pub fn num_phis(&self) -> (r: u32)
        ensures
            r == self.spec_num_phis(),
    {
        match self.variant {
            BlockVariant::Plain { num_phis } => num_phis,
            BlockVariant::Loop { num_phis, loop_no: _ } => num_phis,
            BlockVariant::Start { start_no: _ } => 0,
        }
    }

    pub fn first_instr(&self) -> (r: InstrId)
        ensures
            r == self.first_instr,
    {
        self.first_instr
    }

    pub fn last_instr(&self) -> (r: InstrId)
        ensures
            r == self.last_instr,
    {
        self.last_instr
    }

    pub fn is_start(&self) -> (r: bool)
        ensures
            r == self.spec_is_start(),
    {
        match self.variant {
            BlockVariant::Start { start_no: _ } => true,
            _ => false,
        }
    }

    pub fn is_loop(&self) -> (r: bool)
        ensures
            r == self.spec_is_loop(),
    {
        match self.variant {
            BlockVariant::Loop { num_phis: _, loop_no: _ } => true,
            _ => false,
        }
    }

    pub fn input_edges(&self) -> (r: u32)
        ensures
            r == self.input_edges,
    {
        self.input_edges
    }

    pub fn has_entered(&self) -> (r: bool)
        ensures
            r == self.spec_entered(),
    {
        match self.state {
            BlockState::Declared => false,
            _ => true,
        }
    }

    pub fn has_finished(&self) -> (r: bool)
        ensures
            r == self.spec_finished(),
    {
        match self.state {
            BlockState::Finished | BlockState::LoopComplete => true,
            _ => false,
        }
    }

    pub fn has_loop_complete(&self) -> (r: bool)
        ensures
            r == self.spec_loop_complete(),
    {
        match self.state {
            BlockState::LoopComplete => true,
            _ => false,
        }
    }

    pub(crate) fn incr_input_edges(&mut self)
        requires
            old(self).input_edges < u32::MAX,
        ensures
            *final(self) == (Block { input_edges: (old(self).input_edges + 1) as u32, ..*old(self) }),
    {
        self.input_edges = self.input_edges + 1;
    }

    pub(crate) fn set_entered(&mut self, order: u32, first_instr: InstrId)
        requires
            !old(self).spec_entered(),
        ensures
            *final(self) == (Block {
                state: BlockState::Entered,
                order,
                first_instr,
                ..*old(self)
            }),
    {
        self.state = BlockState::Entered;
        self.first_instr = first_instr;
        self.order = order;
    }

    pub(crate) fn set_finished(&mut self, last_instr: InstrId)
        requires
            old(self).spec_entered(),
            !old(self).spec_finished(),
        ensures
            *final(self) == (Block {
                state: BlockState::Finished,
                last_instr,
                ..*old(self)
            }),
    {
        self.state = BlockState::Finished;
        self.last_instr = last_instr;
    }

    pub(crate) fn set_loop_complete(&mut self)
        requires
            old(self).spec_finished(),
            !old(self).spec_loop_complete(),
            old(self).spec_is_loop(),
        ensures
            *final(self) == (Block { state: BlockState::LoopComplete, ..*old(self) }),
    {
        self.state = BlockState::LoopComplete;
    }
}

/// The table of declared blocks, in declaration order, with a
/// secondary index in the order blocks were entered.
pub struct BlockStore {
    pub decl_blocks: Vec<Block>,
    pub rpo_index: Vec<BlockId>,
    pub cur_block_id: BlockId,
    pub num_starts: u16,
    pub num_loops: u16,
    pub total_phis: u32,
}

impl BlockStore {
    /// The declared blocks, in declaration order.
    pub open spec fn blocks(&self) -> Seq<Block> {
        self.decl_blocks@
    }

    /// Block ids in the order the blocks were entered.
    pub open spec fn rpo(&self) -> Seq<BlockId> {
        self.rpo_index@
    }

    /// The table is well formed: ids match declaration positions,
    /// block 0 is an entered start block, and the enter-order index
    /// and the per-block `order` fields are inverse to one another.
    pub open spec fn wf(&self) -> bool {
        &&& 1 <= self.blocks().len() <= MAX_DECL_BLOCKS
        &&& forall|i: int| 0 <= i < self.blocks().len()
            ==> (#[trigger] self.blocks()[i]).id.spec_val() == i
        &&& self.blocks()[0].spec_is_start()
        &&& self.blocks()[0].spec_entered()
        &&& forall|j: int| 0 <= j < self.rpo().len() ==> {
            &&& (#[trigger] self.rpo()[j]).spec_val() < self.blocks().len()
            &&& self.blocks()[self.rpo()[j].spec_val() as int].spec_entered()
            &&& self.blocks()[self.rpo()[j].spec_val() as int].order == j
        }
        &&& forall|i: int| 0 <= i < self.blocks().len()
            && (#[trigger] self.blocks()[i]).spec_entered() ==> {
            &&& self.blocks()[i].order < self.rpo().len()
            &&& self.rpo()[self.blocks()[i].order as int].spec_val() == i
        }
        &&& forall|i: int| 0 <= i < self.blocks().len()
            && (#[trigger] self.blocks()[i]).spec_loop_complete()
            ==> self.blocks()[i].spec_is_loop()
        &&& self.cur_block_id.spec_val() < self.blocks().len()
    }

    /// A fresh table: one start block, already entered at the
    /// stream's first offset.
    pub fn new() -> (r: BlockStore)
        ensures
            r.wf(),
            r.blocks().len() == 1,
            r.rpo().len() == 1,
            r.blocks()[0].spec_is_start(),
            r.blocks()[0].spec_entered(),
            !r.blocks()[0].spec_finished(),
            r.blocks()[0].first_instr.spec_val() == 0,
            r.blocks()[0].input_edges == 0,
            r.blocks()[0].order == 0,
            r.cur_block_id.spec_val() == 0,
            r.num_loops == 0,
    {
        let mut decl_blocks: Vec<Block> = Vec::new();
        let mut rpo_index: Vec<BlockId> = Vec::new();
        let mut start = Block::new_start(BlockId::new(0), 0);
        start.set_entered(0, InstrId::new(InstrPosn::new(0)));
        decl_blocks.push(start);
        rpo_index.push(BlockId::new(0));
        BlockStore {
            decl_blocks,
            rpo_index,
            cur_block_id: BlockId::new(0),
            num_starts: 1,
            num_loops: 0,
            total_phis: 0,
        }
    }

    pub(crate) fn start_block_id(&self) -> (r: BlockId)
        ensures
            r.spec_val() == 0,
    {
        BlockId::new(0)
    }

    pub(crate) fn total_blocks(&self) -> (r: usize)
        ensures
            r == self.blocks().len(),
    {
        self.decl_blocks.len()
    }

    /// Read one block.
    pub(crate) fn get_block(&self, id: BlockId) -> (r: &Block)
        requires
            id.spec_val() < self.blocks().len(),
        ensures
            *r == self.blocks()[id.spec_val() as int],
    {
        &self.decl_blocks[id.as_u32() as usize]
    }

    /// The most recently entered block.
    pub fn last_rpo_block(&self) -> (r: BlockId)
        requires
            self.wf(),
        ensures
            r == self.rpo().last(),
            r.spec_val() < self.blocks().len(),
            self.blocks()[r.spec_val() as int].spec_entered(),
    {
        let n = self.rpo_index.len();
        self.rpo_index[n - 1]
    }

    /// The block entered right after `id`, if any.
    pub fn next_rpo_block(&self, id: BlockId) -> (r: Option<BlockId>)
        requires
            self.wf(),
            id.spec_val() < self.blocks().len(),
            self.blocks()[id.spec_val() as int].spec_entered(),
        ensures
            ({
                let ord = self.blocks()[id.spec_val() as int].order as int;
                if ord + 1 < self.rpo().len() {
                    r == Some(self.rpo()[ord + 1])
                } else {
                    r is None
                }
            }),
    {
        let blk = self.get_block(id);
        let ord = blk.order as usize;
        proof {
            assert(self.blocks()[id.spec_val() as int].order < self.rpo().len());
            assert(self.rpo().len() == self.rpo_index.len());
        }
        if ord + 1 < self.rpo_index.len() {
            Some(self.rpo_index[ord + 1])
        } else {
            None
        }
    }

    /// The block entered right before `id`, if any.
    pub fn prior_rpo_block(&self, id: BlockId) -> (r: Option<BlockId>)
        requires
            self.wf(),
            id.spec_val() < self.blocks().len(),
            self.blocks()[id.spec_val() as int].spec_entered(),
        ensures
            ({
                let ord = self.blocks()[id.spec_val() as int].order as int;
                if ord > 0 {
                    r == Some(self.rpo()[ord - 1])
                } else {
                    r is None
                }
            }),
    {
        let blk = self.get_block(id);
        let ord = blk.order as usize;
        if ord > 0 {
            Some(self.rpo_index[ord - 1])
        } else {
            None
        }
    }

    /// Append one declared block.
    fn decl_block(&mut self, variant: BlockVariant) -> (r: BlockId)
        requires
            old(self).wf(),
            old(self).blocks().len() < MAX_DECL_BLOCKS,
        ensures
            final(self).wf(),
            r.spec_val() == old(self).blocks().len(),
            final(self).blocks() == old(self).blocks().push(
                spec_new_block(BlockId(old(self).blocks().len() as u32), variant)),
            final(self).rpo() == old(self).rpo(),
            final(self).cur_block_id == old(self).cur_block_id,
            final(self).num_starts == old(self).num_starts,
            final(self).num_loops == old(self).num_loops,
            final(self).total_phis == old(self).total_phis,
    {
        let len: u32 = self.decl_blocks.len() as u32;
        let id = BlockId::new(len);
        self.decl_blocks.push(Block::new(id, variant));
        proof {
            assert forall|i: int| 0 <= i < self.blocks().len() implies
                (#[trigger] self.blocks()[i]).id.spec_val() == i by {
                if i < old(self).blocks().len() {
                    assert(self.blocks()[i] == old(self).blocks()[i]);
                }
            }
        }
        id
    }

    pub(crate) fn decl_plain_block(&mut self, num_phis: u32) -> (r: BlockId)
        requires
            old(self).wf(),
            old(self).blocks().len() < MAX_DECL_BLOCKS,
            old(self).total_phis + num_phis <= u32::MAX,
        ensures
            final(self).wf(),
            r.spec_val() == old(self).blocks().len(),
            final(self).blocks() == old(self).blocks().push(
                spec_new_block(BlockId(old(self).blocks().len() as u32),
                    BlockVariant::Plain { num_phis })),
            final(self).rpo() == old(self).rpo(),
            final(self).cur_block_id == old(self).cur_block_id,
            final(self).num_loops == old(self).num_loops,
    {
        let id = self.decl_block(BlockVariant::Plain { num_phis });
        self.total_phis = self.total_phis + num_phis;
        id
    }

    pub(crate) fn decl_start_block(&mut self) -> (r: BlockId)
        requires
            old(self).wf(),
            old(self).blocks().len() < MAX_DECL_BLOCKS,
            old(self).num_starts < u16::MAX,
        ensures
            final(self).wf(),
            r.spec_val() == old(self).blocks().len(),
            final(self).blocks() == old(self).blocks().push(
                spec_new_block(BlockId(old(self).blocks().len() as u32),
                    BlockVariant::Start { start_no: old(self).num_starts })),
            final(self).rpo() == old(self).rpo(),
            final(self).cur_block_id == old(self).cur_block_id,
            final(self).num_loops == old(self).num_loops,
    {
        let start_no = self.num_starts;
        let id = self.decl_block(BlockVariant::Start { start_no });
        self.num_starts = self.num_starts + 1;
        id
    }

    pub(crate) fn decl_loop_head(&mut self, num_phis: u32) -> (r: BlockId)
        requires
            old(self).wf(),
            old(self).blocks().len() < MAX_DECL_BLOCKS,
            old(self).total_phis + num_phis <= u32::MAX,
            old(self).num_loops < u16::MAX,
        ensures
            final(self).wf(),
            r.spec_val() == old(self).blocks().len(),
            final(self).blocks() == old(self).blocks().push(
                spec_new_block(BlockId(old(self).blocks().len() as u32),
                    BlockVariant::Loop { num_phis, loop_no: old(self).num_loops })),
            final(self).rpo() == old(self).rpo(),
            final(self).cur_block_id == old(self).cur_block_id,
            final(self).num_loops == old(self).num_loops + 1,
    {
        let loop_no = self.num_loops;
        let id = self.decl_block(BlockVariant::Loop { num_phis, loop_no });
        self.num_loops = self.num_loops + 1;
        self.total_phis = self.total_phis + num_phis;
        id
    }

    /// Enter a declared block: assign it the next enter-order rank,
    /// record its first instruction, and make it current.
    pub(crate) fn enter_block(&mut self, id: BlockId, first_ins: InstrId)
        requires
            old(self).wf(),
            id.spec_val() < old(self).blocks().len(),
            !old(self).blocks()[id.spec_val() as int].spec_entered(),
        ensures
            final(self).wf(),
            final(self).blocks() == old(self).blocks().update(id.spec_val() as int, Block {
                state: BlockState::Entered,
                order: old(self).rpo().len() as u32,
                first_instr: first_ins,
                ..old(self).blocks()[id.spec_val() as int]
            }),
            final(self).rpo() == old(self).rpo().push(id),
            final(self).cur_block_id == id,
            final(self).num_loops == old(self).num_loops,
    {
        let order: u32 = self.rpo_index.len() as u32;
        proof {
            lemma_rpo_strictly_bounded(old(self), id.spec_val() as int);
        }
        let idx = id.as_u32() as usize;
        let blk = &mut self.decl_blocks[idx];
        blk.set_entered(order, first_ins);
        self.rpo_index.push(id);
        self.cur_block_id = id;
        proof {
            let s = self;
            let o = old(self);
            let iv = id.spec_val() as int;
            assert forall|j: int| 0 <= j < s.rpo().len() implies {
                &&& (#[trigger] s.rpo()[j]).spec_val() < s.blocks().len()
                &&& s.blocks()[s.rpo()[j].spec_val() as int].spec_entered()
                &&& s.blocks()[s.rpo()[j].spec_val() as int].order == j
            } by {
                if j < o.rpo().len() {
                    assert(s.rpo()[j] == o.rpo()[j]);
                    assert(o.blocks()[o.rpo()[j].spec_val() as int].order == j);
                    if o.rpo()[j].spec_val() as int == iv {
                        assert(o.blocks()[iv].spec_entered());
                    }
                }
            }
            assert forall|i: int| 0 <= i < s.blocks().len()
                && (#[trigger] s.blocks()[i]).spec_entered() implies {
                &&& s.blocks()[i].order < s.rpo().len()
                &&& s.rpo()[s.blocks()[i].order as int].spec_val() == i
            } by {
                if i != iv {
                    assert(s.blocks()[i] == o.blocks()[i]);
                }
            }
        }
    }

    /// Finish the block: record its terminal and mark it finished.
    pub(crate) fn finish_block(&mut self, id: BlockId, last_ins: InstrId)
        requires
            old(self).wf(),
            id.spec_val() < old(self).blocks().len(),
            old(self).blocks()[id.spec_val() as int].spec_entered(),
            !old(self).blocks()[id.spec_val() as int].spec_finished(),
        ensures
            final(self).wf(),
            final(self).blocks() == old(self).blocks().update(id.spec_val() as int, Block {
                state: BlockState::Finished,
                last_instr: last_ins,
                ..old(self).blocks()[id.spec_val() as int]
            }),
            final(self).rpo() == old(self).rpo(),
            final(self).cur_block_id == old(self).cur_block_id,
            final(self).num_loops == old(self).num_loops,
    {
        let idx = id.as_u32() as usize;
        let blk = &mut self.decl_blocks[idx];
        blk.set_finished(last_ins);
        proof {
            lemma_update_same_order(old(self), self, id.spec_val() as int);
        }
    }

    /// Seal a finished loop head against further back edges.
    pub(crate) fn finish_loop(&mut self, id: BlockId)
        requires
            old(self).wf(),
            id.spec_val() < old(self).blocks().len(),
            old(self).blocks()[id.spec_val() as int].spec_finished(),
            !old(self).blocks()[id.spec_val() as int].spec_loop_complete(),
            old(self).blocks()[id.spec_val() as int].spec_is_loop(),
        ensures
            final(self).wf(),
            final(self).blocks() == old(self).blocks().update(id.spec_val() as int, Block {
                state: BlockState::LoopComplete,
                ..old(self).blocks()[id.spec_val() as int]
            }),
            final(self).rpo() == old(self).rpo(),
            final(self).cur_block_id == old(self).cur_block_id,
            final(self).num_loops == old(self).num_loops,
    {
        let idx = id.as_u32() as usize;
        let blk = &mut self.decl_blocks[idx];
        blk.set_loop_complete();
        proof {
            lemma_update_same_order(old(self), self, id.spec_val() as int);
        }
    }

    /// Count one more incoming edge on a block.
    pub(crate) fn incr_input_edges(&mut self, id: BlockId)
        requires
            old(self).wf(),
            id.spec_val() < old(self).blocks().len(),
            old(self).blocks()[id.spec_val() as int].input_edges < u32::MAX,
        ensures
            final(self).wf(),
            final(self).blocks() == old(self).blocks().update(id.spec_val() as int, Block {
                input_edges: (old(self).blocks()[id.spec_val() as int].input_edges + 1) as u32,
                ..old(self).blocks()[id.spec_val() as int]
            }),
            final(self).rpo() == old(self).rpo(),
            final(self).cur_block_id == old(self).cur_block_id,
            final(self).num_loops == old(self).num_loops,
    {
        let idx = id.as_u32() as usize;
        let blk = &mut self.decl_blocks[idx];
        blk.incr_input_edges();
        proof {
            lemma_update_same_order(old(self), self, id.spec_val() as int);
        }
    }
}

/// The shape of a finished block's slice of the stream: its first and
/// last instructions are real records, its declared phis are exactly
/// the first instructions of the slice, and its terminal is exactly
/// the last.
pub open spec fn block_shape(rs: Seq<crate::instr::InstrRec>, b: Block) -> bool {
    let first = b.first_instr.spec_val() as int;
    let lastoff = b.last_instr.spec_val() as int;
    let i0 = crate::instr::idx_of(rs, first);
    let i_end = crate::instr::idx_of(rs, lastoff);
    &&& crate::instr::is_record_off(rs, first)
    &&& crate::instr::is_record_off(rs, lastoff)
    &&& i0 <= i_end
    &&& rs[i_end].op.spec_terminal()
    &&& forall|i: int| i0 <= i < i_end ==> !(#[trigger] rs[i]).op.spec_terminal()
    &&& forall|i: int| i0 <= i <= i_end
        ==> ((#[trigger] rs[i]).op is Phi <==> i < i0 + b.spec_num_phis())
}

/// A block's shape is untouched by appending records.
pub proof fn lemma_block_shape_push(
    rs: Seq<crate::instr::InstrRec>,
    r: crate::instr::InstrRec,
    b: Block,
)
    requires
        block_shape(rs, b),
    ensures
        block_shape(rs.push(r), b),
{
    let first = b.first_instr.spec_val() as int;
    let lastoff = b.last_instr.spec_val() as int;
    crate::instr::lemma_idx_of(rs, first);
    crate::instr::lemma_idx_of(rs, lastoff);
    crate::instr::lemma_idx_push(rs, r, first);
    crate::instr::lemma_idx_push(rs, r, lastoff);
    let rs2 = rs.push(r);
    let i0 = crate::instr::idx_of(rs2, first);
    let i_end = crate::instr::idx_of(rs2, lastoff);
    assert(i_end < rs.len());
    assert(rs2[i_end] == rs[i_end]);
    assert forall|i: int| i0 <= i < i_end implies
        !(#[trigger] rs2[i]).op.spec_terminal() by {
        assert(rs2[i] == rs[i]);
    }
    assert forall|i: int| i0 <= i <= i_end implies
        ((#[trigger] rs2[i]).op is Phi <==> i < i0 + b.spec_num_phis()) by {
        assert(rs2[i] == rs[i]);
    }
}

/// Entered blocks and enter-order ranks are in bijection, so fewer
/// ranks exist than blocks.
proof fn lemma_rpo_strictly_bounded(s: &BlockStore, excluded: int)
    requires
        s.wf(),
        0 <= excluded < s.blocks().len(),
        !s.blocks()[excluded].spec_entered(),
    ensures
        s.rpo().len() < s.blocks().len(),
{
    let n = s.blocks().len() as int;
    let ids = s.rpo().map_values(|b: BlockId| b.spec_val() as int);
    assert(ids.no_duplicates()) by {
        assert forall|j1: int, j2: int|
            0 <= j1 < ids.len() && 0 <= j2 < ids.len() && j1 != j2 implies
            ids[j1] != ids[j2] by {
            assert(ids[j1] == s.rpo()[j1].spec_val() as int);
            assert(ids[j2] == s.rpo()[j2].spec_val() as int);
            assert(s.blocks()[s.rpo()[j1].spec_val() as int].order == j1);
            assert(s.blocks()[s.rpo()[j2].spec_val() as int].order == j2);
        }
    }
    ids.unique_seq_to_set();
    let range = vstd::set_lib::set_int_range(0, n).remove(excluded);
    vstd::set_lib::lemma_int_range(0, n);
    assert forall|x: int| ids.to_set().contains(x) implies range.contains(x) by {
        let j = choose|j: int| 0 <= j < ids.len() && ids[j] == x;
        assert(ids[j] == s.rpo()[j].spec_val() as int);
        assert(s.blocks()[s.rpo()[j].spec_val() as int].spec_entered());
    }
    assert(range.len() == n - 1);
    vstd::set_lib::lemma_len_subset(ids.to_set(), range);
}

/// A field change that touches neither `state` rank order, `order`,
/// nor `id` keeps the table well formed.
proof fn lemma_update_same_order(o: &BlockStore, s: &BlockStore, iv: int)
    requires
        o.wf(),
        0 <= iv < o.blocks().len(),
        s.blocks().len() == o.blocks().len(),
        s.blocks() == o.blocks().update(iv, s.blocks()[iv]),
        s.blocks()[iv].id == o.blocks()[iv].id,
        s.blocks()[iv].order == o.blocks()[iv].order,
        s.blocks()[iv].variant == o.blocks()[iv].variant,
        s.blocks()[iv].spec_entered() == o.blocks()[iv].spec_entered(),
        s.blocks()[iv].spec_loop_complete() ==> s.blocks()[iv].spec_is_loop(),
        s.rpo() == o.rpo(),
        s.cur_block_id == o.cur_block_id,
    ensures
        s.wf(),
{
    assert forall|i: int| 0 <= i < s.blocks().len() implies
        (#[trigger] s.blocks()[i]).id.spec_val() == i by {
        if i != iv {
            assert(s.blocks()[i] == o.blocks()[i]);
        }
    }
    assert(s.blocks()[0].spec_is_start() && s.blocks()[0].spec_entered()) by {
        if iv != 0 {
            assert(s.blocks()[0] == o.blocks()[0]);
        }
    }
    assert forall|j: int| 0 <= j < s.rpo().len() implies {
        &&& (#[trigger] s.rpo()[j]).spec_val() < s.blocks().len()
        &&& s.blocks()[s.rpo()[j].spec_val() as int].spec_entered()
        &&& s.blocks()[s.rpo()[j].spec_val() as int].order == j
    } by {
        if s.rpo()[j].spec_val() as int != iv {
            assert(s.blocks()[s.rpo()[j].spec_val() as int]
                == o.blocks()[s.rpo()[j].spec_val() as int]);
        }
    }
    assert forall|i: int| 0 <= i < s.blocks().len()
        && (#[trigger] s.blocks()[i]).spec_entered() implies {
        &&& s.blocks()[i].order < s.rpo().len()
        &&& s.rpo()[s.blocks()[i].order as int].spec_val() == i
    } by {
        if i != iv {
            assert(s.blocks()[i] == o.blocks()[i]);
        }
    }
    assert forall|i: int| 0 <= i < s.blocks().len()
        && (#[trigger] s.blocks()[i]).spec_loop_complete() implies
        s.blocks()[i].spec_is_loop() by {
        if i != iv {
            assert(s.blocks()[i] == o.blocks()[i]);
        }
    }
}

} // verus!
