//! An incrementally constructed, byte-encoded SSA intermediate
//! representation: a builder enforces a declare-then-define protocol
//! over basic blocks, an append-only instruction store encodes each
//! instruction at a byte offset that serves as its id, and a reading
//! session decodes the finished stream one instruction at a time.

pub mod block;
pub mod builder;
pub mod defn;
pub mod graph;
pub mod instr;
pub mod ir_types;
pub mod leb128;
pub mod ops;

use vstd::prelude::*;

use crate::builder::{builder_complete, BuildSession, Builder};
use crate::graph::Graph;

verus! {

/// Open a root build session over a fresh builder; its start block is
/// already entered and current.
pub fn build() -> (r: BuildSession)
    ensures
        r.wf(),
        r.blocks().len() == 1,
        r.recs().len() == 0,
        r.framev().len() == 1,
        r.cur() == 0,
{
    BuildSession::new(Builder::new())
}

/// Seal a completely built builder into a read-only graph.
pub fn graph(b: Builder) -> (r: Graph)
    requires
        builder_complete(&b),
    ensures
        r.wf(),
        r.recs() == b.instr_store.recs(),
        r.blocks() == b.block_store.blocks(),
        r.rpo() == b.block_store.rpo(),
{
    Graph::new(b)
}

} // verus!
