//! The instruction store: an append-only byte stream. Each
//! instruction is encoded as its opcode byte, its operation payload,
//! and its input ids in LEB128; terminals append their target list.
//! An instruction's id is the byte offset of its opcode byte, so the
//! ghost sequence of emitted records, each encoded in turn, is the
//! whole story of the stream.

use vstd::prelude::*;

use crate::block::BlockId;
use crate::defn::Defn;
use crate::leb128::{leb, write_leb128u};
use crate::ops::Op;

verus! {

/// The byte cap of the instruction stream.
pub const MAX_INSTR_BYTES: u32 = 0xff_ffff;

/// The offset of an instruction in the stream; its canonical id. The
/// all-bits-set value is the "unset" sentinel.
#[derive(Clone, Copy, Debug, PartialEq, Eq, PartialOrd, Ord, Structural)]
pub struct InstrPosn(pub u32);

impl InstrPosn {
    /// The offset value.
    pub open spec fn spec_val(self) -> u32 {
        self.0
    }

    /// Whether this is a real offset rather than the sentinel.
    pub open spec fn is_valid(self) -> bool {
        self.0 != u32::MAX
    }

    pub(crate) fn new(val: u32) -> (r: InstrPosn)
        requires
            val != u32::MAX,
        ensures
            r.spec_val() == val,
            r.is_valid(),
    {
        InstrPosn(val)
    }

    pub(crate) fn invalid() -> (r: InstrPosn)
        ensures
            !r.is_valid(),
    {
        InstrPosn(u32::MAX)
    }

    pub fn as_u32(&self) -> (r: u32)
        requires
            self.is_valid(),
        ensures
            r == self.spec_val(),
    {
        self.0
    }
}

/// The id of an instruction: just its position.
#[derive(Clone, Copy, Debug, PartialEq, Eq, PartialOrd, Ord, Structural)]
pub struct InstrId(pub InstrPosn);

impl InstrId {
    /// The offset value.
    pub open spec fn spec_val(self) -> u32 {
        self.0.spec_val()
    }

    /// Whether this is a real offset rather than the sentinel.
    pub open spec fn is_valid(self) -> bool {
        self.0.is_valid()
    }

    pub(crate) fn new(posn: InstrPosn) -> (r: InstrId)
        ensures
            r.0 == posn,
    {
        InstrId(posn)
    }

    pub(crate) fn posn(&self) -> (r: InstrPosn)
        ensures
            r == self.0,
    {
        self.0
    }

    pub fn as_u32(&self) -> (r: u32)
        requires
            self.is_valid(),
        ensures
            r == self.spec_val(),
    {
        self.0.as_u32()
    }

    pub(crate) fn invalid() -> (r: InstrId)
        ensures
            !r.is_valid(),
    {
        InstrId(InstrPosn::invalid())
    }
}

/// One target of a terminal: the target block id and the definitions
/// handed to that block's phis along this edge.
pub struct TargetRec {
    pub block: u32,
    pub phi_args: Seq<u32>,
}

/// One emitted instruction, in decoded form: the operation, the ids
/// of its inputs, and (for terminals) its targets.
pub struct InstrRec {
    pub op: Op,
    pub inputs: Seq<u32>,
    pub targets: Seq<TargetRec>,
}

/// The id values of a sequence of definitions.
pub open spec fn defn_ids(ds: Seq<Defn>) -> Seq<u32> {
    ds.map_values(|d: Defn| d.spec_val())
}

/// The encoding of a list of ids: each in LEB128, in order.
pub open spec fn enc_ids(ids: Seq<u32>) -> Seq<u8>
    decreases ids.len(),
{
    if ids.len() == 0 {
        Seq::empty()
    } else {
        enc_ids(ids.drop_last()) + leb(ids.last() as u64)
    }
}

/// The encoding of one target: block id, count of phi arguments,
/// then the phi argument ids.
pub open spec fn enc_target(t: TargetRec) -> Seq<u8> {
    leb(t.block as u64) + leb(t.phi_args.len() as u64) + enc_ids(t.phi_args)
}

/// The encoding of a target list, in order.
pub open spec fn enc_targets(ts: Seq<TargetRec>) -> Seq<u8>
    decreases ts.len(),
{
    if ts.len() == 0 {
        Seq::empty()
    } else {
        enc_targets(ts.drop_last()) + enc_target(ts.last())
    }
}

/// The full encoding of one instruction.
pub open spec fn enc_instr(r: InstrRec) -> Seq<u8> {
    r.op.enc() + enc_ids(r.inputs) + enc_targets(r.targets)
}

/// The whole stream: each record's encoding, in emission order.
pub open spec fn enc_stream(rs: Seq<InstrRec>) -> Seq<u8>
    decreases rs.len(),
{
    if rs.len() == 0 {
        Seq::empty()
    } else {
        enc_stream(rs.drop_last()) + enc_instr(rs.last())
    }
}

/// The byte offset at which record `i` is encoded.
pub open spec fn off_of(rs: Seq<InstrRec>, i: int) -> int {
    enc_stream(rs.take(i)).len() as int
}

/// Whether `off` is the offset of some record.
pub open spec fn is_record_off(rs: Seq<InstrRec>, off: int) -> bool {
    exists|i: int| 0 <= i < rs.len() && #[trigger] off_of(rs, i) == off
}

/// A record is internally consistent: input count matches the
/// operation's arity, targets appear exactly on terminals in the
/// operation's target count, and no phi list exceeds the stream cap.
pub open spec fn rec_wf(r: InstrRec) -> bool {
    &&& r.inputs.len() == r.op.spec_num_inputs()
    &&& r.targets.len() == (if r.op.spec_terminal() {
        r.op.spec_num_targets() as int
    } else {
        0
    })
    &&& forall|k: int| 0 <= k < r.targets.len()
        ==> (#[trigger] r.targets[k]).phi_args.len() <= MAX_INSTR_BYTES
}

/// Every id a record mentions refers strictly backwards: inputs and
/// phi arguments name offsets below the record's own offset.
pub open spec fn rec_ssa(rs: Seq<InstrRec>, i: int) -> bool {
    &&& forall|j: int| 0 <= j < rs[i].inputs.len()
        ==> (#[trigger] rs[i].inputs[j]) < off_of(rs, i)
    &&& forall|k: int, j: int|
        0 <= k < rs[i].targets.len() && 0 <= j < rs[i].targets[k].phi_args.len()
        ==> (#[trigger] rs[i].targets[k].phi_args[j]) < off_of(rs, i)
}

/// Backwards reference holds of every record.
pub open spec fn ssa_ok(rs: Seq<InstrRec>) -> bool {
    forall|i: int| 0 <= i < rs.len() ==> #[trigger] rec_ssa(rs, i)
}

/// Appending one record appends its encoding.
pub proof fn lemma_enc_stream_push(rs: Seq<InstrRec>, r: InstrRec)
    ensures
        enc_stream(rs.push(r)) == enc_stream(rs) + enc_instr(r),
{
    assert(rs.push(r).drop_last() =~= rs);
    assert(rs.push(r).last() == r);
}

/// Offsets of existing records do not move when a record is appended,
/// and the new record sits at the old stream's end.
pub proof fn lemma_off_push(rs: Seq<InstrRec>, r: InstrRec, i: int)
    requires
        0 <= i <= rs.len(),
    ensures
        off_of(rs.push(r), i) == off_of(rs, i),
        off_of(rs.push(r), rs.len() as int) == enc_stream(rs).len(),
{
    assert(rs.push(r).take(i) =~= rs.take(i));
    assert(rs.push(r).take(rs.len() as int) =~= rs);
    assert(rs.take(rs.len() as int) =~= rs);
}

/// Backwards reference survives appending a record whose own ids lie
/// below the old stream's end.
pub proof fn lemma_ssa_push(rs: Seq<InstrRec>, r: InstrRec)
    requires
        ssa_ok(rs),
        forall|j: int| 0 <= j < r.inputs.len()
            ==> (#[trigger] r.inputs[j]) < enc_stream(rs).len(),
        forall|k: int, j: int| 0 <= k < r.targets.len() && 0 <= j < r.targets[k].phi_args.len()
            ==> (#[trigger] r.targets[k].phi_args[j]) < enc_stream(rs).len(),
    ensures
        ssa_ok(rs.push(r)),
{
    let rs2 = rs.push(r);
    assert forall|i: int| 0 <= i < rs2.len() implies #[trigger] rec_ssa(rs2, i) by {
        lemma_off_push(rs, r, i);
        if i < rs.len() {
            assert(rec_ssa(rs, i));
            assert(rs2[i] == rs[i]);
        } else {
            assert(rs2[i] == r);
        }
    }
}

/// The stream cannot hold more records than bytes: every encoding
/// starts with its opcode byte.
pub proof fn lemma_enc_instr_len(r: InstrRec)
    ensures
        enc_instr(r).len() >= 1,
{
    assert(r.op.enc().len() >= 1);
}

/// Each record's successor sits right after the record's encoding.
pub proof fn lemma_off_step(rs: Seq<InstrRec>, i: int)
    requires
        0 <= i < rs.len(),
    ensures
        off_of(rs, i + 1) == off_of(rs, i) + enc_instr(rs[i]).len(),
{
    assert(rs.take(i + 1).drop_last() =~= rs.take(i));
    assert(rs.take(i + 1).last() == rs[i]);
}

/// Offsets grow strictly with the record index.
pub proof fn lemma_off_mono(rs: Seq<InstrRec>, i: int, j: int)
    requires
        0 <= i <= j <= rs.len(),
    ensures
        off_of(rs, i) <= off_of(rs, j),
        i < j ==> off_of(rs, i) < off_of(rs, j),
    decreases j - i,
{
    if i < j {
        lemma_off_step(rs, j - 1);
        lemma_enc_instr_len(rs[j - 1]);
        lemma_off_mono(rs, i, j - 1);
    }
}

/// The index of the record encoded at `off`.
pub open spec fn idx_of(rs: Seq<InstrRec>, off: int) -> int {
    choose|i: int| 0 <= i < rs.len() && #[trigger] off_of(rs, i) == off
}

/// At a record offset, `idx_of` names the one record encoded there.
pub proof fn lemma_idx_of(rs: Seq<InstrRec>, off: int)
    requires
        is_record_off(rs, off),
    ensures
        0 <= idx_of(rs, off) < rs.len(),
        off_of(rs, idx_of(rs, off)) == off,
        forall|i: int| 0 <= i < rs.len() && #[trigger] off_of(rs, i) == off
            ==> i == idx_of(rs, off),
{
    let i0 = idx_of(rs, off);
    assert(0 <= i0 < rs.len() && off_of(rs, i0) == off);
    assert forall|i: int| 0 <= i < rs.len() && #[trigger] off_of(rs, i) == off
        implies i == i0 by {
        if i < i0 {
            lemma_off_mono(rs, i, i0);
        }
        if i0 < i {
            lemma_off_mono(rs, i0, i);
        }
    }
}

/// Record offsets, and the records at them, survive an append.
pub proof fn lemma_idx_push(rs: Seq<InstrRec>, r: InstrRec, off: int)
    requires
        is_record_off(rs, off),
    ensures
        is_record_off(rs.push(r), off),
        idx_of(rs.push(r), off) == idx_of(rs, off),
{
    lemma_idx_of(rs, off);
    let i0 = idx_of(rs, off);
    lemma_off_push(rs, r, i0);
    assert(off_of(rs.push(r), i0) == off);
    assert(is_record_off(rs.push(r), off));
    lemma_idx_of(rs.push(r), off);
}

/// How many times the targets in one list name block `b`.
pub open spec fn count_tgt_list(ts: Seq<TargetRec>, b: int) -> nat
    decreases ts.len(),
{
    if ts.len() == 0 {
        0
    } else {
        count_tgt_list(ts.drop_last(), b) + (if ts.last().block as int == b {
            1nat
        } else {
            0nat
        })
    }
}

/// How many terminal targets across the whole stream name block `b`.
pub open spec fn count_targets(rs: Seq<InstrRec>, b: int) -> nat
    decreases rs.len(),
{
    if rs.len() == 0 {
        0
    } else {
        count_targets(rs.drop_last(), b) + count_tgt_list(rs.last().targets, b)
    }
}

/// Appending a record adds its own target count.
pub proof fn lemma_count_targets_push(rs: Seq<InstrRec>, r: InstrRec, b: int)
    ensures
        count_targets(rs.push(r), b) == count_targets(rs, b) + count_tgt_list(r.targets, b),
{
    assert(rs.push(r).drop_last() =~= rs);
    assert(rs.push(r).last() == r);
}

/// One step of a walk along a target list.
pub proof fn lemma_count_tgt_take(ts: Seq<TargetRec>, k: int, b: int)
    requires
        0 <= k < ts.len(),
    ensures
        count_tgt_list(ts.take(k + 1), b) == count_tgt_list(ts.take(k), b)
            + (if ts[k].block as int == b { 1nat } else { 0nat }),
{
    assert(ts.take(k + 1).drop_last() =~= ts.take(k));
    assert(ts.take(k + 1).last() == ts[k]);
}

/// A list cannot name a block more often than it has entries.
pub proof fn lemma_count_tgt_bound(ts: Seq<TargetRec>, b: int)
    ensures
        count_tgt_list(ts, b) <= ts.len(),
    decreases ts.len(),
{
    if ts.len() > 0 {
        lemma_count_tgt_bound(ts.drop_last(), b);
    }
}

/// The offset past the last record is the stream's length.
pub proof fn lemma_off_end(rs: Seq<InstrRec>)
    ensures
        off_of(rs, rs.len() as int) == enc_stream(rs).len(),
{
    assert(rs.take(rs.len() as int) =~= rs);
}

/// A list that never names `b` contributes no edge to it.
pub proof fn lemma_count_tgt_absent(ts: Seq<TargetRec>, b: int)
    requires
        forall|k: int| 0 <= k < ts.len() ==> (#[trigger] ts[k]).block as int != b,
    ensures
        count_tgt_list(ts, b) == 0,
    decreases ts.len(),
{
    if ts.len() > 0 {
        assert forall|k: int| 0 <= k < ts.drop_last().len() implies
            (#[trigger] ts.drop_last()[k]).block as int != b by {
            assert(ts.drop_last()[k] == ts[k]);
        }
        lemma_count_tgt_absent(ts.drop_last(), b);
        assert(ts.last() == ts[ts.len() - 1]);
    }
}

/// A block that no target names has no counted edges.
pub proof fn lemma_count_targets_absent(rs: Seq<InstrRec>, b: int)
    requires
        forall|i: int, k: int| 0 <= i < rs.len() && 0 <= k < rs[i].targets.len()
            ==> (#[trigger] rs[i].targets[k]).block as int != b,
    ensures
        count_targets(rs, b) == 0,
    decreases rs.len(),
{
    if rs.len() > 0 {
        assert forall|i: int, k: int|
            0 <= i < rs.drop_last().len() && 0 <= k < rs.drop_last()[i].targets.len() implies
            (#[trigger] rs.drop_last()[i].targets[k]).block as int != b by {
            assert(rs.drop_last()[i] == rs[i]);
        }
        lemma_count_targets_absent(rs.drop_last(), b);
        assert(rs.last() == rs[rs.len() - 1]);
        assert forall|k: int| 0 <= k < rs.last().targets.len() implies
            (#[trigger] rs.last().targets[k]).block as int != b by {
            assert(rs[rs.len() - 1].targets[k].block as int != b);
        }
        lemma_count_tgt_absent(rs.last().targets, b);
    }
}

/// No block collects more than two edges per record: a terminal has
/// at most two targets.
pub proof fn lemma_count_targets_bound(rs: Seq<InstrRec>, b: int)
    requires
        forall|i: int| 0 <= i < rs.len() ==> rec_wf(#[trigger] rs[i]),
    ensures
        count_targets(rs, b) <= 2 * rs.len(),
    decreases rs.len(),
{
    if rs.len() > 0 {
        assert(rec_wf(rs[rs.len() - 1]));
        assert(rs.last().targets.len() <= 2) by {
            assert(rs.last().op.spec_num_targets() <= 2);
        }
        lemma_count_tgt_bound(rs.last().targets, b);
        assert forall|i: int| 0 <= i < rs.drop_last().len() implies
            rec_wf(#[trigger] rs.drop_last()[i]) by {
            assert(rs.drop_last()[i] == rs[i]);
        }
        lemma_count_targets_bound(rs.drop_last(), b);
    }
}

/// The encoding of each id takes at most ten bytes.
pub proof fn lemma_enc_ids_len(ids: Seq<u32>)
    ensures
        enc_ids(ids).len() <= 10 * ids.len(),
    decreases ids.len(),
{
    if ids.len() > 0 {
        lemma_enc_ids_len(ids.drop_last());
        crate::leb128::lemma_leb_len(ids.last() as u64);
    }
}

/// An id list's encoding starts with its first id's encoding.
pub proof fn lemma_enc_ids_head(ids: Seq<u32>)
    requires
        ids.len() > 0,
    ensures
        enc_ids(ids) == leb(ids[0] as u64) + enc_ids(ids.drop_first()),
    decreases ids.len(),
{
    if ids.len() == 1 {
        assert(ids.drop_last() =~= Seq::<u32>::empty());
        assert(ids.drop_first() =~= Seq::<u32>::empty());
        assert(enc_ids(ids) =~= leb(ids[0] as u64) + enc_ids(ids.drop_first()));
    } else {
        lemma_enc_ids_head(ids.drop_last());
        assert(ids.drop_last()[0] == ids[0]);
        assert(ids.drop_last().drop_first() =~= ids.drop_first().drop_last());
        assert(ids.drop_first().last() == ids.last());
        assert(enc_ids(ids.drop_first())
            == enc_ids(ids.drop_first().drop_last()) + leb(ids.drop_first().last() as u64));
        assert(enc_ids(ids) =~= leb(ids[0] as u64) + enc_ids(ids.drop_first()));
    }
}

/// Record `i`'s encoding sits at its offset in the whole stream.
pub proof fn lemma_stream_decompose(rs: Seq<InstrRec>, i: int)
    requires
        0 <= i < rs.len(),
    ensures
        crate::ops::bytes_at(enc_stream(rs), off_of(rs, i), enc_instr(rs[i])),
    decreases rs.len(),
{
    let s = enc_stream(rs);
    if i == rs.len() - 1 {
        assert(rs.take(i) =~= rs.drop_last());
        assert(s == enc_stream(rs.drop_last()) + enc_instr(rs.last()));
        assert(s.subrange(0, s.len() as int) =~= s);
        assert(crate::ops::bytes_at(s, 0, enc_stream(rs.drop_last()) + enc_instr(rs.last())));
        crate::ops::lemma_bytes_at_split(
            s, 0, enc_stream(rs.drop_last()), enc_instr(rs.last()));
    } else {
        let rsd = rs.drop_last();
        lemma_stream_decompose(rsd, i);
        assert(rs.take(i) =~= rsd.take(i));
        assert(rsd[i] == rs[i]);
        crate::ops::lemma_bytes_at_extend(
            enc_stream(rsd), enc_instr(rs.last()), off_of(rsd, i), enc_instr(rsd[i]));
        assert(s == enc_stream(rsd) + enc_instr(rs.last()));
    }
}

/// The three parts of record `i` sit one after the other at its
/// offset: the operation head, the input ids, the targets.
pub proof fn lemma_instr_parts(rs: Seq<InstrRec>, i: int)
    requires
        0 <= i < rs.len(),
    ensures
        crate::ops::bytes_at(enc_stream(rs), off_of(rs, i), rs[i].op.enc()),
        crate::ops::bytes_at(enc_stream(rs), off_of(rs, i) + rs[i].op.enc().len(),
            enc_ids(rs[i].inputs)),
        crate::ops::bytes_at(enc_stream(rs),
            off_of(rs, i) + rs[i].op.enc().len() + enc_ids(rs[i].inputs).len(),
            enc_targets(rs[i].targets)),
{
    let s = enc_stream(rs);
    let off = off_of(rs, i);
    lemma_stream_decompose(rs, i);
    assert(enc_instr(rs[i]) =~= rs[i].op.enc()
        + (enc_ids(rs[i].inputs) + enc_targets(rs[i].targets)));
    crate::ops::lemma_bytes_at_split(s, off, rs[i].op.enc(),
        enc_ids(rs[i].inputs) + enc_targets(rs[i].targets));
    crate::ops::lemma_bytes_at_split(s, off + rs[i].op.enc().len(),
        enc_ids(rs[i].inputs), enc_targets(rs[i].targets));
}

/// A decoded instruction: its definition, its operation, and where
/// its input list begins and ends, relative to its own offset. For a
/// non-terminal the end of the input list is the next instruction.
pub struct InstrInfo {
    pub defn: Defn,
    pub op: Op,
    pub inputs_offset: u32,
    pub after_inputs_offset: u32,
    pub idx: Ghost<int>,
}

/// The decoded information is exactly what record `idx` says.
pub open spec fn info_wf(info: InstrInfo, rs: Seq<InstrRec>) -> bool {
    &&& 0 <= info.idx@ < rs.len()
    &&& off_of(rs, info.idx@) == info.defn.spec_val() as int
    &&& info.defn.is_valid()
    &&& info.op == rs[info.idx@].op
    &&& info.inputs_offset == info.op.enc().len()
    &&& info.after_inputs_offset == info.op.enc().len() + enc_ids(rs[info.idx@].inputs).len()
}

impl InstrInfo {
    pub(crate) fn defn(&self) -> (r: Defn)
        ensures
            r == self.defn,
    {
        self.defn
    }

    pub(crate) fn op(&self) -> (r: &Op)
        ensures
            *r == self.op,
    {
        &self.op
    }
}

/// A single-pass reader over one instruction's input list.
pub struct InstrInputs<'a> {
    pub bytes: &'a Vec<u8>,
    pub pos: usize,
    pub remaining: u32,
    pub bytes_read: usize,
    pub expected: Ghost<Seq<u32>>,
    pub taken: Ghost<int>,
}

impl<'a> InstrInputs<'a> {
    /// The cursor sits right before the encodings of the inputs not
    /// yet read.
    pub open spec fn wf(&self) -> bool {
        &&& 0 <= self.taken@ <= self.expected@.len()
        &&& self.remaining == self.expected@.len() - self.taken@
        &&& crate::ops::bytes_at(self.bytes@, self.pos as int,
            enc_ids(self.expected@.skip(self.taken@)))
        &&& self.bytes_read <= self.pos
        &&& forall|q: int| 0 <= q < self.expected@.len()
            ==> (#[trigger] self.expected@[q]) < u32::MAX
    }

    pub fn bytes_read(&self) -> (r: usize)
        ensures
            r == self.bytes_read,
    {
        self.bytes_read
    }

    /// Decode the next input id, or nothing once the list is read.
    pub fn next_input(&mut self) -> (r: Option<Defn>)
        requires
            old(self).wf(),
        ensures
            final(self).wf(),
            final(self).expected == old(self).expected,
            final(self).bytes == old(self).bytes,
            old(self).taken@ == old(self).expected@.len() ==> {
                &&& r is None
                &&& *final(self) == *old(self)
            },
            old(self).taken@ < old(self).expected@.len() ==> {
                &&& final(self).taken@ == old(self).taken@ + 1
                &&& (r matches Some(d)
                    ==> d.spec_val() == old(self).expected@[old(self).taken@]
                        && d.is_valid())
                &&& r is Some
                &&& final(self).bytes_read == old(self).bytes_read
                    + leb(old(self).expected@[old(self).taken@] as u64).len()
            },
    {
        if self.remaining == 0 {
            return None;
        }
        let ghost rest = self.expected@.skip(self.taken@);
        proof {
            lemma_enc_ids_head(rest);
            assert(rest[0] == self.expected@[self.taken@]);
            crate::ops::lemma_bytes_at_split(self.bytes@, self.pos as int,
                leb(rest[0] as u64), enc_ids(rest.drop_first()));
            assert(crate::leb128::leb_at(self.bytes@, self.pos as int, rest[0] as u64));
            crate::leb128::lemma_leb_len(rest[0] as u64);
        }
        let (nb, v) = crate::leb128::read_leb128u(self.bytes.as_slice(), self.pos);
        proof {
            assert(v == rest[0] as u64);
            assert(rest.drop_first() =~= self.expected@.skip(self.taken@ + 1));
            assert(self.bytes@.len() == self.bytes.len());
            assert(self.pos + nb <= self.bytes@.len());
        }
        self.pos = self.pos + nb;
        self.bytes_read = self.bytes_read + nb;
        self.remaining = self.remaining - 1;
        self.taken = Ghost(self.taken@ + 1);
        Some(Defn::new(InstrId::new(InstrPosn::new(v as u32))))
    }
}

/// The append-only byte stream, with the ghost record of everything
/// emitted into it.
pub struct InstrStore {
    pub instr_bytes: Vec<u8>,
    pub max_len: u32,
    pub num_instrs: u32,
    pub records: Ghost<Seq<InstrRec>>,
}

impl InstrStore {
    /// Everything emitted so far, in order.
    pub open spec fn recs(&self) -> Seq<InstrRec> {
        self.records@
    }

    /// The raw bytes.
    pub open spec fn stream(&self) -> Seq<u8> {
        self.instr_bytes@
    }

    pub open spec fn stream_len(&self) -> int {
        self.stream().len() as int
    }

    /// The bytes are exactly the records' encodings, every record is
    /// internally consistent, and ids refer strictly backwards.
    pub open spec fn wf(&self) -> bool {
        &&& self.stream() == enc_stream(self.recs())
        &&& self.max_len == MAX_INSTR_BYTES
        &&& self.num_instrs == self.recs().len()
        &&& self.recs().len() <= self.stream().len()
        &&& forall|i: int| 0 <= i < self.recs().len() ==> rec_wf(#[trigger] self.recs()[i])
        &&& forall|i: int| 0 <= i < self.recs().len()
            ==> #[trigger] off_of(self.recs(), i) <= MAX_INSTR_BYTES
        &&& ssa_ok(self.recs())
    }

    pub fn new() -> (r: InstrStore)
        ensures
            r.wf(),
            r.recs().len() == 0,
            r.stream_len() == 0,
    {
        let r = InstrStore {
            instr_bytes: Vec::new(),
            max_len: MAX_INSTR_BYTES,
            num_instrs: 0,
            records: Ghost(Seq::empty()),
        };
        proof {
            assert(enc_stream(r.recs()) =~= Seq::<u8>::empty());
        }
        r
    }

    /// Whether the stream is still within its byte cap.
    pub fn within_limits(&self) -> (r: bool)
        requires
            self.wf(),
        ensures
            r == (self.stream_len() <= MAX_INSTR_BYTES),
    {
        self.instr_bytes.len() <= self.max_len as usize
    }

    pub(crate) fn front_instr_posn(&self) -> (r: InstrPosn)
        requires
            self.wf(),
            self.stream_len() <= MAX_INSTR_BYTES,
        ensures
            r.spec_val() == self.stream_len(),
            r.is_valid(),
    {
        InstrPosn::new(self.instr_bytes.len() as u32)
    }

    /// The id the next emitted instruction will get.
    pub(crate) fn front_instr_id(&self) -> (r: InstrId)
        requires
            self.wf(),
            self.stream_len() <= MAX_INSTR_BYTES,
        ensures
            r.spec_val() == self.stream_len(),
            r.is_valid(),
    {
        InstrId::new(self.front_instr_posn())
    }

    pub(crate) fn instr_bytes_len(&self) -> (r: usize)
        ensures
            r == self.stream().len(),
    {
        self.instr_bytes.len()
    }

    /// Append the head of one instruction: opcode, payload, inputs.
    fn append_instr_impl(&mut self, op: &Op, inputs: &Vec<Defn>)
        requires
            forall|j: int| 0 <= j < inputs@.len() ==> (#[trigger] inputs@[j]).is_valid(),
        ensures
            final(self).instr_bytes@ == old(self).instr_bytes@ + op.enc()
                + enc_ids(defn_ids(inputs@)),
            final(self).max_len == old(self).max_len,
            final(self).num_instrs == old(self).num_instrs,
            final(self).records == old(self).records,
    {
        op.write_to(&mut self.instr_bytes);
        let ghost ids = defn_ids(inputs@);
        let n = inputs.len();
        proof {
            assert(ids.take(0) =~= Seq::<u32>::empty());
            assert(self.instr_bytes@ =~= old(self).instr_bytes@ + op.enc()
                + enc_ids(ids.take(0)));
        }
        let mut i: usize = 0;
        while i < n
            invariant
                n == inputs@.len(),
                i <= n,
                ids == defn_ids(inputs@),
                forall|j: int| 0 <= j < inputs@.len() ==> (#[trigger] inputs@[j]).is_valid(),
                self.instr_bytes@ == old(self).instr_bytes@ + op.enc()
                    + enc_ids(ids.take(i as int)),
                self.max_len == old(self).max_len,
                self.num_instrs == old(self).num_instrs,
                self.records == old(self).records,
            decreases n - i,
        {
            let d = inputs[i];
            write_leb128u(d.as_u32() as u64, &mut self.instr_bytes);
            proof {
                assert(ids[i as int] == inputs@[i as int].spec_val());
                assert(ids.take(i + 1).drop_last() =~= ids.take(i as int));
                assert(ids.take(i + 1).last() == ids[i as int]);
                assert(enc_ids(ids.take(i + 1))
                    == enc_ids(ids.take(i as int)) + leb(ids[i as int] as u64));
                assert(self.instr_bytes@ =~= old(self).instr_bytes@ + op.enc()
                    + enc_ids(ids.take(i + 1)));
            }
            i = i + 1;
        }
        proof {
            assert(ids.take(n as int) =~= ids);
        }
    }

    /// Append one target: block id, phi argument count, arguments.
    fn append_target(&mut self, blk: BlockId, phi_defs: &Vec<Defn>)
        requires
            phi_defs@.len() <= MAX_INSTR_BYTES,
            forall|j: int| 0 <= j < phi_defs@.len() ==> (#[trigger] phi_defs@[j]).is_valid(),
        ensures
            final(self).instr_bytes@ == old(self).instr_bytes@ + enc_target(TargetRec {
                block: blk.spec_val(),
                phi_args: defn_ids(phi_defs@),
            }),
            final(self).max_len == old(self).max_len,
            final(self).num_instrs == old(self).num_instrs,
            final(self).records == old(self).records,
    {
        let ghost t = TargetRec { block: blk.spec_val(), phi_args: defn_ids(phi_defs@) };
        write_leb128u(blk.as_u32() as u64, &mut self.instr_bytes);
        write_leb128u(phi_defs.len() as u64, &mut self.instr_bytes);
        let ghost ids = defn_ids(phi_defs@);
        let ghost head = old(self).instr_bytes@ + leb(t.block as u64)
            + leb(t.phi_args.len() as u64);
        proof {
            assert(ids.take(0) =~= Seq::<u32>::empty());
            assert(self.instr_bytes@ =~= head + enc_ids(ids.take(0)));
        }
        let n = phi_defs.len();
        let mut i: usize = 0;
        while i < n
            invariant
                n == phi_defs@.len(),
                i <= n,
                ids == defn_ids(phi_defs@),
                forall|j: int| 0 <= j < phi_defs@.len() ==> (#[trigger] phi_defs@[j]).is_valid(),
                self.instr_bytes@ == head + enc_ids(ids.take(i as int)),
                self.max_len == old(self).max_len,
                self.num_instrs == old(self).num_instrs,
                self.records == old(self).records,
            decreases n - i,
        {
            let d = phi_defs[i];
            write_leb128u(d.as_u32() as u64, &mut self.instr_bytes);
            proof {
                assert(ids[i as int] == phi_defs@[i as int].spec_val());
                assert(ids.take(i + 1).drop_last() =~= ids.take(i as int));
                assert(ids.take(i + 1).last() == ids[i as int]);
                assert(enc_ids(ids.take(i + 1))
                    == enc_ids(ids.take(i as int)) + leb(ids[i as int] as u64));
                assert(self.instr_bytes@ =~= head + enc_ids(ids.take(i + 1)));
            }
            i = i + 1;
        }
        proof {
            assert(ids.take(n as int) =~= ids);
            assert(self.instr_bytes@ =~= old(self).instr_bytes@ + enc_target(t));
        }
    }

    /// Append the target list of a terminal.
    fn append_targets_impl(&mut self, targets: &Vec<(BlockId, Vec<Defn>)>)
        requires
            forall|k: int| 0 <= k < targets@.len()
                ==> (#[trigger] targets@[k]).1@.len() <= MAX_INSTR_BYTES,
            forall|k: int, j: int|
                0 <= k < targets@.len() && 0 <= j < targets@[k].1@.len()
                ==> (#[trigger] targets@[k].1@[j]).is_valid(),
        ensures
            final(self).instr_bytes@ == old(self).instr_bytes@
                + enc_targets(target_recs(targets@)),
            final(self).max_len == old(self).max_len,
            final(self).num_instrs == old(self).num_instrs,
            final(self).records == old(self).records,
    {
        let ghost ts = target_recs(targets@);
        proof {
            assert(ts.take(0) =~= Seq::<TargetRec>::empty());
            assert(self.instr_bytes@ =~= old(self).instr_bytes@ + enc_targets(ts.take(0)));
        }
        let n = targets.len();
        let mut k: usize = 0;
        while k < n
            invariant
                n == targets@.len(),
                k <= n,
                ts == target_recs(targets@),
                forall|k2: int| 0 <= k2 < targets@.len()
                    ==> (#[trigger] targets@[k2]).1@.len() <= MAX_INSTR_BYTES,
                forall|k2: int, j: int|
                    0 <= k2 < targets@.len() && 0 <= j < targets@[k2].1@.len()
                    ==> (#[trigger] targets@[k2].1@[j]).is_valid(),
                self.instr_bytes@ == old(self).instr_bytes@ + enc_targets(ts.take(k as int)),
                self.max_len == old(self).max_len,
                self.num_instrs == old(self).num_instrs,
                self.records == old(self).records,
            decreases n - k,
        {
            let t = &targets[k];
            self.append_target(t.0, &t.1);
            proof {
                assert(ts[k as int] == (TargetRec {
                    block: targets@[k as int].0.spec_val(),
                    phi_args: defn_ids(targets@[k as int].1@),
                }));
                assert(ts.take(k + 1).drop_last() =~= ts.take(k as int));
                assert(ts.take(k + 1).last() == ts[k as int]);
                assert(enc_targets(ts.take(k + 1))
                    == enc_targets(ts.take(k as int)) + enc_target(ts[k as int]));
                assert(self.instr_bytes@ =~= old(self).instr_bytes@
                    + enc_targets(ts.take(k + 1)));
            }
            k = k + 1;
        }
        proof {
            assert(ts.take(n as int) =~= ts);
        }
    }

    /// Decode the instruction at `instr_id`: its operation, and where
    /// its inputs start and end. The inverse of emission: what comes
    /// back is what the emitted record holds.
    pub(crate) fn read_instr_info(&self, instr_id: InstrId) -> (r: InstrInfo)
        requires
            self.wf(),
            instr_id.is_valid(),
            is_record_off(self.recs(), instr_id.spec_val() as int),
        ensures
            info_wf(r, self.recs()),
            r.idx@ == idx_of(self.recs(), instr_id.spec_val() as int),
            r.defn.spec_val() == instr_id.spec_val(),
    {
        let ghost rs = self.recs();
        let ghost offi = instr_id.spec_val() as int;
        proof {
            lemma_idx_of(rs, offi);
        }
        let ghost i = idx_of(rs, offi);
        proof {
            lemma_instr_parts(rs, i);
            assert(exists|op: Op| crate::ops::bytes_at(self.stream(), offi, op.enc())) by {
                assert(crate::ops::bytes_at(self.stream(), offi, rs[i].op.enc()));
            }
        }
        let off = instr_id.as_u32() as usize;
        let (nb, op) = Op::read_from(self.instr_bytes.as_slice(), off);
        proof {
            assert(op == rs[i].op);
            crate::ops::op::lemma_op_enc_len(op);
        }
        let ghost inputs = rs[i].inputs;
        let n = op.num_inputs();
        proof {
            assert(rec_wf(rs[i]));
            assert(inputs.len() == n);
            assert(inputs.take(0) =~= Seq::<u32>::empty());
            assert(inputs.skip(0) =~= inputs);
        }
        let mut pos: usize = off + nb;
        let mut j: u32 = 0;
        while j < n
            invariant
                self.wf(),
                rs == self.recs(),
                0 <= i < rs.len(),
                inputs == rs[i].inputs,
                inputs.len() == n,
                op == rs[i].op,
                offi == instr_id.spec_val() as int,
                off == offi,
                nb == op.enc().len(),
                j <= n,
                pos == offi + op.enc().len() + enc_ids(inputs.take(j as int)).len(),
                crate::ops::bytes_at(self.stream(), pos as int,
                    enc_ids(inputs.skip(j as int))),
            decreases n - j,
        {
            let ghost rest = inputs.skip(j as int);
            proof {
                lemma_enc_ids_head(rest);
                assert(rest[0] == inputs[j as int]);
                crate::ops::lemma_bytes_at_split(self.stream(), pos as int,
                    leb(rest[0] as u64), enc_ids(rest.drop_first()));
                assert(crate::leb128::leb_at(self.stream(), pos as int, rest[0] as u64));
            }
            let (lj, _v) = crate::leb128::read_leb128u(self.instr_bytes.as_slice(), pos);
            proof {
                assert(_v == rest[0] as u64);
                assert(self.stream().len() == self.instr_bytes.len());
                assert(pos + lj <= self.stream().len());
                assert(rest.drop_first() =~= inputs.skip(j + 1));
                assert(inputs.take(j + 1).drop_last() =~= inputs.take(j as int));
                assert(inputs.take(j + 1).last() == inputs[j as int]);
                assert(enc_ids(inputs.take(j + 1))
                    == enc_ids(inputs.take(j as int)) + leb(inputs[j as int] as u64));
            }
            pos = pos + lj;
            j = j + 1;
        }
        proof {
            assert(inputs.take(n as int) =~= inputs);
            lemma_enc_ids_len(inputs);
            assert(off_of(rs, i) <= MAX_INSTR_BYTES);
        }
        InstrInfo {
            defn: Defn::new(instr_id),
            op,
            inputs_offset: nb as u32,
            after_inputs_offset: (pos - off) as u32,
            idx: Ghost(i),
        }
    }

    /// Emit a non-terminal instruction. Returns the new instruction's
    /// id, or nothing once the byte cap is passed; the store stays
    /// consistent either way.
    pub(crate) fn emit_instr(&mut self, op: &Op, inputs: &Vec<Defn>) -> (r: Option<InstrId>)
        requires
            old(self).wf(),
            !op.spec_terminal(),
            inputs@.len() == op.spec_num_inputs(),
            forall|j: int| 0 <= j < inputs@.len()
                ==> (#[trigger] inputs@[j]).spec_val() < old(self).stream_len(),
        ensures
            final(self).wf(),
            old(self).stream_len() > MAX_INSTR_BYTES ==> {
                &&& r is None
                &&& *final(self) == *old(self)
            },
            old(self).stream_len() <= MAX_INSTR_BYTES ==> {
                let rec = InstrRec { op: *op, inputs: defn_ids(inputs@), targets: Seq::empty() };
                &&& final(self).recs() == old(self).recs().push(rec)
                &&& final(self).stream() == old(self).stream() + enc_instr(rec)
                &&& (r is Some <==> final(self).stream_len() <= MAX_INSTR_BYTES)
                &&& (r matches Some(id) ==> id.spec_val() == old(self).stream_len()
                    && id.is_valid())
            },
    {
        if !self.within_limits() {
            return None;
        }
        let id = self.front_instr_id();
        proof {
            assert forall|j: int| 0 <= j < inputs@.len() implies
                (#[trigger] inputs@[j]).is_valid() by {
                assert(inputs@[j].spec_val() < old(self).stream_len());
            }
        }
        let ghost rec = InstrRec { op: *op, inputs: defn_ids(inputs@), targets: Seq::empty() };
        self.append_instr_impl(op, inputs);
        self.records = Ghost(self.records@.push(rec));
        self.num_instrs = self.num_instrs + 1;
        proof {
            lemma_enc_stream_push(old(self).recs(), rec);
            assert(enc_targets(rec.targets) =~= Seq::<u8>::empty());
            assert(enc_instr(rec) =~= op.enc() + enc_ids(defn_ids(inputs@)));
            assert(self.stream() =~= enc_stream(self.recs()));
            assert(rec_wf(rec)) by {
                assert(rec.inputs.len() == inputs@.len());
            }
            assert forall|i: int| 0 <= i < self.recs().len() implies
                rec_wf(#[trigger] self.recs()[i]) by {
                if i < old(self).recs().len() {
                    assert(self.recs()[i] == old(self).recs()[i]);
                }
            }
            assert forall|j: int| 0 <= j < rec.inputs.len() implies
                (#[trigger] rec.inputs[j]) < enc_stream(old(self).recs()).len() by {
                assert(rec.inputs[j] == inputs@[j].spec_val());
            }
            lemma_ssa_push(old(self).recs(), rec);
            lemma_enc_instr_len(rec);
            assert forall|i: int| 0 <= i < self.recs().len() implies
                #[trigger] off_of(self.recs(), i) <= MAX_INSTR_BYTES by {
                lemma_off_push(old(self).recs(), rec, i);
                if i == old(self).recs().len() {
                    assert(off_of(self.recs(), i) == old(self).stream_len());
                }
            }
        }
        if !self.within_limits() {
            return None;
        }
        Some(id)
    }

    /// Emit a terminal instruction with its target list. Returns the
    /// id, or nothing once the byte cap is passed.
    pub(crate) fn emit_end(
        &mut self,
        op: &Op,
        inputs: &Vec<Defn>,
        targets: &Vec<(BlockId, Vec<Defn>)>,
    ) -> (r: Option<InstrId>)
        requires
            old(self).wf(),
            op.spec_terminal(),
            inputs@.len() == op.spec_num_inputs(),
            targets@.len() == op.spec_num_targets(),
            forall|j: int| 0 <= j < inputs@.len()
                ==> (#[trigger] inputs@[j]).spec_val() < old(self).stream_len(),
            forall|k: int| 0 <= k < targets@.len()
                ==> (#[trigger] targets@[k]).1@.len() <= MAX_INSTR_BYTES,
            forall|k: int, j: int|
                0 <= k < targets@.len() && 0 <= j < targets@[k].1@.len()
                ==> (#[trigger] targets@[k].1@[j]).spec_val() < old(self).stream_len(),
        ensures
            final(self).wf(),
            old(self).stream_len() > MAX_INSTR_BYTES ==> {
                &&& r is None
                &&& *final(self) == *old(self)
            },
            old(self).stream_len() <= MAX_INSTR_BYTES ==> {
                let rec = InstrRec {
                    op: *op,
                    inputs: defn_ids(inputs@),
                    targets: target_recs(targets@),
                };
                &&& final(self).recs() == old(self).recs().push(rec)
                &&& final(self).stream() == old(self).stream() + enc_instr(rec)
                &&& (r is Some <==> final(self).stream_len() <= MAX_INSTR_BYTES)
                &&& (r matches Some(id) ==> id.spec_val() == old(self).stream_len()
                    && id.is_valid())
            },
    {
        if !self.within_limits() {
            return None;
        }
        let id = self.front_instr_id();
        proof {
            assert forall|j: int| 0 <= j < inputs@.len() implies
                (#[trigger] inputs@[j]).is_valid() by {
                assert(inputs@[j].spec_val() < old(self).stream_len());
            }
            assert forall|k: int, j: int|
                0 <= k < targets@.len() && 0 <= j < targets@[k].1@.len() implies
                (#[trigger] targets@[k].1@[j]).is_valid() by {
                assert(targets@[k].1@[j].spec_val() < old(self).stream_len());
            }
        }
        let ghost rec = InstrRec {
            op: *op,
            inputs: defn_ids(inputs@),
            targets: target_recs(targets@),
        };
        self.append_instr_impl(op, inputs);
        self.append_targets_impl(targets);
        self.records = Ghost(self.records@.push(rec));
        self.num_instrs = self.num_instrs + 1;
        proof {
            lemma_enc_stream_push(old(self).recs(), rec);
            assert(enc_instr(rec) =~= op.enc() + enc_ids(defn_ids(inputs@))
                + enc_targets(target_recs(targets@)));
            assert(self.stream() =~= enc_stream(self.recs()));
            assert(rec_wf(rec)) by {
                assert(rec.inputs.len() == inputs@.len());
                assert(rec.targets.len() == targets@.len());
                assert forall|k: int| 0 <= k < rec.targets.len() implies
                    (#[trigger] rec.targets[k]).phi_args.len() <= MAX_INSTR_BYTES by {
                    assert(rec.targets[k].phi_args == defn_ids(targets@[k].1@));
                }
            }
            assert forall|i: int| 0 <= i < self.recs().len() implies
                rec_wf(#[trigger] self.recs()[i]) by {
                if i < old(self).recs().len() {
                    assert(self.recs()[i] == old(self).recs()[i]);
                }
            }
            assert forall|j: int| 0 <= j < rec.inputs.len() implies
                (#[trigger] rec.inputs[j]) < enc_stream(old(self).recs()).len() by {
                assert(rec.inputs[j] == inputs@[j].spec_val());
            }
            assert forall|k: int, j: int|
                0 <= k < rec.targets.len() && 0 <= j < rec.targets[k].phi_args.len() implies
                (#[trigger] rec.targets[k].phi_args[j]) < enc_stream(old(self).recs()).len() by {
                assert(rec.targets[k].phi_args == defn_ids(targets@[k].1@));
                assert(rec.targets[k].phi_args[j] == targets@[k].1@[j].spec_val());
            }
            lemma_ssa_push(old(self).recs(), rec);
            lemma_enc_instr_len(rec);
            assert forall|i: int| 0 <= i < self.recs().len() implies
                #[trigger] off_of(self.recs(), i) <= MAX_INSTR_BYTES by {
                lemma_off_push(old(self).recs(), rec, i);
                if i == old(self).recs().len() {
                    assert(off_of(self.recs(), i) == old(self).stream_len());
                }
            }
        }
        if !self.within_limits() {
            return None;
        }
        Some(id)
    }
}

/// The ghost form of an exec target list.
pub open spec fn target_recs(ts: Seq<(BlockId, Vec<Defn>)>) -> Seq<TargetRec> {
    ts.map_values(|t: (BlockId, Vec<Defn>)| TargetRec {
        block: t.0.spec_val(),
        phi_args: defn_ids(t.1@),
    })
}

} // verus!
