//! Per-message reassembly and the per-peer supersession state machine.

use vstd::prelude::*;
use vstd::pervasive::VecAdditionalExecFns;
use crate::assoc::{entries_unique, entries_map, lemma_entries_map_entry, lemma_entries_map_card, lemma_entries_map_remove};

verus! {

// ------------------------------------------------------------------
// Wire unit types
// ------------------------------------------------------------------

/// Message identifier: a 64-bit counter assigned by one sender, compared
/// numerically for recency.
#[derive(Clone, Copy, Debug, PartialEq, Eq, Structural)]
pub struct MsgId(pub u64);

/// Position of a piece within a fragmented message: `(index, total)`, both
/// 1-based. `index` lies in `[1, total]`; `total == 1` means the message is
/// self-contained.
#[derive(Clone, Copy, Debug, PartialEq, Eq, Structural)]
pub struct PieceNum(pub u16, pub u16);

/// The immutable wire unit: message id, piece position, payload bytes.
#[derive(Debug)]
pub struct MsgChunk(pub MsgId, pub PieceNum, pub Vec<u8>);

/// A fully reassembled message: its id and the pieces' payloads concatenated
/// in ascending index order.
#[derive(Debug)]
pub struct CompleteMessage(pub MsgId, pub Vec<u8>);

// ------------------------------------------------------------------
// Mathematical models
// ------------------------------------------------------------------

/// Model of a chunk: its fields as plain mathematical values.
pub struct ChunkModel {
    pub id: u64,
    pub index: u16,
    pub total: u16,
    pub payload: Seq<u8>,
}

/// Model of a complete message.
pub struct MessageModel {
    pub id: u64,
    pub payload: Seq<u8>,
}

impl View for MsgChunk {
    type V = ChunkModel;

    open spec fn view(&self) -> ChunkModel {
        ChunkModel { id: self.0.0, index: self.1.0, total: self.1.1, payload: self.2@ }
    }
}

impl View for CompleteMessage {
    type V = MessageModel;

    open spec fn view(&self) -> MessageModel {
        MessageModel { id: self.0.0, payload: self.1@ }
    }
}

/// The piece position of a chunk is valid: 1-based index within the total.
pub open spec fn chunk_pos_valid(c: ChunkModel) -> bool {
    1 <= c.index <= c.total
}

/// Model of a reassembly stage: a fixed number of piece slots, filled
/// sparsely. Slot `i` holds the payload of piece `i + 1`.
#[verifier::ext_equal]
pub struct StageModel {
    pub total: u16,
    pub pieces: Seq<Option<Seq<u8>>>,
}

/// A stage has at least one slot and exactly `total` slots.
pub open spec fn stage_wf(st: StageModel) -> bool {
    &&& st.total >= 1
    &&& st.pieces.len() == st.total
}

/// Every slot of the stage is filled.
pub open spec fn stage_ready(st: StageModel) -> bool {
    forall|i: int| 0 <= i < st.pieces.len() ==> st.pieces[i] is Some
}

/// The payloads of the filled slots, concatenated in ascending slot order.
pub open spec fn assembled(pieces: Seq<Option<Seq<u8>>>) -> Seq<u8>
    decreases pieces.len(),
{
    if pieces.len() == 0 {
        Seq::empty()
    } else {
        assembled(pieces.drop_last()) + match pieces.last() {
            Some(p) => p,
            None => Seq::empty(),
        }
    }
}

/// How many slots are filled.
pub open spec fn filled_count(pieces: Seq<Option<Seq<u8>>>) -> nat
    decreases pieces.len(),
{
    if pieces.len() == 0 {
        0
    } else {
        filled_count(pieces.drop_last()) + if pieces.last() is Some {
            1nat
        } else {
            0nat
        }
    }
}

/// The slots of a stage freshly seeded with one chunk: empty but for the
/// chunk's own slot.
pub open spec fn new_stage_pieces(c: ChunkModel) -> Seq<Option<Seq<u8>>> {
    Seq::new(c.total as nat, |i: int| if i == c.index - 1 {
        Some(c.payload)
    } else {
        None
    })
}

/// A stage after one more chunk: the chunk's slot is filled if it was empty;
/// a duplicate index changes nothing (first-writer-wins).
pub open spec fn stage_add(st: StageModel, c: ChunkModel) -> StageModel {
    if st.pieces[c.index - 1] is Some {
        st
    } else {
        StageModel { total: st.total, pieces: st.pieces.update(c.index - 1, Some(c.payload)) }
    }
}

// ------------------------------------------------------------------
// Lemmas about the slot count
// ------------------------------------------------------------------

/// No more slots are filled than exist.
pub proof fn lemma_filled_count_le(pieces: Seq<Option<Seq<u8>>>)
    ensures
        filled_count(pieces) <= pieces.len(),
    decreases pieces.len(),
{
    if pieces.len() > 0 {
        lemma_filled_count_le(pieces.drop_last());
    }
}

/// All slots are filled exactly when the filled count reaches the slot count.
pub proof fn lemma_filled_count_full(pieces: Seq<Option<Seq<u8>>>)
    ensures
        filled_count(pieces) == pieces.len() <==> (forall|i: int|
            0 <= i < pieces.len() ==> pieces[i] is Some),
    decreases pieces.len(),
{
    if pieces.len() > 0 {
        let rest = pieces.drop_last();
        lemma_filled_count_full(rest);
        lemma_filled_count_le(rest);
        if filled_count(pieces) == pieces.len() {
            assert(forall|i: int| 0 <= i < pieces.len() ==> pieces[i] is Some) by {
                assert(forall|i: int| 0 <= i < rest.len() ==> pieces[i] == rest[i]);
            }
        } else {
            if forall|i: int| 0 <= i < pieces.len() ==> pieces[i] is Some {
                assert(forall|i: int| 0 <= i < rest.len() ==> rest[i] is Some);
                assert(pieces.last() is Some);
                assert(false);
            }
        }
    }
}

/// Filling an empty slot raises the filled count by one.
pub proof fn lemma_filled_count_update(pieces: Seq<Option<Seq<u8>>>, i: int, p: Seq<u8>)
    requires
        0 <= i < pieces.len(),
        pieces[i] is None,
    ensures
        filled_count(pieces.update(i, Some(p))) == filled_count(pieces) + 1,
    decreases pieces.len(),
{
    let upd = pieces.update(i, Some(p));
    if i == pieces.len() - 1 {
        assert(upd.drop_last() =~= pieces.drop_last());
        assert(upd.last() is Some);
    } else {
        assert(upd.drop_last() =~= pieces.drop_last().update(i, Some(p)));
        assert(upd.last() == pieces.last());
        lemma_filled_count_update(pieces.drop_last(), i, p);
    }
}

/// In a sequence of empty slots nothing is filled.
pub proof fn lemma_filled_count_none(pieces: Seq<Option<Seq<u8>>>)
    requires
        forall|i: int| 0 <= i < pieces.len() ==> pieces[i] is None,
    ensures
        filled_count(pieces) == 0,
    decreases pieces.len(),
{
    if pieces.len() > 0 {
        let rest = pieces.drop_last();
        assert(forall|i: int| 0 <= i < rest.len() ==> rest[i] is None);
        lemma_filled_count_none(rest);
    }
}

// ------------------------------------------------------------------
// ReassemblyStage: the per-message accumulator
// ------------------------------------------------------------------

/// Buffers the chunks of one message id from the first chunk seen until the
/// message completes or its stage is purged.
pub struct ReassemblyStage {
    total_pieces: u16,
    pieces: Vec<Option<Vec<u8>>>,
    filled: usize,
}

impl View for ReassemblyStage {
    type V = StageModel;

    closed spec fn view(&self) -> StageModel {
        StageModel {
            total: self.total_pieces,
            pieces: Seq::new(self.pieces@.len(), |i: int| match self.pieces@[i] {
                Some(v) => Some(v@),
                None => None,
            }),
        }
    }
}

impl ReassemblyStage {
    /// The stage's slots mirror its model and the filled counter is accurate.
    pub closed spec fn wf(&self) -> bool {
        &&& stage_wf(self@)
        &&& self.filled == filled_count(self@.pieces)
    }

    /// Start a stage from the first chunk seen for a message: `total` slots,
    /// all empty but the chunk's own.
    pub fn new(first: MsgChunk) -> (st: ReassemblyStage)
        requires
            chunk_pos_valid(first@),
        ensures
            st.wf(),
            st@.total == first@.total,
            st@.pieces == new_stage_pieces(first@),
    {
        let MsgChunk(_, PieceNum(index, total), payload) = first;
        let mut pieces: Vec<Option<Vec<u8>>> = Vec::new();
        let mut k: usize = 0;
        while k < total as usize
            invariant
                k <= total as usize,
                pieces@.len() == k,
                forall|i: int| 0 <= i < k ==> pieces@[i] is None,
            decreases total as usize - k,
        {
            pieces.push(None);
            k = k + 1;
        }
        let slot = (index - 1) as usize;
        pieces.set(slot, Some(payload));
        let st = ReassemblyStage { total_pieces: total, pieces, filled: 1 };
        proof {
            let all_none = Seq::new(total as nat, |i: int| None::<Seq<u8>>);
            assert(st@.pieces =~= all_none.update(slot as int, Some(payload@)));
            assert(forall|i: int| 0 <= i < all_none.len() ==> all_none[i] is None);
            lemma_filled_count_none(all_none);
            lemma_filled_count_update(all_none, slot as int, payload@);
            assert(st@.pieces =~= new_stage_pieces(first@));
        }
        st
    }

    /// Store the chunk's payload at its index if that slot is empty; a
    /// duplicate index is silently ignored.
    pub fn add(&mut self, chunk: MsgChunk)
        requires
            old(self).wf(),
            chunk_pos_valid(chunk@),
            chunk@.total == old(self)@.total,
        ensures
            final(self).wf(),
            final(self)@ == stage_add(old(self)@, chunk@),
    {
        let MsgChunk(_, PieceNum(index, _), payload) = chunk;
        let slot = (index - 1) as usize;
        if self.pieces[slot].is_none() {
            proof {
                lemma_filled_count_update(self@.pieces, slot as int, payload@);
                lemma_filled_count_le(self@.pieces);
            }
            self.pieces.set(slot, Some(payload));
            self.filled = self.filled + 1;
            proof {
                assert(self@.pieces =~= old(self)@.pieces.update(slot as int, Some(payload@)));
            }
        } else {
            proof {
                assert(self@ == stage_add(old(self)@, chunk@));
            }
        }
    }

    /// True exactly when every piece has arrived; pieces may arrive in any
    /// order.
    pub fn is_ready(&self) -> (r: bool)
        requires
            self.wf(),
        ensures
            r == stage_ready(self@),
    {
        proof {
            lemma_filled_count_full(self@.pieces);
        }
        self.filled == self.total_pieces as usize
    }

    /// Consume the stage and concatenate the payloads in ascending index
    /// order (not arrival order); valid only once ready.
    pub fn merge(self, id: MsgId) -> (m: CompleteMessage)
        requires
            self.wf(),
            stage_ready(self@),
        ensures
            m@.id == id.0,
            m@.payload == assembled(self@.pieces),
    {
        let n = self.pieces.len();
        let mut out: Vec<u8> = Vec::new();
        let mut k: usize = 0;
        while k < n
            invariant
                k <= n,
                n == self.pieces@.len(),
                self.wf(),
                stage_ready(self@),
                out@ == assembled(self@.pieces.take(k as int)),
            decreases n - k,
        {
            match &self.pieces[k] {
                Some(v) => {
                    out.extend_from_slice(v.as_slice());
                },
                None => {
                    proof {
                        assert(self@.pieces[k as int] is Some);
                    }
                },
            }
            proof {
                let taken = self@.pieces.take(k + 1);
                assert(taken.drop_last() =~= self@.pieces.take(k as int));
                assert(taken.last() == self@.pieces[k as int]);
            }
            k = k + 1;
        }
        proof {
            assert(self@.pieces.take(n as int) =~= self@.pieces);
        }
        CompleteMessage(id, out)
    }
}

// ------------------------------------------------------------------
// Model of the per-peer queue and its transition
// ------------------------------------------------------------------

/// Model of a per-peer message queue: the released watermark, the open
/// stages keyed by message id, and the optional cap on open stages.
#[verifier::ext_equal]
pub struct QueueModel {
    pub released: Option<u64>,
    pub stages: Map<u64, StageModel>,
    pub cap: Option<usize>,
}

/// A queue with nothing released and no open stages.
pub open spec fn fresh_queue(cap: Option<usize>) -> QueueModel {
    QueueModel { released: None, stages: Map::empty(), cap }
}

/// A message id is stale once an id at least as large has been released.
pub open spec fn queue_stale(q: QueueModel, id: u64) -> bool {
    q.released matches Some(n) && id <= n
}

/// The open stages that survive releasing `n`: exactly those with a strictly
/// larger id.
pub open spec fn purge_through(stages: Map<u64, StageModel>, n: u64) -> Map<u64, StageModel> {
    Map::new(|id: u64| stages.dom().contains(id) && id > n, |id: u64| stages[id])
}

/// Queue invariant: stages are well formed and never ready (a ready stage is
/// merged and removed at once), every open id is newer than the watermark,
/// and the cap is respected.
pub open spec fn queue_model_wf(q: QueueModel) -> bool {
    &&& q.stages.dom().finite()
    &&& forall|id: u64| #[trigger] q.stages.dom().contains(id) ==> stage_wf(q.stages[id])
        && !stage_ready(q.stages[id])
    &&& match q.released {
        Some(n) => forall|id: u64| #[trigger] q.stages.dom().contains(id) ==> id > n,
        None => true,
    }
    &&& match q.cap {
        Some(m) => q.stages.dom().len() <= m,
        None => true,
    }
}

/// One step of the supersession state machine: what inserting a chunk does
/// to a queue, and what it returns.
///
/// A stale or malformed chunk is dropped. A single-piece message completes
/// at once. Otherwise the chunk joins its stage (created on first sight,
/// unless the cap on open stages forbids it; a chunk whose piece total
/// disagrees with its stage's is dropped). When the stage becomes ready the
/// message is merged and released, and releasing purges every stage whose id
/// is not strictly newer.
pub open spec fn queue_insert(q: QueueModel, c: ChunkModel) -> (QueueModel, Option<
    MessageModel,
>) {
    if queue_stale(q, c.id) || !chunk_pos_valid(c) {
        (q, None)
    } else if c.total == 1 {
        (
            QueueModel { released: Some(c.id), stages: purge_through(q.stages, c.id), cap: q.cap },
            Some(MessageModel { id: c.id, payload: c.payload }),
        )
    } else if q.stages.dom().contains(c.id) {
        let st = q.stages[c.id];
        if c.total != st.total {
            (q, None)
        } else {
            let st2 = stage_add(st, c);
            if stage_ready(st2) {
                (
                    QueueModel {
                        released: Some(c.id),
                        stages: purge_through(q.stages, c.id),
                        cap: q.cap,
                    },
                    Some(MessageModel { id: c.id, payload: assembled(st2.pieces) }),
                )
            } else {
                (
                    QueueModel {
                        released: q.released,
                        stages: q.stages.insert(c.id, st2),
                        cap: q.cap,
                    },
                    None,
                )
            }
        }
    } else if q.cap matches Some(m) && q.stages.dom().len() >= m {
        (q, None)
    } else {
        (
            QueueModel {
                released: q.released,
                stages: q.stages.insert(c.id, StageModel { total: c.total, pieces: new_stage_pieces(c) }),
                cap: q.cap,
            },
            None,
        )
    }
}

/// The model of an optional complete message.
pub open spec fn opt_msg_model(r: Option<CompleteMessage>) -> Option<MessageModel> {
    match r {
        Some(m) => Some(m@),
        None => None,
    }
}

// ------------------------------------------------------------------
// MsgQueue: the per-peer supersession state machine
// ------------------------------------------------------------------

/// Per-peer queue: the highest released message id, the open reassembly
/// stages keyed by message id, and an optional cap on open stages. When the
/// cap is reached a chunk that would open a new stage is dropped
/// (reject-new).
pub struct MsgQueue {
    last_released: Option<u64>,
    stages: Vec<(u64, ReassemblyStage)>,
    max_open: Option<usize>,
}

impl View for MsgQueue {
    type V = QueueModel;

    closed spec fn view(&self) -> QueueModel {
        QueueModel {
            released: self.last_released,
            stages: entries_map(self.stages@),
            cap: self.max_open,
        }
    }
}

impl MsgQueue {
    /// The queue's entry list carries unique ids, well-formed stages that
    /// are never ready, only ids newer than the watermark, and no more
    /// entries than the cap allows.
    pub closed spec fn wf(&self) -> bool {
        &&& entries_unique(self.stages@)
        &&& forall|j: int|
            0 <= j < self.stages@.len() ==> (#[trigger] self.stages@[j]).1.wf() && !stage_ready(
                self.stages@[j].1@,
            )
        &&& match self.last_released {
            Some(n) => forall|j: int|
                0 <= j < self.stages@.len() ==> (#[trigger] self.stages@[j]).0 > n,
            None => true,
        }
        &&& match self.max_open {
            Some(m) => self.stages@.len() <= m,
            None => true,
        }
    }

    /// A well-formed queue has a well-formed model.
    pub proof fn lemma_wf_model(&self)
        requires
            self.wf(),
        ensures
            queue_model_wf(self@),
    {
        lemma_entries_map_card(self.stages@);
        assert forall|id: u64| #[trigger] self@.stages.dom().contains(id) implies stage_wf(
            self@.stages[id],
        ) && !stage_ready(self@.stages[id]) && (self.last_released matches Some(n) ==> id > n) by {
            let j = choose|j: int| 0 <= j < self.stages@.len() && (#[trigger] self.stages@[j]).0 == id;
            lemma_entries_map_entry(self.stages@, j);
        }
    }

    /// A fresh queue for one peer; `max_size` caps its open stages.
    pub fn new(max_size: Option<usize>) -> (q: MsgQueue)
        ensures
            q.wf(),
            q@ == fresh_queue(max_size),
    {
        let q = MsgQueue { last_released: None, stages: Vec::new(), max_open: max_size };
        proof {
            assert(q@.stages =~= Map::<u64, StageModel>::empty());
        }
        q
    }

    /// The position of the open stage for `id`, if one exists.
    fn find_stage(&self, id: u64) -> (r: Option<usize>)
        ensures
            match r {
                Some(i) => i < self.stages@.len() && self.stages@[i as int].0 == id,
                None => forall|j: int|
                    0 <= j < self.stages@.len() ==> (#[trigger] self.stages@[j]).0 != id,
            },
    {
        let n = self.stages.len();
        let mut k: usize = 0;
        while k < n
            invariant
                k <= n,
                n == self.stages@.len(),
                forall|j: int| 0 <= j < k ==> (#[trigger] self.stages@[j]).0 != id,
            decreases n - k,
        {
            if self.stages[k].0 == id {
                return Some(k);
            }
            k = k + 1;
        }
        None
    }

    /// Record `id` as released and discard every open stage that is not
    /// strictly newer (the supersession purge).
    fn mark_released(&mut self, id: u64)
        requires
            old(self).wf(),
            match old(self).last_released {
                Some(n) => id > n,
                None => true,
            },
        ensures
            final(self).wf(),
            final(self)@.released == Some(id),
            final(self)@.cap == old(self)@.cap,
            final(self)@.stages == purge_through(old(self)@.stages, id),
    {
        self.last_released = Some(id);
        let ghost orig = self.stages@;
        let mut kept: Vec<(u64, ReassemblyStage)> = Vec::new();
        while self.stages.len() > 0
            invariant
                self.last_released == Some(id),
                self.max_open == old(self).max_open,
                match self.max_open {
                    Some(m) => orig.len() <= m,
                    None => true,
                },
                forall|j: int|
                    0 <= j < kept@.len() ==> (#[trigger] kept@[j]).1.wf() && !stage_ready(
                        kept@[j].1@,
                    ),
                entries_unique(orig),
                forall|j0: int|
                    0 <= j0 < orig.len() ==> (#[trigger] orig[j0]).1.wf() && !stage_ready(
                        orig[j0].1@,
                    ),
                self.stages@ == orig.take(self.stages@.len() as int),
                self.stages@.len() <= orig.len(),
                forall|j: int| 0 <= j < kept@.len() ==> (#[trigger] kept@[j]).0 > id,
                forall|j: int| #![trigger kept@[j]]
                    0 <= j < kept@.len() ==> exists|j0: int|
                        self.stages@.len() <= j0 < orig.len() && kept@[j] == #[trigger] orig[j0],
                forall|j0: int|
                    self.stages@.len() <= j0 < orig.len() && (#[trigger] orig[j0]).0 > id
                        ==> kept@.contains(orig[j0]),
                entries_unique(kept@),
                kept@.len() + self.stages@.len() <= orig.len(),
            decreases self.stages@.len(),
        {
            let ghost kold = kept@;
            let e = self.stages.pop().unwrap();
            let ghost k = self.stages@.len() as int;
            proof {
                assert(e == orig[k]);
                assert(self.stages@ =~= orig.take(k));
                if e.0 > id {
                    assert forall|j: int|
                        0 <= j < kept@.len() implies (#[trigger] kept@[j]).0 != e.0 by {
                        let j0 = choose|j0: int|
                            k + 1 <= j0 < orig.len() && kept@[j] == #[trigger] orig[j0];
                        assert(orig[j0].0 != orig[k].0);
                    }
                }
            }
            if e.0 > id {
                kept.push(e);
            }
            proof {
                let kp = kept@;
                assert forall|j0: int|
                    k <= j0 < orig.len() && (#[trigger] orig[j0]).0 > id implies kp.contains(
                    orig[j0],
                ) by {
                    if j0 == k {
                        assert(kp[kp.len() - 1] == orig[k]);
                    } else {
                        assert(kold.contains(orig[j0]));
                        let jj = choose|jj: int| 0 <= jj < kold.len() && kold[jj] == orig[j0];
                        assert(kp[jj] == orig[j0]);
                    }
                }
                assert forall|j: int| #![trigger kp[j]] 0 <= j < kp.len() implies exists|j0: int|
                    k <= j0 < orig.len() && kp[j] == #[trigger] orig[j0] by {
                    if j < kold.len() {
                        assert(kp[j] == kold[j]);
                        let j0 = choose|j0: int|
                            k + 1 <= j0 < orig.len() && kold[j] == #[trigger] orig[j0];
                        assert(k <= j0 < orig.len() && kp[j] == orig[j0]);
                    } else {
                        assert(kp[j] == orig[k]);
                    }
                }
            }
        }
        self.stages = kept;
        proof {
            assert forall|x: u64| #![auto] entries_map(self.stages@).dom().contains(
                x,
            ) implies purge_through(entries_map(orig), id).dom().contains(x) && entries_map(
                self.stages@,
            )[x] == entries_map(orig)[x] by {
                let j = choose|j: int|
                    0 <= j < self.stages@.len() && (#[trigger] self.stages@[j]).0 == x;
                let j0 = choose|j0: int|
                    0 <= j0 < orig.len() && self.stages@[j] == #[trigger] orig[j0];
                lemma_entries_map_entry(self.stages@, j);
                lemma_entries_map_entry(orig, j0);
            }
            assert forall|x: u64| #![auto] purge_through(entries_map(orig), id).dom().contains(
                x,
            ) implies entries_map(self.stages@).dom().contains(x) by {
                let j0 = choose|j0: int| 0 <= j0 < orig.len() && (#[trigger] orig[j0]).0 == x;
                assert(self.stages@.contains(orig[j0]));
            }
            assert(entries_map(self.stages@) =~= purge_through(entries_map(orig), id));
        }
    }

    /// Run one step of the supersession state machine on an arriving chunk:
    /// drop it as stale or malformed, complete a single-piece message at
    /// once, or buffer it and complete its message when the last piece
    /// arrives. Completing a message releases its id and purges every stage
    /// that is not strictly newer.
    pub fn insert_chunk(&mut self, chunk: MsgChunk) -> (r: Option<CompleteMessage>)
        requires
            old(self).wf(),
        ensures
            final(self).wf(),
            final(self)@ == queue_insert(old(self)@, chunk@).0,
            opt_msg_model(r) == queue_insert(old(self)@, chunk@).1,
    {
        let ghost q0 = self@;
        let MsgChunk(MsgId(id), PieceNum(index, total), payload) = chunk;
        if let Some(n) = self.last_released {
            if id <= n {
                return None;
            }
        }
        if index < 1 || index > total {
            return None;
        }
        if total == 1 {
            self.mark_released(id);
            return Some(CompleteMessage(MsgId(id), payload));
        }
        match self.find_stage(id) {
            Some(i) => {
                let ghost orig = self.stages@;
                proof {
                    lemma_entries_map_entry(orig, i as int);
                }
                let (sid, mut st) = self.stages.remove(i);
                proof {
                    lemma_entries_map_remove(orig, i as int);
                }
                if st.total_pieces != total {
                    self.stages.insert(i, (sid, st));
                    proof {
                        assert(self.stages@ =~= orig);
                        assert(self@ =~= q0);
                    }
                    return None;
                }
                st.add(MsgChunk(MsgId(id), PieceNum(index, total), payload));
                if st.is_ready() {
                    let msg = st.merge(MsgId(id));
                    let ghost mid = self.stages@;
                    self.mark_released(id);
                    proof {
                        assert(entries_map(mid) == entries_map(orig).remove(id));
                        assert(purge_through(entries_map(orig).remove(id), id) =~= purge_through(
                            entries_map(orig),
                            id,
                        ));
                    }
                    return Some(msg);
                } else {
                    let ghost st2 = st@;
                    self.stages.insert(i, (sid, st));
                    proof {
                        assert(self.stages@ =~= orig.update(i as int, (sid, st)));
                        let upd = self.stages@;
                        assert forall|a: int, b: int|
                            0 <= a < b < upd.len() implies (#[trigger] upd[a]).0 != (
                        #[trigger] upd[b]).0 by {
                            assert(orig[a].0 != orig[b].0);
                        }
                        assert forall|x: u64| #![auto] entries_map(upd).dom().contains(
                            x,
                        ) implies entries_map(orig).insert(id, st2).dom().contains(x) && entries_map(
                            upd,
                        )[x] == entries_map(orig).insert(id, st2)[x] by {
                            let j = choose|j: int| 0 <= j < upd.len() && (#[trigger] upd[j]).0 == x;
                            lemma_entries_map_entry(upd, j);
                            if j == i {
                            } else {
                                lemma_entries_map_entry(orig, j);
                            }
                        }
                        assert forall|x: u64| #![auto] entries_map(orig).insert(
                            id,
                            st2,
                        ).dom().contains(x) implies entries_map(upd).dom().contains(x) by {
                            if x == id {
                                assert(upd[i as int].0 == x);
                            } else {
                                let j = choose|j: int|
                                    0 <= j < orig.len() && (#[trigger] orig[j]).0 == x;
                                assert(upd[j].0 == x);
                            }
                        }
                        assert(entries_map(upd) =~= entries_map(orig).insert(id, st2));
                    }
                    return None;
                }
            },
            None => {
                if let Some(m) = self.max_open {
                    proof {
                        lemma_entries_map_card(self.stages@);
                    }
                    if self.stages.len() >= m {
                        return None;
                    }
                }
                let ghost orig = self.stages@;
                let st = ReassemblyStage::new(MsgChunk(MsgId(id), PieceNum(index, total), payload));
                let ghost stm = st@;
                self.stages.push((id, st));
                proof {
                    lemma_entries_map_card(orig);
                    let upd = self.stages@;
                    assert(upd == orig.push((id, st)));
                    assert forall|a: int, b: int|
                        0 <= a < b < upd.len() implies (#[trigger] upd[a]).0 != (
                    #[trigger] upd[b]).0 by {
                        if b < orig.len() {
                            assert(orig[a].0 != orig[b].0);
                        } else {
                            assert(upd[b].0 == id);
                            assert(orig[a].0 != id);
                        }
                    }
                    assert forall|x: u64| #![auto] entries_map(upd).dom().contains(
                        x,
                    ) implies entries_map(orig).insert(id, stm).dom().contains(x) && entries_map(
                        upd,
                    )[x] == entries_map(orig).insert(id, stm)[x] by {
                        let j = choose|j: int| 0 <= j < upd.len() && (#[trigger] upd[j]).0 == x;
                        lemma_entries_map_entry(upd, j);
                        if j < orig.len() {
                            lemma_entries_map_entry(orig, j);
                        }
                    }
                    assert forall|x: u64| #![auto] entries_map(orig).insert(id, stm).dom().contains(
                        x,
                    ) implies entries_map(upd).dom().contains(x) by {
                        if x == id {
                            assert(upd[orig.len() as int].0 == x);
                        } else {
                            let j = choose|j: int| 0 <= j < orig.len() && (#[trigger] orig[j]).0 == x;
                            assert(upd[j].0 == x);
                        }
                    }
                    assert(entries_map(upd) =~= entries_map(orig).insert(id, stm));
                    assert(!stage_ready(stm)) by {
                        let w: int = if index == 1 { 1 } else { 0 };
                        assert(stm.pieces[w] is None);
                    }
                }
                return None;
            },
        }
    }
}

// ------------------------------------------------------------------
// Laws of the supersession state machine
// ------------------------------------------------------------------

/// Assembling a two-piece stage joins the two payloads in slot order.
proof fn lemma_two_piece_assembled(pa: Seq<u8>, pb: Seq<u8>)
    ensures
        assembled(seq![Some(pa), Some(pb)]) == pa + pb,
{
    reveal_with_fuel(assembled, 3);
    let s = seq![Some(pa), Some(pb)];
    let s1 = seq![Some(pa)];
    assert(s.drop_last() =~= s1);
    assert(s1.drop_last() =~= Seq::<Option<Seq<u8>>>::empty());
    assert(assembled(s1) == Seq::<u8>::empty() + pa);
    assert(Seq::<u8>::empty() + pa =~= pa);
    assert(assembled(s) == assembled(s1) + pb);
}

/// Inserting a chunk preserves the queue invariant.
pub proof fn lemma_queue_insert_wf(q: QueueModel, c: ChunkModel)
    requires
        queue_model_wf(q),
    ensures
        queue_model_wf(queue_insert(q, c).0),
{
    let q2 = queue_insert(q, c).0;
    if queue_stale(q, c.id) || !chunk_pos_valid(c) {
    } else if c.total == 1 || (q.stages.dom().contains(c.id) && c.total == q.stages[c.id].total
        && stage_ready(stage_add(q.stages[c.id], c))) {
        let purged = purge_through(q.stages, c.id);
        vstd::set_lib::lemma_len_subset(purged.dom(), q.stages.dom());
    } else if q.stages.dom().contains(c.id) {
        if c.total == q.stages[c.id].total {
            let st = q.stages[c.id];
            let st2 = stage_add(st, c);
            assert(stage_wf(st2));
            assert(q2.stages.dom() =~= q.stages.dom());
        }
    } else if !(q.cap matches Some(m) && q.stages.dom().len() >= m) {
        let st = StageModel { total: c.total, pieces: new_stage_pieces(c) };
        assert(stage_wf(st));
        assert(!stage_ready(st)) by {
            let w: int = if c.index == 1 {
                1
            } else {
                0
            };
            assert(st.pieces[w] is None);
        }
        assert(q2.stages.dom() =~= q.stages.dom().insert(c.id));
    }
}

/// Single-piece fast path: a fresh chunk that is its whole message
/// completes at once with its own payload, moves the released watermark to
/// its id, and opens no stage.
pub proof fn lemma_single_piece_fast_path(q: QueueModel, c: ChunkModel)
    requires
        !queue_stale(q, c.id),
        c.index == 1,
        c.total == 1,
    ensures
        queue_insert(q, c).1 == Some(MessageModel { id: c.id, payload: c.payload }),
        queue_insert(q, c).0.released == Some(c.id),
        !queue_insert(q, c).0.stages.dom().contains(c.id),
{
}

/// Staleness rejection: once `n` has been released, a chunk whose id is not
/// strictly newer is dropped without effect, whatever it holds.
pub proof fn lemma_stale_rejected(q: QueueModel, c: ChunkModel, n: u64)
    requires
        q.released == Some(n),
        c.id <= n,
    ensures
        queue_insert(q, c) == (q, None::<MessageModel>),
{
}

/// Order-independent reassembly: the two pieces of a two-piece message may
/// arrive in either order; the first buffers silently and the second
/// completes the message with the payloads joined in index order.
pub proof fn lemma_two_piece_order_independent(q: QueueModel, id: u64, p1: Seq<u8>, p2: Seq<u8>)
    requires
        queue_model_wf(q),
        !queue_stale(q, id),
        !q.stages.dom().contains(id),
        match q.cap {
            Some(m) => q.stages.dom().len() < m,
            None => true,
        },
    ensures
        ({
            let c1 = ChunkModel { id, index: 1, total: 2, payload: p1 };
            let c2 = ChunkModel { id, index: 2, total: 2, payload: p2 };
            let (qa, ra) = queue_insert(q, c1);
            let (_, rb) = queue_insert(qa, c2);
            ra == None::<MessageModel> && rb == Some(MessageModel { id, payload: p1 + p2 })
        }),
        ({
            let c1 = ChunkModel { id, index: 1, total: 2, payload: p1 };
            let c2 = ChunkModel { id, index: 2, total: 2, payload: p2 };
            let (qa, ra) = queue_insert(q, c2);
            let (_, rb) = queue_insert(qa, c1);
            ra == None::<MessageModel> && rb == Some(MessageModel { id, payload: p1 + p2 })
        }),
{
    let c1 = ChunkModel { id, index: 1, total: 2, payload: p1 };
    let c2 = ChunkModel { id, index: 2, total: 2, payload: p2 };
    let both = seq![Some(p1), Some(p2)];
    lemma_two_piece_assembled(p1, p2);
    {
        let (qa, _) = queue_insert(q, c1);
        let st = StageModel { total: 2, pieces: new_stage_pieces(c1) };
        assert(qa.stages[id] == st);
        let st2 = stage_add(st, c2);
        assert(st.pieces[1] is None);
        assert(st2.pieces =~= both);
        assert(stage_ready(st2));
    }
    {
        let (qa, _) = queue_insert(q, c2);
        let st = StageModel { total: 2, pieces: new_stage_pieces(c2) };
        assert(qa.stages[id] == st);
        let st2 = stage_add(st, c1);
        assert(st.pieces[0] is None);
        assert(st2.pieces =~= both);
        assert(stage_ready(st2));
    }
}

/// Duplicate idempotence: feeding the very same chunk a second time is a
/// no-op — it returns nothing and leaves the queue exactly as the first
/// insert left it, so a duplicate can neither trigger readiness early nor
/// change what a later merge yields.
pub proof fn lemma_duplicate_chunk_idempotent(q: QueueModel, c: ChunkModel)
    requires
        queue_model_wf(q),
    ensures
        ({
            let (q1, _) = queue_insert(q, c);
            queue_insert(q1, c) == (q1, None::<MessageModel>)
        }),
{
    let (q1, _) = queue_insert(q, c);
    if queue_stale(q, c.id) || !chunk_pos_valid(c) {
    } else if c.total == 1 {
        assert(queue_stale(q1, c.id));
    } else if q.stages.dom().contains(c.id) {
        let st = q.stages[c.id];
        if c.total != st.total {
        } else {
            let st2 = stage_add(st, c);
            if stage_ready(st2) {
                assert(queue_stale(q1, c.id));
            } else {
                assert(q1.stages[c.id] == st2);
                assert(st2.pieces[c.index - 1] is Some);
                assert(stage_add(st2, c) == st2);
                assert(q1.stages.insert(c.id, st2) =~= q1.stages);
                assert(queue_insert(q1, c).0 =~= q1);
            }
        }
    } else if q.cap matches Some(m) && q.stages.dom().len() >= m {
    } else {
        let st = StageModel { total: c.total, pieces: new_stage_pieces(c) };
        assert(q1.stages[c.id] == st);
        assert(st.pieces[c.index - 1] is Some);
        assert(stage_add(st, c) == st);
        assert(!stage_ready(st)) by {
            let w: int = if c.index == 1 {
                1
            } else {
                0
            };
            assert(st.pieces[w] is None);
        }
        assert(q1.stages.insert(c.id, st) =~= q1.stages);
        assert(queue_insert(q1, c).0 =~= q1);
    }
}

/// Supersession purge: the moment a chunk completes its message, every
/// older open stage is discarded, and every older id is stale from then on
/// — a fresh chunk for it can never complete it again.
pub proof fn lemma_supersession_purge(q: QueueModel, c: ChunkModel, a: u64)
    requires
        queue_model_wf(q),
        queue_insert(q, c).1 is Some,
        a < c.id,
    ensures
        !queue_insert(q, c).0.stages.dom().contains(a),
        queue_stale(queue_insert(q, c).0, a),
{
}

/// Independent concurrent ids: two interleaved two-piece messages both
/// complete, each with its own payloads, when the older completes first and
/// so never purges the newer one's stage.
pub proof fn lemma_interleaved_messages(
    q: QueueModel,
    id1: u64,
    id2: u64,
    pa1: Seq<u8>,
    pa2: Seq<u8>,
    pb1: Seq<u8>,
    pb2: Seq<u8>,
)
    requires
        queue_model_wf(q),
        !queue_stale(q, id1),
        !queue_stale(q, id2),
        id1 < id2,
        !q.stages.dom().contains(id1),
        !q.stages.dom().contains(id2),
        match q.cap {
            Some(m) => q.stages.dom().len() + 2 <= m,
            None => true,
        },
    ensures
        ({
            let (qa, ra) = queue_insert(q, ChunkModel { id: id1, index: 1, total: 2, payload: pa1 });
            let (qb, rb) = queue_insert(qa, ChunkModel { id: id2, index: 1, total: 2, payload: pb1 });
            let (qc, rc) = queue_insert(qb, ChunkModel { id: id1, index: 2, total: 2, payload: pa2 });
            let (_, rd) = queue_insert(qc, ChunkModel { id: id2, index: 2, total: 2, payload: pb2 });
            &&& ra == None::<MessageModel>
            &&& rb == None::<MessageModel>
            &&& rc == Some(MessageModel { id: id1, payload: pa1 + pa2 })
            &&& rd == Some(MessageModel { id: id2, payload: pb1 + pb2 })
        }),
{
    let ca1 = ChunkModel { id: id1, index: 1, total: 2, payload: pa1 };
    let ca2 = ChunkModel { id: id1, index: 2, total: 2, payload: pa2 };
    let cb1 = ChunkModel { id: id2, index: 1, total: 2, payload: pb1 };
    let cb2 = ChunkModel { id: id2, index: 2, total: 2, payload: pb2 };
    lemma_two_piece_assembled(pa1, pa2);
    lemma_two_piece_assembled(pb1, pb2);
    let both_a = seq![Some(pa1), Some(pa2)];
    let both_b = seq![Some(pb1), Some(pb2)];
    let sta = StageModel { total: 2, pieces: new_stage_pieces(ca1) };
    let stb = StageModel { total: 2, pieces: new_stage_pieces(cb1) };
    let (qa, _) = queue_insert(q, ca1);
    assert(qa.stages =~= q.stages.insert(id1, sta));
    let (qb, _) = queue_insert(qa, cb1);
    assert(qb.stages =~= qa.stages.insert(id2, stb));
    assert(qb.stages[id1] == sta);
    let (qc, rc) = queue_insert(qb, ca2);
    let sta2 = stage_add(sta, ca2);
    assert(sta.pieces[1] is None);
    assert(sta2.pieces =~= both_a);
    assert(stage_ready(sta2));
    assert(rc == Some(MessageModel { id: id1, payload: pa1 + pa2 }));
    assert(qc.released == Some(id1));
    assert(qc.stages == purge_through(qb.stages, id1));
    assert(qc.stages.dom().contains(id2));
    assert(qc.stages[id2] == stb);
    assert(!queue_stale(qc, id2));
    let (_, rd) = queue_insert(qc, cb2);
    let stb2 = stage_add(stb, cb2);
    assert(stb.pieces[1] is None);
    assert(stb2.pieces =~= both_b);
    assert(stage_ready(stb2));
    assert(rd == Some(MessageModel { id: id2, payload: pb1 + pb2 }));
}

} // verus!
