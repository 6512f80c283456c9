//! The receiving side: address filtering and demultiplexing inbound
//! datagrams into independent per-peer message queues.

use std::collections::VecDeque;
use vstd::prelude::*;
use crate::assoc::{
    entries_unique, entries_map, lemma_entries_map_entry, lemma_entries_map_push,
    lemma_entries_map_remove,
};
use crate::codec::{chunk_bytes, MAX_DATAGRAM_LEN};
use crate::msgqueue::{
    ChunkModel, CompleteMessage, MessageModel, MsgChunk, MsgId, MsgQueue, PieceNum, QueueModel,
    fresh_queue, opt_msg_model, queue_insert,
};
use crate::{UnrError, UnrResult};

verus! {

/// A remote endpoint as the library sees it: an IP address held as one
/// 128-bit value (a 4-byte address is carried in its 16-byte mapped form),
/// the address family, and a port. The family keeps a 4-byte address and
/// the 16-byte address it maps to apart as peers.
#[derive(Clone, Copy, Debug, PartialEq, Eq, Hash, Structural)]
pub struct PeerAddr {
    pub ip: u128,
    pub v6: bool,
    pub port: u16,
}

/// Which source addresses a receiver admits: only the listed ones
/// (whitelist), or all but the listed ones (blacklist).
pub enum ReceiverFilter {
    Whitelist(Vec<PeerAddr>),
    Blacklist(Vec<PeerAddr>),
}

impl ReceiverFilter {
    /// Whether the filter lets a datagram from `addr` through.
    pub open spec fn admits(&self, addr: PeerAddr) -> bool {
        match self {
            ReceiverFilter::Whitelist(list) => list@.contains(addr),
            ReceiverFilter::Blacklist(list) => !list@.contains(addr),
        }
    }

    /// A blacklist with no members: every address is admitted.
    pub fn empty_blacklist() -> (f: ReceiverFilter)
        ensures
            forall|a: PeerAddr| f.admits(a),
    {
        ReceiverFilter::Blacklist(Vec::new())
    }

    /// Evaluate the filter on one source address.
    pub fn allow_through(&self, addr: &PeerAddr) -> (r: bool)
        ensures
            r == self.admits(*addr),
    {
        match self {
            ReceiverFilter::Whitelist(list) => contains_addr(list, addr),
            ReceiverFilter::Blacklist(list) => !contains_addr(list, addr),
        }
    }
}

/// Whether `addr` occurs in `list`.
fn contains_addr(list: &Vec<PeerAddr>, addr: &PeerAddr) -> (r: bool)
    ensures
        r == list@.contains(*addr),
{
    let n = list.len();
    let mut k: usize = 0;
    while k < n
        invariant
            k <= n,
            n == list@.len(),
            forall|j: int| 0 <= j < k ==> list@[j] != *addr,
        decreases n - k,
    {
        if list[k].ip == addr.ip && list[k].v6 == addr.v6 && list[k].port == addr.port {
            return true;
        }
        k = k + 1;
    }
    false
}

/// One or more resolved destination addresses for an outbound message.
#[derive(Clone, Debug)]
pub struct AddrsContainer {
    v: Vec<PeerAddr>,
}

impl View for AddrsContainer {
    type V = Seq<PeerAddr>;

    closed spec fn view(&self) -> Seq<PeerAddr> {
        self.v@
    }
}

impl AddrsContainer {
    /// Wrap an already-resolved list of addresses.
    pub fn from_vec(v: Vec<PeerAddr>) -> (r: AddrsContainer)
        ensures
            r@ == v@,
    {
        AddrsContainer { v }
    }

    /// The addresses, in order.
    pub fn addr_at(&self, k: usize) -> (a: PeerAddr)
        requires
            k < self@.len(),
        ensures
            a == self@[k as int],
    {
        self.v[k]
    }

    /// How many addresses the container holds.
    pub fn len(&self) -> (n: usize)
        ensures
            n == self@.len(),
    {
        self.v.len()
    }

    /// An identical container (the addresses are plain values).
    pub fn dup(&self) -> (r: AddrsContainer)
        ensures
            r@ == self@,
    {
        let n = self.v.len();
        let mut v: Vec<PeerAddr> = Vec::new();
        let mut k: usize = 0;
        while k < n
            invariant
                k <= n,
                n == self.v@.len(),
                v@ == self.v@.take(k as int),
            decreases n - k,
        {
            v.push(self.v[k]);
            proof {
                assert(v@ =~= self.v@.take(k + 1));
            }
            k = k + 1;
        }
        proof {
            assert(self.v@.take(n as int) =~= self.v@);
        }
        AddrsContainer { v }
    }
}

// ------------------------------------------------------------------
// The receiver model
// ------------------------------------------------------------------

/// What the receiver holds for a peer: its queue's model, or a fresh queue
/// on first contact.
pub open spec fn peer_state(
    peers: Map<PeerAddr, QueueModel>,
    a: PeerAddr,
    cap: Option<usize>,
) -> QueueModel {
    if peers.dom().contains(a) {
        peers[a]
    } else {
        fresh_queue(cap)
    }
}

/// Feeding one chunk from a peer: that peer's queue takes one step of the
/// supersession state machine; every other peer's queue is untouched.
pub open spec fn recv_accept(
    peers: Map<PeerAddr, QueueModel>,
    cap: Option<usize>,
    from: PeerAddr,
    c: ChunkModel,
) -> (Map<PeerAddr, QueueModel>, Option<MessageModel>) {
    let step = queue_insert(peer_state(peers, from, cap), c);
    (peers.insert(from, step.0), step.1)
}

/// Peer isolation: a chunk from one peer leaves every other peer's state
/// exactly as it was.
pub proof fn lemma_peer_isolation(
    peers: Map<PeerAddr, QueueModel>,
    cap: Option<usize>,
    from: PeerAddr,
    c: ChunkModel,
    other: PeerAddr,
)
    requires
        other != from,
    ensures
        peer_state(recv_accept(peers, cap, from, c).0, other, cap) == peer_state(
            peers,
            other,
            cap,
        ),
{
}

// ------------------------------------------------------------------
// Receiver: the demultiplexer
// ------------------------------------------------------------------

/// The receiving core: one message queue per source address, created
/// lazily on first contact, behind an address filter.
pub struct Receiver {
    queue: Vec<(PeerAddr, MsgQueue)>,
    /// Cap handed to each newly created peer queue: its limit on
    /// concurrently open stages.
    pub max_connection_size: Option<usize>,
    /// Checked before any other processing of a datagram.
    pub filter: ReceiverFilter,
}

impl Receiver {
    /// The per-peer queues the receiver holds.
    pub closed spec fn peers(&self) -> Map<PeerAddr, QueueModel> {
        entries_map(self.queue@)
    }

    /// The cap handed to each newly created peer queue.
    pub closed spec fn spec_max_connection_size(&self) -> Option<usize> {
        self.max_connection_size
    }

    /// The address filter in force.
    pub closed spec fn spec_filter(&self) -> ReceiverFilter {
        self.filter
    }

    /// One entry per peer, each queue well formed.
    pub closed spec fn wf(&self) -> bool {
        &&& entries_unique(self.queue@)
        &&& forall|j: int| 0 <= j < self.queue@.len() ==> (#[trigger] self.queue@[j]).1.wf()
    }

    /// A receiver with no peers yet.
    pub fn new(max_connection_size: Option<usize>, filter: ReceiverFilter) -> (r: Receiver)
        ensures
            r.wf(),
            r.peers() == Map::<PeerAddr, QueueModel>::empty(),
            r.spec_max_connection_size() == max_connection_size,
            r.spec_filter() == filter,
    {
        let r = Receiver { queue: Vec::new(), max_connection_size, filter };
        proof {
            assert(r.peers() =~= Map::<PeerAddr, QueueModel>::empty());
        }
        r
    }

    /// The position of the queue for `addr`, if one exists.
    fn find_peer(&self, addr: &PeerAddr) -> (r: Option<usize>)
        ensures
            match r {
                Some(i) => i < self.queue@.len() && self.queue@[i as int].0 == *addr,
                None => forall|j: int|
                    0 <= j < self.queue@.len() ==> (#[trigger] self.queue@[j]).0 != *addr,
            },
    {
        let n = self.queue.len();
        let mut k: usize = 0;
        while k < n
            invariant
                k <= n,
                n == self.queue@.len(),
                forall|j: int| 0 <= j < k ==> (#[trigger] self.queue@[j]).0 != *addr,
            decreases n - k,
        {
            if self.queue[k].0.ip == addr.ip && self.queue[k].0.v6 == addr.v6 && self.queue[k].0.port
                == addr.port {
                return Some(k);
            }
            k = k + 1;
        }
        None
    }

    /// Feed one already-decoded chunk from a peer into that peer's queue,
    /// creating the queue on first contact; returns the completed message
    /// if the chunk finished one.
    pub fn accept_chunk(&mut self, from: PeerAddr, chunk: MsgChunk) -> (r: Option<
        CompleteMessage,
    >)
        requires
            old(self).wf(),
        ensures
            final(self).wf(),
            final(self).spec_max_connection_size() == old(self).spec_max_connection_size(),
            final(self).spec_filter() == old(self).spec_filter(),
            final(self).peers() == recv_accept(
                old(self).peers(),
                old(self).spec_max_connection_size(),
                from,
                chunk@,
            ).0,
            opt_msg_model(r) == recv_accept(
                old(self).peers(),
                old(self).spec_max_connection_size(),
                from,
                chunk@,
            ).1,
    {
        let ghost orig = self.queue@;
        match self.find_peer(&from) {
            Some(i) => {
                proof {
                    lemma_entries_map_entry(orig, i as int);
                }
                let (addr, mut q) = self.queue.remove(i);
                proof {
                    lemma_entries_map_remove(orig, i as int);
                }
                let r = q.insert_chunk(chunk);
                let ghost qm = q@;
                proof {
                    let rem = orig.remove(i as int);
                    assert(forall|j: int|
                        0 <= j < rem.len() ==> (#[trigger] rem[j]).0 != from) by {
                        assert(forall|j: int|
                            0 <= j < rem.len() ==> rem[j] == orig[if j < i as int {
                                j
                            } else {
                                j + 1
                            }]);
                    }
                    lemma_entries_map_push(rem, from, q);
                }
                self.queue.push((addr, q));
                proof {
                    assert(self.queue@ == orig.remove(i as int).push((from, q)));
                    assert(entries_map(self.queue@) =~= entries_map(orig).insert(from, qm));
                }
                r
            },
            None => {
                let mut q = MsgQueue::new(self.max_connection_size);
                let r = q.insert_chunk(chunk);
                let ghost qm = q@;
                proof {
                    lemma_entries_map_push(orig, from, q);
                }
                self.queue.push((from, q));
                r
            },
        }
    }

    /// Process one inbound datagram: apply the address filter first — a
    /// filtered datagram is dropped silently — then decode it and feed the
    /// chunk to the sending peer's queue. A datagram that does not decode
    /// surfaces `DecodingError` and changes nothing.
    pub fn handle_datagram(&mut self, from: PeerAddr, data: &[u8]) -> (r: UnrResult<
        Option<CompleteMessage>,
    >)
        requires
            old(self).wf(),
        ensures
            final(self).wf(),
            final(self).spec_max_connection_size() == old(self).spec_max_connection_size(),
            final(self).spec_filter() == old(self).spec_filter(),
            !old(self).spec_filter().admits(from) ==> final(self).peers() == old(self).peers() && r
                == Ok::<Option<CompleteMessage>, UnrError>(None),
            r matches Err(e) ==> e == UnrError::DecodingError && final(self).peers() == old(
                self,
            ).peers() && old(self).spec_filter().admits(from),
            forall|id: u64, index: u16, total: u16, payload: Seq<u8>|
                old(self).spec_filter().admits(from) && data@ == #[trigger] chunk_bytes(
                    id,
                    index,
                    total,
                    payload,
                ) && data@.len() <= MAX_DATAGRAM_LEN ==> {
                    let step = recv_accept(
                        old(self).peers(),
                        old(self).spec_max_connection_size(),
                        from,
                        ChunkModel { id, index, total, payload },
                    );
                    &&& final(self).peers() == step.0
                    &&& r matches Ok(rr) && opt_msg_model(rr) == step.1
                },
            old(self).spec_filter().admits(from) ==> (r matches Ok(rr) ==> exists|c: ChunkModel|
                final(self).peers() == (#[trigger] recv_accept(
                    old(self).peers(),
                    old(self).spec_max_connection_size(),
                    from,
                    c,
                )).0 && opt_msg_model(rr) == recv_accept(
                    old(self).peers(),
                    old(self).spec_max_connection_size(),
                    from,
                    c,
                ).1),
    {
        if !self.filter.allow_through(&from) {
            return Ok(None);
        }
        match crate::codec::decode_chunk(data) {
            Ok(chunk) => {
                let ghost c = chunk@;
                let r = self.accept_chunk(from, chunk);
                Ok(r)
            },
            Err(e) => Err(e),
        }
    }

    /// Drop all reassembly state for one peer: its released watermark and
    /// every open stage. The next message from that peer starts
    /// supersession tracking from scratch.
    pub fn clear_addr(&mut self, addr: &PeerAddr)
        requires
            old(self).wf(),
        ensures
            final(self).wf(),
            final(self).spec_max_connection_size() == old(self).spec_max_connection_size(),
            final(self).spec_filter() == old(self).spec_filter(),
            final(self).peers() == old(self).peers().remove(*addr),
    {
        let ghost orig = self.queue@;
        match self.find_peer(addr) {
            Some(i) => {
                proof {
                    lemma_entries_map_remove(orig, i as int);
                }
                let _ = self.queue.remove(i);
            },
            None => {
                proof {
                    assert(!self.peers().dom().contains(*addr));
                    assert(self.peers().remove(*addr) =~= self.peers());
                }
            },
        }
    }
}

// ------------------------------------------------------------------
// Sender: fragmentation, replication, and the outbound queue
// ------------------------------------------------------------------

/// Fixed protocol overhead subtracted from the datagram length when sizing
/// a fragment's payload.
pub const MSG_PADDING: u16 = 32;

/// A fragment's payload capacity for a given datagram length.
pub open spec fn spec_capacity(datagram_length: u16) -> int {
    datagram_length - MSG_PADDING
}

/// How many pieces a message of `len` bytes needs at capacity `cap`:
/// ceiling division, so a final partial fragment still gets a piece.
pub open spec fn spec_num_pieces(len: int, cap: int) -> int {
    (len + cap - 1) / cap
}

/// The payload of piece `k` (0-based): the k-th capacity-sized slice of the
/// message, the final slice possibly shorter.
pub open spec fn piece_payload(msg: Seq<u8>, cap: int, k: int) -> Seq<u8> {
    msg.subrange(
        k * cap,
        if (k + 1) * cap <= msg.len() {
            (k + 1) * cap
        } else {
            msg.len() as int
        },
    )
}

/// Entry `e` of the outbound queue is piece `k` (0-based) of `msg` under
/// message id `id`, destined for `dest`.
pub open spec fn is_piece_entry(
    e: (MsgChunk, AddrsContainer),
    id: u64,
    msg: Seq<u8>,
    cap: int,
    k: int,
    dest: Seq<PeerAddr>,
) -> bool {
    &&& e.0@.id == id
    &&& e.0@.index == k + 1
    &&& e.0@.total == spec_num_pieces(msg.len() as int, cap)
    &&& e.0@.payload == piece_payload(msg, cap, k)
    &&& e.1@ == dest
}

/// The ceiling piece count is exactly the multiple of `cap` that first
/// covers `len`.
pub proof fn lemma_num_pieces_bounds(len: int, cap: int)
    requires
        cap >= 1,
        len >= 0,
    ensures
        spec_num_pieces(len, cap) * cap >= len,
        spec_num_pieces(len, cap) * cap < len + cap,
        spec_num_pieces(len, cap) >= 0,
{
    let x = len + cap - 1;
    vstd::arithmetic::div_mod::lemma_fundamental_div_mod(x, cap);
    let np = x / cap;
    let m = x % cap;
    assert(x == cap * np + m);
    assert(0 <= m < cap);
    assert(np * cap == cap * np) by (nonlinear_arith);
    if np < 0 {
        vstd::arithmetic::mul::lemma_mul_inequality(np, -1, cap);
        assert((-1) * cap == -cap) by (nonlinear_arith);
        assert(false);
    }
}

/// With the message no longer than `cap * u16::MAX` bytes, the piece count
/// fits a u16.
pub proof fn lemma_num_pieces_fits(len: int, cap: int)
    requires
        cap >= 1,
        0 <= len,
        len <= cap * 0xffff,
    ensures
        0 <= spec_num_pieces(len, cap) <= 0xffff,
{
    lemma_num_pieces_bounds(len, cap);
    let np = spec_num_pieces(len, cap);
    if np > 0xffff {
        vstd::arithmetic::mul::lemma_mul_inequality(0x10000, np, cap);
        assert(cap * 0xffff + cap == cap * 0x10000) by (nonlinear_arith);
        assert(0x10000 * cap == cap * 0x10000) by (nonlinear_arith);
        assert(false);
    }
}

/// Copy `v[start .. end]` into a fresh vector.
fn copy_range(v: &Vec<u8>, start: usize, end: usize) -> (r: Vec<u8>)
    requires
        start <= end <= v@.len(),
    ensures
        r@ == v@.subrange(start as int, end as int),
{
    let mut r: Vec<u8> = Vec::new();
    let mut k: usize = start;
    while k < end
        invariant
            start <= k <= end <= v@.len(),
            r@ == v@.subrange(start as int, k as int),
        decreases end - k,
    {
        r.push(v[k]);
        proof {
            assert(r@ =~= v@.subrange(start as int, k + 1));
        }
        k = k + 1;
    }
    r
}

/// The sending core: assigns message ids, fragments messages into
/// capacity-sized chunks, and queues them for the transport.
pub struct Sender {
    out_queue: VecDeque<(MsgChunk, AddrsContainer)>,
    last_id: u64,
    /// The largest datagram the transport carries; an encoded chunk must
    /// fit in it.
    pub datagram_length: u16,
    /// How many times each message's full chunk set is enqueued, with
    /// identical ids and piece positions. Positive; almost always 1.
    pub replication: u8,
}

impl Sender {
    /// The outbound queue, oldest entry first.
    pub closed spec fn spec_queue(&self) -> Seq<(MsgChunk, AddrsContainer)> {
        self.out_queue@
    }

    /// The last message id assigned.
    pub closed spec fn spec_last_id(&self) -> u64 {
        self.last_id
    }

    /// The configured datagram length.
    pub closed spec fn spec_datagram_length(&self) -> u16 {
        self.datagram_length
    }

    /// The configured replication factor.
    pub closed spec fn spec_replication(&self) -> u8 {
        self.replication
    }

    /// A sender with an empty outbound queue and no message ids assigned
    /// yet. The datagram length must leave room for the protocol overhead.
    pub fn new(datagram_length: u16, replication: u8) -> (s: Sender)
        requires
            datagram_length > MSG_PADDING,
            replication >= 1,
        ensures
            s.spec_queue() == Seq::<(MsgChunk, AddrsContainer)>::empty(),
            s.spec_last_id() == 0,
            s.spec_datagram_length() == datagram_length,
            s.spec_replication() == replication,
    {
        Sender { out_queue: VecDeque::new(), last_id: 0, datagram_length, replication }
    }

    /// The last message id assigned, 0 before any message was enqueued.
    pub fn last_message_id(&self) -> (n: u64)
        ensures
            n == self.spec_last_id(),
    {
        self.last_id
    }

    /// Whether the outbound queue is empty.
    pub fn is_queue_empty(&self) -> (r: bool)
        ensures
            r == (self.spec_queue().len() == 0),
    {
        self.out_queue.len() == 0
    }

    /// How many chunks wait in the outbound queue.
    pub fn queue_len(&self) -> (n: usize)
        ensures
            n == self.spec_queue().len(),
    {
        self.out_queue.len()
    }

    /// Fragment `message` into consecutive capacity-sized slices (the final
    /// slice possibly shorter), number them 1-based over a ceiling-division
    /// piece count, and append them to the outbound queue under the next
    /// message id — `replication` times over, with identical ids and piece
    /// positions.
    pub fn enqueue(&mut self, message: Vec<u8>, addrs: AddrsContainer)
        requires
            old(self).spec_last_id() < u64::MAX,
            old(self).spec_datagram_length() > MSG_PADDING,
            message@.len() <= spec_capacity(old(self).spec_datagram_length()) * 0xffff,
        ensures
            final(self).spec_last_id() == old(self).spec_last_id() + 1,
            final(self).spec_datagram_length() == old(self).spec_datagram_length(),
            final(self).spec_replication() == old(self).spec_replication(),
            ({
                let cap = spec_capacity(old(self).spec_datagram_length());
                let np = spec_num_pieces(message@.len() as int, cap);
                let base = old(self).spec_queue().len();
                &&& final(self).spec_queue().len() == base + old(self).spec_replication() * np
                &&& (forall|k: int|
                    0 <= k < base ==> final(self).spec_queue()[k] == old(self).spec_queue()[k])
                &&& (forall|r: int, k: int|
                    0 <= r < old(self).spec_replication() && 0 <= k < np ==> is_piece_entry(
                        #[trigger] final(self).spec_queue()[base + r * np + k],
                        (old(self).spec_last_id() + 1) as u64,
                        message@,
                        cap,
                        k,
                        addrs@,
                    ))
            }),
    {
        self.last_id = self.last_id + 1;
        let id = self.last_id;
        let cap: usize = (self.datagram_length - MSG_PADDING) as usize;
        let len: usize = message.len();
        let ghost capg: int = cap as int;
        let ghost np: int = spec_num_pieces(len as int, capg);
        let ghost base: int = self.out_queue@.len() as int;
        let ghost orig = self.out_queue@;
        proof {
            lemma_num_pieces_bounds(len as int, capg);
            lemma_num_pieces_fits(len as int, capg);
            vstd::arithmetic::mul::lemma_mul_inequality(capg, 0xffff, 0x10000);
            assert(capg * 0xffff + capg == capg * 0x10000) by (nonlinear_arith);
        }
        let total: u16 = ((len + cap - 1) / cap) as u16;
        let mut r: u8 = 0;
        while r < self.replication
            invariant
                self.last_id == id,
                id == old(self).spec_last_id() + 1,
                self.datagram_length == old(self).spec_datagram_length(),
                self.replication == old(self).spec_replication(),
                capg == cap as int,
                capg == spec_capacity(self.datagram_length),
                cap >= 1,
                len == message@.len(),
                np == spec_num_pieces(len as int, capg),
                np * capg >= len,
                np * capg < len + capg,
                0 <= np <= 0xffff,
                total as int == np,
                base == orig.len(),
                r <= self.replication,
                self.out_queue@.len() == base + r * np,
                forall|j: int| 0 <= j < base ==> self.out_queue@[j] == orig[j],
                forall|j: int|
                    base <= j < self.out_queue@.len() ==> is_piece_entry(
                        #[trigger] self.out_queue@[j],
                        id,
                        message@,
                        capg,
                        (j - base) % np,
                        addrs@,
                    ),
            decreases self.replication - r,
        {
            let ghost round_base: int = self.out_queue@.len() as int;
            let mut start: usize = 0;
            let mut k: u16 = 0;
            while start < len
                invariant
                    self.last_id == id,
                    id == old(self).spec_last_id() + 1,
                    self.datagram_length == old(self).spec_datagram_length(),
                    self.replication == old(self).spec_replication(),
                    capg == cap as int,
                    capg == spec_capacity(self.datagram_length),
                    cap >= 1,
                    len == message@.len(),
                    np == spec_num_pieces(len as int, capg),
                    np * capg >= len,
                    np * capg < len + capg,
                    0 <= np <= 0xffff,
                    total as int == np,
                    base == orig.len(),
                    round_base == base + r * np,
                    r < self.replication,
                    start as int == if k as int * capg <= len as int {
                        k as int * capg
                    } else {
                        len as int
                    },
                    k as int * capg < len + capg,
                    k as int <= np,
                    self.out_queue@.len() == round_base + k as int,
                    forall|j: int| 0 <= j < base ==> self.out_queue@[j] == orig[j],
                    forall|j: int|
                        base <= j < self.out_queue@.len() ==> is_piece_entry(
                            #[trigger] self.out_queue@[j],
                            id,
                            message@,
                            capg,
                            (j - base) % np,
                            addrs@,
                        ),
                decreases len - start,
            {
                proof {
                    assert(k as int * capg <= len as int && start as int == k as int * capg);
                    if k as int >= np {
                        vstd::arithmetic::mul::lemma_mul_inequality(np, k as int, capg);
                        assert(false);
                    }
                }
                let this_len: usize = if len - start >= cap {
                    cap
                } else {
                    len - start
                };
                let payload = copy_range(&message, start, start + this_len);
                let chunk = MsgChunk(MsgId(id), PieceNum(k + 1, total), payload);
                self.out_queue.push_back((chunk, addrs.dup()));
                proof {
                    let ki = k as int;
                    assert((ki + 1) * capg == ki * capg + capg) by (nonlinear_arith);
                    assert(piece_payload(message@, capg, ki) =~= message@.subrange(
                        start as int,
                        start as int + this_len as int,
                    ));
                    let j0 = round_base + ki;
                    assert(j0 - base == r * np + ki);
                    vstd::arithmetic::div_mod::lemma_fundamental_div_mod_converse(
                        r * np + ki,
                        np,
                        r as int,
                        ki,
                    );
                    assert((j0 - base) % np == ki);
                    assert(is_piece_entry(
                        self.out_queue@[j0],
                        id,
                        message@,
                        capg,
                        ki,
                        addrs@,
                    ));
                }
                start = start + this_len;
                k = k + 1;
                proof {
                    let ki = k as int;
                    assert((ki) * capg == (ki - 1) * capg + capg) by (nonlinear_arith);
                }
            }
            proof {
                let ki = k as int;
                assert(start as int >= len);
                if ki * capg <= len as int {
                    assert(start as int == ki * capg);
                } else {
                    assert(start as int == len as int);
                    assert(ki * capg > len as int);
                }
                assert(len as int <= ki * capg < len + capg);
                vstd::arithmetic::div_mod::lemma_fundamental_div_mod_converse(
                    len as int + capg - 1,
                    capg,
                    ki,
                    len as int + capg - 1 - ki * capg,
                );
                assert(ki == np);
                assert((r + 1) as int * np == r as int * np + np) by (nonlinear_arith);
            }
            r = r + 1;
        }
        proof {
            let repl = old(self).spec_replication() as int;
            assert forall|r0: int, k0: int|
                0 <= r0 < repl && 0 <= k0 < np implies is_piece_entry(
                #[trigger] self.out_queue@[base + r0 * np + k0],
                id,
                message@,
                capg,
                k0,
                addrs@,
            ) by {
                vstd::arithmetic::mul::lemma_mul_inequality(r0 + 1, repl, np);
                assert((r0 + 1) * np == r0 * np + np) by (nonlinear_arith);
                let j = base + r0 * np + k0;
                assert(base <= j < base + repl * np);
                vstd::arithmetic::div_mod::lemma_fundamental_div_mod_converse(
                    r0 * np + k0,
                    np,
                    r0,
                    k0,
                );
                assert((j - base) % np == k0);
            }
        }
    }

    /// Pop the oldest queued chunk and encode it for one datagram, bounded
    /// by the configured datagram length; the caller transmits the bytes to
    /// every address in the entry's set. `Ok(None)` means the queue was
    /// empty. A failed encode surfaces `EncodingError`; the entry has
    /// already been popped and is not retried.
    pub fn next_datagram(&mut self) -> (r: UnrResult<Option<(Vec<u8>, AddrsContainer)>>)
        ensures
            final(self).spec_datagram_length() == old(self).spec_datagram_length(),
            final(self).spec_replication() == old(self).spec_replication(),
            final(self).spec_last_id() == old(self).spec_last_id(),
            old(self).spec_queue().len() == 0 ==> r == Ok::<
                Option<(Vec<u8>, AddrsContainer)>,
                UnrError,
            >(None) && final(self).spec_queue() == old(self).spec_queue(),
            old(self).spec_queue().len() > 0 ==> ({
                let e = old(self).spec_queue()[0];
                &&& final(self).spec_queue() == old(self).spec_queue().drop_first()
                &&& (r matches Ok(out) ==> out matches Some(p) && p.0@ == chunk_bytes(
                    e.0@.id,
                    e.0@.index,
                    e.0@.total,
                    e.0@.payload,
                ) && p.0@.len() <= old(self).spec_datagram_length() && p.1@ == e.1@)
                &&& (r matches Err(err) ==> err == UnrError::EncodingError)
                &&& (r is Err <==> chunk_bytes(e.0@.id, e.0@.index, e.0@.total, e.0@.payload).len()
                    > old(self).spec_datagram_length())
            }),
    {
        match self.out_queue.pop_front() {
            Some((chunk, addrs)) => {
                proof {
                    assert(final(self).spec_queue() =~= old(self).spec_queue().drop_first());
                }
                match crate::codec::encode_chunk(&chunk, self.datagram_length) {
                    Ok(bytes) => Ok(Some((bytes, addrs))),
                    Err(e) => Err(e),
                }
            },
            None => Ok(None),
        }
    }
}

} // verus!
