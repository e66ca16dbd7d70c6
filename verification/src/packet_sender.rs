//! The send-queue worker: one per node.
//!
//! It keeps three queues — one-shot packets, acknowledgeable fragments,
//! and flood packets — computes a source route for every packet it sends,
//! retransmits unacknowledged fragments with a bounded back-off, and asks
//! the node to re-run discovery when no route can be found.  The worker's
//! decisions are functions from its state, the clock and the adjacency
//! map to a list of wire sends; the embedding program performs them.

use vstd::prelude::*;
use crate::network_discovery::Topology;
use crate::packet::{NodeId, NodeKind, Packet, PacketType, PacketTypeV, PacketV, SourceRoutingHeader, SourceRoutingHeaderV};

verus! {

/// How long to wait before retransmitting an unacknowledged fragment,
/// in milliseconds.
pub const PACKET_RESEND_BACK_OFF_TIME_MS: u64 = 150;

/// How many sends a fragment is allowed before it is dropped.
pub const PACKET_RESEND_MAX_RETRIES: u32 = 5;

/// The worker's poll budget while only acknowledgeable packets are
/// pending, in milliseconds.
pub const PACKET_RECV_TIMEOUT_MS: u64 = 25;

// ---------------------------------------------------------------------------
// Paths
// ---------------------------------------------------------------------------

/// `p` walks existing edges from `from` to `to`.
pub open spec fn is_path(topo: Topology, p: Seq<NodeId>, from: NodeId, to: NodeId) -> bool {
    &&& p.len() >= 1
    &&& p[0] == from
    &&& p.last() == to
    &&& forall|i: int| 0 <= i < p.len() - 1 ==> #[trigger] topo.edge(p[i], p[i + 1])
}

/// Some path joins `from` to `to`.
pub open spec fn connected(topo: Topology, from: NodeId, to: NodeId) -> bool {
    exists|p: Seq<NodeId>| is_path(topo, p, from, to)
}

/// How many entries of `marked` are set.
spec fn count_marked(marked: Seq<bool>) -> nat
    decreases marked.len(),
{
    if marked.len() == 0 {
        0
    } else {
        count_marked(marked.drop_last()) + if marked.last() {
            1nat
        } else {
            0nat
        }
    }
}

/// No more entries can be set than there are.
proof fn lemma_count_marked_le(marked: Seq<bool>)
    ensures
        count_marked(marked) <= marked.len(),
    decreases marked.len(),
{
    if marked.len() > 0 {
        lemma_count_marked_le(marked.drop_last());
    }
}

/// Setting one unset entry raises the count by one.
proof fn lemma_count_marked_set(marked: Seq<bool>, p: int)
    requires
        0 <= p < marked.len(),
        !marked[p],
    ensures
        count_marked(marked.update(p, true)) == count_marked(marked) + 1,
    decreases marked.len(),
{
    let n = marked.len() as int;
    let upd = marked.update(p, true);
    if p == n - 1 {
        assert(upd.drop_last() =~= marked.drop_last());
    } else {
        assert(upd.drop_last() =~= marked.drop_last().update(p, true));
        lemma_count_marked_set(marked.drop_last(), p);
        assert(upd.last() == marked.last());
    }
}

/// A set of nodes closed under edges contains the far end of every path
/// that starts inside it.
proof fn lemma_marked_closed(topo: Topology, marked: Seq<bool>, p: Seq<NodeId>)
    requires
        marked.len() == 256,
        forall|v: NodeId, w: NodeId|
            marked[v as int] && #[trigger] topo.edge(v, w) ==> marked[w as int],
        p.len() >= 1,
        marked[p[0] as int],
        forall|i: int| #![trigger p[i]] 0 <= i < p.len() - 1 ==> topo.edge(p[i], p[i + 1]),
    ensures
        marked[p.last() as int],
    decreases p.len(),
{
    if p.len() > 1 {
        assert(topo.edge(p[0], p[1]));
        assert(marked[p[1] as int]);
        let q = p.drop_first();
        assert(q[0] == p[1]);
        assert forall|i: int| 0 <= i < q.len() - 1 implies #[trigger] topo.edge(q[i], q[i + 1]) by {
            assert(q[i] == p[i + 1]);
            assert(q[i + 1] == p[i + 2]);
            assert(topo.edge(p[i + 1], p[i + 2]));
        }
        lemma_marked_closed(topo, marked, q);
        assert(q.last() == p.last());
    }
}

/// While every marked node that still borders unmarked ground sits at
/// distance `min_len` or beyond, any path from the source to an
/// unmarked node overshoots the front.
proof fn lemma_unvisited_path_bound(
    topo: Topology,
    marked: Seq<bool>,
    dist: Seq<nat>,
    min_len: nat,
    src: NodeId,
    p: Seq<NodeId>,
    w: NodeId,
)
    requires
        marked.len() == 256,
        dist.len() == 256,
        marked[src as int],
        forall|v: NodeId, x: NodeId|
            marked[v as int] && #[trigger] topo.edge(v, x) && !marked[x as int] ==> dist[v as int]
                >= min_len,
        forall|v: NodeId, q: Seq<NodeId>|
            marked[v as int] && #[trigger] is_path(topo, q, src, v) ==> q.len() >= dist[v as int],
        is_path(topo, p, src, w),
        !marked[w as int],
    ensures
        p.len() >= min_len + 1,
    decreases p.len(),
{
    assert(p[0] == src);
    assert(p.last() == w);
    if p.len() == 1 {
        assert(w == src);
        assert(false);
    }
    let x = p[p.len() - 2];
    let q = p.drop_last();
    assert(q[0] == src);
    assert(q.last() == x);
    assert forall|t: int| 0 <= t < q.len() - 1 implies #[trigger] topo.edge(q[t], q[t + 1]) by {
        assert(q[t] == p[t]);
        assert(q[t + 1] == p[t + 1]);
        assert(topo.edge(p[t], p[t + 1]));
    }
    assert(is_path(topo, q, src, x));
    assert(topo.edge(p[p.len() - 2], p[p.len() - 2 + 1]));
    assert(topo.edge(x, w));
    if marked[x as int] {
        assert(dist[x as int] >= min_len);
        assert(q.len() >= dist[x as int]);
    } else {
        lemma_unvisited_path_bound(topo, marked, dist, min_len, src, q, x);
    }
}

// ---------------------------------------------------------------------------
// Which of several shortest routes the search takes
// ---------------------------------------------------------------------------

/// Where `x` stands in the list `l`.
pub open spec fn list_pos(l: Seq<NodeId>, x: NodeId) -> int {
    choose|k: int| 0 <= k < l.len() && l[k] == x
}

/// In a duplicate-free list, `list_pos` names the one place `x` stands.
proof fn lemma_list_pos(l: Seq<NodeId>, x: NodeId)
    requires
        l.no_duplicates(),
        l.contains(x),
    ensures
        0 <= list_pos(l, x) < l.len(),
        l[list_pos(l, x)] == x,
        forall|k: int| 0 <= k < l.len() && l[k] == x ==> k == list_pos(l, x),
{
    assert(exists|k: int| 0 <= k < l.len() && l[k] == x);
    let k0 = list_pos(l, x);
    assert(0 <= k0 < l.len() && l[k0] == x);
    assert forall|k: int| 0 <= k < l.len() && l[k] == x implies k == k0 by {
        if k != k0 {
            assert(l[k] != l[k0]);
        }
    }
}

/// The turns a path takes: at each step, the next hop's place in the
/// current node's neighbour list.
pub open spec fn pos_seq(topo: Topology, p: Seq<NodeId>) -> Seq<int> {
    if p.len() == 0 {
        Seq::empty()
    } else {
        Seq::new((p.len() - 1) as nat, |i: int| list_pos(topo.neighbors_of(p[i]), p[i + 1]))
    }
}

/// Strict lexicographic order, read over equal-length turn sequences.
pub open spec fn lex_less(a: Seq<int>, b: Seq<int>) -> bool
    decreases a.len(),
{
    a.len() > 0 && b.len() > 0 && (a[0] < b[0] || (a[0] == b[0] && lex_less(
        a.drop_first(),
        b.drop_first(),
    )))
}

/// Appending compares after the prefixes.
proof fn lemma_lex_push(a: Seq<int>, b: Seq<int>, x: int, y: int)
    requires
        a.len() == b.len(),
    ensures
        lex_less(a.push(x), b.push(y)) <==> (lex_less(a, b) || (a == b && x < y)),
    decreases a.len(),
{
    if a.len() == 0 {
        assert(a =~= b);
        assert(a.push(x)[0] == x);
        assert(b.push(y)[0] == y);
        assert(a.push(x).drop_first() =~= Seq::<int>::empty());
        assert(b.push(y).drop_first() =~= Seq::<int>::empty());
        assert(!lex_less(Seq::<int>::empty(), Seq::<int>::empty()));
        assert(lex_less(a.push(x), b.push(y)) == (x < y));
    } else {
        assert(a.push(x).drop_first() =~= a.drop_first().push(x));
        assert(b.push(y).drop_first() =~= b.drop_first().push(y));
        lemma_lex_push(a.drop_first(), b.drop_first(), x, y);
        assert(a.push(x)[0] == a[0]);
        assert(b.push(y)[0] == b[0]);
        assert(lex_less(a.push(x), b.push(y)) == (a[0] < b[0] || (a[0] == b[0] && lex_less(
            a.drop_first().push(x),
            b.drop_first().push(y),
        ))));
        if a[0] == b[0] && a.drop_first() == b.drop_first() {
            assert forall|i: int| 0 <= i < a.len() implies a[i] == b[i] by {
                if i > 0 {
                    assert(a[i] == a.drop_first()[i - 1]);
                    assert(b[i] == b.drop_first()[i - 1]);
                }
            }
            assert(a =~= b);
        }
        if a == b {
            assert(a.drop_first() == b.drop_first());
        }
    }
}

/// On equal lengths the order is total ...
proof fn lemma_lex_total(a: Seq<int>, b: Seq<int>)
    requires
        a.len() == b.len(),
    ensures
        lex_less(a, b) || a == b || lex_less(b, a),
    decreases a.len(),
{
    if a.len() == 0 {
        assert(a =~= b);
    } else {
        lemma_lex_total(a.drop_first(), b.drop_first());
        if !lex_less(a, b) && !lex_less(b, a) {
            assert(a[0] == b[0]);
            assert(a.drop_first() == b.drop_first());
            assert forall|i: int| 0 <= i < a.len() implies a[i] == b[i] by {
                if i > 0 {
                    assert(a[i] == a.drop_first()[i - 1]);
                    assert(b[i] == b.drop_first()[i - 1]);
                }
            }
            assert(a =~= b);
        }
    }
}

/// ... and transitive.
proof fn lemma_lex_trans(a: Seq<int>, b: Seq<int>, c: Seq<int>)
    requires
        a.len() == b.len(),
        b.len() == c.len(),
        lex_less(a, b),
        lex_less(b, c),
    ensures
        lex_less(a, c),
    decreases a.len(),
{
    if a[0] == b[0] && b[0] == c[0] {
        lemma_lex_trans(a.drop_first(), b.drop_first(), c.drop_first());
    }
}

/// Nothing is lexicographically below itself.
proof fn lemma_lex_irrefl(a: Seq<int>)
    ensures
        !lex_less(a, a),
    decreases a.len(),
{
    if a.len() > 0 {
        lemma_lex_irrefl(a.drop_first());
    }
}

/// The non-strict order chains.
proof fn lemma_lex_leq_trans(a: Seq<int>, b: Seq<int>, c: Seq<int>)
    requires
        a.len() == b.len(),
        b.len() == c.len(),
        !lex_less(b, a),
        !lex_less(c, b),
    ensures
        !lex_less(c, a),
{
    if lex_less(c, a) {
        lemma_lex_total(a, b);
        if a == b {
            assert(lex_less(c, b));
        } else {
            lemma_lex_trans(c, a, b);
        }
    }
}

/// A walk's turns are its shorter self's turns plus the last turn.
proof fn lemma_pos_seq_snoc(topo: Topology, q: Seq<NodeId>)
    requires
        q.len() >= 2,
    ensures
        pos_seq(topo, q) =~= pos_seq(topo, q.drop_last()).push(
            list_pos(topo.neighbors_of(q[q.len() - 2]), q[q.len() - 1]),
        ),
{
    let shorter = q.drop_last();
    assert forall|i: int| 0 <= i < q.len() - 2 implies #[trigger] pos_seq(topo, shorter)[i]
        == pos_seq(topo, q)[i] by {
        assert(shorter[i] == q[i]);
        assert(shorter[i + 1] == q[i + 1]);
    }
}

/// Two equal-length walks from one node that take the same turns are
/// the same walk.
proof fn lemma_pos_seq_injective(topo: Topology, p: Seq<NodeId>, q: Seq<NodeId>)
    requires
        topo.wf(),
        p.len() == q.len(),
        p.len() >= 1,
        p[0] == q[0],
        forall|i: int| 0 <= i < p.len() - 1 ==> #[trigger] topo.edge(p[i], p[i + 1]),
        forall|i: int| 0 <= i < q.len() - 1 ==> #[trigger] topo.edge(q[i], q[i + 1]),
        pos_seq(topo, p) == pos_seq(topo, q),
    ensures
        p == q,
    decreases p.len(),
{
    topo.lemma_wf_no_dup();
    if p.len() == 1 {
        assert(p =~= q);
    } else {
        assert(topo.edge(p[0int], p[0int + 1]));
        assert(topo.edge(q[0int], q[0int + 1]));
        assert(pos_seq(topo, p)[0] == list_pos(topo.neighbors_of(p[0]), p[1]));
        assert(pos_seq(topo, q)[0] == list_pos(topo.neighbors_of(q[0]), q[1]));
        lemma_list_pos(topo.neighbors_of(p[0]), p[1]);
        lemma_list_pos(topo.neighbors_of(q[0]), q[1]);
        assert(p[1] == q[1]);
        let p2 = p.drop_first();
        let q2 = q.drop_first();
        assert forall|i: int| 0 <= i < p2.len() - 1 implies #[trigger] topo.edge(p2[i], p2[i + 1]) by {
            assert(p2[i] == p[i + 1]);
            assert(p2[i + 1] == p[i + 2]);
            assert(topo.edge(p[i + 1], p[i + 2]));
        }
        assert forall|i: int| 0 <= i < q2.len() - 1 implies #[trigger] topo.edge(q2[i], q2[i + 1]) by {
            assert(q2[i] == q[i + 1]);
            assert(q2[i + 1] == q[i + 2]);
            assert(topo.edge(q[i + 1], q[i + 2]));
        }
        assert(pos_seq(topo, p2) =~= pos_seq(topo, p).drop_first());
        assert(pos_seq(topo, q2) =~= pos_seq(topo, q).drop_first());
        lemma_pos_seq_injective(topo, p2, q2);
        assert forall|i: int| 0 <= i < p.len() implies p[i] == q[i] by {
            if i > 0 {
                assert(p[i] == p2[i - 1]);
                assert(q[i] == q2[i - 1]);
            }
        }
        assert(p =~= q);
    }
}

// ---------------------------------------------------------------------------
// Queue items
// ---------------------------------------------------------------------------

/// A packet waiting to be routed and sent once.
#[derive(Clone, PartialEq, Eq, Debug)]
pub struct PacketQueueItem {
    pub peer_id: NodeId,
    pub session_id: u64,
    pub packet_type: PacketType,
}

/// Mathematical model of a [`PacketQueueItem`].
pub struct PacketQueueItemV {
    pub peer_id: NodeId,
    pub session_id: u64,
    pub packet_type: PacketTypeV,
}

impl View for PacketQueueItem {
    type V = PacketQueueItemV;

    open spec fn view(&self) -> PacketQueueItemV {
        PacketQueueItemV {
            peer_id: self.peer_id,
            session_id: self.session_id,
            packet_type: self.packet_type@,
        }
    }
}

impl DeepView for PacketQueueItem {
    type V = PacketQueueItemV;

    open spec fn deep_view(&self) -> PacketQueueItemV {
        self@
    }
}

/// A fragment awaiting acknowledgement, with its retry bookkeeping.
#[derive(Clone, PartialEq, Eq, Debug)]
pub struct AckablePacketQueueItem {
    pub common: PacketQueueItem,
    pub last_send_ms: u64,
    pub retries: u32,
}

/// Mathematical model of an [`AckablePacketQueueItem`].
pub struct AckablePacketQueueItemV {
    pub common: PacketQueueItemV,
    pub last_send_ms: u64,
    pub retries: u32,
}

impl View for AckablePacketQueueItem {
    type V = AckablePacketQueueItemV;

    open spec fn view(&self) -> AckablePacketQueueItemV {
        AckablePacketQueueItemV {
            common: self.common@,
            last_send_ms: self.last_send_ms,
            retries: self.retries,
        }
    }
}

impl DeepView for AckablePacketQueueItem {
    type V = AckablePacketQueueItemV;

    open spec fn deep_view(&self) -> AckablePacketQueueItemV {
        self@
    }
}

/// What the node hands the worker.
pub enum PacketSenderDutyMessage {
    /// `(peer_id, session_id, payload)`: classify and enqueue.
    Packet((NodeId, u64, PacketType)),
    /// `(peer_id, session_id, fragment_index)`: the peer acknowledged.
    AckedFragment((NodeId, u64, u64)),
    /// Stop the worker.
    Quit,
}

/// What the worker asks of the node.
#[derive(Clone, Copy, PartialEq, Eq, Structural, Debug)]
pub enum PacketSenderControlMessage {
    TriggerNetworkDiscovery,
}

/// One delivery the embedding program must perform on the worker's
/// behalf.
pub enum WireSend {
    /// Hand the packet to the neighbour channel of `next_hop`.
    ToNeighbor { next_hop: NodeId, packet: Packet },
    /// Hand a copy of the packet to every neighbour channel.
    Broadcast { packet: Packet },
}

/// Mathematical model of a [`WireSend`].
pub enum WireSendV {
    ToNeighbor { next_hop: NodeId, packet: PacketV },
    Broadcast { packet: PacketV },
}

impl View for WireSend {
    type V = WireSendV;

    open spec fn view(&self) -> WireSendV {
        match self {
            WireSend::ToNeighbor { next_hop, packet } => WireSendV::ToNeighbor {
                next_hop: *next_hop,
                packet: packet@,
            },
            WireSend::Broadcast { packet } => WireSendV::Broadcast { packet: packet@ },
        }
    }
}

impl DeepView for WireSend {
    type V = WireSendV;

    open spec fn deep_view(&self) -> WireSendV {
        self@
    }
}

/// Routing failure: no route exists (the item is handed back for a later
/// try), or the packet cannot be sent and is dropped.
pub enum RoutePacketError {
    NoRouteFound(PacketQueueItem),
    SendError,
}

// ---------------------------------------------------------------------------
// What the worker's decisions mean
// ---------------------------------------------------------------------------

/// A route can be made: the peer is reachable and is not this node.
pub open spec fn routable(topo: Topology, n: NodeId, p: NodeId) -> bool {
    connected(topo, n, p) && p != n
}

/// The fragment still has retries left; otherwise it is dropped.
pub open spec fn item_kept(it: AckablePacketQueueItemV) -> bool {
    it.retries < PACKET_RESEND_MAX_RETRIES
}

/// The back-off for this fragment has elapsed.
pub open spec fn item_due(it: AckablePacketQueueItemV, now_ms: u64) -> bool {
    now_ms >= it.last_send_ms + PACKET_RESEND_BACK_OFF_TIME_MS
}

/// One send pass over a pending fragment: a due item is stamped with the
/// send time and charged one retry; the rest stay as they are.
pub open spec fn item_after(it: AckablePacketQueueItemV, now_ms: u64) -> AckablePacketQueueItemV {
    if item_due(it, now_ms) {
        AckablePacketQueueItemV {
            common: it.common,
            last_send_ms: now_ms,
            retries: (it.retries + 1) as u32,
        }
    } else {
        it
    }
}

/// `w` carries exactly `item`, stamped with a valid fresh source route
/// from `n` to the item's peer, aimed at the route's first hop.
pub open spec fn routed_send_ok(
    w: WireSendV,
    topo: Topology,
    n: NodeId,
    item: PacketQueueItemV,
) -> bool {
    &&& w matches WireSendV::ToNeighbor { next_hop, packet }
    &&& (w matches WireSendV::ToNeighbor { next_hop, packet } ==> {
        &&& packet.session_id == item.session_id
        &&& packet.pack_type == item.packet_type
        &&& packet.routing_header.hop_index == 1
        &&& packet.routing_header.hops.len() >= 2
        &&& packet.routing_header.hops.no_duplicates()
        &&& is_path(topo, packet.routing_header.hops, n, item.peer_id)
        &&& next_hop == packet.routing_header.hops[1]
        &&& (forall|q: Seq<NodeId>|
            #[trigger] is_path(topo, q, n, item.peer_id) ==> q.len()
                >= packet.routing_header.hops.len())
        &&& (forall|q: Seq<NodeId>|
            #[trigger] is_path(topo, q, n, item.peer_id) && q.len()
                == packet.routing_header.hops.len() ==> !lex_less(
                pos_seq(topo, q),
                pos_seq(topo, packet.routing_header.hops),
            ))
    })
}

/// A flood response rides its own path trace, reversed.
pub open spec fn reversed_trace_ids(trace: Seq<(NodeId, NodeKind)>) -> Seq<NodeId> {
    Seq::new(trace.len(), |i: int| trace[trace.len() - 1 - i].0)
}

/// What one flood-queue entry puts on the wire: a request goes to every
/// neighbour with an empty route; a response rides its reversed trace to
/// the previous hop; a response whose trace is too short to name one is
/// dropped.
pub open spec fn flood_send_of(it: PacketQueueItemV) -> Option<WireSendV> {
    match it.packet_type {
        PacketTypeV::FloodRequest(_) => Some(
            WireSendV::Broadcast {
                packet: PacketV {
                    pack_type: it.packet_type,
                    routing_header: SourceRoutingHeaderV { hop_index: 0, hops: Seq::empty() },
                    session_id: it.session_id,
                },
            },
        ),
        PacketTypeV::FloodResponse(fr) => {
            if fr.path_trace.len() >= 2 {
                Some(
                    WireSendV::ToNeighbor {
                        next_hop: reversed_trace_ids(fr.path_trace)[1],
                        packet: PacketV {
                            pack_type: it.packet_type,
                            routing_header: SourceRoutingHeaderV {
                                hop_index: 1,
                                hops: reversed_trace_ids(fr.path_trace),
                            },
                            session_id: it.session_id,
                        },
                    },
                )
            } else {
                None
            }
        },
        _ => None,
    }
}

/// The wire sends of a whole flood queue, in order.
pub open spec fn flood_sends_of(q: Seq<PacketQueueItemV>) -> Seq<WireSendV>
    decreases q.len(),
{
    if q.len() == 0 {
        Seq::empty()
    } else {
        flood_sends_of(q.drop_last()) + match flood_send_of(q.last()) {
            Some(w) => seq![w],
            None => Seq::empty(),
        }
    }
}

/// The peer acknowledged this very fragment.
pub open spec fn acked_match(
    it: AckablePacketQueueItemV,
    peer_id: NodeId,
    session_id: u64,
    fragment_index: u64,
) -> bool {
    &&& it.common.peer_id == peer_id
    &&& it.common.session_id == session_id
    &&& it.common.packet_type matches PacketTypeV::MsgFragment(f) && f.fragment_index
        == fragment_index
}

// ---------------------------------------------------------------------------
// Fold helpers
// ---------------------------------------------------------------------------

/// One more element folds into a filtered prefix.
proof fn lemma_filter_take_step<A>(s: Seq<A>, pred: spec_fn(A) -> bool, i: int)
    requires
        0 <= i < s.len(),
    ensures
        s.take(i + 1).filter(pred) == if pred(s[i]) {
            s.take(i).filter(pred).push(s[i])
        } else {
            s.take(i).filter(pred)
        },
{
    reveal(Seq::filter);
    assert(s.take(i + 1).drop_last() =~= s.take(i));
    assert(s.take(i + 1).last() == s[i]);
    assert(s.take(i + 1).len() == i + 1);
}

/// One more element folds into the flood sends of a prefix.
proof fn lemma_flood_sends_take_step(s: Seq<PacketQueueItemV>, i: int)
    requires
        0 <= i < s.len(),
    ensures
        flood_sends_of(s.take(i + 1)) == flood_sends_of(s.take(i)) + match flood_send_of(s[i]) {
            Some(w) => seq![w],
            None => Seq::<WireSendV>::empty(),
        },
{
    assert(s.take(i + 1).drop_last() =~= s.take(i));
    assert(s.take(i + 1).last() == s[i]);
    assert(s.take(i + 1).len() == i + 1);
}

// ---------------------------------------------------------------------------
// The worker
// ---------------------------------------------------------------------------

/// Send-queue state: the three queues and the owning node's id.
pub struct PacketSender {
    node_id: NodeId,
    packet_send_queue: Vec<PacketQueueItem>,
    ackable_packet_send_queue: Vec<AckablePacketQueueItem>,
    flood_packets_queue: Vec<PacketQueueItem>,
}

impl PacketSender {
    /// The owning node's id.
    pub closed spec fn spec_node_id(&self) -> NodeId {
        self.node_id
    }

    /// The one-shot queue.
    pub closed spec fn standard_q(&self) -> Seq<PacketQueueItemV> {
        self.packet_send_queue.deep_view()
    }

    /// The acknowledgeable queue.
    pub closed spec fn ackable_q(&self) -> Seq<AckablePacketQueueItemV> {
        self.ackable_packet_send_queue.deep_view()
    }

    /// The flood queue.
    pub closed spec fn flood_q(&self) -> Seq<PacketQueueItemV> {
        self.flood_packets_queue.deep_view()
    }

    /// A fresh worker with empty queues.
    pub fn new(node_id: NodeId) -> (r: Self)
        ensures
            r.spec_node_id() == node_id,
            r.standard_q().len() == 0,
            r.ackable_q().len() == 0,
            r.flood_q().len() == 0,
    {
        PacketSender {
            node_id,
            packet_send_queue: Vec::new(),
            ackable_packet_send_queue: Vec::new(),
            flood_packets_queue: Vec::new(),
        }
    }

    /// Breadth-first search over the adjacency map from this node.
    ///
    /// Succeeds exactly when the two are connected, with a simple path
    /// over existing edges than which none is strictly shorter; among
    /// equal-length routes it returns the one that turns earliest in
    /// neighbour insertion order at the first hop where they part —
    /// which pins the choice, deterministically, for a fixed map.
    pub fn get_route_to_peer(&self, topo: &Topology, peer_id: NodeId) -> (r: Option<Vec<NodeId>>)
        requires
            topo.wf(),
        ensures
            match r {
                Some(path) => {
                    &&& is_path(*topo, path@, self.spec_node_id(), peer_id)
                    &&& path@.no_duplicates()
                    &&& (forall|p: Seq<NodeId>|
                        #[trigger] is_path(*topo, p, self.spec_node_id(), peer_id) ==> p.len()
                            >= path@.len())
                    &&& (forall|p: Seq<NodeId>|
                        #[trigger] is_path(*topo, p, self.spec_node_id(), peer_id) && p.len()
                            == path@.len() ==> !lex_less(
                            pos_seq(*topo, p),
                            pos_seq(*topo, path@),
                        ))
                },
                None => !connected(*topo, self.spec_node_id(), peer_id),
            },
    {
        let src = self.node_id;
        let mut visited: Vec<bool> = Vec::new();
        let mut i: usize = 0;
        while i < 256
            invariant
                i <= 256,
                visited@.len() == i,
                forall|j: int| 0 <= j < i ==> !visited@[j],
            decreases 256 - i,
        {
            visited.push(false);
            i += 1;
        }
        visited.set(src as usize, true);
        let ghost mut dist: Seq<nat> = Seq::new(256, |t: int| 1nat);
        let mut queue: Vec<Vec<NodeId>> = Vec::new();
        let mut first: Vec<NodeId> = Vec::new();
        first.push(src);
        queue.push(first);
        proof {
            assert(queue@.len() == 1);
            assert(queue@[0]@ =~= seq![src]);
            assert(queue@[0]@.last() == src);
            assert(queue@[0]@.no_duplicates());
            assert(forall|v: NodeId| visited@[v as int] ==> v == src);
            assert forall|v: NodeId, pp: Seq<NodeId>|
                visited@[v as int] && #[trigger] is_path(*topo, pp, src, v) implies pp.len()
                >= dist[v as int] by {
                assert(pp.len() >= 1);
            }
            assert(pos_seq(*topo, queue@[0]@).len() == 0);
            assert forall|qi: int, q: Seq<NodeId>|
                #![trigger is_path(*topo, q, src, queue@[qi]@.last())]
                0 <= qi < queue@.len() && is_path(*topo, q, src, queue@[qi]@.last()) && q.len()
                    == queue@[qi]@.len() implies !lex_less(
                pos_seq(*topo, q),
                pos_seq(*topo, queue@[qi]@),
            ) by {
                assert(pos_seq(*topo, queue@[qi]@).len() == 0);
            }
        }

        loop
            invariant_except_break
                topo.wf(),
                src == self.spec_node_id(),
                visited@.len() == 256,
                visited@[src as int],
                // every queued entry is a simple path from src over edges,
                // all of whose nodes are marked
                forall|qi: int|
                    0 <= qi < queue@.len() ==> {
                        let p = (#[trigger] queue@[qi])@;
                        &&& p.len() >= 1
                        &&& p[0] == src
                        &&& p.no_duplicates()
                        &&& (forall|t: int|
                            0 <= t < p.len() - 1 ==> #[trigger] topo.edge(p[t], p[t + 1]))
                        &&& (forall|t: int| 0 <= t < p.len() ==> visited@[#[trigger] p[t] as int])
                    },
                // every marked node waits in the queue or is fully expanded
                forall|v: NodeId|
                    #![trigger visited@[v as int]]
                    visited@[v as int] ==> (exists|qi: int|
                        0 <= qi < queue@.len() && (#[trigger] queue@[qi])@.last() == v) || (
                    forall|w: NodeId| #[trigger] topo.edge(v, w) ==> visited@[w as int]),
                // the target, if marked, still waits in the queue
                visited@[peer_id as int] ==> exists|qi: int|
                    0 <= qi < queue@.len() && (#[trigger] queue@[qi])@.last() == peer_id,
                // each queued entry's length is its endpoint's recorded
                // distance from the source
                dist.len() == 256,
                forall|qi: int|
                    0 <= qi < queue@.len() ==> (#[trigger] queue@[qi])@.len()
                        == dist[queue@[qi]@.last() as int],
                // the queue's lengths never decrease, spanning two levels
                forall|qi: int, qj: int|
                    0 <= qi <= qj < queue@.len() ==> (#[trigger] queue@[qi])@.len() <= (
                    #[trigger] queue@[qj])@.len(),
                forall|qi: int|
                    0 <= qi < queue@.len() ==> (#[trigger] queue@[qi])@.len() <= queue@[0]@.len()
                        + 1,
                // recorded distances are true lower bounds on every path
                forall|v: NodeId, pp: Seq<NodeId>|
                    visited@[v as int] && #[trigger] is_path(*topo, pp, src, v) ==> pp.len()
                        >= dist[v as int],
                // one pending entry per endpoint
                forall|qi: int, qj: int|
                    0 <= qi < qj < queue@.len() ==> (#[trigger] queue@[qi])@.last() != (
                    #[trigger] queue@[qj])@.last(),
                // within a level the queue is sorted by the turns taken
                forall|qi: int, qj: int|
                    0 <= qi <= qj < queue@.len() && (#[trigger] queue@[qi])@.len() == (
                    #[trigger] queue@[qj])@.len() ==> !lex_less(
                        pos_seq(*topo, queue@[qj]@),
                        pos_seq(*topo, queue@[qi]@),
                    ),
                // each entry takes the earliest turns of any equal-length
                // route to its endpoint
                forall|qi: int, q: Seq<NodeId>|
                    #![trigger is_path(*topo, q, src, queue@[qi]@.last())]
                    0 <= qi < queue@.len() && is_path(*topo, q, src, queue@[qi]@.last()) && q.len()
                        == queue@[qi]@.len() ==> !lex_less(
                        pos_seq(*topo, q),
                        pos_seq(*topo, queue@[qi]@),
                    ),
                // deeper entries grew out of entries before the front
                forall|qi: int|
                    0 <= qi < queue@.len() && (#[trigger] queue@[qi])@.len() == queue@[0]@.len()
                        + 1 ==> lex_less(
                        pos_seq(*topo, queue@[qi]@.drop_last()),
                        pos_seq(*topo, queue@[0]@),
                    ),
            ensures
                queue@.len() == 0,
                visited@.len() == 256,
                visited@[src as int],
                forall|v: NodeId|
                    #![trigger visited@[v as int]]
                    visited@[v as int] ==> (forall|w: NodeId|
                        #[trigger] topo.edge(v, w) ==> visited@[w as int]),
                !visited@[peer_id as int],
            decreases 256 - count_marked(visited@), queue@.len(),
        {
            if queue.is_empty() {
                break;
            }
            let ghost pre_visited = visited@;
            let ghost pre_queue = queue@;
            proof {
                assert(pre_queue[0]@.len() >= 1);
            }
            let path = queue.remove(0);
            proof {
                assert(path == pre_queue[0]);
            }
            let last_node = path[path.len() - 1];
            assert(path@.last() == last_node);
            if last_node == peer_id {
                proof {
                    assert(src == self.node_id);
                    assert(is_path(*topo, path@, self.spec_node_id(), peer_id));
                    assert(path@.len() == dist[peer_id as int]);
                    assert forall|p: Seq<NodeId>|
                        #[trigger] is_path(*topo, p, self.spec_node_id(), peer_id) implies p.len()
                        >= path@.len() by {
                        assert(is_path(*topo, p, src, peer_id));
                        assert(visited@[peer_id as int]);
                        assert(p.len() >= dist[peer_id as int]);
                    }
                    assert forall|p: Seq<NodeId>|
                        #[trigger] is_path(*topo, p, self.spec_node_id(), peer_id) && p.len()
                            == path@.len() implies !lex_less(
                        pos_seq(*topo, p),
                        pos_seq(*topo, path@),
                    ) by {
                        assert(is_path(*topo, p, src, pre_queue[0]@.last()));
                    }
                }
                return Some(path);
            }
            let ghost mid_queue = queue@;
            proof {
                assert(mid_queue =~= pre_queue.subrange(1, pre_queue.len() as int));
                assert(forall|qi: int|
                    0 <= qi < mid_queue.len() ==> mid_queue[qi] == pre_queue[qi + 1]);
                // shift the waiting witnesses past the popped entry
                assert forall|v: NodeId|
                    #![trigger pre_visited[v as int]]
                    pre_visited[v as int] implies ((exists|qi: int|
                    0 <= qi < mid_queue.len() && (#[trigger] mid_queue[qi])@.last() == v) || v
                    == last_node || (forall|w: NodeId|
                    #[trigger] topo.edge(v, w) ==> pre_visited[w as int])) by {
                    if exists|qi: int|
                        0 <= qi < pre_queue.len() && (#[trigger] pre_queue[qi])@.last() == v {
                        let qi = choose|qi: int|
                            0 <= qi < pre_queue.len() && (#[trigger] pre_queue[qi])@.last() == v;
                        if qi == 0 {
                            assert(v == last_node);
                        } else {
                            assert(mid_queue[qi - 1] == pre_queue[qi]);
                            assert(mid_queue[qi - 1]@.last() == v);
                        }
                    }
                }
                if pre_visited[peer_id as int] {
                    let qi = choose|qi: int|
                        0 <= qi < pre_queue.len() && (#[trigger] pre_queue[qi])@.last() == peer_id;
                    assert(qi != 0);
                    assert(mid_queue[qi - 1]@.last() == peer_id);
                }
                // the remaining entries stay ordered within two levels of
                // the popped one
                assert forall|qi: int, qj: int|
                    0 <= qi <= qj < mid_queue.len() implies (#[trigger] mid_queue[qi])@.len() <= (
                #[trigger] mid_queue[qj])@.len() by {
                    assert(mid_queue[qi] == pre_queue[qi + 1]);
                    assert(mid_queue[qj] == pre_queue[qj + 1]);
                }
                assert forall|qi: int|
                    0 <= qi < mid_queue.len() implies path@.len() <= (
                #[trigger] mid_queue[qi])@.len() <= path@.len() + 1 by {
                    assert(mid_queue[qi] == pre_queue[qi + 1]);
                    assert(pre_queue[0]@.len() <= pre_queue[qi + 1]@.len());
                    assert(pre_queue[qi + 1]@.len() <= pre_queue[0]@.len() + 1);
                }
                assert(path@.len() == dist[last_node as int]);
                // carry the popped entry's lex facts and its level's into
                // the expansion
                assert(is_path(*topo, path@, src, last_node));
                assert forall|qi: int|
                    0 <= qi < mid_queue.len() && (#[trigger] mid_queue[qi])@.len() == path@.len()
                    implies !lex_less(
                    pos_seq(*topo, mid_queue[qi]@),
                    pos_seq(*topo, path@),
                ) by {
                    assert(mid_queue[qi] == pre_queue[qi + 1]);
                }
                assert forall|qi: int|
                    0 <= qi < mid_queue.len() && (#[trigger] mid_queue[qi])@.len() == path@.len()
                        + 1 implies lex_less(
                    pos_seq(*topo, mid_queue[qi]@.drop_last()),
                    pos_seq(*topo, path@),
                ) by {
                    assert(mid_queue[qi] == pre_queue[qi + 1]);
                }
                assert forall|qi: int, q: Seq<NodeId>|
                    #![trigger is_path(*topo, q, src, mid_queue[qi]@.last())]
                    0 <= qi < mid_queue.len() && is_path(*topo, q, src, mid_queue[qi]@.last())
                        && q.len() == mid_queue[qi]@.len() implies !lex_less(
                    pos_seq(*topo, q),
                    pos_seq(*topo, mid_queue[qi]@),
                ) by {
                    assert(mid_queue[qi] == pre_queue[qi + 1]);
                    assert(is_path(*topo, q, src, pre_queue[qi + 1]@.last()));
                }
            }
            let deg = topo.degree(last_node);
            let mut j: usize = 0;
            let ghost visited_at_pop = visited@;
            while j < deg
                invariant
                    topo.wf(),
                    deg == topo.neighbors_of(last_node).len(),
                    j <= deg,
                    visited@.len() == 256,
                    visited@[src as int],
                    visited@[last_node as int],
                    path@.len() >= 1,
                    path@[0] == src,
                    path@.last() == last_node,
                    path@.no_duplicates(),
                    forall|t: int|
                        0 <= t < path@.len() - 1 ==> #[trigger] topo.edge(path@[t], path@[t + 1]),
                    forall|t: int| 0 <= t < path@.len() ==> visited@[#[trigger] path@[t] as int],
                    last_node != peer_id,
                    visited_at_pop == pre_visited,
                    // marking only grows, one mark per queued path
                    forall|v: int| 0 <= v < 256 && visited_at_pop[v] ==> visited@[v],
                    queue@.len() >= mid_queue.len(),
                    count_marked(visited@) == count_marked(visited_at_pop) + queue@.len()
                        - mid_queue.len(),
                    // neighbours seen so far are marked
                    forall|t: int|
                        0 <= t < j ==> visited@[#[trigger] topo.neighbors_of(last_node)[t] as int],
                    // queue entries remain well-formed
                    forall|qi: int|
                        0 <= qi < queue@.len() ==> {
                            let p = (#[trigger] queue@[qi])@;
                            &&& p.len() >= 1
                            &&& p[0] == src
                            &&& p.no_duplicates()
                            &&& (forall|t: int|
                                0 <= t < p.len() - 1 ==> #[trigger] topo.edge(p[t], p[t + 1]))
                            &&& (forall|t: int|
                                0 <= t < p.len() ==> visited@[#[trigger] p[t] as int])
                        },
                    // old queue entries survive at their places
                    forall|qi: int| 0 <= qi < mid_queue.len() ==> queue@[qi] == mid_queue[qi],
                    // nodes marked before the pop wait, were popped, or are expanded
                    forall|v: NodeId|
                        #![trigger visited_at_pop[v as int]]
                        visited_at_pop[v as int] ==> (exists|qi: int|
                            0 <= qi < queue@.len() && (#[trigger] queue@[qi])@.last() == v) || v
                            == last_node || (forall|w: NodeId|
                            #[trigger] topo.edge(v, w) ==> visited@[w as int]),
                    // newly marked nodes wait in the queue
                    forall|v: NodeId|
                        #![trigger visited@[v as int]]
                        visited@[v as int] && !visited_at_pop[v as int] ==> exists|qi: int|
                            0 <= qi < queue@.len() && (#[trigger] queue@[qi])@.last() == v,
                    visited@[peer_id as int] ==> exists|qi: int|
                        0 <= qi < queue@.len() && (#[trigger] queue@[qi])@.last() == peer_id,
                    dist.len() == 256,
                    dist[last_node as int] == path@.len(),
                    // fresh entries sit one level below the popped one
                    forall|qi: int|
                        mid_queue.len() <= qi < queue@.len() ==> (#[trigger] queue@[qi])@.len()
                            == path@.len() + 1,
                    forall|qi: int|
                        0 <= qi < mid_queue.len() ==> path@.len() <= (
                        #[trigger] mid_queue[qi])@.len() <= path@.len() + 1,
                    forall|qi: int|
                        0 <= qi < queue@.len() ==> (#[trigger] queue@[qi])@.len()
                            == dist[queue@[qi]@.last() as int],
                    forall|v: NodeId, pp: Seq<NodeId>|
                        visited@[v as int] && #[trigger] is_path(*topo, pp, src, v) ==> pp.len()
                            >= dist[v as int],
                    // the popped entry takes the earliest turns at its level
                    forall|q: Seq<NodeId>|
                        #![trigger is_path(*topo, q, src, last_node)]
                        is_path(*topo, q, src, last_node) && q.len() == path@.len() ==> !lex_less(
                            pos_seq(*topo, q),
                            pos_seq(*topo, path@),
                        ),
                    // what was behind the popped entry keeps its lex facts
                    forall|qi: int|
                        0 <= qi < mid_queue.len() && (#[trigger] mid_queue[qi])@.len()
                            == path@.len() ==> !lex_less(
                            pos_seq(*topo, mid_queue[qi]@),
                            pos_seq(*topo, path@),
                        ),
                    forall|qi: int|
                        0 <= qi < mid_queue.len() && (#[trigger] mid_queue[qi])@.len()
                            == path@.len() + 1 ==> lex_less(
                            pos_seq(*topo, mid_queue[qi]@.drop_last()),
                            pos_seq(*topo, path@),
                        ),
                    forall|qi: int, q: Seq<NodeId>|
                        #![trigger is_path(*topo, q, src, mid_queue[qi]@.last())]
                        0 <= qi < mid_queue.len() && is_path(*topo, q, src, mid_queue[qi]@.last())
                            && q.len() == mid_queue[qi]@.len() ==> !lex_less(
                            pos_seq(*topo, q),
                            pos_seq(*topo, mid_queue[qi]@),
                        ),
                    // fresh entries extend the popped one, turning ever later
                    forall|qi: int|
                        mid_queue.len() <= qi < queue@.len() ==> (
                        #[trigger] queue@[qi])@.drop_last() == path@,
                    forall|qi: int|
                        mid_queue.len() <= qi < queue@.len() ==> 0 <= list_pos(
                            topo.neighbors_of(last_node),
                            (#[trigger] queue@[qi])@.last(),
                        ) < j,
                    forall|qi: int, qj: int|
                        mid_queue.len() <= qi < qj < queue@.len() ==> list_pos(
                            topo.neighbors_of(last_node),
                            (#[trigger] queue@[qi])@.last(),
                        ) < list_pos(
                            topo.neighbors_of(last_node),
                            (#[trigger] queue@[qj])@.last(),
                        ),
                    // queue-wide facts, carried across the pushes
                    forall|qi: int, qj: int|
                        0 <= qi < qj < queue@.len() ==> (#[trigger] queue@[qi])@.last() != (
                        #[trigger] queue@[qj])@.last(),
                    forall|qi: int, qj: int|
                        0 <= qi <= qj < queue@.len() && (#[trigger] queue@[qi])@.len() == (
                        #[trigger] queue@[qj])@.len() ==> !lex_less(
                            pos_seq(*topo, queue@[qj]@),
                            pos_seq(*topo, queue@[qi]@),
                        ),
                    forall|qi: int, q: Seq<NodeId>|
                        #![trigger is_path(*topo, q, src, queue@[qi]@.last())]
                        0 <= qi < queue@.len() && is_path(*topo, q, src, queue@[qi]@.last())
                            && q.len() == queue@[qi]@.len() ==> !lex_less(
                            pos_seq(*topo, q),
                            pos_seq(*topo, queue@[qi]@),
                        ),
                decreases deg - j,
            {
                let ghost loop_visited = visited@;
                let ghost loop_queue = queue@;
                let nb = topo.neighbor(last_node, j);
                let marked = visited[nb as usize];
                if !marked {
                    proof {
                        lemma_count_marked_set(visited@, nb as int);
                        // any route to the unvisited neighbour is longer
                        // than the front the search stands at
                        assert forall|v: NodeId, x: NodeId|
                            visited@[v as int] && #[trigger] topo.edge(v, x) && !visited@[x
                            as int] implies dist[v as int] >= path@.len() by {
                            if v != last_node {
                                if exists|qi: int|
                                    0 <= qi < queue@.len() && (#[trigger] queue@[qi])@.last()
                                        == v {
                                    let qi = choose|qi: int|
                                        0 <= qi < queue@.len() && (
                                        #[trigger] queue@[qi])@.last() == v;
                                    assert(queue@[qi]@.len() == dist[v as int]);
                                    if qi < mid_queue.len() {
                                        assert(queue@[qi] == mid_queue[qi]);
                                    }
                                } else {
                                    assert(visited_at_pop[v as int]);
                                    assert(visited@[x as int]);
                                }
                            }
                        }
                        assert forall|pp: Seq<NodeId>|
                            #[trigger] is_path(*topo, pp, src, nb) implies pp.len() >= path@.len()
                            + 1 by {
                            lemma_unvisited_path_bound(
                                *topo,
                                visited@,
                                dist,
                                path@.len(),
                                src,
                                pp,
                                nb,
                            );
                        }
                        // of the equal-length routes to the neighbour, the
                        // one recorded here takes the earliest turns
                        topo.lemma_wf_no_dup();
                        lemma_list_pos(topo.neighbors_of(last_node), nb);
                        assert(list_pos(topo.neighbors_of(last_node), nb) == j);
                        assert forall|q: Seq<NodeId>|
                            #[trigger] is_path(*topo, q, src, nb) && q.len() == path@.len() + 1
                            implies !lex_less(
                            pos_seq(*topo, q),
                            pos_seq(*topo, path@).push(j as int),
                        ) by {
                            let x = q[q.len() - 2];
                            let q2 = q.drop_last();
                            assert(q2[0] == q[0]);
                            assert(q2.last() == x);
                            assert forall|t: int|
                                0 <= t < q2.len() - 1 implies #[trigger] topo.edge(
                                q2[t],
                                q2[t + 1],
                            ) by {
                                assert(q2[t] == q[t]);
                                assert(q2[t + 1] == q[t + 1]);
                                assert(topo.edge(q[t], q[t + 1]));
                            }
                            assert(is_path(*topo, q2, src, x));
                            assert(topo.edge(q[q.len() - 2], q[q.len() - 2 + 1]));
                            assert(topo.edge(x, nb));
                            lemma_pos_seq_snoc(*topo, q);
                            lemma_list_pos(topo.neighbors_of(x), nb);
                            let kx = list_pos(topo.neighbors_of(x), nb);
                            assert(pos_seq(*topo, q) == pos_seq(*topo, q2).push(kx));
                            if !visited@[x as int] {
                                lemma_unvisited_path_bound(
                                    *topo,
                                    visited@,
                                    dist,
                                    path@.len(),
                                    src,
                                    q2,
                                    x,
                                );
                                assert(false);
                            }
                            // the route's second-to-last node is marked at
                            // the front's own level
                            assert(dist[x as int] <= q2.len());
                            assert(dist[x as int] >= path@.len());
                            assert(dist[x as int] == path@.len());
                            if x == last_node {
                                assert(!lex_less(pos_seq(*topo, q2), pos_seq(*topo, path@)));
                                lemma_lex_push(
                                    pos_seq(*topo, q2),
                                    pos_seq(*topo, path@),
                                    kx,
                                    j as int,
                                );
                                assert(kx == j);
                            } else {
                                // x still waits in the queue at this level
                                assert(visited@[x as int]);
                                assert(exists|qi: int|
                                    0 <= qi < queue@.len() && (#[trigger] queue@[qi])@.last()
                                        == x) by {
                                    if visited_at_pop[x as int] {
                                        // were x expanded, the neighbour
                                        // would already be marked
                                        if !(exists|qi: int|
                                            0 <= qi < queue@.len() && (
                                            #[trigger] queue@[qi])@.last() == x) {
                                            assert(visited@[nb as int]);
                                            assert(false);
                                        }
                                    }
                                }
                                let qi = choose|qi: int|
                                    0 <= qi < queue@.len() && (#[trigger] queue@[qi])@.last() == x;
                                assert(queue@[qi]@.len() == dist[x as int]);
                                assert(qi < mid_queue.len()) by {
                                    if qi >= mid_queue.len() {
                                        assert(queue@[qi]@.drop_last() == path@);
                                        assert(queue@[qi]@.len() == path@.len() + 1);
                                    }
                                }
                                assert(queue@[qi] == mid_queue[qi]);
                                assert(!lex_less(
                                    pos_seq(*topo, mid_queue[qi]@),
                                    pos_seq(*topo, path@),
                                ));
                                assert(is_path(*topo, q2, src, mid_queue[qi]@.last()));
                                assert(!lex_less(
                                    pos_seq(*topo, q2),
                                    pos_seq(*topo, mid_queue[qi]@),
                                ));
                                assert(pos_seq(*topo, path@).len() == path@.len() - 1);
                                assert(pos_seq(*topo, mid_queue[qi]@).len() == path@.len() - 1);
                                assert(pos_seq(*topo, q2).len() == path@.len() - 1);
                                lemma_lex_leq_trans(
                                    pos_seq(*topo, path@),
                                    pos_seq(*topo, mid_queue[qi]@),
                                    pos_seq(*topo, q2),
                                );
                                lemma_lex_push(
                                    pos_seq(*topo, q2),
                                    pos_seq(*topo, path@),
                                    kx,
                                    j as int,
                                );
                                if pos_seq(*topo, q2) == pos_seq(*topo, path@) {
                                    lemma_pos_seq_injective(*topo, q2, path@);
                                    assert(x == last_node);
                                }
                            }
                        }
                    }
                    visited.set(nb as usize, true);
                    let ghost pre_dist = dist;
                    proof {
                        dist = dist.update(nb as int, (path@.len() + 1) as nat);
                        assert forall|v: NodeId, pp: Seq<NodeId>|
                            visited@[v as int] && #[trigger] is_path(*topo, pp, src, v) implies pp.len()
                            >= dist[v as int] by {
                            if v != nb {
                                assert(loop_visited[v as int]);
                                assert(dist[v as int] == pre_dist[v as int]);
                            }
                        }
                    }
                    let mut new_path = path.clone();
                    assert(new_path@ == path@);
                    new_path.push(nb);
                    proof {
                        assert(new_path@ =~= path@.push(nb));
                        assert forall|t: int| 0 <= t < new_path@.len() - 1 implies #[trigger] topo.edge(
                            new_path@[t],
                            new_path@[t + 1],
                        ) by {
                            if t < path@.len() - 1 {
                                assert(topo.edge(path@[t], path@[t + 1]));
                            } else {
                                assert(new_path@[t] == last_node);
                                assert(new_path@[t + 1] == nb);
                                assert(topo.edge(last_node, nb));
                            }
                        }
                        assert(new_path@.no_duplicates()) by {
                            assert(forall|t: int|
                                0 <= t < path@.len() ==> #[trigger] path@[t] != nb);
                        }
                    }
                    queue.push(new_path);
                    proof {
                        let ghost new_queue = queue@;
                        assert(new_queue.len() == loop_queue.len() + 1);
                        assert(new_queue[new_queue.len() - 1] == new_path);
                        assert(new_path@.last() == nb);
                        assert(visited@ =~= loop_visited.update(nb as int, true));
                        // waiting witnesses survive the push and the mark
                        assert forall|v: NodeId|
                            #![trigger visited_at_pop[v as int]]
                            visited_at_pop[v as int] implies ((exists|qi: int|
                            0 <= qi < new_queue.len() && (#[trigger] new_queue[qi])@.last() == v)
                            || v == last_node || (forall|w: NodeId|
                            #[trigger] topo.edge(v, w) ==> visited@[w as int])) by {
                            if exists|qi: int|
                                0 <= qi < loop_queue.len() && (#[trigger] loop_queue[qi])@.last()
                                    == v {
                                let qi = choose|qi: int|
                                    0 <= qi < loop_queue.len() && (
                                    #[trigger] loop_queue[qi])@.last() == v;
                                assert(new_queue[qi]@.last() == v);
                            }
                        }
                        assert forall|v: NodeId|
                            #![trigger visited@[v as int]]
                            visited@[v as int] && !visited_at_pop[v as int] implies exists|qi: int|
                            0 <= qi < new_queue.len() && (#[trigger] new_queue[qi])@.last()
                                == v by {
                            if v == nb {
                                assert(new_queue[new_queue.len() - 1]@.last() == v);
                            } else {
                                assert(loop_visited[v as int]);
                                let qi = choose|qi: int|
                                    0 <= qi < loop_queue.len() && (
                                    #[trigger] loop_queue[qi])@.last() == v;
                                assert(new_queue[qi]@.last() == v);
                            }
                        }
                        if visited@[peer_id as int] {
                            if peer_id == nb {
                                assert(new_queue[new_queue.len() - 1]@.last() == peer_id);
                            } else {
                                let qi = choose|qi: int|
                                    0 <= qi < loop_queue.len() && (
                                    #[trigger] loop_queue[qi])@.last() == peer_id;
                                assert(new_queue[qi]@.last() == peer_id);
                            }
                        }
                        assert(new_path@.len() == path@.len() + 1);
                        assert forall|qi: int|
                            0 <= qi < new_queue.len() implies (#[trigger] new_queue[qi])@.len()
                            == dist[new_queue[qi]@.last() as int] by {
                            if qi < loop_queue.len() {
                                assert(new_queue[qi] == loop_queue[qi]);
                                assert(loop_visited[loop_queue[qi]@.last() as int]);
                                assert(loop_queue[qi]@.last() != nb);
                                assert(dist[loop_queue[qi]@.last() as int]
                                    == pre_dist[loop_queue[qi]@.last() as int]);
                            } else {
                                assert(new_queue[qi]@.last() == nb);
                            }
                        }
                        // the fresh entry's turns: the popped entry's, then j
                        assert(new_path@.drop_last() =~= path@);
                        lemma_pos_seq_snoc(*topo, new_path@);
                        assert(new_path@[new_path@.len() - 2] == last_node);
                        assert(pos_seq(*topo, new_path@) == pos_seq(*topo, path@).push(j as int));
                        // fresh entries keep distinct endpoints
                        assert forall|qi: int|
                            0 <= qi < new_queue.len() - 1 implies (
                        #[trigger] new_queue[qi])@.last() != nb by {
                            assert(new_queue[qi] == loop_queue[qi]);
                            assert(loop_visited[loop_queue[qi]@.last() as int]);
                        }
                        // the level stays sorted by turns
                        assert forall|qi: int, qj: int|
                            0 <= qi <= qj < new_queue.len() && (#[trigger] new_queue[qi])@.len()
                                == (#[trigger] new_queue[qj])@.len() implies !lex_less(
                            pos_seq(*topo, new_queue[qj]@),
                            pos_seq(*topo, new_queue[qi]@),
                        ) by {
                            if qi == qj {
                                lemma_lex_irrefl(pos_seq(*topo, new_queue[qi]@));
                            } else if qj == new_queue.len() - 1 {
                                assert(new_queue[qi] == loop_queue[qi]);
                                assert(new_queue[qj]@ == new_path@);
                                if qi >= mid_queue.len() {
                                    // an earlier push at an earlier turn
                                    assert(loop_queue[qi]@.drop_last() == path@);
                                    lemma_pos_seq_snoc(*topo, loop_queue[qi]@);
                                    assert(loop_queue[qi]@[loop_queue[qi]@.len() - 2]
                                        == last_node);
                                    let ke = list_pos(
                                        topo.neighbors_of(last_node),
                                        loop_queue[qi]@.last(),
                                    );
                                    assert(pos_seq(*topo, loop_queue[qi]@) == pos_seq(
                                        *topo,
                                        path@,
                                    ).push(ke));
                                    assert(ke < j);
                                    lemma_lex_push(
                                        pos_seq(*topo, path@),
                                        pos_seq(*topo, path@),
                                        j as int,
                                        ke,
                                    );
                                    lemma_lex_irrefl(pos_seq(*topo, path@));
                                } else {
                                    // a deeper entry left from earlier rounds
                                    assert(mid_queue[qi]@.len() == path@.len() + 1);
                                    let prefix = mid_queue[qi]@.drop_last();
                                    assert(lex_less(
                                        pos_seq(*topo, prefix),
                                        pos_seq(*topo, path@),
                                    ));
                                    lemma_pos_seq_snoc(*topo, mid_queue[qi]@);
                                    let ke = list_pos(
                                        topo.neighbors_of(
                                            mid_queue[qi]@[mid_queue[qi]@.len() - 2],
                                        ),
                                        mid_queue[qi]@.last(),
                                    );
                                    assert(pos_seq(*topo, mid_queue[qi]@) == pos_seq(
                                        *topo,
                                        prefix,
                                    ).push(ke));
                                    assert(pos_seq(*topo, prefix).len() == pos_seq(
                                        *topo,
                                        path@,
                                    ).len());
                                    lemma_lex_push(
                                        pos_seq(*topo, path@),
                                        pos_seq(*topo, prefix),
                                        j as int,
                                        ke,
                                    );
                                    if lex_less(pos_seq(*topo, path@), pos_seq(*topo, prefix)) {
                                        lemma_lex_trans(
                                            pos_seq(*topo, path@),
                                            pos_seq(*topo, prefix),
                                            pos_seq(*topo, path@),
                                        );
                                        lemma_lex_irrefl(pos_seq(*topo, path@));
                                    }
                                    if pos_seq(*topo, path@) == pos_seq(*topo, prefix) {
                                        lemma_lex_irrefl(pos_seq(*topo, path@));
                                    }
                                }
                            } else {
                                assert(new_queue[qi] == loop_queue[qi]);
                                assert(new_queue[qj] == loop_queue[qj]);
                            }
                        }
                        // the fresh entry records the earliest turns of any
                        // equal-length route to its endpoint
                        assert forall|qi: int, q: Seq<NodeId>|
                            #![trigger is_path(*topo, q, src, new_queue[qi]@.last())]
                            0 <= qi < new_queue.len() && is_path(
                                *topo,
                                q,
                                src,
                                new_queue[qi]@.last(),
                            ) && q.len() == new_queue[qi]@.len() implies !lex_less(
                            pos_seq(*topo, q),
                            pos_seq(*topo, new_queue[qi]@),
                        ) by {
                            if qi == new_queue.len() - 1 {
                                assert(new_queue[qi]@ == new_path@);
                                assert(new_path@.last() == nb);
                                assert(is_path(*topo, q, src, nb));
                                assert(q.len() == path@.len() + 1);
                            } else {
                                assert(new_queue[qi] == loop_queue[qi]);
                                assert(is_path(*topo, q, src, loop_queue[qi]@.last()));
                            }
                        }
                    }
                }
                j += 1;
            }
            proof {
                // the popped node is now fully expanded
                assert forall|w: NodeId| #[trigger] topo.edge(last_node, w) implies visited@[w
                    as int] by {
                    let t = choose|t: int|
                        0 <= t < topo.neighbors_of(last_node).len() && topo.neighbors_of(
                            last_node,
                        )[t] == w;
                    assert(visited@[topo.neighbors_of(last_node)[t] as int]);
                }
                // carry the waiting invariant back to the outer loop
                assert forall|v: NodeId|
                    #![trigger visited@[v as int]]
                    visited@[v as int] implies ((exists|qi: int|
                    0 <= qi < queue@.len() && (#[trigger] queue@[qi])@.last() == v) || (forall|
                    w: NodeId,
                |
                    #[trigger] topo.edge(v, w) ==> visited@[w as int])) by {
                    if visited_at_pop[v as int] {
                        if v == last_node {
                            assert(forall|w: NodeId|
                                #[trigger] topo.edge(v, w) ==> visited@[w as int]);
                        }
                    }
                }
                // the queue stays ordered within two adjacent levels
                assert forall|qi: int, qj: int|
                    0 <= qi <= qj < queue@.len() implies (#[trigger] queue@[qi])@.len() <= (
                #[trigger] queue@[qj])@.len() by {
                    if qj < mid_queue.len() {
                        assert(queue@[qi] == mid_queue[qi]);
                        assert(queue@[qj] == mid_queue[qj]);
                    } else if qi < mid_queue.len() {
                        assert(queue@[qi] == mid_queue[qi]);
                    }
                }
                assert forall|qi: int|
                    0 <= qi < queue@.len() implies (#[trigger] queue@[qi])@.len()
                    <= queue@[0]@.len() + 1 by {
                    if 0 < mid_queue.len() {
                        assert(queue@[0] == mid_queue[0]);
                        if qi < mid_queue.len() {
                            assert(queue@[qi] == mid_queue[qi]);
                        }
                    }
                }
                // entries one level below the new front grew out of
                // entries no later than it
                assert forall|qi: int|
                    0 <= qi < queue@.len() && (#[trigger] queue@[qi])@.len() == queue@[0]@.len()
                        + 1 implies lex_less(
                    pos_seq(*topo, queue@[qi]@.drop_last()),
                    pos_seq(*topo, queue@[0]@),
                ) by {
                    if mid_queue.len() > 0 {
                        assert(queue@[0] == mid_queue[0]);
                        if mid_queue[0]@.len() == path@.len() {
                            // the front stands at the popped level; it
                            // follows the popped entry strictly
                            assert(!lex_less(
                                pos_seq(*topo, mid_queue[0]@),
                                pos_seq(*topo, path@),
                            ));
                            assert(mid_queue[0] == pre_queue[1]);
                            assert(pre_queue[0]@.last() != pre_queue[1]@.last());
                            if pos_seq(*topo, mid_queue[0]@) == pos_seq(*topo, path@) {
                                lemma_pos_seq_injective(*topo, mid_queue[0]@, path@);
                            }
                            lemma_lex_total(pos_seq(*topo, path@), pos_seq(*topo, mid_queue[0]@));
                            assert(lex_less(pos_seq(*topo, path@), pos_seq(*topo, mid_queue[0]@)));
                            if qi >= mid_queue.len() {
                                assert(queue@[qi]@.drop_last() == path@);
                            } else {
                                assert(mid_queue[qi]@.len() == path@.len() + 1);
                                assert(lex_less(
                                    pos_seq(*topo, mid_queue[qi]@.drop_last()),
                                    pos_seq(*topo, path@),
                                ));
                                lemma_lex_trans(
                                    pos_seq(*topo, mid_queue[qi]@.drop_last()),
                                    pos_seq(*topo, path@),
                                    pos_seq(*topo, mid_queue[0]@),
                                );
                            }
                        } else {
                            // the front already sits one level down, and
                            // nothing sits two levels down
                            assert(mid_queue[0]@.len() == path@.len() + 1);
                            if qi < mid_queue.len() {
                                assert(mid_queue[qi]@.len() <= path@.len() + 1);
                            } else {
                                assert(queue@[qi]@.drop_last() == path@);
                            }
                            assert(false);
                        }
                    } else {
                        assert(queue@[qi]@.drop_last() == path@);
                        assert(queue@[0]@.drop_last() == path@);
                        assert(false);
                    }
                }
                // the search space shrinks
                lemma_count_marked_le(visited@);
                lemma_count_marked_le(pre_visited);
            }
        }

        proof {
            // the marked set is closed under edges and misses the target
            assert forall|v: NodeId, w: NodeId|
                visited@[v as int] && #[trigger] topo.edge(v, w) implies visited@[w as int] by {
                assert(visited@[v as int]);
            }
            assert(!visited@[peer_id as int]);
            if connected(*topo, src, peer_id) {
                let p = choose|p: Seq<NodeId>| is_path(*topo, p, src, peer_id);
                lemma_marked_closed(*topo, visited@, p);
                assert(false);
            }
        }
        None
    }

    /// Classifies a fresh packet: fragments join the acknowledgeable
    /// queue with their back-off already elapsed (so the first send is
    /// immediate), flood packets join the flood queue, everything else is
    /// sent once.
    pub fn handle_new_packet(
        &mut self,
        peer_id: NodeId,
        session_id: u64,
        packet_type: PacketType,
        now_ms: u64,
    )
        ensures
            final(self).spec_node_id() == old(self).spec_node_id(),
            match packet_type@ {
                PacketTypeV::MsgFragment(_) => {
                    &&& final(self).ackable_q() == old(self).ackable_q().push(
                        AckablePacketQueueItemV {
                            common: PacketQueueItemV {
                                peer_id,
                                session_id,
                                packet_type: packet_type@,
                            },
                            last_send_ms: if now_ms >= PACKET_RESEND_BACK_OFF_TIME_MS {
                                (now_ms - PACKET_RESEND_BACK_OFF_TIME_MS) as u64
                            } else {
                                0
                            },
                            retries: 0,
                        },
                    )
                    &&& final(self).standard_q() == old(self).standard_q()
                    &&& final(self).flood_q() == old(self).flood_q()
                },
                PacketTypeV::FloodRequest(_) | PacketTypeV::FloodResponse(_) => {
                    &&& final(self).flood_q() == old(self).flood_q().push(
                        PacketQueueItemV { peer_id, session_id, packet_type: packet_type@ },
                    )
                    &&& final(self).standard_q() == old(self).standard_q()
                    &&& final(self).ackable_q() == old(self).ackable_q()
                },
                _ => {
                    &&& final(self).standard_q() == old(self).standard_q().push(
                        PacketQueueItemV { peer_id, session_id, packet_type: packet_type@ },
                    )
                    &&& final(self).ackable_q() == old(self).ackable_q()
                    &&& final(self).flood_q() == old(self).flood_q()
                },
            },
    {
        let is_fragment = matches!(packet_type, PacketType::MsgFragment(_));
        let is_flood = matches!(
            packet_type,
            PacketType::FloodRequest(_) | PacketType::FloodResponse(_),
        );
        if is_fragment {
            let last_send_ms = if now_ms >= PACKET_RESEND_BACK_OFF_TIME_MS {
                now_ms - PACKET_RESEND_BACK_OFF_TIME_MS
            } else {
                0
            };
            self.ackable_packet_send_queue.push(
                AckablePacketQueueItem {
                    common: PacketQueueItem { peer_id, session_id, packet_type },
                    last_send_ms,
                    retries: 0,
                },
            );
            proof {
                assert(self.ackable_packet_send_queue.deep_view()
                    =~= old(self).ackable_packet_send_queue.deep_view().push(
                    self.ackable_packet_send_queue@.last()@,
                ));
            }
        } else if is_flood {
            self.flood_packets_queue.push(PacketQueueItem { peer_id, session_id, packet_type });
            proof {
                assert(self.flood_packets_queue.deep_view()
                    =~= old(self).flood_packets_queue.deep_view().push(
                    self.flood_packets_queue@.last()@,
                ));
            }
        } else {
            self.packet_send_queue.push(PacketQueueItem { peer_id, session_id, packet_type });
            proof {
                assert(self.packet_send_queue.deep_view()
                    =~= old(self).packet_send_queue.deep_view().push(
                    self.packet_send_queue@.last()@,
                ));
            }
        }
    }

    /// Forgets the pending fragment the peer just acknowledged.
    pub fn retain_acked_fragments(&mut self, peer_id: NodeId, session_id: u64, fragment_index: u64)
        ensures
            final(self).spec_node_id() == old(self).spec_node_id(),
            final(self).standard_q() == old(self).standard_q(),
            final(self).flood_q() == old(self).flood_q(),
            final(self).ackable_q() == old(self).ackable_q().filter(
                |it: AckablePacketQueueItemV| !acked_match(it, peer_id, session_id, fragment_index),
            ),
    {
        let ghost q0 = self.ackable_packet_send_queue.deep_view();
        let ghost pred = |it: AckablePacketQueueItemV|
            !acked_match(it, peer_id, session_id, fragment_index);
        let n0 = self.ackable_packet_send_queue.len();
        let mut kept: Vec<AckablePacketQueueItem> = Vec::new();
        let mut i: usize = 0;
        while self.ackable_packet_send_queue.len() > 0
            invariant
                q0.len() == n0,
                i + self.ackable_packet_send_queue@.len() == q0.len(),
                self.ackable_packet_send_queue.deep_view() =~= q0.skip(i as int),
                kept.deep_view() == q0.take(i as int).filter(pred),
                pred == (|it: AckablePacketQueueItemV|
                    !acked_match(it, peer_id, session_id, fragment_index)),
                self.packet_send_queue == old(self).packet_send_queue,
                self.flood_packets_queue == old(self).flood_packets_queue,
                self.node_id == old(self).node_id,
            decreases self.ackable_packet_send_queue@.len(),
        {
            let ghost pre = self.ackable_packet_send_queue.deep_view();
            let ghost pre_vec = self.ackable_packet_send_queue@;
            let it = self.ackable_packet_send_queue.remove(0);
            proof {
                assert(it@ == pre[0]);
                assert(pre[0] == q0[i as int]);
                assert(self.ackable_packet_send_queue@ =~= pre_vec.remove(0));
                assert forall|k: int|
                    0 <= k < self.ackable_packet_send_queue@.len() implies #[trigger] self.ackable_packet_send_queue.deep_view()[k]
                    == q0.skip(i as int + 1)[k] by {
                    assert(self.ackable_packet_send_queue@[k] == pre_vec[k + 1]);
                    assert(pre[k + 1] == q0.skip(i as int)[k + 1]);
                }
                assert(self.ackable_packet_send_queue.deep_view() =~= q0.skip(i as int + 1));
                lemma_filter_take_step(q0, pred, i as int);
            }
            let keep = match &it.common.packet_type {
                PacketType::MsgFragment(f) => !(it.common.peer_id == peer_id
                    && it.common.session_id == session_id && f.fragment_index == fragment_index),
                _ => true,
            };
            if keep {
                kept.push(it);
                proof {
                    assert(kept.deep_view() =~= q0.take(i as int).filter(pred).push(q0[i as int]));
                }
            }
            i += 1;
        }
        proof {
            assert(q0.take(i as int) =~= q0);
        }
        self.ackable_packet_send_queue = kept;
    }

    /// Stamps a one-shot packet with a fresh source route and aims it at
    /// the route's first hop.  Fails with `NoRouteFound` — handing the
    /// item back — when the peer is unreachable, and with `SendError`
    /// when the packet is addressed to this node itself.
    pub fn route_packet(&self, topo: &Topology, packet: PacketQueueItem) -> (r: Result<
        WireSend,
        RoutePacketError,
    >)
        requires
            topo.wf(),
        ensures
            match r {
                Ok(w) => routable(*topo, self.spec_node_id(), packet.peer_id) && routed_send_ok(
                    w@,
                    *topo,
                    self.spec_node_id(),
                    packet@,
                ),
                Err(RoutePacketError::NoRouteFound(item)) => !connected(
                    *topo,
                    self.spec_node_id(),
                    packet.peer_id,
                ) && item@ == packet@,
                Err(RoutePacketError::SendError) => connected(
                    *topo,
                    self.spec_node_id(),
                    packet.peer_id,
                ) && packet.peer_id == self.spec_node_id(),
            },
    {
        match self.get_route_to_peer(topo, packet.peer_id) {
            Some(path) => {
                proof {
                    assert(is_path(*topo, path@, self.spec_node_id(), packet.peer_id));
                    assert(connected(*topo, self.spec_node_id(), packet.peer_id));
                }
                if path.len() >= 2 {
                    proof {
                        if packet.peer_id == self.spec_node_id() {
                            assert(path@[0] == path@[path@.len() - 1]);
                            assert(false);
                        }
                    }
                    let next_hop = path[1];
                    Ok(
                        WireSend::ToNeighbor {
                            next_hop,
                            packet: Packet {
                                pack_type: packet.packet_type,
                                routing_header: SourceRoutingHeader { hop_index: 1, hops: path },
                                session_id: packet.session_id,
                            },
                        },
                    )
                } else {
                    proof {
                        assert(path@.len() == 1);
                        assert(path@[0] == path@.last());
                    }
                    Err(RoutePacketError::SendError)
                }
            },
            None => Err(RoutePacketError::NoRouteFound(packet)),
        }
    }

    /// Drops every pending fragment that has used up its retries.
    fn drop_exhausted(&mut self)
        ensures
            final(self).spec_node_id() == old(self).spec_node_id(),
            final(self).standard_q() == old(self).standard_q(),
            final(self).flood_q() == old(self).flood_q(),
            final(self).ackable_q() == old(self).ackable_q().filter(
                |it: AckablePacketQueueItemV| item_kept(it),
            ),
    {
        let ghost q0 = self.ackable_packet_send_queue.deep_view();
        let ghost pred = |it: AckablePacketQueueItemV| item_kept(it);
        let n0 = self.ackable_packet_send_queue.len();
        let mut kept: Vec<AckablePacketQueueItem> = Vec::new();
        let mut i: usize = 0;
        while self.ackable_packet_send_queue.len() > 0
            invariant
                q0.len() == n0,
                i + self.ackable_packet_send_queue@.len() == q0.len(),
                self.ackable_packet_send_queue.deep_view() =~= q0.skip(i as int),
                kept.deep_view() == q0.take(i as int).filter(pred),
                pred == (|it: AckablePacketQueueItemV| item_kept(it)),
                self.packet_send_queue == old(self).packet_send_queue,
                self.flood_packets_queue == old(self).flood_packets_queue,
                self.node_id == old(self).node_id,
            decreases self.ackable_packet_send_queue@.len(),
        {
            let ghost pre = self.ackable_packet_send_queue.deep_view();
            let ghost pre_vec = self.ackable_packet_send_queue@;
            let it = self.ackable_packet_send_queue.remove(0);
            proof {
                assert(it@ == pre[0]);
                assert(pre[0] == q0[i as int]);
                assert(self.ackable_packet_send_queue@ =~= pre_vec.remove(0));
                assert forall|k: int|
                    0 <= k < self.ackable_packet_send_queue@.len() implies #[trigger] self.ackable_packet_send_queue.deep_view()[k]
                    == q0.skip(i as int + 1)[k] by {
                    assert(self.ackable_packet_send_queue@[k] == pre_vec[k + 1]);
                    assert(pre[k + 1] == q0.skip(i as int)[k + 1]);
                }
                assert(self.ackable_packet_send_queue.deep_view() =~= q0.skip(i as int + 1));
                lemma_filter_take_step(q0, pred, i as int);
            }
            if it.retries < PACKET_RESEND_MAX_RETRIES {
                kept.push(it);
                proof {
                    assert(kept.deep_view() =~= q0.take(i as int).filter(pred).push(q0[i as int]));
                }
            }
            i += 1;
        }
        proof {
            assert(q0.take(i as int) =~= q0);
        }
        self.ackable_packet_send_queue = kept;
    }

    /// Routes and drains the one-shot queue.  Unreachable packets stay
    /// queued, each with one request to re-run discovery; packets
    /// addressed to this node itself are dropped.
    fn send_standard_packets(&mut self, topo: &Topology) -> (r: (
        Vec<WireSend>,
        Vec<PacketSenderControlMessage>,
    ))
        requires
            topo.wf(),
        ensures
            final(self).spec_node_id() == old(self).spec_node_id(),
            final(self).ackable_q() == old(self).ackable_q(),
            final(self).flood_q() == old(self).flood_q(),
            final(self).standard_q() == old(self).standard_q().filter(
                |it: PacketQueueItemV| !connected(*topo, old(self).spec_node_id(), it.peer_id),
            ),
            r.0.deep_view().len() == old(self).standard_q().filter(
                |it: PacketQueueItemV| routable(*topo, old(self).spec_node_id(), it.peer_id),
            ).len(),
            forall|k: int|
                0 <= k < r.0.deep_view().len() ==> routed_send_ok(
                    #[trigger] r.0.deep_view()[k],
                    *topo,
                    old(self).spec_node_id(),
                    old(self).standard_q().filter(
                        |it: PacketQueueItemV| routable(
                            *topo,
                            old(self).spec_node_id(),
                            it.peer_id,
                        ),
                    )[k],
                ),
            r.1@.len() == final(self).standard_q().len(),
            forall|k: int|
                0 <= k < r.1@.len() ==> r.1@[k]
                    == PacketSenderControlMessage::TriggerNetworkDiscovery,
    {
        let ghost n = self.spec_node_id();
        let ghost q0 = self.packet_send_queue.deep_view();
        let ghost keep_pred = |it: PacketQueueItemV| !connected(*topo, n, it.peer_id);
        let ghost send_pred = |it: PacketQueueItemV| routable(*topo, n, it.peer_id);
        let n0 = self.packet_send_queue.len();
        let mut failures: Vec<PacketQueueItem> = Vec::new();
        let mut wire: Vec<WireSend> = Vec::new();
        let mut control: Vec<PacketSenderControlMessage> = Vec::new();
        let mut i: usize = 0;
        while self.packet_send_queue.len() > 0
            invariant
                topo.wf(),
                n == self.spec_node_id(),
                q0.len() == n0,
                i + self.packet_send_queue@.len() == q0.len(),
                self.packet_send_queue.deep_view() =~= q0.skip(i as int),
                failures.deep_view() == q0.take(i as int).filter(keep_pred),
                wire.deep_view().len() == q0.take(i as int).filter(send_pred).len(),
                forall|k: int|
                    0 <= k < wire.deep_view().len() ==> routed_send_ok(
                        #[trigger] wire.deep_view()[k],
                        *topo,
                        n,
                        q0.take(i as int).filter(send_pred)[k],
                    ),
                control@.len() == failures.deep_view().len(),
                forall|k: int|
                    0 <= k < control@.len() ==> control@[k]
                        == PacketSenderControlMessage::TriggerNetworkDiscovery,
                keep_pred == (|it: PacketQueueItemV| !connected(*topo, n, it.peer_id)),
                send_pred == (|it: PacketQueueItemV| routable(*topo, n, it.peer_id)),
                self.ackable_packet_send_queue == old(self).ackable_packet_send_queue,
                self.flood_packets_queue == old(self).flood_packets_queue,
                self.node_id == old(self).node_id,
            decreases self.packet_send_queue@.len(),
        {
            let ghost pre = self.packet_send_queue.deep_view();
            let ghost pre_vec = self.packet_send_queue@;
            let it = self.packet_send_queue.remove(0);
            proof {
                assert(it@ == pre[0]);
                assert(pre[0] == q0[i as int]);
                assert(self.packet_send_queue@ =~= pre_vec.remove(0));
                assert forall|k: int|
                    0 <= k < self.packet_send_queue@.len() implies #[trigger] self.packet_send_queue.deep_view()[k]
                    == q0.skip(i as int + 1)[k] by {
                    assert(self.packet_send_queue@[k] == pre_vec[k + 1]);
                    assert(pre[k + 1] == q0.skip(i as int)[k + 1]);
                }
                assert(self.packet_send_queue.deep_view() =~= q0.skip(i as int + 1));
                lemma_filter_take_step(q0, keep_pred, i as int);
                lemma_filter_take_step(q0, send_pred, i as int);
            }
            match self.route_packet(topo, it) {
                Ok(w) => {
                    let ghost pre_wire = wire.deep_view();
                    let ghost wv = w@;
                    wire.push(w);
                    proof {
                        assert(wire.deep_view() =~= pre_wire.push(wv));
                        assert(wire.deep_view().len() == q0.take(i as int + 1).filter(
                            send_pred,
                        ).len());
                        assert forall|k: int|
                            0 <= k < wire.deep_view().len() implies routed_send_ok(
                            #[trigger] wire.deep_view()[k],
                            *topo,
                            n,
                            q0.take(i as int + 1).filter(send_pred)[k],
                        ) by {
                            if k < wire.deep_view().len() - 1 {
                                assert(q0.take(i as int + 1).filter(send_pred)[k] == q0.take(
                                    i as int,
                                ).filter(send_pred)[k]);
                            } else {
                                assert(wire.deep_view()[k] == wv);
                                assert(q0.take(i as int + 1).filter(send_pred)[k] == q0[i as int]);
                            }
                        }
                    }
                },
                Err(RoutePacketError::NoRouteFound(item)) => {
                    failures.push(item);
                    control.push(PacketSenderControlMessage::TriggerNetworkDiscovery);
                    proof {
                        assert(failures.deep_view() =~= q0.take(i as int).filter(keep_pred).push(
                            q0[i as int],
                        ));
                    }
                },
                Err(RoutePacketError::SendError) => {
                },
            }
            i += 1;
        }
        proof {
            assert(q0.take(i as int) =~= q0);
        }
        self.packet_send_queue = failures;
        (wire, control)
    }

    /// Retransmits every pending fragment whose back-off has elapsed,
    /// charging one retry each; an unreachable one additionally asks for
    /// discovery but stays pending.
    fn resend_ackable_packets(&mut self, topo: &Topology, now_ms: u64) -> (r: (
        Vec<WireSend>,
        Vec<PacketSenderControlMessage>,
    ))
        requires
            topo.wf(),
            forall|j: int|
                0 <= j < old(self).ackable_q().len() ==> item_kept(#[trigger] old(self).ackable_q()[j]),
        ensures
            final(self).spec_node_id() == old(self).spec_node_id(),
            final(self).standard_q() == old(self).standard_q(),
            final(self).flood_q() == old(self).flood_q(),
            final(self).ackable_q() == old(self).ackable_q().map_values(
                |it: AckablePacketQueueItemV| item_after(it, now_ms),
            ),
            r.0.deep_view().len() == old(self).ackable_q().filter(
                |it: AckablePacketQueueItemV| item_due(it, now_ms) && routable(
                    *topo,
                    old(self).spec_node_id(),
                    it.common.peer_id,
                ),
            ).len(),
            forall|k: int|
                0 <= k < r.0.deep_view().len() ==> routed_send_ok(
                    #[trigger] r.0.deep_view()[k],
                    *topo,
                    old(self).spec_node_id(),
                    old(self).ackable_q().filter(
                        |it: AckablePacketQueueItemV| item_due(it, now_ms) && routable(
                            *topo,
                            old(self).spec_node_id(),
                            it.common.peer_id,
                        ),
                    )[k].common,
                ),
            r.1@.len() == old(self).ackable_q().filter(
                |it: AckablePacketQueueItemV| item_due(it, now_ms) && !connected(
                    *topo,
                    old(self).spec_node_id(),
                    it.common.peer_id,
                ),
            ).len(),
            forall|k: int|
                0 <= k < r.1@.len() ==> r.1@[k]
                    == PacketSenderControlMessage::TriggerNetworkDiscovery,
    {
        let ghost n = self.spec_node_id();
        let ghost q0 = self.ackable_packet_send_queue.deep_view();
        let ghost send_pred = |it: AckablePacketQueueItemV|
            item_due(it, now_ms) && routable(*topo, n, it.common.peer_id);
        let ghost ctrl_pred = |it: AckablePacketQueueItemV|
            item_due(it, now_ms) && !connected(*topo, n, it.common.peer_id);
        let mut wire: Vec<WireSend> = Vec::new();
        let mut control: Vec<PacketSenderControlMessage> = Vec::new();
        let len = self.ackable_packet_send_queue.len();
        let mut j: usize = 0;
        while j < len
            invariant
                topo.wf(),
                n == self.spec_node_id(),
                j <= len,
                len == q0.len(),
                self.ackable_packet_send_queue@.len() == q0.len(),
                forall|idx: int|
                    j <= idx < q0.len() ==> #[trigger] self.ackable_packet_send_queue.deep_view()[idx]
                        == q0[idx],
                forall|idx: int|
                    0 <= idx < j ==> #[trigger] self.ackable_packet_send_queue.deep_view()[idx]
                        == item_after(q0[idx], now_ms),
                forall|idx: int| 0 <= idx < q0.len() ==> item_kept(#[trigger] q0[idx]),
                wire.deep_view().len() == q0.take(j as int).filter(send_pred).len(),
                forall|k: int|
                    0 <= k < wire.deep_view().len() ==> routed_send_ok(
                        #[trigger] wire.deep_view()[k],
                        *topo,
                        n,
                        q0.take(j as int).filter(send_pred)[k].common,
                    ),
                control@.len() == q0.take(j as int).filter(ctrl_pred).len(),
                forall|k: int|
                    0 <= k < control@.len() ==> control@[k]
                        == PacketSenderControlMessage::TriggerNetworkDiscovery,
                send_pred == (|it: AckablePacketQueueItemV|
                    item_due(it, now_ms) && routable(*topo, n, it.common.peer_id)),
                ctrl_pred == (|it: AckablePacketQueueItemV|
                    item_due(it, now_ms) && !connected(*topo, n, it.common.peer_id)),
                self.packet_send_queue == old(self).packet_send_queue,
                self.flood_packets_queue == old(self).flood_packets_queue,
                self.node_id == old(self).node_id,
            decreases len - j,
        {
            proof {
                lemma_filter_take_step(q0, send_pred, j as int);
                lemma_filter_take_step(q0, ctrl_pred, j as int);
            }
            let ghost pre_dv = self.ackable_packet_send_queue.deep_view();
            let ghost pre_vec = self.ackable_packet_send_queue@;
            let item = self.ackable_packet_send_queue.remove(j);
            proof {
                assert(item@ == pre_dv[j as int]);
                assert(item@ == q0[j as int]);
            }
            let due = now_ms >= item.last_send_ms && now_ms - item.last_send_ms
                >= PACKET_RESEND_BACK_OFF_TIME_MS;
            if due {
                let copy = PacketQueueItem {
                    peer_id: item.common.peer_id,
                    session_id: item.common.session_id,
                    packet_type: item.common.packet_type.duplicate(),
                };
                assert(copy@ == item.common@);
                match self.route_packet(topo, copy) {
                    Ok(w) => {
                        let ghost pre_wire = wire.deep_view();
                        let ghost wv = w@;
                        wire.push(w);
                        proof {
                            assert(wire.deep_view() =~= pre_wire.push(wv));
                            assert forall|k: int|
                                0 <= k < wire.deep_view().len() implies routed_send_ok(
                                #[trigger] wire.deep_view()[k],
                                *topo,
                                n,
                                q0.take(j as int + 1).filter(send_pred)[k].common,
                            ) by {
                                if k < wire.deep_view().len() - 1 {
                                    assert(q0.take(j as int + 1).filter(send_pred)[k] == q0.take(
                                        j as int,
                                    ).filter(send_pred)[k]);
                                } else {
                                    assert(wire.deep_view()[k] == wv);
                                    assert(q0.take(j as int + 1).filter(send_pred)[k] == q0[j
                                        as int]);
                                }
                            }
                        }
                    },
                    Err(RoutePacketError::NoRouteFound(_)) => {
                        control.push(PacketSenderControlMessage::TriggerNetworkDiscovery);
                    },
                    Err(RoutePacketError::SendError) => {
                    },
                }
                let updated = AckablePacketQueueItem {
                    common: item.common,
                    last_send_ms: now_ms,
                    retries: item.retries + 1,
                };
                self.ackable_packet_send_queue.insert(j, updated);
                proof {
                    assert(self.ackable_packet_send_queue@ =~= pre_vec.update(j as int, updated));
                    assert(self.ackable_packet_send_queue.deep_view()[j as int] == item_after(
                        q0[j as int],
                        now_ms,
                    ));
                    assert forall|idx: int|
                        0 <= idx < q0.len() && idx != j implies #[trigger] self.ackable_packet_send_queue.deep_view()[idx]
                        == pre_dv[idx] by {
                        assert(self.ackable_packet_send_queue@[idx] == pre_vec[idx]);
                    }
                }
            } else {
                self.ackable_packet_send_queue.insert(j, item);
                proof {
                    assert(self.ackable_packet_send_queue@ =~= pre_vec.update(j as int, item));
                    assert(self.ackable_packet_send_queue@ =~= pre_vec);
                    assert(self.ackable_packet_send_queue.deep_view()[j as int] == q0[j as int]);
                    assert(!item_due(q0[j as int], now_ms));
                    assert forall|idx: int|
                        0 <= idx < q0.len() && idx != j implies #[trigger] self.ackable_packet_send_queue.deep_view()[idx]
                        == pre_dv[idx] by {
                        assert(self.ackable_packet_send_queue@[idx] == pre_vec[idx]);
                    }
                }
            }
            j += 1;
        }
        proof {
            assert(q0.take(len as int) =~= q0);
            assert(self.ackable_packet_send_queue.deep_view() =~= q0.map_values(
                |it: AckablePacketQueueItemV| item_after(it, now_ms),
            ));
        }
        (wire, control)
    }

    /// Always drains the flood queue: requests go to every neighbour
    /// with an empty route, responses ride their reversed path trace.
    fn send_flood_packets(&mut self) -> (w: Vec<WireSend>)
        ensures
            final(self).spec_node_id() == old(self).spec_node_id(),
            final(self).standard_q() == old(self).standard_q(),
            final(self).ackable_q() == old(self).ackable_q(),
            final(self).flood_q().len() == 0,
            w.deep_view() == flood_sends_of(old(self).flood_q()),
    {
        let ghost q0 = self.flood_packets_queue.deep_view();
        let n0 = self.flood_packets_queue.len();
        let mut wire: Vec<WireSend> = Vec::new();
        let mut i: usize = 0;
        while self.flood_packets_queue.len() > 0
            invariant
                q0.len() == n0,
                i + self.flood_packets_queue@.len() == q0.len(),
                self.flood_packets_queue.deep_view() =~= q0.skip(i as int),
                wire.deep_view() == flood_sends_of(q0.take(i as int)),
                self.packet_send_queue == old(self).packet_send_queue,
                self.ackable_packet_send_queue == old(self).ackable_packet_send_queue,
                self.node_id == old(self).node_id,
            decreases self.flood_packets_queue@.len(),
        {
            let ghost pre = self.flood_packets_queue.deep_view();
            let ghost pre_vec = self.flood_packets_queue@;
            let it = self.flood_packets_queue.remove(0);
            proof {
                assert(it@ == pre[0]);
                assert(pre[0] == q0[i as int]);
                assert(self.flood_packets_queue@ =~= pre_vec.remove(0));
                assert forall|k: int|
                    0 <= k < self.flood_packets_queue@.len() implies #[trigger] self.flood_packets_queue.deep_view()[k]
                    == q0.skip(i as int + 1)[k] by {
                    assert(self.flood_packets_queue@[k] == pre_vec[k + 1]);
                    assert(pre[k + 1] == q0.skip(i as int)[k + 1]);
                }
                assert(self.flood_packets_queue.deep_view() =~= q0.skip(i as int + 1));
                lemma_flood_sends_take_step(q0, i as int);
            }
            match it.packet_type {
                PacketType::FloodRequest(fr) => {
                    let packet = Packet {
                        pack_type: PacketType::FloodRequest(fr),
                        routing_header: SourceRoutingHeader { hop_index: 0, hops: Vec::new() },
                        session_id: it.session_id,
                    };
                    wire.push(WireSend::Broadcast { packet });
                    proof {
                        assert(wire.deep_view() =~= flood_sends_of(q0.take(i as int + 1)));
                    }
                },
                PacketType::FloodResponse(fr) => {
                    let m = fr.path_trace.len();
                    let mut hops: Vec<NodeId> = Vec::new();
                    let mut k: usize = 0;
                    while k < m
                        invariant
                            k <= m,
                            m == fr.path_trace@.len(),
                            hops@.len() == k,
                            forall|t: int|
                                0 <= t < k ==> hops@[t] == fr.path_trace@[m - 1 - t].0,
                        decreases m - k,
                    {
                        hops.push(fr.path_trace[m - 1 - k].0);
                        k += 1;
                    }
                    proof {
                        assert(hops@ =~= reversed_trace_ids(fr.path_trace@));
                    }
                    if m >= 2 {
                        let next_hop = hops[1];
                        let packet = Packet {
                            pack_type: PacketType::FloodResponse(fr),
                            routing_header: SourceRoutingHeader { hop_index: 1, hops },
                            session_id: it.session_id,
                        };
                        wire.push(WireSend::ToNeighbor { next_hop, packet });
                        proof {
                            assert(wire.deep_view() =~= flood_sends_of(q0.take(i as int + 1)));
                        }
                    } else {
                        proof {
                            assert(wire.deep_view() =~= flood_sends_of(q0.take(i as int + 1)));
                        }
                    }
                },
                _ => {
                    proof {
                        assert(wire.deep_view() =~= flood_sends_of(q0.take(i as int + 1)));
                    }
                },
            }
            i += 1;
        }
        proof {
            assert(q0.take(i as int) =~= q0);
        }
        wire
    }

    /// One pass over the queues, as the worker runs it each iteration:
    /// exhausted fragments are dropped; then — unless discovery is under
    /// way — the one-shot queue is drained and due fragments are
    /// retransmitted; the flood queue is always drained.  Every returned
    /// control message asks the node to re-run discovery; the returned
    /// sends end with exactly the flood deliveries.
    pub fn process_queue(&mut self, topo: &Topology, discovery_ongoing: bool, now_ms: u64) -> (r: (
        Vec<WireSend>,
        Vec<PacketSenderControlMessage>,
    ))
        requires
            topo.wf(),
        ensures
            final(self).spec_node_id() == old(self).spec_node_id(),
            final(self).flood_q().len() == 0,
            final(self).standard_q() == if discovery_ongoing {
                old(self).standard_q()
            } else {
                old(self).standard_q().filter(
                    |it: PacketQueueItemV| !connected(*topo, old(self).spec_node_id(), it.peer_id),
                )
            },
            final(self).ackable_q() == if discovery_ongoing {
                old(self).ackable_q().filter(|it: AckablePacketQueueItemV| item_kept(it))
            } else {
                old(self).ackable_q().filter(
                    |it: AckablePacketQueueItemV| item_kept(it),
                ).map_values(|it: AckablePacketQueueItemV| item_after(it, now_ms))
            },
            forall|k: int|
                0 <= k < r.1@.len() ==> r.1@[k]
                    == PacketSenderControlMessage::TriggerNetworkDiscovery,
            ({
                let n = old(self).spec_node_id();
                let kept = old(self).ackable_q().filter(
                    |it: AckablePacketQueueItemV| item_kept(it),
                );
                let std_sent = if discovery_ongoing {
                    Seq::<PacketQueueItemV>::empty()
                } else {
                    old(self).standard_q().filter(
                        |it: PacketQueueItemV| routable(*topo, n, it.peer_id),
                    )
                };
                let ack_sent = if discovery_ongoing {
                    Seq::<AckablePacketQueueItemV>::empty()
                } else {
                    kept.filter(
                        |it: AckablePacketQueueItemV| item_due(it, now_ms) && routable(
                            *topo,
                            n,
                            it.common.peer_id,
                        ),
                    )
                };
                let fl = flood_sends_of(old(self).flood_q());
                &&& r.0.deep_view().len() == std_sent.len() + ack_sent.len() + fl.len()
                &&& (forall|k: int|
                    0 <= k < std_sent.len() ==> routed_send_ok(
                        #[trigger] r.0.deep_view()[k],
                        *topo,
                        n,
                        std_sent[k],
                    ))
                &&& (forall|k: int|
                    0 <= k < ack_sent.len() ==> routed_send_ok(
                        #[trigger] r.0.deep_view()[std_sent.len() + k],
                        *topo,
                        n,
                        ack_sent[k].common,
                    ))
                &&& r.0.deep_view().subrange(
                    std_sent.len() + ack_sent.len() as int,
                    r.0.deep_view().len() as int,
                ) == fl
                &&& (discovery_ongoing ==> r.0.deep_view() == fl && r.1@.len() == 0)
                &&& r.1@.len() == if discovery_ongoing {
                    0
                } else {
                    old(self).standard_q().filter(
                        |it: PacketQueueItemV| !connected(*topo, n, it.peer_id),
                    ).len() + kept.filter(
                        |it: AckablePacketQueueItemV| item_due(it, now_ms) && !connected(
                            *topo,
                            n,
                            it.common.peer_id,
                        ),
                    ).len()
                }
            }),
    {
        self.drop_exhausted();
        let mut wire: Vec<WireSend> = Vec::new();
        let mut control: Vec<PacketSenderControlMessage> = Vec::new();
        if !discovery_ongoing {
            let (mut w1, mut c1) = self.send_standard_packets(topo);
            let ghost w1dv = w1.deep_view();
            wire.append(&mut w1);
            control.append(&mut c1);
            proof {
                assert(wire.deep_view() =~= w1dv);
            }
            let (mut w2, mut c2) = self.resend_ackable_packets(topo, now_ms);
            let ghost w2dv = w2.deep_view();
            wire.append(&mut w2);
            control.append(&mut c2);
            proof {
                assert(wire.deep_view() =~= w1dv + w2dv);
                assert forall|k: int| 0 <= k < w1dv.len() implies #[trigger] wire.deep_view()[k]
                    == w1dv[k] by {}
                assert forall|k: int|
                    0 <= k < w2dv.len() implies #[trigger] wire.deep_view()[w1dv.len() + k]
                    == w2dv[k] by {}
            }
        }
        let ghost before_flood = wire.deep_view();
        let mut w3 = self.send_flood_packets();
        let ghost fl = w3.deep_view();
        wire.append(&mut w3);
        proof {
            assert(wire.deep_view() =~= before_flood + fl);
            assert(wire.deep_view().subrange(
                before_flood.len() as int,
                wire.deep_view().len() as int,
            ) =~= fl);
            assert forall|k: int| 0 <= k < before_flood.len() implies #[trigger] wire.deep_view()[k]
                == before_flood[k] by {}
        }
        (wire, control)
    }

    /// The wait the worker should use before its next poll: for ever
    /// while it has nothing pending, a short budget while only
    /// acknowledgeable fragments wait, none at all otherwise.
    pub fn select_timeout(&self) -> (r: Option<u64>)
        ensures
            r == if self.standard_q().len() == 0 && self.ackable_q().len() == 0 {
                Option::<u64>::None
            } else if self.standard_q().len() == 0 {
                Option::Some(PACKET_RECV_TIMEOUT_MS)
            } else {
                Option::Some(0u64)
            },
    {
        if self.packet_send_queue.is_empty() && self.ackable_packet_send_queue.is_empty() {
            None
        } else if self.packet_send_queue.is_empty() {
            Some(PACKET_RECV_TIMEOUT_MS)
        } else {
            Some(0)
        }
    }

    /// One duty message from the node: a packet to classify, an
    /// acknowledgement to honour, or the order to stop.  Returns whether
    /// the worker must quit; on `Quit` the queues are left untouched and
    /// nothing further is drained.
    pub fn handle_duty(&mut self, duty: PacketSenderDutyMessage, now_ms: u64) -> (quit: bool)
        ensures
            final(self).spec_node_id() == old(self).spec_node_id(),
            match duty {
                PacketSenderDutyMessage::Packet((peer_id, session_id, ref packet_type)) => {
                    &&& !quit
                    &&& match packet_type@ {
                        PacketTypeV::MsgFragment(_) => {
                            &&& final(self).ackable_q() == old(self).ackable_q().push(
                                AckablePacketQueueItemV {
                                    common: PacketQueueItemV {
                                        peer_id,
                                        session_id,
                                        packet_type: packet_type@,
                                    },
                                    last_send_ms: if now_ms >= PACKET_RESEND_BACK_OFF_TIME_MS {
                                        (now_ms - PACKET_RESEND_BACK_OFF_TIME_MS) as u64
                                    } else {
                                        0
                                    },
                                    retries: 0,
                                },
                            )
                            &&& final(self).standard_q() == old(self).standard_q()
                            &&& final(self).flood_q() == old(self).flood_q()
                        },
                        PacketTypeV::FloodRequest(_) | PacketTypeV::FloodResponse(_) => {
                            &&& final(self).flood_q() == old(self).flood_q().push(
                                PacketQueueItemV {
                                    peer_id,
                                    session_id,
                                    packet_type: packet_type@,
                                },
                            )
                            &&& final(self).standard_q() == old(self).standard_q()
                            &&& final(self).ackable_q() == old(self).ackable_q()
                        },
                        _ => {
                            &&& final(self).standard_q() == old(self).standard_q().push(
                                PacketQueueItemV {
                                    peer_id,
                                    session_id,
                                    packet_type: packet_type@,
                                },
                            )
                            &&& final(self).ackable_q() == old(self).ackable_q()
                            &&& final(self).flood_q() == old(self).flood_q()
                        },
                    }
                },
                PacketSenderDutyMessage::AckedFragment((peer_id, session_id, fragment_index)) => {
                    &&& !quit
                    &&& final(self).ackable_q() == old(self).ackable_q().filter(
                        |it: AckablePacketQueueItemV| !acked_match(
                            it,
                            peer_id,
                            session_id,
                            fragment_index,
                        ),
                    )
                    &&& final(self).standard_q() == old(self).standard_q()
                    &&& final(self).flood_q() == old(self).flood_q()
                },
                PacketSenderDutyMessage::Quit => {
                    &&& quit
                    &&& final(self).standard_q() == old(self).standard_q()
                    &&& final(self).ackable_q() == old(self).ackable_q()
                    &&& final(self).flood_q() == old(self).flood_q()
                },
            },
    {
        match duty {
            PacketSenderDutyMessage::Packet((peer_id, session_id, packet_type)) => {
                self.handle_new_packet(peer_id, session_id, packet_type, now_ms);
                false
            },
            PacketSenderDutyMessage::AckedFragment((peer_id, session_id, fragment_index)) => {
                self.retain_acked_fragments(peer_id, session_id, fragment_index);
                false
            },
            PacketSenderDutyMessage::Quit => true,
        }
    }
}

// ---------------------------------------------------------------------------
// The life of one pending fragment
// ---------------------------------------------------------------------------

/// The state of one pending fragment after a sequence of worker passes.
/// Each pass is `(now_ms, active)`: the clock reading, and whether the
/// worker may send (discovery not ongoing).  A pass first drops the
/// fragment when its retries are used up, then — while active — treats a
/// due fragment as [`item_after`] does: stamp the send time, charge one
/// retry.
pub open spec fn item_run(
    it: Option<AckablePacketQueueItemV>,
    steps: Seq<(u64, bool)>,
) -> Option<AckablePacketQueueItemV>
    decreases steps.len(),
{
    if steps.len() == 0 {
        it
    } else {
        match item_run(it, steps.drop_last()) {
            Some(p) => {
                if !item_kept(p) {
                    None
                } else if steps.last().1 && item_due(p, steps.last().0) {
                    Some(item_after(p, steps.last().0))
                } else {
                    Some(p)
                }
            },
            None => None,
        }
    }
}

/// How many times the fragment goes over the wire in a run.
pub open spec fn item_run_sends(it: Option<AckablePacketQueueItemV>, steps: Seq<(u64, bool)>) -> nat
    decreases steps.len(),
{
    if steps.len() == 0 {
        0
    } else {
        item_run_sends(it, steps.drop_last()) + match item_run(it, steps.drop_last()) {
            Some(p) => {
                if item_kept(p) && steps.last().1 && item_due(p, steps.last().0) {
                    1nat
                } else {
                    0nat
                }
            },
            None => 0nat,
        }
    }
}

/// The fragment goes over the wire at pass `i` of the run.
pub open spec fn item_sent_at(
    it: AckablePacketQueueItemV,
    steps: Seq<(u64, bool)>,
    i: int,
) -> bool {
    0 <= i < steps.len() && match item_run(Some(it), steps.take(i)) {
        Some(p) => item_kept(p) && steps[i].1 && item_due(p, steps[i].0),
        None => false,
    }
}

/// While alive, the fragment has been charged one retry per send, and
/// the total never passes the budget.
proof fn lemma_run_retries(it: AckablePacketQueueItemV, steps: Seq<(u64, bool)>)
    requires
        it.retries <= PACKET_RESEND_MAX_RETRIES,
    ensures
        item_run_sends(Some(it), steps) + it.retries <= PACKET_RESEND_MAX_RETRIES,
        item_run(Some(it), steps) matches Some(p) ==> p.retries == it.retries + item_run_sends(
            Some(it),
            steps,
        ),
    decreases steps.len(),
{
    if steps.len() > 0 {
        lemma_run_retries(it, steps.drop_last());
    }
}

/// Bounded retries: a fragment enters the worker with no retries spent,
/// so over its whole life it goes over the wire at most
/// `PACKET_RESEND_MAX_RETRIES` times, however the clock reads and
/// however discovery windows fall.
pub proof fn lemma_bounded_retries(it: AckablePacketQueueItemV, steps: Seq<(u64, bool)>)
    requires
        it.retries == 0,
    ensures
        item_run_sends(Some(it), steps) <= PACKET_RESEND_MAX_RETRIES,
{
    lemma_run_retries(it, steps);
}

/// After a send, the fragment's send stamp never falls below that send's
/// clock reading.
proof fn lemma_last_send_monotone(
    it: AckablePacketQueueItemV,
    steps: Seq<(u64, bool)>,
    i1: int,
    k: int,
)
    requires
        item_sent_at(it, steps, i1),
        i1 < k <= steps.len(),
        item_run(Some(it), steps.take(k)) is Some,
    ensures
        (item_run(Some(it), steps.take(k))->0).last_send_ms >= steps[i1].0,
    decreases k,
{
    let prev = item_run(Some(it), steps.take(k - 1));
    assert(steps.take(k).drop_last() =~= steps.take(k - 1));
    assert(steps.take(k).last() == steps[k - 1]);
    if k == i1 + 1 {
        assert(item_run(Some(it), steps.take(k)) == Some(
            item_after(item_run(Some(it), steps.take(i1))->0, steps[i1].0),
        ));
    } else {
        assert(prev is Some);
        lemma_last_send_monotone(it, steps, i1, k - 1);
    }
}

/// Back-off: any two transmissions of one fragment are at least
/// `PACKET_RESEND_BACK_OFF_TIME_MS` apart on the clock — in particular
/// its first retry comes no sooner than the back-off after the first
/// send.
pub proof fn lemma_retry_back_off(
    it: AckablePacketQueueItemV,
    steps: Seq<(u64, bool)>,
    i1: int,
    i2: int,
)
    requires
        item_sent_at(it, steps, i1),
        item_sent_at(it, steps, i2),
        i1 < i2,
    ensures
        steps[i2].0 >= steps[i1].0 + PACKET_RESEND_BACK_OFF_TIME_MS,
{
    lemma_last_send_monotone(it, steps, i1, i2);
    let p = item_run(Some(it), steps.take(i2))->0;
    assert(item_due(p, steps[i2].0));
}

} // verus!
