//! Flood-based network discovery.
//!
//! A node floods the network with a request carrying a fresh random id,
//! collects the responses that come back within a bounded window, and
//! folds their path traces into an undirected adjacency map: every pair
//! of nodes that stand next to each other in some trace becomes an edge
//! in both directions.

use vstd::prelude::*;
use crate::packet::{FloodResponse, NodeId, NodeKind};
use crate::utils::random_u64;

verus! {

/// How long a node collects flood responses after starting a discovery,
/// in milliseconds.
pub const MAX_WAIT_FLOOD_RESPONSE_MS: u64 = 50;

/// The adjacency map: for every node id, the ids it was seen next to.
pub struct Topology {
    lists: Vec<Vec<NodeId>>,
}

impl Topology {
    /// The neighbour list recorded for `u`, in insertion order.
    pub closed spec fn neighbors_of(&self, u: NodeId) -> Seq<NodeId> {
        self.lists@[u as int]@
    }

    /// `v` stands in `u`'s neighbour list.
    pub open spec fn edge(&self, u: NodeId, v: NodeId) -> bool {
        self.neighbors_of(u).contains(v)
    }

    /// One list per possible node id, none naming a neighbour twice.
    pub closed spec fn wf(&self) -> bool {
        &&& self.lists@.len() == 256
        &&& forall|u: NodeId| (#[trigger] self.lists@[u as int]@).no_duplicates()
    }

    /// An adjacency map with no edges.
    pub fn new() -> (r: Self)
        ensures
            r.wf(),
            forall|u: NodeId, v: NodeId| !r.edge(u, v),
            forall|u: NodeId| (#[trigger] r.neighbors_of(u)).no_duplicates(),
    {
        let mut lists: Vec<Vec<NodeId>> = Vec::new();
        let mut i: usize = 0;
        while i < 256
            invariant
                i <= 256,
                lists@.len() == i,
                forall|j: int| 0 <= j < i ==> (#[trigger] lists@[j])@.len() == 0,
            decreases 256 - i,
        {
            lists.push(Vec::new());
            i += 1;
        }
        let r = Topology { lists };
        assert forall|u: NodeId, v: NodeId| !r.edge(u, v) by {
            assert(r.lists@[u as int]@.len() == 0);
        }
        assert forall|u: NodeId| (#[trigger] r.neighbors_of(u)).no_duplicates() by {
            assert(r.lists@[u as int]@.len() == 0);
        }
        r
    }

    /// A well-formed map never names a neighbour twice.
    pub proof fn lemma_wf_no_dup(&self)
        requires
            self.wf(),
        ensures
            forall|u: NodeId| (#[trigger] self.neighbors_of(u)).no_duplicates(),
    {
    }

    /// Whether `v` was seen next to `u`.
    pub fn has_edge(&self, u: NodeId, v: NodeId) -> (r: bool)
        requires
            self.wf(),
        ensures
            r == self.edge(u, v),
    {
        let list = &self.lists[u as usize];
        let n = list.len();
        let mut i: usize = 0;
        let mut found = false;
        while i < n
            invariant
                i <= n,
                n == list@.len(),
                found <==> exists|t: int| 0 <= t < i && list@[t] == v,
            decreases n - i,
        {
            if list[i] == v {
                found = true;
            }
            i += 1;
        }
        proof {
            if found {
                let t = choose|t: int| 0 <= t < i && list@[t] == v;
                assert(self.neighbors_of(u).contains(v));
            }
            if self.neighbors_of(u).contains(v) {
                let t = choose|t: int|
                    0 <= t < self.neighbors_of(u).len() && self.neighbors_of(u)[t] == v;
                assert(exists|t2: int| 0 <= t2 < i && list@[t2] == v);
            }
        }
        found
    }

    /// How many neighbours `u` has.
    pub fn degree(&self, u: NodeId) -> (r: usize)
        requires
            self.wf(),
        ensures
            r == self.neighbors_of(u).len(),
    {
        self.lists[u as usize].len()
    }

    /// The `i`-th neighbour of `u`.
    pub fn neighbor(&self, u: NodeId, i: usize) -> (r: NodeId)
        requires
            self.wf(),
            i < self.neighbors_of(u).len(),
        ensures
            r == self.neighbors_of(u)[i as int],
            self.edge(u, r),
    {
        self.lists[u as usize][i]
    }

    /// Records the directed edge `node -> hop`, once.
    fn insert_hop(&mut self, node: NodeId, hop: NodeId)
        requires
            old(self).wf(),
        ensures
            final(self).wf(),
            forall|a: NodeId, b: NodeId|
                final(self).edge(a, b) <==> old(self).edge(a, b) || (a == node && b == hop),
            forall|a: NodeId|
                (#[trigger] old(self).neighbors_of(a)).no_duplicates()
                    ==> final(self).neighbors_of(a).no_duplicates(),
    {
        let idx = node as usize;
        let list = &self.lists[idx];
        let mut found = false;
        let mut i: usize = 0;
        let n = list.len();
        while i < n
            invariant
                i <= n,
                n == list@.len(),
                found <==> exists|j: int| 0 <= j < i && list@[j] == hop,
            decreases n - i,
        {
            if list[i] == hop {
                found = true;
            }
            i += 1;
        }
        if !found {
            assert(!self.lists@[node as int]@.contains(hop));
            let mut list = self.lists.remove(idx);
            list.push(hop);
            self.lists.insert(idx, list);
            proof {
                assert(self.lists@.len() == 256);
                assert(self.lists@[node as int]@ == old(self).lists@[node as int]@.push(hop));
                assert forall|a: NodeId, b: NodeId| #![auto]
                    self.edge(a, b) <==> (old(self).edge(a, b) || (a == node && b
                    == hop)) by {
                    if a == node {
                        let l_old = old(self).lists@[a as int]@;
                        let l_new = self.lists@[a as int]@;
                        assert(l_new == l_old.push(hop));
                        if self.edge(a, b) {
                            let j = choose|j: int| 0 <= j < l_new.len() && l_new[j] == b;
                            if j < l_old.len() {
                                assert(l_old[j] == b);
                            } else {
                                assert(b == hop);
                            }
                        }
                        if old(self).edge(a, b) {
                            let j = choose|j: int| 0 <= j < l_old.len() && l_old[j] == b;
                            assert(l_new[j] == b);
                        }
                        if b == hop {
                            assert(l_new[l_old.len() as int] == hop);
                        }
                    } else {
                        assert(self.lists@[a as int] == old(self).lists@[a as int]);
                    }
                }
                assert forall|a: NodeId|
                    (#[trigger] old(self).neighbors_of(a)).no_duplicates()
                    implies self.neighbors_of(a).no_duplicates() by {
                    if a == node {
                        let l_old = old(self).lists@[a as int]@;
                        let l_new = self.lists@[a as int]@;
                        assert(l_new == l_old.push(hop));
                        assert(!l_old.contains(hop));
                        assert forall|x: int, y: int|
                            0 <= x < l_new.len() && 0 <= y < l_new.len() && x != y implies l_new[x]
                            != l_new[y] by {
                            if x < l_old.len() && y < l_old.len() {
                                assert(l_new[x] == l_old[x] && l_new[y] == l_old[y]);
                            } else if y == l_old.len() {
                                if l_new[x] == hop {
                                    assert(l_old[x] == hop);
                                    assert(l_old.contains(hop));
                                }
                            } else {
                                if l_new[y] == hop {
                                    assert(l_old[y] == hop);
                                    assert(l_old.contains(hop));
                                }
                            }
                        }
                    } else {
                        assert(self.lists@[a as int] == old(self).lists@[a as int]);
                    }
                }
            }
        } else {
            proof {
                let j = choose|j: int| 0 <= j < n && self.lists@[node as int]@[j] == hop;
                assert(self.lists@[node as int]@.contains(hop));
            }
        }
    }
}

/// `u` and `v` stand next to each other in one of the collected traces.
pub open spec fn trace_adjacent(traces: Seq<Seq<(NodeId, NodeKind)>>, u: NodeId, v: NodeId) -> bool {
    exists|q: int, j: int|
        #![trigger traces[q][j]]
        0 <= q < traces.len() && 0 <= j && j + 1 < traces[q].len() && ((traces[q][j].0 == u
            && traces[q][j + 1].0 == v) || (traces[q][j].0 == v && traces[q][j + 1].0 == u))
}

/// The pairs recorded after folding the first `q` traces whole and the
/// first `i` pairs of trace `q`.
spec fn trace_adjacent_upto(
    traces: Seq<Seq<(NodeId, NodeKind)>>,
    q_done: int,
    i_done: int,
    u: NodeId,
    v: NodeId,
) -> bool {
    exists|q: int, j: int|
        #![trigger traces[q][j]]
        0 <= q < traces.len() && 0 <= j && j + 1 < traces[q].len() && (q < q_done || (q == q_done
            && j < i_done)) && ((traces[q][j].0 == u && traces[q][j + 1].0 == v) || (
        traces[q][j].0 == v && traces[q][j + 1].0 == u))
}

/// Discovery state: the current flood id, whether a window is open, the
/// responses collected so far, and when the window opened.
pub struct NetDiscovery {
    last_id: u64,
    ongoing: bool,
    responses: Vec<FloodResponse>,
    start_time_ms: u64,
}

impl NetDiscovery {
    /// The id of the flood in progress (or last finished).
    pub closed spec fn spec_id(&self) -> u64 {
        self.last_id
    }

    /// Whether a discovery window is open.
    pub closed spec fn spec_ongoing(&self) -> bool {
        self.ongoing
    }

    /// When the current window opened, in milliseconds.
    pub closed spec fn spec_start_time(&self) -> u64 {
        self.start_time_ms
    }

    /// The path traces of the responses collected so far.
    pub closed spec fn traces(&self) -> Seq<Seq<(NodeId, NodeKind)>> {
        Seq::new(self.responses@.len(), |r: int| self.responses@[r].path_trace@)
    }

    /// Fresh discovery state: no window open, nothing collected.
    pub fn new() -> (r: Self)
        ensures
            r.spec_id() == 0,
            !r.spec_ongoing(),
            r.traces().len() == 0,
            r.spec_start_time() == 0,
    {
        NetDiscovery { last_id: 0, ongoing: false, responses: Vec::new(), start_time_ms: 0 }
    }

    /// Folds every collected trace into an undirected adjacency map and
    /// clears the response buffer.  An edge appears exactly for the pairs
    /// that stand next to each other in some trace, in both directions.
    pub fn parse_network(&mut self) -> (r: Topology)
        ensures
            r.wf(),
            forall|u: NodeId, v: NodeId|
                #![trigger r.edge(u, v)]
                r.edge(u, v) <==> trace_adjacent(old(self).traces(), u, v),
            forall|u: NodeId| (#[trigger] r.neighbors_of(u)).no_duplicates(),
            final(self).traces().len() == 0,
            final(self).spec_id() == old(self).spec_id(),
            final(self).spec_ongoing() == old(self).spec_ongoing(),
            final(self).spec_start_time() == old(self).spec_start_time(),
    {
        let ghost all = self.traces();
        let mut topo = Topology::new();
        proof {
            lemma_upto_start(all);
        }
        let n_resp = self.responses.len();
        let mut q: usize = 0;
        while q < n_resp
            invariant
                q <= n_resp,
                n_resp == self.responses@.len(),
                all == self.traces(),
                topo.wf(),
                forall|u: NodeId| (#[trigger] topo.neighbors_of(u)).no_duplicates(),
                forall|u: NodeId, v: NodeId|
                    #![trigger topo.edge(u, v)]
                    topo.edge(u, v) <==> trace_adjacent_upto(all, q as int, 0, u, v),
            decreases n_resp - q,
        {
            let trace_len = self.responses[q].path_trace.len();
            if trace_len > 0 {
                let mut i: usize = 0;
                while i + 1 < trace_len
                    invariant
                        i + 1 <= trace_len,
                        q < n_resp,
                        n_resp == self.responses@.len(),
                        trace_len == self.responses@[q as int].path_trace@.len(),
                        all == self.traces(),
                        topo.wf(),
                        forall|u: NodeId| (#[trigger] topo.neighbors_of(u)).no_duplicates(),
                        forall|u: NodeId, v: NodeId|
                            #![trigger topo.edge(u, v)]
                            topo.edge(u, v) <==> trace_adjacent_upto(all, q as int, i as int, u, v),
                    decreases trace_len - i,
                {
                    let a = self.responses[q].path_trace[i].0;
                    let b = self.responses[q].path_trace[i + 1].0;
                    let ghost before_first = topo;
                    topo.insert_hop(a, b);
                    proof {
                        assert forall|u: NodeId|
                            (#[trigger] topo.neighbors_of(u)).no_duplicates() by {
                            assert(before_first.neighbors_of(u).no_duplicates());
                        }
                    }
                    let ghost before_second = topo;
                    topo.insert_hop(b, a);
                    proof {
                        assert forall|u: NodeId|
                            (#[trigger] topo.neighbors_of(u)).no_duplicates() by {
                            assert(before_second.neighbors_of(u).no_duplicates());
                        }
                    }
                    proof {
                        assert(all[q as int] == self.responses@[q as int].path_trace@);
                        assert(all[q as int][i as int].0 == a);
                        assert(all[q as int][i as int + 1].0 == b);
                        assert forall|u: NodeId, v: NodeId|
                            #![trigger topo.edge(u, v)]
                            topo.edge(u, v) <==> trace_adjacent_upto(
                            all,
                            q as int,
                            i as int + 1,
                            u,
                            v,
                        ) by {
                            if topo.edge(u, v) {
                                if trace_adjacent_upto(all, q as int, i as int, u, v) {
                                    let (q0, j0) = choose|q0: int, j0: int|
                #![trigger all[q0][j0]]
                                        0 <= q0 < all.len() && 0 <= j0 && j0 + 1 < all[q0].len()
                                            && (q0 < q as int || (q0 == q as int && j0 < i as int))
                                            && ((all[q0][j0].0 == u && all[q0][j0 + 1].0 == v) || (
                                        all[q0][j0].0 == v && all[q0][j0 + 1].0 == u));
                                    assert(trace_adjacent_upto(all, q as int, i as int + 1, u, v));
                                } else {
                                    assert((u == a && v == b) || (u == b && v == a));
                                    assert(trace_adjacent_upto(all, q as int, i as int + 1, u, v));
                                }
                            }
                            if trace_adjacent_upto(all, q as int, i as int + 1, u, v) {
                                let (q0, j0) = choose|q0: int, j0: int|
                #![trigger all[q0][j0]]
                                    0 <= q0 < all.len() && 0 <= j0 && j0 + 1 < all[q0].len() && (q0
                                    < q as int || (q0 == q as int && j0 < i as int + 1)) && ((
                                all[q0][j0].0 == u && all[q0][j0 + 1].0 == v) || (all[q0][j0].0 == v
                                    && all[q0][j0 + 1].0 == u));
                                if q0 == q as int && j0 == i as int {
                                    assert((u == a && v == b) || (u == b && v == a));
                                    assert(topo.edge(u, v));
                                } else {
                                    assert(trace_adjacent_upto(all, q as int, i as int, u, v));
                                }
                            }
                        }
                    }
                    i += 1;
                }
                proof {
                    lemma_upto_advance_row(all, q as int, (trace_len - 1) as int);
                }
            } else {
                proof {
                    lemma_upto_advance_row_empty(all, q as int);
                }
            }
            q += 1;
        }
        self.responses.clear();
        proof {
            lemma_upto_complete(all);
        }
        topo
    }

    /// Stores one flood response for the coming fold.
    pub fn add_response(&mut self, response: FloodResponse)
        ensures
            final(self).traces() =~= old(self).traces().push(response.path_trace@),
            final(self).spec_id() == old(self).spec_id(),
            final(self).spec_ongoing() == old(self).spec_ongoing(),
            final(self).spec_start_time() == old(self).spec_start_time(),
    {
        self.responses.push(response);
    }

    /// The id of the flood in progress.
    pub fn get_id(&self) -> (r: u64)
        ensures
            r == self.spec_id(),
    {
        self.last_id
    }

    /// Whether a discovery window is open.
    pub fn get_ongoing(&self) -> (r: bool)
        ensures
            r == self.spec_ongoing(),
    {
        self.ongoing
    }

    /// Opens or closes the discovery window.
    pub fn set_ongoing(&mut self, value: bool)
        ensures
            final(self).spec_ongoing() == value,
            final(self).spec_id() == old(self).spec_id(),
            final(self).traces() == old(self).traces(),
            final(self).spec_start_time() == old(self).spec_start_time(),
    {
        self.ongoing = value;
    }

    /// How long the current window has been open.
    pub fn get_elapsed(&self, now_ms: u64) -> (r: u64)
        ensures
            r == if now_ms >= self.spec_start_time() {
                now_ms - self.spec_start_time()
            } else {
                0
            },
    {
        if now_ms >= self.start_time_ms {
            now_ms - self.start_time_ms
        } else {
            0
        }
    }

    /// Starts a fresh discovery: seeds a random flood id, opens the
    /// window at `now_ms`, and clears the collected responses.
    pub fn init(&mut self, now_ms: u64)
        ensures
            final(self).spec_ongoing(),
            final(self).traces().len() == 0,
            final(self).spec_start_time() == now_ms,
    {
        self.last_id = random_u64();
        self.ongoing = true;
        self.start_time_ms = now_ms;
        self.responses.clear();
    }
}

/// Before any trace is folded, no pair is recorded.
proof fn lemma_upto_start(traces: Seq<Seq<(NodeId, NodeKind)>>)
    ensures
        forall|u: NodeId, v: NodeId| !trace_adjacent_upto(traces, 0, 0, u, v),
{
    assert forall|u: NodeId, v: NodeId| !trace_adjacent_upto(traces, 0, 0, u, v) by {
        if trace_adjacent_upto(traces, 0, 0, u, v) {
            let (q0, j0) = choose|q0: int, j0: int|
                #![trigger traces[q0][j0]]
                0 <= q0 < traces.len() && 0 <= j0 && j0 + 1 < traces[q0].len() && (q0 < 0 || (q0
                    == 0 && j0 < 0)) && ((traces[q0][j0].0 == u && traces[q0][j0 + 1].0 == v) || (
                traces[q0][j0].0 == v && traces[q0][j0 + 1].0 == u));
            assert(false);
        }
    }
}

/// After the last trace, the fold has recorded exactly the adjacent
/// pairs.
proof fn lemma_upto_complete(traces: Seq<Seq<(NodeId, NodeKind)>>)
    ensures
        forall|u: NodeId, v: NodeId|
            trace_adjacent_upto(traces, traces.len() as int, 0, u, v) <==> trace_adjacent(
                traces,
                u,
                v,
            ),
{
    assert forall|u: NodeId, v: NodeId|
        trace_adjacent_upto(traces, traces.len() as int, 0, u, v) <==> trace_adjacent(
            traces,
            u,
            v,
        ) by {
        if trace_adjacent_upto(traces, traces.len() as int, 0, u, v) {
            let (q0, j0) = choose|q0: int, j0: int|
                #![trigger traces[q0][j0]]
                0 <= q0 < traces.len() && 0 <= j0 && j0 + 1 < traces[q0].len() && (q0
                    < traces.len() as int || (q0 == traces.len() as int && j0 < 0)) && ((
                traces[q0][j0].0 == u && traces[q0][j0 + 1].0 == v) || (traces[q0][j0].0 == v
                    && traces[q0][j0 + 1].0 == u));
            assert(trace_adjacent(traces, u, v));
        }
        if trace_adjacent(traces, u, v) {
            let (q0, j0) = choose|q0: int, j0: int|
                #![trigger traces[q0][j0]]
                0 <= q0 < traces.len() && 0 <= j0 && j0 + 1 < traces[q0].len() && ((traces[q0][j0].0
                    == u && traces[q0][j0 + 1].0 == v) || (traces[q0][j0].0 == v && traces[q0][j0
                    + 1].0 == u));
            assert(trace_adjacent_upto(traces, traces.len() as int, 0, u, v));
        }
    }
}

/// Finishing a row carries the fold invariant to the next row.
proof fn lemma_upto_advance_row(traces: Seq<Seq<(NodeId, NodeKind)>>, q: int, last: int)
    requires
        0 <= q < traces.len(),
        last == traces[q].len() - 1,
        traces[q].len() >= 1,
    ensures
        forall|u: NodeId, v: NodeId|
            trace_adjacent_upto(traces, q, last, u, v) <==> trace_adjacent_upto(
                traces,
                q + 1,
                0,
                u,
                v,
            ),
{
    assert forall|u: NodeId, v: NodeId|
        trace_adjacent_upto(traces, q, last, u, v) <==> trace_adjacent_upto(
            traces,
            q + 1,
            0,
            u,
            v,
        ) by {
        if trace_adjacent_upto(traces, q, last, u, v) {
            let (q0, j0) = choose|q0: int, j0: int|
                #![trigger traces[q0][j0]]
                0 <= q0 < traces.len() && 0 <= j0 && j0 + 1 < traces[q0].len() && (q0 < q || (q0
                    == q && j0 < last)) && ((traces[q0][j0].0 == u && traces[q0][j0 + 1].0 == v)
                    || (traces[q0][j0].0 == v && traces[q0][j0 + 1].0 == u));
            assert(trace_adjacent_upto(traces, q + 1, 0, u, v));
        }
        if trace_adjacent_upto(traces, q + 1, 0, u, v) {
            let (q0, j0) = choose|q0: int, j0: int|
                #![trigger traces[q0][j0]]
                0 <= q0 < traces.len() && 0 <= j0 && j0 + 1 < traces[q0].len() && (q0 < q + 1 || (
                q0 == q + 1 && j0 < 0)) && ((traces[q0][j0].0 == u && traces[q0][j0 + 1].0 == v)
                    || (traces[q0][j0].0 == v && traces[q0][j0 + 1].0 == u));
            assert(q0 <= q);
            if q0 == q {
                assert(j0 + 1 < traces[q].len());
                assert(j0 < last);
            }
            assert(trace_adjacent_upto(traces, q, last, u, v));
        }
    }
}

/// An empty row adds no pairs.
proof fn lemma_upto_advance_row_empty(traces: Seq<Seq<(NodeId, NodeKind)>>, q: int)
    requires
        0 <= q < traces.len(),
        traces[q].len() == 0,
    ensures
        forall|u: NodeId, v: NodeId|
            trace_adjacent_upto(traces, q, 0, u, v) <==> trace_adjacent_upto(
                traces,
                q + 1,
                0,
                u,
                v,
            ),
{
    assert forall|u: NodeId, v: NodeId|
        trace_adjacent_upto(traces, q, 0, u, v) <==> trace_adjacent_upto(
            traces,
            q + 1,
            0,
            u,
            v,
        ) by {
        if trace_adjacent_upto(traces, q, 0, u, v) {
            let (q0, j0) = choose|q0: int, j0: int|
                #![trigger traces[q0][j0]]
                0 <= q0 < traces.len() && 0 <= j0 && j0 + 1 < traces[q0].len() && (q0 < q || (q0
                    == q && j0 < 0)) && ((traces[q0][j0].0 == u && traces[q0][j0 + 1].0 == v) || (
                traces[q0][j0].0 == v && traces[q0][j0 + 1].0 == u));
            assert(trace_adjacent_upto(traces, q + 1, 0, u, v));
        }
        if trace_adjacent_upto(traces, q + 1, 0, u, v) {
            let (q0, j0) = choose|q0: int, j0: int|
                #![trigger traces[q0][j0]]
                0 <= q0 < traces.len() && 0 <= j0 && j0 + 1 < traces[q0].len() && (q0 < q + 1 || (
                q0 == q + 1 && j0 < 0)) && ((traces[q0][j0].0 == u && traces[q0][j0 + 1].0 == v)
                    || (traces[q0][j0].0 == v && traces[q0][j0 + 1].0 == u));
            if q0 == q {
                assert(false);
            }
            assert(trace_adjacent_upto(traces, q, 0, u, v));
        }
    }
}

/// Undirected adjacency: every pair observed in a flood path trace is an
/// edge in both directions of the folded map.
pub proof fn lemma_adjacency_undirected(
    topo: Topology,
    traces: Seq<Seq<(NodeId, NodeKind)>>,
    u: NodeId,
    v: NodeId,
)
    requires
        forall|a: NodeId, b: NodeId|
            #![trigger topo.edge(a, b)]
            topo.edge(a, b) <==> trace_adjacent(traces, a, b),
    ensures
        topo.edge(u, v) <==> topo.edge(v, u),
{
    assert(trace_adjacent(traces, u, v) <==> trace_adjacent(traces, v, u)) by {
        if trace_adjacent(traces, u, v) {
            let (q0, j0) = choose|q0: int, j0: int|
                #![trigger traces[q0][j0]]
                0 <= q0 < traces.len() && 0 <= j0 && j0 + 1 < traces[q0].len() && ((traces[q0][j0].0
                    == u && traces[q0][j0 + 1].0 == v) || (traces[q0][j0].0 == v && traces[q0][j0
                    + 1].0 == u));
            assert(trace_adjacent(traces, v, u));
        }
        if trace_adjacent(traces, v, u) {
            let (q0, j0) = choose|q0: int, j0: int|
                #![trigger traces[q0][j0]]
                0 <= q0 < traces.len() && 0 <= j0 && j0 + 1 < traces[q0].len() && ((traces[q0][j0].0
                    == v && traces[q0][j0 + 1].0 == u) || (traces[q0][j0].0 == u && traces[q0][j0
                    + 1].0 == v));
            assert(trace_adjacent(traces, u, v));
        }
    }
}

} // verus!
