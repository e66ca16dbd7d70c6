//! The topology description a network is spawned from: drones, clients
//! and servers with their connections.  Connectivity is undirected and
//! must be bilateral; the supervisor validates that before spawning.
//!
//! A drone's packet drop rate concerns only the drone implementation the
//! embedding program spawns, and stays with it.

use vstd::prelude::*;
use crate::packet::NodeId;

verus! {

/// A drone entry: its id and the nodes it connects to.
#[derive(Clone, PartialEq, Eq, Debug)]
pub struct Drone {
    pub id: NodeId,
    pub connected_node_ids: Vec<NodeId>,
}

/// A client entry: its id and the drones it connects to.
#[derive(Clone, PartialEq, Eq, Debug)]
pub struct Client {
    pub id: NodeId,
    pub connected_drone_ids: Vec<NodeId>,
}

/// A server entry: its id, the drones it connects to, its role and
/// where it persists.
#[derive(Clone, PartialEq, Eq, Debug)]
pub struct Server {
    pub id: NodeId,
    pub connected_drone_ids: Vec<NodeId>,
    pub server_type: String,
    pub base_path: String,
}

/// A whole topology description.
#[derive(Clone, PartialEq, Eq, Debug)]
pub struct Config {
    pub drone: Vec<Drone>,
    pub client: Vec<Client>,
    pub server: Vec<Server>,
}

/// Some entry with id `a` lists `b` among its connections.
pub open spec fn mentions(c: Config, a: NodeId, b: NodeId) -> bool {
    ||| exists|i: int|
        #![trigger c.drone@[i]]
        0 <= i < c.drone@.len() && c.drone@[i].id == a && c.drone@[i].connected_node_ids@.contains(
            b,
        )
    ||| exists|i: int|
        #![trigger c.client@[i]]
        0 <= i < c.client@.len() && c.client@[i].id == a
            && c.client@[i].connected_drone_ids@.contains(b)
    ||| exists|i: int|
        #![trigger c.server@[i]]
        0 <= i < c.server@.len() && c.server@[i].id == a
            && c.server@[i].connected_drone_ids@.contains(b)
}

/// Whether `list` holds `x`.
fn list_contains(list: &Vec<NodeId>, x: NodeId) -> (r: bool)
    ensures
        r == list@.contains(x),
{
    let n = list.len();
    let mut i: usize = 0;
    let mut found = false;
    while i < n
        invariant
            i <= n,
            n == list@.len(),
            found <==> exists|t: int| 0 <= t < i && list@[t] == x,
        decreases n - i,
    {
        if list[i] == x {
            found = true;
        }
        i += 1;
    }
    proof {
        if found {
            let t = choose|t: int| 0 <= t < i && list@[t] == x;
            assert(list@.contains(x));
        }
        if list@.contains(x) {
            let t = choose|t: int| 0 <= t < list@.len() && list@[t] == x;
            assert(exists|t2: int| 0 <= t2 < i && list@[t2] == x);
        }
    }
    found
}

impl Config {
    /// Every listed connection is listed from both ends.
    pub open spec fn bilateral(&self) -> bool {
        forall|a: NodeId, b: NodeId| #[trigger] mentions(*self, a, b) ==> mentions(*self, b, a)
    }

    /// Whether some entry with id `a` lists `b`.
    fn mentions_exec(&self, a: NodeId, b: NodeId) -> (r: bool)
        ensures
            r == mentions(*self, a, b),
    {
        let mut found = false;
        let n_d = self.drone.len();
        let mut i: usize = 0;
        while i < n_d
            invariant
                i <= n_d,
                n_d == self.drone@.len(),
                found <==> exists|t: int|
                    #![trigger self.drone@[t]]
                    0 <= t < i && self.drone@[t].id == a
                        && self.drone@[t].connected_node_ids@.contains(b),
            decreases n_d - i,
        {
            if self.drone[i].id == a && list_contains(&self.drone[i].connected_node_ids, b) {
                found = true;
            }
            i += 1;
        }
        if found {
            return true;
        }
        let n_c = self.client.len();
        let mut i: usize = 0;
        while i < n_c
            invariant
                i <= n_c,
                n_c == self.client@.len(),
                !(exists|t: int|
                    #![trigger self.drone@[t]]
                    0 <= t < self.drone@.len() && self.drone@[t].id == a
                        && self.drone@[t].connected_node_ids@.contains(b)),
                found <==> exists|t: int|
                    #![trigger self.client@[t]]
                    0 <= t < i && self.client@[t].id == a
                        && self.client@[t].connected_drone_ids@.contains(b),
            decreases n_c - i,
        {
            if self.client[i].id == a && list_contains(&self.client[i].connected_drone_ids, b) {
                found = true;
            }
            i += 1;
        }
        if found {
            return true;
        }
        let n_s = self.server.len();
        let mut i: usize = 0;
        while i < n_s
            invariant
                i <= n_s,
                n_s == self.server@.len(),
                !(exists|t: int|
                    #![trigger self.drone@[t]]
                    0 <= t < self.drone@.len() && self.drone@[t].id == a
                        && self.drone@[t].connected_node_ids@.contains(b)),
                !(exists|t: int|
                    #![trigger self.client@[t]]
                    0 <= t < self.client@.len() && self.client@[t].id == a
                        && self.client@[t].connected_drone_ids@.contains(b)),
                found <==> exists|t: int|
                    #![trigger self.server@[t]]
                    0 <= t < i && self.server@[t].id == a
                        && self.server@[t].connected_drone_ids@.contains(b),
            decreases n_s - i,
        {
            if self.server[i].id == a && list_contains(&self.server[i].connected_drone_ids, b) {
                found = true;
            }
            i += 1;
        }
        found
    }

    /// Checks that every listed connection is listed from both ends.
    pub fn validate(&self) -> (r: bool)
        ensures
            r == self.bilateral(),
    {
        let n_d = self.drone.len();
        let mut i: usize = 0;
        while i < n_d
            invariant
                i <= n_d,
                n_d == self.drone@.len(),
                forall|t: int, u: int|
                    #![trigger self.drone@[t].connected_node_ids@[u]]
                    0 <= t < i && 0 <= u < self.drone@[t].connected_node_ids@.len() ==> mentions(
                        *self,
                        self.drone@[t].connected_node_ids@[u],
                        self.drone@[t].id,
                    ),
            decreases n_d - i,
        {
            let m = self.drone[i].connected_node_ids.len();
            let mut j: usize = 0;
            while j < m
                invariant
                    i < n_d,
                    n_d == self.drone@.len(),
                    j <= m,
                    m == self.drone@[i as int].connected_node_ids@.len(),
                    forall|t: int, u: int|
                        #![trigger self.drone@[t].connected_node_ids@[u]]
                        0 <= t < i && 0 <= u < self.drone@[t].connected_node_ids@.len()
                            ==> mentions(
                            *self,
                            self.drone@[t].connected_node_ids@[u],
                            self.drone@[t].id,
                        ),
                    forall|u: int|
                        #![trigger self.drone@[i as int].connected_node_ids@[u]]
                        0 <= u < j ==> mentions(
                            *self,
                            self.drone@[i as int].connected_node_ids@[u],
                            self.drone@[i as int].id,
                        ),
                decreases m - j,
            {
                let nb = self.drone[i].connected_node_ids[j];
                if !self.mentions_exec(nb, self.drone[i].id) {
                    proof {
                        assert(self.drone@[i as int].connected_node_ids@.contains(nb));
                        assert(mentions(*self, self.drone@[i as int].id, nb));
                    }
                    return false;
                }
                j += 1;
            }
            i += 1;
        }
        let n_c = self.client.len();
        let mut i: usize = 0;
        while i < n_c
            invariant
                i <= n_c,
                n_c == self.client@.len(),
                forall|t: int, u: int|
                    #![trigger self.drone@[t].connected_node_ids@[u]]
                    0 <= t < self.drone@.len() && 0 <= u
                        < self.drone@[t].connected_node_ids@.len() ==> mentions(
                        *self,
                        self.drone@[t].connected_node_ids@[u],
                        self.drone@[t].id,
                    ),
                forall|t: int, u: int|
                    #![trigger self.client@[t].connected_drone_ids@[u]]
                    0 <= t < i && 0 <= u < self.client@[t].connected_drone_ids@.len() ==> mentions(
                        *self,
                        self.client@[t].connected_drone_ids@[u],
                        self.client@[t].id,
                    ),
            decreases n_c - i,
        {
            let m = self.client[i].connected_drone_ids.len();
            let mut j: usize = 0;
            while j < m
                invariant
                    i < n_c,
                    n_c == self.client@.len(),
                    j <= m,
                    m == self.client@[i as int].connected_drone_ids@.len(),
                    forall|t: int, u: int|
                        #![trigger self.drone@[t].connected_node_ids@[u]]
                        0 <= t < self.drone@.len() && 0 <= u
                            < self.drone@[t].connected_node_ids@.len() ==> mentions(
                            *self,
                            self.drone@[t].connected_node_ids@[u],
                            self.drone@[t].id,
                        ),
                    forall|t: int, u: int|
                        #![trigger self.client@[t].connected_drone_ids@[u]]
                        0 <= t < i && 0 <= u < self.client@[t].connected_drone_ids@.len()
                            ==> mentions(
                            *self,
                            self.client@[t].connected_drone_ids@[u],
                            self.client@[t].id,
                        ),
                    forall|u: int|
                        #![trigger self.client@[i as int].connected_drone_ids@[u]]
                        0 <= u < j ==> mentions(
                            *self,
                            self.client@[i as int].connected_drone_ids@[u],
                            self.client@[i as int].id,
                        ),
                decreases m - j,
            {
                let nb = self.client[i].connected_drone_ids[j];
                if !self.mentions_exec(nb, self.client[i].id) {
                    proof {
                        assert(self.client@[i as int].connected_drone_ids@.contains(nb));
                        assert(mentions(*self, self.client@[i as int].id, nb));
                    }
                    return false;
                }
                j += 1;
            }
            i += 1;
        }
        let n_s = self.server.len();
        let mut i: usize = 0;
        while i < n_s
            invariant
                i <= n_s,
                n_s == self.server@.len(),
                forall|t: int, u: int|
                    #![trigger self.drone@[t].connected_node_ids@[u]]
                    0 <= t < self.drone@.len() && 0 <= u
                        < self.drone@[t].connected_node_ids@.len() ==> mentions(
                        *self,
                        self.drone@[t].connected_node_ids@[u],
                        self.drone@[t].id,
                    ),
                forall|t: int, u: int|
                    #![trigger self.client@[t].connected_drone_ids@[u]]
                    0 <= t < self.client@.len() && 0 <= u
                        < self.client@[t].connected_drone_ids@.len() ==> mentions(
                        *self,
                        self.client@[t].connected_drone_ids@[u],
                        self.client@[t].id,
                    ),
                forall|t: int, u: int|
                    #![trigger self.server@[t].connected_drone_ids@[u]]
                    0 <= t < i && 0 <= u < self.server@[t].connected_drone_ids@.len() ==> mentions(
                        *self,
                        self.server@[t].connected_drone_ids@[u],
                        self.server@[t].id,
                    ),
            decreases n_s - i,
        {
            let m = self.server[i].connected_drone_ids.len();
            let mut j: usize = 0;
            while j < m
                invariant
                    i < n_s,
                    n_s == self.server@.len(),
                    j <= m,
                    m == self.server@[i as int].connected_drone_ids@.len(),
                    forall|t: int, u: int|
                        #![trigger self.drone@[t].connected_node_ids@[u]]
                        0 <= t < self.drone@.len() && 0 <= u
                            < self.drone@[t].connected_node_ids@.len() ==> mentions(
                            *self,
                            self.drone@[t].connected_node_ids@[u],
                            self.drone@[t].id,
                        ),
                    forall|t: int, u: int|
                        #![trigger self.client@[t].connected_drone_ids@[u]]
                        0 <= t < self.client@.len() && 0 <= u
                            < self.client@[t].connected_drone_ids@.len() ==> mentions(
                            *self,
                            self.client@[t].connected_drone_ids@[u],
                            self.client@[t].id,
                        ),
                    forall|t: int, u: int|
                        #![trigger self.server@[t].connected_drone_ids@[u]]
                        0 <= t < i && 0 <= u < self.server@[t].connected_drone_ids@.len()
                            ==> mentions(
                            *self,
                            self.server@[t].connected_drone_ids@[u],
                            self.server@[t].id,
                        ),
                    forall|u: int|
                        #![trigger self.server@[i as int].connected_drone_ids@[u]]
                        0 <= u < j ==> mentions(
                            *self,
                            self.server@[i as int].connected_drone_ids@[u],
                            self.server@[i as int].id,
                        ),
                decreases m - j,
            {
                let nb = self.server[i].connected_drone_ids[j];
                if !self.mentions_exec(nb, self.server[i].id) {
                    proof {
                        assert(self.server@[i as int].connected_drone_ids@.contains(nb));
                        assert(mentions(*self, self.server@[i as int].id, nb));
                    }
                    return false;
                }
                j += 1;
            }
            i += 1;
        }
        proof {
            assert forall|a: NodeId, b: NodeId| #[trigger] mentions(*self, a, b) implies mentions(
                *self,
                b,
                a,
            ) by {
                if exists|t: int|
                    #![trigger self.drone@[t]]
                    0 <= t < self.drone@.len() && self.drone@[t].id == a
                        && self.drone@[t].connected_node_ids@.contains(b) {
                    let t = choose|t: int|
                        #![trigger self.drone@[t]]
                        0 <= t < self.drone@.len() && self.drone@[t].id == a
                            && self.drone@[t].connected_node_ids@.contains(b);
                    let u = choose|u: int|
                        0 <= u < self.drone@[t].connected_node_ids@.len()
                            && self.drone@[t].connected_node_ids@[u] == b;
                    assert(mentions(*self, self.drone@[t].connected_node_ids@[u], a));
                } else if exists|t: int|
                    #![trigger self.client@[t]]
                    0 <= t < self.client@.len() && self.client@[t].id == a
                        && self.client@[t].connected_drone_ids@.contains(b) {
                    let t = choose|t: int|
                        #![trigger self.client@[t]]
                        0 <= t < self.client@.len() && self.client@[t].id == a
                            && self.client@[t].connected_drone_ids@.contains(b);
                    let u = choose|u: int|
                        0 <= u < self.client@[t].connected_drone_ids@.len()
                            && self.client@[t].connected_drone_ids@[u] == b;
                    assert(mentions(*self, self.client@[t].connected_drone_ids@[u], a));
                } else {
                    let t = choose|t: int|
                        #![trigger self.server@[t]]
                        0 <= t < self.server@.len() && self.server@[t].id == a
                            && self.server@[t].connected_drone_ids@.contains(b);
                    let u = choose|u: int|
                        0 <= u < self.server@[t].connected_drone_ids@.len()
                            && self.server@[t].connected_drone_ids@[u] == b;
                    assert(mentions(*self, self.server@[t].connected_drone_ids@[u], a));
                }
            }
        }
        true
    }
}

} // verus!
