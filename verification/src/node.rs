//! The per-node event layer.
//!
//! A node multiplexes supervisor commands, inbound packets and the
//! discovery window.  Every entry point here is a decision function: it
//! takes one event and the clock reading, updates the node's state, and
//! returns what the embedding program must do — duty messages for the
//! send-queue worker, and at most one filesystem action for the role.

use vstd::prelude::*;
use crate::codec::{enc_message, dec_message, encode_message, decode_message};
use crate::message::{Message, MessageV};
use crate::message_constructor::{all_filled, assembled, empty_slots, fill, fragment_message, fragments_of, MessageConstructor};
use crate::network_discovery::{NetDiscovery, Topology, trace_adjacent, MAX_WAIT_FLOOD_RESPONSE_MS};
use crate::packet::{Ack, Fragment, FragmentV, FloodRequest, FloodResponse, NackType, NodeId, NodeKind, Packet, PacketType, PacketTypeV};
use crate::packet_sender::PacketSenderDutyMessage;
use crate::role::{FsOutcome, FsRequest, FsRequestV, Role, RoleStep, RoleStepV, SimControllerMessage, role_handled};
use crate::utils::{copy_vec, random_u64};

verus! {

/// What the supervisor can order a node to do.
pub enum NodeCommand {
    Quit,
    AddNeighbour(NodeId),
    RemoveNeighbour(NodeId),
    SendMessage(SimControllerMessage),
}

/// What one event asks of the embedding program: duty messages for the
/// send-queue worker, and at most one filesystem action, tagged with the
/// peer and session whose reply may depend on it.
pub struct NodeEffects {
    pub duties: Vec<PacketSenderDutyMessage>,
    pub fs: Option<(NodeId, u64, FsRequest)>,
}

/// The duties carry exactly the fragments of `m`, in order, for one
/// `(peer, session)` pair.
pub open spec fn fragment_duties(
    duties: Seq<PacketSenderDutyMessage>,
    peer_id: NodeId,
    session_id: u64,
    m: MessageV,
) -> bool {
    let frags = fragments_of(enc_message(m));
    &&& duties.len() == frags.len()
    &&& forall|k: int|
        0 <= k < duties.len() ==> (#[trigger] duties[k] matches PacketSenderDutyMessage::Packet(
            (p, sid, pt),
        ) && p == peer_id && sid == session_id && pt@ == PacketTypeV::MsgFragment(frags[k]))
}

/// The step a role took and the effects owed for it: a reply goes back
/// to the peer in fragments under the same session; a filesystem action
/// is handed out tagged with peer and session; nothing else leaves.
pub open spec fn step_effects(
    step: RoleStepV,
    peer_id: NodeId,
    session_id: u64,
    duties: Seq<PacketSenderDutyMessage>,
    fs: Option<(NodeId, u64, FsRequestV)>,
) -> bool {
    match step {
        RoleStepV::Reply(resp) => fs is None && fragment_duties(
            duties,
            peer_id,
            session_id,
            MessageV::Response(resp),
        ),
        RoleStepV::NoReply => fs is None && duties.len() == 0,
        RoleStepV::Fs(req) => duties.len() == 0 && fs == Some((peer_id, session_id, req)),
    }
}

/// One application message was delivered to the role, which stepped and
/// owes these effects.
pub open spec fn delivery_handled(
    pre: Role,
    post: Role,
    peer_id: NodeId,
    session_id: u64,
    m: MessageV,
    duties: Seq<PacketSenderDutyMessage>,
    fs: Option<(NodeId, u64, FsRequestV)>,
) -> bool {
    exists|step: RoleStepV|
        #[trigger] role_handled(pre, post, peer_id, m, step) && step_effects(
            step,
            peer_id,
            session_id,
            duties,
            fs,
        )
}

/// The key names a reassembly entry.
pub open spec fn has_entry(
    s: Seq<((NodeId, u64), MessageConstructor)>,
    peer_id: NodeId,
    session_id: u64,
) -> bool {
    exists|i: int| #![trigger s[i]] 0 <= i < s.len() && s[i].0 == (peer_id, session_id)
}

/// Where the key's reassembly entry stands.
pub open spec fn entry_idx(
    s: Seq<((NodeId, u64), MessageConstructor)>,
    peer_id: NodeId,
    session_id: u64,
) -> int {
    choose|i: int| #![trigger s[i]] 0 <= i < s.len() && s[i].0 == (peer_id, session_id)
}

/// The slots of the key's entry, or fresh empty slots when it is absent.
pub open spec fn entry_slots(
    s: Seq<((NodeId, u64), MessageConstructor)>,
    peer_id: NodeId,
    session_id: u64,
    fresh_total: nat,
) -> Seq<Option<FragmentV>> {
    if has_entry(s, peer_id, session_id) {
        s[entry_idx(s, peer_id, session_id)].1.slots()
    } else {
        empty_slots(fresh_total)
    }
}

/// A node: its id, its role, its reassembly entries keyed by
/// `(peer, session)`, and its discovery state.
pub struct Node {
    id: NodeId,
    inner_node: Role,
    fragment_constructors: Vec<((NodeId, u64), MessageConstructor)>,
    net_d: NetDiscovery,
}

impl Node {
    /// The node's id.
    pub closed spec fn spec_id(&self) -> NodeId {
        self.id
    }

    /// The node's role.
    pub closed spec fn role(&self) -> Role {
        self.inner_node
    }

    /// The node's discovery state.
    pub closed spec fn discovery(&self) -> NetDiscovery {
        self.net_d
    }

    /// The node's reassembly entries.
    pub closed spec fn ctors(&self) -> Seq<((NodeId, u64), MessageConstructor)> {
        self.fragment_constructors@
    }

    /// Entries are uniquely keyed and internally consistent, and the
    /// role is too.
    pub open spec fn wf(&self) -> bool {
        &&& self.role().wf()
        &&& forall|i: int, j: int|
            0 <= i < j < self.ctors().len() ==> (#[trigger] self.ctors()[i]).0 != (
            #[trigger] self.ctors()[j]).0
        &&& forall|i: int| 0 <= i < self.ctors().len() ==> (#[trigger] self.ctors()[i]).1.wf()
    }

    /// A node of the given role.
    pub fn new(id: NodeId, inner_node: Role) -> (r: Self)
        requires
            inner_node.wf(),
        ensures
            r.wf(),
            r.spec_id() == id,
            r.role() == inner_node,
            r.ctors().len() == 0,
            !r.discovery().spec_ongoing(),
    {
        Node {
            id,
            inner_node,
            fragment_constructors: Vec::new(),
            net_d: NetDiscovery::new(),
        }
    }

    /// A node serving files.
    pub fn new_content_server(id: NodeId, base_path: String) -> (r: Self)
        ensures
            r.wf(),
            r.spec_id() == id,
            r.role() is Content,
            r.ctors().len() == 0,
            !r.discovery().spec_ongoing(),
    {
        Self::new(id, Role::Content(crate::content_server::ContentServer::new(id, base_path)))
    }

    /// A node keeping chats.
    pub fn new_communication_server(id: NodeId, base_path: String) -> (r: Self)
        ensures
            r.wf(),
            r.spec_id() == id,
            r.role() is Communication,
            r.ctors().len() == 0,
            !r.discovery().spec_ongoing(),
    {
        Self::new(
            id,
            Role::Communication(crate::communication_server::CommunicationServer::new(id, base_path)),
        )
    }

    /// The node's id.
    pub fn id(&self) -> (r: NodeId)
        ensures
            r == self.spec_id(),
    {
        self.id
    }

    /// Puts one persisted chat back into a communication role, as the
    /// embedding program loads its directory at start; a content role
    /// keeps no chats and ignores this.
    pub fn load_chat(&mut self, chat_id: u64, chat: crate::message::Chat)
        requires
            old(self).wf(),
        ensures
            final(self).wf(),
            final(self).spec_id() == old(self).spec_id(),
            final(self).ctors() == old(self).ctors(),
            final(self).discovery() == old(self).discovery(),
            old(self).role() is Communication ==> ({
                &&& final(self).role() is Communication
                &&& final(self).role()->Communication_0.chats()
                    == crate::communication_server::chats_insert(
                    old(self).role()->Communication_0.chats(),
                    chat_id,
                    chat@,
                )
            }),
            old(self).role() is Content ==> final(self).role() == old(self).role(),
    {
        match &mut self.inner_node {
            Role::Communication(c) => c.load_chat(chat_id, chat),
            Role::Content(_) => {},
        }
        proof {
            assert(self.ctors() == old(self).ctors());
            assert(self.wf());
        }
    }

    /// The chat store to persist at shutdown, for a communication role.
    pub fn role_chats(&self) -> (r: Option<&Vec<(u64, crate::message::Chat)>>)
        ensures
            self.role() is Communication <==> r is Some,
    {
        self.inner_node.stop()
    }

    /// Starts a fresh discovery cycle: seeds a random flood id, opens
    /// the window at `now_ms`, and hands the worker one flood request
    /// carrying this node in its trace.
    pub fn trigger_network_discovery(&mut self, now_ms: u64) -> (r: Vec<PacketSenderDutyMessage>)
        requires
            old(self).wf(),
        ensures
            final(self).wf(),
            final(self).spec_id() == old(self).spec_id(),
            final(self).role() == old(self).role(),
            final(self).ctors() == old(self).ctors(),
            final(self).discovery().spec_ongoing(),
            final(self).discovery().spec_start_time() == now_ms,
            final(self).discovery().traces().len() == 0,
            r@.len() == 1,
            r@[0] matches PacketSenderDutyMessage::Packet((p, _sid, pt)),
            (r@[0] matches PacketSenderDutyMessage::Packet((p, _sid, pt)) ==> {
                &&& p == old(self).spec_id()
                &&& pt@ matches PacketTypeV::FloodRequest(fr)
                &&& (pt@ matches PacketTypeV::FloodRequest(fr) ==> {
                    &&& fr.flood_id == final(self).discovery().spec_id()
                    &&& fr.initiator_id == old(self).spec_id()
                    &&& fr.path_trace =~= seq![(old(self).spec_id(), NodeKind::Server)]
                })
            }),
    {
        self.net_d.init(now_ms);
        let flood_request = FloodRequest::initialize(
            self.net_d.get_id(),
            self.id,
            self.inner_node.get_node_type(),
        );
        let session = random_u64();
        let mut duties: Vec<PacketSenderDutyMessage> = Vec::new();
        duties.push(
            PacketSenderDutyMessage::Packet(
                (self.id, session, PacketType::FloodRequest(flood_request)),
            ),
        );
        proof {
            assert(self.ctors() == old(self).ctors());
            assert(self.role() == old(self).role());
            assert(self.wf());
        }
        duties
    }

    /// Answers a flood request: appends this node to the trace and hands
    /// the worker a response that will ride the reversed trace back.
    pub fn handle_flood_request(&self, flood_request: FloodRequest, session_id: u64) -> (r: Vec<
        PacketSenderDutyMessage,
    >)
        ensures
            r@.len() == 1,
            r@[0] matches PacketSenderDutyMessage::Packet((p, sid, pt)),
            (r@[0] matches PacketSenderDutyMessage::Packet((p, sid, pt)) ==> {
                &&& sid == session_id
                &&& p == self.spec_id()
                &&& pt@ matches PacketTypeV::FloodResponse(fr)
                &&& (pt@ matches PacketTypeV::FloodResponse(fr) ==> {
                    &&& fr.flood_id == flood_request.flood_id
                    &&& fr.path_trace =~= flood_request.path_trace@.push(
                        (self.spec_id(), NodeKind::Server),
                    )
                })
            }),
    {
        let mut path_trace = copy_vec(&flood_request.path_trace);
        path_trace.push((self.id, self.inner_node.get_node_type()));
        let last = path_trace[path_trace.len() - 1].0;
        let flood_response = FloodResponse {
            flood_id: flood_request.flood_id,
            path_trace,
        };
        let mut duties: Vec<PacketSenderDutyMessage> = Vec::new();
        duties.push(
            PacketSenderDutyMessage::Packet(
                (last, session_id, PacketType::FloodResponse(flood_response)),
            ),
        );
        duties
    }

    /// Serializes, fragments and enqueues one application message for
    /// `peer_id`, under the given session or a fresh random one.
    pub fn send_data_message(
        &mut self,
        peer_id: NodeId,
        session_id: Option<u64>,
        message: Message,
    ) -> (r: Vec<PacketSenderDutyMessage>)
        requires
            old(self).wf(),
        ensures
            final(self).wf(),
            *final(self) == *old(self),
            exists|sid: u64|
                #![trigger fragment_duties(r@, peer_id, sid, message@)]
                fragment_duties(r@, peer_id, sid, message@) && (session_id is Some ==> sid
                    == session_id->0),
    {
        let sid = match session_id {
            Some(s) => s,
            None => random_u64(),
        };
        let data = encode_message(&message);
        let fragments = fragment_message(&data);
        let ghost frags = fragments_of(enc_message(message@));
        let mut duties: Vec<PacketSenderDutyMessage> = Vec::new();
        let n = fragments.len();
        let ghost total = fragments.deep_view().len();
        let mut i: usize = 0;
        let mut rest = fragments;
        while rest.len() > 0
            invariant
                i + rest@.len() == n,
                n == frags.len(),
                rest.deep_view() =~= frags.skip(i as int),
                duties@.len() == i,
                forall|k: int|
                    0 <= k < i ==> (#[trigger] duties@[k] matches PacketSenderDutyMessage::Packet(
                        (p, s, pt),
                    ) && p == peer_id && s == sid && pt@ == PacketTypeV::MsgFragment(frags[k])),
            decreases rest@.len(),
        {
            let ghost pre_rest = rest.deep_view();
            let ghost pre_vec = rest@;
            let f = rest.remove(0);
            proof {
                assert(f@ == pre_rest[0]);
                assert(f@ == frags[i as int]);
                assert(rest@ =~= pre_vec.remove(0));
                assert forall|k: int|
                    0 <= k < rest@.len() implies #[trigger] rest.deep_view()[k] == frags.skip(
                    i as int + 1,
                )[k] by {
                    assert(rest@[k] == pre_vec[k + 1]);
                    assert(pre_rest[k + 1] == frags.skip(i as int)[k + 1]);
                }
                assert(rest.deep_view() =~= frags.skip(i as int + 1));
            }
            duties.push(
                PacketSenderDutyMessage::Packet((peer_id, sid, PacketType::MsgFragment(f))),
            );
            i += 1;
        }
        proof {
            assert(fragment_duties(duties@, peer_id, sid, message@));
        }
        duties
    }

    /// One incoming fragment: it lands in its `(peer, session)` entry —
    /// created on demand — and is acknowledged; a fragment out of range
    /// destroys the whole entry; when the entry completes, it is
    /// destroyed and the decoded message is handed back.
    pub fn handle_fragment(
        &mut self,
        peer_id: NodeId,
        session_id: u64,
        msg_fragment: Fragment,
    ) -> (r: (Vec<PacketSenderDutyMessage>, Option<Message>))
        requires
            old(self).wf(),
            msg_fragment.wf(),
        ensures
            final(self).wf(),
            final(self).spec_id() == old(self).spec_id(),
            final(self).role() == old(self).role(),
            final(self).discovery() == old(self).discovery(),
            ({
                let s0 = old(self).ctors();
                let s1 = final(self).ctors();
                let existing = has_entry(s0, peer_id, session_id);
                let total = if existing {
                    s0[entry_idx(s0, peer_id, session_id)].1.total() as nat
                } else {
                    msg_fragment.total_n_fragments as nat
                };
                let slots0 = entry_slots(s0, peer_id, session_id, total);
                let slots1 = fill(slots0, msg_fragment@);
                // entries of other sessions never move
                &&& (forall|p: NodeId, s: u64|
                    !(p == peer_id && s == session_id) ==> (has_entry(s1, p, s) <==> #[trigger] has_entry(
                        s0,
                        p,
                        s,
                    )))
                &&& if !existing && total > usize::MAX {
                    // the entry cannot even be allocated: drop everything
                    &&& s1 == s0
                    &&& r.0@.len() == 0
                    &&& r.1 is None
                } else if msg_fragment.fragment_index >= total {
                    // out of range: the whole entry is dropped, unacknowledged
                    &&& !has_entry(s1, peer_id, session_id)
                    &&& r.0@.len() == 0
                    &&& r.1 is None
                } else {
                    &&& r.0@.len() == 1
                    &&& (r.0@[0] matches PacketSenderDutyMessage::Packet((p, sid, pt)) && p
                        == peer_id && sid == session_id && pt@ == PacketTypeV::Ack(
                        Ack { fragment_index: msg_fragment.fragment_index },
                    ))
                    &&& if all_filled(slots1) {
                        // complete: the entry is destroyed and the buffer decoded
                        &&& !has_entry(s1, peer_id, session_id)
                        &&& match r.1 {
                            Some(m) => dec_message(assembled(slots1), 0) is Some && (dec_message(
                                assembled(slots1),
                                0,
                            )->0).0 == m@,
                            None => dec_message(assembled(slots1), 0) is None,
                        }
                    } else {
                        &&& has_entry(s1, peer_id, session_id)
                        &&& s1[entry_idx(s1, peer_id, session_id)].1.slots() == slots1
                        &&& s1[entry_idx(s1, peer_id, session_id)].1.total() == total
                        &&& r.1 is None
                    }
                }
            }),
    {
        let frag_index = msg_fragment.fragment_index;
        let ghost s0 = self.ctors();
        let found = self.find_entry(peer_id, session_id);
        match found {
            Some(i) => {
                let mut pair = self.fragment_constructors.remove(i);
                let ghost ctor0 = pair.1;
                match pair.1.add_packet(msg_fragment) {
                    Ok(opt) => {
                        let ghost ctor1 = pair.1;
                        let mut duties: Vec<PacketSenderDutyMessage> = Vec::new();
                        duties.push(
                            PacketSenderDutyMessage::Packet(
                                (
                                    peer_id,
                                    session_id,
                                    PacketType::Ack(Ack { fragment_index: frag_index }),
                                ),
                            ),
                        );
                        match opt {
                            Some(buffer) => {
                                proof {
                                    self.lemma_absent_after_remove(s0, i as int, peer_id, session_id);
                                }
                                let message = decode_message(buffer.as_slice());
                                (duties, message)
                            },
                            None => {
                                let ghost pre_vec = self.fragment_constructors@;
                                self.fragment_constructors.insert(i, pair);
                                proof {
                                    assert(self.fragment_constructors@ =~= pre_vec.insert(
                                        i as int,
                                        pair,
                                    ));
                                    assert(self.ctors() =~= s0.update(i as int, pair));
                                    self.lemma_present_after_update(s0, i as int, peer_id, session_id, pair);
                                }
                                (duties, None)
                            },
                        }
                    },
                    Err(()) => {
                        proof {
                            self.lemma_absent_after_remove(s0, i as int, peer_id, session_id);
                        }
                        let duties: Vec<PacketSenderDutyMessage> = Vec::new();
                        (duties, None)
                    },
                }
            },
            None => {
                if msg_fragment.total_n_fragments > (usize::MAX as u64) {
                    let duties: Vec<PacketSenderDutyMessage> = Vec::new();
                    return (duties, None);
                }
                let mut ctor = MessageConstructor::new(msg_fragment.total_n_fragments);
                let ghost total = msg_fragment.total_n_fragments as nat;
                match ctor.add_packet(msg_fragment) {
                    Ok(opt) => {
                        let mut duties: Vec<PacketSenderDutyMessage> = Vec::new();
                        duties.push(
                            PacketSenderDutyMessage::Packet(
                                (
                                    peer_id,
                                    session_id,
                                    PacketType::Ack(Ack { fragment_index: frag_index }),
                                ),
                            ),
                        );
                        match opt {
                            Some(buffer) => {
                                let message = decode_message(buffer.as_slice());
                                (duties, message)
                            },
                            None => {
                                let pair = ((peer_id, session_id), ctor);
                                let ghost pv = pair;
                                self.fragment_constructors.push(pair);
                                proof {
                                    assert(self.ctors() =~= s0.push(pv));
                                    self.lemma_present_after_push(s0, peer_id, session_id, pv);
                                }
                                (duties, None)
                            },
                        }
                    },
                    Err(()) => {
                        let duties: Vec<PacketSenderDutyMessage> = Vec::new();
                        (duties, None)
                    },
                }
            },
        }
    }

    /// Where the key's reassembly entry stands, if anywhere.
    fn find_entry(&self, peer_id: NodeId, session_id: u64) -> (r: Option<usize>)
        requires
            self.wf(),
        ensures
            match r {
                Some(i) => i < self.ctors().len() && self.ctors()[i as int].0 == (
                    peer_id,
                    session_id,
                ) && i as int == entry_idx(self.ctors(), peer_id, session_id),
                None => !has_entry(self.ctors(), peer_id, session_id),
            },
    {
        let n = self.fragment_constructors.len();
        let mut i: usize = 0;
        while i < n
            invariant
                i <= n,
                n == self.ctors().len(),
                self.wf(),
                forall|t: int|
                    0 <= t < i ==> (#[trigger] self.ctors()[t]).0 != (peer_id, session_id),
            decreases n - i,
        {
            if self.fragment_constructors[i].0.0 == peer_id && self.fragment_constructors[i].0.1
                == session_id {
                proof {
                    assert(self.ctors()[i as int].0 == (peer_id, session_id));
                    assert(has_entry(self.ctors(), peer_id, session_id));
                    let j = entry_idx(self.ctors(), peer_id, session_id);
                    if j != i as int {
                        assert(self.ctors()[j].0 == (peer_id, session_id));
                        assert(false);
                    }
                }
                return Some(i);
            }
            i += 1;
        }
        proof {
            if has_entry(self.ctors(), peer_id, session_id) {
                let j = choose|j: int|
                    #![trigger self.ctors()[j]]
                    0 <= j < self.ctors().len() && self.ctors()[j].0 == (peer_id, session_id);
                assert(false);
            }
        }
        None
    }

    /// After removing the key's entry, the key is gone and other keys
    /// stand as before.
    proof fn lemma_absent_after_remove(
        &self,
        s0: Seq<((NodeId, u64), MessageConstructor)>,
        j: int,
        peer_id: NodeId,
        session_id: u64,
    )
        requires
            0 <= j < s0.len(),
            s0[j].0 == (peer_id, session_id),
            forall|a: int, b: int|
                0 <= a < b < s0.len() ==> (#[trigger] s0[a]).0 != (#[trigger] s0[b]).0,
            self.ctors() == s0.remove(j),
        ensures
            !has_entry(self.ctors(), peer_id, session_id),
            forall|p: NodeId, s: u64|
                !(p == peer_id && s == session_id) ==> (has_entry(self.ctors(), p, s)
                    <==> #[trigger] has_entry(s0, p, s)),
            forall|a: int, b: int|
                0 <= a < b < self.ctors().len() ==> (#[trigger] self.ctors()[a]).0 != (
                #[trigger] self.ctors()[b]).0,
            (forall|t: int| 0 <= t < s0.len() ==> (#[trigger] s0[t]).1.wf()) ==> forall|i: int|
                0 <= i < self.ctors().len() ==> (#[trigger] self.ctors()[i]).1.wf(),
    {
        let s1 = self.ctors();
        if forall|t: int| 0 <= t < s0.len() ==> (#[trigger] s0[t]).1.wf() {
            assert forall|i: int|
                0 <= i < s1.len() implies (#[trigger] s1[i]).1.wf() by {
                let si = if i < j {
                    i
                } else {
                    i + 1
                };
                assert(s1[i] == s0[si]);
                assert(s0[si].1.wf());
            }
        }
        assert forall|a: int, b: int|
            0 <= a < b < s1.len() implies (#[trigger] s1[a]).0 != (#[trigger] s1[b]).0 by {
            let sa = if a < j {
                a
            } else {
                a + 1
            };
            let sb = if b < j {
                b
            } else {
                b + 1
            };
            assert(s1[a] == s0[sa]);
            assert(s1[b] == s0[sb]);
            assert(s0[sa].0 != s0[sb].0);
        }
        if has_entry(s1, peer_id, session_id) {
            let t = choose|t: int| #![trigger s1[t]] 0 <= t < s1.len() && s1[t].0 == (peer_id, session_id);
            let st = if t < j {
                t
            } else {
                t + 1
            };
            assert(s1[t] == s0[st]);
            assert(st != j);
            assert(s0[st].0 != s0[j].0);
            assert(false);
        }
        assert forall|p: NodeId, s: u64|
            !(p == peer_id && s == session_id) implies (has_entry(s1, p, s)
            <==> has_entry(s0, p, s)) by {
            if has_entry(s1, p, s) {
                let t = choose|t: int| #![trigger s1[t]] 0 <= t < s1.len() && s1[t].0 == (p, s);
                let st = if t < j {
                    t
                } else {
                    t + 1
                };
                assert(s1[t] == s0[st]);
                assert(has_entry(s0, p, s));
            }
            if has_entry(s0, p, s) {
                let t = choose|t: int| #![trigger s0[t]] 0 <= t < s0.len() && s0[t].0 == (p, s);
                assert(t != j);
                let st = if t < j {
                    t
                } else {
                    t - 1
                };
                assert(s1[st] == s0[t]);
                assert(has_entry(s1, p, s));
            }
        }
    }

    /// After replacing the key's entry in place, the key stands there and
    /// other keys stand as before.
    proof fn lemma_present_after_update(
        &self,
        s0: Seq<((NodeId, u64), MessageConstructor)>,
        j: int,
        peer_id: NodeId,
        session_id: u64,
        pair: ((NodeId, u64), MessageConstructor),
    )
        requires
            0 <= j < s0.len(),
            s0[j].0 == (peer_id, session_id),
            pair.0 == (peer_id, session_id),
            forall|a: int, b: int|
                0 <= a < b < s0.len() ==> (#[trigger] s0[a]).0 != (#[trigger] s0[b]).0,
            self.ctors() == s0.update(j, pair),
        ensures
            has_entry(self.ctors(), peer_id, session_id),
            entry_idx(self.ctors(), peer_id, session_id) == j,
            (pair.1.wf() && forall|t: int| 0 <= t < s0.len() ==> (#[trigger] s0[t]).1.wf())
                ==> forall|i: int|
                0 <= i < self.ctors().len() ==> (#[trigger] self.ctors()[i]).1.wf(),
            forall|p: NodeId, s: u64|
                !(p == peer_id && s == session_id) ==> (has_entry(self.ctors(), p, s)
                    <==> #[trigger] has_entry(s0, p, s)),
            forall|a: int, b: int|
                0 <= a < b < self.ctors().len() ==> (#[trigger] self.ctors()[a]).0 != (
                #[trigger] self.ctors()[b]).0,
    {
        let s1 = self.ctors();
        assert(s1[j].0 == (peer_id, session_id));
        assert(has_entry(s1, peer_id, session_id));
        assert forall|a: int, b: int|
            0 <= a < b < s1.len() implies (#[trigger] s1[a]).0 != (#[trigger] s1[b]).0 by {
            assert(s0[a].0 != s0[b].0);
        }
        let t = entry_idx(s1, peer_id, session_id);
        assert(s1[t].0 == (peer_id, session_id));
        if t != j {
            assert(s1[t] == s0[t]);
            assert(s0[t].0 != s0[j].0);
            assert(false);
        }
        assert forall|p: NodeId, s: u64|
            !(p == peer_id && s == session_id) implies (has_entry(s1, p, s)
            <==> has_entry(s0, p, s)) by {
            if has_entry(s1, p, s) {
                let t2 = choose|t2: int| #![trigger s1[t2]] 0 <= t2 < s1.len() && s1[t2].0 == (p, s);
                assert(t2 != j);
                assert(s1[t2] == s0[t2]);
                assert(has_entry(s0, p, s));
            }
            if has_entry(s0, p, s) {
                let t2 = choose|t2: int| #![trigger s0[t2]] 0 <= t2 < s0.len() && s0[t2].0 == (p, s);
                assert(t2 != j);
                assert(s1[t2] == s0[t2]);
                assert(has_entry(s1, p, s));
            }
        }
    }

    /// After appending a fresh entry for the key, the key stands at the
    /// end and other keys stand as before.
    proof fn lemma_present_after_push(
        &self,
        s0: Seq<((NodeId, u64), MessageConstructor)>,
        peer_id: NodeId,
        session_id: u64,
        pair: ((NodeId, u64), MessageConstructor),
    )
        requires
            !has_entry(s0, peer_id, session_id),
            pair.0 == (peer_id, session_id),
            forall|a: int, b: int|
                0 <= a < b < s0.len() ==> (#[trigger] s0[a]).0 != (#[trigger] s0[b]).0,
            self.ctors() == s0.push(pair),
        ensures
            has_entry(self.ctors(), peer_id, session_id),
            entry_idx(self.ctors(), peer_id, session_id) == s0.len(),
            (pair.1.wf() && forall|t: int| 0 <= t < s0.len() ==> (#[trigger] s0[t]).1.wf())
                ==> forall|i: int|
                0 <= i < self.ctors().len() ==> (#[trigger] self.ctors()[i]).1.wf(),
            forall|p: NodeId, s: u64|
                !(p == peer_id && s == session_id) ==> (has_entry(self.ctors(), p, s)
                    <==> #[trigger] has_entry(s0, p, s)),
            forall|a: int, b: int|
                0 <= a < b < self.ctors().len() ==> (#[trigger] self.ctors()[a]).0 != (
                #[trigger] self.ctors()[b]).0,
    {
        let s1 = self.ctors();
        assert(s1[s0.len() as int].0 == (peer_id, session_id));
        assert(has_entry(s1, peer_id, session_id));
        assert forall|a: int, b: int|
            0 <= a < b < s1.len() implies (#[trigger] s1[a]).0 != (#[trigger] s1[b]).0 by {
            if b == s1.len() - 1 {
                assert(s1[a] == s0[a]);
                if s0[a].0 == (peer_id, session_id) {
                    assert(has_entry(s0, peer_id, session_id));
                }
            } else {
                assert(s0[a].0 != s0[b].0);
            }
        }
        let t = entry_idx(s1, peer_id, session_id);
        assert(s1[t].0 == (peer_id, session_id));
        if t != s0.len() {
            assert(s1[t] == s0[t]);
            assert(has_entry(s0, peer_id, session_id));
        }
        assert forall|p: NodeId, s: u64|
            !(p == peer_id && s == session_id) implies (has_entry(s1, p, s)
            <==> has_entry(s0, p, s)) by {
            if has_entry(s1, p, s) {
                let t2 = choose|t2: int| #![trigger s1[t2]] 0 <= t2 < s1.len() && s1[t2].0 == (p, s);
                if t2 == s1.len() - 1 {
                    assert(false);
                }
                assert(s1[t2] == s0[t2]);
                assert(has_entry(s0, p, s));
            }
            if has_entry(s0, p, s) {
                let t2 = choose|t2: int| #![trigger s0[t2]] 0 <= t2 < s0.len() && s0[t2].0 == (p, s);
                assert(s1[t2] == s0[t2]);
                assert(has_entry(s1, p, s));
            }
        }
    }

    /// Delivers one reassembled application message to the role and
    /// turns the role's step into effects: a reply is fragmented back to
    /// the peer under the same session; a filesystem action is handed
    /// out; nothing else leaves the node.
    pub fn handle_data_message(&mut self, peer_id: NodeId, session_id: u64, message: Message) -> (r:
        NodeEffects)
        requires
            old(self).wf(),
        ensures
            final(self).wf(),
            final(self).spec_id() == old(self).spec_id(),
            final(self).ctors() == old(self).ctors(),
            final(self).discovery() == old(self).discovery(),
            delivery_handled(
                old(self).role(),
                final(self).role(),
                peer_id,
                session_id,
                message@,
                r.duties@,
                match r.fs {
                    Some((p, sid, ref req)) => Some((p, sid, req@)),
                    None => None,
                },
            ),
    {
        let step = self.inner_node.handle_message(peer_id, message);
        let ghost stepv = step@;
        proof {
            assert(self.ctors() == old(self).ctors());
            assert(self.wf());
        }
        match step {
            RoleStep::Reply(resp) => {
                let duties = self.send_data_message(
                    peer_id,
                    Some(session_id),
                    Message::Response(resp),
                );
                let r = NodeEffects { duties, fs: None };
                proof {
                    assert(role_handled(
                        old(self).role(),
                        self.role(),
                        peer_id,
                        message@,
                        stepv,
                    ) && step_effects(stepv, peer_id, session_id, r.duties@, None));
                }
                r
            },
            RoleStep::NoReply => {
                let r = NodeEffects { duties: Vec::new(), fs: None };
                proof {
                    assert(role_handled(
                        old(self).role(),
                        self.role(),
                        peer_id,
                        message@,
                        stepv,
                    ) && step_effects(stepv, peer_id, session_id, r.duties@, None));
                }
                r
            },
            RoleStep::Fs(req) => {
                let ghost reqv = req@;
                let r = NodeEffects { duties: Vec::new(), fs: Some((peer_id, session_id, req)) };
                proof {
                    assert(role_handled(
                        old(self).role(),
                        self.role(),
                        peer_id,
                        message@,
                        stepv,
                    ) && step_effects(
                        stepv,
                        peer_id,
                        session_id,
                        r.duties@,
                        Some((peer_id, session_id, reqv)),
                    ));
                }
                r
            },
        }
    }

    /// Turns the outcome of a role's filesystem action into the reply
    /// owed, fragmented back to the peer under the saved session.
    pub fn handle_fs_result(
        &mut self,
        peer_id: NodeId,
        session_id: u64,
        outcome: FsOutcome,
    ) -> (r: Vec<PacketSenderDutyMessage>)
        requires
            old(self).wf(),
        ensures
            final(self).wf(),
            final(self).spec_id() == old(self).spec_id(),
            final(self).ctors() == old(self).ctors(),
            final(self).discovery() == old(self).discovery(),
            final(self).role() == old(self).role(),
            match old(self).role() {
                Role::Content(_) => match crate::content_server::content_fs_reply(outcome@) {
                    Some(resp) => fragment_duties(
                        r@,
                        peer_id,
                        session_id,
                        MessageV::Response(resp),
                    ),
                    None => r@.len() == 0,
                },
                Role::Communication(_) => r@.len() == 0,
            },
    {
        match self.inner_node.fs_response(outcome) {
            Some(resp) => {
                let duties = self.send_data_message(
                    peer_id,
                    Some(session_id),
                    Message::Response(resp),
                );
                duties
            },
            None => Vec::new(),
        }
    }

    /// Closes an expired discovery window: once `now_ms` passes the
    /// window, the collected traces are folded into a fresh adjacency
    /// map for the embedding program to swap in, and the window closes.
    /// Until then — or while no window is open — nothing happens.
    pub fn discovery_tick(&mut self, now_ms: u64) -> (r: Option<Topology>)
        requires
            old(self).wf(),
        ensures
            final(self).wf(),
            final(self).spec_id() == old(self).spec_id(),
            final(self).role() == old(self).role(),
            final(self).ctors() == old(self).ctors(),
            r is Some <==> (old(self).discovery().spec_ongoing() && (if now_ms >= old(
                self,
            ).discovery().spec_start_time() {
                now_ms - old(self).discovery().spec_start_time()
            } else {
                0
            }) > MAX_WAIT_FLOOD_RESPONSE_MS),
            match r {
                Some(topo) => {
                    &&& topo.wf()
                    &&& !final(self).discovery().spec_ongoing()
                    &&& (forall|u: NodeId, v: NodeId|
                        #![trigger topo.edge(u, v)]
                        topo.edge(u, v) <==> trace_adjacent(old(self).discovery().traces(), u, v))
                    &&& (forall|u: NodeId| (#[trigger] topo.neighbors_of(u)).no_duplicates())
                },
                None => final(self).discovery().spec_ongoing() == old(
                    self,
                ).discovery().spec_ongoing(),
            },
    {
        if self.net_d.get_ongoing() {
            let elapsed = self.net_d.get_elapsed(now_ms);
            if elapsed > MAX_WAIT_FLOOD_RESPONSE_MS {
                self.net_d.set_ongoing(false);
                let topo = self.net_d.parse_network();
                proof {
                    assert(self.ctors() == old(self).ctors());
                    assert(self.wf());
                }
                return Some(topo);
            }
        }
        None
    }

    /// How long the node loop may sleep in its select: until the open
    /// discovery window runs out, or for ever when none is open.
    pub fn select_timeout(&self, now_ms: u64) -> (r: Option<u64>)
        ensures
            ({
                let elapsed = if now_ms >= self.discovery().spec_start_time() {
                    now_ms - self.discovery().spec_start_time()
                } else {
                    0
                };
                match r {
                    Some(t) => self.discovery().spec_ongoing() && elapsed
                        <= MAX_WAIT_FLOOD_RESPONSE_MS && t == MAX_WAIT_FLOOD_RESPONSE_MS - elapsed,
                    None => !(self.discovery().spec_ongoing() && elapsed
                        <= MAX_WAIT_FLOOD_RESPONSE_MS),
                }
            }),
    {
        if self.net_d.get_ongoing() {
            let elapsed = self.net_d.get_elapsed(now_ms);
            if elapsed <= MAX_WAIT_FLOOD_RESPONSE_MS {
                return Some(MAX_WAIT_FLOOD_RESPONSE_MS - elapsed);
            }
        }
        None
    }

    /// One inbound packet, dispatched by kind: fragments feed reassembly
    /// and are acknowledged; a completed message goes to the role and
    /// its reply comes back under the same session; acknowledgements are
    /// forwarded to the worker; flood requests are answered; flood
    /// responses of the current discovery are collected; a structural
    /// routing failure re-triggers discovery.
    pub fn handle_packet(&mut self, packet: Packet, now_ms: u64) -> (r: NodeEffects)
        requires
            old(self).wf(),
            // only fragments and acknowledgements name their sender via
            // the route's first hop; flood packets may carry any header,
            // a request even an empty one
            (packet.pack_type matches PacketType::MsgFragment(_) || packet.pack_type
                matches PacketType::Ack(_)) ==> packet.routing_header.hops@.len() >= 1,
            packet.pack_type matches PacketType::MsgFragment(f) ==> f.wf(),
        ensures
            final(self).wf(),
            final(self).spec_id() == old(self).spec_id(),
            match packet.pack_type {
                PacketType::Ack(ack) => {
                    &&& final(self).ctors() == old(self).ctors()
                    &&& final(self).role() == old(self).role()
                    &&& final(self).discovery() == old(self).discovery()
                    &&& r.fs is None
                    &&& r.duties@.len() == 1
                    &&& r.duties@[0] matches PacketSenderDutyMessage::AckedFragment((p, sid, fi))
                    &&& (r.duties@[0] matches PacketSenderDutyMessage::AckedFragment(
                        (p, sid, fi),
                    ) ==> p == packet.routing_header.hops@[0] && sid == packet.session_id && fi
                        == ack.fragment_index)
                },
                PacketType::FloodRequest(req) => {
                    &&& final(self).ctors() == old(self).ctors()
                    &&& final(self).role() == old(self).role()
                    &&& final(self).discovery() == old(self).discovery()
                    &&& r.fs is None
                    &&& r.duties@.len() == 1
                    &&& r.duties@[0] matches PacketSenderDutyMessage::Packet((p, sid, pt))
                    &&& (r.duties@[0] matches PacketSenderDutyMessage::Packet((p, sid, pt)) ==> {
                        &&& sid == packet.session_id
                        &&& p == old(self).spec_id()
                        &&& pt@ matches PacketTypeV::FloodResponse(fr)
                        &&& (pt@ matches PacketTypeV::FloodResponse(fr) ==> {
                            &&& fr.flood_id == req.flood_id
                            &&& fr.path_trace =~= req.path_trace@.push(
                                (old(self).spec_id(), NodeKind::Server),
                            )
                        })
                    })
                },
                PacketType::FloodResponse(fr) => {
                    &&& final(self).ctors() == old(self).ctors()
                    &&& final(self).role() == old(self).role()
                    &&& r.fs is None
                    &&& r.duties@.len() == 0
                    &&& if fr.flood_id == old(self).discovery().spec_id() {
                        final(self).discovery().traces() =~= old(
                            self,
                        ).discovery().traces().push(fr.path_trace@)
                    } else {
                        final(self).discovery() == old(self).discovery()
                    }
                },
                PacketType::Nack(nack) => {
                    &&& final(self).ctors() == old(self).ctors()
                    &&& final(self).role() == old(self).role()
                    &&& r.fs is None
                    &&& match nack.nack_type {
                        NackType::Dropped => r.duties@.len() == 0 && final(self).discovery()
                            == old(self).discovery(),
                        _ => r.duties@.len() == 1 && final(self).discovery().spec_ongoing(),
                    }
                },
                PacketType::MsgFragment(f) => ({
                    let peer_id = packet.routing_header.hops@[0];
                    let session_id = packet.session_id;
                    let s0 = old(self).ctors();
                    let s1 = final(self).ctors();
                    let existing = has_entry(s0, peer_id, session_id);
                    let total = if existing {
                        s0[entry_idx(s0, peer_id, session_id)].1.total() as nat
                    } else {
                        f.total_n_fragments as nat
                    };
                    let slots0 = entry_slots(s0, peer_id, session_id, total);
                    let slots1 = fill(slots0, f@);
                    &&& final(self).discovery() == old(self).discovery()
                    &&& (forall|p: NodeId, sess: u64|
                        !(p == peer_id && sess == session_id) ==> (has_entry(s1, p, sess)
                            <==> #[trigger] has_entry(s0, p, sess)))
                    &&& if !existing && total > usize::MAX {
                        &&& s1 == s0
                        &&& final(self).role() == old(self).role()
                        &&& r.duties@.len() == 0
                        &&& r.fs is None
                    } else if f.fragment_index >= total {
                        &&& !has_entry(s1, peer_id, session_id)
                        &&& final(self).role() == old(self).role()
                        &&& r.duties@.len() == 0
                        &&& r.fs is None
                    } else {
                        &&& r.duties@.len() >= 1
                        &&& (r.duties@[0] matches PacketSenderDutyMessage::Packet((p, sid, pt))
                            && p == peer_id && sid == session_id && pt@ == PacketTypeV::Ack(
                            Ack { fragment_index: f.fragment_index },
                        ))
                        &&& if all_filled(slots1) {
                            &&& !has_entry(s1, peer_id, session_id)
                            &&& match dec_message(assembled(slots1), 0) {
                                Some((m, _)) => delivery_handled(
                                    old(self).role(),
                                    final(self).role(),
                                    peer_id,
                                    session_id,
                                    m,
                                    r.duties@.skip(1),
                                    match r.fs {
                                        Some((fp, fsid, ref req)) => Some((fp, fsid, req@)),
                                        None => None,
                                    },
                                ),
                                None => r.duties@.len() == 1 && r.fs is None && final(self).role()
                                    == old(self).role(),
                            }
                        } else {
                            &&& has_entry(s1, peer_id, session_id)
                            &&& s1[entry_idx(s1, peer_id, session_id)].1.slots() == slots1
                            &&& s1[entry_idx(s1, peer_id, session_id)].1.total() == total
                            &&& r.duties@.len() == 1
                            &&& r.fs is None
                            &&& final(self).role() == old(self).role()
                        }
                    }
                }),
            },
    {
        match packet.pack_type {
            PacketType::MsgFragment(frgmt) => {
                let peer = packet.routing_header.hops[0];
                let (mut duties, completed) = self.handle_fragment(
                    peer,
                    packet.session_id,
                    frgmt,
                );
                match completed {
                    Some(message) => {
                        let ghost ack_duties = duties@;
                        let ghost mid_role = self.role();
                        let mut more = self.handle_data_message(
                            peer,
                            packet.session_id,
                            message,
                        );
                        let ghost more_d = more.duties@;
                        duties.append(&mut more.duties);
                        proof {
                            assert(duties@ =~= ack_duties + more_d);
                            assert(duties@.skip(1) =~= more_d);
                            assert(mid_role == old(self).role());
                        }
                        NodeEffects { duties, fs: more.fs }
                    },
                    None => NodeEffects { duties, fs: None },
                }
            },
            PacketType::Ack(ack) => {
                let mut duties: Vec<PacketSenderDutyMessage> = Vec::new();
                duties.push(
                    PacketSenderDutyMessage::AckedFragment(
                        (packet.routing_header.hops[0], packet.session_id, ack.fragment_index),
                    ),
                );
                NodeEffects { duties, fs: None }
            },
            PacketType::FloodRequest(flood_request) => {
                let duties = self.handle_flood_request(flood_request, packet.session_id);
                NodeEffects { duties, fs: None }
            },
            PacketType::FloodResponse(flood_response) => {
                if flood_response.flood_id == self.net_d.get_id() {
                    self.net_d.add_response(flood_response);
                    proof {
                        assert(self.ctors() == old(self).ctors());
                        assert(self.wf());
                    }
                }
                NodeEffects { duties: Vec::new(), fs: None }
            },
            PacketType::Nack(nack) => {
                match nack.nack_type {
                    NackType::UnexpectedRecipient(_)
                    | NackType::DestinationIsDrone
                    | NackType::ErrorInRouting(_) => {
                        let duties = self.trigger_network_discovery(now_ms);
                        NodeEffects { duties, fs: None }
                    },
                    NackType::Dropped => NodeEffects { duties: Vec::new(), fs: None },
                }
            },
        }
    }

    /// One supervisor command.  `Quit` stops the node: it asks nothing
    /// of the worker and the embedding program must drain and join it.
    /// Neighbour changes re-trigger discovery; an application send is
    /// delegated to the role and fragmented out under a fresh session.
    pub fn handle_command(&mut self, command: NodeCommand, now_ms: u64) -> (r: (
        bool,
        Vec<PacketSenderDutyMessage>,
    ))
        requires
            old(self).wf(),
        ensures
            final(self).wf(),
            final(self).spec_id() == old(self).spec_id(),
            match command {
                NodeCommand::Quit => {
                    &&& r.0
                    &&& r.1@.len() == 0
                    &&& *final(self) == *old(self)
                },
                NodeCommand::AddNeighbour(_) | NodeCommand::RemoveNeighbour(_) => {
                    &&& !r.0
                    &&& final(self).role() == old(self).role()
                    &&& final(self).ctors() == old(self).ctors()
                    &&& final(self).discovery().spec_ongoing()
                    &&& final(self).discovery().spec_start_time() == now_ms
                    &&& final(self).discovery().traces().len() == 0
                    &&& r.1@.len() == 1
                    &&& r.1@[0] matches PacketSenderDutyMessage::Packet((p, _sid, pt))
                    &&& (r.1@[0] matches PacketSenderDutyMessage::Packet((p, _sid, pt)) ==> {
                        &&& p == old(self).spec_id()
                        &&& pt@ matches PacketTypeV::FloodRequest(fr)
                        &&& (pt@ matches PacketTypeV::FloodRequest(fr) ==> {
                            &&& fr.flood_id == final(self).discovery().spec_id()
                            &&& fr.initiator_id == old(self).spec_id()
                            &&& fr.path_trace =~= seq![(old(self).spec_id(), NodeKind::Server)]
                        })
                    })
                },
                NodeCommand::SendMessage(ref sim) => {
                    &&& !r.0
                    &&& *final(self) == *old(self)
                    &&& match sim {
                        SimControllerMessage::SendMessageToPeer(peer_id, ref m) => exists|sid: u64|
                            #[trigger] fragment_duties(r.1@, *peer_id, sid, m@),
                    }
                },
            },
    {
        match command {
            NodeCommand::Quit => (true, Vec::new()),
            NodeCommand::AddNeighbour(_) => {
                let duties = self.trigger_network_discovery(now_ms);
                (false, duties)
            },
            NodeCommand::RemoveNeighbour(_) => {
                let duties = self.trigger_network_discovery(now_ms);
                (false, duties)
            },
            NodeCommand::SendMessage(message) => {
                match self.inner_node.handle_control_message(message) {
                    Some((peer_id, session_id, m)) => {
                        let duties = self.send_data_message(peer_id, session_id, m);
                        (false, duties)
                    },
                    None => (false, Vec::new()),
                }
            },
        }
    }
}

} // verus!
