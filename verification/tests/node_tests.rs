//! Whole-node round trips over a simulated wire: requests travel from
//! one node through a forwarding hop to another, and the replies come
//! back and reassemble.

use std::collections::HashMap;

use backend::message::{ChatMessage, Message, Request, Response, ServerType};
use backend::network_discovery::{NetDiscovery, Topology};
use backend::node::{Node, NodeCommand, NodeEffects};
use backend::packet::{FloodResponse, NodeKind, Packet, PacketType};
use backend::packet_sender::{PacketSender, PacketSenderDutyMessage, WireSend};
use backend::role::{FsOutcome, FsRequest, SimControllerMessage};

/// The adjacency map every node would fold from a `1-2-3` line.
fn line_topology() -> Topology {
    let mut net_d = NetDiscovery::new();
    net_d.add_response(FloodResponse {
        flood_id: 0,
        path_trace: vec![(1, NodeKind::Client), (2, NodeKind::Drone), (3, NodeKind::Server)],
    });
    net_d.parse_network()
}

/// Hands a node's duties to its worker.
fn pump(worker: &mut PacketSender, duties: Vec<PacketSenderDutyMessage>, now_ms: u64) {
    for duty in duties {
        worker.handle_duty(duty, now_ms);
    }
}

/// Stands in for the drones on the route: consumes the source route and
/// delivers each packet to its final hop.
fn carry(wire: Vec<WireSend>) -> Vec<(u8, Packet)> {
    let mut out = Vec::new();
    for send in wire {
        if let WireSend::ToNeighbor { packet, .. } = send {
            let mut p = packet;
            let dest = *p.routing_header.hops.last().unwrap();
            p.routing_header.hop_index = p.routing_header.hops.len() - 1;
            out.push((dest, p));
        }
    }
    out
}

/// Sends `request` from `from` and returns what `to` reassembled plus
/// the effects its role owed.
fn exchange(
    from: &mut Node,
    from_worker: &mut PacketSender,
    to: &mut Node,
    request: Request,
    topo: &Topology,
) -> NodeEffects {
    let peer = to.id();
    let (quit, duties) = from.handle_command(
        NodeCommand::SendMessage(SimControllerMessage::SendMessageToPeer(
            peer,
            Message::Request(request),
        )),
        0,
    );
    assert!(!quit);
    pump(from_worker, duties, 0);
    let (wire, control) = from_worker.process_queue(topo, false, 1_000);
    assert_eq!(control.len(), 0);
    let mut combined = NodeEffects { duties: Vec::new(), fs: None };
    for (dest, packet) in carry(wire) {
        assert_eq!(dest, peer);
        let mut effects = to.handle_packet(packet, 1_000);
        combined.duties.append(&mut effects.duties);
        if effects.fs.is_some() {
            assert!(combined.fs.is_none());
            combined.fs = effects.fs;
        }
    }
    combined
}

/// Routes a responder's duties back and returns what the requester's
/// reassembler produced.
fn collect_reply(
    responder: &mut PacketSender,
    requester: &mut Node,
    topo: &Topology,
) -> Option<Message> {
    let (wire, control) = responder.process_queue(topo, false, 2_000);
    assert_eq!(control.len(), 0);
    let mut reply = None;
    for (dest, packet) in carry(wire) {
        assert_eq!(dest, requester.id());
        let session = packet.session_id;
        let peer = packet.routing_header.hops[0];
        match packet.pack_type {
            PacketType::MsgFragment(f) => {
                let (acks, completed) = requester.handle_fragment(peer, session, f);
                assert_eq!(acks.len(), 1, "every accepted fragment is acknowledged");
                if let Some(m) = completed {
                    assert!(reply.is_none(), "a message is delivered once");
                    reply = Some(m);
                }
            }
            PacketType::Ack(_) => {}
            _ => panic!("only fragments and acknowledgements ride back here"),
        }
    }
    reply
}

#[test]
fn server_type_probe_round_trips() {
    let topo = line_topology();
    let mut c = Node::new_communication_server(1, String::from("store"));
    let mut cw = PacketSender::new(1);
    let mut s = Node::new_content_server(3, String::from("store"));
    let mut sw = PacketSender::new(3);

    let effects = exchange(&mut c, &mut cw, &mut s, Request::ServerType, &topo);
    assert!(effects.fs.is_none());
    pump(&mut sw, effects.duties, 1_000);
    let reply = collect_reply(&mut sw, &mut c, &topo);
    assert_eq!(
        reply,
        Some(Message::Response(Response::ServerType(ServerType::Content)))
    );
}

#[test]
fn chat_create_and_read_round_trips() {
    let topo = line_topology();
    let mut c = Node::new_communication_server(1, String::from("store"));
    let mut cw = PacketSender::new(1);
    let mut s = Node::new_communication_server(3, String::from("store"));
    let mut sw = PacketSender::new(3);

    // create a chat and learn its id
    let effects = exchange(&mut c, &mut cw, &mut s, Request::CreateChat(String::from("room")), &topo);
    pump(&mut sw, effects.duties, 1_000);
    let reply = collect_reply(&mut sw, &mut c, &topo);
    let chat_id = match reply {
        Some(Message::Response(Response::NewChat(chat))) => {
            assert_eq!(chat.name, "room");
            chat.id
        }
        other => panic!("expected a fresh chat, got {:?}", other),
    };

    // write into it: no reply is owed
    let effects = exchange(
        &mut c,
        &mut cw,
        &mut s,
        Request::SendMessage(chat_id, String::from("hi")),
        &topo,
    );
    assert!(effects.fs.is_none());
    pump(&mut sw, effects.duties, 1_000);
    let reply = collect_reply(&mut sw, &mut c, &topo);
    assert_eq!(reply, None);

    // read it back
    let effects = exchange(&mut c, &mut cw, &mut s, Request::GetMessages(chat_id), &topo);
    pump(&mut sw, effects.duties, 1_000);
    let reply = collect_reply(&mut sw, &mut c, &topo);
    match reply {
        Some(Message::Response(Response::Messages(entries))) => {
            assert_eq!(entries.len(), 1);
            let ChatMessage { author, message, timestamp } = &entries[0];
            assert_eq!(*author, 1);
            assert_eq!(message, "hi");
            assert!(!timestamp.is_empty());
        }
        other => panic!("expected the chat's entries, got {:?}", other),
    }
}

#[test]
fn file_round_trip_with_a_played_filesystem() {
    let topo = line_topology();
    let mut c = Node::new_communication_server(1, String::from("store"));
    let mut cw = PacketSender::new(1);
    let mut s = Node::new_content_server(3, String::from("store"));
    let mut sw = PacketSender::new(3);
    let mut disk: HashMap<String, String> = HashMap::new();

    // write a public file: the node owes one write action and no reply
    let effects = exchange(
        &mut c,
        &mut cw,
        &mut s,
        Request::WritePublicFile(String::from("a.txt"), String::from("hello")),
        &topo,
    );
    assert_eq!(effects.duties.len(), 1, "only the acknowledgement leaves");
    match effects.fs {
        Some((peer, _session, FsRequest::WriteFile(path, data))) => {
            assert_eq!(peer, 1);
            assert_eq!(path, "store/3/content/public/a.txt");
            disk.insert(path, data);
        }
        other => panic!("expected a write action, got {:?}", other),
    }

    // read it back: the node owes a read action, whose outcome replies
    let effects = exchange(
        &mut c,
        &mut cw,
        &mut s,
        Request::GetPublicFile(String::from("a.txt")),
        &topo,
    );
    let (peer, session, path) = match effects.fs {
        Some((peer, session, FsRequest::ReadFile(path))) => (peer, session, path),
        other => panic!("expected a read action, got {:?}", other),
    };
    let outcome = match disk.get(&path) {
        Some(data) => FsOutcome::ReadOk(data.clone()),
        None => FsOutcome::ReadFailed,
    };
    let duties = s.handle_fs_result(peer, session, outcome);
    pump(&mut sw, duties, 1_000);
    let reply = collect_reply(&mut sw, &mut c, &topo);
    assert_eq!(reply, Some(Message::Response(Response::File(String::from("hello")))));

    // a missing file is owed a read action whose failure replies NoSuchFile
    let effects = exchange(
        &mut c,
        &mut cw,
        &mut s,
        Request::GetPublicFile(String::from("b.txt")),
        &topo,
    );
    let (peer, session, path) = match effects.fs {
        Some((peer, session, FsRequest::ReadFile(path))) => (peer, session, path),
        other => panic!("expected a read action, got {:?}", other),
    };
    assert!(disk.get(&path).is_none());
    let duties = s.handle_fs_result(peer, session, FsOutcome::ReadFailed);
    pump(&mut sw, duties, 1_000);
    let reply = collect_reply(&mut sw, &mut c, &topo);
    assert_eq!(reply, Some(Message::Response(Response::NoSuchFile)));

    // a climbing name is refused without any filesystem action
    let effects = exchange(
        &mut c,
        &mut cw,
        &mut s,
        Request::GetPublicFile(String::from("../etc")),
        &topo,
    );
    assert!(effects.fs.is_none(), "no filesystem action for a climbing name");
    pump(&mut sw, effects.duties, 1_000);
    let reply = collect_reply(&mut sw, &mut c, &topo);
    assert_eq!(reply, Some(Message::Response(Response::NoSuchFile)));
}

#[test]
fn an_added_edge_retriggers_discovery_and_appears_in_the_map() {
    let mut node = Node::new_content_server(1, String::from("store"));
    // the supervisor spliced an edge next to this node: it re-runs discovery
    let (quit, duties) = node.handle_command(NodeCommand::AddNeighbour(4), 10_000);
    assert!(!quit);
    assert_eq!(duties.len(), 1);
    let flood_id = match &duties[0] {
        PacketSenderDutyMessage::Packet((_, _, PacketType::FloodRequest(fr))) => fr.flood_id,
        _ => panic!("a neighbour change must re-trigger discovery"),
    };
    // responses now travel over the new edges 2-4 and 4-3
    let response = Packet {
        pack_type: PacketType::FloodResponse(FloodResponse {
            flood_id,
            path_trace: vec![
                (1, NodeKind::Client),
                (2, NodeKind::Drone),
                (4, NodeKind::Drone),
                (3, NodeKind::Server),
            ],
        }),
        routing_header: backend::packet::SourceRoutingHeader { hop_index: 1, hops: vec![2, 1] },
        session_id: 0,
    };
    node.handle_packet(response, 10_010);
    let topo = node.discovery_tick(10_060).expect("the window expired");
    assert!(topo.has_edge(2, 4) && topo.has_edge(4, 2));
    assert!(topo.has_edge(4, 3) && topo.has_edge(3, 4));
}

#[test]
fn lost_fragments_are_retried_and_the_message_arrives_once() {
    let topo = line_topology();
    let mut c = Node::new_communication_server(1, String::from("store"));
    let mut cw = PacketSender::new(1);
    let mut s = Node::new_content_server(3, String::from("store"));
    let mut sw = PacketSender::new(3);

    let mut text = String::new();
    while text.len() < 2048 {
        text.push_str("0123456789abcdef");
    }
    let sent = Message::Request(Request::WritePublicFile(String::from("big.txt"), text));
    let duties = c.send_data_message(3, Some(42), sent.clone());
    let n_fragments = duties.len();
    assert!(n_fragments >= 16, "two kilobytes split into many fragments");
    pump(&mut cw, duties, 1_000);

    // first transmission: the drone drops every fragment
    let (wire, _) = cw.process_queue(&topo, false, 1_000);
    assert_eq!(wire.len(), n_fragments);
    drop(wire);

    // after the back-off, every fragment goes out a second time
    let (wire, _) = cw.process_queue(&topo, false, 1_200);
    assert_eq!(wire.len(), n_fragments);
    let mut delivered = None;
    for (dest, packet) in carry(wire) {
        assert_eq!(dest, 3);
        let mut effects = s.handle_packet(packet, 1_200);
        // route each acknowledgement back to the sender's worker
        pump(&mut sw, effects.duties.drain(..).collect(), 1_200);
        if let Some(fs) = effects.fs {
            // the completed write reaches the role exactly once
            assert!(delivered.is_none());
            delivered = Some(fs);
        }
    }
    match delivered {
        Some((_, _, FsRequest::WriteFile(path, data))) => {
            assert_eq!(path, "store/3/content/public/big.txt");
            assert!(data.len() >= 2048);
        }
        other => panic!("expected exactly one completed write, got {:?}", other),
    }
    let (acks, _) = sw.process_queue(&topo, false, 1_200);
    assert_eq!(acks.len(), n_fragments, "every fragment is acknowledged");
    for (dest, packet) in carry(acks) {
        assert_eq!(dest, 1);
        let effects = c.handle_packet(packet, 1_200);
        pump(&mut cw, effects.duties, 1_200);
    }
    // with every fragment acknowledged, nothing is ever retransmitted
    let (wire, _) = cw.process_queue(&topo, false, 100_000);
    assert_eq!(wire.len(), 0);
}

#[test]
fn quit_asks_nothing_and_changes_nothing() {
    let mut node = Node::new_content_server(1, String::from("store"));
    let (quit, duties) = node.handle_command(NodeCommand::Quit, 0);
    assert!(quit);
    assert_eq!(duties.len(), 0);
}

#[test]
fn a_structural_routing_failure_retriggers_discovery() {
    let mut node = Node::new_content_server(1, String::from("store"));
    let nack = Packet {
        pack_type: PacketType::Nack(backend::packet::Nack {
            fragment_index: 0,
            nack_type: backend::packet::NackType::ErrorInRouting(2),
        }),
        routing_header: backend::packet::SourceRoutingHeader { hop_index: 1, hops: vec![2, 1] },
        session_id: 0,
    };
    let effects = node.handle_packet(nack, 500);
    assert_eq!(effects.duties.len(), 1, "discovery sends one flood request");
    // a stochastic drop does not: retransmission covers it
    let dropped = Packet {
        pack_type: PacketType::Nack(backend::packet::Nack {
            fragment_index: 0,
            nack_type: backend::packet::NackType::Dropped,
        }),
        routing_header: backend::packet::SourceRoutingHeader { hop_index: 1, hops: vec![2, 1] },
        session_id: 0,
    };
    let effects = node.handle_packet(dropped, 501);
    assert_eq!(effects.duties.len(), 0);
}

#[test]
fn an_empty_header_flood_request_is_answered() {
    let mut node = Node::new_content_server(3, String::from("store"));
    let packet = Packet {
        pack_type: PacketType::FloodRequest(backend::packet::FloodRequest {
            flood_id: 7,
            initiator_id: 1,
            path_trace: vec![(1, NodeKind::Client)],
        }),
        routing_header: backend::packet::SourceRoutingHeader { hop_index: 0, hops: vec![] },
        session_id: 11,
    };
    let effects = node.handle_packet(packet, 0);
    assert!(effects.fs.is_none());
    assert_eq!(effects.duties.len(), 1);
    match &effects.duties[0] {
        PacketSenderDutyMessage::Packet((_, session, PacketType::FloodResponse(fr))) => {
            assert_eq!(*session, 11);
            assert_eq!(fr.flood_id, 7);
            assert_eq!(
                fr.path_trace,
                vec![(1, NodeKind::Client), (3, NodeKind::Server)]
            );
        }
        _ => panic!("a flood request must be answered with a response"),
    }
}

#[test]
fn discovery_round_trips_between_two_nodes() {
    // nodes 1 and 3 are direct neighbours; the flood discovers the edge
    let mut a = Node::new_content_server(1, String::from("store"));
    let mut aw = PacketSender::new(1);
    let mut b = Node::new_content_server(3, String::from("store"));
    let mut bw = PacketSender::new(3);

    let duties = a.trigger_network_discovery(0);
    pump(&mut aw, duties, 0);
    // the request is broadcast with an empty routing header
    let (wire, _) = aw.process_queue(&Topology::new(), false, 0);
    assert_eq!(wire.len(), 1);
    let request_packet = match wire.into_iter().next().unwrap() {
        WireSend::Broadcast { packet } => {
            assert!(packet.routing_header.hops.is_empty());
            packet
        }
        WireSend::ToNeighbor { .. } => panic!("a flood request goes to every neighbour"),
    };

    // the neighbour answers through its own dispatcher and worker
    let effects = b.handle_packet(request_packet, 5);
    pump(&mut bw, effects.duties, 5);
    let (wire, _) = bw.process_queue(&Topology::new(), false, 5);
    assert_eq!(wire.len(), 1);
    match wire.into_iter().next().unwrap() {
        WireSend::ToNeighbor { next_hop, packet } => {
            // the response rides the reversed trace straight back
            assert_eq!(next_hop, 1);
            assert_eq!(packet.routing_header.hops, vec![3, 1]);
            a.handle_packet(packet, 10);
        }
        WireSend::Broadcast { .. } => panic!("a flood response rides its trace"),
    }

    let topo = a.discovery_tick(60).expect("the window expired");
    assert!(topo.has_edge(1, 3) && topo.has_edge(3, 1));
}

#[test]
fn a_flood_request_is_answered_with_the_extended_trace() {
    let node = Node::new_content_server(3, String::from("store"));
    let request = backend::packet::FloodRequest {
        flood_id: 99,
        initiator_id: 1,
        path_trace: vec![(1, NodeKind::Client), (2, NodeKind::Drone)],
    };
    let duties = node.handle_flood_request(request, 555);
    assert_eq!(duties.len(), 1);
    match &duties[0] {
        PacketSenderDutyMessage::Packet((_, session, PacketType::FloodResponse(fr))) => {
            assert_eq!(*session, 555);
            assert_eq!(fr.flood_id, 99);
            assert_eq!(
                fr.path_trace,
                vec![(1, NodeKind::Client), (2, NodeKind::Drone), (3, NodeKind::Server)]
            );
        }
        _ => panic!("a flood request must be answered with a response"),
    }
}
