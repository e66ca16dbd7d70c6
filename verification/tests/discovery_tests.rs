//! Discovery: folding flood traces into an undirected adjacency map,
//! the response window, and stale-response filtering.

use backend::network_discovery::{NetDiscovery, MAX_WAIT_FLOOD_RESPONSE_MS};
use backend::node::Node;
use backend::packet::{FloodResponse, NodeKind, Packet, PacketType, SourceRoutingHeader};

fn response(flood_id: u64, ids: &[u8]) -> FloodResponse {
    FloodResponse {
        flood_id,
        path_trace: ids.iter().map(|&id| (id, NodeKind::Drone)).collect(),
    }
}

#[test]
fn parse_network_makes_edges_undirected() {
    let mut net_d = NetDiscovery::new();
    net_d.add_response(response(0, &[1, 2, 3]));
    let topo = net_d.parse_network();
    assert!(topo.has_edge(1, 2) && topo.has_edge(2, 1));
    assert!(topo.has_edge(2, 3) && topo.has_edge(3, 2));
    assert!(!topo.has_edge(1, 3) && !topo.has_edge(3, 1));
}

#[test]
fn parse_network_merges_traces_without_duplicates() {
    let mut net_d = NetDiscovery::new();
    net_d.add_response(response(0, &[1, 2, 3]));
    net_d.add_response(response(0, &[3, 2, 1]));
    net_d.add_response(response(0, &[2, 4]));
    let topo = net_d.parse_network();
    assert!(topo.has_edge(1, 2) && topo.has_edge(2, 1));
    assert!(topo.has_edge(2, 4) && topo.has_edge(4, 2));
    assert!(!topo.has_edge(1, 4));
}

#[test]
fn parse_network_clears_collected_responses() {
    let mut net_d = NetDiscovery::new();
    net_d.add_response(response(0, &[1, 2]));
    let first = net_d.parse_network();
    assert!(first.has_edge(1, 2));
    let second = net_d.parse_network();
    assert!(!second.has_edge(1, 2));
}

#[test]
fn empty_and_singleton_traces_make_no_edges() {
    let mut net_d = NetDiscovery::new();
    net_d.add_response(response(0, &[]));
    net_d.add_response(response(0, &[7]));
    let topo = net_d.parse_network();
    assert!(!topo.has_edge(7, 7));
}

fn flood_response_packet(flood_id: u64, ids: &[u8]) -> Packet {
    Packet {
        pack_type: PacketType::FloodResponse(response(flood_id, ids)),
        routing_header: SourceRoutingHeader { hop_index: 1, hops: vec![2, 1] },
        session_id: 0,
    }
}

#[test]
fn discovery_window_replaces_the_map_on_expiry() {
    let mut node = Node::new_content_server(1, String::from("store"));
    let duties = node.trigger_network_discovery(1_000);
    assert_eq!(duties.len(), 1);
    // the current flood id rides inside the emitted request
    let flood_id = match &duties[0] {
        backend::packet_sender::PacketSenderDutyMessage::Packet((_, _, PacketType::FloodRequest(fr))) => fr.flood_id,
        _ => panic!("a discovery trigger must emit a flood request"),
    };
    node.handle_packet(flood_response_packet(flood_id, &[1, 2, 3]), 1_010);
    // the window is still open: nothing is folded yet
    assert!(node.discovery_tick(1_000 + MAX_WAIT_FLOOD_RESPONSE_MS).is_none());
    // one millisecond past the window the map is replaced
    let topo = node
        .discovery_tick(1_000 + MAX_WAIT_FLOOD_RESPONSE_MS + 1)
        .expect("an expired window folds the traces");
    assert!(topo.has_edge(1, 2) && topo.has_edge(2, 1));
    assert!(topo.has_edge(2, 3) && topo.has_edge(3, 2));
    // and the window is closed
    assert!(node.discovery_tick(1_000 + MAX_WAIT_FLOOD_RESPONSE_MS + 2).is_none());
}

#[test]
fn stale_flood_responses_are_dropped() {
    let mut node = Node::new_content_server(1, String::from("store"));
    let duties = node.trigger_network_discovery(0);
    let flood_id = match &duties[0] {
        backend::packet_sender::PacketSenderDutyMessage::Packet((_, _, PacketType::FloodRequest(fr))) => fr.flood_id,
        _ => panic!("a discovery trigger must emit a flood request"),
    };
    node.handle_packet(flood_response_packet(flood_id.wrapping_add(1), &[1, 9]), 1);
    let topo = node
        .discovery_tick(MAX_WAIT_FLOOD_RESPONSE_MS + 1)
        .expect("an expired window folds the traces");
    assert!(!topo.has_edge(1, 9));
}

#[test]
fn the_node_waits_out_the_remaining_window() {
    let mut node = Node::new_content_server(1, String::from("store"));
    assert_eq!(node.select_timeout(0), None);
    node.trigger_network_discovery(1_000);
    assert_eq!(node.select_timeout(1_000), Some(MAX_WAIT_FLOOD_RESPONSE_MS));
    assert_eq!(node.select_timeout(1_030), Some(MAX_WAIT_FLOOD_RESPONSE_MS - 30));
    assert_eq!(node.select_timeout(1_000 + MAX_WAIT_FLOOD_RESPONSE_MS), Some(0));
    assert_eq!(node.select_timeout(1_000 + MAX_WAIT_FLOOD_RESPONSE_MS + 1), None);
}
