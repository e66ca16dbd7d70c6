//! Source routing: breadth-first search over the adjacency map.

use backend::network_discovery::NetDiscovery;
use backend::packet::{FloodResponse, NodeKind};
use backend::packet_sender::PacketSender;

fn topology_from(traces: &[&[u8]]) -> backend::network_discovery::Topology {
    let mut net_d = NetDiscovery::new();
    for ids in traces {
        net_d.add_response(FloodResponse {
            flood_id: 0,
            path_trace: ids.iter().map(|&id| (id, NodeKind::Drone)).collect(),
        });
    }
    net_d.parse_network()
}

#[test]
fn a_line_is_routed_end_to_end() {
    let topo = topology_from(&[&[1, 2, 3]]);
    let sender = PacketSender::new(1);
    let path = sender.get_route_to_peer(&topo, 3).expect("3 is reachable from 1");
    assert_eq!(path, vec![1, 2, 3]);
}

#[test]
fn the_shortest_route_wins() {
    // a long way round (1-4-5-3) and a short one (1-2-3)
    let topo = topology_from(&[&[1, 4, 5, 3], &[1, 2, 3]]);
    let sender = PacketSender::new(1);
    let path = sender.get_route_to_peer(&topo, 3).expect("3 is reachable from 1");
    assert_eq!(path.len(), 3);
    assert_eq!(path[0], 1);
    assert_eq!(path[2], 3);
}

#[test]
fn equal_length_routes_break_by_insertion_order() {
    // two routes of equal length; the neighbour seen first wins
    let topo = topology_from(&[&[1, 4, 3], &[1, 2, 3]]);
    let sender = PacketSender::new(1);
    let path = sender.get_route_to_peer(&topo, 3).expect("3 is reachable from 1");
    assert_eq!(path, vec![1, 4, 3]);
}

#[test]
fn unreachable_peers_have_no_route() {
    let topo = topology_from(&[&[1, 2], &[3, 4]]);
    let sender = PacketSender::new(1);
    assert!(sender.get_route_to_peer(&topo, 4).is_none());
    assert!(sender.get_route_to_peer(&topo, 9).is_none());
}

#[test]
fn the_route_to_oneself_is_trivial() {
    let topo = topology_from(&[&[1, 2]]);
    let sender = PacketSender::new(1);
    let path = sender.get_route_to_peer(&topo, 1).expect("a node always reaches itself");
    assert_eq!(path, vec![1]);
}

#[test]
fn routes_avoid_repeating_nodes() {
    // a cycle: 1-2-3-4-1
    let topo = topology_from(&[&[1, 2, 3, 4, 1]]);
    let sender = PacketSender::new(1);
    let path = sender.get_route_to_peer(&topo, 3).expect("3 is reachable from 1");
    assert_eq!(path.len(), 3);
    for i in 0..path.len() {
        for j in 0..i {
            assert_ne!(path[i], path[j]);
        }
    }
}
