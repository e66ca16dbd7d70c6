//! The send-queue worker: classification, retransmission with back-off,
//! retry exhaustion, acknowledgements, flood handling, and quitting.

use backend::network_discovery::{NetDiscovery, Topology};
use backend::packet::{
    Ack, FloodRequest, FloodResponse, Fragment, NodeKind, PacketType, FRAGMENT_DSIZE,
};
use backend::packet_sender::{
    PacketSender, PacketSenderControlMessage, PacketSenderDutyMessage, WireSend,
    PACKET_RECV_TIMEOUT_MS, PACKET_RESEND_BACK_OFF_TIME_MS, PACKET_RESEND_MAX_RETRIES,
};

fn line_topology() -> Topology {
    let mut net_d = NetDiscovery::new();
    net_d.add_response(FloodResponse {
        flood_id: 0,
        path_trace: vec![(1, NodeKind::Client), (2, NodeKind::Drone), (3, NodeKind::Server)],
    });
    net_d.parse_network()
}

fn empty_topology() -> Topology {
    NetDiscovery::new().parse_network()
}

fn fragment(index: u64) -> PacketType {
    PacketType::MsgFragment(Fragment {
        fragment_index: index,
        total_n_fragments: 1,
        length: 5,
        data: vec![7u8; FRAGMENT_DSIZE],
    })
}

fn count_fragment_sends(wire: &[WireSend]) -> usize {
    wire.iter()
        .filter(|w| match w {
            WireSend::ToNeighbor { packet, .. } => {
                matches!(packet.pack_type, PacketType::MsgFragment(_))
            }
            WireSend::Broadcast { .. } => false,
        })
        .count()
}

#[test]
fn a_fresh_fragment_is_sent_at_once_with_a_route() {
    let topo = line_topology();
    let mut sender = PacketSender::new(1);
    sender.handle_new_packet(3, 77, fragment(0), 1_000);
    let (wire, control) = sender.process_queue(&topo, false, 1_000);
    assert_eq!(control.len(), 0);
    assert_eq!(count_fragment_sends(&wire), 1);
    match &wire[0] {
        WireSend::ToNeighbor { next_hop, packet } => {
            assert_eq!(*next_hop, 2);
            assert_eq!(packet.routing_header.hops, vec![1, 2, 3]);
            assert_eq!(packet.routing_header.hop_index, 1);
            assert_eq!(packet.session_id, 77);
        }
        WireSend::Broadcast { .. } => panic!("a fragment is never broadcast"),
    }
}

#[test]
fn a_retry_waits_for_the_back_off() {
    let topo = line_topology();
    let mut sender = PacketSender::new(1);
    sender.handle_new_packet(3, 77, fragment(0), 1_000);
    let (wire, _) = sender.process_queue(&topo, false, 1_000);
    assert_eq!(count_fragment_sends(&wire), 1);
    // one millisecond before the back-off elapses: no send
    let (wire, _) = sender.process_queue(&topo, false, 1_000 + PACKET_RESEND_BACK_OFF_TIME_MS - 1);
    assert_eq!(count_fragment_sends(&wire), 0);
    // the back-off elapsed: the fragment goes out again
    let (wire, _) = sender.process_queue(&topo, false, 1_000 + PACKET_RESEND_BACK_OFF_TIME_MS);
    assert_eq!(count_fragment_sends(&wire), 1);
}

#[test]
fn retries_stop_after_the_budget() {
    let topo = line_topology();
    let mut sender = PacketSender::new(1);
    sender.handle_new_packet(3, 77, fragment(0), 0);
    let mut sends = 0;
    let mut now = 0u64;
    for _ in 0..20 {
        let (wire, _) = sender.process_queue(&topo, false, now);
        sends += count_fragment_sends(&wire);
        now += PACKET_RESEND_BACK_OFF_TIME_MS;
    }
    assert_eq!(sends, PACKET_RESEND_MAX_RETRIES as usize);
}

#[test]
fn an_acknowledged_fragment_is_not_retried() {
    let topo = line_topology();
    let mut sender = PacketSender::new(1);
    sender.handle_new_packet(3, 77, fragment(0), 1_000);
    let (wire, _) = sender.process_queue(&topo, false, 1_000);
    assert_eq!(count_fragment_sends(&wire), 1);
    sender.retain_acked_fragments(3, 77, 0);
    let (wire, _) = sender.process_queue(&topo, false, 10_000);
    assert_eq!(count_fragment_sends(&wire), 0);
}

#[test]
fn an_ack_for_another_fragment_changes_nothing() {
    let topo = line_topology();
    let mut sender = PacketSender::new(1);
    sender.handle_new_packet(3, 77, fragment(0), 1_000);
    sender.retain_acked_fragments(3, 77, 5);
    sender.retain_acked_fragments(3, 78, 0);
    sender.retain_acked_fragments(4, 77, 0);
    let (wire, _) = sender.process_queue(&topo, false, 1_000);
    assert_eq!(count_fragment_sends(&wire), 1);
}

#[test]
fn no_route_asks_for_discovery_and_keeps_the_packet() {
    let topo = empty_topology();
    let mut sender = PacketSender::new(1);
    sender.handle_new_packet(3, 77, PacketType::Ack(Ack { fragment_index: 0 }), 0);
    let (wire, control) = sender.process_queue(&topo, false, 0);
    assert_eq!(wire.len(), 0);
    assert_eq!(control, vec![PacketSenderControlMessage::TriggerNetworkDiscovery]);
    // the packet stayed queued: a later pass with a route delivers it
    let (wire, control) = sender.process_queue(&line_topology(), false, 1);
    assert_eq!(wire.len(), 1);
    assert_eq!(control.len(), 0);
}

#[test]
fn nothing_is_routed_while_discovery_is_running() {
    let topo = line_topology();
    let mut sender = PacketSender::new(1);
    sender.handle_new_packet(3, 77, fragment(0), 1_000);
    sender.handle_new_packet(3, 77, PacketType::Ack(Ack { fragment_index: 0 }), 1_000);
    let (wire, control) = sender.process_queue(&topo, true, 1_000);
    assert_eq!(wire.len(), 0);
    assert_eq!(control.len(), 0);
}

#[test]
fn flood_requests_are_broadcast_even_during_discovery() {
    let topo = line_topology();
    let mut sender = PacketSender::new(1);
    let request = FloodRequest {
        flood_id: 9,
        initiator_id: 1,
        path_trace: vec![(1, NodeKind::Client)],
    };
    sender.handle_new_packet(1, 5, PacketType::FloodRequest(request), 0);
    let (wire, _) = sender.process_queue(&topo, true, 0);
    assert_eq!(wire.len(), 1);
    match &wire[0] {
        WireSend::Broadcast { packet } => {
            assert_eq!(packet.routing_header.hops.len(), 0);
            assert_eq!(packet.routing_header.hop_index, 0);
            assert_eq!(packet.session_id, 5);
        }
        WireSend::ToNeighbor { .. } => panic!("a flood request goes to every neighbour"),
    }
}

#[test]
fn flood_responses_ride_the_reversed_trace() {
    let topo = empty_topology();
    let mut sender = PacketSender::new(3);
    let response = FloodResponse {
        flood_id: 9,
        path_trace: vec![(1, NodeKind::Client), (2, NodeKind::Drone), (3, NodeKind::Server)],
    };
    sender.handle_new_packet(3, 5, PacketType::FloodResponse(response), 0);
    let (wire, _) = sender.process_queue(&topo, false, 0);
    assert_eq!(wire.len(), 1);
    match &wire[0] {
        WireSend::ToNeighbor { next_hop, packet } => {
            assert_eq!(*next_hop, 2);
            assert_eq!(packet.routing_header.hops, vec![3, 2, 1]);
            assert_eq!(packet.routing_header.hop_index, 1);
        }
        WireSend::Broadcast { .. } => panic!("a flood response rides its trace"),
    }
}

#[test]
fn the_select_timeout_follows_the_queues() {
    let mut sender = PacketSender::new(1);
    assert_eq!(sender.select_timeout(), None);
    sender.handle_new_packet(3, 77, fragment(0), 0);
    assert_eq!(sender.select_timeout(), Some(PACKET_RECV_TIMEOUT_MS));
    sender.handle_new_packet(3, 77, PacketType::Ack(Ack { fragment_index: 0 }), 0);
    assert_eq!(sender.select_timeout(), Some(0));
}

#[test]
fn quit_stops_the_worker_at_once() {
    let mut sender = PacketSender::new(1);
    sender.handle_new_packet(3, 77, fragment(0), 0);
    assert!(sender.handle_duty(PacketSenderDutyMessage::Quit, 0));
    assert!(!sender.handle_duty(
        PacketSenderDutyMessage::AckedFragment((3, 77, 0)),
        0,
    ));
}
