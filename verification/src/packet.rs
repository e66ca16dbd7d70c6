//! Wire-level data model: the packet exchanged between neighbouring nodes.
//!
//! A packet carries a session id, a full source route, and one of five
//! payloads: a message fragment, an acknowledgement, a negative
//! acknowledgement, a flood request or a flood response.

use vstd::prelude::*;
use crate::utils::copy_vec;

verus! {

/// 8-bit node identifier used throughout the network.
pub type NodeId = u8;

/// Payload bytes carried by every fragment; fixed for the whole network.
pub const FRAGMENT_DSIZE: usize = 128;

/// What a node is, as carried in flood path traces.
#[derive(Clone, Copy, PartialEq, Eq, Structural, Debug)]
pub enum NodeKind {
    Drone,
    Client,
    Server,
}

/// One slice of a fragmented application message.
///
/// `data` always holds exactly [`FRAGMENT_DSIZE`] bytes; `length` says how
/// many of them are meaningful (the rest is zero padding on the last
/// fragment of a message).
#[derive(Clone, PartialEq, Eq, Debug)]
pub struct Fragment {
    pub fragment_index: u64,
    pub total_n_fragments: u64,
    pub length: u8,
    pub data: Vec<u8>,
}

/// Mathematical model of a [`Fragment`].
pub struct FragmentV {
    pub fragment_index: u64,
    pub total_n_fragments: u64,
    pub length: u8,
    pub data: Seq<u8>,
}

impl View for Fragment {
    type V = FragmentV;

    open spec fn view(&self) -> FragmentV {
        FragmentV {
            fragment_index: self.fragment_index,
            total_n_fragments: self.total_n_fragments,
            length: self.length,
            data: self.data@,
        }
    }
}

impl DeepView for Fragment {
    type V = FragmentV;

    open spec fn deep_view(&self) -> FragmentV {
        self@
    }
}

impl Fragment {
    /// A fragment as it is allowed on the wire: a full-width data buffer
    /// of which at most `FRAGMENT_DSIZE` bytes are meaningful.
    pub open spec fn wf(&self) -> bool {
        self.data@.len() == FRAGMENT_DSIZE && self.length <= FRAGMENT_DSIZE
    }

    /// A fresh fragment with the same content.
    pub fn duplicate(&self) -> (r: Self)
        ensures
            r@ == self@,
    {
        Fragment {
            fragment_index: self.fragment_index,
            total_n_fragments: self.total_n_fragments,
            length: self.length,
            data: copy_vec(&self.data),
        }
    }
}

/// Acknowledgement of one received fragment.
#[derive(Clone, Copy, PartialEq, Eq, Structural, Debug)]
pub struct Ack {
    pub fragment_index: u64,
}

/// Why a packet could not be delivered.
#[derive(Clone, Copy, PartialEq, Eq, Structural, Debug)]
pub enum NackType {
    ErrorInRouting(NodeId),
    DestinationIsDrone,
    Dropped,
    UnexpectedRecipient(NodeId),
}

/// Negative acknowledgement for one fragment.
#[derive(Clone, Copy, PartialEq, Eq, Structural, Debug)]
pub struct Nack {
    pub fragment_index: u64,
    pub nack_type: NackType,
}

/// Network-discovery broadcast, extended with a trace of visited nodes.
#[derive(Clone, PartialEq, Eq, Debug)]
pub struct FloodRequest {
    pub flood_id: u64,
    pub initiator_id: NodeId,
    pub path_trace: Vec<(NodeId, NodeKind)>,
}

/// Mathematical model of a [`FloodRequest`].
pub struct FloodRequestV {
    pub flood_id: u64,
    pub initiator_id: NodeId,
    pub path_trace: Seq<(NodeId, NodeKind)>,
}

impl View for FloodRequest {
    type V = FloodRequestV;

    open spec fn view(&self) -> FloodRequestV {
        FloodRequestV {
            flood_id: self.flood_id,
            initiator_id: self.initiator_id,
            path_trace: self.path_trace@,
        }
    }
}

impl FloodRequest {
    /// A fresh flood request whose trace holds only the initiator.
    pub fn initialize(flood_id: u64, initiator_id: NodeId, node_kind: NodeKind) -> (r: Self)
        ensures
            r.flood_id == flood_id,
            r.initiator_id == initiator_id,
            r.path_trace@ =~= seq![(initiator_id, node_kind)],
    {
        let mut path_trace: Vec<(NodeId, NodeKind)> = Vec::new();
        path_trace.push((initiator_id, node_kind));
        FloodRequest { flood_id, initiator_id, path_trace }
    }
}

/// Answer to a flood request, carrying the full path trace back.
#[derive(Clone, PartialEq, Eq, Debug)]
pub struct FloodResponse {
    pub flood_id: u64,
    pub path_trace: Vec<(NodeId, NodeKind)>,
}

/// Mathematical model of a [`FloodResponse`].
pub struct FloodResponseV {
    pub flood_id: u64,
    pub path_trace: Seq<(NodeId, NodeKind)>,
}

impl View for FloodResponse {
    type V = FloodResponseV;

    open spec fn view(&self) -> FloodResponseV {
        FloodResponseV { flood_id: self.flood_id, path_trace: self.path_trace@ }
    }
}

/// Full source route of a packet: `hops[hop_index]` is the next node that
/// must consume the packet.
#[derive(Clone, PartialEq, Eq, Debug)]
pub struct SourceRoutingHeader {
    pub hop_index: usize,
    pub hops: Vec<NodeId>,
}

/// Mathematical model of a [`SourceRoutingHeader`].
pub struct SourceRoutingHeaderV {
    pub hop_index: usize,
    pub hops: Seq<NodeId>,
}

impl View for SourceRoutingHeader {
    type V = SourceRoutingHeaderV;

    open spec fn view(&self) -> SourceRoutingHeaderV {
        SourceRoutingHeaderV { hop_index: self.hop_index, hops: self.hops@ }
    }
}

/// The five payload kinds a packet can carry.
#[derive(Clone, PartialEq, Eq, Debug)]
pub enum PacketType {
    MsgFragment(Fragment),
    Ack(Ack),
    Nack(Nack),
    FloodRequest(FloodRequest),
    FloodResponse(FloodResponse),
}

/// Mathematical model of a [`PacketType`].
pub enum PacketTypeV {
    MsgFragment(FragmentV),
    Ack(Ack),
    Nack(Nack),
    FloodRequest(FloodRequestV),
    FloodResponse(FloodResponseV),
}

impl View for PacketType {
    type V = PacketTypeV;

    open spec fn view(&self) -> PacketTypeV {
        match self {
            PacketType::MsgFragment(f) => PacketTypeV::MsgFragment(f@),
            PacketType::Ack(a) => PacketTypeV::Ack(*a),
            PacketType::Nack(n) => PacketTypeV::Nack(*n),
            PacketType::FloodRequest(r) => PacketTypeV::FloodRequest(r@),
            PacketType::FloodResponse(r) => PacketTypeV::FloodResponse(r@),
        }
    }
}

impl PacketType {
    /// A fresh payload with the same content.
    pub fn duplicate(&self) -> (r: Self)
        ensures
            r@ == self@,
    {
        match self {
            PacketType::MsgFragment(f) => PacketType::MsgFragment(f.duplicate()),
            PacketType::Ack(a) => PacketType::Ack(*a),
            PacketType::Nack(n) => PacketType::Nack(*n),
            PacketType::FloodRequest(r) => PacketType::FloodRequest(
                FloodRequest {
                    flood_id: r.flood_id,
                    initiator_id: r.initiator_id,
                    path_trace: copy_vec(&r.path_trace),
                },
            ),
            PacketType::FloodResponse(r) => PacketType::FloodResponse(
                FloodResponse { flood_id: r.flood_id, path_trace: copy_vec(&r.path_trace) },
            ),
        }
    }
}

/// The unit exchanged between neighbouring nodes.
#[derive(Clone, PartialEq, Eq, Debug)]
pub struct Packet {
    pub pack_type: PacketType,
    pub routing_header: SourceRoutingHeader,
    pub session_id: u64,
}

/// Mathematical model of a [`Packet`].
pub struct PacketV {
    pub pack_type: PacketTypeV,
    pub routing_header: SourceRoutingHeaderV,
    pub session_id: u64,
}

impl View for Packet {
    type V = PacketV;

    open spec fn view(&self) -> PacketV {
        PacketV {
            pack_type: self.pack_type@,
            routing_header: self.routing_header@,
            session_id: self.session_id,
        }
    }
}

} // verus!
