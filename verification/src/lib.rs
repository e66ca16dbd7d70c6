//! Node runtime for an overlay network of drones, clients and servers.
//!
//! Endpoints exchange application messages over a source-routed,
//! fragment-based packet protocol: messages are encoded with a fixed
//! binary codec, split into fragments, retransmitted until acknowledged,
//! and reassembled at the peer.  Nodes discover the topology by flooding
//! and compute source routes by breadth-first search.
//!
//! The crate holds the protocol logic only; threads, channels, clocks and
//! the filesystem are driven by the embedding program, which feeds events
//! and timestamps in and carries the returned actions out.

pub mod codec;
pub mod communication_server;
pub mod config;
pub mod content_server;
pub mod message;
pub mod message_constructor;
pub mod network_discovery;
pub mod node;
pub mod packet;
pub mod packet_sender;
pub mod role;
pub mod utils;
