//! A peer-to-peer node core: a Kademlia-style routing table with iterative
//! peer lookup, flood-based publish/subscribe with duplicate suppression,
//! and the connection-lifecycle state machine that drives both.
//!
//! The secure-transport substrate (dialing, handshakes, stream multiplexing)
//! is an external collaborator: the core consumes it only as plain events
//! and emits plain actions, so an event loop outside this crate can drive a
//! real network while everything here stays purely in-memory.

use vstd::prelude::*;

mod peer;
mod dedup;
mod table;
mod conn;
mod envelope;
mod pubsub;
mod lookup;
mod node;
mod wire;

pub use peer::PeerId;
pub use peer::PeerRecord;
pub use dedup::DedupCache;
pub use dedup::DedupEntry;
pub use table::RoutingTable;
pub use table::SeenOutcome;
pub use conn::PeerState;
pub use conn::ConnEvent;
pub use conn::step;
pub use envelope::MessageEnvelope;
pub use pubsub::Pubsub;
pub use lookup::LookupState;
pub use node::Node;
pub use node::Event;
pub use node::Action;
pub use node::Frame;
pub use node::DialAttempt;
pub use wire::WireFrame;
pub use wire::WireRecord;
pub use wire::WireEnvelope;
pub use wire::encode_frame;
pub use wire::decode_frame;

verus! {

/// Bucket fanout: at most this many records share one distance-prefix bucket,
/// and lookup shortlists are capped at the same size.
pub const K_FANOUT: usize = 20;

/// Lookup concurrency factor: queries in flight per lookup round.
pub const ALPHA: usize = 3;

/// Topic a node subscribes to when its configuration names none.
pub fn default_topic() -> (r: String)
    ensures
        r@ == "example-topic"@,
{
    String::from_str("example-topic")
}

} // verus!
