//! Connection-lifecycle state machine, per peer address.
//!
//! `Idle -> Dialing -> Connected -> Closed`, with `Dialing -> Idle` on a
//! failed or timed-out dial (the address stays eligible for a retry) and
//! `Connected -> Closed` on any stream error or close. Every transition an
//! event loop may take goes through `step`.

use vstd::prelude::*;

verus! {

/// Lifecycle state of one peer address.
#[derive(Clone, Copy, PartialEq, Eq, Structural, Debug)]
pub enum PeerState {
    Idle,
    Dialing,
    Connected,
    Closed,
}

/// What the transport reported for the address.
#[derive(Clone, Copy, PartialEq, Eq, Structural, Debug)]
pub enum ConnEvent {
    DialStart,
    DialSucceeded,
    DialFailed,
    DialTimeout,
    StreamClosed,
}

/// The transition relation of the lifecycle machine. Events that make no
/// sense in a state leave the state alone.
pub open spec fn spec_step(s: PeerState, ev: ConnEvent) -> PeerState {
    match (s, ev) {
        (PeerState::Idle, ConnEvent::DialStart) => PeerState::Dialing,
        (PeerState::Dialing, ConnEvent::DialSucceeded) => PeerState::Connected,
        (PeerState::Dialing, ConnEvent::DialFailed) => PeerState::Idle,
        (PeerState::Dialing, ConnEvent::DialTimeout) => PeerState::Idle,
        (PeerState::Connected, ConnEvent::StreamClosed) => PeerState::Closed,
        (_, _) => s,
    }
}

/// Runtime transition, exactly the relation above.
pub fn step(s: PeerState, ev: ConnEvent) -> (r: PeerState)
    ensures
        r == spec_step(s, ev),
{
    match (s, ev) {
        (PeerState::Idle, ConnEvent::DialStart) => PeerState::Dialing,
        (PeerState::Dialing, ConnEvent::DialSucceeded) => PeerState::Connected,
        (PeerState::Dialing, ConnEvent::DialFailed) => PeerState::Idle,
        (PeerState::Dialing, ConnEvent::DialTimeout) => PeerState::Idle,
        (PeerState::Connected, ConnEvent::StreamClosed) => PeerState::Closed,
        (_, _) => s,
    }
}

/// A dial that fails or times out always puts the peer back to `Idle` —
/// ready for a retry, never stuck in `Dialing` and never `Connected`.
pub proof fn lemma_failed_dial_goes_idle(ev: ConnEvent)
    requires
        ev == ConnEvent::DialFailed || ev == ConnEvent::DialTimeout,
    ensures
        spec_step(PeerState::Dialing, ev) == PeerState::Idle,
{
}

/// `Closed` is terminal: no event leaves it.
pub proof fn lemma_closed_is_terminal(ev: ConnEvent)
    ensures
        spec_step(PeerState::Closed, ev) == PeerState::Closed,
{
}

} // verus!
