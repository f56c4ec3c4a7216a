//! The decisions of the relay loop.
//!
//! The loop accepts one local client at a time, connects it to the patch
//! target and copies bytes both ways until both directions have closed; then
//! it accepts the next client. Cancellation is looked at only while waiting
//! for a client. The caller owns the sockets: it performs each action and
//! hands back what happened.

use vstd::prelude::*;

verus! {

/// The fixed loopback port the relay listens on.
pub const RELAY_LISTEN_PORT: u16 = 15779;

#[derive(Clone, Copy, Debug, PartialEq, Eq, Structural)]
pub enum RelayState {
    /// Waiting for a local client, or for cancellation.
    Listening,
    /// A client was accepted; the connection to the patch target is opening.
    Connecting,
    /// Bytes flow both ways; each flag says whether that direction has ended.
    Forwarding { client_to_target_done: bool, target_to_client_done: bool },
    /// Cancelled: the listening address is released.
    Terminated,
}

#[derive(Clone, Copy, Debug, PartialEq, Eq, Structural)]
pub enum RelayEvent {
    Cancelled,
    ClientAccepted,
    TargetConnected,
    TargetUnreachable,
    /// The copy from the client to the target reached its end or failed.
    ClientToTargetClosed,
    /// The copy from the target to the client reached its end or failed.
    TargetToClientClosed,
}

#[derive(Clone, Copy, Debug, PartialEq, Eq, Structural)]
pub enum RelayAction {
    /// Drop the current client, if any, and wait for the next one.
    AcceptNext,
    /// Open the connection to the patch target.
    ConnectTarget,
    /// Start both copies.
    StartForwarding,
    /// Keep waiting for what is in flight.
    KeepWaiting,
    /// Release the listening address and end the loop.
    Stop,
}

/// One decision of the relay loop.
pub open spec fn relay_next(s: RelayState, e: RelayEvent) -> (RelayState, RelayAction) {
    match s {
        RelayState::Listening => match e {
            RelayEvent::Cancelled => (RelayState::Terminated, RelayAction::Stop),
            RelayEvent::ClientAccepted => (RelayState::Connecting, RelayAction::ConnectTarget),
            _ => (s, RelayAction::KeepWaiting),
        },
        RelayState::Connecting => match e {
            RelayEvent::TargetConnected => (
                RelayState::Forwarding { client_to_target_done: false, target_to_client_done: false },
                RelayAction::StartForwarding,
            ),
            RelayEvent::TargetUnreachable => (RelayState::Listening, RelayAction::AcceptNext),
            _ => (s, RelayAction::KeepWaiting),
        },
        RelayState::Forwarding { client_to_target_done: up, target_to_client_done: down } => {
            let up2 = up || e == RelayEvent::ClientToTargetClosed;
            let down2 = down || e == RelayEvent::TargetToClientClosed;
            if up2 && down2 {
                (RelayState::Listening, RelayAction::AcceptNext)
            } else {
                (RelayState::Forwarding { client_to_target_done: up2, target_to_client_done: down2 }, RelayAction::KeepWaiting)
            }
        },
        RelayState::Terminated => (s, RelayAction::Stop),
    }
}

/// Decides what the relay loop does next.
pub fn relay_step(s: RelayState, e: RelayEvent) -> (r: (RelayState, RelayAction))
    ensures
        r == relay_next(s, e),
        s == RelayState::Listening && e == RelayEvent::Cancelled ==> r == (RelayState::Terminated, RelayAction::Stop),
{
    match s {
        RelayState::Listening => match e {
            RelayEvent::Cancelled => (RelayState::Terminated, RelayAction::Stop),
            RelayEvent::ClientAccepted => (RelayState::Connecting, RelayAction::ConnectTarget),
            _ => (s, RelayAction::KeepWaiting),
        },
        RelayState::Connecting => match e {
            RelayEvent::TargetConnected => (
                RelayState::Forwarding { client_to_target_done: false, target_to_client_done: false },
                RelayAction::StartForwarding,
            ),
            RelayEvent::TargetUnreachable => (RelayState::Listening, RelayAction::AcceptNext),
            _ => (s, RelayAction::KeepWaiting),
        },
        RelayState::Forwarding { client_to_target_done: up, target_to_client_done: down } => {
            let up2 = up || e == RelayEvent::ClientToTargetClosed;
            let down2 = down || e == RelayEvent::TargetToClientClosed;
            if up2 && down2 {
                (RelayState::Listening, RelayAction::AcceptNext)
            } else {
                (RelayState::Forwarding { client_to_target_done: up2, target_to_client_done: down2 }, RelayAction::KeepWaiting)
            }
        },
        RelayState::Terminated => (s, RelayAction::Stop),
    }
}

/// A session ends only when both directions have ended: from forwarding the
/// loop goes back to accepting only once each copy has closed, in either order.
pub proof fn lemma_session_ends_after_both_directions(up: bool, down: bool, e: RelayEvent)
    ensures
        relay_next(RelayState::Forwarding { client_to_target_done: up, target_to_client_done: down }, e).0
            == RelayState::Listening <==> (up || e == RelayEvent::ClientToTargetClosed) && (down || e
            == RelayEvent::TargetToClientClosed),
{
}

/// The loop stops only on cancellation seen while listening, and once stopped
/// it stays stopped.
pub proof fn lemma_stops_only_on_cancel_while_listening(s: RelayState, e: RelayEvent)
    ensures
        relay_next(s, e).0 == RelayState::Terminated <==> (s == RelayState::Terminated || (s
            == RelayState::Listening && e == RelayEvent::Cancelled)),
{
}

} // verus!
