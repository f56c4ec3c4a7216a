use skrillax_client_patcher::relay::{relay_step, RelayAction, RelayEvent, RelayState, RELAY_LISTEN_PORT};

#[test]
fn cancel_while_listening_stops() {
    assert_eq!(relay_step(RelayState::Listening, RelayEvent::Cancelled), (RelayState::Terminated, RelayAction::Stop));
    assert_eq!(RELAY_LISTEN_PORT, 15779);
}

#[test]
fn one_session_then_back_to_listening() {
    let (s, a) = relay_step(RelayState::Listening, RelayEvent::ClientAccepted);
    assert_eq!((s, a), (RelayState::Connecting, RelayAction::ConnectTarget));
    let (s, a) = relay_step(s, RelayEvent::TargetConnected);
    assert_eq!(a, RelayAction::StartForwarding);
    let (s, a) = relay_step(s, RelayEvent::TargetToClientClosed);
    assert_eq!(a, RelayAction::KeepWaiting);
    assert_eq!(s, RelayState::Forwarding { client_to_target_done: false, target_to_client_done: true });
    let (s, a) = relay_step(s, RelayEvent::ClientToTargetClosed);
    assert_eq!((s, a), (RelayState::Listening, RelayAction::AcceptNext));
}

#[test]
fn cancel_during_forwarding_is_seen_at_next_accept() {
    let s = RelayState::Forwarding { client_to_target_done: false, target_to_client_done: false };
    let (s, a) = relay_step(s, RelayEvent::Cancelled);
    assert_eq!(a, RelayAction::KeepWaiting);
    let (s, _) = relay_step(s, RelayEvent::ClientToTargetClosed);
    let (s, a) = relay_step(s, RelayEvent::TargetToClientClosed);
    assert_eq!((s, a), (RelayState::Listening, RelayAction::AcceptNext));
    assert_eq!(relay_step(s, RelayEvent::Cancelled), (RelayState::Terminated, RelayAction::Stop));
}

#[test]
fn unreachable_target_ends_only_the_iteration() {
    assert_eq!(
        relay_step(RelayState::Connecting, RelayEvent::TargetUnreachable),
        (RelayState::Listening, RelayAction::AcceptNext)
    );
}

#[test]
fn terminated_stays_terminated() {
    assert_eq!(relay_step(RelayState::Terminated, RelayEvent::ClientAccepted), (RelayState::Terminated, RelayAction::Stop));
}
