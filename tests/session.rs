use skrillax_client_patcher::codec::{encode_division_info, DecodeError, Division, DivisionInfo, Gateway};
use skrillax_client_patcher::patch::create_local_division_info;
use skrillax_client_patcher::session::{Failure, Phase, Session, SessionAction, SessionEvent};

fn original_bytes() -> Vec<u8> {
    let r = DivisionInfo {
        content: 1,
        count: 1,
        divisions: vec![Division {
            name: "DIV01".to_string(),
            null_byte: 0,
            count: 1,
            gateways: vec![Gateway { ip: "gwgt1.example.com".to_string(), null_byte: 0 }],
        }],
    };
    encode_division_info(&r).unwrap()
}

fn written(a: SessionAction) -> Vec<u8> {
    match a {
        SessionAction::WriteRecord(b) => b,
        other => panic!("expected a write, got {other:?}"),
    }
}

#[test]
fn full_run_restores_the_bytes_read() {
    let read = original_bytes();
    let (mut s, a) = Session::start(569);
    assert!(matches!(a, SessionAction::ReadRecord));
    let local = written(s.step(SessionEvent::RecordRead(read.clone())));
    let probe = DivisionInfo { content: 1, count: 0, divisions: vec![] };
    assert_eq!(local, encode_division_info(&create_local_division_info(&probe)).unwrap());
    assert!(matches!(s.step(SessionEvent::RecordWritten), SessionAction::StartRelay(32569)));
    assert!(matches!(s.step(SessionEvent::RelayStarted), SessionAction::LaunchClient));
    assert!(matches!(s.step(SessionEvent::ClientExited), SessionAction::StopRelay));
    let restored = written(s.step(SessionEvent::RelayStopped));
    assert_eq!(restored, read);
    assert!(matches!(
        s.step(SessionEvent::RecordWritten),
        SessionAction::Finish { failure: None, container_modified: false }
    ));
    assert_eq!(s.phase, Phase::Finished);
}

#[test]
fn relay_failure_still_restores() {
    let read = original_bytes();
    let (mut s, _) = Session::start(1);
    written(s.step(SessionEvent::RecordRead(read.clone())));
    s.step(SessionEvent::RecordWritten);
    assert_eq!(written(s.step(SessionEvent::RelayFailed)), read);
    assert!(matches!(
        s.step(SessionEvent::RecordWritten),
        SessionAction::Finish { failure: Some(Failure::RelayFailed), container_modified: false }
    ));
}

#[test]
fn client_failure_still_restores() {
    let read = original_bytes();
    let (mut s, _) = Session::start(1);
    written(s.step(SessionEvent::RecordRead(read.clone())));
    s.step(SessionEvent::RecordWritten);
    s.step(SessionEvent::RelayStarted);
    assert!(matches!(s.step(SessionEvent::ClientFailed), SessionAction::StopRelay));
    assert_eq!(written(s.step(SessionEvent::RelayStopped)), read);
    assert!(matches!(
        s.step(SessionEvent::WriteFailed),
        SessionAction::Finish { failure: Some(Failure::ClientFailed), container_modified: true }
    ));
}

#[test]
fn failed_localized_write_restores() {
    let read = original_bytes();
    let (mut s, _) = Session::start(1);
    written(s.step(SessionEvent::RecordRead(read.clone())));
    assert_eq!(written(s.step(SessionEvent::WriteFailed)), read);
    assert_eq!(s.phase, Phase::Restoring);
}

#[test]
fn undecodable_record_ends_before_any_write() {
    let (mut s, _) = Session::start(1);
    assert!(matches!(
        s.step(SessionEvent::RecordRead(vec![1, 3])),
        SessionAction::Finish { failure: Some(Failure::DecodeFailed(DecodeError::Truncated)), container_modified: false }
    ));
    assert_eq!(s.phase, Phase::Finished);
}

#[test]
fn read_failure_ends_before_any_write() {
    let (mut s, _) = Session::start(1);
    assert!(matches!(
        s.step(SessionEvent::ReadFailed),
        SessionAction::Finish { failure: Some(Failure::ReadFailed), container_modified: false }
    ));
}

#[test]
fn out_of_phase_event_does_nothing() {
    let (mut s, _) = Session::start(1);
    assert!(matches!(s.step(SessionEvent::ClientExited), SessionAction::Nothing));
    assert_eq!(s.phase, Phase::Loading);
}
