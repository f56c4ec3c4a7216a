//! The decisions of a patch session.
//!
//! A session reads the server-list record, writes the localized record in its
//! place, starts the relay, runs the client, stops the relay and writes the
//! original record back. Once the localized record may have been written, every
//! way out of the session goes through writing the original back. The caller
//! performs each action and hands back what happened.

use vstd::prelude::*;
use crate::codec::{
    decode_division_info, decode_info, encode_division_info, info_bytes, valid_record, DecodeError,
    DivisionInfo,
};
use crate::codec_lemmas::lemma_encode_decode;
use crate::patch::{create_local_division_info, create_port_from_patch, localized, PATCH_PORT_BASE};

verus! {

#[derive(Clone, Copy, Debug, PartialEq, Eq, Structural)]
pub enum Phase {
    /// The record is being read.
    Loading,
    /// The localized record is being written.
    Localizing,
    /// The relay is being started.
    StartingRelay,
    /// The client runs.
    ClientRunning,
    /// The relay is being told to stop.
    StoppingRelay,
    /// The original record is being written back.
    Restoring,
    Finished,
}

/// What went wrong in a session.
#[derive(Clone, Copy, Debug, PartialEq, Eq, Structural)]
pub enum Failure {
    ReadFailed,
    DecodeFailed(DecodeError),
    LocalizedWriteFailed,
    RelayFailed,
    ClientFailed,
}

/// What the caller saw after performing an action.
#[derive(Debug)]
pub enum SessionEvent {
    RecordRead(Vec<u8>),
    ReadFailed,
    RecordWritten,
    WriteFailed,
    RelayStarted,
    RelayFailed,
    ClientExited,
    ClientFailed,
    RelayStopped,
}

/// What the caller is to do next.
#[derive(Debug)]
pub enum SessionAction {
    ReadRecord,
    /// Replace the record in the container with these bytes.
    WriteRecord(Vec<u8>),
    /// Start the relay towards the patch target on this port.
    StartRelay(u32),
    LaunchClient,
    StopRelay,
    /// The session is over; `container_modified` says whether the record may
    /// still differ from what was read.
    Finish { failure: Option<Failure>, container_modified: bool },
    /// The event does not belong to this phase.
    Nothing,
}

pub ghost enum ActionView {
    ReadRecord,
    WriteRecord(Seq<u8>),
    StartRelay(u32),
    LaunchClient,
    StopRelay,
    Finish { failure: Option<Failure>, container_modified: bool },
    Nothing,
}

impl View for SessionAction {
    type V = ActionView;

    open spec fn view(&self) -> ActionView {
        match self {
            SessionAction::ReadRecord => ActionView::ReadRecord,
            SessionAction::WriteRecord(b) => ActionView::WriteRecord(b@),
            SessionAction::StartRelay(p) => ActionView::StartRelay(*p),
            SessionAction::LaunchClient => ActionView::LaunchClient,
            SessionAction::StopRelay => ActionView::StopRelay,
            SessionAction::Finish { failure, container_modified } => ActionView::Finish {
                failure: *failure,
                container_modified: *container_modified,
            },
            SessionAction::Nothing => ActionView::Nothing,
        }
    }
}

/// The phases in which the localized record may stand in the container.
pub open spec fn patched(p: Phase) -> bool {
    p == Phase::Localizing || p == Phase::StartingRelay || p == Phase::ClientRunning || p
        == Phase::StoppingRelay || p == Phase::Restoring
}

pub open spec fn next_phase(p: Phase, e: SessionEvent) -> Phase {
    match (p, e) {
        (Phase::Loading, SessionEvent::RecordRead(b)) => if decode_info(b@) is Ok {
            Phase::Localizing
        } else {
            Phase::Finished
        },
        (Phase::Loading, SessionEvent::ReadFailed) => Phase::Finished,
        (Phase::Localizing, SessionEvent::RecordWritten) => Phase::StartingRelay,
        (Phase::Localizing, SessionEvent::WriteFailed) => Phase::Restoring,
        (Phase::StartingRelay, SessionEvent::RelayStarted) => Phase::ClientRunning,
        (Phase::StartingRelay, SessionEvent::RelayFailed) => Phase::Restoring,
        (Phase::ClientRunning, SessionEvent::ClientExited) => Phase::StoppingRelay,
        (Phase::ClientRunning, SessionEvent::ClientFailed) => Phase::StoppingRelay,
        (Phase::StoppingRelay, SessionEvent::RelayStopped) => Phase::Restoring,
        (Phase::Restoring, SessionEvent::RecordWritten) => Phase::Finished,
        (Phase::Restoring, SessionEvent::WriteFailed) => Phase::Finished,
        _ => p,
    }
}

pub open spec fn next_failure(p: Phase, e: SessionEvent, f: Option<Failure>) -> Option<Failure> {
    match (p, e) {
        (Phase::Loading, SessionEvent::RecordRead(b)) => match decode_info(b@) {
            Ok(_) => f,
            Err(err) => Some(Failure::DecodeFailed(err)),
        },
        (Phase::Loading, SessionEvent::ReadFailed) => Some(Failure::ReadFailed),
        (Phase::Localizing, SessionEvent::WriteFailed) => Some(Failure::LocalizedWriteFailed),
        (Phase::StartingRelay, SessionEvent::RelayFailed) => Some(Failure::RelayFailed),
        (Phase::ClientRunning, SessionEvent::ClientFailed) => Some(Failure::ClientFailed),
        _ => f,
    }
}

/// The action owed for an event in a phase. `read` is the record's bytes as
/// first read; `port` the patch target's port; `f` the failure so far.
pub open spec fn next_action(p: Phase, e: SessionEvent, port: u32, read: Seq<u8>, f: Option<Failure>) -> ActionView {
    match (p, e) {
        (Phase::Loading, SessionEvent::RecordRead(b)) => match decode_info(b@) {
            Ok(v) => ActionView::WriteRecord(info_bytes(localized(v.content))),
            Err(err) => ActionView::Finish { failure: Some(Failure::DecodeFailed(err)), container_modified: false },
        },
        (Phase::Loading, SessionEvent::ReadFailed) => ActionView::Finish {
            failure: Some(Failure::ReadFailed),
            container_modified: false,
        },
        (Phase::Localizing, SessionEvent::RecordWritten) => ActionView::StartRelay(port),
        (Phase::Localizing, SessionEvent::WriteFailed) => ActionView::WriteRecord(read),
        (Phase::StartingRelay, SessionEvent::RelayStarted) => ActionView::LaunchClient,
        (Phase::StartingRelay, SessionEvent::RelayFailed) => ActionView::WriteRecord(read),
        (Phase::ClientRunning, SessionEvent::ClientExited) => ActionView::StopRelay,
        (Phase::ClientRunning, SessionEvent::ClientFailed) => ActionView::StopRelay,
        (Phase::StoppingRelay, SessionEvent::RelayStopped) => ActionView::WriteRecord(read),
        (Phase::Restoring, SessionEvent::RecordWritten) => ActionView::Finish { failure: f, container_modified: false },
        (Phase::Restoring, SessionEvent::WriteFailed) => ActionView::Finish { failure: f, container_modified: true },
        _ => ActionView::Nothing,
    }
}

pub struct Session {
    /// The patch target's port.
    pub port: u32,
    pub phase: Phase,
    /// The record as first read, once it has been read.
    pub original: Option<DivisionInfo>,
    pub failure: Option<Failure>,
    /// The record's bytes as first read.
    pub read: Ghost<Seq<u8>>,
}

impl Session {
    /// While the localized record may stand in the container, the session holds
    /// a well-formed original whose byte form is exactly what was read.
    pub open spec fn wf(&self) -> bool {
        patched(self.phase) ==> {
            &&& self.original is Some
            &&& valid_record(self.original->Some_0@)
            &&& info_bytes(self.original->Some_0@) == self.read@
        }
    }

    /// A session for a patch version, and its first action: read the record.
    pub fn start(patch: u16) -> (r: (Session, SessionAction))
        ensures
            r.0.wf(),
            r.0.phase == Phase::Loading,
            r.0.port == PATCH_PORT_BASE + patch,
            r.0.failure is None,
            r.1@ == ActionView::ReadRecord,
    {
        let port = create_port_from_patch(patch as u32);
        (
            Session { port, phase: Phase::Loading, original: None, failure: None, read: Ghost(Seq::empty()) },
            SessionAction::ReadRecord,
        )
    }

    /// The byte form of the original record, to be written back.
    fn restore_bytes(&self) -> (r: Vec<u8>)
        requires
            self.wf(),
            patched(self.phase),
        ensures
            r@ == self.read@,
    {
        match &self.original {
            Some(o) => match encode_division_info(o) {
                Ok(b) => b,
                Err(_) => Vec::new(),
            },
            None => Vec::new(),
        }
    }

    /// Takes one event and says what to do next. Once the localized record may
    /// have been written, the session ends only through writing back the
    /// bytes that were first read.
    pub fn step(&mut self, e: SessionEvent) -> (a: SessionAction)
        requires
            old(self).wf(),
        ensures
            final(self).wf(),
            final(self).port == old(self).port,
            final(self).phase == next_phase(old(self).phase, e),
            final(self).failure == next_failure(old(self).phase, e, old(self).failure),
            a@ == next_action(old(self).phase, e, old(self).port, old(self).read@, old(self).failure),
            patched(old(self).phase) ==> final(self).read@ == old(self).read@,
            old(self).phase == Phase::Loading && final(self).phase == Phase::Localizing ==> e is RecordRead
                && final(self).read@ == e->RecordRead_0@,
            patched(old(self).phase) && old(self).phase != Phase::Restoring ==> final(self).phase != Phase::Finished,
            final(self).phase == Phase::Restoring && old(self).phase != Phase::Restoring ==> a@
                == ActionView::WriteRecord(old(self).read@),
    {
        match (self.phase, e) {
            (Phase::Loading, SessionEvent::RecordRead(b)) => {
                match decode_division_info(b.as_slice()) {
                    Ok(orig) => {
                        proof {
                            lemma_encode_decode(b@);
                        }
                        let local = create_local_division_info(&orig);
                        match encode_division_info(&local) {
                            Ok(bytes) => {
                                self.phase = Phase::Localizing;
                                self.original = Some(orig);
                                self.read = Ghost(b@);
                                SessionAction::WriteRecord(bytes)
                            },
                            Err(_) => SessionAction::Nothing,
                        }
                    },
                    Err(err) => {
                        self.phase = Phase::Finished;
                        self.failure = Some(Failure::DecodeFailed(err));
                        SessionAction::Finish { failure: self.failure, container_modified: false }
                    },
                }
            },
            (Phase::Loading, SessionEvent::ReadFailed) => {
                self.phase = Phase::Finished;
                self.failure = Some(Failure::ReadFailed);
                SessionAction::Finish { failure: self.failure, container_modified: false }
            },
            (Phase::Localizing, SessionEvent::RecordWritten) => {
                self.phase = Phase::StartingRelay;
                SessionAction::StartRelay(self.port)
            },
            (Phase::Localizing, SessionEvent::WriteFailed) => {
                let bytes = self.restore_bytes();
                self.phase = Phase::Restoring;
                self.failure = Some(Failure::LocalizedWriteFailed);
                SessionAction::WriteRecord(bytes)
            },
            (Phase::StartingRelay, SessionEvent::RelayStarted) => {
                self.phase = Phase::ClientRunning;
                SessionAction::LaunchClient
            },
            (Phase::StartingRelay, SessionEvent::RelayFailed) => {
                let bytes = self.restore_bytes();
                self.phase = Phase::Restoring;
                self.failure = Some(Failure::RelayFailed);
                SessionAction::WriteRecord(bytes)
            },
            (Phase::ClientRunning, SessionEvent::ClientExited) => {
                self.phase = Phase::StoppingRelay;
                SessionAction::StopRelay
            },
            (Phase::ClientRunning, SessionEvent::ClientFailed) => {
                self.phase = Phase::StoppingRelay;
                self.failure = Some(Failure::ClientFailed);
                SessionAction::StopRelay
            },
            (Phase::StoppingRelay, SessionEvent::RelayStopped) => {
                let bytes = self.restore_bytes();
                self.phase = Phase::Restoring;
                SessionAction::WriteRecord(bytes)
            },
            (Phase::Restoring, SessionEvent::RecordWritten) => {
                self.phase = Phase::Finished;
                SessionAction::Finish { failure: self.failure, container_modified: false }
            },
            (Phase::Restoring, SessionEvent::WriteFailed) => {
                self.phase = Phase::Finished;
                SessionAction::Finish { failure: self.failure, container_modified: true }
            },
            _ => SessionAction::Nothing,
        }
    }
}

} // verus!
