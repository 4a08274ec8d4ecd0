//! What runs beside a capture: waiting for it, asking Studio how far it is, and
//! stopping the service.

use crate::capture::{
    claim_idle_capture_cancel, idle_cancel_claimed, kept, CaptureError, ManifestCaptureOperation,
    ManifestCaptureStatus, OperationView,
};
use crate::text::{contains_part, holds_part, joined, optional_text};
use vstd::prelude::*;
use vstd::string::StringSliceAdditionalSpecFns;

verus! {

// ---------------------------------------------------------------------------
// Waiting

/// How long to wait between two looks at the project, in milliseconds.
pub const PROJECT_SYNC_POLL_INTERVAL: u64 = 25;

/// How long to wait for the project at most, in milliseconds.
pub const PROJECT_SYNC_WAIT_TIMEOUT: u64 = 5000;

/// How long to wait between two looks at a capture, in milliseconds.
pub const AUTOMATIC_CAPTURE_POLL_INTERVAL: u64 = 100;

/// How long Studio may take to answer a probe, in milliseconds.
pub const STUDIO_CHANGE_PROBE_TIMEOUT: u64 = 2000;

/// Why a check of the project did not succeed.
#[derive(Debug)]
pub enum SynchronizationError {
    /// Changes are not synchronized yet.
    Pending,
    Other(String),
}

/// What follows from one check of the project.
pub enum SynchronizationStep<T> {
    Done(T),
    /// Wait that many milliseconds and check again.
    Wait(u64),
    Failed(SynchronizationError),
}

/// One round of waiting for the project source to settle: a pending
/// synchronization is waited for until the time is up.
pub fn wait_for_project_synchronization<T>(checked: Result<T, SynchronizationError>, expired: bool) -> (step:
    SynchronizationStep<T>)
    ensures
        match checked {
            Ok(value) => step == SynchronizationStep::Done(value),
            Err(SynchronizationError::Pending) => if expired {
                step == SynchronizationStep::<T>::Failed(SynchronizationError::Pending)
            } else {
                step == SynchronizationStep::<T>::Wait(PROJECT_SYNC_POLL_INTERVAL)
            },
            Err(error) => step == SynchronizationStep::<T>::Failed(error),
        },
{
    match checked {
        Ok(value) => SynchronizationStep::Done(value),
        Err(error) => match error {
            SynchronizationError::Pending => if expired {
                SynchronizationStep::Failed(SynchronizationError::Pending)
            } else {
                SynchronizationStep::Wait(PROJECT_SYNC_POLL_INTERVAL)
            },
            SynchronizationError::Other(reason) => SynchronizationStep::Failed(SynchronizationError::Other(reason)),
        },
    }
}

/// What follows from one look at an automatic capture.
pub enum AutomaticStep {
    Done(String),
    Wait,
    Failed(CaptureError),
}

/// One round of waiting for an automatic capture. `first` is the look that started
/// it.
pub fn wait_for_automatic_capture(status: Result<ManifestCaptureStatus, String>, first: bool) -> (step: AutomaticStep)
    ensures
        match status {
            Err(reason) => step matches AutomaticStep::Failed(error) && error == (if first {
                CaptureError::NotStarted(reason)
            } else {
                CaptureError::NotMonitored(reason)
            }),
            Ok(status) => {
                &&& status.state@ == "complete"@ ==> (step matches AutomaticStep::Done(message) && message@ == (
                match optional_text(status.message) {
                    Some(message) => message,
                    None => "Studio artifact committed"@,
                }))
                &&& status.state@ != "complete"@ && status.state@ == "failed"@ ==> (step matches AutomaticStep::Failed(
                    CaptureError::Failed(reason),
                ) && reason@ == (match optional_text(status.message) {
                    Some(message) => message,
                    None => "Studio did not provide a reason"@,
                }))
                &&& status.state@ != "complete"@ && status.state@ != "failed"@ && status.state@ == "running"@ ==> step
                    is Wait
                &&& status.state@ != "complete"@ && status.state@ != "failed"@ && status.state@ != "running"@ ==> (
                step matches AutomaticStep::Failed(CaptureError::UnknownState(state)) && state@ == status.state@)
            },
        },
{
    match status {
        Err(reason) => if first {
            AutomaticStep::Failed(CaptureError::NotStarted(reason))
        } else {
            AutomaticStep::Failed(CaptureError::NotMonitored(reason))
        },
        Ok(status) => match status.terminal_result() {
            Ok(Some(message)) => AutomaticStep::Done(message),
            Ok(None) => AutomaticStep::Wait,
            Err(error) => AutomaticStep::Failed(error),
        },
    }
}

/// Whether a failed capture is worth another attempt: Studio changed meanwhile.
pub fn is_transient_manifest_capture_error(message: &str) -> (transient: bool)
    ensures
        transient == holds_part(message@, "Studio changed during Capture Manifest staging; retry the capture"@),
{
    contains_part(message, "Studio changed during Capture Manifest staging; retry the capture")
}

/// A message that speaks of Studio being gone.
pub open spec fn speaks_of_disconnection(message: Seq<char>) -> bool {
    ||| holds_part(message, "disconnected"@)
    ||| holds_part(message, "no connected client listener"@)
    ||| holds_part(message, "exact connected Studio route"@)
    ||| holds_part(message, "connected Studio place"@)
}

/// Whether a capture failed because Studio is gone: nobody is subscribed, or the
/// message says so.
pub fn is_studio_disconnected_error(has_subscribers: bool, message: &str) -> (disconnected: bool)
    ensures
        disconnected == (!has_subscribers || speaks_of_disconnection(message@)),
{
    !has_subscribers || contains_part(message, "disconnected") || contains_part(
        message,
        "no connected client listener",
    ) || contains_part(message, "exact connected Studio route") || contains_part(message, "connected Studio place")
}

/// What a failed automatic capture comes to: without Studio a valid manifest is
/// retained.
pub fn retained_after_disconnection(
    has_subscribers: bool,
    error: String,
    valid_manifest: bool,
    manifest_path: &str,
) -> (result: Result<String, String>)
    ensures
        (!has_subscribers || speaks_of_disconnection(error@)) && valid_manifest ==> (result matches Ok(message)
            && message@ == "Studio is disconnected; retained valid manifest "@ + manifest_path@),
        !((!has_subscribers || speaks_of_disconnection(error@)) && valid_manifest) ==> result == Err::<String, String>(
            error,
        ),
{
    if is_studio_disconnected_error(has_subscribers, error.as_str()) && valid_manifest {
        Ok(joined("Studio is disconnected; retained valid manifest ", manifest_path))
    } else {
        Err(error)
    }
}

// ---------------------------------------------------------------------------
// Probes

/// A question to Studio that awaits its answer.
#[derive(Debug)]
pub struct PendingStudioChangeProbe {
    pub request_id: String,
    pub acknowledged_generation: Option<String>,
}

/// What is known of the changes in Studio.
#[derive(Debug)]
pub struct StudioChangeState {
    pub last_captured_generation: Option<String>,
    pub pending_probe: Option<PendingStudioChangeProbe>,
}

/// A probe: its request and the answer to it.
pub open spec fn probe(state: StudioChangeState) -> Option<(Seq<char>, Option<Seq<char>>)> {
    match state.pending_probe {
        Some(pending) => Some((pending.request_id@, optional_text(pending.acknowledged_generation))),
        None => None,
    }
}

/// What a look at a probe finds.
pub enum ProbeStep {
    /// Studio answered, or the time is up.
    Done(Option<String>),
    Wait,
}

impl StudioChangeState {
    /// Nothing captured, nothing asked.
    pub fn new() -> (state: StudioChangeState)
        ensures
            state.last_captured_generation is None,
            probe(state) is None,
    {
        StudioChangeState { last_captured_generation: None, pending_probe: None }
    }

    /// Asks, unless a question is open.
    pub fn begin_probe(&mut self, request_id: String) -> (result: Result<(), CaptureError>)
        ensures
            final(self).last_captured_generation == old(self).last_captured_generation,
            probe(*old(self)) is Some ==> result == Err::<(), CaptureError>(CaptureError::ProbePending) && probe(
                *final(self),
            ) == probe(*old(self)),
            probe(*old(self)) is None ==> result is Ok && probe(*final(self)) == Some((request_id@, None::<Seq<char>>)),
    {
        if self.pending_probe.is_some() {
            return Err(CaptureError::ProbePending);
        }
        self.pending_probe = Some(PendingStudioChangeProbe { request_id, acknowledged_generation: None });
        Ok(())
    }

    /// Withdraws the question.
    pub fn withdraw_probe(&mut self)
        ensures
            final(self).last_captured_generation == old(self).last_captured_generation,
            probe(*final(self)) is None,
    {
        self.pending_probe = None;
    }

    /// Looks for the answer. An answered question, and one whose time is up, is
    /// closed.
    pub fn poll_probe(&mut self, request_id: &str, expired: bool) -> (result: Result<ProbeStep, CaptureError>)
        ensures
            final(self).last_captured_generation == old(self).last_captured_generation,
            match probe(*old(self)) {
                Some((request, answer)) if request == request_id@ => match answer {
                    Some(generation) => (result matches Ok(ProbeStep::Done(Some(found))) && found@ == generation)
                        && probe(*final(self)) is None,
                    None => if expired {
                        result == Ok::<ProbeStep, CaptureError>(ProbeStep::Done(None)) && probe(*final(self)) is None
                    } else {
                        result == Ok::<ProbeStep, CaptureError>(ProbeStep::Wait) && probe(*final(self)) == probe(
                            *old(self),
                        )
                    },
                },
                _ => result == Err::<ProbeStep, CaptureError>(CaptureError::ProbeGone) && probe(*final(self)) == probe(
                    *old(self),
                ),
            },
    {
        match &self.pending_probe {
            Some(pending) => {
                if !pending.request_id.as_str().eq(request_id) {
                    return Err(CaptureError::ProbeGone);
                }
                match &pending.acknowledged_generation {
                    Some(generation) => {
                        let found: String = generation.clone();
                        self.pending_probe = None;
                        return Ok(ProbeStep::Done(Some(found)));
                    },
                    None => {},
                }
            },
            None => {
                return Err(CaptureError::ProbeGone);
            },
        }
        if expired {
            self.pending_probe = None;
            return Ok(ProbeStep::Done(None));
        }
        Ok(ProbeStep::Wait)
    }

    /// Takes the answer of Studio: from a subscribed client, not empty, to the open
    /// question, and once.
    pub fn acknowledge_studio_change_generation(
        &mut self,
        subscribed: bool,
        request_id: &str,
        generation: String,
    ) -> (result: Result<(), CaptureError>)
        ensures
            final(self).last_captured_generation == old(self).last_captured_generation,
            ({
                let refused = if !subscribed {
                    Some(CaptureError::ProbeNotSubscribed)
                } else if generation@.len() == 0 {
                    Some(CaptureError::ProbeEmpty)
                } else {
                    match probe(*old(self)) {
                        Some((request, answer)) if request == request_id@ => if answer is Some {
                            Some(CaptureError::ProbeAcknowledged)
                        } else {
                            None
                        },
                        _ => Some(CaptureError::ProbeMismatch),
                    }
                };
                match refused {
                    Some(error) => result == Err::<(), CaptureError>(error) && probe(*final(self)) == probe(*old(self)),
                    None => result is Ok && probe(*final(self)) == Some((request_id@, Some(generation@))),
                }
            }),
    {
        if !subscribed {
            return Err(CaptureError::ProbeNotSubscribed);
        }
        if generation.as_str().unicode_len() == 0 {
            return Err(CaptureError::ProbeEmpty);
        }
        match &mut self.pending_probe {
            Some(pending) => {
                if !pending.request_id.as_str().eq(request_id) {
                    return Err(CaptureError::ProbeMismatch);
                }
                if pending.acknowledged_generation.is_some() {
                    return Err(CaptureError::ProbeAcknowledged);
                }
                pending.acknowledged_generation = Some(generation);
                Ok(())
            },
            None => Err(CaptureError::ProbeMismatch),
        }
    }
}

// ---------------------------------------------------------------------------
// Retaining the last capture

/// The kept operation does not stand against retaining the last capture.
pub open spec fn retainable(operation: Option<OperationView>, generation: Seq<char>) -> bool {
    match operation {
        None => true,
        Some(operation) => operation.source_generation == generation && (operation.state == "complete"@ || (
        operation.state == "running"@ && operation.worker_active)),
    }
}

/// The last capture still holds: the source is what was captured, the manifest is
/// valid, and Studio is where it was.
pub open spec fn retains(
    last_successful: Option<Seq<char>>,
    source_generation: Seq<char>,
    valid_manifest: bool,
    operation: Option<OperationView>,
    studio: Option<Seq<char>>,
    last_captured: Option<Seq<char>>,
) -> bool {
    &&& last_successful == Some(source_generation)
    &&& valid_manifest
    &&& retainable(operation, source_generation)
    &&& studio is Some
    &&& last_captured == studio
}

/// What an idle shutdown makes of the last capture.
pub enum Retention {
    /// A new capture is needed.
    Capture,
    /// The last capture is retained, once the worker of that request is done.
    Await(String),
    /// The last capture is retained.
    Retain,
}

/// Why an idle wait is stopped.
pub open spec fn idle_message() -> Seq<char> {
    "Idle automatic recovery wait stopped after the last successful capture"@
}

/// Decides whether a shutdown can retain the last successful capture. A capture
/// that only waits is stopped; one that has recovered evidence is not.
pub fn retain_last_successful_capture_for_idle_shutdown(
    operation: &mut Option<ManifestCaptureOperation>,
    last_successful: &Option<String>,
    source_generation: &str,
    valid_manifest: bool,
    studio_generation: &Option<String>,
    last_captured: &Option<String>,
) -> (retention: Retention)
    ensures
        ({
            let before = kept(*old(operation));
            if !retains(
                optional_text(*last_successful),
                source_generation@,
                valid_manifest,
                before,
                optional_text(*studio_generation),
                optional_text(*last_captured),
            ) {
                retention is Capture && *final(operation) == *old(operation)
            } else {
                match before {
                    Some(active) if active.worker_active && active.state == "running"@ => if idle_cancel_claimed(
                        active.phase,
                    ) is Ok {
                        &&& retention matches Retention::Await(request) && request@ == active.request_id
                        &&& kept(*final(operation)) == Some(active.stopped(idle_message()))
                    } else {
                        retention is Capture && *final(operation) == *old(operation)
                    },
                    Some(done) => if done.state == "complete"@ {
                        retention is Retain && *final(operation) == *old(operation)
                    } else {
                        retention is Capture && *final(operation) == *old(operation)
                    },
                    None => retention is Retain && *final(operation) == *old(operation),
                }
            }
        }),
{
    match last_successful {
        Some(successful) => if !successful.as_str().eq(source_generation) || !valid_manifest {
            return Retention::Capture;
        },
        None => {
            return Retention::Capture;
        },
    }
    match &*operation {
        Some(kept) => {
            if !(kept.source_generation.as_str().eq(source_generation) && (kept.state.as_str().eq("complete") || (
            kept.state.as_str().eq("running") && kept.worker_active))) {
                return Retention::Capture;
            }
        },
        None => {},
    }
    match (studio_generation, last_captured) {
        (Some(studio), Some(captured)) => if !studio.as_str().eq(captured.as_str()) {
            return Retention::Capture;
        },
        _ => {
            return Retention::Capture;
        },
    }
    match operation {
        Some(kept) => {
            if kept.worker_active && kept.state.as_str().eq("running") {
                match claim_idle_capture_cancel(&mut kept.phase) {
                    Ok(()) => {},
                    Err(_) => {
                        return Retention::Capture;
                    },
                }
                kept.state = "failed".to_owned();
                kept.message = Some(
                    "Idle automatic recovery wait stopped after the last successful capture".to_owned(),
                );
                return Retention::Await(kept.request_id.clone());
            }
            if kept.state.as_str().eq("complete") {
                return Retention::Retain;
            }
            Retention::Capture
        },
        None => Retention::Retain,
    }
}

/// What is said when the last capture is retained.
pub fn retained_message(manifest_path: &str) -> (message: String)
    ensures
        message@ == "No newer Studio recovery followed the last successful capture; retained valid manifest "@
            + manifest_path@,
{
    joined(
        "No newer Studio recovery followed the last successful capture; retained valid manifest ",
        manifest_path,
    )
}

// ---------------------------------------------------------------------------
// The monitor and the shutdown

/// Whether the automatic monitor takes another round.
pub fn monitor_continues(enabled: bool, shutdown_requested: bool, has_subscribers: bool) -> (continues: bool)
    ensures
        continues == (enabled && !shutdown_requested && has_subscribers),
{
    enabled && !shutdown_requested && has_subscribers
}

/// How a shutdown ended.
#[derive(Debug)]
pub enum ShutdownResult {
    Success(String),
    Error(String),
}

/// What a caller of the shutdown does.
pub enum ShutdownEntry {
    /// Run it: nobody else does.
    Run,
    /// Wait for the one who runs it.
    Wait,
    /// It is over.
    Done(Result<String, String>),
}

/// Where the shutdown is.
pub enum ShutdownCoordinatorState {
    Unstarted,
    InProgress,
    Done(ShutdownResult),
}

/// Runs the shutdown once, whoever asks, and gives everybody its result.
pub struct ShutdownCoordinator {
    pub state: ShutdownCoordinatorState,
}

#[verifier::ext_equal]
pub enum ShutdownView {
    Unstarted,
    InProgress,
    Done(Result<Seq<char>, Seq<char>>),
}

impl View for ShutdownCoordinator {
    type V = ShutdownView;

    open spec fn view(&self) -> ShutdownView {
        match self.state {
            ShutdownCoordinatorState::Unstarted => ShutdownView::Unstarted,
            ShutdownCoordinatorState::InProgress => ShutdownView::InProgress,
            ShutdownCoordinatorState::Done(ShutdownResult::Success(message)) => ShutdownView::Done(Ok(message@)),
            ShutdownCoordinatorState::Done(ShutdownResult::Error(message)) => ShutdownView::Done(Err(message@)),
        }
    }
}

impl ShutdownCoordinator {
    pub fn new() -> (coordinator: ShutdownCoordinator)
        ensures
            coordinator@ == ShutdownView::Unstarted,
    {
        ShutdownCoordinator { state: ShutdownCoordinatorState::Unstarted }
    }

    /// What the caller does now. The first one runs the shutdown.
    pub fn enter(&mut self) -> (entry: ShutdownEntry)
        ensures
            match old(self)@ {
                ShutdownView::Unstarted => entry is Run && final(self)@ == ShutdownView::InProgress,
                ShutdownView::InProgress => entry is Wait && final(self)@ == old(self)@,
                ShutdownView::Done(result) => final(self)@ == old(self)@ && (entry matches ShutdownEntry::Done(found) && (
                match result {
                    Ok(message) => found matches Ok(text) && text@ == message,
                    Err(message) => found matches Err(text) && text@ == message,
                })),
            },
    {
        match &self.state {
            ShutdownCoordinatorState::Done(result) => match result {
                ShutdownResult::Success(message) => ShutdownEntry::Done(Ok(message.clone())),
                ShutdownResult::Error(message) => ShutdownEntry::Done(Err(message.clone())),
            },
            ShutdownCoordinatorState::InProgress => ShutdownEntry::Wait,
            ShutdownCoordinatorState::Unstarted => {
                self.state = ShutdownCoordinatorState::InProgress;
                ShutdownEntry::Run
            },
        }
    }

    /// Keeps the result of the shutdown for everybody.
    pub fn finish(&mut self, result: Result<String, String>)
        ensures
            final(self)@ == ShutdownView::Done(
                match result {
                    Ok(message) => Ok(message@),
                    Err(message) => Err(message@),
                },
            ),
    {
        match result {
            Ok(message) => {
                self.state = ShutdownCoordinatorState::Done(ShutdownResult::Success(message));
            },
            Err(message) => {
                self.state = ShutdownCoordinatorState::Done(ShutdownResult::Error(message));
            },
        }
    }

    /// A failed shutdown may be tried again; a successful one is kept.
    pub fn reset_error(&mut self)
        ensures
            final(self)@ == (match old(self)@ {
                ShutdownView::Done(Err(_)) => ShutdownView::Unstarted,
                other => other,
            }),
    {
        let failed: bool = matches!(&self.state, ShutdownCoordinatorState::Done(ShutdownResult::Error(_)));
        if failed {
            self.state = ShutdownCoordinatorState::Unstarted;
        }
    }
}

} // verus!
