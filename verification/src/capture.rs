//! Capturing the place that Studio recovered into the manifest: the phases of one
//! capture, the operation that callers watch, and the order of its steps.

use crate::text::{copy_optional, joined, optional_text};
use vstd::prelude::*;
use vstd::string::StringSliceAdditionalSpecFns;

verus! {

/// The capture waits for recovery evidence.
pub const CAPTURE_COLLECTING: u8 = 0;

/// Recovery evidence was accepted.
pub const CAPTURE_RECOVERED: u8 = 1;

/// The capture was cancelled.
pub const CAPTURE_CANCELLED: u8 = 2;

/// The atomic commit has begun.
pub const CAPTURE_COMMITTING: u8 = 3;

/// The commit is done.
pub const CAPTURE_COMMITTED: u8 = 4;

/// Why a capture or one of its steps is refused.
#[derive(Debug)]
pub enum CaptureError {
    CancelledBeforeRecovery,
    AlreadyRecovered,
    CancelledBeforeCommit,
    NotCollectable,
    CommitBegun,
    NotCancellable,
    RecoveredBeforeIdleCancel,
    Failed(String),
    UnknownState(String),
    NotStarted(String),
    NotMonitored(String),
    NoServedProject,
    RestartRequired,
    ReloadPending,
    NoReload,
    OtherReload,
    ReloadChanged,
    ReloadNeedsWorktree,
    EmptyReload,
    ReloadAlreadyPending,
    NoClient,
    NoRoute,
    OtherCapture,
    NotFound,
    NotRunning,
    DisappearedWhileReporting,
    StoppedWhileReporting,
    DisappearedAfterCommit,
    NoWorktree,
    NoPolicy,
    NoSnapshot,
    SourceChanged,
    RealizationChanged,
    OutOfOrder,
    ProbePending,
    ProbeGone,
    ProbeNotSubscribed,
    ProbeEmpty,
    ProbeMismatch,
    ProbeAcknowledged,
    Decode(String),
}

impl CaptureError {
    /// How the error reads.
    pub open spec fn text(self) -> Seq<char> {
        match self {
            CaptureError::CancelledBeforeRecovery =>
                "Capture Manifest was cancelled before the accepted recovery could be staged"@,
            CaptureError::AlreadyRecovered => "Capture Manifest already accepted recovery evidence"@,
            CaptureError::CancelledBeforeCommit => "Capture Manifest was cancelled before commit"@,
            CaptureError::NotCollectable => "Capture Manifest is no longer collectable"@,
            CaptureError::CommitBegun =>
                "Capture Manifest has begun its atomic commit and can no longer be cancelled"@,
            CaptureError::NotCancellable => "Capture Manifest request is not cancellable"@,
            CaptureError::RecoveredBeforeIdleCancel =>
                "Capture Manifest received recovery evidence before idle shutdown cancellation"@,
            CaptureError::Failed(reason) => "Capture Manifest failed: "@ + reason@,
            CaptureError::UnknownState(state) =>
                "serve returned unknown Capture Manifest state '"@ + state@ + "'"@,
            CaptureError::NotStarted(reason) =>
                "failed to start automatic Capture Manifest before transition: "@ + reason@,
            CaptureError::NotMonitored(reason) =>
                "failed to monitor automatic Capture Manifest before transition: "@ + reason@,
            CaptureError::NoServedProject => "Capture Manifest requires an active served project"@,
            CaptureError::RestartRequired => "serve state requires a hard restart before Capture Manifest"@,
            CaptureError::ReloadPending =>
                "synchronization reload is waiting for Studio to apply the replacement mapping topology"@,
            CaptureError::NoReload => "no managed synchronization reload is awaiting acknowledgement"@,
            CaptureError::OtherReload => "managed synchronization reload transition identity does not match"@,
            CaptureError::ReloadChanged =>
                "managed synchronization reload transition changed before acknowledgement"@,
            CaptureError::ReloadNeedsWorktree => "managed synchronization reload requires a served worktree"@,
            CaptureError::EmptyReload => "managed synchronization reload transition identity is empty"@,
            CaptureError::ReloadAlreadyPending => "a managed synchronization reload is already pending"@,
            CaptureError::NoClient => "Capture Manifest requires one connected Studio client"@,
            CaptureError::NoRoute => "Capture Manifest requires an exact connected Studio route"@,
            CaptureError::OtherCapture => "another Capture Manifest operation is already running"@,
            CaptureError::NotFound => "Capture Manifest request was not found"@,
            CaptureError::NotRunning => "Capture Manifest request is not running"@,
            CaptureError::DisappearedWhileReporting =>
                "Capture Manifest request disappeared while reporting progress"@,
            CaptureError::StoppedWhileReporting => "Capture Manifest request stopped while reporting progress"@,
            CaptureError::DisappearedAfterCommit =>
                "Capture Manifest request disappeared after recovery commit"@,
            CaptureError::NoWorktree => "Capture Manifest requires a managed Studio worktree"@,
            CaptureError::NoPolicy => "Capture Manifest requires a served project"@,
            CaptureError::NoSnapshot => "hybrid project snapshot is unavailable"@,
            CaptureError::SourceChanged => "served source changed during Capture Manifest"@,
            CaptureError::RealizationChanged =>
                "filesystem mapping realization changed during Capture Manifest; retry after project source settles"@,
            CaptureError::OutOfOrder => "Capture Manifest steps are out of order"@,
            CaptureError::ProbePending => "another Studio change probe is already pending"@,
            CaptureError::ProbeGone => "Studio change probe disappeared before acknowledgement"@,
            CaptureError::ProbeNotSubscribed => "Studio change acknowledgement is not subscribed"@,
            CaptureError::ProbeEmpty => "Studio change acknowledgement generation is empty"@,
            CaptureError::ProbeMismatch => "Studio change acknowledgement does not match the pending probe"@,
            CaptureError::ProbeAcknowledged => "Studio change probe was already acknowledged"@,
            CaptureError::Decode(reason) => reason@,
        }
    }

    /// How the error reads.
    pub fn message(&self) -> (message: String)
        ensures
            message@ == self.text(),
    {
        match self {
            CaptureError::CancelledBeforeRecovery => "Capture Manifest was cancelled before the accepted recovery could be staged".to_owned(),
            CaptureError::AlreadyRecovered => "Capture Manifest already accepted recovery evidence".to_owned(),
            CaptureError::CancelledBeforeCommit => "Capture Manifest was cancelled before commit".to_owned(),
            CaptureError::NotCollectable => "Capture Manifest is no longer collectable".to_owned(),
            CaptureError::CommitBegun => "Capture Manifest has begun its atomic commit and can no longer be cancelled".to_owned(),
            CaptureError::NotCancellable => "Capture Manifest request is not cancellable".to_owned(),
            CaptureError::RecoveredBeforeIdleCancel => "Capture Manifest received recovery evidence before idle shutdown cancellation".to_owned(),
            CaptureError::Failed(reason) => joined("Capture Manifest failed: ", reason.as_str()),
            CaptureError::UnknownState(state) => joined(joined("serve returned unknown Capture Manifest state '", state.as_str()).as_str(), "'"),
            CaptureError::NotStarted(reason) => joined("failed to start automatic Capture Manifest before transition: ", reason.as_str()),
            CaptureError::NotMonitored(reason) => joined("failed to monitor automatic Capture Manifest before transition: ", reason.as_str()),
            CaptureError::NoServedProject => "Capture Manifest requires an active served project".to_owned(),
            CaptureError::RestartRequired => "serve state requires a hard restart before Capture Manifest".to_owned(),
            CaptureError::ReloadPending => "synchronization reload is waiting for Studio to apply the replacement mapping topology".to_owned(),
            CaptureError::NoReload => "no managed synchronization reload is awaiting acknowledgement".to_owned(),
            CaptureError::OtherReload => "managed synchronization reload transition identity does not match".to_owned(),
            CaptureError::ReloadChanged => "managed synchronization reload transition changed before acknowledgement".to_owned(),
            CaptureError::ReloadNeedsWorktree => "managed synchronization reload requires a served worktree".to_owned(),
            CaptureError::EmptyReload => "managed synchronization reload transition identity is empty".to_owned(),
            CaptureError::ReloadAlreadyPending => "a managed synchronization reload is already pending".to_owned(),
            CaptureError::NoClient => "Capture Manifest requires one connected Studio client".to_owned(),
            CaptureError::NoRoute => "Capture Manifest requires an exact connected Studio route".to_owned(),
            CaptureError::OtherCapture => "another Capture Manifest operation is already running".to_owned(),
            CaptureError::NotFound => "Capture Manifest request was not found".to_owned(),
            CaptureError::NotRunning => "Capture Manifest request is not running".to_owned(),
            CaptureError::DisappearedWhileReporting => "Capture Manifest request disappeared while reporting progress".to_owned(),
            CaptureError::StoppedWhileReporting => "Capture Manifest request stopped while reporting progress".to_owned(),
            CaptureError::DisappearedAfterCommit => "Capture Manifest request disappeared after recovery commit".to_owned(),
            CaptureError::NoWorktree => "Capture Manifest requires a managed Studio worktree".to_owned(),
            CaptureError::NoPolicy => "Capture Manifest requires a served project".to_owned(),
            CaptureError::NoSnapshot => "hybrid project snapshot is unavailable".to_owned(),
            CaptureError::SourceChanged => "served source changed during Capture Manifest".to_owned(),
            CaptureError::RealizationChanged => "filesystem mapping realization changed during Capture Manifest; retry after project source settles".to_owned(),
            CaptureError::OutOfOrder => "Capture Manifest steps are out of order".to_owned(),
            CaptureError::ProbePending => "another Studio change probe is already pending".to_owned(),
            CaptureError::ProbeGone => "Studio change probe disappeared before acknowledgement".to_owned(),
            CaptureError::ProbeNotSubscribed => "Studio change acknowledgement is not subscribed".to_owned(),
            CaptureError::ProbeEmpty => "Studio change acknowledgement generation is empty".to_owned(),
            CaptureError::ProbeMismatch => "Studio change acknowledgement does not match the pending probe".to_owned(),
            CaptureError::ProbeAcknowledged => "Studio change probe was already acknowledged".to_owned(),
            CaptureError::Decode(reason) => reason.clone(),
        }
    }
}

// ---------------------------------------------------------------------------
// Phases

/// A step from one phase to the next, or why it is refused.
pub open spec fn recovery_claimed(phase: u8) -> Result<u8, CaptureError> {
    if phase == CAPTURE_COLLECTING {
        Ok(CAPTURE_RECOVERED)
    } else if phase == CAPTURE_CANCELLED {
        Err(CaptureError::CancelledBeforeRecovery)
    } else {
        Err(CaptureError::AlreadyRecovered)
    }
}

/// Beginning the commit: only accepted recovery evidence can be committed.
pub open spec fn commit_claimed(phase: u8) -> Result<u8, CaptureError> {
    if phase == CAPTURE_RECOVERED {
        Ok(CAPTURE_COMMITTING)
    } else if phase == CAPTURE_CANCELLED {
        Err(CaptureError::CancelledBeforeCommit)
    } else {
        Err(CaptureError::NotCollectable)
    }
}

/// Cancelling: possible until the commit begins.
pub open spec fn cancel_claimed(phase: u8) -> Result<u8, CaptureError> {
    if phase == CAPTURE_COLLECTING || phase == CAPTURE_RECOVERED {
        Ok(CAPTURE_CANCELLED)
    } else if phase == CAPTURE_COMMITTING {
        Err(CaptureError::CommitBegun)
    } else {
        Err(CaptureError::NotCancellable)
    }
}

/// Cancelling an idle wait: possible only while nothing was recovered.
pub open spec fn idle_cancel_claimed(phase: u8) -> Result<u8, CaptureError> {
    if phase == CAPTURE_COLLECTING {
        Ok(CAPTURE_CANCELLED)
    } else {
        Err(CaptureError::RecoveredBeforeIdleCancel)
    }
}

/// What a claim leaves behind and returns.
pub open spec fn claims(before: u8, after: u8, result: Result<(), CaptureError>, claim: Result<u8, CaptureError>) -> bool {
    match claim {
        Ok(next) => after == next && result is Ok,
        Err(error) => after == before && result == Err::<(), CaptureError>(error),
    }
}

pub fn claim_capture_recovery(phase: &mut u8) -> (result: Result<(), CaptureError>)
    ensures
        claims(*old(phase), *final(phase), result, recovery_claimed(*old(phase))),
{
    if *phase == CAPTURE_COLLECTING {
        *phase = CAPTURE_RECOVERED;
        Ok(())
    } else if *phase == CAPTURE_CANCELLED {
        Err(CaptureError::CancelledBeforeRecovery)
    } else {
        Err(CaptureError::AlreadyRecovered)
    }
}

pub fn claim_capture_commit(phase: &mut u8) -> (result: Result<(), CaptureError>)
    ensures
        claims(*old(phase), *final(phase), result, commit_claimed(*old(phase))),
{
    if *phase == CAPTURE_RECOVERED {
        *phase = CAPTURE_COMMITTING;
        Ok(())
    } else if *phase == CAPTURE_CANCELLED {
        Err(CaptureError::CancelledBeforeCommit)
    } else {
        Err(CaptureError::NotCollectable)
    }
}

pub fn claim_capture_cancel(phase: &mut u8) -> (result: Result<(), CaptureError>)
    ensures
        claims(*old(phase), *final(phase), result, cancel_claimed(*old(phase))),
{
    if *phase == CAPTURE_COLLECTING || *phase == CAPTURE_RECOVERED {
        *phase = CAPTURE_CANCELLED;
        Ok(())
    } else if *phase == CAPTURE_COMMITTING {
        Err(CaptureError::CommitBegun)
    } else {
        Err(CaptureError::NotCancellable)
    }
}

pub fn claim_idle_capture_cancel(phase: &mut u8) -> (result: Result<(), CaptureError>)
    ensures
        claims(*old(phase), *final(phase), result, idle_cancel_claimed(*old(phase))),
{
    if *phase == CAPTURE_COLLECTING {
        *phase = CAPTURE_CANCELLED;
        Ok(())
    } else {
        Err(CaptureError::RecoveredBeforeIdleCancel)
    }
}

/// One of the four claims, made in some phase.
pub open spec fn claimable(phase: u8, next: u8) -> bool {
    ||| recovery_claimed(phase) == Ok::<u8, CaptureError>(next)
    ||| commit_claimed(phase) == Ok::<u8, CaptureError>(next)
    ||| cancel_claimed(phase) == Ok::<u8, CaptureError>(next)
    ||| idle_cancel_claimed(phase) == Ok::<u8, CaptureError>(next)
}

/// A chain of claims: each phase is claimed from the one before it.
pub open spec fn claim_chain(phases: Seq<u8>) -> bool {
    forall|k: int| 0 <= k < phases.len() - 1 ==> claimable(#[trigger] phases[k], phases[k + 1])
}

/// A cancelled capture never begins its commit, and a capture whose commit began
/// is never cancelled: along any chain of claims at most one of the two phases
/// occurs.
pub proof fn law_cancellation_and_commit_exclude_each_other(phases: Seq<u8>, cancelled: int, committing: int)
    requires
        claim_chain(phases),
        0 <= cancelled < phases.len(),
        0 <= committing < phases.len(),
    ensures
        !(phases[cancelled] == CAPTURE_CANCELLED && phases[committing] == CAPTURE_COMMITTING),
{
    if phases[cancelled] == CAPTURE_CANCELLED && phases[committing] == CAPTURE_COMMITTING {
        if cancelled < committing {
            assert(claimable(phases[cancelled], phases[cancelled + 1]));
        } else {
            assert(claimable(phases[committing], phases[committing + 1]));
        }
        assert(false);
    }
}

/// Idle cancellation never discards accepted recovery evidence.
pub proof fn law_idle_cancellation_spares_recovered_evidence(phase: u8)
    requires
        phase != CAPTURE_COLLECTING,
    ensures
        idle_cancel_claimed(phase) is Err,
{
}

// ---------------------------------------------------------------------------
// Operations

/// What a caller is told of a capture.
#[derive(Debug)]
pub struct ManifestCaptureStatus {
    pub request_id: String,
    pub state: String,
    pub source_generation: String,
    pub message: Option<String>,
}

#[verifier::ext_equal]
pub struct StatusView {
    pub request_id: Seq<char>,
    pub state: Seq<char>,
    pub source_generation: Seq<char>,
    pub message: Option<Seq<char>>,
}

impl View for ManifestCaptureStatus {
    type V = StatusView;

    open spec fn view(&self) -> StatusView {
        StatusView {
            request_id: self.request_id@,
            state: self.state@,
            source_generation: self.source_generation@,
            message: optional_text(self.message),
        }
    }
}

impl ManifestCaptureStatus {
    /// What a finished capture said; nothing while it runs.
    pub fn terminal_result(&self) -> (result: Result<Option<String>, CaptureError>)
        ensures
            self.state@ == "complete"@ ==> (result matches Ok(Some(message)) && message@ == (
            match optional_text(self.message) {
                Some(message) => message,
                None => "Studio artifact committed"@,
            })),
            self.state@ != "complete"@ && self.state@ == "failed"@ ==> (result matches Err(
                CaptureError::Failed(reason),
            ) && reason@ == (match optional_text(self.message) {
                Some(message) => message,
                None => "Studio did not provide a reason"@,
            })),
            self.state@ != "complete"@ && self.state@ != "failed"@ && self.state@ == "running"@ ==> (
            result matches Ok(None)),
            self.state@ != "complete"@ && self.state@ != "failed"@ && self.state@ != "running"@ ==> (
            result matches Err(CaptureError::UnknownState(state)) && state@ == self.state@),
    {
        let state: &str = self.state.as_str();
        if state.eq("complete") {
            match &self.message {
                Some(message) => Ok(Some(message.clone())),
                None => Ok(Some("Studio artifact committed".to_owned())),
            }
        } else if state.eq("failed") {
            match &self.message {
                Some(message) => Err(CaptureError::Failed(message.clone())),
                None => Err(CaptureError::Failed("Studio did not provide a reason".to_owned())),
            }
        } else if state.eq("running") {
            Ok(None)
        } else {
            Err(CaptureError::UnknownState(self.state.clone()))
        }
    }
}

/// A capture that is under way or was the last one.
#[derive(Debug)]
pub struct ManifestCaptureOperation {
    pub request_id: String,
    pub client_id: u32,
    pub source_generation: String,
    pub state: String,
    pub message: Option<String>,
    pub phase: u8,
    pub worker_active: bool,
}

#[verifier::ext_equal]
pub struct OperationView {
    pub request_id: Seq<char>,
    pub client_id: u32,
    pub source_generation: Seq<char>,
    pub state: Seq<char>,
    pub message: Option<Seq<char>>,
    pub phase: u8,
    pub worker_active: bool,
}

impl View for ManifestCaptureOperation {
    type V = OperationView;

    open spec fn view(&self) -> OperationView {
        OperationView {
            request_id: self.request_id@,
            client_id: self.client_id,
            source_generation: self.source_generation@,
            state: self.state@,
            message: optional_text(self.message),
            phase: self.phase,
            worker_active: self.worker_active,
        }
    }
}

impl OperationView {
    /// What callers are told of the operation.
    pub open spec fn status(self) -> StatusView {
        StatusView {
            request_id: self.request_id,
            state: self.state,
            source_generation: self.source_generation,
            message: self.message,
        }
    }

    /// A worker still collects for it.
    pub open spec fn joinable(self) -> bool {
        self.worker_active && self.state == "running"@
    }

    /// The operation, stopped with a reason.
    pub open spec fn stopped(self, reason: Seq<char>) -> OperationView {
        OperationView { phase: CAPTURE_CANCELLED, state: "failed"@, message: Some(reason), ..self }
    }
}

/// The operation that is kept, if any.
pub open spec fn kept(operation: Option<ManifestCaptureOperation>) -> Option<OperationView> {
    match operation {
        Some(operation) => Some(operation@),
        None => None,
    }
}

/// The kept operation is the one that was requested.
pub open spec fn requested(operation: Option<OperationView>, request_id: Seq<char>) -> bool {
    operation matches Some(operation) && operation.request_id == request_id
}

pub fn manifest_capture_status(operation: &ManifestCaptureOperation) -> (status: ManifestCaptureStatus)
    ensures
        status@ == operation@.status(),
{
    ManifestCaptureStatus {
        request_id: operation.request_id.clone(),
        state: operation.state.clone(),
        source_generation: operation.source_generation.clone(),
        message: copy_optional(&operation.message),
    }
}

/// The status of a capture that an automatic capture can join: only one whose
/// worker is active.
pub fn joinable_automatic_manifest_capture_status(operation: &Option<ManifestCaptureOperation>) -> (status: Option<
    ManifestCaptureStatus,
>)
    ensures
        match kept(*operation) {
            Some(operation) if operation.joinable() => status matches Some(status) && status@
                == operation.status(),
            _ => status is None,
        },
{
    match operation {
        Some(capture) => if capture.worker_active && capture.state.as_str().eq("running") {
            Some(manifest_capture_status(capture))
        } else {
            None
        },
        None => None,
    }
}

// ---------------------------------------------------------------------------
// Reload transitions

/// The reload transition that a capture acknowledges, or why it may not begin.
pub open spec fn reload_validated(pending: Option<Seq<char>>, supplied: Option<Seq<char>>) -> Result<
    Option<Seq<char>>,
    CaptureError,
> {
    match (pending, supplied) {
        (None, None) => Ok(None),
        (Some(_), None) => Err(CaptureError::ReloadPending),
        (None, Some(_)) => Err(CaptureError::NoReload),
        (Some(expected), Some(observed)) => if expected == observed {
            Ok(Some(expected))
        } else {
            Err(CaptureError::OtherReload)
        },
    }
}

pub fn validate_managed_reload_capture(pending: &Option<String>, supplied: &Option<String>) -> (result: Result<
    Option<String>,
    CaptureError,
>)
    ensures
        match reload_validated(optional_text(*pending), optional_text(*supplied)) {
            Ok(transition) => result matches Ok(found) && optional_text(found) == transition,
            Err(error) => result == Err::<Option<String>, CaptureError>(error),
        },
{
    match (pending, supplied) {
        (None, None) => Ok(None),
        (Some(_), None) => Err(CaptureError::ReloadPending),
        (None, Some(_)) => Err(CaptureError::NoReload),
        (Some(expected), Some(observed)) => if expected.as_str().eq(observed.as_str()) {
            Ok(Some(expected.clone()))
        } else {
            Err(CaptureError::OtherReload)
        },
    }
}

/// Begins a reload: there is a worktree, the transition has an identity, and no
/// other reload is pending.
pub fn begin_managed_reload_transition(worktree: bool, pending: &mut Option<String>, transition_id: String) -> (result:
    Result<(), CaptureError>)
    ensures
        !worktree ==> result == Err::<(), CaptureError>(CaptureError::ReloadNeedsWorktree),
        worktree && transition_id@.len() == 0 ==> result == Err::<(), CaptureError>(CaptureError::EmptyReload),
        worktree && transition_id@.len() > 0 && *old(pending) is Some ==> result == Err::<(), CaptureError>(
            CaptureError::ReloadAlreadyPending,
        ),
        worktree && transition_id@.len() > 0 && *old(pending) is None ==> result is Ok && optional_text(
            *final(pending),
        ) == Some(transition_id@),
        result is Err ==> *final(pending) == *old(pending),
{
    if !worktree {
        return Err(CaptureError::ReloadNeedsWorktree);
    }
    if transition_id.as_str().unicode_len() == 0 {
        return Err(CaptureError::EmptyReload);
    }
    if pending.is_some() {
        return Err(CaptureError::ReloadAlreadyPending);
    }
    *pending = Some(transition_id);
    Ok(())
}

/// Ends the reload that is pending, if it is the one named.
pub fn complete_managed_reload_transition(pending: &mut Option<String>, transition_id: &str) -> (result: Result<
    (),
    CaptureError,
>)
    ensures
        optional_text(*old(pending)) == Some(transition_id@) ==> result is Ok && *final(pending) is None,
        optional_text(*old(pending)) != Some(transition_id@) ==> result == Err::<(), CaptureError>(
            CaptureError::ReloadChanged,
        ) && *final(pending) == *old(pending),
{
    let matches: bool = match &*pending {
        Some(expected) => expected.as_str().eq(transition_id),
        None => false,
    };
    if !matches {
        return Err(CaptureError::ReloadChanged);
    }
    *pending = None;
    Ok(())
}

// ---------------------------------------------------------------------------
// Beginning, watching and stopping

/// What the wait for recovery evidence is called.
pub open spec fn waiting_message(served_place: Option<Seq<char>>) -> Seq<char> {
    match served_place {
        Some(path) => "Waiting up to six minutes for Studio auto-recovery or a manual save to "@ + path,
        None => "Waiting up to six minutes for Studio to write a new auto-recovery place"@,
    }
}

/// What a capture needs to begin.
pub struct CaptureRequest {
    /// A project is served.
    pub served_project: bool,
    pub restart_required: bool,
    /// The pending reload transition.
    pub pending_reload: Option<String>,
    /// The transition that the caller acknowledges.
    pub supplied_reload: Option<String>,
    /// The single connected client, or why there is none.
    pub client: Result<u32, CaptureError>,
    /// The client has an exact Studio route.
    pub has_route: bool,
    pub source_generation: String,
    /// A fresh identity for the request.
    pub request_id: String,
    pub served_place: Option<String>,
    /// The caller takes a running capture for its own.
    pub join_active: bool,
}

/// A capture that began, or the running one that was joined.
pub struct CaptureBeginning {
    pub status: ManifestCaptureStatus,
    pub started: bool,
    pub client_id: u32,
    pub reload: Option<String>,
}

impl CaptureRequest {
    /// Why the request is refused before any capture is looked at.
    pub open spec fn refused(self) -> Option<CaptureError> {
        if !self.served_project {
            Some(CaptureError::NoServedProject)
        } else if self.restart_required {
            Some(CaptureError::RestartRequired)
        } else {
            match reload_validated(optional_text(self.pending_reload), optional_text(self.supplied_reload)) {
                Err(error) => Some(error),
                Ok(_) => match self.client {
                    Err(error) => Some(error),
                    Ok(_) => if !self.has_route {
                        Some(CaptureError::NoRoute)
                    } else {
                        None
                    },
                },
            }
        }
    }

    /// The operation that a fresh capture keeps.
    pub open spec fn fresh(self) -> OperationView {
        OperationView {
            request_id: self.request_id@,
            client_id: self.client->Ok_0,
            source_generation: self.source_generation@,
            state: "running"@,
            message: Some(waiting_message(optional_text(self.served_place))),
            phase: CAPTURE_COLLECTING,
            worker_active: true,
        }
    }
}

/// Begins a capture, or joins the running one.
pub fn begin_manifest_capture(operation: &mut Option<ManifestCaptureOperation>, request: CaptureRequest) -> (result:
    Result<CaptureBeginning, CaptureError>)
    ensures
        match request.refused() {
            Some(error) => result == Err::<CaptureBeginning, CaptureError>(error) && *final(operation) == *old(operation),
            None => match kept(*old(operation)) {
                Some(active) if active.joinable() => {
                    &&& *final(operation) == *old(operation)
                    &&& request.join_active ==> (result matches Ok(begun) && !begun.started && begun.status@
                        == active.status())
                    &&& !request.join_active ==> result == Err::<CaptureBeginning, CaptureError>(
                        CaptureError::OtherCapture,
                    )
                },
                _ => {
                    &&& kept(*final(operation)) == Some(request.fresh())
                    &&& result matches Ok(begun)
                    &&& begun.started
                    &&& begun.status@ == request.fresh().status()
                    &&& Ok::<u32, CaptureError>(begun.client_id) == request.client
                    &&& optional_text(begun.reload) == reload_validated(
                        optional_text(request.pending_reload),
                        optional_text(request.supplied_reload),
                    )->Ok_0
                },
            },
        },
{
    if !request.served_project {
        return Err(CaptureError::NoServedProject);
    }
    if request.restart_required {
        return Err(CaptureError::RestartRequired);
    }
    let reload: Option<String> = match validate_managed_reload_capture(
        &request.pending_reload,
        &request.supplied_reload,
    ) {
        Ok(reload) => reload,
        Err(error) => {
            return Err(error);
        },
    };
    let client_id: u32 = match request.client {
        Ok(client) => client,
        Err(error) => {
            return Err(error);
        },
    };
    if !request.has_route {
        return Err(CaptureError::NoRoute);
    }
    match joinable_automatic_manifest_capture_status(operation) {
        Some(status) => {
            if request.join_active {
                return Ok(CaptureBeginning { status, started: false, client_id, reload });
            }
            return Err(CaptureError::OtherCapture);
        },
        None => {},
    }
    let message: String = match &request.served_place {
        Some(path) => joined(
            "Waiting up to six minutes for Studio auto-recovery or a manual save to ",
            path.as_str(),
        ),
        None => "Waiting up to six minutes for Studio to write a new auto-recovery place".to_owned(),
    };
    let fresh: ManifestCaptureOperation = ManifestCaptureOperation {
        request_id: request.request_id,
        client_id,
        source_generation: request.source_generation,
        state: "running".to_owned(),
        message: Some(message),
        phase: CAPTURE_COLLECTING,
        worker_active: true,
    };
    let status: ManifestCaptureStatus = manifest_capture_status(&fresh);
    *operation = Some(fresh);
    Ok(CaptureBeginning { status, started: true, client_id, reload })
}

/// The operation after its message changed, or why it may not.
pub open spec fn reported(operation: Option<OperationView>, request_id: Seq<char>, message: Seq<char>) -> Result<
    OperationView,
    CaptureError,
> {
    if !requested(operation, request_id) {
        Err(CaptureError::DisappearedWhileReporting)
    } else if operation->0.state != "running"@ {
        Err(CaptureError::StoppedWhileReporting)
    } else {
        Ok(OperationView { message: Some(message), ..operation->0 })
    }
}

pub fn update_manifest_capture_message(
    operation: &mut Option<ManifestCaptureOperation>,
    request_id: &str,
    message: &str,
) -> (result: Result<(), CaptureError>)
    ensures
        match reported(kept(*old(operation)), request_id@, message@) {
            Ok(after) => result is Ok && kept(*final(operation)) == Some(after),
            Err(error) => result == Err::<(), CaptureError>(error) && *final(operation) == *old(operation),
        },
{
    match operation {
        Some(kept) => {
            if !kept.request_id.as_str().eq(request_id) {
                return Err(CaptureError::DisappearedWhileReporting);
            }
            if !kept.state.as_str().eq("running") {
                return Err(CaptureError::StoppedWhileReporting);
            }
            kept.message = Some(message.to_owned());
            Ok(())
        },
        None => Err(CaptureError::DisappearedWhileReporting),
    }
}

/// The status of a request. A running capture whose client is gone, and which can
/// still be cancelled, is stopped.
pub fn status_of_request(
    operation: &mut Option<ManifestCaptureOperation>,
    request_id: &str,
    subscribed: bool,
) -> (result: Result<ManifestCaptureStatus, CaptureError>)
    ensures
        !requested(kept(*old(operation)), request_id@) ==> result == Err::<ManifestCaptureStatus, CaptureError>(
            CaptureError::NotFound,
        ) && *final(operation) == *old(operation),
        requested(kept(*old(operation)), request_id@) ==> ({
            let before = old(operation)->0@;
            let after = if before.state == "running"@ && !subscribed && cancel_claimed(before.phase) is Ok {
                before.stopped("Studio disconnected before Capture Manifest completed"@)
            } else {
                before
            };
            kept(*final(operation)) == Some(after) && (result matches Ok(status) && status@ == after.status())
        }),
{
    match operation {
        Some(kept) => {
            if !kept.request_id.as_str().eq(request_id) {
                return Err(CaptureError::NotFound);
            }
            if kept.state.as_str().eq("running") && !subscribed {
                match claim_capture_cancel(&mut kept.phase) {
                    Ok(()) => {
                        kept.state = "failed".to_owned();
                        kept.message = Some("Studio disconnected before Capture Manifest completed".to_owned());
                    },
                    Err(_) => {},
                }
            }
            Ok(manifest_capture_status(kept))
        },
        None => Err(CaptureError::NotFound),
    }
}

/// Marks a running capture failed, unless it is committed.
pub fn fail_manifest_capture(operation: &mut Option<ManifestCaptureOperation>, request_id: &str, message: String)
    ensures
        kept(*final(operation)) == (if requested(kept(*old(operation)), request_id@) && old(operation)->0.phase
            != CAPTURE_COMMITTED && old(operation)->0.state@ == "running"@ {
            Some(old(operation)->0@.stopped(message@))
        } else {
            kept(*old(operation))
        }),
{
    match operation {
        Some(kept) => {
            if kept.request_id.as_str().eq(request_id) && kept.phase != CAPTURE_COMMITTED && kept.state.as_str().eq(
                "running",
            ) {
                kept.phase = CAPTURE_CANCELLED;
                kept.state = "failed".to_owned();
                kept.message = Some(message);
            }
        },
        None => {},
    }
}

/// Records that the worker of a request is done.
pub fn settle_manifest_capture_worker(operation: &mut Option<ManifestCaptureOperation>, request_id: &str)
    ensures
        kept(*final(operation)) == (if requested(kept(*old(operation)), request_id@) {
            Some(OperationView { worker_active: false, ..old(operation)->0@ })
        } else {
            kept(*old(operation))
        }),
{
    match operation {
        Some(kept) => {
            if kept.request_id.as_str().eq(request_id) {
                kept.worker_active = false;
            }
        },
        None => {},
    }
}

/// Cancels a running capture; the manifest stays what it was.
pub fn cancel_manifest_capture(operation: &mut Option<ManifestCaptureOperation>, request_id: &str) -> (result: Result<
    ManifestCaptureStatus,
    CaptureError,
>)
    ensures
        ({
            let before = kept(*old(operation));
            let refused = if !requested(before, request_id@) {
                Some(CaptureError::NotFound)
            } else if before->0.state != "running"@ {
                Some(CaptureError::NotRunning)
            } else {
                match cancel_claimed(before->0.phase) {
                    Ok(_) => None,
                    Err(error) => Some(error),
                }
            };
            match refused {
                Some(error) => result == Err::<ManifestCaptureStatus, CaptureError>(error) && *final(operation)
                    == *old(operation),
                None => {
                    let after = before->0.stopped(
                        "Manifest capture was cancelled; the previous manifest remains active"@,
                    );
                    kept(*final(operation)) == Some(after) && (result matches Ok(status) && status@ == after.status())
                },
            }
        }),
{
    match operation {
        Some(kept) => {
            if !kept.request_id.as_str().eq(request_id) {
                return Err(CaptureError::NotFound);
            }
            if !kept.state.as_str().eq("running") {
                return Err(CaptureError::NotRunning);
            }
            match claim_capture_cancel(&mut kept.phase) {
                Ok(()) => {},
                Err(error) => {
                    return Err(error);
                },
            }
            kept.state = "failed".to_owned();
            kept.message = Some(
                "Manifest capture was cancelled; the previous manifest remains active".to_owned(),
            );
            Ok(manifest_capture_status(kept))
        },
        None => Err(CaptureError::NotFound),
    }
}

/// One round of stopping the automatic monitor: a running capture that can be
/// cancelled is stopped. The result says whether a worker is still active and is
/// to be waited for.
pub fn stop_automatic_capture(operation: &mut Option<ManifestCaptureOperation>) -> (wait: bool)
    ensures
        match kept(*old(operation)) {
            Some(before) if before.worker_active => wait && kept(*final(operation)) == Some(
                if before.state == "running"@ && cancel_claimed(before.phase) is Ok {
                    before.stopped("Automatic auto-recovery monitoring stopped"@)
                } else {
                    before
                },
            ),
            _ => !wait && *final(operation) == *old(operation),
        },
{
    match operation {
        Some(kept) => {
            if !kept.worker_active {
                return false;
            }
            if kept.state.as_str().eq("running") {
                match claim_capture_cancel(&mut kept.phase) {
                    Ok(()) => {
                        kept.state = "failed".to_owned();
                        kept.message = Some("Automatic auto-recovery monitoring stopped".to_owned());
                    },
                    Err(_) => {},
                }
            }
            true
        },
        None => false,
    }
}

} // verus!
