//! The steps of one capture, from the recovered place to the committed manifest,
//! and what an automatic capture and a shutdown make of it.

use crate::capture::{
    claim_capture_recovery, kept, recovery_claimed, reported, requested, update_manifest_capture_message,
    CaptureError, ManifestCaptureOperation, OperationView,
};
use crate::shutdown::{probe, StudioChangeState};
use crate::text::{contains_part, copy_optional, holds_part, joined, optional_text, same_optional};
use vstd::prelude::*;

verus! {

// ---------------------------------------------------------------------------
// Recovery evidence

/// Whether a recovered place was written before the capture began.
#[derive(Debug, Clone, Copy, PartialEq, Eq, Structural)]
pub enum RecoveryFreshness {
    New,
    Preexisting,
}

/// What becomes of a recovered place.
#[derive(Debug, Clone, Copy, PartialEq, Eq, Structural)]
pub enum RecoveryAcceptance {
    Retry,
    Accept,
    Reject,
}

/// A place of an earlier time counts only if Studio is known to be where it was.
pub open spec fn matches_generation(
    freshness: RecoveryFreshness,
    recovery: Option<Seq<char>>,
    studio: Option<Seq<char>>,
) -> bool {
    match freshness {
        RecoveryFreshness::New => true,
        RecoveryFreshness::Preexisting => studio is Some && recovery == studio,
    }
}

pub fn recovery_matches_studio_generation(
    freshness: RecoveryFreshness,
    recovery_generation: &Option<String>,
    studio_generation: &Option<String>,
) -> (matches: bool)
    ensures
        matches == matches_generation(
            freshness,
            optional_text(*recovery_generation),
            optional_text(*studio_generation),
        ),
{
    match freshness {
        RecoveryFreshness::New => true,
        RecoveryFreshness::Preexisting => studio_generation.is_some() && same_optional(
            recovery_generation,
            studio_generation,
        ),
    }
}

/// Whether a place of that freshness is worth decoding: one of an earlier time only
/// if the generation of Studio is known.
pub fn is_worth_decoding(freshness: RecoveryFreshness, studio_generation: &Option<String>) -> (worth: bool)
    ensures
        worth == !(freshness == RecoveryFreshness::Preexisting && studio_generation is None),
{
    !(freshness == RecoveryFreshness::Preexisting && studio_generation.is_none())
}

/// What becomes of a decoded place: `decoded` is the generation of Studio that it
/// names, or why it could not be decoded.
pub open spec fn accepted(
    phase: u8,
    freshness: RecoveryFreshness,
    decoded: Result<Option<String>, String>,
    studio: Option<Seq<char>>,
) -> Result<RecoveryAcceptance, CaptureError> {
    if freshness == RecoveryFreshness::Preexisting && studio is None {
        Ok(RecoveryAcceptance::Retry)
    } else {
        match decoded {
            Ok(recovery) => if matches_generation(freshness, optional_text(recovery), studio) {
                match recovery_claimed(phase) {
                    Ok(_) => Ok(RecoveryAcceptance::Accept),
                    Err(error) => Err(error),
                }
            } else {
                Ok(RecoveryAcceptance::Reject)
            },
            Err(reason) => if holds_part(reason@, "different Carbon Studio session"@) {
                Ok(RecoveryAcceptance::Reject)
            } else {
                Err(CaptureError::Decode(reason))
            },
        }
    }
}

/// Decides on a recovered place. Accepting it claims the phase.
pub fn accept_recovery(
    phase: &mut u8,
    freshness: RecoveryFreshness,
    decoded: Result<Option<String>, String>,
    studio_generation: &Option<String>,
) -> (result: Result<RecoveryAcceptance, CaptureError>)
    ensures
        result == accepted(*old(phase), freshness, decoded, optional_text(*studio_generation)),
        result == Ok::<RecoveryAcceptance, CaptureError>(RecoveryAcceptance::Accept) ==> Ok::<u8, CaptureError>(
            *final(phase),
        ) == recovery_claimed(*old(phase)),
        result != Ok::<RecoveryAcceptance, CaptureError>(RecoveryAcceptance::Accept) ==> *final(phase) == *old(phase),
{
    if !is_worth_decoding(freshness, studio_generation) {
        return Ok(RecoveryAcceptance::Retry);
    }
    match decoded {
        Ok(recovery) => if recovery_matches_studio_generation(freshness, &recovery, studio_generation) {
            match claim_capture_recovery(phase) {
                Ok(()) => Ok(RecoveryAcceptance::Accept),
                Err(error) => Err(error),
            }
        } else {
            Ok(RecoveryAcceptance::Reject)
        },
        Err(reason) => if contains_part(reason.as_str(), "different Carbon Studio session") {
            Ok(RecoveryAcceptance::Reject)
        } else {
            Err(CaptureError::Decode(reason))
        },
    }
}

// ---------------------------------------------------------------------------
// The steps

/// Where a capture is.
#[derive(Debug, Clone, Copy, PartialEq, Eq, Structural)]
pub enum CaptureStep {
    Idle,
    Recovering,
    Synchronizing,
    Staging,
    Committing,
    Installing,
    Done,
}

/// What happened outside.
pub enum CaptureEvent {
    /// The worker began; what it found.
    Started { worktree: bool, policy: bool, snapshot: bool },
    /// A recovered place was accepted.
    Recovered { kind: String, path: String, studio_generation: Option<String> },
    /// The project source is synchronized.
    Synchronized { project_generation: String, source_generation: String },
    /// The place is staged; the realization of the mappings is read again.
    Staged { project_generation: String },
    /// The manifest is committed under a new generation.
    Committed { generation: String },
}

/// What the worker does next.
#[derive(Debug, Clone, Copy, PartialEq, Eq, Structural)]
pub enum CaptureAction {
    AwaitRecovery,
    AwaitSynchronization,
    Stage,
    Commit,
    Install,
}

/// One capture, as its worker carries it.
pub struct CaptureRun {
    pub request_id: String,
    pub source_generation: String,
    pub step: CaptureStep,
    pub kind: String,
    pub path: String,
    pub studio_generation: Option<String>,
    pub project_generation: String,
    pub committed_generation: String,
}

#[verifier::ext_equal]
pub struct RunView {
    pub request_id: Seq<char>,
    pub source_generation: Seq<char>,
    pub step: CaptureStep,
    pub kind: Seq<char>,
    pub path: Seq<char>,
    pub studio_generation: Option<Seq<char>>,
    pub project_generation: Seq<char>,
    pub committed_generation: Seq<char>,
}

impl View for CaptureRun {
    type V = RunView;

    open spec fn view(&self) -> RunView {
        RunView {
            request_id: self.request_id@,
            source_generation: self.source_generation@,
            step: self.step,
            kind: self.kind@,
            path: self.path@,
            studio_generation: optional_text(self.studio_generation),
            project_generation: self.project_generation@,
            committed_generation: self.committed_generation@,
        }
    }
}

/// What is said when the recovered place arrived.
pub open spec fn settling_message() -> Seq<char> {
    "Waiting for project source to settle"@
}

pub open spec fn staging_message() -> Seq<char> {
    "Staging the recovered Studio place"@
}

pub open spec fn committing_message() -> Seq<char> {
    "Committing the recovered manifest atomically"@
}

/// What is said of a finished capture.
pub open spec fn captured_message(kind: Seq<char>, path: Seq<char>) -> Seq<char> {
    kind + " "@ + path + " was captured and committed atomically"@
}

/// The state after one event, and what is to be done.
#[verifier::ext_equal]
pub struct Advance {
    pub run: RunView,
    pub operation: Option<OperationView>,
    pub action: CaptureAction,
}

/// One message to the caller, before the next step.
pub open spec fn says(
    run: RunView,
    operation: Option<OperationView>,
    message: Seq<char>,
    next: RunView,
    action: CaptureAction,
) -> Result<Advance, CaptureError> {
    match reported(operation, run.request_id, message) {
        Ok(after) => Ok(Advance { run: next, operation: Some(after), action }),
        Err(error) => Err(error),
    }
}

/// What an event makes of a capture.
pub open spec fn advanced(run: RunView, operation: Option<OperationView>, event: CaptureEvent) -> Result<
    Advance,
    CaptureError,
> {
    match (run.step, event) {
        (CaptureStep::Idle, CaptureEvent::Started { worktree, policy, snapshot }) => if !worktree {
            Err(CaptureError::NoWorktree)
        } else if !policy {
            Err(CaptureError::NoPolicy)
        } else if !snapshot {
            Err(CaptureError::NoSnapshot)
        } else {
            Ok(
                Advance {
                    run: RunView { step: CaptureStep::Recovering, ..run },
                    operation,
                    action: CaptureAction::AwaitRecovery,
                },
            )
        },
        (CaptureStep::Recovering, CaptureEvent::Recovered { kind, path, studio_generation }) => says(
            run,
            operation,
            settling_message(),
            RunView {
                step: CaptureStep::Synchronizing,
                kind: kind@,
                path: path@,
                studio_generation: optional_text(studio_generation),
                ..run
            },
            CaptureAction::AwaitSynchronization,
        ),
        (CaptureStep::Synchronizing, CaptureEvent::Synchronized { project_generation, source_generation }) =>
            if source_generation@ != run.source_generation {
                Err(CaptureError::SourceChanged)
            } else {
                says(
                    run,
                    operation,
                    staging_message(),
                    RunView { step: CaptureStep::Staging, project_generation: project_generation@, ..run },
                    CaptureAction::Stage,
                )
            },
        (CaptureStep::Staging, CaptureEvent::Staged { project_generation }) =>
            if project_generation@ != run.project_generation {
                Err(CaptureError::RealizationChanged)
            } else {
                says(
                    run,
                    operation,
                    committing_message(),
                    RunView { step: CaptureStep::Committing, ..run },
                    CaptureAction::Commit,
                )
            },
        (CaptureStep::Committing, CaptureEvent::Committed { generation }) => Ok(
            Advance {
                run: RunView { step: CaptureStep::Installing, committed_generation: generation@, ..run },
                operation,
                action: CaptureAction::Install,
            },
        ),
        _ => Err(CaptureError::OutOfOrder),
    }
}

/// What is said of an operation whose capture is finished, by the generation that was
/// committed.
pub open spec fn finished(run: RunView, operation: OperationView) -> OperationView {
    OperationView {
        source_generation: run.committed_generation,
        state: "complete"@,
        message: Some(captured_message(run.kind, run.path)),
        ..operation
    }
}

impl CaptureRun {
    /// A capture that has not begun, of the source generation served now.
    pub fn new(request_id: String, source_generation: String) -> (run: CaptureRun)
        ensures
            run.request_id@ == request_id@,
            run.source_generation@ == source_generation@,
            run.step == CaptureStep::Idle,
    {
        CaptureRun {
            request_id,
            source_generation,
            step: CaptureStep::Idle,
            kind: String::new(),
            path: String::new(),
            studio_generation: None,
            project_generation: String::new(),
            committed_generation: String::new(),
        }
    }

    /// Takes one event: the operation says how far the capture is, and the result
    /// what is to be done next. A refused event leaves both as they were.
    pub fn advance(
        &mut self,
        operation: &mut Option<ManifestCaptureOperation>,
        event: CaptureEvent,
    ) -> (result: Result<CaptureAction, CaptureError>)
        ensures
            match advanced(old(self)@, kept(*old(operation)), event) {
                Ok(after) => {
                    &&& result == Ok::<CaptureAction, CaptureError>(after.action)
                    &&& final(self)@ == after.run
                    &&& kept(*final(operation)) == after.operation
                },
                Err(error) => {
                    &&& result == Err::<CaptureAction, CaptureError>(error)
                    &&& final(self)@ == old(self)@
                    &&& kept(*final(operation)) == kept(*old(operation))
                },
            },
    {
        match (self.step, event) {
            (CaptureStep::Idle, CaptureEvent::Started { worktree, policy, snapshot }) => {
                if !worktree {
                    return Err(CaptureError::NoWorktree);
                }
                if !policy {
                    return Err(CaptureError::NoPolicy);
                }
                if !snapshot {
                    return Err(CaptureError::NoSnapshot);
                }
                self.step = CaptureStep::Recovering;
                Ok(CaptureAction::AwaitRecovery)
            },
            (CaptureStep::Recovering, CaptureEvent::Recovered { kind, path, studio_generation }) => {
                let arrived: String = joined(
                    joined(kind.as_str(), " arrived; validating ").as_str(),
                    path.as_str(),
                );
                match update_manifest_capture_message(operation, self.request_id.as_str(), arrived.as_str()) {
                    Ok(()) => {},
                    Err(error) => {
                        return Err(error);
                    },
                }
                match update_manifest_capture_message(
                    operation,
                    self.request_id.as_str(),
                    "Waiting for project source to settle",
                ) {
                    Ok(()) => {},
                    Err(error) => {
                        return Err(error);
                    },
                }
                self.kind = kind;
                self.path = path;
                self.studio_generation = studio_generation;
                self.step = CaptureStep::Synchronizing;
                Ok(CaptureAction::AwaitSynchronization)
            },
            (CaptureStep::Synchronizing, CaptureEvent::Synchronized { project_generation, source_generation }) => {
                if !source_generation.as_str().eq(self.source_generation.as_str()) {
                    return Err(CaptureError::SourceChanged);
                }
                match update_manifest_capture_message(
                    operation,
                    self.request_id.as_str(),
                    "Staging the recovered Studio place",
                ) {
                    Ok(()) => {},
                    Err(error) => {
                        return Err(error);
                    },
                }
                self.project_generation = project_generation;
                self.step = CaptureStep::Staging;
                Ok(CaptureAction::Stage)
            },
            (CaptureStep::Staging, CaptureEvent::Staged { project_generation }) => {
                if !project_generation.as_str().eq(self.project_generation.as_str()) {
                    return Err(CaptureError::RealizationChanged);
                }
                match update_manifest_capture_message(
                    operation,
                    self.request_id.as_str(),
                    "Committing the recovered manifest atomically",
                ) {
                    Ok(()) => {},
                    Err(error) => {
                        return Err(error);
                    },
                }
                self.step = CaptureStep::Committing;
                Ok(CaptureAction::Commit)
            },
            (CaptureStep::Committing, CaptureEvent::Committed { generation }) => {
                self.committed_generation = generation;
                self.step = CaptureStep::Installing;
                Ok(CaptureAction::Install)
            },
            _ => Err(CaptureError::OutOfOrder),
        }
    }

    /// Finishes a capture whose hierarchy and source are installed: the generation that
    /// was committed is the last one captured, Studio is known to be where the captured
    /// place was, and the operation is complete. Before that nothing changes; an
    /// operation that is gone leaves the capture open.
    pub fn finish(
        &mut self,
        operation: &mut Option<ManifestCaptureOperation>,
        last_successful_generation: &mut Option<String>,
        studio: &mut StudioChangeState,
    ) -> (result: Result<(), CaptureError>)
        ensures
            probe(*final(studio)) == probe(*old(studio)),
            if old(self)@.step != CaptureStep::Installing {
                &&& result == Err::<(), CaptureError>(CaptureError::OutOfOrder)
                &&& final(self)@ == old(self)@
                &&& kept(*final(operation)) == kept(*old(operation))
                &&& *final(last_successful_generation) == *old(last_successful_generation)
                &&& final(studio).last_captured_generation == old(studio).last_captured_generation
            } else {
                &&& optional_text(*final(last_successful_generation)) == Some(old(self)@.committed_generation)
                &&& optional_text(final(studio).last_captured_generation) == old(self)@.studio_generation
                &&& if requested(kept(*old(operation)), old(self)@.request_id) {
                    &&& result is Ok
                    &&& final(self)@ == (RunView { step: CaptureStep::Done, ..old(self)@ })
                    &&& kept(*final(operation)) == Some(finished(old(self)@, kept(*old(operation))->0))
                } else {
                    &&& result == Err::<(), CaptureError>(CaptureError::DisappearedAfterCommit)
                    &&& final(self)@ == old(self)@
                    &&& kept(*final(operation)) == kept(*old(operation))
                }
            },
    {
        match self.step {
            CaptureStep::Installing => {},
            _ => {
                return Err(CaptureError::OutOfOrder);
            },
        }
        *last_successful_generation = Some(self.committed_generation.clone());
        studio.last_captured_generation = copy_optional(&self.studio_generation);
        match operation {
            Some(kept) => {
                if !kept.request_id.as_str().eq(self.request_id.as_str()) {
                    return Err(CaptureError::DisappearedAfterCommit);
                }
                kept.source_generation = self.committed_generation.clone();
                kept.state = "complete".to_owned();
                kept.message = Some(
                    joined(
                        joined(joined(self.kind.as_str(), " ").as_str(), self.path.as_str()).as_str(),
                        " was captured and committed atomically",
                    ),
                );
            },
            None => {
                return Err(CaptureError::DisappearedAfterCommit);
            },
        }
        self.step = CaptureStep::Done;
        Ok(())
    }
}

/// A capture is committed only after a place was recovered, the project source was
/// synchronized while the served source stayed what it was, and the realization of
/// the mappings was the same before and after staging.
pub proof fn law_commit_follows_every_check(
    start: RunView,
    operations: Seq<Option<OperationView>>,
    events: Seq<CaptureEvent>,
    runs: Seq<RunView>,
)
    requires
        start.step == CaptureStep::Idle,
        events.len() > 0,
        operations.len() == events.len(),
        runs.len() == events.len() + 1,
        runs[0] == start,
        forall|k: int|
            0 <= k < events.len() ==> (#[trigger] advanced(runs[k], operations[k], events[k]) matches Ok(after)
                && after.run == runs[k + 1]),
        advanced(runs[events.len() - 1], operations.last(), events.last())->Ok_0.action == CaptureAction::Commit,
    ensures
        events.len() == 4,
        events[1] is Recovered,
        events[2] matches CaptureEvent::Synchronized { project_generation: before, source_generation } && source_generation@
            == start.source_generation && (events[3] matches CaptureEvent::Staged { project_generation: after } && after@
            == before@),
{
    let count = events.len();
    assert(advanced(runs[0], operations[0], events[0]) is Ok);
    if count >= 2 {
        assert(advanced(runs[1], operations[1], events[1]) is Ok);
    }
    if count >= 3 {
        assert(advanced(runs[2], operations[2], events[2]) is Ok);
    }
    if count >= 4 {
        assert(advanced(runs[3], operations[3], events[3]) is Ok);
    }
    if count >= 5 {
        assert(advanced(runs[4], operations[4], events[4]) is Ok);
        if count >= 6 {
            assert(advanced(runs[5], operations[5], events[5]) is Ok);
        }
    }
}

} // verus!
