//! Writing the canonical artifact: what must hold before a capture is committed,
//! and what a write comes to.

use crate::capture::{
    claim_capture_commit, commit_claimed, CaptureError, CAPTURE_COLLECTING, CAPTURE_COMMITTED, CAPTURE_COMMITTING,
    CAPTURE_RECOVERED,
};
use crate::snapshot::{AddedSnapshot, Changes};
use crate::Ref;
use std::collections::HashSet;
use vstd::prelude::*;

verus! {

broadcast use vstd::std_specs::hash::group_hash_axioms;

/// Why a capture is not committed.
#[derive(Debug)]
pub enum CommitError {
    RouteChanged,
    EngineChanged,
    StudioChanged,
    RealizationChanged,
    SourceChanged,
    ReceiptMismatch,
    ArtifactChanged,
    Phase(CaptureError),
    /// What another part said.
    Other(String),
}

impl CommitError {
    pub open spec fn text(self) -> Seq<char> {
        match self {
            CommitError::RouteChanged => "Studio capture route changed during staging"@,
            CommitError::EngineChanged => "Studio native observation engine changed during staging"@,
            CommitError::StudioChanged => "Studio changed during Capture Manifest staging; retry the capture"@,
            CommitError::RealizationChanged =>
                "filesystem mapping realization changed during Capture Manifest; retry after project source settles"@,
            CommitError::SourceChanged =>
                "served source changed while Capture Manifest was staging; retry the capture"@,
            CommitError::ReceiptMismatch =>
                "validated capture receipt does not match the served source generation"@,
            CommitError::ArtifactChanged =>
                "validated capture artifact changed before the exact no-op claim"@,
            CommitError::Phase(error) => error.text(),
            CommitError::Other(text) => text@,
        }
    }

    pub fn message(&self) -> (message: String)
        ensures
            message@ == self.text(),
    {
        match self {
            CommitError::RouteChanged => "Studio capture route changed during staging".to_owned(),
            CommitError::EngineChanged => "Studio native observation engine changed during staging".to_owned(),
            CommitError::StudioChanged =>
                "Studio changed during Capture Manifest staging; retry the capture".to_owned(),
            CommitError::RealizationChanged =>
                "filesystem mapping realization changed during Capture Manifest; retry after project source settles".to_owned(),
            CommitError::SourceChanged =>
                "served source changed while Capture Manifest was staging; retry the capture".to_owned(),
            CommitError::ReceiptMismatch =>
                "validated capture receipt does not match the served source generation".to_owned(),
            CommitError::ArtifactChanged =>
                "validated capture artifact changed before the exact no-op claim".to_owned(),
            CommitError::Phase(error) => error.message(),
            CommitError::Other(text) => text.clone(),
        }
    }
}

/// Which Studio a capture came from, and how far it was.
#[derive(Debug)]
pub struct StudioPosition {
    pub bridge_id: String,
    pub process_id: u32,
    pub studio_session_id: String,
    pub instance_id: String,
    pub engine_ready: bool,
    pub engine_generation: u64,
    pub hierarchy_sequence: u64,
    pub change_sequence: u64,
}

/// What must still hold when a capture is committed.
#[derive(Debug)]
pub struct CapturePrecommitAttestation {
    pub studio: StudioPosition,
    pub project_generation: String,
}

/// Why an attestation does not hold. `realization` is the generation of the
/// realized mappings, or why it cannot be told.
pub open spec fn unattested(
    attested: CapturePrecommitAttestation,
    current: StudioPosition,
    realization: Result<String, String>,
) -> Option<CommitError> {
    if !(current.bridge_id@ == attested.studio.bridge_id@ && current.process_id == attested.studio.process_id
        && current.studio_session_id@ == attested.studio.studio_session_id@ && current.instance_id@
        == attested.studio.instance_id@) {
        Some(CommitError::RouteChanged)
    } else if !(current.engine_ready && current.engine_generation == attested.studio.engine_generation) {
        Some(CommitError::EngineChanged)
    } else if !(current.hierarchy_sequence == attested.studio.hierarchy_sequence && current.change_sequence
        == attested.studio.change_sequence) {
        Some(CommitError::StudioChanged)
    } else {
        match realization {
            Err(reason) => Some(CommitError::Other(reason)),
            Ok(generation) => if generation@ == attested.project_generation@ {
                None
            } else {
                Some(CommitError::RealizationChanged)
            },
        }
    }
}

impl CapturePrecommitAttestation {
    /// Whether everything is as it was when the capture was staged: the same
    /// Studio, its engine ready and the same, nothing changed in it, and the same
    /// realization of the mappings.
    pub fn validate(&self, current: &StudioPosition, realization: Result<String, String>) -> (result: Result<
        (),
        CommitError,
    >)
        ensures
            match unattested(*self, *current, realization) {
                None => result is Ok,
                Some(error) => result == Err::<(), CommitError>(error),
            },
    {
        let studio: &StudioPosition = &self.studio;
        if !(current.bridge_id.as_str().eq(studio.bridge_id.as_str()) && current.process_id == studio.process_id
            && current.studio_session_id.as_str().eq(studio.studio_session_id.as_str())
            && current.instance_id.as_str().eq(studio.instance_id.as_str())) {
            return Err(CommitError::RouteChanged);
        }
        if !(current.engine_ready && current.engine_generation == studio.engine_generation) {
            return Err(CommitError::EngineChanged);
        }
        if !(current.hierarchy_sequence == studio.hierarchy_sequence && current.change_sequence
            == studio.change_sequence) {
            return Err(CommitError::StudioChanged);
        }
        match realization {
            Err(reason) => Err(CommitError::Other(reason)),
            Ok(generation) => if generation.as_str().eq(self.project_generation.as_str()) {
                Ok(())
            } else {
                Err(CommitError::RealizationChanged)
            },
        }
    }
}

/// The phase once a commit is claimed: evidence that is still being collected is
/// accepted first.
pub open spec fn staged_claimed(phase: u8) -> Result<u8, CaptureError> {
    if phase == CAPTURE_COLLECTING {
        Ok(CAPTURE_COMMITTING)
    } else {
        commit_claimed(phase)
    }
}

/// Whether the source is still what the capture was staged on. It is asked before
/// anything is attested.
pub fn validate_generation(expected_generation: &str, current_generation: &str) -> (result: Result<(), CommitError>)
    ensures
        current_generation@ == expected_generation@ ==> result is Ok,
        current_generation@ != expected_generation@ ==> result == Err::<(), CommitError>(CommitError::SourceChanged),
{
    if current_generation.eq(expected_generation) {
        Ok(())
    } else {
        Err(CommitError::SourceChanged)
    }
}

/// Claims the commit of a staged capture: only if the source is what it was, the
/// attestation holds and the capture was not cancelled. Otherwise the phase stays.
pub fn validate_and_claim_capture(
    phase: &mut u8,
    expected_generation: &str,
    current_generation: &str,
    attested: Result<(), CommitError>,
) -> (result: Result<(), CommitError>)
    ensures
        if current_generation@ != expected_generation@ {
            result == Err::<(), CommitError>(CommitError::SourceChanged) && *final(phase) == *old(phase)
        } else {
            match attested {
                Err(error) => result == Err::<(), CommitError>(error) && *final(phase) == *old(phase),
                Ok(_) => match staged_claimed(*old(phase)) {
                    Ok(next) => result is Ok && *final(phase) == next,
                    Err(error) => result == Err::<(), CommitError>(CommitError::Phase(error)) && *final(phase) == *old(phase),
                },
            }
        },
{
    match validate_generation(expected_generation, current_generation) {
        Ok(()) => {},
        Err(error) => {
            return Err(error);
        },
    }
    match attested {
        Ok(()) => {},
        Err(error) => {
            return Err(error);
        },
    }
    if *phase == CAPTURE_COLLECTING {
        *phase = CAPTURE_RECOVERED;
    }
    match claim_capture_commit(phase) {
        Ok(()) => Ok(()),
        Err(error) => Err(CommitError::Phase(error)),
    }
}

/// Ends the commit of a prepared capture: from the promotion on it is committed,
/// whether the promotion succeeded or not.
pub fn finish_prepared_capture(phase: &mut u8, promoted: Result<String, String>) -> (result: Result<
    Option<String>,
    CommitError,
>)
    ensures
        *final(phase) == CAPTURE_COMMITTED,
        match promoted {
            Ok(generation) => result == Ok::<Option<String>, CommitError>(Some(generation)),
            Err(reason) => result == Err::<Option<String>, CommitError>(CommitError::Other(reason)),
        },
{
    *phase = CAPTURE_COMMITTED;
    match promoted {
        Ok(generation) => Ok(Some(generation)),
        Err(reason) => Err(CommitError::Other(reason)),
    }
}

/// Commits a capture that changes nothing: the receipt, the served source and the
/// artifact as it stands must all be of one generation.
pub fn commit_capture_noop(
    phase: &mut u8,
    receipt_generation: &str,
    expected_generation: &str,
    current_generation: &str,
    attested: Result<(), CommitError>,
) -> (result: Result<Option<String>, CommitError>)
    ensures
        if receipt_generation@ != expected_generation@ {
            result == Err::<Option<String>, CommitError>(CommitError::ReceiptMismatch) && *final(phase) == *old(phase)
        } else if current_generation@ != receipt_generation@ {
            result == Err::<Option<String>, CommitError>(CommitError::ArtifactChanged) && *final(phase) == *old(phase)
        } else {
            match attested {
                Err(error) => result == Err::<Option<String>, CommitError>(error) && *final(phase) == *old(phase),
                Ok(_) => match staged_claimed(*old(phase)) {
                    Ok(_) => (result matches Ok(Some(generation)) && generation@ == current_generation@) && *final(phase)
                        == CAPTURE_COMMITTED,
                    Err(error) => result == Err::<Option<String>, CommitError>(CommitError::Phase(error)) && *final(phase) == *old(phase),
                },
            }
        },
{
    if !receipt_generation.eq(expected_generation) {
        return Err(CommitError::ReceiptMismatch);
    }
    if !current_generation.eq(receipt_generation) {
        return Err(CommitError::ArtifactChanged);
    }
    match validate_and_claim_capture(phase, expected_generation, current_generation, attested) {
        Ok(()) => {},
        Err(error) => {
            return Err(error);
        },
    }
    *phase = CAPTURE_COMMITTED;
    Ok(Some(current_generation.to_owned()))
}

/// What a write comes to, and whether the writer goes on: it stops where what was
/// there before could not be restored.
pub struct WriteOutcome {
    pub result: Result<String, String>,
    pub continues: bool,
}

/// What the writer answers after one job. `applied` is what applying it came to,
/// with the generation where it is known; `generation` is that of the store now,
/// and `restored` whether the state before the job was restored after a failure.
pub fn conclude_write(
    applied: Result<Option<String>, String>,
    generation: Result<String, String>,
    restored: bool,
) -> (outcome: WriteOutcome)
    ensures
        match applied {
            Ok(Some(known)) => outcome.result == Ok::<String, String>(known) && outcome.continues,
            Ok(None) => outcome.result == generation && outcome.continues,
            Err(reason) => outcome.result == Err::<String, String>(reason) && outcome.continues == restored,
        },
{
    match applied {
        Ok(known) => match known {
            Some(known) => WriteOutcome { result: Ok(known), continues: true },
            None => WriteOutcome { result: generation, continues: true },
        },
        Err(reason) => WriteOutcome { result: Err(reason), continues: restored },
    }
}

/// The identities that some page adds.
pub open spec fn adds(pages: Seq<Changes>, id: Ref) -> bool {
    exists|k: int, m: int|
        0 <= k < pages.len() && 0 <= m < (#[trigger] pages[k]).additions@.len() && (#[trigger] pages[k].additions@[m]).id
            == id
}

/// The identities that some page removes.
pub open spec fn removes(pages: Seq<Changes>, id: Ref) -> bool {
    exists|k: int| 0 <= k < pages.len() && (#[trigger] pages[k]).removals@.contains(id)
}

fn added_ids(pages: &Vec<Changes>) -> (ids: HashSet<u128>)
    ensures
        forall|id: Ref| #[trigger] ids@.contains(id) <==> adds(pages@, id),
{
    let mut ids: HashSet<u128> = HashSet::new();
    let mut at: usize = 0;
    while at < pages.len()
        invariant
            at <= pages@.len(),
            forall|id: Ref| #[trigger] ids@.contains(id) <==> adds(pages@.take(at as int), id),
        decreases pages@.len() - at,
    {
        let additions: &Vec<AddedSnapshot> = &pages[at].additions;
        let ghost before = ids@;
        let mut next: usize = 0;
        while next < additions.len()
            invariant
                next <= additions@.len(),
                forall|id: Ref| #[trigger]
                    ids@.contains(id) <==> before.contains(id) || exists|m: int|
                        0 <= m < next && (#[trigger] additions@[m]).id == id,
            decreases additions@.len() - next,
        {
            ids.insert(additions[next].id);
            proof {
                assert forall|id: Ref| #[trigger] ids@.contains(id) <==> before.contains(id) || exists|m: int|
                    0 <= m < next + 1 && (#[trigger] additions@[m]).id == id by {
                    if id == additions@[next as int].id {
                        assert(0 <= next < next + 1 && additions@[next as int].id == id);
                    }
                }
            }
            next = next + 1;
        }
        proof {
            let done = pages@.take(at as int);
            let more = pages@.take(at + 1);
            assert forall|id: Ref| #[trigger] ids@.contains(id) <==> adds(more, id) by {
                if before.contains(id) {
                    assert(adds(done, id));
                    let (k, m) = choose|k: int, m: int|
                        0 <= k < done.len() && 0 <= m < (#[trigger] done[k]).additions@.len() && (
                        #[trigger] done[k].additions@[m]).id == id;
                    assert(more[k] == done[k]);
                    assert(more[k].additions@[m].id == id);
                }
                if exists|m: int| 0 <= m < additions@.len() && (#[trigger] additions@[m]).id == id {
                    let m = choose|m: int| 0 <= m < additions@.len() && (#[trigger] additions@[m]).id == id;
                    assert(more[at as int].additions@[m].id == id);
                }
                if adds(more, id) {
                    let (k, m) = choose|k: int, m: int|
                        0 <= k < more.len() && 0 <= m < (#[trigger] more[k]).additions@.len() && (
                        #[trigger] more[k].additions@[m]).id == id;
                    if k < at {
                        assert(done[k] == more[k]);
                        assert(done[k].additions@[m].id == id);
                        assert(adds(done, id));
                    } else {
                        assert(additions@[m].id == id);
                    }
                }
            }
        }
        at = at + 1;
    }
    proof {
        assert(pages@.take(pages@.len() as int) =~= pages@);
    }
    ids
}

/// The identities that a transaction both adds and removes: their old instances
/// are retired before any page is applied.
pub fn replaced_identities(pages: &Vec<Changes>) -> (replaced: HashSet<u128>)
    ensures
        forall|id: Ref| #[trigger] replaced@.contains(id) <==> adds(pages@, id) && removes(pages@, id),
{
    let added: HashSet<u128> = added_ids(pages);
    let mut replaced: HashSet<u128> = HashSet::new();
    let mut at: usize = 0;
    while at < pages.len()
        invariant
            at <= pages@.len(),
            forall|id: Ref| #[trigger] added@.contains(id) <==> adds(pages@, id),
            forall|id: Ref| #[trigger]
                replaced@.contains(id) <==> adds(pages@, id) && removes(pages@.take(at as int), id),
        decreases pages@.len() - at,
    {
        let removals: &Vec<Ref> = &pages[at].removals;
        let ghost before = replaced@;
        let mut next: usize = 0;
        proof {
            assert(removals@.take(0) =~= Seq::empty());
        }
        while next < removals.len()
            invariant
                next <= removals@.len(),
                forall|id: Ref| #[trigger] added@.contains(id) <==> adds(pages@, id),
                forall|id: Ref| #[trigger]
                    replaced@.contains(id) <==> before.contains(id) || (adds(pages@, id) && removals@.take(
                        next as int,
                    ).contains(id)),
            decreases removals@.len() - next,
        {
            let id: Ref = removals[next];
            if added.contains(&id) {
                replaced.insert(id);
            }
            proof {
                let done = removals@.take(next as int);
                let more = removals@.take(next + 1);
                assert(more =~= done.push(id));
                assert forall|other: Ref| #[trigger] replaced@.contains(other) <==> before.contains(other) || (adds(
                    pages@,
                    other,
                ) && more.contains(other)) by {
                    if other == id {
                        assert(more[next as int] == id);
                    }
                    if done.contains(other) {
                        let k = choose|k: int| 0 <= k < done.len() && done[k] == other;
                        assert(more[k] == other);
                    }
                    if more.contains(other) && other != id {
                        let k = choose|k: int| 0 <= k < more.len() && more[k] == other;
                        assert(done[k] == other);
                    }
                }
            }
            next = next + 1;
        }
        proof {
            let done = pages@.take(at as int);
            let more = pages@.take(at + 1);
            assert(removals@.take(removals@.len() as int) =~= removals@);
            assert forall|id: Ref| #[trigger] replaced@.contains(id) <==> adds(pages@, id) && removes(more, id) by {
                if removes(done, id) {
                    let k = choose|k: int| 0 <= k < done.len() && (#[trigger] done[k]).removals@.contains(id);
                    assert(more[k] == done[k]);
                }
                if removals@.contains(id) {
                    assert(more[at as int].removals@.contains(id));
                }
                if removes(more, id) {
                    let k = choose|k: int| 0 <= k < more.len() && (#[trigger] more[k]).removals@.contains(id);
                    if k < at {
                        assert(done[k] == more[k]);
                    }
                }
            }
        }
        at = at + 1;
    }
    proof {
        assert(pages@.take(pages@.len() as int) =~= pages@);
    }
    replaced
}

} // verus!
