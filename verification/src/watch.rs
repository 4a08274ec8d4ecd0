//! What a served project makes of changes on disk.

use crate::hashing::{blake3_digest, blake3_hash, push_text};
use crate::hierarchy::set_members;
use crate::json_view::{json_parsed, read_json};
use crate::live_policy::LivePolicy;
use crate::managed_hierarchy::{
    contract_of, encode_project_managed_hierarchy, install_managed_hierarchy_contract, is_contract_id, project_selection,
    ManagedError, ManagedHierarchyContract, ManagedHierarchyState,
};
use crate::project_diff::{diff_snapshots, difference, SameFrames};
use crate::project_routes::{
    on_the_way, routes_led, routes_view, routing_refs, snapshot_refs_for_routes, RouteError, RouteRefs,
};
use crate::project_state::retired_source_refs;
use crate::reflection::Reflection;
use crate::snapshot::{Changes, ChangesView, NodeView, Snapshot};
use crate::text::{joined, same_bytes, same_texts, text_bytes, texts};
use crate::text_map::Plain;
use crate::tree::{builds, filled, identified, lemma_filled, snapshot_of, tree_of, Tree, TreeError, TreeView};
use crate::Ref;
use std::collections::HashSet;
use vstd::prelude::*;
use vstd::string::StringSliceAdditionalSpecFns;

verus! {

broadcast use vstd::std_specs::hash::group_hash_axioms;

// ---------------------------------------------------------------------------
// Reload signals

/// Whether bytes read as JSON.
pub open spec fn json_reads(bytes: Seq<u8>) -> bool {
    json_parsed(bytes) is Ok
}

fn is_json(bytes: &[u8]) -> (reads: bool)
    ensures
        reads == json_reads(bytes@),
{
    read_json(bytes).is_ok()
}

/// What a reload was signaled for.
#[derive(Debug, Clone, Copy)]
pub enum ReloadSignalKey {
    Manifest((u128, u128)),
    WatchRoots((u128, u128)),
}

/// The last signal.
#[derive(Debug)]
pub struct ReloadSignalState {
    pub last_signaled: Option<ReloadSignalKey>,
}

/// What a look at the project document found.
#[derive(Debug)]
pub enum ManifestReadResult {
    Unchanged,
    ValidChanged { hash: (u128, u128) },
    InvalidJson(String),
}

/// What follows from one read of the project document.
pub enum ManifestCheck {
    Done(ManifestReadResult),
    /// Not JSON: the file may still be written. Wait that many milliseconds and
    /// read again.
    ReadAgain(u64),
}

/// What becomes of a changed project document.
#[derive(Debug)]
pub enum SignalAction {
    Nothing,
    /// The document is kept; why.
    Warn(String),
    Reload,
    /// The reload was signaled before: a failed one is tried again.
    RetryFailedReload,
}

/// The bytes that watched directories are told apart by.
pub open spec fn watch_root_bytes(roots: Seq<Seq<char>>) -> Seq<u8>
    decreases roots.len(),
{
    if roots.len() == 0 {
        Seq::empty()
    } else {
        watch_root_bytes(roots.drop_last()) + text_bytes(roots.last()).push(0u8)
    }
}

/// What is found in a document that changed: its digest, or that it is not JSON.
pub open spec fn changed_document(bytes: Seq<u8>, frozen: Seq<u8>, result: ManifestReadResult) -> bool {
    if bytes == frozen {
        result is Unchanged
    } else if json_reads(bytes) {
        result matches ManifestReadResult::ValidChanged { hash } && hash == blake3_hash(bytes)
    } else {
        result matches ManifestReadResult::InvalidJson(reason) && reason@ == "invalid or truncated JSON"@
    }
}

fn same_key(left: ReloadSignalKey, right: ReloadSignalKey) -> (same: bool)
    ensures
        same == (left == right),
{
    match (left, right) {
        (ReloadSignalKey::Manifest(a), ReloadSignalKey::Manifest(b)) => a.0 == b.0 && a.1 == b.1,
        (ReloadSignalKey::WatchRoots(a), ReloadSignalKey::WatchRoots(b)) => a.0 == b.0 && a.1 == b.1,
        _ => false,
    }
}

impl ReloadSignalState {
    pub fn new() -> (state: ReloadSignalState)
        ensures
            state.last_signaled is None,
    {
        ReloadSignalState { last_signaled: None }
    }

    /// Judges the first read of the project document: unchanged, changed, or to be
    /// read again.
    pub fn check_manifest(&self, read: Result<Vec<u8>, String>, frozen_document: &[u8]) -> (check: ManifestCheck)
        ensures
            match read {
                Err(reason) => check matches ManifestCheck::Done(ManifestReadResult::InvalidJson(found)) && found
                    == reason,
                Ok(bytes) => if bytes@ == frozen_document@ || json_reads(bytes@) {
                    check matches ManifestCheck::Done(result) && changed_document(bytes@, frozen_document@, result)
                } else {
                    check == ManifestCheck::ReadAgain(50)
                },
            },
    {
        match read {
            Err(reason) => ManifestCheck::Done(ManifestReadResult::InvalidJson(reason)),
            Ok(bytes) => if same_bytes(bytes.as_slice(), frozen_document) {
                ManifestCheck::Done(ManifestReadResult::Unchanged)
            } else if is_json(bytes.as_slice()) {
                ManifestCheck::Done(ManifestReadResult::ValidChanged { hash: blake3_digest(bytes.as_slice()) })
            } else {
                ManifestCheck::ReadAgain(50)
            },
        }
    }

    /// Judges the second read; where it fails, the first one stands.
    pub fn recheck_manifest(&self, first: Vec<u8>, second: Option<Vec<u8>>, frozen_document: &[u8]) -> (result:
        ManifestReadResult)
        ensures
            changed_document(
                match second {
                    Some(bytes) => bytes@,
                    None => first@,
                },
                frozen_document@,
                result,
            ),
    {
        let bytes: Vec<u8> = match second {
            Some(bytes) => bytes,
            None => first,
        };
        if same_bytes(bytes.as_slice(), frozen_document) {
            ManifestReadResult::Unchanged
        } else if is_json(bytes.as_slice()) {
            ManifestReadResult::ValidChanged { hash: blake3_digest(bytes.as_slice()) }
        } else {
            ManifestReadResult::InvalidJson("invalid or truncated JSON".to_owned())
        }
    }

    fn should_signal(&mut self, key: ReloadSignalKey) -> (signal: bool)
        ensures
            signal == (old(self).last_signaled != Some(key)),
            final(self).last_signaled == Some(key),
    {
        match self.last_signaled {
            Some(last) => if same_key(last, key) {
                return false;
            },
            None => {},
        }
        self.last_signaled = Some(key);
        true
    }

    /// Whether a changed document is to be signaled: not twice in a row.
    pub fn should_signal_manifest(&mut self, hash: (u128, u128)) -> (signal: bool)
        ensures
            signal == (old(self).last_signaled != Some(ReloadSignalKey::Manifest(hash))),
            final(self).last_signaled == Some(ReloadSignalKey::Manifest(hash)),
    {
        self.should_signal(ReloadSignalKey::Manifest(hash))
    }

    /// Whether changed directories are to be signaled: not twice in a row.
    pub fn should_signal_watch_roots(&mut self, watch_roots: &Vec<String>) -> (signal: bool)
        ensures
            ({
                let key = ReloadSignalKey::WatchRoots(blake3_hash(watch_root_bytes(texts(watch_roots@))));
                signal == (old(self).last_signaled != Some(key)) && final(self).last_signaled == Some(key)
            }),
    {
        let mut bytes: Vec<u8> = Vec::new();
        let ghost all = texts(watch_roots@);
        let mut at: usize = 0;
        proof {
            assert(all.take(0) =~= Seq::empty());
        }
        while at < watch_roots.len()
            invariant
                at <= watch_roots@.len(),
                all == texts(watch_roots@),
                bytes@ == watch_root_bytes(all.take(at as int)),
            decreases watch_roots@.len() - at,
        {
            let ghost before = bytes@;
            push_text(&mut bytes, watch_roots[at].as_str());
            bytes.push(0u8);
            proof {
                assert(all.take(at + 1).drop_last() =~= all.take(at as int));
                assert(all.take(at + 1).last() == watch_roots@[at as int]@);
                assert(bytes@ =~= before + text_bytes(watch_roots@[at as int]@).push(0u8));
            }
            at = at + 1;
        }
        proof {
            assert(all.take(watch_roots@.len() as int) =~= all);
        }
        self.should_signal(ReloadSignalKey::WatchRoots(blake3_digest(bytes.as_slice())))
    }

    /// What becomes of what was found in the project document.
    pub fn signal_manifest_result(&mut self, result: ManifestReadResult, project_path: &str) -> (action: SignalAction)
        ensures
            match result {
                ManifestReadResult::Unchanged => action is Nothing && final(self).last_signaled == old(self).last_signaled,
                ManifestReadResult::InvalidJson(reason) => (action matches SignalAction::Warn(text) && text@
                    == "Project document "@ + project_path@
                    + " changed on disk but is invalid or malformed JSON; retaining previous generation: "@
                    + reason@) && final(self).last_signaled == old(self).last_signaled,
                ManifestReadResult::ValidChanged { hash } => {
                    &&& final(self).last_signaled == Some(ReloadSignalKey::Manifest(hash))
                    &&& if old(self).last_signaled == Some(ReloadSignalKey::Manifest(hash)) {
                        action is RetryFailedReload
                    } else {
                        action is Reload
                    }
                },
            },
    {
        match result {
            ManifestReadResult::Unchanged => SignalAction::Nothing,
            ManifestReadResult::InvalidJson(reason) => SignalAction::Warn(
                joined(
                    joined(
                        joined("Project document ", project_path).as_str(),
                        " changed on disk but is invalid or malformed JSON; retaining previous generation: ",
                    ).as_str(),
                    reason.as_str(),
                ),
            ),
            ManifestReadResult::ValidChanged { hash } => if self.should_signal_manifest(hash) {
                SignalAction::Reload
            } else {
                SignalAction::RetryFailedReload
            },
        }
    }
}

// ---------------------------------------------------------------------------
// Stable reads

/// Where a stable read is.
pub enum StableRead {
    /// Waiting until no more changes come.
    Quiet,
    /// About to read.
    First,
    /// Read once; waiting whether a change comes.
    Settling(Result<String, String>),
    /// About to read again.
    Second(Result<String, String>),
}

/// What happened: a change, none for the waited time, the end of the watcher, or a
/// read with the key of what it found or why it failed.
pub enum StableEvent {
    Signal,
    Timeout,
    Disconnected,
    Read { found: Result<String, String>, expired: bool },
}

/// What to do next.
pub enum StableAction {
    AwaitQuiet,
    AwaitStability,
    Read,
    /// The second read is taken.
    Accept,
    /// The watcher is gone.
    Stop,
    Fail(String),
}

/// What a read found, or why it failed.
pub open spec fn found(read: Result<String, String>) -> Result<Seq<char>, Seq<char>> {
    match read {
        Ok(key) => Ok(key@),
        Err(reason) => Err(reason@),
    }
}

/// What is to be done, and where the read is after it.
pub open spec fn stable_step(state: StableRead, event: StableEvent) -> (StableRead, StableAction) {
    match (state, event) {
        (_, StableEvent::Disconnected) => (StableRead::Quiet, StableAction::Stop),
        (StableRead::Quiet, StableEvent::Timeout) => (StableRead::First, StableAction::Read),
        (StableRead::First, StableEvent::Read { found: first, expired: _ }) => (
            StableRead::Settling(first),
            StableAction::AwaitStability,
        ),
        (StableRead::Settling(first), StableEvent::Timeout) => (StableRead::Second(first), StableAction::Read),
        (StableRead::Second(first), StableEvent::Read { found: second, expired }) => match (found(first), found(second)) {
            (Ok(a), Ok(b)) if a == b => (StableRead::Quiet, StableAction::Accept),
            (Err(a), Err(b)) if a == b && expired => (StableRead::Quiet, StableAction::Fail(second->Err_0)),
            _ => (StableRead::First, StableAction::Read),
        },
        _ => (StableRead::Quiet, StableAction::AwaitQuiet),
    }
}

/// One step of a read that is taken only when it is stable: two reads find the same
/// and no change comes between them. A change starts over; reads that keep failing
/// alike until the time is up fail.
pub fn coalesce_stable_read(state: StableRead, event: StableEvent) -> (next: (StableRead, StableAction))
    ensures
        next == stable_step(state, event),
{
    match (state, event) {
        (_, StableEvent::Disconnected) => (StableRead::Quiet, StableAction::Stop),
        (StableRead::Quiet, StableEvent::Timeout) => (StableRead::First, StableAction::Read),
        (StableRead::First, StableEvent::Read { found: first, expired: _ }) => (
            StableRead::Settling(first),
            StableAction::AwaitStability,
        ),
        (StableRead::Settling(first), StableEvent::Timeout) => (StableRead::Second(first), StableAction::Read),
        (StableRead::Second(first), StableEvent::Read { found: second, expired }) => match (first, second) {
            (Ok(a), Ok(b)) => if a.as_str().eq(b.as_str()) {
                (StableRead::Quiet, StableAction::Accept)
            } else {
                (StableRead::First, StableAction::Read)
            },
            (Err(a), Err(b)) => if a.as_str().eq(b.as_str()) && expired {
                (StableRead::Quiet, StableAction::Fail(b))
            } else {
                (StableRead::First, StableAction::Read)
            },
            _ => (StableRead::First, StableAction::Read),
        },
        _ => (StableRead::Quiet, StableAction::AwaitQuiet),
    }
}

/// What is taken was read twice in a row, with no change between the two reads.
pub proof fn law_accepted_reads_are_stable(
    start: StableRead,
    first: StableEvent,
    between: StableEvent,
    second: StableEvent,
)
    requires
        ({
            let settled = stable_step(start, first).0;
            let again = stable_step(settled, between).0;
            stable_step(again, second).1 is Accept
        }),
    ensures
        between is Timeout,
        first matches StableEvent::Read { found: before, expired: _ } && (second matches StableEvent::Read {
            found: after,
            expired: _,
        } && found(before) is Ok && found(before) == found(after)),
{
}

// ---------------------------------------------------------------------------
// Project source

/// The realization of the mapped source, as it was read.
pub struct ProjectSourceCandidate {
    pub snapshot: Snapshot,
    pub routes: Vec<Vec<String>>,
    pub watch_roots: Vec<String>,
}

/// What a change of the source comes to.
pub struct SourceTransaction {
    pub changes: Changes,
    pub mapped_refs: HashSet<u128>,
    pub mapped_roots: Vec<Ref>,
    pub routing_refs: HashSet<u128>,
    pub contract: ManagedHierarchyContract,
}

/// Why a change of the source is not applied.
#[derive(Debug)]
pub enum SourceError {
    Hierarchy(TreeError),
    OwnershipRoute(RouteError),
    EngineRoute(RouteError),
    ManagedHierarchy(ManagedError),
}

impl SourceError {
    pub open spec fn text(self) -> Seq<char> {
        match self {
            SourceError::Hierarchy(error) => "Project source has an invalid hierarchy: "@ + error.text(),
            SourceError::OwnershipRoute(error) => "Project source has an invalid ownership route: "@ + error.text(),
            SourceError::EngineRoute(error) => "Project source has an invalid engine route: "@ + error.text(),
            SourceError::ManagedHierarchy(error) =>
                "Could not preflight the managed hierarchy after source change: "@ + error.text(),
        }
    }

    pub fn message(&self) -> (message: String)
        ensures
            message@ == self.text(),
    {
        match self {
            SourceError::Hierarchy(error) => joined(
                "Project source has an invalid hierarchy: ",
                error.message().as_str(),
            ),
            SourceError::OwnershipRoute(error) => joined(
                "Project source has an invalid ownership route: ",
                error.message().as_str(),
            ),
            SourceError::EngineRoute(error) => joined(
                "Project source has an invalid engine route: ",
                error.message().as_str(),
            ),
            SourceError::ManagedHierarchy(error) => joined(
                "Could not preflight the managed hierarchy after source change: ",
                error.message().as_str(),
            ),
        }
    }
}

/// What becomes of a candidate.
pub enum SourceDecision {
    /// The watched directories changed: a reload is due.
    WatchRootsChanged,
    Unchanged,
    Invalid(SourceError),
    Apply(SourceTransaction),
}

/// What turns the realized hierarchy into the candidate.
pub open spec fn candidate_changes(
    reflection: Reflection,
    frames: SameFrames,
    previous: NodeView,
    candidate: NodeView,
) -> ChangesView {
    difference(reflection, frames, previous, candidate)
}

/// The instances that mapped roots hang below.
pub open spec fn routing_set(tree: TreeView, roots: Seq<Ref>) -> Set<Ref> {
    Set::new(|id: Ref| on_the_way(tree, roots, id))
}

/// Why the managed hierarchy of a tree cannot be encoded.
pub open spec fn unmanageable(
    tree: TreeView,
    reflection: Reflection,
    mapped: Set<Ref>,
    routing: Set<Ref>,
    error: ManagedError,
) -> bool {
    if tree.nodes[tree.root].class != "DataModel"@ {
        error == ManagedError::RootNotDataModel
    } else if exists|id: Ref| #[trigger] mapped.contains(id) && !tree.has(id) {
        error matches ManagedError::MappedMissing(id) && mapped.contains(id) && !tree.has(id)
    } else if exists|id: Ref| #[trigger] routing.contains(id) && !tree.has(id) {
        error matches ManagedError::InstanceMissing(id) && routing.contains(id) && !tree.has(id)
    } else {
        contract_of(tree, Some(project_selection(tree, reflection, mapped, routing))) == Err::<
            crate::managed_hierarchy::ContractView,
            ManagedError,
        >(error)
    }
}

/// A transaction is what the candidate comes to: what its routes lead to, what
/// those hang below, and the hierarchy that is managed then.
pub open spec fn transaction_of(
    tree: TreeView,
    reflection: Reflection,
    routes: Seq<Seq<Seq<char>>>,
    transaction: SourceTransaction,
) -> bool {
    &&& routes_led(snapshot_of(tree, tree.root), routes) matches Ok(led)
    &&& transaction.mapped_refs@ == led.refs
    &&& transaction.mapped_roots@ == led.roots
    &&& transaction.routing_refs@ == routing_set(tree, led.roots)
    &&& tree.nodes[tree.root].class == "DataModel"@
    &&& contract_of(
        tree,
        Some(project_selection(tree, reflection, transaction.mapped_refs@, transaction.routing_refs@)),
    ) matches Ok(contract)
    &&& transaction.contract@ == contract
    &&& is_contract_id(transaction.contract.contract_id@)
}

/// Finds what routes lead to in a tree: the instances at and below their ends, and
/// the ends in order.
pub fn refs_for_routes(tree: &Tree, routes: &Vec<Vec<String>>) -> (led: Result<(HashSet<u128>, Vec<Ref>), RouteError>)
    requires
        tree.wf(),
    ensures
        match routes_led(snapshot_of(tree@, tree@.root), routes_view(routes@)) {
            Ok(expected) => led matches Ok((refs, roots)) && refs@ == expected.refs && roots@ == expected.roots,
            Err(text) => led matches Err(error) && error.text() == text,
        },
{
    let root: Ref = tree.root_ref();
    let whole: Snapshot = tree.snapshot(root);
    match snapshot_refs_for_routes(&whole, routes) {
        Ok((refs, roots, _)) => Ok((refs, roots)),
        Err(error) => Err(error),
    }
}

fn is_unchanged(changes: &Changes) -> (unchanged: bool)
    ensures
        unchanged == (changes@.additions.len() == 0 && changes@.updates.len() == 0 && changes@.removals.len() == 0),
{
    changes.is_empty()
}

/// How a candidate that changes something is decided on, where its place is this one.
pub open spec fn settles(
    whole: NodeView,
    changes: ChangesView,
    routes: Seq<Seq<Seq<char>>>,
    reflection: Reflection,
    decision: SourceDecision,
) -> bool {
    let tree = tree_of(whole);
    match decision {
        SourceDecision::Apply(transaction) => transaction.changes@ == changes && transaction_of(
            tree,
            reflection,
            routes,
            transaction,
        ),
        SourceDecision::Invalid(error) => match error {
            SourceError::Hierarchy(error) => builds(
                whole,
                Err::<Tree, TreeError>(error),
            ),
            SourceError::OwnershipRoute(error) => routes_led(
                snapshot_of(tree, tree.root),
                routes,
            ) == Err::<RouteRefs, Seq<char>>(error.text()),
            SourceError::EngineRoute(error) => routes_led(
                snapshot_of(tree, tree.root),
                routes,
            ) matches Ok(led) && exists|k: int| 0 <= k < led.roots.len() && !tree.has(#[trigger] led.roots[k]),
            SourceError::ManagedHierarchy(error) => routes_led(
                snapshot_of(tree, tree.root),
                routes,
            ) matches Ok(led) && unmanageable(
                tree,
                reflection,
                led.refs,
                routing_set(tree, led.roots),
                error,
            ),
        },
        _ => false,
    }
}

/// Decides on a candidate before anything is written. Identities that its place lacks are
/// drawn at random.
pub fn decide_project_source(
    policy: &LivePolicy,
    previous: &Snapshot,
    candidate: &ProjectSourceCandidate,
    reflection: &Reflection,
    frames: &SameFrames,
) -> (decision: SourceDecision)
    ensures
        ({
            let node = candidate.snapshot.node();
            let changes = candidate_changes(*reflection, *frames, previous.node(), node);
            let routes = routes_view(candidate.routes@);
            if texts(candidate.watch_roots@) != texts(policy.mapped_watch_roots@) {
                decision is WatchRootsChanged
            } else if changes.additions.len() == 0 && changes.updates.len() == 0 && changes.removals.len() == 0 {
                decision is Unchanged
            } else {
                &&& exists|whole: NodeView| #[trigger]
                    filled(node, whole) && settles(whole, changes, routes, *reflection, decision)
                &&& identified(node) ==> settles(node, changes, routes, *reflection, decision)
            }
        }),
{
    if !same_texts(&candidate.watch_roots, &policy.mapped_watch_roots) {
        return SourceDecision::WatchRootsChanged;
    }
    let changes: Changes = diff_snapshots(reflection, frames, previous, &candidate.snapshot);
    if is_unchanged(&changes) {
        return SourceDecision::Unchanged;
    }
    let copy: Snapshot = candidate.snapshot.clone();
    let built: Result<Tree, TreeError> = Tree::new(copy);
    let ghost node = candidate.snapshot.node();
    let ghost whole = choose|whole: NodeView| #[trigger] filled(node, whole) && builds(whole, built);
    proof {
        if identified(node) {
            lemma_filled(node, whole);
        }
    }
    let tree: Tree = match built {
        Ok(tree) => tree,
        Err(error) => {
            return SourceDecision::Invalid(SourceError::Hierarchy(error));
        },
    };
    let (mapped_refs, mapped_roots) = match refs_for_routes(&tree, &candidate.routes) {
        Ok(led) => led,
        Err(error) => {
            return SourceDecision::Invalid(SourceError::OwnershipRoute(error));
        },
    };
    let routing: HashSet<u128> = match routing_refs(&tree, &mapped_roots) {
        Ok(routing) => routing,
        Err(error) => {
            return SourceDecision::Invalid(SourceError::EngineRoute(error));
        },
    };
    proof {
        assert(routing@ =~= routing_set(tree@, mapped_roots@));
    }
    match encode_project_managed_hierarchy(&tree, reflection, &mapped_refs, &routing) {
        Ok(contract) => SourceDecision::Apply(
            SourceTransaction { changes, mapped_refs, mapped_roots, routing_refs: routing, contract },
        ),
        Err(error) => {
            SourceDecision::Invalid(SourceError::ManagedHierarchy(error))
        },
    }
}

/// Takes over a transaction that is committed: the policy knows what is mapped now,
/// what was given up stays retired unless it is mapped again, and the managed
/// hierarchy is the new one.
pub fn install_source_transaction(
    policy: &mut LivePolicy,
    hierarchy: &mut ManagedHierarchyState,
    transaction: SourceTransaction,
    watch_roots: Vec<String>,
)
    ensures
        final(policy).project_path == old(policy).project_path,
        final(policy).project_document == old(policy).project_document,
        final(policy).composite_manifest == old(policy).composite_manifest,
        final(policy).retired_mapped_refs@ == old(policy).retired_mapped_refs@.union(
            old(policy).mapped_refs@,
        ).union(transaction.changes.removals@.to_set()).difference(transaction.mapped_refs@),
        final(policy).mapped_refs@ == transaction.mapped_refs@,
        final(policy).mapped_roots@ == transaction.mapped_roots@,
        final(policy).mapped_watch_roots@ == watch_roots@,
        final(policy).routing_refs@ == transaction.routing_refs@,
        final(hierarchy).current == transaction.contract,
        final(hierarchy).authorized_ids@ == old(hierarchy).authorized_ids@.union(transaction.contract.source_ids@),
{
    let ghost earlier = policy.retired_mapped_refs@;
    let mut retired: HashSet<u128> = retired_source_refs(
        &policy.mapped_refs,
        &transaction.mapped_refs,
        &transaction.changes.removals,
    );
    let ghost fresh = retired@;
    let members: Vec<Ref> = set_members(&policy.retired_mapped_refs);
    let mut at: usize = 0;
    proof {
        assert(members@.take(0).to_set() =~= Set::empty());
        assert(retired@ =~= fresh.union(members@.take(0).to_set().difference(transaction.mapped_refs@)));
    }
    while at < members.len()
        invariant
            at <= members@.len(),
            retired@ == fresh.union(members@.take(at as int).to_set().difference(transaction.mapped_refs@)),
        decreases members@.len() - at,
    {
        if !transaction.mapped_refs.contains(&members[at]) {
            retired.insert(members[at]);
        }
        proof {
            crate::hierarchy::lemma_taken_set(members@, at as int);
            assert(retired@ =~= fresh.union(members@.take(at + 1).to_set().difference(transaction.mapped_refs@)));
        }
        at = at + 1;
    }
    proof {
        assert(members@.take(members@.len() as int) =~= members@);
        assert(retired@ =~= earlier.union(old(policy).mapped_refs@).union(
            transaction.changes.removals@.to_set(),
        ).difference(transaction.mapped_refs@));
    }
    policy.retired_mapped_refs = retired;
    policy.mapped_refs = transaction.mapped_refs;
    policy.mapped_roots = transaction.mapped_roots;
    policy.mapped_watch_roots = watch_roots;
    policy.routing_refs = transaction.routing_refs;
    install_managed_hierarchy_contract(hierarchy, transaction.contract);
}

/// How a round of the watcher ended.
#[derive(Debug, Clone, Copy, PartialEq, Eq, Structural)]
pub enum SourceOutcome {
    /// The candidate is what is realized.
    Unchanged,
    /// The change is committed and Studio has it.
    Delivered,
    /// The change is not applied or Studio does not have it.
    Kept,
}

/// The watcher of the project source.
#[derive(Debug)]
pub struct ProjectWatch {
    /// Something changed that is not realized yet.
    pub source_sync_pending: bool,
}

impl ProjectWatch {
    pub fn new() -> (watch: ProjectWatch)
        ensures
            !watch.source_sync_pending,
    {
        ProjectWatch { source_sync_pending: false }
    }

    /// Begins a round, with or without a change; the result says whether the source
    /// is to be read.
    pub fn observe(&mut self, changed: bool) -> (read: bool)
        ensures
            final(self).source_sync_pending == (old(self).source_sync_pending || changed),
            read == final(self).source_sync_pending,
    {
        self.source_sync_pending = self.source_sync_pending || changed;
        self.source_sync_pending
    }

    /// Ends a round in which the source was read. What was not realized stays
    /// pending; the result says whether the project document is to be judged now.
    pub fn conclude(&mut self, outcome: SourceOutcome) -> (judge: bool)
        ensures
            judge == (outcome != SourceOutcome::Kept),
            final(self).source_sync_pending == (old(self).source_sync_pending && outcome == SourceOutcome::Kept),
    {
        match outcome {
            SourceOutcome::Kept => false,
            _ => {
                self.source_sync_pending = false;
                true
            },
        }
    }
}

} // verus!
