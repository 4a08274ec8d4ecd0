//! Building a place: what of mapped source a build is known by, and the order in which a
//! build looks at the cache, compiles and stores.

use crate::build_cache::{script_views, MappedScriptSource};
use crate::extraction::{script_source, source_text};
use crate::hashing::{blake3_digest, blake3_hash, digest_chars, digest_text};
use crate::names::{is_script_class, script_like};
use crate::snapshot::{copy_raw, lemma_children, nodes, NodeView, Snapshot};
use crate::source_metadata::{refused, SourceError};
use crate::text::{copy_bytes, optional_text, text_bytes};
use crate::variant::Properties;
use crate::Ref;
use vstd::prelude::*;
use vstd::string::StringSliceAdditionalSpecFns;

verus! {

// ---------------------------------------------------------------------------
// Mapped source

/// A hierarchy without the sources of its scripts.
pub open spec fn structure_of(node: NodeView) -> NodeView
    decreases node,
{
    NodeView {
        id: node.id,
        name: node.name,
        raw_name: node.raw_name,
        class: node.class,
        properties: if script_like(node.class) {
            node.properties.remove("Source"@)
        } else {
            node.properties
        },
        children: structures_of(node.children),
    }
}

pub open spec fn structures_of(list: Seq<NodeView>) -> Seq<NodeView>
    decreases list,
{
    if list.len() == 0 {
        Seq::empty()
    } else {
        structures_of(list.drop_last()).push(structure_of(list.last()))
    }
}

/// The scripts of a hierarchy, each before those below it, or why one has no source.
pub open spec fn scripts_of(node: NodeView) -> Result<Seq<(Ref, Seq<u8>)>, Seq<char>>
    decreases node,
{
    let own = if script_like(node.class) {
        match source_text(node) {
            Ok(source) => Ok(seq![(node.id, text_bytes(source))]),
            Err(text) => Err(text),
        }
    } else {
        Ok(Seq::empty())
    };
    match own {
        Err(text) => Err(text),
        Ok(own) => match scripts_in(node.children) {
            Err(text) => Err(text),
            Ok(below) => Ok(own + below),
        },
    }
}

pub open spec fn scripts_in(list: Seq<NodeView>) -> Result<Seq<(Ref, Seq<u8>)>, Seq<char>>
    decreases list,
{
    if list.len() == 0 {
        Ok(Seq::empty())
    } else {
        match scripts_in(list.drop_last()) {
            Err(text) => Err(text),
            Ok(before) => match scripts_of(list.last()) {
                Err(text) => Err(text),
                Ok(last) => Ok(before + last),
            },
        }
    }
}

proof fn lemma_scripts_fail(list: Seq<NodeView>, at: int)
    requires
        0 <= at <= list.len(),
        scripts_in(list.take(at)) is Err,
    ensures
        scripts_in(list) == scripts_in(list.take(at)),
    decreases list.len() - at,
{
    if at == list.len() {
        assert(list.take(at) =~= list);
    } else {
        assert(list.take(at + 1).drop_last() =~= list.take(at));
        lemma_scripts_fail(list, at + 1);
    }
}

/// Takes the sources out of the scripts of a hierarchy.
pub fn collect_scripts(snapshot: &Snapshot, scripts: &mut Vec<MappedScriptSource>) -> (structure: Result<
    Snapshot,
    SourceError,
>)
    ensures
        match scripts_of(snapshot.node()) {
            Ok(expected) => structure matches Ok(structure) && structure.node() == structure_of(snapshot.node())
                && script_views(final(scripts)@) == script_views(old(scripts)@) + expected,
            Err(text) => structure matches Err(error) && error.message@ == text,
        },
    decreases snapshot,
{
    let ghost given = script_views(scripts@);
    proof {
        lemma_children(*snapshot);
    }
    let mut properties: Properties = snapshot.properties.copy();
    if is_script_class(snapshot.class.as_str()) {
        match script_source(snapshot) {
            Ok(source) => {
                scripts.push(
                    MappedScriptSource { id: snapshot.id, source: copy_bytes(source.as_str().as_bytes()) },
                );
                proof {
                    assert(script_views(scripts@) =~= given.push((snapshot.id, text_bytes(source@))));
                }
            },
            Err(error) => {
                return Err(error);
            },
        }
        let ghost before = properties.deep();
        let _ = properties.remove("Source");
        proof {
            assert(properties.deep() =~= before.remove("Source"@));
        }
    }
    let ghost own = if script_like(snapshot.class@) {
        seq![(snapshot.id, text_bytes(source_text(snapshot.node())->Ok_0))]
    } else {
        Seq::empty()
    };
    let ghost list = snapshot.node().children;
    let mut children: Vec<Snapshot> = Vec::new();
    let mut at: usize = 0;
    proof {
        assert(script_views(scripts@) =~= given + own);
        assert(list.take(0) =~= Seq::empty());
        assert(given + own + Seq::<(Ref, Seq<u8>)>::empty() =~= given + own);
        assert(nodes(children@) =~= Seq::empty());
    }
    while at < snapshot.children.len()
        invariant
            at <= snapshot.children@.len(),
            list == nodes(snapshot.children@),
            list == snapshot.node().children,
            scripts_in(list.take(at as int)) is Ok,
            script_views(scripts@) == given + own + scripts_in(list.take(at as int))->Ok_0,
            nodes(children@) == structures_of(list.take(at as int)),
            script_like(snapshot.class@) ==> source_text(snapshot.node()) is Ok,
        decreases snapshot.children@.len() - at,
    {
        let ghost before = scripts_in(list.take(at as int))->Ok_0;
        let ghost built = nodes(children@);
        proof {
            assert(list.take(at + 1).drop_last() =~= list.take(at as int));
            assert(list.take(at + 1).last() == snapshot.children@[at as int].node());
        }
        match collect_scripts(&snapshot.children[at], scripts) {
            Ok(child) => {
                children.push(child);
                proof {
                    assert(nodes(children@) =~= built.push(child.node()));
                    assert(script_views(scripts@) =~= given + own + (before + scripts_of(
                        snapshot.children@[at as int].node(),
                    )->Ok_0));
                }
            },
            Err(error) => {
                proof {
                    lemma_scripts_fail(list, at + 1);
                }
                return Err(error);
            },
        }
        at = at + 1;
    }
    let structure: Snapshot = Snapshot {
        id: snapshot.id,
        name: snapshot.name.clone(),
        raw_name: copy_raw(&snapshot.raw_name),
        class: snapshot.class.clone(),
        properties,
        children,
    };
    proof {
        lemma_children(structure);
        assert(list.take(list.len() as int) =~= list);
        assert(structure.node() =~= structure_of(snapshot.node()));
        assert(script_views(scripts@) =~= given + scripts_of(snapshot.node())->Ok_0);
    }
    Ok(structure)
}

/// Two hierarchies that differ in the sources of their scripts alone have the same
/// structure.
pub proof fn law_structure_forgets_sources(node: NodeView, source: crate::variant::VariantView)
    requires
        script_like(node.class),
    ensures
        structure_of((NodeView { properties: node.properties.insert("Source"@, source), ..node })) == structure_of(node),
{
    assert(node.properties.insert("Source"@, source).remove("Source"@) =~= node.properties.remove("Source"@));
}

/// What mapped source is known by: the digest of how it is written.
pub fn source_generation(encoded: &[u8]) -> (generation: String)
    ensures
        generation@ == digest_chars(blake3_hash(encoded@)),
{
    digest_text(blake3_digest(encoded))
}

// ---------------------------------------------------------------------------
// The order of a build

/// What a build waits for.
#[derive(Clone, Copy, Debug, PartialEq, Eq, Structural)]
pub enum CompileStage {
    Cached,
    CachedRename,
    Layer,
    LayerRename,
    Direct,
    DirectKey,
    Tree,
    TreeSource,
    TreeKey,
    Finished,
}

/// A build that is under way: whether the project maps anything, whether the place is
/// for a managed session, what the build is known by and what its mapped source is known
/// by.
#[derive(Debug)]
pub struct CompileRun {
    pub hybrid: bool,
    pub worktree: bool,
    pub key: String,
    pub source: Option<String>,
    pub stage: CompileStage,
}

#[verifier::ext_equal]
pub struct CompileView {
    pub hybrid: bool,
    pub worktree: bool,
    pub key: Seq<char>,
    pub source: Option<Seq<char>>,
    pub stage: CompileStage,
}

impl View for CompileRun {
    type V = CompileView;

    open spec fn view(&self) -> CompileView {
        CompileView {
            hybrid: self.hybrid,
            worktree: self.worktree,
            key: self.key@,
            source: optional_text(self.source),
            stage: self.stage,
        }
    }
}

/// What happened.
#[derive(Debug)]
pub enum CompileEvent {
    /// A cached build was staged, or not; its session was written into it, or not; what
    /// the build is known by now.
    Staged { found: bool, ready: bool, key: Option<String> },
    /// What was staged took the place of the output, or not.
    Renamed(bool),
    /// The place was compiled into the output, or not.
    Compiled(bool),
    /// What the mapped source is known by now.
    Source(Option<String>),
    /// What the build is known by now.
    Key(Option<String>),
}

/// What is to be done. Whatever was staged and is not renamed is removed.
#[derive(Debug)]
pub enum CompileAction {
    StageCached,
    StageLayer,
    Rename,
    CompileDirect,
    CompileTree,
    ReadSource,
    ReadKey,
    /// The output stands. The build is stored under a key, or not; the layer that its
    /// scripts are patched into is stored, or not.
    Return { store: Option<String>, store_layer: bool },
    /// The compilation failed.
    Fail,
    /// Nothing was waited for.
    Nothing,
}

#[verifier::ext_equal]
pub enum CompileActionView {
    StageCached,
    StageLayer,
    Rename,
    CompileDirect,
    CompileTree,
    ReadSource,
    ReadKey,
    Return { store: Option<Seq<char>>, store_layer: bool },
    Fail,
    Nothing,
}

impl View for CompileAction {
    type V = CompileActionView;

    open spec fn view(&self) -> CompileActionView {
        match self {
            CompileAction::StageCached => CompileActionView::StageCached,
            CompileAction::StageLayer => CompileActionView::StageLayer,
            CompileAction::Rename => CompileActionView::Rename,
            CompileAction::CompileDirect => CompileActionView::CompileDirect,
            CompileAction::CompileTree => CompileActionView::CompileTree,
            CompileAction::ReadSource => CompileActionView::ReadSource,
            CompileAction::ReadKey => CompileActionView::ReadKey,
            CompileAction::Return { store, store_layer } => CompileActionView::Return {
                store: optional_text(*store),
                store_layer: *store_layer,
            },
            CompileAction::Fail => CompileActionView::Fail,
            CompileAction::Nothing => CompileActionView::Nothing,
        }
    }
}

/// What a build does where no cached one stands for it.
pub open spec fn compiles(run: CompileView) -> (CompileStage, CompileActionView) {
    if run.hybrid {
        (CompileStage::Tree, CompileActionView::CompileTree)
    } else {
        (CompileStage::Direct, CompileActionView::CompileDirect)
    }
}

/// What a build does where the cache does not hold it: a build of mapped source that is
/// not for a session looks for one that differs in its scripts alone.
pub open spec fn looks_for_layer(run: CompileView) -> (CompileStage, CompileActionView) {
    if run.hybrid && !run.worktree {
        (CompileStage::Layer, CompileActionView::StageLayer)
    } else {
        compiles(run)
    }
}

/// What a build does next.
pub open spec fn compile_step(run: CompileView, event: CompileEvent) -> (CompileStage, CompileActionView) {
    let ended = |store: Option<Seq<char>>, store_layer: bool|
        (CompileStage::Finished, CompileActionView::Return { store, store_layer });
    match (run.stage, event) {
        (CompileStage::Cached, CompileEvent::Staged { found, ready, key }) => if found && ready && optional_text(key)
            == Some(run.key) {
            (CompileStage::CachedRename, CompileActionView::Rename)
        } else {
            looks_for_layer(run)
        },
        (CompileStage::CachedRename, CompileEvent::Renamed(renamed)) => if renamed {
            ended(None, false)
        } else {
            looks_for_layer(run)
        },
        (CompileStage::Layer, CompileEvent::Staged { found, ready, key }) => if found && optional_text(key) == Some(
            run.key,
        ) {
            (CompileStage::LayerRename, CompileActionView::Rename)
        } else {
            compiles(run)
        },
        (CompileStage::LayerRename, CompileEvent::Renamed(renamed)) => if renamed {
            ended(Some(run.key), false)
        } else {
            compiles(run)
        },
        (CompileStage::Direct, CompileEvent::Compiled(compiled)) => if compiled {
            (CompileStage::DirectKey, CompileActionView::ReadKey)
        } else {
            (CompileStage::Finished, CompileActionView::Fail)
        },
        (CompileStage::DirectKey, CompileEvent::Key(key)) => ended(
            if optional_text(key) == Some(run.key) {
                Some(run.key)
            } else {
                None
            },
            false,
        ),
        (CompileStage::Tree, CompileEvent::Compiled(compiled)) => if compiled {
            (CompileStage::TreeSource, CompileActionView::ReadSource)
        } else {
            (CompileStage::Finished, CompileActionView::Fail)
        },
        (CompileStage::TreeSource, CompileEvent::Source(source)) => if run.source is None || optional_text(source)
            == run.source {
            (CompileStage::TreeKey, CompileActionView::ReadKey)
        } else {
            ended(None, false)
        },
        (CompileStage::TreeKey, CompileEvent::Key(key)) => ended(
            optional_text(key),
            key is Some && run.hybrid && !run.worktree,
        ),
        _ => (run.stage, CompileActionView::Nothing),
    }
}

fn same_key(key: &Option<String>, expected: &String) -> (same: bool)
    ensures
        same == (optional_text(*key) == Some(expected@)),
{
    match key {
        Some(key) => key.as_str().eq(expected.as_str()),
        None => false,
    }
}

impl CompileRun {
    /// A build that begins: it looks for a cached one first.
    pub fn new(hybrid: bool, worktree: bool, key: String, source: Option<String>) -> (begun: (CompileRun, CompileAction))
        ensures
            begun.0@ == (CompileView {
                hybrid,
                worktree,
                key: key@,
                source: optional_text(source),
                stage: CompileStage::Cached,
            }),
            begun.1@ == CompileActionView::StageCached,
    {
        (CompileRun { hybrid, worktree, key, source, stage: CompileStage::Cached }, CompileAction::StageCached)
    }

    fn compile_now(&mut self) -> (action: CompileAction)
        ensures
            final(self)@ == (CompileView { stage: compiles(old(self)@).0, ..old(self)@ }),
            action@ == compiles(old(self)@).1,
    {
        if self.hybrid {
            self.stage = CompileStage::Tree;
            CompileAction::CompileTree
        } else {
            self.stage = CompileStage::Direct;
            CompileAction::CompileDirect
        }
    }

    fn look_for_layer(&mut self) -> (action: CompileAction)
        ensures
            final(self)@ == (CompileView { stage: looks_for_layer(old(self)@).0, ..old(self)@ }),
            action@ == looks_for_layer(old(self)@).1,
    {
        if self.hybrid && !self.worktree {
            self.stage = CompileStage::Layer;
            CompileAction::StageLayer
        } else {
            self.compile_now()
        }
    }

    fn finish(&mut self, store: Option<String>, store_layer: bool) -> (action: CompileAction)
        ensures
            final(self)@ == (CompileView { stage: CompileStage::Finished, ..old(self)@ }),
            action@ == (CompileActionView::Return { store: optional_text(store), store_layer }),
    {
        self.stage = CompileStage::Finished;
        CompileAction::Return { store, store_layer }
    }

    /// Takes a build further.
    pub fn advance(&mut self, event: CompileEvent) -> (action: CompileAction)
        ensures
            final(self)@ == (CompileView { stage: compile_step(old(self)@, event).0, ..old(self)@ }),
            action@ == compile_step(old(self)@, event).1,
    {
        match (self.stage, event) {
            (CompileStage::Cached, CompileEvent::Staged { found, ready, key }) => {
                if found && ready && same_key(&key, &self.key) {
                    self.stage = CompileStage::CachedRename;
                    return CompileAction::Rename;
                }
                self.look_for_layer()
            },
            (CompileStage::CachedRename, CompileEvent::Renamed(renamed)) => {
                if renamed {
                    return self.finish(None, false);
                }
                self.look_for_layer()
            },
            (CompileStage::Layer, CompileEvent::Staged { found, ready: _, key }) => {
                if found && same_key(&key, &self.key) {
                    self.stage = CompileStage::LayerRename;
                    return CompileAction::Rename;
                }
                self.compile_now()
            },
            (CompileStage::LayerRename, CompileEvent::Renamed(renamed)) => {
                if renamed {
                    let key: String = self.key.clone();
                    return self.finish(Some(key), false);
                }
                self.compile_now()
            },
            (CompileStage::Direct, CompileEvent::Compiled(compiled)) => {
                if compiled {
                    self.stage = CompileStage::DirectKey;
                    CompileAction::ReadKey
                } else {
                    self.stage = CompileStage::Finished;
                    CompileAction::Fail
                }
            },
            (CompileStage::DirectKey, CompileEvent::Key(key)) => {
                if same_key(&key, &self.key) {
                    let key: String = self.key.clone();
                    return self.finish(Some(key), false);
                }
                self.finish(None, false)
            },
            (CompileStage::Tree, CompileEvent::Compiled(compiled)) => {
                if compiled {
                    self.stage = CompileStage::TreeSource;
                    CompileAction::ReadSource
                } else {
                    self.stage = CompileStage::Finished;
                    CompileAction::Fail
                }
            },
            (CompileStage::TreeSource, CompileEvent::Source(source)) => {
                let unchanged: bool = match &self.source {
                    Some(expected) => same_key(&source, expected),
                    None => true,
                };
                if unchanged {
                    self.stage = CompileStage::TreeKey;
                    return CompileAction::ReadKey;
                }
                self.finish(None, false)
            },
            (CompileStage::TreeKey, CompileEvent::Key(key)) => {
                let store_layer: bool = key.is_some() && self.hybrid && !self.worktree;
                self.finish(key, store_layer)
            },
            _ => CompileAction::Nothing,
        }
    }
}

/// A cached build takes the place of the output only where the build is still known by
/// what it was known by when it began.
pub proof fn law_cached_outputs_are_current(run: CompileView, event: CompileEvent)
    requires
        compile_step(run, event).1 == CompileActionView::Rename,
    ensures
        event matches CompileEvent::Staged { found, ready, key } && found && optional_text(key) == Some(run.key),
{
}

/// Concludes a build of composed source: where what it was composed in cannot be removed,
/// the build fails.
pub fn conclude_tree_build(compiled: Result<(), String>, cleaned: Result<(), String>) -> (result: Result<(), SourceError>)
    ensures
        match (compiled, cleaned) {
            (Ok(_), Ok(_)) => result is Ok,
            (Ok(_), Err(text)) => result matches Err(error) && error.message@
                == "failed to clean composed source staging: "@ + text@,
            (Err(text), _) => result matches Err(error) && error.message@ == text@,
        },
{
    match compiled {
        Err(text) => Err(refused(text)),
        Ok(_) => match cleaned {
            Ok(_) => Ok(()),
            Err(text) => Err(
                refused(crate::text::joined("failed to clean composed source staging: ", text.as_str())),
            ),
        },
    }
}

} // verus!
