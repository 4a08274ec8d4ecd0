//! Scripts on disk: which of them changed, and what Studio is told of it.

use crate::place_values::utf8_text;
use crate::snapshot::{Changes, ChangesView, UpdateView, UpdatedSnapshot};
use crate::text::{joined, same_bytes};
use crate::text_map::{lemma_listed_keys, ordered_keys, TextMap};
use crate::variant::{Properties, Variant, VariantView};
use crate::Ref;
use vstd::prelude::*;
use vstd::utf8::{decode_utf8, valid_utf8};

verus! {

/// The canonical source at some time: its generation, and the scripts by path.
pub struct CanonicalSourceSnapshot {
    pub generation: String,
    pub scripts: TextMap<Vec<u8>>,
}

/// The canonical source and what Studio is told of it.
pub struct ScriptSourceCandidate {
    pub snapshot: CanonicalSourceSnapshot,
    pub changes: Changes,
}

/// Why changed scripts cannot be told.
#[derive(Debug)]
pub enum ScriptSourceError {
    /// Scripts came or went.
    Topology,
    /// A script without an instance.
    TopologyAt(String),
    NotUtf8(String),
}

impl ScriptSourceError {
    pub open spec fn text(self) -> Seq<char> {
        match self {
            ScriptSourceError::Topology => "Source topology changed outside Carbon; recapture the place"@,
            ScriptSourceError::TopologyAt(path) => "Source topology changed outside Carbon at "@ + path@
                + "; recapture the place"@,
            ScriptSourceError::NotUtf8(path) => "Script source is not valid UTF-8: "@ + path@,
        }
    }

    pub fn message(&self) -> (message: String)
        ensures
            message@ == self.text(),
    {
        match self {
            ScriptSourceError::Topology => "Source topology changed outside Carbon; recapture the place".to_owned(),
            ScriptSourceError::TopologyAt(path) => joined(
                joined("Source topology changed outside Carbon at ", path.as_str()).as_str(),
                "; recapture the place",
            ),
            ScriptSourceError::NotUtf8(path) => joined("Script source is not valid UTF-8: ", path.as_str()),
        }
    }
}

/// The update that gives a script its source.
pub open spec fn source_update(id: Ref, source: Seq<char>) -> UpdateView {
    UpdateView {
        id,
        parent: None,
        name: None,
        raw_name: None,
        class: None,
        properties: Some(Map::empty().insert("Source"@, VariantView::String(source))),
        removed_properties: Seq::empty(),
    }
}

/// The updates for the scripts whose bytes changed, in the order of their paths, or
/// why one of them cannot be told.
pub open spec fn script_updates(
    keys: Seq<Seq<char>>,
    current: Map<Seq<char>, Vec<u8>>,
    previous: Map<Seq<char>, Vec<u8>>,
    sources: Map<Seq<char>, Ref>,
) -> Result<Seq<UpdateView>, Seq<char>>
    decreases keys.len(),
{
    if keys.len() == 0 {
        Ok(Seq::empty())
    } else {
        let path = keys.last();
        match script_updates(keys.drop_last(), current, previous, sources) {
            Err(text) => Err(text),
            Ok(before) => if previous.dom().contains(path) && previous[path]@ == current[path]@ {
                Ok(before)
            } else if !sources.dom().contains(path) {
                Err("Source topology changed outside Carbon at "@ + path + "; recapture the place"@)
            } else if !valid_utf8(current[path]@) {
                Err("Script source is not valid UTF-8: "@ + path)
            } else {
                Ok(before.push(source_update(sources[path], decode_utf8(current[path]@))))
            },
        }
    }
}

proof fn lemma_updates_fail(
    keys: Seq<Seq<char>>,
    at: int,
    current: Map<Seq<char>, Vec<u8>>,
    previous: Map<Seq<char>, Vec<u8>>,
    sources: Map<Seq<char>, Ref>,
)
    requires
        0 <= at <= keys.len(),
        script_updates(keys.take(at), current, previous, sources) is Err,
    ensures
        script_updates(keys, current, previous, sources) == script_updates(
            keys.take(at),
            current,
            previous,
            sources,
        ),
    decreases keys.len(),
{
    if at == keys.len() {
        assert(keys.take(at) =~= keys);
    } else {
        assert(keys.drop_last().take(at) =~= keys.take(at));
        lemma_updates_fail(keys.drop_last(), at, current, previous, sources);
    }
}

/// The same scripts are there.
fn same_topology(current: &TextMap<Vec<u8>>, previous: &TextMap<Vec<u8>>) -> (same: bool)
    ensures
        same == (current@.dom() == previous@.dom()),
{
    let len: usize = current.len();
    let earlier: usize = previous.len();
    if len != earlier {
        proof {
            if current@.dom() == previous@.dom() {
                lemma_listed_keys(*current);
                lemma_listed_keys(*previous);
            }
        }
        return false;
    }
    let mut at: usize = 0;
    while at < len
        invariant
            at <= len,
            len == current.keys().len(),
            len == previous.keys().len(),
            current.listed(),
            previous.listed(),
            forall|k: int| 0 <= k < at ==> current.keys()[k] == previous.keys()[k],
        decreases len - at,
    {
        if !current.key_at(at).as_str().eq(previous.key_at(at).as_str()) {
            proof {
                if current@.dom() == previous@.dom() {
                    lemma_listed_keys(*current);
                    lemma_listed_keys(*previous);
                }
            }
            return false;
        }
        at = at + 1;
    }
    proof {
        assert(current.keys() =~= previous.keys());
    }
    true
}

/// What Studio is told of the scripts that changed between two generations.
/// `sources` gives the instance of each script.
#[verifier::loop_isolation(false)]
pub fn script_source_candidate_from_snapshot(
    current: CanonicalSourceSnapshot,
    previous: &CanonicalSourceSnapshot,
    sources: &TextMap<Ref>,
) -> (candidate: Result<ScriptSourceCandidate, ScriptSourceError>)
    ensures
        if current.generation@ == previous.generation@ {
            candidate matches Ok(found) && found.snapshot == current && found.changes@ == (ChangesView {
                additions: Seq::empty(),
                updates: Seq::empty(),
                removals: Seq::empty(),
            })
        } else if current.scripts@.dom() != previous.scripts@.dom() {
            candidate matches Err(error) && error is Topology
        } else {
            match script_updates(
                ordered_keys(current.scripts@.dom()),
                current.scripts@,
                previous.scripts@,
                sources@,
            ) {
                Ok(updates) => candidate matches Ok(found) && found.snapshot == current && found.changes@ == (
                ChangesView { additions: Seq::empty(), updates, removals: Seq::empty() }),
                Err(text) => candidate matches Err(error) && error.text() == text,
            }
        },
{
    let mut changes: Changes = Changes::new();
    if current.generation.as_str().eq(previous.generation.as_str()) {
        return Ok(ScriptSourceCandidate { snapshot: current, changes });
    }
    if !same_topology(&current.scripts, &previous.scripts) {
        return Err(ScriptSourceError::Topology);
    }
    let len: usize = current.scripts.len();
    let ghost keys = current.scripts.keys();
    proof {
        lemma_listed_keys(current.scripts);
        assert(keys.take(0) =~= Seq::empty());
    }
    let mut at: usize = 0;
    while at < len
        invariant
            at <= len,
            changes@.additions == Seq::<crate::snapshot::AdditionView>::empty(),
            changes@.removals == Seq::<Ref>::empty(),
            script_updates(keys.take(at as int), current.scripts@, previous.scripts@, sources@) == Ok::<
                Seq<UpdateView>,
                Seq<char>,
            >(changes@.updates),
        decreases len - at,
    {
        let path: &String = current.scripts.key_at(at);
        let bytes: &Vec<u8> = current.scripts.value_at(at);
        proof {
            assert(keys.take(at + 1).drop_last() =~= keys.take(at as int));
            assert(keys.take(at + 1).last() == path@);
            assert(keys.take(at + 1).len() == at + 1);
        }
        let kept: bool = match previous.scripts.get(path.as_str()) {
            Some(earlier) => same_bytes(earlier.as_slice(), bytes.as_slice()),
            None => false,
        };
        if !kept {
            let id: Ref = match sources.get(path.as_str()) {
                Some(id) => *id,
                None => {
                    proof {
                        lemma_updates_fail(keys, at + 1, current.scripts@, previous.scripts@, sources@);
                    }
                    return Err(ScriptSourceError::TopologyAt(path.clone()));
                },
            };
            let source: String = match utf8_text(bytes.as_slice()) {
                Some(source) => source.to_owned(),
                None => {
                    proof {
                        lemma_updates_fail(keys, at + 1, current.scripts@, previous.scripts@, sources@);
                    }
                    return Err(ScriptSourceError::NotUtf8(path.clone()));
                },
            };
            let mut properties: Properties = TextMap::new();
            properties.insert("Source".to_owned(), Variant::String(source));
            let mut update: UpdatedSnapshot = UpdatedSnapshot::new(id);
            update.properties = Some(properties);
            proof {
                assert(properties.deep() =~= Map::empty().insert("Source"@, VariantView::String(source@)));
                assert(update@ =~= source_update(id, source@));
            }
            changes.update(update);
        }
        at = at + 1;
    }
    proof {
        assert(keys.take(len as int) =~= keys);
    }
    Ok(ScriptSourceCandidate { snapshot: current, changes })
}

/// What the script watcher does with a candidate.
#[derive(Debug, Clone, Copy, PartialEq, Eq, Structural)]
pub enum ScriptStep {
    /// Nothing is new.
    Ignore,
    /// Only the generation is new: it becomes the baseline.
    Advance,
    /// Scripts changed: Studio is told, and the generation becomes the baseline if
    /// it was.
    Tell,
}

/// Decides on a candidate of the script watcher. A delayed signal after a change
/// of other source data only advances the baseline.
pub fn script_step(candidate: &ScriptSourceCandidate, previous_generation: &str) -> (step: ScriptStep)
    ensures
        step == (if candidate.snapshot.generation@ == previous_generation@ {
            ScriptStep::Ignore
        } else if candidate.changes@.additions.len() == 0 && candidate.changes@.updates.len() == 0
            && candidate.changes@.removals.len() == 0 {
            ScriptStep::Advance
        } else {
            ScriptStep::Tell
        }),
{
    if candidate.snapshot.generation.as_str().eq(previous_generation) {
        ScriptStep::Ignore
    } else if candidate.changes.is_empty() {
        ScriptStep::Advance
    } else {
        ScriptStep::Tell
    }
}

} // verus!
