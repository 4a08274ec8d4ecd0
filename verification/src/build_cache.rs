//! The cache of built places: what a build is known by, when a cached one may stand for
//! it, and what a change of scripts alone needs.

use crate::hashing::{blake3_digest, blake3_hash, digest_chars, digest_text, push_text};
use crate::managed_hierarchy::{le_bytes, push_le};
use crate::names::{is_script_class, script_like};
use crate::source_metadata::{refused, SourceError};
use crate::text::{copy_bytes, is_before, joined, optional_text, push_bytes, ref_chars, ref_text, text_before, text_bytes};
use crate::Ref;
use std::collections::{HashMap, HashSet};
use vstd::prelude::*;
use vstd::string::StringSliceAdditionalSpecFns;

verus! {

broadcast use vstd::std_specs::hash::group_hash_axioms;

/// The version of what is cached.
pub const BUILD_CACHE_SCHEMA: u32 = 4;

/// A field of what a build is known by: the length of its name, the name, the length of
/// its value, the value.
pub open spec fn key_field(name: Seq<char>, value: Seq<u8>) -> Seq<u8> {
    le_bytes(text_bytes(name).len(), 8) + text_bytes(name) + le_bytes(value.len(), 8) + value
}

fn hash_build_cache_field(bytes: &mut Vec<u8>, name: &str, value: &[u8])
    ensures
        final(bytes)@ == old(bytes)@ + key_field(name@, value@),
{
    let ghost before = bytes@;
    push_le(bytes, name.as_bytes().len() as u64, 8);
    push_text(bytes, name);
    push_le(bytes, value.len() as u64, 8);
    push_bytes(bytes, value);
    proof {
        assert(bytes@ =~= before + key_field(name@, value@));
    }
}

fn text_field(bytes: &mut Vec<u8>, name: &str, value: &str)
    ensures
        final(bytes)@ == old(bytes)@ + key_field(name@, text_bytes(value@)),
{
    hash_build_cache_field(bytes, name, value.as_bytes());
}

/// What every build is known by: the machine, the place that Studio owns, and the
/// project.
pub struct BuildFacts<'a> {
    pub os: &'a str,
    pub arch: &'a str,
    pub studio: &'a str,
    pub project_name: &'a str,
}

/// The first fields of what a build is known by.
pub open spec fn common_fields(domain: Seq<char>, facts: BuildFacts) -> Seq<u8> {
    text_bytes(domain).push(0u8) + key_field("schema"@, le_bytes(4, 4)) + key_field("os"@, text_bytes(facts.os@))
        + key_field("arch"@, text_bytes(facts.arch@)) + key_field("studio"@, text_bytes(facts.studio@)) + key_field(
        "projectName"@,
        text_bytes(facts.project_name@),
    )
}

fn push_common_fields(bytes: &mut Vec<u8>, domain: &str, facts: &BuildFacts)
    requires
        old(bytes)@.len() == 0,
    ensures
        final(bytes)@ == common_fields(domain@, *facts),
{
    push_text(bytes, domain);
    bytes.push(0u8);
    let mut schema: Vec<u8> = Vec::new();
    push_le(&mut schema, BUILD_CACHE_SCHEMA as u64, 4);
    proof {
        assert(schema@ =~= le_bytes(4, 4));
    }
    hash_build_cache_field(bytes, "schema", schema.as_slice());
    text_field(bytes, "os", facts.os);
    text_field(bytes, "arch", facts.arch);
    text_field(bytes, "studio", facts.studio);
    text_field(bytes, "projectName", facts.project_name);
    proof {
        assert(bytes@ =~= common_fields(domain@, *facts));
    }
}

/// A field for each identity that a managed build leaves out.
pub open spec fn exclusion_fields(exclusions: Seq<Ref>) -> Seq<u8>
    decreases exclusions.len(),
{
    if exclusions.len() == 0 {
        Seq::empty()
    } else {
        exclusion_fields(exclusions.drop_last()) + key_field(
            "identityExclusion"@,
            text_bytes(ref_chars(exclusions.last())),
        )
    }
}

/// What a build is known by. A project that maps nothing has no mapped source; only a
/// managed build leaves identities out.
pub open spec fn cache_key_bytes(facts: BuildFacts, mapped: Option<Seq<char>>, exclusions: Option<Seq<Ref>>) -> Seq<u8> {
    common_fields("carbon-build-cache-v1"@, facts) + key_field(
        "mappedSource"@,
        text_bytes(
            match mapped {
                Some(generation) => generation,
                None => "direct"@,
            },
        ),
    ) + (match exclusions {
        Some(exclusions) => key_field("mode"@, text_bytes("managed"@)) + exclusion_fields(exclusions),
        None => key_field("mode"@, text_bytes("unmanaged"@)),
    })
}

/// What a build is known by. The identities that a managed build leaves out are given in
/// their order.
pub fn build_cache_key(facts: &BuildFacts, mapped: &Option<String>, exclusions: &Option<Vec<Ref>>) -> (key: String)
    ensures
        key@ == digest_chars(
            blake3_hash(
                cache_key_bytes(
                    *facts,
                    optional_text(*mapped),
                    match exclusions {
                        Some(exclusions) => Some(exclusions@),
                        None => None,
                    },
                ),
            ),
        ),
{
    let mut bytes: Vec<u8> = Vec::new();
    push_common_fields(&mut bytes, "carbon-build-cache-v1", facts);
    match mapped {
        Some(generation) => {
            text_field(&mut bytes, "mappedSource", generation.as_str());
        },
        None => {
            text_field(&mut bytes, "mappedSource", "direct");
        },
    }
    let ghost before = bytes@;
    match exclusions {
        Some(exclusions) => {
            text_field(&mut bytes, "mode", "managed");
            let ghost start = bytes@;
            let mut at: usize = 0;
            proof {
                assert(exclusions@.take(0) =~= Seq::empty());
                assert(start + exclusion_fields(exclusions@.take(0)) =~= start);
            }
            while at < exclusions.len()
                invariant
                    at <= exclusions@.len(),
                    bytes@ == start + exclusion_fields(exclusions@.take(at as int)),
                decreases exclusions@.len() - at,
            {
                let ghost listed = exclusion_fields(exclusions@.take(at as int));
                text_field(&mut bytes, "identityExclusion", ref_text(exclusions[at]).as_str());
                proof {
                    assert(exclusions@.take(at + 1).drop_last() =~= exclusions@.take(at as int));
                    assert(bytes@ =~= start + (listed + key_field(
                        "identityExclusion"@,
                        text_bytes(ref_chars(exclusions@[at as int])),
                    )));
                }
                at = at + 1;
            }
            proof {
                assert(exclusions@.take(exclusions@.len() as int) =~= exclusions@);
                assert(bytes@ =~= before + (key_field("mode"@, text_bytes("managed"@)) + exclusion_fields(exclusions@)));
            }
        },
        None => {
            text_field(&mut bytes, "mode", "unmanaged");
        },
    }
    digest_text(blake3_digest(bytes.as_slice()))
}

/// What a build is known by apart from its scripts.
pub open spec fn layer_key_bytes(facts: BuildFacts, structure: Seq<char>) -> Seq<u8> {
    common_fields("carbon-build-layer-v1"@, facts) + key_field("mappedStructure"@, text_bytes(structure)) + key_field(
        "mode"@,
        text_bytes("unmanaged"@),
    )
}

/// What a build is known by apart from its scripts.
pub fn build_layer_key(facts: &BuildFacts, structure: &str) -> (key: String)
    ensures
        key@ == digest_chars(blake3_hash(layer_key_bytes(*facts, structure@))),
{
    let mut bytes: Vec<u8> = Vec::new();
    push_common_fields(&mut bytes, "carbon-build-layer-v1", facts);
    text_field(&mut bytes, "mappedStructure", structure);
    text_field(&mut bytes, "mode", "unmanaged");
    digest_text(blake3_digest(bytes.as_slice()))
}

/// What is known of a cached build.
#[derive(Debug)]
pub struct CachedBuild {
    pub schema: u32,
    pub key: String,
    pub bytes: u64,
    pub hash: String,
}

/// Whether a cached build is the one that is looked for, by what is known of it and by
/// the length and the digest of what is cached.
pub fn is_cached(cached: &CachedBuild, key: &str, bytes: u64, hash: &str) -> (is: bool)
    ensures
        is == (cached.schema == BUILD_CACHE_SCHEMA && cached.key@ == key@ && cached.bytes == bytes && cached.hash@ == hash@),
{
    cached.schema == BUILD_CACHE_SCHEMA && cached.key.as_str().eq(key) && cached.bytes == bytes
        && cached.hash.as_str().eq(hash)
}

/// Checks that a copy is what was copied.
pub fn check_copy(bytes: u64, hash: &str, copied_bytes: u64, copied_hash: &str, change: &str) -> (result: Result<
    (),
    SourceError,
>)
    ensures
        match result {
            Ok(_) => bytes == copied_bytes && hash@ == copied_hash@,
            Err(error) => !(bytes == copied_bytes && hash@ == copied_hash@) && error.message@ == change@,
        },
{
    if bytes == copied_bytes && hash.eq(copied_hash) {
        Ok(())
    } else {
        Err(refused(change.to_owned()))
    }
}

/// A mapped script.
#[derive(Debug)]
pub struct MappedScriptSource {
    pub id: Ref,
    pub source: Vec<u8>,
}

/// Where a mapped script stands in a built place.
#[derive(Debug)]
pub struct CachedScriptPosition {
    pub source_id: String,
    pub class_name: String,
    pub index: u32,
}

/// A script of a built place that gets another source.
#[derive(Debug)]
pub struct ScriptSourcePatch {
    pub class_name: String,
    pub index: u32,
    pub source: Vec<u8>,
}

/// What scripts are.
pub open spec fn script_views(scripts: Seq<MappedScriptSource>) -> Seq<(Ref, Seq<u8>)> {
    scripts.map_values(|script: MappedScriptSource| (script.id, script.source@))
}

/// What positions are.
pub open spec fn position_views(positions: Seq<CachedScriptPosition>) -> Seq<(Seq<char>, Seq<char>, u32)> {
    positions.map_values(
        |position: CachedScriptPosition| (position.source_id@, position.class_name@, position.index),
    )
}

/// What patches are.
pub open spec fn patch_views(patches: Seq<ScriptSourcePatch>) -> Seq<(Seq<char>, u32, Seq<u8>)> {
    patches.map_values(|patch: ScriptSourcePatch| (patch.class_name@, patch.index, patch.source@))
}

/// The identities of scripts.
pub open spec fn script_ids(scripts: Seq<(Ref, Seq<u8>)>) -> Seq<Ref> {
    scripts.map_values(|script: (Ref, Seq<u8>)| script.0)
}

/// The source of the script whose identity is written so; of several, the last.
pub open spec fn source_of(scripts: Seq<(Ref, Seq<u8>)>, id: Seq<char>) -> Option<Seq<u8>>
    decreases scripts.len(),
{
    if scripts.len() == 0 {
        None
    } else if ref_chars(scripts.last().0) == id {
        Some(scripts.last().1)
    } else {
        source_of(scripts.drop_last(), id)
    }
}

/// The patches for positions, if each has its script.
pub open spec fn patches_for(scripts: Seq<(Ref, Seq<u8>)>, positions: Seq<(Seq<char>, Seq<char>, u32)>) -> Option<
    Seq<(Seq<char>, u32, Seq<u8>)>,
>
    decreases positions.len(),
{
    if positions.len() == 0 {
        Some(Seq::empty())
    } else {
        let position = positions.last();
        match (patches_for(scripts, positions.drop_last()), source_of(scripts, position.0)) {
            (Some(before), Some(source)) => Some(before.push((position.1, position.2, source))),
            _ => None,
        }
    }
}

/// What a cached build needs so that it has the scripts of now, if they are as many as
/// it has and each of its own is among them.
pub open spec fn layer_patches(scripts: Seq<(Ref, Seq<u8>)>, positions: Seq<(Seq<char>, Seq<char>, u32)>) -> Option<
    Seq<(Seq<char>, u32, Seq<u8>)>,
> {
    if script_ids(scripts).to_set().len() != positions.len() {
        None
    } else {
        patches_for(scripts, positions)
    }
}

fn find_source<'a>(scripts: &'a Vec<MappedScriptSource>, id: &str) -> (source: Option<&'a Vec<u8>>)
    ensures
        match source_of(script_views(scripts@), id@) {
            Some(expected) => source matches Some(source) && source@ == expected,
            None => source is None,
        },
{
    let ghost views = script_views(scripts@);
    let mut at: usize = scripts.len();
    proof {
        assert(views.take(at as int) =~= views);
    }
    while at > 0
        invariant
            at <= scripts@.len(),
            views == script_views(scripts@),
            source_of(views, id@) == source_of(views.take(at as int), id@),
        decreases at,
    {
        at = at - 1;
        proof {
            assert(views.take(at + 1).drop_last() =~= views.take(at as int));
            assert(views.take(at + 1).last() == (scripts@[at as int].id, scripts@[at as int].source@));
        }
        if ref_text(scripts[at].id).as_str().eq(id) {
            return Some(&scripts[at].source);
        }
    }
    None
}

fn count_ids(scripts: &Vec<MappedScriptSource>) -> (count: usize)
    ensures
        count == script_ids(script_views(scripts@)).to_set().len(),
{
    let ghost ids = script_ids(script_views(scripts@));
    let mut seen: HashSet<u128> = HashSet::new();
    let mut at: usize = 0;
    proof {
        assert(ids.take(0).to_set() =~= Set::empty());
    }
    while at < scripts.len()
        invariant
            at <= scripts@.len(),
            ids == script_ids(script_views(scripts@)),
            seen@ == ids.take(at as int).to_set(),
        decreases scripts@.len() - at,
    {
        seen.insert(scripts[at].id);
        proof {
            assert(ids[at as int] == scripts@[at as int].id);
            assert(ids.take(at + 1) =~= ids.take(at as int).push(ids[at as int]));
            assert(ids.take(at as int).push(ids[at as int]).to_set() =~= ids.take(at as int).to_set().insert(
                ids[at as int],
            )) by {
                assert forall|id: Ref| ids.take(at as int).push(ids[at as int]).to_set().contains(id)
                    == ids.take(at as int).to_set().insert(ids[at as int]).contains(id) by {
                    let before = ids.take(at as int);
                    let after = before.push(ids[at as int]);
                    if before.contains(id) {
                        let k = before.index_of(id);
                        assert(after[k] == id);
                    }
                    if id == ids[at as int] {
                        assert(after[at as int] == id);
                    }
                    if after.contains(id) && id != ids[at as int] {
                        let k = after.index_of(id);
                        assert(before[k] == id);
                    }
                }
            }
        }
        at = at + 1;
    }
    proof {
        assert(ids.take(ids.len() as int) =~= ids);
    }
    seen.len()
}

proof fn lemma_patches_fail(scripts: Seq<(Ref, Seq<u8>)>, positions: Seq<(Seq<char>, Seq<char>, u32)>, at: int)
    requires
        0 <= at <= positions.len(),
        patches_for(scripts, positions.take(at)) is None,
    ensures
        patches_for(scripts, positions) is None,
    decreases positions.len() - at,
{
    if at == positions.len() {
        assert(positions.take(at) =~= positions);
    } else {
        assert(positions.take(at + 1).drop_last() =~= positions.take(at));
        lemma_patches_fail(scripts, positions, at + 1);
    }
}

/// Says what a cached build needs so that it has the scripts of now.
pub fn stage_cached_source_layer(scripts: &Vec<MappedScriptSource>, positions: &Vec<CachedScriptPosition>) -> (patches:
    Option<Vec<ScriptSourcePatch>>)
    ensures
        match layer_patches(script_views(scripts@), position_views(positions@)) {
            Some(expected) => patches matches Some(patches) && patch_views(patches@) == expected,
            None => patches is None,
        },
{
    if count_ids(scripts) != positions.len() {
        return None;
    }
    let ghost views = script_views(scripts@);
    let ghost places = position_views(positions@);
    let mut patches: Vec<ScriptSourcePatch> = Vec::new();
    let mut at: usize = 0;
    proof {
        assert(places.take(0) =~= Seq::empty());
        assert(patch_views(patches@) =~= Seq::empty());
    }
    while at < positions.len()
        invariant
            at <= positions@.len(),
            views == script_views(scripts@),
            places == position_views(positions@),
            script_ids(views).to_set().len() == positions@.len(),
            patches_for(views, places.take(at as int)) == Some(patch_views(patches@)),
        decreases positions@.len() - at,
    {
        let position: &CachedScriptPosition = &positions[at];
        proof {
            assert(places.take(at + 1).drop_last() =~= places.take(at as int));
            assert(places.take(at + 1).last() == (position.source_id@, position.class_name@, position.index));
        }
        match find_source(scripts, position.source_id.as_str()) {
            Some(source) => {
                let ghost before = patches@;
                patches.push(
                    ScriptSourcePatch {
                        class_name: position.class_name.clone(),
                        index: position.index,
                        source: copy_bytes(source.as_slice()),
                    },
                );
                proof {
                    assert(patch_views(patches@) =~= patch_views(before).push(
                        (position.class_name@, position.index, source@),
                    ));
                }
            },
            None => {
                proof {
                    lemma_patches_fail(views, places, at + 1);
                }
                return None;
            },
        }
        at = at + 1;
    }
    proof {
        assert(places.take(places.len() as int) =~= places);
    }
    Some(patches)
}

/// Where an instance stands in a built place.
#[derive(Debug)]
pub struct SerializedInstancePosition {
    pub class_name: String,
    pub index: u32,
}

/// An ordered list of positions with one more, after those that do not come after it.
pub open spec fn with_position(
    list: Seq<(Seq<char>, Seq<char>, u32)>,
    position: (Seq<char>, Seq<char>, u32),
) -> Seq<(Seq<char>, Seq<char>, u32)>
    decreases list.len(),
{
    if list.len() == 0 || !text_before(position.0, list.last().0) {
        list.push(position)
    } else {
        with_position(list.drop_last(), position).push(list.last())
    }
}

/// Where scripts stand in a built place, in the order of their identities, or why they
/// do not.
pub open spec fn positions_of(
    scripts: Seq<(Ref, Seq<u8>)>,
    positions: Map<u128, SerializedInstancePosition>,
) -> Result<Seq<(Seq<char>, Seq<char>, u32)>, Seq<char>>
    decreases scripts.len(),
{
    if scripts.len() == 0 {
        Ok(Seq::empty())
    } else {
        match positions_of(scripts.drop_last(), positions) {
            Err(text) => Err(text),
            Ok(before) => {
                let id = scripts.last().0;
                if !positions.dom().contains(id) {
                    Err("compiled output omitted mapped script "@ + ref_chars(id))
                } else {
                    let position = positions[id];
                    if !script_like(position.class_name@) {
                        Err(
                            "mapped script "@ + ref_chars(id) + " compiled into non-script class "@
                                + position.class_name@,
                        )
                    } else {
                        Ok(with_position(before, (ref_chars(id), position.class_name@, position.index)))
                    }
                }
            },
        }
    }
}

fn insert_position(list: &mut Vec<CachedScriptPosition>, position: CachedScriptPosition)
    ensures
        position_views(final(list)@) == with_position(
            position_views(old(list)@),
            (position.source_id@, position.class_name@, position.index),
        ),
{
    let ghost views = position_views(list@);
    let ghost added = (position.source_id@, position.class_name@, position.index);
    let mut place: usize = list.len();
    proof {
        assert(views.take(place as int) =~= views);
        assert(with_position(views, added) + views.skip(place as int) =~= with_position(views, added));
    }
    let mut searching: bool = true;
    while searching && place > 0
        invariant
            place <= list@.len(),
            views == position_views(list@),
            list@ == old(list)@,
            added == (position.source_id@, position.class_name@, position.index),
            with_position(views, added) == with_position(views.take(place as int), added) + views.skip(place as int),
            !searching ==> place > 0 && !text_before(added.0, views[place - 1].0),
        decreases place + (if searching { 1int } else { 0int }),
    {
        proof {
            assert(views[place - 1].0 == list@[place - 1].source_id@);
        }
        if is_before(position.source_id.as_str(), list[place - 1].source_id.as_str()) {
            proof {
                assert(views.take(place as int).drop_last() =~= views.take(place - 1));
                assert(views.take(place as int).last() == views[place - 1]);
                assert(with_position(views.take(place - 1), added).push(views[place - 1]) + views.skip(place as int)
                    =~= with_position(views.take(place - 1), added) + views.skip(place - 1));
            }
            place = place - 1;
        } else {
            searching = false;
        }
    }
    list.insert(place, position);
    proof {
        assert(with_position(views.take(place as int), added) == views.take(place as int).push(added));
        assert(position_views(list@) =~= views.take(place as int).push(added) + views.skip(place as int));
    }
}

proof fn lemma_positions_fail(
    scripts: Seq<(Ref, Seq<u8>)>,
    positions: Map<u128, SerializedInstancePosition>,
    at: int,
)
    requires
        0 <= at <= scripts.len(),
        positions_of(scripts.take(at), positions) is Err,
    ensures
        positions_of(scripts, positions) == positions_of(scripts.take(at), positions),
    decreases scripts.len() - at,
{
    if at == scripts.len() {
        assert(scripts.take(at) =~= scripts);
    } else {
        assert(scripts.take(at + 1).drop_last() =~= scripts.take(at));
        lemma_positions_fail(scripts, positions, at + 1);
    }
}

/// Finds where mapped scripts stand in a built place.
pub fn script_positions(scripts: &Vec<MappedScriptSource>, positions: &HashMap<u128, SerializedInstancePosition>) -> (found:
    Result<Vec<CachedScriptPosition>, SourceError>)
    ensures
        match positions_of(script_views(scripts@), positions@) {
            Ok(expected) => found matches Ok(found) && position_views(found@) == expected,
            Err(text) => found matches Err(error) && error.message@ == text,
        },
{
    let ghost views = script_views(scripts@);
    let mut found: Vec<CachedScriptPosition> = Vec::new();
    let mut at: usize = 0;
    proof {
        assert(views.take(0) =~= Seq::empty());
        assert(position_views(found@) =~= Seq::empty());
    }
    while at < scripts.len()
        invariant
            at <= scripts@.len(),
            views == script_views(scripts@),
            positions_of(views.take(at as int), positions@) == Ok::<Seq<(Seq<char>, Seq<char>, u32)>, Seq<char>>(
                position_views(found@),
            ),
        decreases scripts@.len() - at,
    {
        let id: Ref = scripts[at].id;
        proof {
            assert(views.take(at + 1).drop_last() =~= views.take(at as int));
            assert(views.take(at + 1).last().0 == id);
        }
        match positions.get(&id) {
            Some(position) => {
                if !is_script_class(position.class_name.as_str()) {
                    proof {
                        lemma_positions_fail(views, positions@, at + 1);
                    }
                    let mut message: String = joined("mapped script ", ref_text(id).as_str());
                    message.append(" compiled into non-script class ");
                    message.append(position.class_name.as_str());
                    return Err(refused(message));
                }
                insert_position(
                    &mut found,
                    CachedScriptPosition {
                        source_id: ref_text(id),
                        class_name: position.class_name.clone(),
                        index: position.index,
                    },
                );
            },
            None => {
                proof {
                    lemma_positions_fail(views, positions@, at + 1);
                }
                return Err(refused(joined("compiled output omitted mapped script ", ref_text(id).as_str())));
            },
        }
        at = at + 1;
    }
    proof {
        assert(views.take(views.len() as int) =~= views);
    }
    Ok(found)
}

} // verus!
