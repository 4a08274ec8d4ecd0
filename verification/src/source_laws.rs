//! What reading and writing mapped source are for: what a file is named says what it is,
//! and source that was written is read back.

use crate::extraction::{
    has_default, is_plain_script, metadata_of, name_on_disk, names_differ, representable, source_text,
};
use crate::names::{
    folded, is_init_file, is_source_file, law_written_identities_are_read_back, named_identity, named_script,
    refused_name, script_class_of, script_like, script_suffixes, suffix_of,
};
use crate::reflection::{property_fault, Reflection};
use crate::snapshot::NodeView;
use crate::source_metadata::{
    lemma_no_collision, refused_attributes, refused_properties, refused_siblings, valued, Metadata,
};
use crate::source_tree::{
    described, directory_node, entries_found, init_class, script_node, source_property, EntryKind, Found,
    SourceDirectory, SourceEntry,
};
use crate::source_writing::{child_writes, has_metadata, own_writes, writes, WriteView};
use crate::text::ref_chars;
use crate::text_map::{lemma_ordered_keys, ordered_keys};
use crate::variant::VariantView;
use crate::Ref;
use vstd::prelude::*;

verus! {

// ---------------------------------------------------------------------------
// The names of files

proof fn lemma_short_end(stem: Seq<char>, own: Seq<char>, other: Seq<char>)
    requires
        other.len() <= own.len(),
    ensures
        other.is_suffix_of(stem + own) == other.is_suffix_of(own),
{
    let file = stem + own;
    assert(file.subrange(file.len() - other.len(), file.len() as int) =~= own.subrange(
        own.len() - other.len(),
        own.len() as int,
    ));
}

proof fn lemma_long_end(stem: Seq<char>, own: Seq<char>, other: Seq<char>)
    requires
        own.len() <= other.len(),
        other.is_suffix_of(stem + own),
    ensures
        own == other.subrange(other.len() - own.len(), other.len() as int),
        other.take(other.len() - own.len()).is_suffix_of(stem),
{
    let file = stem + own;
    let from = file.len() - other.len();
    assert(other =~= file.subrange(from, file.len() as int));
    assert(own =~= other.subrange(other.len() - own.len(), other.len() as int));
    let head = other.take(other.len() - own.len());
    assert(head =~= stem.subrange(stem.len() - head.len(), stem.len() as int));
}

proof fn lemma_suffix_texts()
    ensures
        ".server.luau"@.len() == 12 && ".client.luau"@.len() == 12 && ".server.lua"@.len() == 11
            && ".client.lua"@.len() == 11 && ".luau"@.len() == 5 && ".lua"@.len() == 4 && ".toml"@.len() == 5,
        ".server.luau"@.last() == 'u' && ".client.luau"@.last() == 'u' && ".luau"@.last() == 'u',
        ".server.lua"@.last() == 'a' && ".client.lua"@.last() == 'a' && ".lua"@.last() == 'a' && ".toml"@.last()
            == 'l',
        ".server.luau"@[1] == 's' && ".client.luau"@[1] == 'c' && ".server.lua"@[1] == 's' && ".client.lua"@[1] == 'c',
        ".server.luau"@.take(7) == ".server"@ && ".server.lua"@.take(7) == ".server"@,
        ".client.luau"@.take(7) == ".client"@ && ".client.lua"@.take(7) == ".client"@,
        ".server.luau"@.skip(7) == ".luau"@ && ".client.luau"@.skip(7) == ".luau"@,
        ".server.lua"@.skip(7) == ".lua"@ && ".client.lua"@.skip(7) == ".lua"@,
{
    reveal_strlit(".server.luau");
    reveal_strlit(".client.luau");
    reveal_strlit(".server.lua");
    reveal_strlit(".client.lua");
    reveal_strlit(".luau");
    reveal_strlit(".lua");
    reveal_strlit(".toml");
    reveal_strlit(".server");
    reveal_strlit(".client");
    assert(".server.luau"@.take(7) =~= ".server"@);
    assert(".server.lua"@.take(7) =~= ".server"@);
    assert(".client.luau"@.take(7) =~= ".client"@);
    assert(".client.lua"@.take(7) =~= ".client"@);
    assert(".server.luau"@.skip(7) =~= ".luau"@);
    assert(".client.luau"@.skip(7) =~= ".luau"@);
    assert(".server.lua"@.skip(7) =~= ".lua"@);
    assert(".client.lua"@.skip(7) =~= ".lua"@);
}

/// A file ends in nothing that its last character is not the end of.
proof fn lemma_other_end(stem: Seq<char>, own: Seq<char>, other: Seq<char>)
    requires
        own.len() > 0,
        other.len() > 0,
        own.last() != other.last(),
    ensures
        !other.is_suffix_of(stem + own),
{
    let file = stem + own;
    if other.is_suffix_of(file) {
        assert(other =~= file.subrange(file.len() - other.len(), file.len() as int));
        assert(other.last() == file[file.len() - 1]);
        assert(file[file.len() - 1] == own.last());
    }
}

proof fn lemma_own_end(stem: Seq<char>, own: Seq<char>)
    ensures
        own.is_suffix_of(stem + own),
        (stem + own).take((stem + own).len() - own.len()) == stem,
{
    let file = stem + own;
    assert(own =~= file.subrange(file.len() - own.len(), file.len() as int));
    assert(file.take(file.len() - own.len()) =~= stem);
}

/// A file whose name ends in the suffix at `at`, and in none before it, is named by what
/// stands before that suffix.
proof fn lemma_first_suffix(file: Seq<char>, from: int, at: int)
    requires
        0 <= from <= at < script_suffixes().len(),
        forall|k: int| from <= k < at ==> !(#[trigger] script_suffixes()[k]).is_suffix_of(file),
        script_suffixes()[at].is_suffix_of(file),
    ensures
        named_script(file, from) == Some(file.take(file.len() - script_suffixes()[at].len())),
    decreases at - from,
{
    if from < at {
        assert(!script_suffixes()[from].is_suffix_of(file));
        lemma_first_suffix(file, from + 1, at);
    }
}

proof fn lemma_server_luau(stem: Seq<char>)
    ensures
        ".server.luau"@.is_suffix_of(stem + ".server.luau"@),
        named_script(stem + ".server.luau"@, 0) == Some(stem),
{
    lemma_suffix_texts();
    lemma_own_end(stem, ".server.luau"@);
    lemma_first_suffix(stem + ".server.luau"@, 0, 0);
}

proof fn lemma_client_luau(stem: Seq<char>)
    ensures
        !".server.luau"@.is_suffix_of(stem + ".client.luau"@),
        ".client.luau"@.is_suffix_of(stem + ".client.luau"@),
        named_script(stem + ".client.luau"@, 0) == Some(stem),
{
    lemma_suffix_texts();
    lemma_own_end(stem, ".client.luau"@);
    lemma_short_end(stem, ".client.luau"@, ".server.luau"@);
    if ".server.luau"@.is_suffix_of(".client.luau"@) {
        assert(".client.luau"@.subrange(0, 12)[1] == 'c');
    }
    lemma_first_suffix(stem + ".client.luau"@, 0, 1);
}

proof fn lemma_server_lua(stem: Seq<char>)
    ensures
        !".server.luau"@.is_suffix_of(stem + ".server.lua"@),
        !".client.luau"@.is_suffix_of(stem + ".server.lua"@),
        ".server.lua"@.is_suffix_of(stem + ".server.lua"@),
        named_script(stem + ".server.lua"@, 0) == Some(stem),
{
    lemma_suffix_texts();
    lemma_own_end(stem, ".server.lua"@);
    lemma_other_end(stem, ".server.lua"@, ".server.luau"@);
    lemma_other_end(stem, ".server.lua"@, ".client.luau"@);
    lemma_first_suffix(stem + ".server.lua"@, 0, 2);
}

proof fn lemma_client_lua(stem: Seq<char>)
    ensures
        !".server.luau"@.is_suffix_of(stem + ".client.lua"@),
        !".client.luau"@.is_suffix_of(stem + ".client.lua"@),
        !".server.lua"@.is_suffix_of(stem + ".client.lua"@),
        ".client.lua"@.is_suffix_of(stem + ".client.lua"@),
        named_script(stem + ".client.lua"@, 0) == Some(stem),
{
    lemma_suffix_texts();
    lemma_own_end(stem, ".client.lua"@);
    lemma_other_end(stem, ".client.lua"@, ".server.luau"@);
    lemma_other_end(stem, ".client.lua"@, ".client.luau"@);
    lemma_short_end(stem, ".client.lua"@, ".server.lua"@);
    if ".server.lua"@.is_suffix_of(".client.lua"@) {
        assert(".client.lua"@.subrange(0, 11)[1] == 'c');
    }
    lemma_first_suffix(stem + ".client.lua"@, 0, 3);
}

proof fn lemma_luau(stem: Seq<char>)
    requires
        !".server"@.is_suffix_of(stem) && !".client"@.is_suffix_of(stem),
    ensures
        !".server.luau"@.is_suffix_of(stem + ".luau"@),
        !".client.luau"@.is_suffix_of(stem + ".luau"@),
        !".server.lua"@.is_suffix_of(stem + ".luau"@),
        !".client.lua"@.is_suffix_of(stem + ".luau"@),
        ".luau"@.is_suffix_of(stem + ".luau"@),
        named_script(stem + ".luau"@, 0) == Some(stem),
{
    lemma_suffix_texts();
    lemma_own_end(stem, ".luau"@);
    if ".server.luau"@.is_suffix_of(stem + ".luau"@) {
        lemma_long_end(stem, ".luau"@, ".server.luau"@);
    }
    if ".client.luau"@.is_suffix_of(stem + ".luau"@) {
        lemma_long_end(stem, ".luau"@, ".client.luau"@);
    }
    lemma_other_end(stem, ".luau"@, ".server.lua"@);
    lemma_other_end(stem, ".luau"@, ".client.lua"@);
    lemma_first_suffix(stem + ".luau"@, 0, 4);
}

proof fn lemma_lua(stem: Seq<char>)
    requires
        !".server"@.is_suffix_of(stem) && !".client"@.is_suffix_of(stem),
    ensures
        !".server.luau"@.is_suffix_of(stem + ".lua"@),
        !".client.luau"@.is_suffix_of(stem + ".lua"@),
        !".server.lua"@.is_suffix_of(stem + ".lua"@),
        !".client.lua"@.is_suffix_of(stem + ".lua"@),
        !".luau"@.is_suffix_of(stem + ".lua"@),
        ".lua"@.is_suffix_of(stem + ".lua"@),
        named_script(stem + ".lua"@, 0) == Some(stem),
{
    lemma_suffix_texts();
    lemma_own_end(stem, ".lua"@);
    lemma_other_end(stem, ".lua"@, ".server.luau"@);
    lemma_other_end(stem, ".lua"@, ".client.luau"@);
    if ".server.lua"@.is_suffix_of(stem + ".lua"@) {
        lemma_long_end(stem, ".lua"@, ".server.lua"@);
    }
    if ".client.lua"@.is_suffix_of(stem + ".lua"@) {
        lemma_long_end(stem, ".lua"@, ".client.lua"@);
    }
    lemma_other_end(stem, ".lua"@, ".luau"@);
    lemma_first_suffix(stem + ".lua"@, 0, 5);
}

proof fn lemma_toml(stem: Seq<char>)
    ensures
        !".server.luau"@.is_suffix_of(stem + ".toml"@),
        !".client.luau"@.is_suffix_of(stem + ".toml"@),
        !".server.lua"@.is_suffix_of(stem + ".toml"@),
        !".client.lua"@.is_suffix_of(stem + ".toml"@),
        !".luau"@.is_suffix_of(stem + ".toml"@),
        !".lua"@.is_suffix_of(stem + ".toml"@),
        ".toml"@.is_suffix_of(stem + ".toml"@),
        named_script(stem + ".toml"@, 0) == Some(stem),
{
    lemma_suffix_texts();
    lemma_own_end(stem, ".toml"@);
    lemma_other_end(stem, ".toml"@, ".server.luau"@);
    lemma_other_end(stem, ".toml"@, ".client.luau"@);
    lemma_other_end(stem, ".toml"@, ".server.lua"@);
    lemma_other_end(stem, ".toml"@, ".client.lua"@);
    lemma_other_end(stem, ".toml"@, ".luau"@);
    lemma_other_end(stem, ".toml"@, ".lua"@);
    lemma_first_suffix(stem + ".toml"@, 0, 6);
}

/// What a script file is named says which script it is: it is a `Script` by `.server`, a
/// `LocalScript` by `.client` and a `ModuleScript` by neither, with `.luau` or `.lua`
/// behind it, and its name is what stands before that. A TOML file is a `ModuleScript`.
pub proof fn law_file_names_say_what_scripts_are(stem: Seq<char>)
    ensures
        script_class_of(stem + ".server.luau"@) == Some("Script"@),
        script_class_of(stem + ".server.lua"@) == Some("Script"@),
        script_class_of(stem + ".client.luau"@) == Some("LocalScript"@),
        script_class_of(stem + ".client.lua"@) == Some("LocalScript"@),
        named_script(stem + ".server.luau"@, 0) == Some(stem),
        named_script(stem + ".server.lua"@, 0) == Some(stem),
        named_script(stem + ".client.luau"@, 0) == Some(stem),
        named_script(stem + ".client.lua"@, 0) == Some(stem),
        named_script(stem + ".toml"@, 0) == Some(stem),
        script_class_of(stem + ".toml"@) == Some("ModuleScript"@),
        !".server"@.is_suffix_of(stem) && !".client"@.is_suffix_of(stem) ==> {
            &&& script_class_of(stem + ".luau"@) == Some("ModuleScript"@)
            &&& script_class_of(stem + ".lua"@) == Some("ModuleScript"@)
            &&& named_script(stem + ".luau"@, 0) == Some(stem)
            &&& named_script(stem + ".lua"@, 0) == Some(stem)
        },
{
    lemma_server_luau(stem);
    lemma_server_lua(stem);
    lemma_client_luau(stem);
    lemma_client_lua(stem);
    lemma_toml(stem);
    lemma_suffix_texts();
    lemma_other_end(stem, ".client.luau"@, ".server.lua"@);
    if !".server"@.is_suffix_of(stem) && !".client"@.is_suffix_of(stem) {
        lemma_luau(stem);
        lemma_lua(stem);
    }
}

// ---------------------------------------------------------------------------
// Directories

/// Declared properties can all be looked through.
pub open spec fn is_finite(metadata: Metadata) -> bool {
    metadata.properties.deep().dom().finite()
}

proof fn lemma_accepted_keys(reflection: Reflection, class: Seq<char>, keys: Seq<Seq<char>>)
    ensures
        refused_properties(reflection, class, keys) is None <==> forall|k: int|
            0 <= k < keys.len() ==> property_fault(reflection, class, #[trigger] keys[k]) is None,
    decreases keys.len(),
{
    if keys.len() > 0 {
        let rest = keys.drop_last();
        lemma_accepted_keys(reflection, class, rest);
        assert(forall|k: int| 0 <= k < rest.len() ==> #[trigger] rest[k] == keys[k]);
        assert(keys[keys.len() - 1] == keys.last());
        if refused_properties(reflection, class, rest) is Some {
            let k = choose|k: int| 0 <= k < rest.len() && property_fault(reflection, class, #[trigger] rest[k]) is Some;
            assert(property_fault(reflection, class, keys[k]) is Some);
        } else {
            assert forall|k: int| 0 <= k < rest.len() implies property_fault(reflection, class, #[trigger] keys[k]) is None by {
                assert(property_fault(reflection, class, rest[k]) is None);
            }
        }
    }
}

/// Declared values leave the source of a script alone.
proof fn lemma_source_stays(node: NodeView, declared: Metadata, class: Seq<char>, reflection: Reflection)
    requires
        is_finite(declared),
        valued(node, declared, class, reflection) is Ok,
    ensures
        !declared.properties.deep().dom().contains("Source"@),
        ({
            let after = valued(node, declared, class, reflection)->Ok_0;
            &&& after.properties.dom().contains("Source"@) == node.properties.dom().contains("Source"@)
            &&& node.properties.dom().contains("Source"@) ==> after.properties["Source"@] == node.properties["Source"@]
        }),
{
    let dom = declared.properties.deep().dom();
    lemma_ordered_keys(dom);
    lemma_accepted_keys(reflection, class, ordered_keys(dom));
    if dom.contains("Source"@) {
        assert(ordered_keys(dom).to_set().contains("Source"@));
        let k = ordered_keys(dom).index_of("Source"@);
        assert(property_fault(reflection, class, ordered_keys(dom)[k]) is None);
        assert(crate::reflection::managed_property("Source"@));
    }
    reveal_strlit("Source");
    reveal_strlit("Attributes");
    assert("Source"@.len() != "Attributes"@.len());
}

/// A file that makes its directory a script, and what that script is.
pub open spec fn makes(file: Seq<char>, class: Seq<char>) -> bool {
    ||| (file == "init.server.luau"@ || file == "init.server.lua"@) && class == "Script"@
    ||| (file == "init.client.luau"@ || file == "init.client.lua"@) && class == "LocalScript"@
    ||| (file == "init.luau"@ || file == "init.lua"@) && class == "ModuleScript"@
}

proof fn lemma_init_names()
    ensures
        "init.server.luau"@ == "init"@ + ".server.luau"@,
        "init.server.lua"@ == "init"@ + ".server.lua"@,
        "init.client.luau"@ == "init"@ + ".client.luau"@,
        "init.client.lua"@ == "init"@ + ".client.lua"@,
        "init.luau"@ == "init"@ + ".luau"@,
        "init.lua"@ == "init"@ + ".lua"@,
        !".server"@.is_suffix_of("init"@) && !".client"@.is_suffix_of("init"@),
        "init.luau"@ != "init.server.luau"@ && "init.luau"@ != "init.server.lua"@ && "init.luau"@ != "init.client.luau"@
            && "init.luau"@ != "init.client.lua"@,
        "init.lua"@ != "init.server.luau"@ && "init.lua"@ != "init.server.lua"@ && "init.lua"@ != "init.client.luau"@
            && "init.lua"@ != "init.client.lua"@,
        "init.client.luau"@ != "init.server.luau"@ && "init.client.luau"@ != "init.server.lua"@,
        "init.client.lua"@ != "init.server.luau"@ && "init.client.lua"@ != "init.server.lua"@,
        !is_init_file("meta.json"@),
{
    reveal_strlit("init");
    reveal_strlit("init.server.luau");
    reveal_strlit("init.server.lua");
    reveal_strlit("init.client.luau");
    reveal_strlit("init.client.lua");
    reveal_strlit("init.luau");
    reveal_strlit("init.lua");
    reveal_strlit("meta.json");
    reveal_strlit(".server.luau");
    reveal_strlit(".server.lua");
    reveal_strlit(".client.luau");
    reveal_strlit(".client.lua");
    reveal_strlit(".luau");
    reveal_strlit(".lua");
    reveal_strlit(".server");
    reveal_strlit(".client");
    assert("init.server.luau"@ =~= "init"@ + ".server.luau"@);
    assert("init.server.lua"@ =~= "init"@ + ".server.lua"@);
    assert("init.client.luau"@ =~= "init"@ + ".client.luau"@);
    assert("init.client.lua"@ =~= "init"@ + ".client.lua"@);
    assert("init.luau"@ =~= "init"@ + ".luau"@);
    assert("init.lua"@ =~= "init"@ + ".lua"@);
    assert("init.client.luau"@[5] == 'c' && "init.server.luau"@[5] == 's');
    assert("init.client.lua"@[5] == 'c' && "init.server.lua"@[5] == 's');
    assert("meta.json"@[0] == 'm' && "init.luau"@[0] == 'i' && "init.lua"@[0] == 'i' && "init.server.luau"@[0] == 'i'
        && "init.server.lua"@[0] == 'i' && "init.client.luau"@[0] == 'i' && "init.client.lua"@[0] == 'i');
}

proof fn lemma_entries_prefix(entries: Seq<SourceEntry>, at: int, path: Seq<char>, reflection: Reflection)
    requires
        0 <= at <= entries.len(),
        entries_found(entries, path, reflection) is Ok,
    ensures
        entries_found(entries.take(at), path, reflection) is Ok,
        ({
            let found = entries_found(entries, path, reflection)->Ok_0;
            let before = entries_found(entries.take(at), path, reflection)->Ok_0;
            &&& before.init is Some ==> found.init == before.init
            &&& before.metadata is Some ==> found.metadata == before.metadata
            &&& before.children.is_prefix_of(found.children)
        }),
    decreases entries.len(),
{
    if at == entries.len() {
        assert(entries.take(at) =~= entries);
    } else {
        lemma_entries_prefix(entries.drop_last(), at, path, reflection);
        assert(entries.drop_last().take(at) =~= entries.take(at));
        let before = entries_found(entries.take(at), path, reflection)->Ok_0;
        let middle = entries_found(entries.drop_last(), path, reflection)->Ok_0;
        let found = entries_found(entries, path, reflection)->Ok_0;
        assert(middle.children.is_prefix_of(found.children));
        assert(before.children =~= found.children.subrange(0, before.children.len() as int));
    }
}

proof fn lemma_init_found(entries: Seq<SourceEntry>, path: Seq<char>, reflection: Reflection)
    requires
        entries_found(entries, path, reflection) is Ok,
    ensures
        ({
            let found = entries_found(entries, path, reflection)->Ok_0;
            &&& found.init matches Some(init) ==> exists|k: int|
                0 <= k < entries.len() && (#[trigger] entries[k]).name@ == init.0 && is_init_file(init.0)
                    && entries[k].kind is Text
            &&& found.metadata matches Some(metadata) ==> exists|k: int|
                0 <= k < entries.len() && (#[trigger] entries[k]).kind == EntryKind::Meta(metadata)
        }),
    decreases entries.len(),
{
    if entries.len() > 0 {
        let rest = entries.drop_last();
        lemma_init_found(rest, path, reflection);
        let found = entries_found(entries, path, reflection)->Ok_0;
        let before = entries_found(rest, path, reflection)->Ok_0;
        assert(forall|k: int| 0 <= k < rest.len() ==> #[trigger] rest[k] == entries[k]);
        assert(entries[entries.len() - 1] == entries.last());
        if let Some(init) = found.init {
            if before.init == found.init {
                let k = choose|k: int|
                    0 <= k < rest.len() && (#[trigger] rest[k]).name@ == init.0 && is_init_file(init.0)
                        && rest[k].kind is Text;
                assert(entries[k].name@ == init.0);
            }
        }
        if let Some(metadata) = found.metadata {
            if before.metadata == found.metadata {
                let k = choose|k: int| 0 <= k < rest.len() && (#[trigger] rest[k]).kind == EntryKind::Meta(metadata);
                assert(entries[k].kind == EntryKind::Meta(metadata));
            }
        }
    }
}

/// A directory with an init script is that script: its class is what the name of the file
/// says, as it is for a file of its own, and its source is the text of the file. A
/// directory without one is a folder, and has no source.
pub proof fn law_init_scripts_make_directories_scripts(
    directory: SourceDirectory,
    name: Seq<char>,
    reflection: Reflection,
    k: int,
)
    requires
        directory.project is None,
        directory_node(directory, name, reflection) is Ok,
        forall|k: int|
            0 <= k < directory.entries@.len() ==> ((#[trigger] directory.entries@[k]).kind matches EntryKind::Meta(
                metadata,
            ) ==> is_finite(metadata)),
    ensures
        ({
            let node = directory_node(directory, name, reflection)->Ok_0.0;
            let entries = directory.entries@;
            &&& node.name == name
            &&& 0 <= k < entries.len() && entries[k].kind is Text && (exists|class: Seq<char>| #[trigger]
                makes(entries[k].name@, class)) ==> {
                &&& makes(entries[k].name@, node.class)
                &&& script_class_of(entries[k].name@) == Some(node.class)
                &&& node.properties.dom().contains("Source"@)
                &&& node.properties["Source"@] == VariantView::String(entries[k].kind->Text_0@)
            }
            &&& (forall|at: int|
                0 <= at < entries.len() && (#[trigger] entries[at]).kind is Text ==> forall|class: Seq<char>|
                    !#[trigger] makes(entries[at].name@, class)) ==> node.class == "Folder"@
                && !node.properties.dom().contains("Source"@)
        }),
{
    let entries = directory.entries@;
    let found = entries_found(entries, directory.path@, reflection)->Ok_0;
    let node = directory_node(directory, name, reflection)->Ok_0.0;
    lemma_init_names();
    lemma_init_found(entries, directory.path@, reflection);
    let bare = NodeView {
        id: crate::hashing::stable_identity("source:"@ + directory.path@),
        name,
        raw_name: None,
        class: init_class(found.init),
        properties: match found.init {
            Some((_, source)) => source_property(source),
            None => Map::empty(),
        },
        children: found.children,
    };
    if let Some(metadata) = found.metadata {
        let m = choose|m: int| 0 <= m < entries.len() && (#[trigger] entries[m]).kind == EntryKind::Meta(metadata);
        assert(is_finite(metadata));
        let named = match metadata.id {
            Some(id) => NodeView { id: named_identity(id@), ..bare },
            None => bare,
        };
        lemma_source_stays(named, metadata, bare.class, reflection);
    }
    if 0 <= k < entries.len() && entries[k].kind is Text && (exists|class: Seq<char>| #[trigger]
        makes(entries[k].name@, class)) {
        lemma_entries_prefix(entries, k + 1, directory.path@, reflection);
        let taken = entries.take(k + 1);
        assert(taken.last() == entries[k]);
        assert(is_init_file(entries[k].name@));
        assert(entries[k].name@ != "meta.json"@);
        assert(found.init == Some((entries[k].name@, entries[k].kind->Text_0@)));
        law_file_names_say_what_scripts_are("init"@);
    }
    if forall|at: int|
        0 <= at < entries.len() && (#[trigger] entries[at]).kind is Text ==> forall|class: Seq<char>|
            !#[trigger] makes(entries[at].name@, class) {
        if let Some(init) = found.init {
            let at = choose|at: int|
                0 <= at < entries.len() && (#[trigger] entries[at]).name@ == init.0 && is_init_file(init.0)
                    && entries[at].kind is Text;
            assert(makes(init.0, "Script"@) || makes(init.0, "LocalScript"@) || makes(init.0, "ModuleScript"@));
            assert(makes(entries[at].name@, "Script"@) || makes(entries[at].name@, "LocalScript"@) || makes(
                entries[at].name@,
                "ModuleScript"@,
            ));
        }
    }
}

/// An instance is what a script file of that name and text stands for.
pub open spec fn is_script_file(node: NodeView, file: Seq<char>, stem: Seq<char>, text: Seq<char>) -> bool {
    &&& node.name == stem
    &&& node.children.len() == 0
    &&& node.class == (if file == stem + ".server.luau"@ || file == stem + ".server.lua"@ {
        "Script"@
    } else if file == stem + ".client.luau"@ || file == stem + ".client.lua"@ {
        "LocalScript"@
    } else {
        "ModuleScript"@
    })
    &&& node.properties.dom().contains("Source"@)
    &&& node.properties["Source"@] == VariantView::String(text)
}

/// A script file in a directory is a child of the directory, of the class and the name that
/// its own name says, with its text as the source and nothing below it. The files that make
/// the directory itself a script are no children.
pub proof fn law_script_files_are_children(
    directory: SourceDirectory,
    name: Seq<char>,
    reflection: Reflection,
    k: int,
    stem: Seq<char>,
)
    requires
        directory.project is None,
        directory_node(directory, name, reflection) is Ok,
        0 <= k < directory.entries@.len(),
        directory.entries@[k].kind is Text,
        stem != "init"@,
        ({
            let file = directory.entries@[k].name@;
            ||| file == stem + ".server.luau"@ || file == stem + ".server.lua"@
            ||| file == stem + ".client.luau"@ || file == stem + ".client.lua"@
            ||| (file == stem + ".luau"@ || file == stem + ".lua"@) && !".server"@.is_suffix_of(stem)
                && !".client"@.is_suffix_of(stem)
        }),
    ensures
        exists|at: int|
            0 <= at < directory_node(directory, name, reflection)->Ok_0.0.children.len() && #[trigger] is_script_file(
                directory_node(directory, name, reflection)->Ok_0.0.children[at],
                directory.entries@[k].name@,
                stem,
                directory.entries@[k].kind->Text_0@,
            ),
{
    let entries = directory.entries@;
    let file = entries[k].name@;
    let found = entries_found(entries, directory.path@, reflection)->Ok_0;
    let node = directory_node(directory, name, reflection)->Ok_0.0;
    lemma_told_apart(stem, file);
    lemma_entries_prefix(entries, k + 1, directory.path@, reflection);
    lemma_entries_prefix(entries, k, directory.path@, reflection);
    let taken = entries.take(k + 1);
    assert(taken.last() == entries[k]);
    assert(taken.drop_last() =~= entries.take(k));
    lemma_file_step(taken, directory.path@, reflection, stem);
    let before = entries_found(entries.take(k), directory.path@, reflection)->Ok_0;
    let after = entries_found(taken, directory.path@, reflection)->Ok_0;
    let at = before.children.len() as int;
    let child = after.children[at];
    assert(found.children[at] == child);
    assert(node.children == found.children);
    lemma_is_script_file(entries[k].path@, file, stem, entries[k].kind->Text_0@);
    assert(is_script_file(node.children[at], file, stem, entries[k].kind->Text_0@));
}

proof fn lemma_file_step(entries: Seq<SourceEntry>, path: Seq<char>, reflection: Reflection, stem: Seq<char>)
    requires
        entries.len() > 0,
        entries_found(entries, path, reflection) is Ok,
        entries.last().kind is Text,
        !is_init_file(entries.last().name@),
        entries.last().name@ != "meta.json"@,
        !".meta.json"@.is_suffix_of(entries.last().name@),
        is_source_file(entries.last().name@),
        named_script(entries.last().name@, 0) == Some(stem),
        script_class_of(entries.last().name@) is Some,
    ensures
        entries_found(entries.drop_last(), path, reflection) is Ok,
        entries_found(entries, path, reflection)->Ok_0.children == entries_found(
            entries.drop_last(),
            path,
            reflection,
        )->Ok_0.children.push(
            script_node(entries.last().path@, entries.last().name@, entries.last().kind->Text_0@, stem)->Ok_0,
        ),
{
}

proof fn lemma_is_script_file(path: Seq<char>, file: Seq<char>, stem: Seq<char>, text: Seq<char>)
    requires
        ({
            ||| file == stem + ".server.luau"@ || file == stem + ".server.lua"@
            ||| file == stem + ".client.luau"@ || file == stem + ".client.lua"@
            ||| (file == stem + ".luau"@ || file == stem + ".lua"@) && !".server"@.is_suffix_of(stem)
                && !".client"@.is_suffix_of(stem)
        }),
    ensures
        is_script_file(script_node(path, file, text, stem)->Ok_0, file, stem, text),
{
    law_file_names_say_what_scripts_are(stem);
    lemma_suffix_texts();
    if file == stem + ".client.luau"@ || file == stem + ".client.lua"@ {
        lemma_client_luau(stem);
        lemma_client_lua(stem);
    }
    lemma_own_end(stem, ".server.luau"@);
    lemma_own_end(stem, ".server.lua"@);
}

/// A script file is no init script, no metadata and no metadata of a script.
pub(crate) proof fn lemma_told_apart(stem: Seq<char>, file: Seq<char>)
    requires
        stem != "init"@,
        ({
            ||| file == stem + ".server.luau"@ || file == stem + ".server.lua"@
            ||| file == stem + ".client.luau"@ || file == stem + ".client.lua"@
            ||| (file == stem + ".luau"@ || file == stem + ".lua"@) && !".server"@.is_suffix_of(stem)
                && !".client"@.is_suffix_of(stem)
        }),
    ensures
        !is_init_file(file),
        file != "meta.json"@,
        !".meta.json"@.is_suffix_of(file),
        is_source_file(file),
        named_script(file, 0) == Some(stem),
        script_class_of(file) is Some,
{
    lemma_suffix_texts();
    lemma_init_names();
    law_file_names_say_what_scripts_are(stem);
    law_file_names_say_what_scripts_are("init"@);
    reveal_strlit("meta.json");
    reveal_strlit(".meta.json");
    assert(named_script(file, 0) == Some(stem));
    assert(script_class_of(file) is Some);
    if ".meta.json"@.is_suffix_of(file) {
        assert(".meta.json"@ =~= file.subrange(file.len() - 10, file.len() as int));
        assert(file.last() == ".meta.json"@.last());
    }
    assert(file.last() == 'u' || file.last() == 'a');
    assert("meta.json"@.last() == 'n' && ".meta.json"@.last() == 'n');
    lemma_source_end(stem, file);
}

proof fn lemma_source_end(stem: Seq<char>, file: Seq<char>)
    requires
        script_class_of(file) is Some,
        named_script(file, 0) is Some,
    ensures
        is_source_file(file),
{
    lemma_suffix_texts();
    if ".server.luau"@.is_suffix_of(file) {
        lemma_end_of_end(file, ".server.luau"@, ".luau"@);
    } else if ".client.luau"@.is_suffix_of(file) {
        lemma_end_of_end(file, ".client.luau"@, ".luau"@);
    } else if ".server.lua"@.is_suffix_of(file) {
        lemma_end_of_end(file, ".server.lua"@, ".lua"@);
    } else if ".client.lua"@.is_suffix_of(file) {
        lemma_end_of_end(file, ".client.lua"@, ".lua"@);
    }
}

proof fn lemma_end_of_end(file: Seq<char>, long: Seq<char>, short: Seq<char>)
    requires
        long.is_suffix_of(file),
        7 < long.len(),
        long.skip(7) == short,
    ensures
        short.is_suffix_of(file),
{
    assert(long =~= file.subrange(file.len() - long.len(), file.len() as int));
    assert(short =~= file.subrange(file.len() - short.len(), file.len() as int));
}

// ---------------------------------------------------------------------------
// Source that is written and read

/// Where something is written.
pub open spec fn place_of(write: WriteView) -> Seq<Seq<char>> {
    match write {
        WriteView::Directory(path) => path,
        WriteView::Text { path, .. } => path,
        WriteView::Meta { path, .. } => path,
    }
}

/// Metadata that was read carries what is written of an instance: its identity where it has
/// to be written down, and its values.
pub open spec fn carries(metadata: Metadata, node: NodeView, persist_id: bool, reflection: Reflection) -> bool {
    let values = metadata_of(node, reflection);
    &&& match metadata.id {
        Some(id) => persist_id && id@ == ref_chars(node.id),
        None => !persist_id,
    }
    &&& metadata.properties.deep() == values.remove("Attributes"@)
    &&& values.dom().contains("Attributes"@) ==> values["Attributes"@] == VariantView::Attributes(
        metadata.attributes.deep(),
    )
    &&& !values.dom().contains("Attributes"@) ==> metadata.attributes.deep().dom() =~= Set::empty()
    &&& refused_attributes(metadata.attributes.deep(), ordered_keys(metadata.attributes.deep().dom())) is None
}

/// A directory holds exactly what is written below its path.
pub open spec fn holds(directory: SourceDirectory, path: Seq<Seq<char>>, list: Seq<WriteView>, reflection: Reflection) -> bool
    decreases directory,
{
    let entries = directory.entries@;
    &&& directory.project is None
    &&& forall|i: int, j: int|
        0 <= i < j < entries.len() ==> (#[trigger] entries[i]).name@ != (#[trigger] entries[j]).name@
    &&& forall|k: int|
        0 <= k < entries.len() ==> match (#[trigger] entries[k]).kind {
            EntryKind::Directory(inner) => list.contains(WriteView::Directory(path.push(entries[k].name@))) && holds(
                inner,
                path.push(entries[k].name@),
                list,
                reflection,
            ),
            EntryKind::Text(text) => list.contains(
                WriteView::Text { path: path.push(entries[k].name@), contents: text@ },
            ),
            EntryKind::Meta(metadata) => exists|node: NodeView, persist_id: bool|
                list.contains(WriteView::Meta { path: path.push(entries[k].name@), node, persist_id })
                    && #[trigger] carries(metadata, node, persist_id, reflection),
            _ => false,
        }
    &&& forall|at: int, name: Seq<char>|
        0 <= at < list.len() && #[trigger] place_of(list[at]) == #[trigger] path.push(name) ==> exists|k: int|
            0 <= k < entries.len() && (#[trigger] entries[k]).name@ == name
}

/// The names that a subtree has on disk can be told apart: they are taken by every file
/// system, no two beside each other are the same, and none is that of a file that says
/// something of the directory it is in. A `ModuleScript` whose name ends in `.server` or
/// `.client` would be taken for another script.
#[verifier::opaque]
pub open spec fn tells_apart(node: NodeView, required: Set<Ref>, reflection: Reflection) -> bool
    decreases node,
{
    &&& refused_name(node.name) is None
    &&& node.properties.dom().finite()
    &&& is_plain_script(node, required, reflection) ==> node.name != "init"@ && (node.class == "ModuleScript"@ ==> !(
    ".server"@.is_suffix_of(node.name)) && !(".client"@.is_suffix_of(node.name)))
    &&& forall|i: int, j: int|
        0 <= i < j < node.children.len() ==> name_on_disk(#[trigger] node.children[i], required, reflection)
            != name_on_disk(#[trigger] node.children[j], required, reflection)
    &&& forall|at: int|
        0 <= at < node.children.len() ==> {
            let disk = name_on_disk(#[trigger] node.children[at], required, reflection);
            &&& tells_apart(node.children[at], required, reflection)
            &&& has_metadata(node, required.contains(node.id), reflection) ==> disk != "meta.json"@
            &&& node.class != "Folder"@ ==> disk != "init"@ + suffix_of(node.class)
        }
}

/// A value that is written down: it is no part of the hierarchy, may be declared, and is not
/// what its class has anyway.
pub open spec fn is_authored(node: NodeView, name: Seq<char>, reflection: Reflection) -> bool {
    &&& node.properties.dom().contains(name)
    &&& name != "Source"@ && name != "Name"@ && name != "Parent"@
    &&& name == "Attributes"@ || property_fault(reflection, node.class, name) is None
    &&& !has_default(reflection, node.class, name, node.properties[name], reflection.classes.keys().len())
    &&& node.properties[name] matches VariantView::Attributes(values) ==> !(values.dom() =~= Set::empty())
}

/// The names of instances.
pub open spec fn names_of(list: Seq<NodeView>) -> Seq<Seq<char>> {
    list.map_values(|node: NodeView| node.name)
}

/// What was read is what was written: name, class, source, authored values and children,
/// and the identity where it had to be written down.
pub open spec fn read_as(node: NodeView, read: NodeView, required: Set<Ref>, reflection: Reflection) -> bool
    decreases node,
{
    &&& read.name == node.name
    &&& read.class == node.class
    &&& required.contains(node.id) ==> read.id == node.id
    &&& node.class != "Folder"@ ==> read.properties.dom().contains("Source"@) && read.properties["Source"@] == (
    if node.properties.dom().contains("Source"@) {
        node.properties["Source"@]
    } else {
        VariantView::String(Seq::empty())
    })
    &&& forall|name: Seq<char>| #[trigger]
        is_authored(node, name, reflection) ==> read.properties.dom().contains(name) && read.properties[name]
            == node.properties[name]
    &&& forall|at: int|
        0 <= at < node.children.len() ==> names_of(read.children).contains((#[trigger] node.children[at]).name)
    &&& forall|at: int, other: int|
        0 <= at < node.children.len() && 0 <= other < read.children.len() && (#[trigger] node.children[at]).name == (
        #[trigger] read.children[other]).name ==> read_as(
            node.children[at],
            read.children[other],
            required,
            reflection,
        )
    &&& read.children.len() == node.children.len()
    &&& forall|i: int, j: int|
        0 <= i < j < read.children.len() ==> (#[trigger] read.children[i]).name != (#[trigger] read.children[j]).name
}

/// What was read is what was written, without its parts.
#[verifier::opaque]
spec fn is_read(node: NodeView, read: NodeView, required: Set<Ref>, reflection: Reflection) -> bool {
    read_as(node, read, required, reflection)
}

proof fn lemma_push_prefix(path: Seq<Seq<char>>, name: Seq<char>, other: Seq<Seq<char>>)
    requires
        path.push(name).is_prefix_of(other),
    ensures
        path.is_prefix_of(other),
        other.len() > path.len(),
        other[path.len() as int] == name,
{
    assert(path.push(name) =~= other.subrange(0, path.len() as int + 1));
    assert(path =~= other.subrange(0, path.len() as int));
    assert(other.subrange(0, path.len() as int + 1)[path.len() as int] == name);
}

/// What is written for a subtree is written at its path or below it, and what stands at the
/// path is a file for a script of its own, else a directory.
proof fn lemma_written_below(node: NodeView, path: Seq<Seq<char>>, required: Set<Ref>, reflection: Reflection)
    requires
        writes(node, path, required, reflection) is Ok,
    ensures
        ({
            let list = writes(node, path, required, reflection)->Ok_0;
            &&& list.len() > 0
            &&& place_of(list[0]) == path
            &&& forall|k: int|
                0 <= k < list.len() ==> path.is_prefix_of(place_of(#[trigger] list[k])) && (place_of(list[k]) == path
                    ==> k == 0)
            &&& if is_plain_script(node, required, reflection) {
                list.len() == 1 && source_text(node) is Ok && list[0] == (WriteView::Text {
                    path,
                    contents: source_text(node)->Ok_0,
                })
            } else {
                list[0] == WriteView::Directory(path)
            }
        }),
    decreases node,
{
    let list = writes(node, path, required, reflection)->Ok_0;
    if is_plain_script(node, required, reflection) {
        assert(path.is_prefix_of(path));
    } else {
        let own = own_writes(node, path, required, reflection)->Ok_0;
        let below = child_writes(node.children, path, required, reflection)->Ok_0;
        lemma_children_below(node.children, path, required, reflection);
        assert(list == own + below);
        assert forall|k: int| 0 <= k < list.len() implies path.is_prefix_of(place_of(#[trigger] list[k])) && (place_of(
            list[k],
        ) == path ==> k == 0) by {
            if k < own.len() {
                assert(list[k] == own[k]);
                assert(path.is_prefix_of(path));
                assert(path.push("meta.json"@).subrange(0, path.len() as int) =~= path);
                assert(path.push("init"@ + suffix_of(node.class)).subrange(0, path.len() as int) =~= path);
                assert(path.push("meta.json"@).len() == path.len() + 1);
            } else {
                assert(list[k] == below[k - own.len()]);
                let write = below[k - own.len()];
                assert(below.contains(write));
                assert(belongs(node.children, path, required, reflection, write));
                let at = choose|at: int|
                    0 <= at < node.children.len() && #[trigger] written_for(
                        node.children[at],
                        path,
                        required,
                        reflection,
                    ).contains(write);
                let disk = name_on_disk(node.children[at], required, reflection);
                assert(is_written(node.children[at], path, required, reflection));
                lemma_written_below(node.children[at], path.push(disk), required, reflection);
                let there = written_for(node.children[at], path, required, reflection);
                assert(there[there.index_of(write)] == write);
                assert(path.push(disk).is_prefix_of(place_of(write)));
                lemma_push_prefix(path, disk, place_of(write));
            }
        }
    }
}

/// What is written for a child.
spec fn written_for(child: NodeView, path: Seq<Seq<char>>, required: Set<Ref>, reflection: Reflection) -> Seq<WriteView> {
    writes(child, path.push(name_on_disk(child, required, reflection)), required, reflection)->Ok_0
}

spec fn is_written(child: NodeView, path: Seq<Seq<char>>, required: Set<Ref>, reflection: Reflection) -> bool {
    writes(child, path.push(name_on_disk(child, required, reflection)), required, reflection) is Ok
}

/// Something is written for one of the children.
spec fn belongs(list: Seq<NodeView>, path: Seq<Seq<char>>, required: Set<Ref>, reflection: Reflection, write: WriteView) -> bool {
    exists|at: int| 0 <= at < list.len() && #[trigger] written_for(list[at], path, required, reflection).contains(write)
}

/// What is written for children is what is written for one of them.
proof fn lemma_children_below(list: Seq<NodeView>, path: Seq<Seq<char>>, required: Set<Ref>, reflection: Reflection)
    requires
        child_writes(list, path, required, reflection) is Ok,
    ensures
        forall|write: WriteView| #[trigger]
            child_writes(list, path, required, reflection)->Ok_0.contains(write) <==> belongs(
                list,
                path,
                required,
                reflection,
                write,
            ),
        forall|at: int| 0 <= at < list.len() ==> is_written(#[trigger] list[at], path, required, reflection),
    decreases list.len(),
{
    let all = child_writes(list, path, required, reflection)->Ok_0;
    if list.len() > 0 {
        let rest = list.drop_last();
        lemma_children_below(rest, path, required, reflection);
        let before = child_writes(rest, path, required, reflection)->Ok_0;
        let last = written_for(list.last(), path, required, reflection);
        assert(all == before + last);
        assert(forall|k: int| 0 <= k < rest.len() ==> #[trigger] rest[k] == list[k]);
        assert(list[list.len() - 1] == list.last());
        assert forall|at: int| 0 <= at < list.len() implies is_written(#[trigger] list[at], path, required, reflection) by {
            if at < rest.len() {
                assert(is_written(rest[at], path, required, reflection));
            }
        }
        assert forall|write: WriteView| #[trigger] all.contains(write) <==> belongs(
            list,
            path,
            required,
            reflection,
            write,
        ) by {
            if all.contains(write) {
                let k = all.index_of(write);
                if k < before.len() {
                    assert(before[k] == write);
                    assert(before.contains(write));
                    assert(belongs(rest, path, required, reflection, write));
                    let at = choose|at: int|
                        0 <= at < rest.len() && #[trigger] written_for(rest[at], path, required, reflection).contains(
                            write,
                        );
                    assert(written_for(list[at], path, required, reflection).contains(write));
                } else {
                    assert(last[k - before.len()] == write);
                    assert(written_for(list[list.len() - 1], path, required, reflection).contains(write));
                }
            }
            if belongs(list, path, required, reflection, write) {
                let at = choose|at: int|
                    0 <= at < list.len() && #[trigger] written_for(list[at], path, required, reflection).contains(write);
                if at < rest.len() {
                    assert(written_for(rest[at], path, required, reflection).contains(write));
                    assert(belongs(rest, path, required, reflection, write));
                    assert(before.contains(write));
                    assert(all[before.index_of(write)] == write);
                } else {
                    assert(all[before.len() + last.index_of(write)] == write);
                }
            }
        }
    }
}

/// What was read of an entry is what was written for a child.
#[verifier::opaque]
spec fn child_read(child: NodeView, entry: SourceEntry, required: Set<Ref>, reflection: Reflection) -> bool {
    &&& name_on_disk(child, required, reflection) == entry.name@
    &&& match entry.kind {
        EntryKind::Directory(inner) => {
            &&& !is_plain_script(child, required, reflection)
            &&& directory_node(inner, entry.name@, reflection) matches Ok((read, portable)) && portable && is_read(
                child,
                read,
                required,
                reflection,
            )
        },
        EntryKind::Text(text) => is_plain_script(child, required, reflection) && source_text(child) == Ok::<
            Seq<char>,
            Seq<char>,
        >(text@),
        _ => false,
    }
}

/// An entry holds metadata, the source of the directory, or a child.
spec fn entry_read(node: NodeView, entry: SourceEntry, required: Set<Ref>, reflection: Reflection) -> bool {
    ||| entry.name@ == "meta.json"@ && (entry.kind matches EntryKind::Meta(metadata) && carries(
        metadata,
        node,
        required.contains(node.id),
        reflection,
    ))
    ||| script_like(node.class) && entry.name@ == "init"@ + suffix_of(node.class) && (entry.kind matches EntryKind::Text(
        text,
    ) && source_text(node) == Ok::<Seq<char>, Seq<char>>(text@))
    ||| exists|at: int| 0 <= at < node.children.len() && #[trigger] child_read(node.children[at], entry, required, reflection)
}

proof fn lemma_child_named(child: NodeView, entry: SourceEntry, required: Set<Ref>, reflection: Reflection)
    requires
        child_read(child, entry, required, reflection),
    ensures
        name_on_disk(child, required, reflection) == entry.name@,
        entry.kind is Directory || entry.kind is Text,
{
    reveal(child_read);
}

proof fn lemma_read_name(node: NodeView, read: NodeView, required: Set<Ref>, reflection: Reflection)
    requires
        is_read(node, read, required, reflection),
    ensures
        read.name == node.name,
{
    reveal(is_read);
}

/// A child of an instance whose names can be told apart.
proof fn lemma_told(node: NodeView, at: int, required: Set<Ref>, reflection: Reflection)
    requires
        tells_apart(node, required, reflection),
        0 <= at < node.children.len(),
    ensures
        tells_apart(node.children[at], required, reflection),
        refused_name(node.children[at].name) is None,
        has_metadata(node, required.contains(node.id), reflection) ==> name_on_disk(
            node.children[at],
            required,
            reflection,
        ) != "meta.json"@,
        node.class != "Folder"@ ==> name_on_disk(node.children[at], required, reflection) != "init"@ + suffix_of(
            node.class,
        ),
{
    reveal(tells_apart);
    assert(tells_apart(node.children[at], required, reflection));
}

/// A child that was found is one of the instance, read from one of the entries.
#[verifier::opaque]
spec fn comes_from(
    node: NodeView,
    entries: Seq<SourceEntry>,
    count: int,
    child: NodeView,
    required: Set<Ref>,
    reflection: Reflection,
) -> bool {
    exists|at: int, k: int|
        0 <= at < node.children.len() && 0 <= k < count && #[trigger] child_read(
            node.children[at],
            entries[k],
            required,
            reflection,
        ) && is_read(node.children[at], child, required, reflection)
}

/// A child is among those that were found.
#[verifier::opaque]
spec fn is_among(child: NodeView, found: Seq<NodeView>, required: Set<Ref>, reflection: Reflection) -> bool {
    exists|j: int| 0 <= j < found.len() && #[trigger] is_read(child, found[j], required, reflection)
}

spec fn children_as(
    node: NodeView,
    entries: Seq<SourceEntry>,
    count: int,
    found: Seq<NodeView>,
    required: Set<Ref>,
    reflection: Reflection,
) -> bool {
    &&& forall|j: int|
        0 <= j < found.len() ==> comes_from(node, entries, count, #[trigger] found[j], required, reflection)
    &&& forall|at: int, k: int|
        0 <= at < node.children.len() && 0 <= k < count && #[trigger] child_read(
            node.children[at],
            entries[k],
            required,
            reflection,
        ) ==> is_among(node.children[at], found, required, reflection)
    &&& forall|i: int, j: int|
        0 <= i < j < found.len() ==> folded(#[trigger] found[i].name) != folded(#[trigger] found[j].name)
}

/// An entry of that name is among the first.
spec fn is_named(entries: Seq<SourceEntry>, count: int, name: Seq<char>) -> bool {
    exists|k: int| 0 <= k < count && (#[trigger] entries[k]).name@ == name
}

spec fn heads_as(
    node: NodeView,
    entries: Seq<SourceEntry>,
    count: int,
    found: Found,
    required: Set<Ref>,
    reflection: Reflection,
) -> bool {
    &&& found.portable == (count > 0)
    &&& found.metadata matches Some(metadata) ==> carries(metadata, node, required.contains(node.id), reflection)
        && is_named(entries, count, "meta.json"@)
    &&& forall|k: int| 0 <= k < count && (#[trigger] entries[k]).kind is Meta ==> found.metadata is Some
    &&& found.init matches Some(init) ==> script_like(node.class) && init.0 == "init"@ + suffix_of(node.class)
        && source_text(node) == Ok::<Seq<char>, Seq<char>>(init.1) && is_named(
        entries,
        count,
        "init"@ + suffix_of(node.class),
    )
    &&& script_like(node.class) && is_named(entries, count, "init"@ + suffix_of(node.class)) ==> found.init is Some
}

/// What was found in the entries so far is what was written for the instance.
spec fn found_as(
    node: NodeView,
    entries: Seq<SourceEntry>,
    count: int,
    found: Found,
    required: Set<Ref>,
    reflection: Reflection,
) -> bool {
    &&& heads_as(node, entries, count, found, required, reflection)
    &&& children_as(node, entries, count, found.children, required, reflection)
}

proof fn lemma_named_once_more(entries: Seq<SourceEntry>, count: int, name: Seq<char>)
    requires
        0 < count <= entries.len(),
    ensures
        is_named(entries, count, name) <==> is_named(entries, count - 1, name) || entries[count - 1].name@ == name,
{
    if is_named(entries, count - 1, name) {
        let k = choose|k: int| 0 <= k < count - 1 && (#[trigger] entries[k]).name@ == name;
        assert(entries[k].name@ == name);
    }
    if entries[count - 1].name@ == name {
        assert(entries[count - 1].name@ == name);
    }
    if is_named(entries, count, name) {
        let k = choose|k: int| 0 <= k < count && (#[trigger] entries[k]).name@ == name;
        if k < count - 1 {
            assert(entries[k].name@ == name);
        }
    }
}

proof fn lemma_comes_from(
    node: NodeView,
    entries: Seq<SourceEntry>,
    count: int,
    child: NodeView,
    required: Set<Ref>,
    reflection: Reflection,
)
    requires
        0 < count,
        comes_from(node, entries, count - 1, child, required, reflection),
    ensures
        comes_from(node, entries, count, child, required, reflection),
{
    reveal(comes_from);
    let (at, k) = choose|at: int, k: int|
        0 <= at < node.children.len() && 0 <= k < count - 1 && #[trigger] child_read(
            node.children[at],
            entries[k],
            required,
            reflection,
        ) && is_read(node.children[at], child, required, reflection);
    assert(child_read(node.children[at], entries[k], required, reflection));
}

/// An entry that is no child leaves the children alone.
proof fn lemma_children_kept(
    node: NodeView,
    entries: Seq<SourceEntry>,
    count: int,
    found: Seq<NodeView>,
    required: Set<Ref>,
    reflection: Reflection,
)
    requires
        0 < count <= entries.len(),
        children_as(node, entries, count - 1, found, required, reflection),
        forall|at: int|
            0 <= at < node.children.len() ==> !#[trigger] child_read(
                node.children[at],
                entries[count - 1],
                required,
                reflection,
            ),
    ensures
        children_as(node, entries, count, found, required, reflection),
{
    assert forall|j: int| 0 <= j < found.len() implies comes_from(
        node,
        entries,
        count,
        #[trigger] found[j],
        required,
        reflection,
    ) by {
        lemma_comes_from(node, entries, count, found[j], required, reflection);
    }
    assert forall|at: int, k: int|
        0 <= at < node.children.len() && 0 <= k < count && #[trigger] child_read(
            node.children[at],
            entries[k],
            required,
            reflection,
        ) implies is_among(node.children[at], found, required, reflection) by {
        if k == count - 1 {
            assert(!child_read(node.children[at], entries[count - 1], required, reflection));
        }
    }
}

proof fn lemma_children_grown(
    node: NodeView,
    entries: Seq<SourceEntry>,
    count: int,
    before: Seq<NodeView>,
    at: int,
    read: NodeView,
    required: Set<Ref>,
    reflection: Reflection,
)
    requires
        0 < count <= entries.len(),
        names_differ(node.children),
        tells_apart(node, required, reflection),
        children_as(node, entries, count - 1, before, required, reflection),
        0 <= at < node.children.len(),
        child_read(node.children[at], entries[count - 1], required, reflection),
        is_read(node.children[at], read, required, reflection),
        forall|i: int, j: int|
            0 <= i < j < entries.len() ==> (#[trigger] entries[i]).name@ != (#[trigger] entries[j]).name@,
    ensures
        children_as(node, entries, count, before.push(read), required, reflection),
{
    let found = before.push(read);
    let last = before.len() as int;
    assert forall|j: int| 0 <= j < found.len() implies comes_from(
        node,
        entries,
        count,
        #[trigger] found[j],
        required,
        reflection,
    ) by {
        if j < last {
            assert(found[j] == before[j]);
            lemma_comes_from(node, entries, count, before[j], required, reflection);
        } else {
            assert(found[j] == read);
            assert(comes_from(node, entries, count, read, required, reflection)) by {
                reveal(comes_from);
                assert(child_read(node.children[at], entries[count - 1], required, reflection));
            }
        }
    }
    assert forall|other: int, k: int|
        0 <= other < node.children.len() && 0 <= k < count && #[trigger] child_read(
            node.children[other],
            entries[k],
            required,
            reflection,
        ) implies is_among(node.children[other], found, required, reflection) by {
        if k < count - 1 {
            assert(is_among(node.children[other], before, required, reflection));
            lemma_among_more(node.children[other], before, read, required, reflection);
        } else {
            lemma_child_named(node.children[other], entries[k], required, reflection);
            lemma_child_named(node.children[at], entries[k], required, reflection);
            lemma_same_child(node, other, at, required, reflection);
            lemma_among_last(node.children[other], before, read, required, reflection);
        }
    }
    assert forall|i: int, j: int| 0 <= i < j < found.len() implies folded(#[trigger] found[i].name) != folded(
        #[trigger] found[j].name,
    ) by {
        assert(found[i] == before[i]);
        if j < last {
            assert(found[j] == before[j]);
        } else {
            lemma_apart(node, entries, count, before[i], at, required, reflection);
            lemma_read_name(node.children[at], read, required, reflection);
        }
    }
}

proof fn lemma_among_more(child: NodeView, found: Seq<NodeView>, read: NodeView, required: Set<Ref>, reflection: Reflection)
    requires
        is_among(child, found, required, reflection),
    ensures
        is_among(child, found.push(read), required, reflection),
{
    reveal(is_among);
    let j = choose|j: int| 0 <= j < found.len() && #[trigger] is_read(child, found[j], required, reflection);
    assert(is_read(child, found.push(read)[j], required, reflection));
}

proof fn lemma_among_last(child: NodeView, found: Seq<NodeView>, read: NodeView, required: Set<Ref>, reflection: Reflection)
    requires
        is_read(child, read, required, reflection),
    ensures
        is_among(child, found.push(read), required, reflection),
{
    reveal(is_among);
    assert(is_read(child, found.push(read)[found.len() as int], required, reflection));
}

proof fn lemma_same_child(node: NodeView, i: int, j: int, required: Set<Ref>, reflection: Reflection)
    requires
        tells_apart(node, required, reflection),
        0 <= i < node.children.len(),
        0 <= j < node.children.len(),
        name_on_disk(node.children[i], required, reflection) == name_on_disk(node.children[j], required, reflection),
    ensures
        i == j,
{
    reveal(tells_apart);
    if i < j {
        assert(name_on_disk(node.children[i], required, reflection) != name_on_disk(
            node.children[j],
            required,
            reflection,
        ));
    } else if j < i {
        assert(name_on_disk(node.children[j], required, reflection) != name_on_disk(
            node.children[i],
            required,
            reflection,
        ));
    }
}

/// A child of another entry has another name.
proof fn lemma_apart(
    node: NodeView,
    entries: Seq<SourceEntry>,
    count: int,
    child: NodeView,
    at: int,
    required: Set<Ref>,
    reflection: Reflection,
)
    requires
        0 < count <= entries.len(),
        names_differ(node.children),
        0 <= at < node.children.len(),
        child_read(node.children[at], entries[count - 1], required, reflection),
        comes_from(node, entries, count - 1, child, required, reflection),
        forall|i: int, j: int|
            0 <= i < j < entries.len() ==> (#[trigger] entries[i]).name@ != (#[trigger] entries[j]).name@,
    ensures
        folded(child.name) != folded(node.children[at].name),
{
    reveal(comes_from);
    let (other, k) = choose|other: int, k: int|
        0 <= other < node.children.len() && 0 <= k < count - 1 && #[trigger] child_read(
            node.children[other],
            entries[k],
            required,
            reflection,
        ) && is_read(node.children[other], child, required, reflection);
    assert(entries[k].name@ != entries[count - 1].name@);
    lemma_child_named(node.children[other], entries[k], required, reflection);
    lemma_child_named(node.children[at], entries[count - 1], required, reflection);
    lemma_read_name(node.children[other], child, required, reflection);
    if other < at {
        assert(folded(node.children[other].name) != folded(node.children[at].name));
    } else if at < other {
        assert(folded(node.children[at].name) != folded(node.children[other].name));
    }
}

/// A script of its own is read from its file.
proof fn lemma_plain_read(child: NodeView, entry: SourceEntry, required: Set<Ref>, reflection: Reflection)
    requires
        is_plain_script(child, required, reflection),
        tells_apart(child, required, reflection),
        child_read(child, entry, required, reflection),
    ensures
        entry.kind is Text,
        !is_init_file(entry.name@),
        entry.name@ != "meta.json"@,
        !".meta.json"@.is_suffix_of(entry.name@),
        is_source_file(entry.name@),
        named_script(entry.name@, 0) == Some(child.name),
        child.name.len() > 0,
        refused_name(child.name) is None,
        script_node(entry.path@, entry.name@, entry.kind->Text_0@, child.name) matches Ok(read) && is_read(
            child,
            read,
            required,
            reflection,
        ),
{
    reveal(is_read);
    reveal(tells_apart);
    reveal(child_read);
    law_file_names_say_what_scripts_are(child.name);
    lemma_told_apart(child.name, entry.name@);
    let read = script_node(entry.path@, entry.name@, entry.kind->Text_0@, child.name)->Ok_0;
    assert forall|name: Seq<char>| !#[trigger] is_authored(child, name, reflection) by {
        if is_authored(child, name, reflection) {
            assert(metadata_of(child, reflection).dom().contains(name));
        }
    }
    reveal_strlit("Folder");
    reveal_strlit("Script");
    reveal_strlit("LocalScript");
    reveal_strlit("ModuleScript");
    assert("Folder"@[0] == 'F' && "Script"@[0] == 'S' && "LocalScript"@[0] == 'L' && "ModuleScript"@[0] == 'M');
}

proof fn lemma_init_named(class: Seq<char>)
    requires
        script_like(class),
    ensures
        is_init_file("init"@ + suffix_of(class)),
        makes("init"@ + suffix_of(class), class),
        "init"@ + suffix_of(class) != "meta.json"@,
        init_class(Some(("init"@ + suffix_of(class), Seq::empty()))) == class,
{
    lemma_init_names();
}

proof fn lemma_child_entry(
    node: NodeView,
    entries: Seq<SourceEntry>,
    at: int,
    k: int,
    required: Set<Ref>,
    reflection: Reflection,
)
    requires
        tells_apart(node, required, reflection),
        0 <= at < node.children.len(),
        child_read(node.children[at], entries[k], required, reflection),
    ensures
        has_metadata(node, required.contains(node.id), reflection) ==> entries[k].name@ != "meta.json"@,
        script_like(node.class) ==> entries[k].name@ != "init"@ + suffix_of(node.class),
{
    lemma_told(node, at, required, reflection);
    lemma_child_named(node.children[at], entries[k], required, reflection);
    reveal_strlit("Folder");
    reveal_strlit("Script");
    reveal_strlit("LocalScript");
    reveal_strlit("ModuleScript");
    assert("Folder"@[0] == 'F' && "Script"@[0] == 'S' && "LocalScript"@[0] == 'L' && "ModuleScript"@[0] == 'M');
}

/// What an entry that is a child is read as.
spec fn child_of(child: NodeView, entry: SourceEntry, reflection: Reflection) -> NodeView {
    match entry.kind {
        EntryKind::Directory(inner) => directory_node(inner, entry.name@, reflection)->Ok_0.0,
        _ => script_node(entry.path@, entry.name@, entry.kind->Text_0@, child.name)->Ok_0,
    }
}

/// An entry that is a child adds it.
proof fn lemma_child_step(child: NodeView, entries: Seq<SourceEntry>, path: Seq<char>, required: Set<Ref>, reflection: Reflection)
    requires
        entries.len() > 0,
        tells_apart(child, required, reflection),
        refused_name(child.name) is None,
        child_read(child, entries.last(), required, reflection),
        entries_found(entries.drop_last(), path, reflection) is Ok,
    ensures
        ({
            let before = entries_found(entries.drop_last(), path, reflection)->Ok_0;
            let read = child_of(child, entries.last(), reflection);
            &&& entries_found(entries, path, reflection) == Ok::<Found, Seq<char>>(
                Found { children: before.children.push(read), portable: true, ..before },
            )
            &&& is_read(child, read, required, reflection)
        }),
{
    let entry = entries.last();
    if is_plain_script(child, required, reflection) {
        lemma_plain_read(child, entry, required, reflection);
    }
    reveal(child_read);
}

#[verifier::rlimit(40)]
proof fn lemma_entries_read(
    node: NodeView,
    entries: Seq<SourceEntry>,
    count: int,
    path: Seq<char>,
    required: Set<Ref>,
    reflection: Reflection,
)
    requires
        0 <= count <= entries.len(),
        names_differ(node.children),
        tells_apart(node, required, reflection),
        script_like(node.class) || node.class == "Folder"@,
        forall|k: int| 0 <= k < entries.len() ==> entry_read(node, #[trigger] entries[k], required, reflection),
        forall|i: int, j: int|
            0 <= i < j < entries.len() ==> (#[trigger] entries[i]).name@ != (#[trigger] entries[j]).name@,
    ensures
        entries_found(entries.take(count), path, reflection) is Ok,
        found_as(
            node,
            entries,
            count,
            entries_found(entries.take(count), path, reflection)->Ok_0,
            required,
            reflection,
        ),
    decreases count,
{
    let taken = entries.take(count);
    if count > 0 {
        lemma_entries_read(node, entries, count - 1, path, required, reflection);
        assert(taken.drop_last() =~= entries.take(count - 1));
        let entry = entries[count - 1];
        assert(taken.last() == entry);
        let init = "init"@ + suffix_of(node.class);
        let before = entries_found(entries.take(count - 1), path, reflection)->Ok_0;
        assert(entry_read(node, entry, required, reflection));
        lemma_init_names();
        lemma_named_once_more(entries, count, "meta.json"@);
        lemma_named_once_more(entries, count, init);
        assert(is_named(entries, count - 1, entry.name@) ==> false) by {
            if is_named(entries, count - 1, entry.name@) {
                let k = choose|k: int| 0 <= k < count - 1 && (#[trigger] entries[k]).name@ == entry.name@;
                assert(entries[k].name@ != entries[count - 1].name@);
            }
        }
        if script_like(node.class) {
            lemma_init_named(node.class);
        }
        if entry.name@ == "meta.json"@ && entry.kind is Meta {
            assert forall|at: int| 0 <= at < node.children.len() implies !#[trigger] child_read(
                node.children[at],
                entry,
                required,
                reflection,
            ) by {
                if child_read(node.children[at], entry, required, reflection) {
                    lemma_child_named(node.children[at], entry, required, reflection);
                }
            }
            lemma_children_kept(node, entries, count, before.children, required, reflection);
            let found = Found { metadata: Some(entry.kind->Meta_0), portable: true, ..before };
            assert(entries_found(taken, path, reflection) == Ok::<Found, Seq<char>>(found));
            assert(heads_as(node, entries, count, found, required, reflection));
        } else if exists|at: int|
            0 <= at < node.children.len() && #[trigger] child_read(node.children[at], entry, required, reflection) {
            let at = choose|at: int|
                0 <= at < node.children.len() && #[trigger] child_read(node.children[at], entry, required, reflection);
            let child = node.children[at];
            lemma_told(node, at, required, reflection);
            lemma_child_entry(node, entries, at, count - 1, required, reflection);
            lemma_child_step(child, taken, path, required, reflection);
            let read = child_of(child, entry, reflection);
            let found = Found { children: before.children.push(read), portable: true, ..before };
            lemma_children_grown(node, entries, count, before.children, at, read, required, reflection);
            assert(heads_as(node, entries, count, found, required, reflection));
        } else {
            lemma_children_kept(node, entries, count, before.children, required, reflection);
            let found = Found { init: Some((entry.name@, entry.kind->Text_0@)), portable: true, ..before };
            assert(entries_found(taken, path, reflection) == Ok::<Found, Seq<char>>(found));
            assert(heads_as(node, entries, count, found, required, reflection));
        }
    }
}

/// What stands at a path of a child, and below it, is written for that child.
proof fn lemma_whose_write(
    node: NodeView,
    path: Seq<Seq<char>>,
    required: Set<Ref>,
    reflection: Reflection,
    write: WriteView,
    name: Seq<char>,
) -> (at: int)
    requires
        !is_plain_script(node, required, reflection),
        writes(node, path, required, reflection) is Ok,
        writes(node, path, required, reflection)->Ok_0.contains(write),
        path.push(name).is_prefix_of(place_of(write)),
    ensures
        at < node.children.len(),
        if at >= 0 {
            &&& name_on_disk(node.children[at], required, reflection) == name
            &&& is_written(node.children[at], path, required, reflection)
            &&& written_for(node.children[at], path, required, reflection).contains(write)
        } else {
            &&& place_of(write) == path.push(name)
            &&& own_writes(node, path, required, reflection)->Ok_0.contains(write)
            &&& write !is Directory
        },
{
    let list = writes(node, path, required, reflection)->Ok_0;
    let own = own_writes(node, path, required, reflection)->Ok_0;
    let below = child_writes(node.children, path, required, reflection)->Ok_0;
    assert(list == own + below);
    let k = list.index_of(write);
    lemma_push_prefix(path, name, place_of(write));
    lemma_children_below(node.children, path, required, reflection);
    if k < own.len() {
        assert(own[k] == write);
        assert(own.contains(write));
        assert(place_of(write).len() == path.len() + 1);
        assert(place_of(write) =~= path.push(name)) by {
            assert(path.push(name) =~= place_of(write).subrange(0, path.len() as int + 1));
        }
        -1
    } else {
        assert(below[k - own.len()] == write);
        assert(below.contains(write));
        assert(belongs(node.children, path, required, reflection, write));
        let at = choose|at: int|
            0 <= at < node.children.len() && #[trigger] written_for(
                node.children[at],
                path,
                required,
                reflection,
            ).contains(write);
        let disk = name_on_disk(node.children[at], required, reflection);
        assert(is_written(node.children[at], path, required, reflection));
        lemma_written_below(node.children[at], path.push(disk), required, reflection);
        let there = written_for(node.children[at], path, required, reflection);
        assert(there[there.index_of(write)] == write);
        lemma_push_prefix(path, disk, place_of(write));
        at
    }
}

/// What is written below a path is all there.
spec fn closed_below(list: Seq<WriteView>, path: Seq<Seq<char>>, all: Seq<WriteView>) -> bool {
    &&& forall|write: WriteView| #[trigger] list.contains(write) ==> all.contains(write)
    &&& forall|write: WriteView| #[trigger]
        all.contains(write) && path.is_prefix_of(place_of(write)) ==> list.contains(write)
}

proof fn lemma_closed_child(
    node: NodeView,
    path: Seq<Seq<char>>,
    all: Seq<WriteView>,
    at: int,
    required: Set<Ref>,
    reflection: Reflection,
)
    requires
        !is_plain_script(node, required, reflection),
        tells_apart(node, required, reflection),
        script_like(node.class) || node.class == "Folder"@,
        writes(node, path, required, reflection) is Ok,
        closed_below(writes(node, path, required, reflection)->Ok_0, path, all),
        0 <= at < node.children.len(),
    ensures
        is_written(node.children[at], path, required, reflection),
        closed_below(
            written_for(node.children[at], path, required, reflection),
            path.push(name_on_disk(node.children[at], required, reflection)),
            all,
        ),
{
    let list = writes(node, path, required, reflection)->Ok_0;
    let own = own_writes(node, path, required, reflection)->Ok_0;
    let below = child_writes(node.children, path, required, reflection)->Ok_0;
    assert(list == own + below);
    let disk = name_on_disk(node.children[at], required, reflection);
    let there = written_for(node.children[at], path, required, reflection);
    lemma_children_below(node.children, path, required, reflection);
    lemma_told(node, at, required, reflection);
    lemma_class_texts();
    assert forall|write: WriteView| #[trigger] there.contains(write) implies all.contains(write) by {
        assert(belongs(node.children, path, required, reflection, write));
        assert(below.contains(write));
        assert(list[own.len() + below.index_of(write)] == write);
        assert(list.contains(write));
    }
    assert forall|write: WriteView| #[trigger]
        all.contains(write) && path.push(disk).is_prefix_of(place_of(write)) implies there.contains(write) by {
        lemma_push_prefix(path, disk, place_of(write));
        assert(list.contains(write));
        let other = lemma_whose_write(node, path, required, reflection, write, disk);
        if other >= 0 {
            lemma_same_child(node, other, at, required, reflection);
        } else {
            lemma_own_name(node, path, required, reflection, write, disk);
        }
    }
}

proof fn lemma_class_texts()
    ensures
        "Folder"@ != "Script"@ && "Folder"@ != "LocalScript"@ && "Folder"@ != "ModuleScript"@,
{
    reveal_strlit("Folder");
    reveal_strlit("Script");
    reveal_strlit("LocalScript");
    reveal_strlit("ModuleScript");
    assert("Folder"@[0] == 'F' && "Script"@[0] == 'S' && "LocalScript"@[0] == 'L' && "ModuleScript"@[0] == 'M');
}

/// What is written for an instance itself, beside its directory, is its source and its
/// metadata.
proof fn lemma_own_name(
    node: NodeView,
    path: Seq<Seq<char>>,
    required: Set<Ref>,
    reflection: Reflection,
    write: WriteView,
    name: Seq<char>,
)
    requires
        own_writes(node, path, required, reflection) is Ok,
        own_writes(node, path, required, reflection)->Ok_0.contains(write),
        place_of(write) == path.push(name),
        write !is Directory,
    ensures
        match write {
            WriteView::Directory(_) => false,
            WriteView::Text { contents, .. } => script_like(node.class) && name == "init"@ + suffix_of(node.class)
                && source_text(node) == Ok::<Seq<char>, Seq<char>>(contents),
            WriteView::Meta { node: written, persist_id, .. } => name == "meta.json"@ && written == node && persist_id
                == required.contains(node.id) && has_metadata(node, persist_id, reflection),
        },
{
    let own = own_writes(node, path, required, reflection)->Ok_0;
    let k = own.index_of(write);
    assert(own[k] == write);
    assert(path.push(name).last() == name);
    assert(path.push("meta.json"@).last() == "meta.json"@);
    assert(path.push("init"@ + suffix_of(node.class)).last() == "init"@ + suffix_of(node.class));
}

/// Every entry of the directory of an instance is its metadata, its source or a child.
proof fn lemma_entry_read(
    node: NodeView,
    path: Seq<Seq<char>>,
    all: Seq<WriteView>,
    directory: SourceDirectory,
    k: int,
    required: Set<Ref>,
    reflection: Reflection,
)
    requires
        !is_plain_script(node, required, reflection),
        tells_apart(node, required, reflection),
        representable(node),
        writes(node, path, required, reflection) is Ok,
        closed_below(writes(node, path, required, reflection)->Ok_0, path, all),
        holds(directory, path, all, reflection),
        0 <= k < directory.entries@.len(),
    ensures
        entry_read(node, directory.entries@[k], required, reflection),
    decreases node, 0nat,
{
    let list = writes(node, path, required, reflection)->Ok_0;
    let entry = directory.entries@[k];
    let place = path.push(entry.name@);
    assert(path.is_prefix_of(place)) by {
        assert(path =~= place.subrange(0, path.len() as int));
    }
    assert(place.is_prefix_of(place)) by {
        assert(place =~= place.subrange(0, place.len() as int));
    }
    match entry.kind {
        EntryKind::Directory(inner) => {
            let write = WriteView::Directory(place);
            assert(all.contains(write));
            assert(list.contains(write));
            let at = lemma_whose_write(node, path, required, reflection, write, entry.name@);
            let child = node.children[at];
            lemma_written_below(child, place, required, reflection);
            let there = written_for(child, path, required, reflection);
            assert(there[there.index_of(write)] == write);
            lemma_closed_child(node, path, all, at, required, reflection);
            lemma_told(node, at, required, reflection);
            lemma_child_representable(node.children, at);
            lemma_read_back(child, place, all, inner, required, reflection);
            assert(child_read(child, entry, required, reflection)) by {
                reveal(child_read);
            }
            assert(child_read(node.children[at], entry, required, reflection));
        },
        EntryKind::Text(text) => {
            let write = WriteView::Text { path: place, contents: text@ };
            assert(all.contains(write));
            assert(list.contains(write));
            let at = lemma_whose_write(node, path, required, reflection, write, entry.name@);
            if at >= 0 {
                let child = node.children[at];
                lemma_written_below(child, place, required, reflection);
                let there = written_for(child, path, required, reflection);
                assert(there[there.index_of(write)] == write);
                assert(child_read(child, entry, required, reflection)) by {
                    reveal(child_read);
                }
                assert(child_read(node.children[at], entry, required, reflection));
            } else {
                lemma_own_name(node, path, required, reflection, write, entry.name@);
            }
        },
        EntryKind::Meta(metadata) => {
            let (written, persist_id) = choose|written: NodeView, persist_id: bool|
                all.contains(WriteView::Meta { path: place, node: written, persist_id }) && #[trigger] carries(
                    metadata,
                    written,
                    persist_id,
                    reflection,
                );
            let write = WriteView::Meta { path: place, node: written, persist_id };
            assert(list.contains(write));
            let at = lemma_whose_write(node, path, required, reflection, write, entry.name@);
            if at >= 0 {
                let child = node.children[at];
                lemma_written_below(child, place, required, reflection);
                let there = written_for(child, path, required, reflection);
                assert(there[there.index_of(write)] == write);
            } else {
                lemma_own_name(node, path, required, reflection, write, entry.name@);
            }
        },
        _ => {},
    }
}

proof fn lemma_child_representable(list: Seq<NodeView>, at: int)
    requires
        crate::extraction::all_representable(list),
        0 <= at < list.len(),
    ensures
        representable(list[at]),
    decreases list.len(),
{
    if at < list.len() - 1 {
        lemma_child_representable(list.drop_last(), at);
        assert(list.drop_last()[at] == list[at]);
    }
}

/// Something that is written directly below a path has an entry.
proof fn lemma_has_entry(directory: SourceDirectory, path: Seq<Seq<char>>, all: Seq<WriteView>, reflection: Reflection, write: WriteView, name: Seq<char>)
    requires
        holds(directory, path, all, reflection),
        all.contains(write),
        place_of(write) == path.push(name),
    ensures
        is_named(directory.entries@, directory.entries@.len() as int, name),
{
    let at = all.index_of(write);
    assert(place_of(all[at]) == path.push(name));
}

/// The values that metadata carries are taken over.
proof fn lemma_described(bare: NodeView, node: NodeView, found: Found, required: Set<Ref>, reflection: Reflection)
    requires
        bare.class == node.class,
        node.properties.dom().finite(),
        found.metadata matches Some(metadata) ==> carries(metadata, node, required.contains(node.id), reflection),
        has_metadata(node, required.contains(node.id), reflection) ==> found.metadata is Some,
        forall|name: Seq<char>| #[trigger] bare.properties.dom().contains(name) ==> name == "Source"@,
    ensures
        described(bare, found.metadata, reflection) matches Ok(read) && {
            &&& read.name == bare.name
            &&& read.class == bare.class
            &&& read.children == bare.children
            &&& required.contains(node.id) ==> read.id == node.id
            &&& bare.properties.dom().contains("Source"@) ==> read.properties.dom().contains("Source"@)
                && read.properties["Source"@] == bare.properties["Source"@]
            &&& forall|name: Seq<char>| #[trigger]
                is_authored(node, name, reflection) ==> read.properties.dom().contains(name) && read.properties[name]
                    == node.properties[name]
        },
{
    let values = metadata_of(node, reflection);
    reveal_strlit("Source");
    reveal_strlit("Attributes");
    assert("Source"@.len() != "Attributes"@.len());
    assert forall|name: Seq<char>| #[trigger] is_authored(node, name, reflection) implies values.dom().contains(name)
        && values[name] == node.properties[name] by {}
    match found.metadata {
        None => {
            assert forall|name: Seq<char>| !#[trigger] is_authored(node, name, reflection) by {
                if is_authored(node, name, reflection) {
                    assert(values.dom().contains(name));
                }
            }
        },
        Some(metadata) => {
            let dom = metadata.properties.deep().dom();
            assert(dom =~= values.dom().remove("Attributes"@));
            assert(values.dom().subset_of(node.properties.dom()));
            vstd::set_lib::lemma_set_subset_finite(node.properties.dom(), dom);
            lemma_ordered_keys(dom);
            let keys = ordered_keys(dom);
            lemma_accepted_keys(reflection, node.class, keys);
            assert forall|k: int| 0 <= k < keys.len() implies property_fault(reflection, node.class, #[trigger] keys[k]) is None by {
                assert(keys.contains(keys[k]));
                assert(keys.to_set().contains(keys[k]));
                assert(values.dom().contains(keys[k]));
            }
            law_written_identities_are_read_back(node.id);
            let named = match metadata.id {
                Some(id) => NodeView { id: named_identity(id@), ..bare },
                None => bare,
            };
            let read = valued(named, metadata, node.class, reflection)->Ok_0;
            assert(!dom.contains("Source"@));
            assert forall|name: Seq<char>| #[trigger] is_authored(node, name, reflection) implies read.properties.dom().contains(
                name,
            ) && read.properties[name] == node.properties[name] by {
                assert(values.dom().contains(name));
                if name != "Attributes"@ {
                    assert(dom.contains(name));
                    assert(metadata.properties.deep()[name] == node.properties[name]);
                }
            }
        },
    }
}

/// A subtree that was written as a directory is read back from it.
#[verifier::rlimit(40)]
proof fn lemma_read_back(
    node: NodeView,
    path: Seq<Seq<char>>,
    all: Seq<WriteView>,
    directory: SourceDirectory,
    required: Set<Ref>,
    reflection: Reflection,
)
    requires
        !is_plain_script(node, required, reflection),
        tells_apart(node, required, reflection),
        representable(node),
        writes(node, path, required, reflection) is Ok,
        closed_below(writes(node, path, required, reflection)->Ok_0, path, all),
        holds(directory, path, all, reflection),
    ensures
        directory_node(directory, node.name, reflection) is Ok,
        directory_node(directory, node.name, reflection)->Ok_0.1,
        is_read(node, directory_node(directory, node.name, reflection)->Ok_0.0, required, reflection),
    decreases node, 1nat,
{
    let entries = directory.entries@;
    let count = entries.len() as int;
    assert forall|k: int| 0 <= k < entries.len() implies entry_read(node, #[trigger] entries[k], required, reflection) by {
        lemma_entry_read(node, path, all, directory, k, required, reflection);
    }
    lemma_entries_read(node, entries, count, directory.path@, required, reflection);
    assert(entries.take(count) =~= entries);
    let found = entries_found(entries, directory.path@, reflection)->Ok_0;
    lemma_no_collision(found.children);
    lemma_heads_found(node, path, all, directory, found, required, reflection);
    lemma_assembled(node, path, all, directory, found, required, reflection);
}

/// The directory of an instance has its source and its metadata, and something in it.
proof fn lemma_heads_found(
    node: NodeView,
    path: Seq<Seq<char>>,
    all: Seq<WriteView>,
    directory: SourceDirectory,
    found: Found,
    required: Set<Ref>,
    reflection: Reflection,
)
    requires
        !is_plain_script(node, required, reflection),
        tells_apart(node, required, reflection),
        representable(node),
        writes(node, path, required, reflection) is Ok,
        closed_below(writes(node, path, required, reflection)->Ok_0, path, all),
        holds(directory, path, all, reflection),
        heads_as(node, directory.entries@, directory.entries@.len() as int, found, required, reflection),
        forall|k: int|
            0 <= k < directory.entries@.len() ==> entry_read(
                node,
                #[trigger] directory.entries@[k],
                required,
                reflection,
            ),
    ensures
        found.portable,
        script_like(node.class) <==> found.init is Some,
        has_metadata(node, required.contains(node.id), reflection) ==> found.metadata is Some,
        forall|at: int|
            0 <= at < node.children.len() ==> exists|k: int|
                0 <= k < directory.entries@.len() && child_read(
                    #[trigger] node.children[at],
                    #[trigger] directory.entries@[k],
                    required,
                    reflection,
                ),
{
    let entries = directory.entries@;
    let count = entries.len() as int;
    let list = writes(node, path, required, reflection)->Ok_0;
    let own = own_writes(node, path, required, reflection)->Ok_0;
    let below = child_writes(node.children, path, required, reflection)->Ok_0;
    assert(list == own + below);
    let init = "init"@ + suffix_of(node.class);
    if script_like(node.class) {
        let write = WriteView::Text { path: path.push(init), contents: source_text(node)->Ok_0 };
        assert(own[1] == write);
        assert(list[1] == write);
        assert(list.contains(write));
        lemma_has_entry(directory, path, all, reflection, write, init);
    }
    if has_metadata(node, required.contains(node.id), reflection) {
        let write = WriteView::Meta { path: path.push("meta.json"@), node, persist_id: required.contains(node.id) };
        assert(own[own.len() - 1] == write);
        assert(list[own.len() - 1] == write);
        assert(list.contains(write));
        lemma_has_entry(directory, path, all, reflection, write, "meta.json"@);
        let k = choose|k: int| 0 <= k < count && (#[trigger] entries[k]).name@ == "meta.json"@;
        assert(entry_read(node, entries[k], required, reflection));
        if !(entries[k].kind is Meta) {
            if exists|at: int|
                0 <= at < node.children.len() && #[trigger] child_read(
                    node.children[at],
                    entries[k],
                    required,
                    reflection,
                ) {
                let at = choose|at: int|
                    0 <= at < node.children.len() && #[trigger] child_read(
                        node.children[at],
                        entries[k],
                        required,
                        reflection,
                    );
                lemma_child_entry(node, entries, at, k, required, reflection);
            } else {
                lemma_init_named(node.class);
            }
        }
    }
    assert forall|at: int| 0 <= at < node.children.len() implies exists|k: int|
        0 <= k < entries.len() && child_read(
            #[trigger] node.children[at],
            #[trigger] entries[k],
            required,
            reflection,
        ) by {
        lemma_child_has_entry(node, path, all, directory, at, required, reflection);
    }
    if node.children.len() > 0 {
        let k = choose|k: int|
            0 <= k < entries.len() && child_read(node.children[0], #[trigger] entries[k], required, reflection);
        assert(count > 0);
    }
    lemma_class_texts();
}

/// A child has an entry.
proof fn lemma_child_has_entry(
    node: NodeView,
    path: Seq<Seq<char>>,
    all: Seq<WriteView>,
    directory: SourceDirectory,
    at: int,
    required: Set<Ref>,
    reflection: Reflection,
)
    requires
        !is_plain_script(node, required, reflection),
        tells_apart(node, required, reflection),
        representable(node),
        writes(node, path, required, reflection) is Ok,
        closed_below(writes(node, path, required, reflection)->Ok_0, path, all),
        holds(directory, path, all, reflection),
        0 <= at < node.children.len(),
        forall|k: int|
            0 <= k < directory.entries@.len() ==> entry_read(
                node,
                #[trigger] directory.entries@[k],
                required,
                reflection,
            ),
    ensures
        exists|k: int|
            0 <= k < directory.entries@.len() && child_read(
                node.children[at],
                #[trigger] directory.entries@[k],
                required,
                reflection,
            ),
{
    let entries = directory.entries@;
    let count = entries.len() as int;
    let disk = name_on_disk(node.children[at], required, reflection);
    lemma_closed_child(node, path, all, at, required, reflection);
    lemma_written_below(node.children[at], path.push(disk), required, reflection);
    let there = written_for(node.children[at], path, required, reflection);
    assert(there.contains(there[0]));
    lemma_has_entry(directory, path, all, reflection, there[0], disk);
    let k = choose|k: int| 0 <= k < count && (#[trigger] entries[k]).name@ == disk;
    let entry = entries[k];
    assert(entry_read(node, entry, required, reflection));
    lemma_told(node, at, required, reflection);
    lemma_class_texts();
    if exists|other: int|
        0 <= other < node.children.len() && #[trigger] child_read(node.children[other], entry, required, reflection) {
        let other = choose|other: int|
            0 <= other < node.children.len() && #[trigger] child_read(node.children[other], entry, required, reflection);
        lemma_child_named(node.children[other], entry, required, reflection);
        lemma_same_child(node, other, at, required, reflection);
        assert(child_read(node.children[at], entries[k], required, reflection));
    } else if entry.kind is Meta {
        // The metadata of the instance was written, so no child has its name.
        let (written, persist_id) = choose|written: NodeView, persist_id: bool|
            all.contains(WriteView::Meta { path: path.push(entry.name@), node: written, persist_id })
                && #[trigger] carries(entry.kind->Meta_0, written, persist_id, reflection);
        let write = WriteView::Meta { path: path.push(entry.name@), node: written, persist_id };
        assert(path.push(disk).is_prefix_of(place_of(write))) by {
            assert(path.push(disk) =~= place_of(write).subrange(0, path.len() as int + 1));
        }
        assert(there.contains(write));
        assert(there[there.index_of(write)] == write);
    }
}

/// What was found makes up the instance.
proof fn lemma_assembled(
    node: NodeView,
    path: Seq<Seq<char>>,
    all: Seq<WriteView>,
    directory: SourceDirectory,
    found: Found,
    required: Set<Ref>,
    reflection: Reflection,
)
    requires
        directory.project is None,
        tells_apart(node, required, reflection),
        representable(node),
        entries_found(directory.entries@, directory.path@, reflection) == Ok::<Found, Seq<char>>(found),
        found_as(node, directory.entries@, directory.entries@.len() as int, found, required, reflection),
        refused_siblings(found.children, directory.path@) is None,
        found.portable,
        script_like(node.class) <==> found.init is Some,
        has_metadata(node, required.contains(node.id), reflection) ==> found.metadata is Some,
        forall|at: int|
            0 <= at < node.children.len() ==> exists|k: int|
                0 <= k < directory.entries@.len() && child_read(
                    #[trigger] node.children[at],
                    #[trigger] directory.entries@[k],
                    required,
                    reflection,
                ),
    ensures
        directory_node(directory, node.name, reflection) is Ok,
        directory_node(directory, node.name, reflection)->Ok_0.1,
        is_read(node, directory_node(directory, node.name, reflection)->Ok_0.0, required, reflection),
{
    let entries = directory.entries@;
    let count = entries.len() as int;
    let bare = NodeView {
        id: crate::hashing::stable_identity("source:"@ + directory.path@),
        name: node.name,
        raw_name: None,
        class: init_class(found.init),
        properties: match found.init {
            Some((_, source)) => source_property(source),
            None => Map::empty(),
        },
        children: found.children,
    };
    lemma_class_texts();
    assert(node.properties.dom().finite() && refused_name(node.name) is None) by {
        reveal(tells_apart);
    }
    if script_like(node.class) {
        lemma_init_named(node.class);
    }
    assert(bare.class == node.class);
    lemma_described(bare, node, found, required, reflection);
    let read = described(bare, found.metadata, reflection)->Ok_0;
    assert(directory_node(directory, node.name, reflection) == Ok::<(NodeView, bool), Seq<char>>((read, true)));
    assert forall|at: int| 0 <= at < node.children.len() implies is_among(
        #[trigger] node.children[at],
        found.children,
        required,
        reflection,
    ) by {
        let k = choose|k: int|
            0 <= k < entries.len() && child_read(node.children[at], #[trigger] entries[k], required, reflection);
        assert(child_read(node.children[at], entries[k], required, reflection));
    }
    lemma_as_many(node, entries, count, found.children, required, reflection);
    assert forall|i: int, j: int| 0 <= i < j < read.children.len() implies (#[trigger] read.children[i]).name != (
    #[trigger] read.children[j]).name by {
        assert(folded(found.children[i].name) != folded(found.children[j].name));
    }
    assert(node.class != "Folder"@ ==> read.properties.dom().contains("Source"@) && read.properties["Source"@] == (
    if node.properties.dom().contains("Source"@) {
        node.properties["Source"@]
    } else {
        VariantView::String(Seq::empty())
    })) by {
        if node.class != "Folder"@ {
            assert(script_like(node.class));
            assert(bare.properties.dom().contains("Source"@));
        }
    }
    lemma_made_up(node, read, required, reflection);
}

proof fn lemma_made_up(node: NodeView, read: NodeView, required: Set<Ref>, reflection: Reflection)
    requires
        read.name == node.name,
        read.class == node.class,
        required.contains(node.id) ==> read.id == node.id,
        node.class != "Folder"@ ==> read.properties.dom().contains("Source"@) && read.properties["Source"@] == (
        if node.properties.dom().contains("Source"@) {
            node.properties["Source"@]
        } else {
            VariantView::String(Seq::empty())
        }),
        forall|name: Seq<char>| #[trigger]
            is_authored(node, name, reflection) ==> read.properties.dom().contains(name) && read.properties[name]
                == node.properties[name],
        forall|at: int|
            0 <= at < node.children.len() ==> is_among(
                #[trigger] node.children[at],
                read.children,
                required,
                reflection,
            ),
        read.children.len() == node.children.len(),
        forall|i: int, j: int|
            0 <= i < j < read.children.len() ==> (#[trigger] read.children[i]).name != (
            #[trigger] read.children[j]).name,
    ensures
        is_read(node, read, required, reflection),
{
    reveal(is_read);
    assert forall|at: int| 0 <= at < node.children.len() implies names_of(read.children).contains(
        (#[trigger] node.children[at]).name,
    ) by {
        lemma_among_name(node.children[at], read.children, required, reflection);
    }
    assert forall|at: int, other: int|
        0 <= at < node.children.len() && 0 <= other < read.children.len() && (#[trigger] node.children[at]).name == (
        #[trigger] read.children[other]).name implies read_as(
        node.children[at],
        read.children[other],
        required,
        reflection,
    ) by {
        let child = node.children[at];
        assert(is_among(child, read.children, required, reflection));
        reveal(is_among);
        let j = choose|j: int|
            0 <= j < read.children.len() && #[trigger] is_read(child, read.children[j], required, reflection);
        lemma_read_name(child, read.children[j], required, reflection);
        if j < other {
            assert(read.children[j].name != read.children[other].name);
        } else if other < j {
            assert(read.children[other].name != read.children[j].name);
        }
    }
}

/// As many children were found as there are.
proof fn lemma_as_many(
    node: NodeView,
    entries: Seq<SourceEntry>,
    count: int,
    found: Seq<NodeView>,
    required: Set<Ref>,
    reflection: Reflection,
)
    requires
        names_differ(node.children),
        children_as(node, entries, count, found, required, reflection),
        forall|at: int|
            0 <= at < node.children.len() ==> is_among(#[trigger] node.children[at], found, required, reflection),
    ensures
        found.len() == node.children.len(),
{
    let given = names_of(node.children);
    let read = names_of(found);
    assert forall|name: Seq<char>| given.to_set().contains(name) implies read.to_set().contains(name) by {
        let at = given.index_of(name);
        lemma_among_name(node.children[at], found, required, reflection);
    }
    assert forall|name: Seq<char>| read.to_set().contains(name) implies given.to_set().contains(name) by {
        let j = read.index_of(name);
        assert(comes_from(node, entries, count, found[j], required, reflection));
        lemma_from_name(node, entries, count, found[j], required, reflection);
    }
    assert(given.to_set() =~= read.to_set());
    assert forall|i: int, j: int| 0 <= i < given.len() && 0 <= j < given.len() && i != j implies given[i] != given[j] by {
        if i < j {
            assert(folded(node.children[i].name) != folded(node.children[j].name));
        } else {
            assert(folded(node.children[j].name) != folded(node.children[i].name));
        }
    }
    assert forall|i: int, j: int| 0 <= i < read.len() && 0 <= j < read.len() && i != j implies read[i] != read[j] by {
        if i < j {
            assert(folded(found[i].name) != folded(found[j].name));
        } else {
            assert(folded(found[j].name) != folded(found[i].name));
        }
    }
    given.unique_seq_to_set();
    read.unique_seq_to_set();
}

proof fn lemma_among_name(child: NodeView, found: Seq<NodeView>, required: Set<Ref>, reflection: Reflection)
    requires
        is_among(child, found, required, reflection),
    ensures
        names_of(found).contains(child.name),
{
    reveal(is_among);
    let j = choose|j: int| 0 <= j < found.len() && #[trigger] is_read(child, found[j], required, reflection);
    lemma_read_name(child, found[j], required, reflection);
    assert(names_of(found)[j] == child.name);
}

proof fn lemma_from_name(
    node: NodeView,
    entries: Seq<SourceEntry>,
    count: int,
    child: NodeView,
    required: Set<Ref>,
    reflection: Reflection,
)
    requires
        comes_from(node, entries, count, child, required, reflection),
    ensures
        names_of(node.children).contains(child.name),
{
    reveal(comes_from);
    let (at, k) = choose|at: int, k: int|
        0 <= at < node.children.len() && 0 <= k < count && #[trigger] child_read(
            node.children[at],
            entries[k],
            required,
            reflection,
        ) && is_read(node.children[at], child, required, reflection);
    lemma_read_name(node.children[at], child, required, reflection);
    assert(names_of(node.children)[at] == child.name);
}

/// Source that is written is read back. Where a subtree that can stand on disk is written
/// as a directory, a directory that holds exactly what was written is read as an instance
/// of the same name and class, with the same source, the same authored values and, all the
/// way down, the same children, and with its identity where that had to be written down.
pub proof fn law_written_source_is_read_back(
    node: NodeView,
    path: Seq<Seq<char>>,
    directory: SourceDirectory,
    required: Set<Ref>,
    reflection: Reflection,
)
    requires
        representable(node),
        tells_apart(node, required, reflection),
        !is_plain_script(node, required, reflection),
        writes(node, path, required, reflection) is Ok,
        holds(directory, path, writes(node, path, required, reflection)->Ok_0, reflection),
    ensures
        directory_node(directory, node.name, reflection) matches Ok((read, _)) && read_as(
            node,
            read,
            required,
            reflection,
        ),
{
    let list = writes(node, path, required, reflection)->Ok_0;
    lemma_read_back(node, path, list, directory, required, reflection);
    reveal(is_read);
}

/// A script that is written as a file of its own is read back from it: the text of the file
/// is its source, and the name of the file says its class and its name.
pub proof fn law_written_scripts_are_read_back(
    node: NodeView,
    path: Seq<Seq<char>>,
    place: Seq<char>,
    required: Set<Ref>,
    reflection: Reflection,
)
    requires
        representable(node),
        tells_apart(node, required, reflection),
        is_plain_script(node, required, reflection),
        writes(node, path, required, reflection) is Ok,
    ensures
        writes(node, path, required, reflection)->Ok_0.len() == 1,
        writes(node, path, required, reflection)->Ok_0[0] matches WriteView::Text { path: written, contents } && written
            == path && named_script(name_on_disk(node, required, reflection), 0) == Some(node.name) && (script_node(
            place,
            name_on_disk(node, required, reflection),
            contents,
            node.name,
        ) matches Ok(read) && read_as(node, read, required, reflection)),
{
    lemma_written_below(node, path, required, reflection);
    law_file_names_say_what_scripts_are(node.name);
    reveal(tells_apart);
    lemma_class_texts();
    assert forall|name: Seq<char>| !#[trigger] is_authored(node, name, reflection) by {
        if is_authored(node, name, reflection) {
            assert(metadata_of(node, reflection).dom().contains(name));
        }
    }
}

} // verus!
