//! What the source map is for: it leads from a script to the file that holds it.

use crate::json_view::{Fields, JsonView};
use crate::names::path_below;
use crate::source_laws::{law_file_names_say_what_scripts_are, lemma_told_apart};
use crate::source_tree::{EntryKind, Source, SourceChild, SourceDirectory, SourceEntry, SourceNode};
use crate::sourcemap::{
    child_scripts, directory_scripts, entry_scripts, file_scripts, node_name, node_scripts, relisted, relisted_fields,
    relisted_nodes, script_at, source_scripts, ScriptPathView, Scripts,
};
use vstd::prelude::*;

verus! {

/// Every script of one list is in another.
pub open spec fn lists_all(list: Seq<ScriptPathView>, part: Seq<ScriptPathView>) -> bool {
    forall|k: int| 0 <= k < part.len() ==> list.contains(#[trigger] part[k])
}

proof fn lemma_joined(a: Seq<ScriptPathView>, b: Seq<ScriptPathView>)
    ensures
        lists_all(a + b, a),
        lists_all(a + b, b),
        forall|script: ScriptPathView| #[trigger]
            (a + b).contains(script) ==> a.contains(script) || b.contains(script),
{
    assert forall|k: int| 0 <= k < a.len() implies (a + b).contains(#[trigger] a[k]) by {
        assert((a + b)[k] == a[k]);
    }
    assert forall|k: int| 0 <= k < b.len() implies (a + b).contains(#[trigger] b[k]) by {
        assert((a + b)[a.len() + k] == b[k]);
    }
}

/// What an entry of a directory adds to the map.
spec fn added_by(entry: SourceEntry, relative: Seq<char>, route: Seq<Seq<char>>) -> Scripts {
    let path = path_below(relative, entry.name@);
    match entry.kind {
        EntryKind::Directory(below) => directory_scripts(below, path, route.push(entry.name@)),
        EntryKind::Other => Ok(Seq::empty()),
        _ => file_scripts(entry.name@, path, route),
    }
}

proof fn lemma_entries(entries: Seq<SourceEntry>, relative: Seq<char>, route: Seq<Seq<char>>, k: int)
    requires
        0 <= k < entries.len(),
        entry_scripts(entries, relative, route) is Ok,
    ensures
        added_by(entries[k], relative, route) is Ok,
        lists_all(entry_scripts(entries, relative, route)->Ok_0, added_by(entries[k], relative, route)->Ok_0),
    decreases entries.len(),
{
    let fewer = entries.drop_last();
    let before = entry_scripts(fewer, relative, route)->Ok_0;
    let own = added_by(entries.last(), relative, route)->Ok_0;
    lemma_joined(before, own);
    if k < entries.len() - 1 {
        assert(fewer[k] == entries[k]);
        lemma_entries(fewer, relative, route, k);
        let part = added_by(entries[k], relative, route)->Ok_0;
        let all = entry_scripts(entries, relative, route)->Ok_0;
        assert forall|j: int| 0 <= j < part.len() implies all.contains(#[trigger] part[j]) by {
            assert(before.contains(part[j]));
            let at = before.index_of(part[j]);
            assert(all.contains(before[at]));
        }
    }
}

proof fn lemma_entry_of(
    entries: Seq<SourceEntry>,
    relative: Seq<char>,
    route: Seq<Seq<char>>,
    script: ScriptPathView,
) -> (k: int)
    requires
        entry_scripts(entries, relative, route) is Ok,
        entry_scripts(entries, relative, route)->Ok_0.contains(script),
    ensures
        0 <= k < entries.len(),
        added_by(entries[k], relative, route) is Ok,
        added_by(entries[k], relative, route)->Ok_0.contains(script),
    decreases entries.len(),
{
    if entries.len() == 0 {
        0
    } else {
        let fewer = entries.drop_last();
        let before = entry_scripts(fewer, relative, route)->Ok_0;
        let own = added_by(entries.last(), relative, route)->Ok_0;
        lemma_joined(before, own);
        if own.contains(script) {
            entries.len() - 1
        } else {
            let k = lemma_entry_of(fewer, relative, route, script);
            assert(fewer[k] == entries[k]);
            k
        }
    }
}

/// The file is one of those that make their directory a script.
pub open spec fn makes_directory_script(file: Seq<char>) -> bool {
    ||| file == "init.luau"@ || file == "init.lua"@
    ||| file == "init.server.luau"@ || file == "init.server.lua"@
    ||| file == "init.client.luau"@ || file == "init.client.lua"@
}

/// The file holds the script of that name.
pub open spec fn holds_script(file: Seq<char>, stem: Seq<char>) -> bool {
    ||| file == stem + ".server.luau"@ || file == stem + ".server.lua"@
    ||| file == stem + ".client.luau"@ || file == stem + ".client.lua"@
    ||| (file == stem + ".luau"@ || file == stem + ".lua"@) && !".server"@.is_suffix_of(stem)
        && !".client"@.is_suffix_of(stem)
}

/// Every script file of a directory is listed under the route of its script: that of the
/// directory and its name, or the directory's own where the file makes the directory a
/// script. What is below a directory in it is listed below that one's name.
pub proof fn law_script_files_are_listed(
    directory: SourceDirectory,
    relative: Seq<char>,
    route: Seq<Seq<char>>,
    k: int,
    stem: Seq<char>,
)
    requires
        directory.project is None,
        directory_scripts(directory, relative, route) is Ok,
        0 <= k < directory.entries@.len(),
    ensures
        ({
            let list = directory_scripts(directory, relative, route)->Ok_0;
            let entry = directory.entries@[k];
            let path = path_below(relative, entry.name@);
            &&& entry.kind is Text && holds_script(entry.name@, stem) && stem != "init"@ && stem.len() > 0
                ==> list.contains(ScriptPathView { route: route.push(stem), path })
            &&& entry.kind is Text && makes_directory_script(entry.name@) ==> list.contains(ScriptPathView { route, path })
            &&& entry.kind matches EntryKind::Directory(below) ==> directory_scripts(
                below,
                path,
                route.push(entry.name@),
            ) is Ok && lists_all(list, directory_scripts(below, path, route.push(entry.name@))->Ok_0)
        }),
{
    let entry = directory.entries@[k];
    let list = directory_scripts(directory, relative, route)->Ok_0;
    lemma_entries(directory.entries@, relative, route, k);
    let own = added_by(entry, relative, route)->Ok_0;
    if entry.kind is Text && makes_directory_script(entry.name@) {
        assert(list.contains(own[0]));
    }
    if entry.kind is Text && holds_script(entry.name@, stem) && stem != "init"@ && stem.len() > 0 {
        law_file_names_say_what_scripts_are(stem);
        lemma_told_apart(stem, entry.name@);
        assert(list.contains(own[0]));
    }
}

/// Nothing is listed in a directory but the files in it: a listed script is that of a file
/// in the directory, under the directory's route or one name below it, or it is listed below
/// a directory in it.
pub proof fn law_listed_scripts_have_files(
    directory: SourceDirectory,
    relative: Seq<char>,
    route: Seq<Seq<char>>,
    script: ScriptPathView,
)
    requires
        directory.project is None,
        directory_scripts(directory, relative, route) is Ok,
        directory_scripts(directory, relative, route)->Ok_0.contains(script),
    ensures
        exists|k: int| #[trigger] comes_from(directory, k, relative, route, script),
{
    let k = lemma_entry_of(directory.entries@, relative, route, script);
    let entry = directory.entries@[k];
    reveal_with_fuel(crate::names::named_script, 8);
    if !(entry.kind is Directory) {
        let own = added_by(entry, relative, route)->Ok_0;
        assert(own.contains(script));
        let at = own.index_of(script);
        assert(own[at] == script);
        if !makes_directory_script(entry.name@) {
            let name = crate::names::named_script(entry.name@, 0)->0;
            assert(script.route == route.push(name));
            assert(script.route.drop_last() =~= route);
            assert(script.route.last() == name);
            assert(name.is_prefix_of(entry.name@));
        }
    }
    assert(comes_from(directory, k, relative, route, script));
}

/// A script that is listed for a directory comes from the entry at that place.
pub open spec fn comes_from(
    directory: SourceDirectory,
    k: int,
    relative: Seq<char>,
    route: Seq<Seq<char>>,
    script: ScriptPathView,
) -> bool {
    &&& 0 <= k < directory.entries@.len()
    &&& match directory.entries@[k].kind {
        EntryKind::Directory(below) => directory_scripts(
            below,
            path_below(relative, directory.entries@[k].name@),
            route.push(directory.entries@[k].name@),
        )->Ok_0.contains(script),
        EntryKind::Other => false,
        _ => {
            &&& script.path == path_below(relative, directory.entries@[k].name@)
            &&& if makes_directory_script(directory.entries@[k].name@) {
                script.route == route
            } else {
                &&& script.route.len() == route.len() + 1
                &&& script.route.drop_last() == route
                &&& script.route.last().len() > 0
                &&& script.route.last().is_prefix_of(directory.entries@[k].name@)
                &&& {
                    ||| ".luau"@.is_suffix_of(directory.entries@[k].name@)
                    ||| ".lua"@.is_suffix_of(directory.entries@[k].name@)
                    ||| ".toml"@.is_suffix_of(directory.entries@[k].name@)
                }
            }
        },
    }
}

proof fn lemma_children(children: Seq<SourceChild>, route: Seq<Seq<char>>, k: int)
    requires
        0 <= k < children.len(),
        child_scripts(children, route) is Ok,
    ensures
        node_scripts(children[k].node, route.push(children[k].name@)) is Ok,
        lists_all(
            child_scripts(children, route)->Ok_0,
            node_scripts(children[k].node, route.push(children[k].name@))->Ok_0,
        ),
    decreases children.len(),
{
    let fewer = children.drop_last();
    let before = child_scripts(fewer, route)->Ok_0;
    let own = node_scripts(children.last().node, route.push(children.last().name@))->Ok_0;
    lemma_joined(before, own);
    if k < children.len() - 1 {
        assert(fewer[k] == children[k]);
        lemma_children(fewer, route, k);
        let part = node_scripts(children[k].node, route.push(children[k].name@))->Ok_0;
        let all = child_scripts(children, route)->Ok_0;
        assert forall|j: int| 0 <= j < part.len() implies all.contains(#[trigger] part[j]) by {
            assert(before.contains(part[j]));
            let at = before.index_of(part[j]);
            assert(all.contains(before[at]));
        }
    }
}

/// What a project maps is listed where the project puts it: a mapped file under the route of
/// its node, what a mapped directory holds below that, and what is below a child of the node
/// under the child's name.
pub proof fn law_mapped_files_are_listed(node: SourceNode, route: Seq<Seq<char>>, k: int)
    requires
        node_scripts(node, route) is Ok,
        node.relative is Some,
    ensures
        ({
            let list = node_scripts(node, route)->Ok_0;
            let path = node.relative->0@;
            &&& node.source is File ==> list.contains(ScriptPathView { route, path })
            &&& node.source matches Source::Directory(directory) ==> directory_scripts(directory, path, route) is Ok
                && lists_all(list, directory_scripts(directory, path, route)->Ok_0)
            &&& 0 <= k < node.children@.len() ==> node_scripts(
                node.children@[k].node,
                route.push(node.children@[k].name@),
            ) is Ok && lists_all(
                list,
                node_scripts(node.children@[k].node, route.push(node.children@[k].name@))->Ok_0,
            )
        }),
{
    let own = source_scripts(node.source, node.relative->0@, route)->Ok_0;
    let below = child_scripts(node.children@, route)->Ok_0;
    let list = node_scripts(node, route)->Ok_0;
    lemma_joined(own, below);
    if node.source is File {
        assert(list.contains(own[0]));
    }
    if 0 <= k < node.children@.len() {
        lemma_children(node.children@, route, k);
        let part = node_scripts(node.children@[k].node, route.push(node.children@[k].name@))->Ok_0;
        assert forall|j: int| 0 <= j < part.len() implies list.contains(#[trigger] part[j]) by {
            assert(below.contains(part[j]));
            let at = below.index_of(part[j]);
            assert(list.contains(below[at]));
        }
    }
}

// ---------------------------------------------------------------------------
// The document

proof fn lemma_fields(fields: Fields, route: Seq<Seq<char>>, scripts: Seq<ScriptPathView>, root_file: Seq<char>)
    ensures
        ({
            let kept = relisted_fields(fields, route, scripts, root_file);
            &&& forall|k: int| 0 <= k < kept.len() ==> (#[trigger] kept[k]).0 != "filePaths"@
            &&& forall|k: int|
                0 <= k < fields.len() && (#[trigger] fields[k]).0 != "filePaths"@ ==> kept.contains(
                    relisted_field(fields[k], route, scripts, root_file),
                )
        }),
    decreases fields.len(),
{
    if fields.len() > 0 {
        let fewer = fields.drop_last();
        lemma_fields(fewer, route, scripts, root_file);
        let before = relisted_fields(fewer, route, scripts, root_file);
        let kept = relisted_fields(fields, route, scripts, root_file);
        assert forall|k: int| 0 <= k < fields.len() && (#[trigger] fields[k]).0 != "filePaths"@ implies kept.contains(
            relisted_field(fields[k], route, scripts, root_file),
        ) by {
            let field = relisted_field(fields[k], route, scripts, root_file);
            if k < fewer.len() {
                assert(fewer[k] == fields[k]);
                let at = before.index_of(field);
                assert(kept[at] == field);
            } else {
                assert(kept[kept.len() - 1] == field);
            }
        }
    }
}

/// A field of a node with the nodes below it relisted.
pub open spec fn relisted_field(
    field: (Seq<char>, JsonView),
    route: Seq<Seq<char>>,
    scripts: Seq<ScriptPathView>,
    root_file: Seq<char>,
) -> (Seq<char>, JsonView) {
    if field.0 == "children"@ && field.1 is Array {
        (field.0, JsonView::Array(relisted_nodes(field.1->Array_0, route, scripts, root_file)))
    } else {
        field
    }
}

/// The script of a route is held by the file that was listed for it last.
pub open spec fn held_by(scripts: Seq<ScriptPathView>, route: Seq<Seq<char>>, path: Seq<char>) -> bool {
    exists|at: int|
        0 <= at < scripts.len() && (#[trigger] scripts[at]).route == route && scripts[at].path == path && forall|later:
            int| at < later < scripts.len() ==> (#[trigger] scripts[later]).route != route
}

proof fn lemma_script_at(scripts: Seq<ScriptPathView>, route: Seq<Seq<char>>)
    ensures
        match script_at(scripts, route) {
            Some(path) => held_by(scripts, route, path),
            None => forall|k: int| 0 <= k < scripts.len() ==> (#[trigger] scripts[k]).route != route,
        },
    decreases scripts.len(),
{
    if scripts.len() > 0 {
        let fewer = scripts.drop_last();
        let last = scripts.len() - 1;
        lemma_script_at(fewer, route);
        assert(forall|k: int| 0 <= k < fewer.len() ==> #[trigger] scripts[k] == fewer[k]);
        if scripts.last().route == route {
            assert(scripts[last].route == route);
        } else {
            assert(scripts[last].route != route);
            if let Some(path) = script_at(fewer, route) {
                let at = choose|at: int|
                    0 <= at < fewer.len() && (#[trigger] fewer[at]).route == route && fewer[at].path == path && forall|
                        later: int,
                    | at < later < fewer.len() ==> (#[trigger] fewer[later]).route != route;
                assert(scripts[at].route == route);
                assert forall|later: int| at < later < scripts.len() implies (#[trigger] scripts[later]).route
                    != route by {
                    if later < fewer.len() {
                        assert(fewer[later].route != route);
                    }
                }
            }
        }
    }
}

/// A node of the map lists the file of its script, and no other: the root lists the project
/// file, a script the file that holds it, and any other node none. Its other fields stay,
/// but for what is below it.
pub proof fn law_nodes_list_their_files(
    fields: Fields,
    route: Seq<Seq<char>>,
    scripts: Seq<ScriptPathView>,
    root_file: Seq<char>,
    k: int,
)
    ensures
        ({
            let after = relisted(JsonView::Object(fields), route, scripts, root_file);
            &&& after is Object
            &&& 0 <= k < after->Object_0.len() && after->Object_0[k].0 == "filePaths"@ ==> {
                &&& after->Object_0[k].1 matches JsonView::Array(list) && list.len() == 1 && (list[0] matches JsonView::String(
                    file,
                ) && (if route.len() == 0 {
                    file == root_file
                } else {
                    held_by(scripts, route, file)
                }))
            }
            &&& (exists|at: int| 0 <= at < after->Object_0.len() && (#[trigger] after->Object_0[at]).0 == "filePaths"@)
                <==> (route.len() == 0 || exists|at: int|
                0 <= at < scripts.len() && (#[trigger] scripts[at]).route == route)
            &&& 0 <= k < fields.len() && fields[k].0 != "filePaths"@ ==> after->Object_0.contains(
                relisted_field(fields[k], route, scripts, root_file),
            )
        }),
{
    let kept = relisted_fields(fields, route, scripts, root_file);
    let after = relisted(JsonView::Object(fields), route, scripts, root_file)->Object_0;
    lemma_fields(fields, route, scripts, root_file);
    lemma_script_at(scripts, route);
    let listed = crate::sourcemap::listed_file(route, scripts, root_file);
    if listed is Some {
        assert(after[after.len() - 1].0 == "filePaths"@);
        assert(forall|j: int| 0 <= j < kept.len() ==> #[trigger] after[j] == kept[j]);
    }
    if 0 <= k < fields.len() && fields[k].0 != "filePaths"@ {
        let field = relisted_field(fields[k], route, scripts, root_file);
        assert(kept.contains(field));
        assert(after[kept.index_of(field)] == field);
    }
}

/// The nodes below a node are listed under its route and their names; there are as many as
/// there were.
pub proof fn law_nodes_below_are_relisted(
    list: Seq<JsonView>,
    route: Seq<Seq<char>>,
    scripts: Seq<ScriptPathView>,
    root_file: Seq<char>,
    k: int,
    name: Seq<char>,
)
    ensures
        ({
            let after = relisted_nodes(list, route, scripts, root_file);
            &&& after.len() == list.len()
            &&& 0 <= k < list.len() && node_name(list[k]) == Some(name) ==> after[k] == relisted(
                list[k],
                route.push(name),
                scripts,
                root_file,
            )
            &&& 0 <= k < list.len() && node_name(list[k]) is None ==> after[k] == list[k]
        }),
    decreases list.len(),
{
    if list.len() > 0 {
        let fewer = list.drop_last();
        law_nodes_below_are_relisted(fewer, route, scripts, root_file, k, name);
        if 0 <= k < fewer.len() {
            assert(fewer[k] == list[k]);
        }
    }
}

} // verus!
