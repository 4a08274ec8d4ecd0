//! Names: of projects and their data, of scripts on disk, of instances and
//! attributes, and of identities.

use crate::hashing::{stable_identity, stable_ref};
use crate::text::{
    chars_of, copy_texts, digit_char, ends_with, hex, join, joined, ref_chars, starts_with, strip_suffix, text_bytes, text_of,
    separated, texts,
};
use crate::Ref;
use vstd::prelude::*;
use vstd::string::StringSliceAdditionalSpecFns;

verus! {

/// Why a name or a path is refused.
#[derive(Debug)]
pub enum NameError {
    NoFileName,
    NotAProject,
    EmptyPath,
    AbsolutePath,
    UnsafePath(String),
    Uninspected(String),
    EmptyIdentity,
    IdentityWhitespace,
    EmptyInstance,
    NotPortable(String),
    NonPortableSuffix(String),
    Reserved(String),
    AttributeLength,
    AttributePrefix,
    InvalidAttribute(String),
    NoScriptName(String),
    UnsupportedForm(String),
    UnsupportedSource(String),
}

impl NameError {
    pub open spec fn text(self) -> Seq<char> {
        match self {
            NameError::NoFileName => "Carbon project path has no UTF-8 file name"@,
            NameError::NotAProject => "Carbon project must end in .carbon.json"@,
            NameError::EmptyPath => "$path may not be empty"@,
            NameError::AbsolutePath => "$path must be relative to the project file"@,
            NameError::UnsafePath(path) => "$path contains unsafe components: "@ + path@,
            NameError::Uninspected(path) => "failed to inspect mapped path "@ + path@,
            NameError::EmptyIdentity => "filesystem identity may not be empty"@,
            NameError::IdentityWhitespace => "filesystem identity may not have surrounding whitespace"@,
            NameError::EmptyInstance => "filesystem-owned instance name may not be empty"@,
            NameError::NotPortable(name) => "filesystem-owned instance name is not portable: "@ + name@,
            NameError::NonPortableSuffix(name) => "filesystem-owned instance name has a non-portable suffix: "@
                + name@,
            NameError::Reserved(name) => "filesystem-owned instance name is reserved on Windows: "@ + name@,
            NameError::AttributeLength => "attribute name must contain 1-100 bytes"@,
            NameError::AttributePrefix => "attribute name may not begin with RBX"@,
            NameError::InvalidAttribute(name) => "invalid Roblox attribute name '"@ + name@ + "'"@,
            NameError::NoScriptName(file) => "script file has no Roblox name: "@ + file@,
            NameError::UnsupportedForm(file) => "unsupported mapped file form "@ + file@
                + "; only Lua/Luau scripts, TOML modules, and meta.json are accepted"@,
            NameError::UnsupportedSource(file) => "unsupported mapped source file "@ + file@,
        }
    }

    pub fn message(&self) -> (message: String)
        ensures
            message@ == self.text(),
    {
        match self {
            NameError::NoFileName => "Carbon project path has no UTF-8 file name".to_owned(),
            NameError::NotAProject => "Carbon project must end in .carbon.json".to_owned(),
            NameError::EmptyPath => "$path may not be empty".to_owned(),
            NameError::AbsolutePath => "$path must be relative to the project file".to_owned(),
            NameError::UnsafePath(path) => joined("$path contains unsafe components: ", path.as_str()),
            NameError::Uninspected(path) => joined("failed to inspect mapped path ", path.as_str()),
            NameError::EmptyIdentity => "filesystem identity may not be empty".to_owned(),
            NameError::IdentityWhitespace => "filesystem identity may not have surrounding whitespace".to_owned(),
            NameError::EmptyInstance => "filesystem-owned instance name may not be empty".to_owned(),
            NameError::NotPortable(name) => joined(
                "filesystem-owned instance name is not portable: ",
                name.as_str(),
            ),
            NameError::NonPortableSuffix(name) => joined(
                "filesystem-owned instance name has a non-portable suffix: ",
                name.as_str(),
            ),
            NameError::Reserved(name) => joined(
                "filesystem-owned instance name is reserved on Windows: ",
                name.as_str(),
            ),
            NameError::AttributeLength => "attribute name must contain 1-100 bytes".to_owned(),
            NameError::AttributePrefix => "attribute name may not begin with RBX".to_owned(),
            NameError::InvalidAttribute(name) => joined(
                joined("invalid Roblox attribute name '", name.as_str()).as_str(),
                "'",
            ),
            NameError::NoScriptName(file) => joined("script file has no Roblox name: ", file.as_str()),
            NameError::UnsupportedForm(file) => joined(
                joined("unsupported mapped file form ", file.as_str()).as_str(),
                "; only Lua/Luau scripts, TOML modules, and meta.json are accepted",
            ),
            NameError::UnsupportedSource(file) => joined("unsupported mapped source file ", file.as_str()),
        }
    }
}

// ---------------------------------------------------------------------------
// Projects

/// The file name of a path, given by its components.
pub open spec fn file_name(path: Seq<Seq<char>>) -> Option<Seq<char>> {
    if path.len() == 0 || path.last() == "/"@ || path.last() == "."@ || path.last() == ".."@ {
        None
    } else {
        Some(path.last())
    }
}

fn file_name_of(path: &Vec<String>) -> (name: Option<&String>)
    ensures
        match file_name(texts(path@)) {
            Some(expected) => name matches Some(name) && name@ == expected,
            None => name is None,
        },
{
    if path.len() == 0 {
        return None;
    }
    let last: &String = &path[path.len() - 1];
    proof {
        assert(texts(path@).last() == last@);
    }
    if last.as_str().eq("/") || last.as_str().eq(".") || last.as_str().eq("..") {
        return None;
    }
    Some(last)
}

/// Whether a path, given by its components, is that of a project.
pub fn is_project_path(path: &Vec<String>) -> (is: bool)
    ensures
        is == (file_name(texts(path@)) matches Some(name) && ".carbon.json"@.is_suffix_of(name)),
{
    match file_name_of(path) {
        Some(name) => ends_with(name.as_str(), ".carbon.json"),
        None => false,
    }
}

/// The directory of a project's data stands beside it: the same name, with `.data`
/// in place of `.json`.
pub fn data_dir(project_path: &Vec<String>) -> (dir: Result<Vec<String>, NameError>)
    ensures
        match file_name(texts(project_path@)) {
            None => dir == Err::<Vec<String>, NameError>(NameError::NoFileName),
            Some(name) => if !".json"@.is_suffix_of(name) {
                dir == Err::<Vec<String>, NameError>(NameError::NotAProject)
            } else {
                dir matches Ok(dir) && texts(dir@) == texts(project_path@).drop_last().push(
                    name.take(name.len() - ".json"@.len()) + ".data"@,
                )
            },
        },
{
    let name: &String = match file_name_of(project_path) {
        Some(name) => name,
        None => {
            return Err(NameError::NoFileName);
        },
    };
    let stem: String = match strip_suffix(name.as_str(), ".json") {
        Some(stem) => stem,
        None => {
            return Err(NameError::NotAProject);
        },
    };
    let mut dir: Vec<String> = copy_texts(project_path);
    dir.pop();
    dir.push(joined(stem.as_str(), ".data"));
    proof {
        let suffix = ".json"@;
        assert(name@ == stem@ + suffix);
        assert(suffix.is_suffix_of(name@)) by {
            assert(name@.subrange(name@.len() - suffix.len(), name@.len() as int) =~= suffix);
        }
        assert(name@.take(name@.len() - suffix.len()) =~= stem@);
        assert(texts(dir@) =~= texts(project_path@).drop_last().push(stem@ + ".data"@));
    }
    Ok(dir)
}

/// The artifact in the directory of a project's data.
pub fn data_artifact(project_path: &Vec<String>) -> (artifact: Result<Vec<String>, NameError>)
    ensures
        match file_name(texts(project_path@)) {
            None => artifact == Err::<Vec<String>, NameError>(NameError::NoFileName),
            Some(name) => if !".json"@.is_suffix_of(name) {
                artifact == Err::<Vec<String>, NameError>(NameError::NotAProject)
            } else {
                artifact matches Ok(artifact) && texts(artifact@) == texts(project_path@).drop_last().push(
                    name.take(name.len() - ".json"@.len()) + ".data"@,
                ).push("state.carbon"@)
            },
        },
{
    let mut dir: Vec<String> = match data_dir(project_path) {
        Ok(dir) => dir,
        Err(error) => {
            return Err(error);
        },
    };
    let ghost before = texts(dir@);
    dir.push("state.carbon".to_owned());
    proof {
        assert(texts(dir@) =~= before.push("state.carbon"@));
    }
    Ok(dir)
}

/// What is known of a project.
#[derive(Debug)]
pub struct Inspection {
    pub name: String,
    pub data_artifact: Vec<String>,
}

impl Inspection {
    /// A project is always a place.
    pub fn is_place(&self) -> (is: bool)
        ensures
            is,
    {
        true
    }
}

/// Why a project cannot be inspected.
#[derive(Debug)]
pub enum InspectionError {
    Project(String),
    Path(NameError),
    /// The artifact is missing.
    NoArtifact(Vec<String>),
    Artifact(String),
    NotAPlace,
}

/// Inspects a project. `project` is its name or why it cannot be loaded, `present`
/// whether its artifact is there, and `studio` whether that holds a place, or why it
/// cannot be read.
pub fn inspect(project_path: &Vec<String>, project: Result<String, String>, present: bool, studio: Result<bool, String>) -> (inspection:
    Result<Inspection, InspectionError>)
    ensures
        match project {
            Err(reason) => inspection == Err::<Inspection, InspectionError>(InspectionError::Project(reason)),
            Ok(name) => match file_name(texts(project_path@)) {
                None => inspection == Err::<Inspection, InspectionError>(
                    InspectionError::Path(NameError::NoFileName),
                ),
                Some(file) => if !".json"@.is_suffix_of(file) {
                    inspection == Err::<Inspection, InspectionError>(InspectionError::Path(NameError::NotAProject))
                } else {
                    let artifact = texts(project_path@).drop_last().push(
                        file.take(file.len() - ".json"@.len()) + ".data"@,
                    ).push("state.carbon"@);
                    if !present {
                        inspection matches Err(InspectionError::NoArtifact(path)) && texts(path@) == artifact
                    } else {
                        match studio {
                            Err(reason) => inspection == Err::<Inspection, InspectionError>(
                                InspectionError::Artifact(reason),
                            ),
                            Ok(place) => if place {
                                inspection matches Ok(found) && found.name == name && texts(found.data_artifact@)
                                    == artifact
                            } else {
                                inspection == Err::<Inspection, InspectionError>(InspectionError::NotAPlace)
                            },
                        }
                    }
                },
            },
        },
{
    let name: String = match project {
        Ok(name) => name,
        Err(reason) => {
            return Err(InspectionError::Project(reason));
        },
    };
    let artifact: Vec<String> = match data_artifact(project_path) {
        Ok(artifact) => artifact,
        Err(error) => {
            return Err(InspectionError::Path(error));
        },
    };
    if !present {
        return Err(InspectionError::NoArtifact(artifact));
    }
    match studio {
        Err(reason) => Err(InspectionError::Artifact(reason)),
        Ok(place) => if place {
            Ok(Inspection { name, data_artifact: artifact })
        } else {
            Err(InspectionError::NotAPlace)
        },
    }
}

// ---------------------------------------------------------------------------
// Mapped paths

/// A path below a directory.
pub open spec fn path_below(root: Seq<char>, relative: Seq<char>) -> Seq<char> {
    if root.len() == 0 {
        relative
    } else if root.last() == '/' {
        root + relative
    } else {
        root + "/"@ + relative
    }
}

/// A character that separates the components of a path.
pub open spec fn is_separator(c: char, windows: bool) -> bool {
    c == '/' || (windows && c == '\\')
}

/// A path that names a drive.
pub open spec fn names_drive(path: Seq<char>) -> bool {
    path.len() >= 2 && path[1] == ':' && ('a' <= path[0] <= 'z' || 'A' <= path[0] <= 'Z')
}

/// Why a path may not be mapped. On Windows one that starts at a root without a drive,
/// or names a drive without its root, is not absolute, yet leads out of the project.
pub open spec fn refused_path(path: Seq<char>, windows: bool) -> Option<Seq<char>> {
    if path.len() == 0 {
        Some("$path may not be empty"@)
    } else if !windows {
        if is_separator(path[0], windows) {
            Some("$path must be relative to the project file"@)
        } else {
            None
        }
    } else if names_drive(path) {
        if path.len() >= 3 && is_separator(path[2], windows) {
            Some("$path must be relative to the project file"@)
        } else {
            Some("$path contains unsafe components: "@ + path)
        }
    } else if is_separator(path[0], windows) {
        if path.len() >= 2 && is_separator(path[1], windows) {
            Some("$path must be relative to the project file"@)
        } else {
            Some("$path contains unsafe components: "@ + path)
        }
    } else {
        None
    }
}

fn separates(c: char, windows: bool) -> (separates: bool)
    ensures
        separates == is_separator(c, windows),
{
    c == '/' || (windows && c == '\\')
}

fn check_path(path: &str, windows: bool) -> (checked: Result<(), NameError>)
    ensures
        match refused_path(path@, windows) {
            Some(text) => checked matches Err(error) && error.text() == text,
            None => checked is Ok,
        },
{
    let chars: Vec<char> = chars_of(path);
    if chars.len() == 0 {
        return Err(NameError::EmptyPath);
    }
    let rooted: bool = separates(chars[0], windows);
    if !windows {
        return if rooted {
            Err(NameError::AbsolutePath)
        } else {
            Ok(())
        };
    }
    let letter: bool = ('a' <= chars[0] && chars[0] <= 'z') || ('A' <= chars[0] && chars[0] <= 'Z');
    if chars.len() >= 2 && chars[1] == ':' && letter {
        return if chars.len() >= 3 && separates(chars[2], windows) {
            Err(NameError::AbsolutePath)
        } else {
            Err(NameError::UnsafePath(path.to_owned()))
        };
    }
    if rooted {
        return if chars.len() >= 2 && separates(chars[1], windows) {
            Err(NameError::AbsolutePath)
        } else {
            Err(NameError::UnsafePath(path.to_owned()))
        };
    }
    Ok(())
}

/// A path below a directory.
pub(crate) fn below(root: &str, relative: &str) -> (path: String)
    ensures
        path@ == path_below(root@, relative@),
{
    let above: Vec<char> = chars_of(root);
    if above.len() == 0 {
        return relative.to_owned();
    }
    if above[above.len() - 1] == '/' {
        return joined(root, relative);
    }
    joined(joined(root, "/").as_str(), relative)
}

/// Where the last component of a path begins.
pub open spec fn component_start(path: Seq<char>, windows: bool) -> int
    decreases path.len(),
{
    if path.len() == 0 || is_separator(path.last(), windows) {
        path.len() as int
    } else {
        component_start(path.drop_last(), windows)
    }
}

proof fn lemma_component_start(path: Seq<char>, windows: bool)
    ensures
        0 <= component_start(path, windows) <= path.len(),
    decreases path.len(),
{
    if path.len() > 0 && !is_separator(path.last(), windows) {
        lemma_component_start(path.drop_last(), windows);
    }
}

/// The components of a path, without the empty ones and those that stand for the
/// directory that they are in.
pub open spec fn components_of(path: Seq<char>, windows: bool) -> Seq<Seq<char>>
    decreases path.len(),
    via components_of_decreases
{
    let at = component_start(path, windows);
    let before = if at > 0 {
        components_of(path.take(at - 1), windows)
    } else {
        Seq::empty()
    };
    let last = path.skip(at);
    if last.len() == 0 || last == "."@ {
        before
    } else {
        before.push(last)
    }
}

#[via_fn]
proof fn components_of_decreases(path: Seq<char>, windows: bool) {
    lemma_component_start(path, windows);
}

/// Where the next separator stands.
pub open spec fn next_separator(path: Seq<char>, from: int) -> int
    decreases path.len() - from,
{
    if from < 0 || from >= path.len() || is_separator(path[from], true) {
        from
    } else {
        next_separator(path, from + 1)
    }
}

/// How long the part of a path is that names its drive, or the share of a server. Only
/// paths on Windows have one.
pub open spec fn prefix_len(path: Seq<char>, windows: bool) -> int {
    if !windows {
        0
    } else if names_drive(path) {
        2
    } else if path.len() >= 2 && is_separator(path[0], true) && is_separator(path[1], true) {
        let server = next_separator(path, 2);
        let share = next_separator(path, server + 1);
        if 2 < server < path.len() && server + 1 < share <= path.len() {
            share
        } else {
            0
        }
    } else {
        0
    }
}

/// Whether a path starts at a root. A share does by itself.
pub open spec fn is_rooted(path: Seq<char>, windows: bool) -> bool {
    let from = prefix_len(path, windows);
    from > 2 || (from < path.len() && is_separator(path[from], windows))
}

/// Components with one more: a way up takes the name before it away. Above a root there is
/// nothing.
pub open spec fn walked(names: Seq<Seq<char>>, name: Seq<char>, rooted: bool) -> Seq<Seq<char>> {
    if name != ".."@ {
        names.push(name)
    } else if names.len() > 0 && names.last() != ".."@ {
        names.drop_last()
    } else if rooted {
        names
    } else {
        names.push(name)
    }
}

/// Components without their detours.
pub open spec fn without_detours(names: Seq<Seq<char>>, rooted: bool) -> Seq<Seq<char>>
    decreases names.len(),
{
    if names.len() == 0 {
        Seq::empty()
    } else {
        walked(without_detours(names.drop_last(), rooted), names.last(), rooted)
    }
}

/// What separates the components of a path that is written.
pub open spec fn separator(windows: bool) -> Seq<char> {
    if windows {
        "\\"@
    } else {
        "/"@
    }
}

/// A path below a directory, without its detours: where the directory starts, and the
/// components of both.
pub open spec fn cleaned_below(root: Seq<char>, relative: Seq<char>, windows: bool) -> Seq<char> {
    let from = prefix_len(root, windows);
    let rooted = is_rooted(root, windows);
    let names = without_detours(
        components_of(root.skip(from), windows) + components_of(relative, windows),
        rooted,
    );
    let start = root.take(from) + if rooted {
        separator(windows)
    } else {
        Seq::empty()
    };
    if start.len() == 0 && names.len() == 0 {
        "."@
    } else {
        start + separated(names, separator(windows))
    }
}

fn push_components(chars: &Vec<char>, from: usize, to: usize, windows: bool, names: &mut Vec<String>)
    requires
        from <= to <= chars@.len(),
    ensures
        texts(final(names)@) == texts(old(names)@) + components_of(
            chars@.subrange(from as int, to as int),
            windows,
        ),
    decreases to,
{
    let ghost path = chars@.subrange(from as int, to as int);
    let mut at: usize = to;
    proof {
        assert(path.take(path.len() as int) =~= path);
    }
    while at > from && !separates(chars[at - 1], windows)
        invariant
            from <= at <= to <= chars@.len(),
            path == chars@.subrange(from as int, to as int),
            component_start(path, windows) == component_start(path.take(at - from), windows),
        decreases at,
    {
        proof {
            assert(path.take(at - from).drop_last() =~= path.take(at - from - 1));
            assert(path.take(at - from).last() == chars@[at - 1]);
        }
        at = at - 1;
    }
    let ghost start = component_start(path, windows);
    proof {
        if at > from {
            assert(path.take(at - from).last() == chars@[at - 1]);
        }
        assert(start == at - from);
    }
    let ghost given = texts(names@);
    if at > from {
        push_components(chars, from, at - 1, windows, names);
        proof {
            assert(chars@.subrange(from as int, at - 1) =~= path.take(start - 1));
        }
    }
    let last: String = text_of(chars, at, to);
    let ghost before = texts(names@);
    proof {
        assert(last@ =~= path.skip(start));
        if at == from {
            assert(before =~= given + Seq::<Seq<char>>::empty());
        }
    }
    if at < to && !last.as_str().eq(".") {
        names.push(last);
        proof {
            assert(texts(names@) =~= before.push(path.skip(start)));
            assert(texts(names@) =~= given + components_of(path, windows));
        }
    }
}

fn find_separator(chars: &Vec<char>, from: usize) -> (at: usize)
    requires
        from <= chars@.len(),
    ensures
        from <= at <= chars@.len(),
        at == next_separator(chars@, from as int),
{
    let mut at: usize = from;
    while at < chars.len() && !separates(chars[at], true)
        invariant
            from <= at <= chars@.len(),
            next_separator(chars@, from as int) == next_separator(chars@, at as int),
        decreases chars@.len() - at,
    {
        at = at + 1;
    }
    at
}

fn find_prefix(chars: &Vec<char>, windows: bool) -> (len: usize)
    ensures
        len == prefix_len(chars@, windows),
        len <= chars@.len(),
{
    if !windows || chars.len() < 2 {
        return 0;
    }
    let letter: bool = ('a' <= chars[0] && chars[0] <= 'z') || ('A' <= chars[0] && chars[0] <= 'Z');
    if chars[1] == ':' && letter {
        return 2;
    }
    if separates(chars[0], true) && separates(chars[1], true) {
        let server: usize = find_separator(chars, 2);
        if server > 2 && server < chars.len() {
            let share: usize = find_separator(chars, server + 1);
            if share > server + 1 {
                return share;
            }
        }
    }
    0
}

fn drop_detours(names: &Vec<String>, rooted: bool) -> (kept: Vec<String>)
    ensures
        texts(kept@) == without_detours(texts(names@), rooted),
{
    let ghost all = texts(names@);
    let mut kept: Vec<String> = Vec::new();
    let mut at: usize = 0;
    proof {
        assert(all.take(0) =~= Seq::empty());
        assert(texts(kept@) =~= Seq::empty());
    }
    while at < names.len()
        invariant
            at <= names@.len(),
            all == texts(names@),
            texts(kept@) == without_detours(all.take(at as int), rooted),
        decreases names@.len() - at,
    {
        let ghost before = texts(kept@);
        let name: &String = &names[at];
        proof {
            assert(all.take(at + 1).drop_last() =~= all.take(at as int));
            assert(all.take(at + 1).last() == name@);
        }
        let up: bool = name.as_str().eq("..");
        let held: bool = kept.len() > 0 && !kept[kept.len() - 1].as_str().eq("..");
        if up && held {
            kept.pop();
            proof {
                assert(texts(kept@) =~= before.drop_last());
            }
        } else if !up || !rooted {
            kept.push(name.clone());
            proof {
                assert(texts(kept@) =~= before.push(name@));
            }
        }
        at = at + 1;
    }
    proof {
        assert(all.take(names@.len() as int) =~= all);
    }
    kept
}

/// Puts a path below a directory, without its detours.
pub fn clean_below(root: &str, relative: &str, windows: bool) -> (path: String)
    ensures
        path@ == cleaned_below(root@, relative@, windows),
{
    let above: Vec<char> = chars_of(root);
    let below: Vec<char> = chars_of(relative);
    let from: usize = find_prefix(&above, windows);
    let rooted: bool = from > 2 || (from < above.len() && separates(above[from], windows));
    let mut names: Vec<String> = Vec::new();
    push_components(&above, from, above.len(), windows, &mut names);
    push_components(&below, 0, below.len(), windows, &mut names);
    proof {
        assert(above@.subrange(from as int, above@.len() as int) =~= root@.skip(from as int));
        assert(below@.subrange(0, below@.len() as int) =~= relative@);
        assert(texts(names@) =~= components_of(root@.skip(from as int), windows) + components_of(
            relative@,
            windows,
        ));
    }
    let kept: Vec<String> = drop_detours(&names, rooted);
    if from == 0 && !rooted && kept.len() == 0 {
        proof {
            assert(root@.take(0) + Seq::<char>::empty() =~= Seq::empty());
        }
        return ".".to_owned();
    }
    let between: &str = if windows {
        "\\"
    } else {
        "/"
    };
    let mut path: String = text_of(&above, 0, from);
    proof {
        assert(above@.subrange(0, from as int) =~= root@.take(from as int));
        reveal_strlit("/");
        reveal_strlit("\\");
        assert(root@.take(from as int) + Seq::<char>::empty() =~= root@.take(from as int));
    }
    if rooted {
        path.append(between);
    }
    path.append(join(&kept, between).as_str());
    path
}

/// Resolves a mapped path against the directory of its project.
pub fn resolve_mapped_path(root: &str, relative: &str, windows: bool) -> (path: Result<String, NameError>)
    ensures
        match refused_path(relative@, windows) {
            Some(text) => path matches Err(error) && error.text() == text,
            None => path matches Ok(path) && path@ == cleaned_below(root@, relative@, windows),
        },
{
    match check_path(relative, windows) {
        Ok(()) => Ok(clean_below(root, relative, windows)),
        Err(error) => Err(error),
    }
}

// ---------------------------------------------------------------------------
// Scripts on disk

/// The suffixes of mapped scripts, in the order in which they are tried.
pub open spec fn script_suffixes() -> Seq<Seq<char>> {
    seq![
        ".server.luau"@,
        ".client.luau"@,
        ".server.lua"@,
        ".client.lua"@,
        ".luau"@,
        ".lua"@,
        ".toml"@,
    ]
}

/// The name of a script: its file without the first of the suffixes, from `at` on,
/// that it ends in.
pub open spec fn named_script(file: Seq<char>, at: int) -> Option<Seq<char>>
    decreases script_suffixes().len() - at,
{
    if at < 0 || at >= script_suffixes().len() {
        None
    } else if script_suffixes()[at].is_suffix_of(file) {
        Some(file.take(file.len() - script_suffixes()[at].len()))
    } else {
        named_script(file, at + 1)
    }
}

fn without_suffix(file: &str, suffix: &str) -> (name: Option<String>)
    ensures
        match name {
            Some(name) => suffix@.is_suffix_of(file@) && name@ == file@.take(file@.len() - suffix@.len()),
            None => !suffix@.is_suffix_of(file@),
        },
{
    match strip_suffix(file, suffix) {
        Some(name) => {
            proof {
                assert(file@.subrange(file@.len() - suffix@.len(), file@.len() as int) =~= suffix@);
                assert(file@.take(file@.len() - suffix@.len()) =~= name@);
            }
            Some(name)
        },
        None => None,
    }
}

/// The name of the instance that a mapped script file stands for.
pub fn script_name(file_name: &str) -> (name: Result<String, NameError>)
    ensures
        match named_script(file_name@, 0) {
            Some(expected) => if expected.len() == 0 {
                name matches Err(NameError::NoScriptName(file)) && file@ == file_name@
            } else {
                name matches Ok(name) && name@ == expected
            },
            None => name matches Err(NameError::UnsupportedForm(file)) && file@ == file_name@,
        },
{
    proof {
        reveal_with_fuel(named_script, 8);
    }
    let mut found: Option<String> = without_suffix(file_name, ".server.luau");
    if found.is_none() {
        found = without_suffix(file_name, ".client.luau");
    }
    if found.is_none() {
        found = without_suffix(file_name, ".server.lua");
    }
    if found.is_none() {
        found = without_suffix(file_name, ".client.lua");
    }
    if found.is_none() {
        found = without_suffix(file_name, ".luau");
    }
    if found.is_none() {
        found = without_suffix(file_name, ".lua");
    }
    if found.is_none() {
        found = without_suffix(file_name, ".toml");
    }
    match found {
        Some(name) => if name.as_str().unicode_len() == 0 {
            Err(NameError::NoScriptName(file_name.to_owned()))
        } else {
            Ok(name)
        },
        None => Err(NameError::UnsupportedForm(file_name.to_owned())),
    }
}

/// The class that a mapped script file stands for.
pub open spec fn script_class_of(file: Seq<char>) -> Option<Seq<char>> {
    if ".server.luau"@.is_suffix_of(file) || ".server.lua"@.is_suffix_of(file) {
        Some("Script"@)
    } else if ".client.luau"@.is_suffix_of(file) || ".client.lua"@.is_suffix_of(file) {
        Some("LocalScript"@)
    } else if is_source_file(file) {
        Some("ModuleScript"@)
    } else {
        None
    }
}

/// A file that holds a script or a module.
pub open spec fn is_source_file(file: Seq<char>) -> bool {
    ".luau"@.is_suffix_of(file) || ".lua"@.is_suffix_of(file) || ".toml"@.is_suffix_of(file)
}

pub fn is_script_source_file(file_name: &str) -> (is: bool)
    ensures
        is == is_source_file(file_name@),
{
    ends_with(file_name, ".luau") || ends_with(file_name, ".lua") || ends_with(file_name, ".toml")
}

pub fn script_class(file_name: &str) -> (class: Result<&'static str, NameError>)
    ensures
        match script_class_of(file_name@) {
            Some(expected) => class matches Ok(class) && class@ == expected,
            None => class matches Err(NameError::UnsupportedSource(file)) && file@ == file_name@,
        },
{
    if ends_with(file_name, ".server.luau") || ends_with(file_name, ".server.lua") {
        Ok("Script")
    } else if ends_with(file_name, ".client.luau") || ends_with(file_name, ".client.lua") {
        Ok("LocalScript")
    } else if is_script_source_file(file_name) {
        Ok("ModuleScript")
    } else {
        Err(NameError::UnsupportedSource(file_name.to_owned()))
    }
}

/// A file that makes its directory a script.
pub open spec fn is_init_file(file: Seq<char>) -> bool {
    ||| file == "init.luau"@
    ||| file == "init.server.luau"@
    ||| file == "init.client.luau"@
    ||| file == "init.lua"@
    ||| file == "init.server.lua"@
    ||| file == "init.client.lua"@
}

pub fn is_init_script_file(file_name: &str) -> (is: bool)
    ensures
        is == is_init_file(file_name@),
{
    file_name.eq("init.luau") || file_name.eq("init.server.luau") || file_name.eq("init.client.luau") || file_name.eq(
        "init.lua",
    ) || file_name.eq("init.server.lua") || file_name.eq("init.client.lua")
}

/// A script.
pub open spec fn script_like(class: Seq<char>) -> bool {
    class == "Script"@ || class == "LocalScript"@ || class == "ModuleScript"@
}

/// A class that source on disk can stand for.
pub open spec fn filesystem_like(class: Seq<char>) -> bool {
    class == "Folder"@ || class == "Script"@ || class == "LocalScript"@ || class == "ModuleScript"@
}

pub fn is_script_class(class: &str) -> (is: bool)
    ensures
        is == script_like(class@),
{
    class.eq("Script") || class.eq("LocalScript") || class.eq("ModuleScript")
}

pub fn is_filesystem_class(class: &str) -> (is: bool)
    ensures
        is == filesystem_like(class@),
{
    class.eq("Folder") || class.eq("Script") || class.eq("LocalScript") || class.eq("ModuleScript")
}

/// How the files of a class of scripts end.
pub open spec fn suffix_of(class: Seq<char>) -> Seq<char> {
    if class == "Script"@ {
        ".server.luau"@
    } else if class == "LocalScript"@ {
        ".client.luau"@
    } else {
        ".luau"@
    }
}

pub fn script_suffix(class: &str) -> (suffix: &'static str)
    ensures
        suffix@ == suffix_of(class@),
{
    if class.eq("Script") {
        ".server.luau"
    } else if class.eq("LocalScript") {
        ".client.luau"
    } else {
        ".luau"
    }
}

// ---------------------------------------------------------------------------
// Instances and attributes

/// A character that some file system does not take.
pub open spec fn is_awkward(c: char) -> bool {
    ||| c < ' '
    ||| c == '<'
    ||| c == '>'
    ||| c == ':'
    ||| c == '"'
    ||| c == '/'
    ||| c == '\\'
    ||| c == '|'
    ||| c == '?'
    ||| c == '*'
}

/// A letter in upper case, as far as it is ASCII.
pub open spec fn upper(c: char) -> char {
    if 'a' <= c && c <= 'z' {
        ((c as int - 'a' as int) + 'A' as int) as char
    } else {
        c
    }
}

/// Text in upper case, as far as it is ASCII.
pub open spec fn upper_text(text: Seq<char>) -> Seq<char> {
    text.map_values(|c: char| upper(c))
}

/// The part of a name before its first dot.
pub open spec fn stem(name: Seq<char>) -> Seq<char>
    decreases name.len(),
{
    if name.len() == 0 || name[0] == '.' {
        Seq::empty()
    } else {
        seq![name[0]] + stem(name.skip(1))
    }
}

/// A name that Windows keeps for devices.
pub open spec fn is_device(stem: Seq<char>) -> bool {
    ||| stem == "CON"@
    ||| stem == "PRN"@
    ||| stem == "AUX"@
    ||| stem == "NUL"@
    ||| (stem.len() == 4 && (stem.take(3) == "COM"@ || stem.take(3) == "LPT"@) && '1' <= stem[3] && stem[3] <= '9')
}

/// Why a name cannot stand for an instance on disk.
pub open spec fn refused_name(name: Seq<char>) -> Option<Seq<char>> {
    if name.len() == 0 {
        Some("filesystem-owned instance name may not be empty"@)
    } else if exists|k: int| 0 <= k < name.len() && is_awkward(#[trigger] name[k]) {
        Some("filesystem-owned instance name is not portable: "@ + name)
    } else if name.last() == ' ' || name.last() == '.' {
        Some("filesystem-owned instance name has a non-portable suffix: "@ + name)
    } else if is_device(upper_text(stem(name))) {
        Some("filesystem-owned instance name is reserved on Windows: "@ + name)
    } else {
        None
    }
}

fn upper_char(c: char) -> (result: char)
    ensures
        result == upper(c),
{
    if 'a' <= c && c <= 'z' {
        let code: u8 = (c as u8 - 'a' as u8) + 'A' as u8;
        code as char
    } else {
        c
    }
}

fn upper_stem(chars: &Vec<char>) -> (result: Vec<char>)
    ensures
        result@ == upper_text(stem(chars@)),
{
    let mut result: Vec<char> = Vec::new();
    let mut at: usize = 0;
    proof {
        assert(chars@.skip(0) =~= chars@);
        assert(result@ + upper_text(stem(chars@)) =~= upper_text(stem(chars@)));
    }
    while at < chars.len() && chars[at] != '.'
        invariant
            at <= chars@.len(),
            upper_text(stem(chars@)) == result@ + upper_text(stem(chars@.skip(at as int))),
        decreases chars@.len() - at,
    {
        let ghost before = result@;
        let ghost rest = chars@.skip(at as int);
        result.push(upper_char(chars[at]));
        proof {
            assert(rest.skip(1) =~= chars@.skip(at + 1));
            assert(stem(rest) =~= seq![rest[0]] + stem(rest.skip(1)));
            assert(upper_text(stem(rest)) =~= seq![upper(rest[0])] + upper_text(stem(rest.skip(1))));
            assert(before + upper_text(stem(rest)) =~= result@ + upper_text(stem(chars@.skip(at + 1))));
        }
        at = at + 1;
    }
    proof {
        let rest = chars@.skip(at as int);
        assert(stem(rest) =~= Seq::empty());
        assert(upper_text(stem(rest)) =~= Seq::empty());
        assert(result@ + Seq::<char>::empty() =~= result@);
    }
    result
}

fn is_device_stem(stem: &Vec<char>) -> (is: bool)
    ensures
        is == is_device(stem@),
{
    let text: String = text_of(stem, 0, stem.len());
    proof {
        assert(text@ =~= stem@);
    }
    if text.as_str().eq("CON") || text.as_str().eq("PRN") || text.as_str().eq("AUX") || text.as_str().eq("NUL") {
        return true;
    }
    if stem.len() != 4 {
        return false;
    }
    let head: String = text_of(stem, 0, 3);
    proof {
        assert(head@ =~= stem@.take(3));
    }
    (head.as_str().eq("COM") || head.as_str().eq("LPT")) && '1' <= stem[3] && stem[3] <= '9'
}

/// Whether a name can stand for an instance on disk, everywhere.
pub fn validate_instance_name(name: &str) -> (result: Result<(), NameError>)
    ensures
        match refused_name(name@) {
            Some(text) => result matches Err(error) && error.text() == text,
            None => result is Ok,
        },
{
    let chars: Vec<char> = chars_of(name);
    if chars.len() == 0 {
        return Err(NameError::EmptyInstance);
    }
    let mut at: usize = 0;
    while at < chars.len()
        invariant
            at <= chars@.len(),
            chars@ == name@,
            chars@.len() > 0,
            forall|k: int| 0 <= k < at ==> !is_awkward(#[trigger] name@[k]),
        decreases chars@.len() - at,
    {
        let c: char = chars[at];
        if c < ' ' || c == '<' || c == '>' || c == ':' || c == '"' || c == '/' || c == '\\' || c == '|' || c == '?' || c
            == '*' {
            proof {
                assert(is_awkward(name@[at as int]));
            }
            return Err(NameError::NotPortable(name.to_owned()));
        }
        at = at + 1;
    }
    let last: char = chars[chars.len() - 1];
    if last == ' ' || last == '.' {
        return Err(NameError::NonPortableSuffix(name.to_owned()));
    }
    let stem: Vec<char> = upper_stem(&chars);
    if is_device_stem(&stem) {
        return Err(NameError::Reserved(name.to_owned()));
    }
    Ok(())
}

/// A character that an attribute name may hold at a place.
pub open spec fn is_attribute_char(c: char, at: int) -> bool {
    ||| c == '_'
    ||| 'a' <= c && c <= 'z'
    ||| 'A' <= c && c <= 'Z'
    ||| '0' <= c && c <= '9' && at != 0
}

/// Why a name cannot be that of an attribute.
pub open spec fn refused_attribute(name: Seq<char>) -> Option<Seq<char>> {
    if name.len() == 0 || text_bytes(name).len() > 100 {
        Some("attribute name must contain 1-100 bytes"@)
    } else if "RBX"@.is_prefix_of(upper_text(name)) {
        Some("attribute name may not begin with RBX"@)
    } else if exists|k: int| 0 <= k < name.len() && !is_attribute_char(#[trigger] name[k], k) {
        Some("invalid Roblox attribute name '"@ + name + "'"@)
    } else {
        None
    }
}

/// Whether a name can be that of an attribute.
pub fn validate_attribute_name(name: &str) -> (result: Result<(), NameError>)
    ensures
        match refused_attribute(name@) {
            Some(text) => result matches Err(error) && error.text() == text,
            None => result is Ok,
        },
{
    let chars: Vec<char> = chars_of(name);
    if chars.len() == 0 || name.as_bytes().len() > 100 {
        return Err(NameError::AttributeLength);
    }
    let mut raised: String = String::new();
    let mut at: usize = 0;
    while at < chars.len()
        invariant
            at <= chars@.len(),
            chars@ == name@,
            raised@ == upper_text(name@).take(at as int),
        decreases chars@.len() - at,
    {
        raised.push(upper_char(chars[at]));
        proof {
            assert(upper_text(name@).take(at + 1) =~= upper_text(name@).take(at as int).push(upper(name@[at as int])));
        }
        at = at + 1;
    }
    proof {
        assert(upper_text(name@).take(name@.len() as int) =~= upper_text(name@));
    }
    if starts_with(raised.as_str(), "RBX") {
        return Err(NameError::AttributePrefix);
    }
    let mut next: usize = 0;
    while next < chars.len()
        invariant
            next <= chars@.len(),
            chars@ == name@,
            name@.len() > 0,
            text_bytes(name@).len() <= 100,
            !"RBX"@.is_prefix_of(upper_text(name@)),
            forall|k: int| 0 <= k < next ==> is_attribute_char(#[trigger] name@[k], k),
        decreases chars@.len() - next,
    {
        let c: char = chars[next];
        if !(c == '_' || ('a' <= c && c <= 'z') || ('A' <= c && c <= 'Z') || ('0' <= c && c <= '9' && next != 0)) {
            proof {
                assert(!is_attribute_char(name@[next as int], next as int));
            }
            return Err(NameError::InvalidAttribute(name.to_owned()));
        }
        next = next + 1;
    }
    Ok(())
}

// ---------------------------------------------------------------------------
// Identities

/// The value of a hexadecimal digit.
pub open spec fn hex_value(c: char) -> Option<nat> {
    if '0' <= c && c <= '9' {
        Some((c as int - '0' as int) as nat)
    } else if 'a' <= c && c <= 'f' {
        Some((c as int - 'a' as int + 10) as nat)
    } else if 'A' <= c && c <= 'F' {
        Some((c as int - 'A' as int + 10) as nat)
    } else {
        None
    }
}

/// The number that hexadecimal digits spell.
pub open spec fn hex_number(digits: Seq<char>) -> Option<nat>
    decreases digits.len(),
{
    if digits.len() == 0 {
        Some(0)
    } else {
        match (hex_number(digits.drop_last()), hex_value(digits.last())) {
            (Some(before), Some(digit)) => Some(16 * before + digit),
            _ => None,
        }
    }
}

/// An identity, as it is written: hexadecimal digits, with or without a plus sign,
/// of at most 128 bits.
pub open spec fn written_ref(text: Seq<char>) -> Option<Ref> {
    let digits = if text.len() > 0 && text[0] == '+' {
        text.skip(1)
    } else {
        text
    };
    match hex_number(digits) {
        Some(number) if digits.len() > 0 && number <= u128::MAX => Some(number as u128),
        _ => None,
    }
}

proof fn lemma_hex_prefix(digits: Seq<char>, at: int)
    requires
        0 <= at <= digits.len(),
    ensures
        hex_number(digits.take(at)) is None ==> hex_number(digits) is None,
        hex_number(digits.take(at)) matches Some(part) ==> (hex_number(digits) matches Some(whole) ==> whole >= part),
    decreases digits.len(),
{
    if at == digits.len() {
        assert(digits.take(at) =~= digits);
    } else {
        assert(digits.drop_last().take(at) =~= digits.take(at));
        lemma_hex_prefix(digits.drop_last(), at);
    }
}

fn hex_digit(c: char) -> (digit: Option<u128>)
    ensures
        match hex_value(c) {
            Some(value) => digit == Some(value as u128) && value < 16,
            None => digit is None,
        },
{
    if '0' <= c && c <= '9' {
        Some((c as u32 - '0' as u32) as u128)
    } else if 'a' <= c && c <= 'f' {
        Some((c as u32 - 'a' as u32 + 10) as u128)
    } else if 'A' <= c && c <= 'F' {
        Some((c as u32 - 'A' as u32 + 10) as u128)
    } else {
        None
    }
}

/// Reads an identity.
pub fn parse_ref(text: &str) -> (id: Option<Ref>)
    ensures
        id == written_ref(text@),
{
    let chars: Vec<char> = chars_of(text);
    let total: usize = chars.len();
    let start: usize = if total > 0 && chars[0] == '+' {
        1
    } else {
        0
    };
    let ghost digits = if start == 1 {
        text@.skip(1)
    } else {
        text@
    };
    if start == total {
        proof {
            assert(digits.len() == 0);
        }
        return None;
    }
    let mut number: u128 = 0;
    let mut at: usize = start;
    proof {
        assert(digits.take(0) =~= Seq::empty());
    }
    while at < total
        invariant
            start <= at <= total,
            start <= 1,
            total == chars@.len(),
            chars@ == text@,
            digits == (if start == 1 {
                text@.skip(1)
            } else {
                text@
            }),
            (start == 1) == (text@.len() > 0 && text@[0] == '+'),
            hex_number(digits.take(at - start)) == Some(number as nat),
        decreases total - at,
    {
        let ghost here = at - start;
        proof {
            assert(digits.take(here + 1).drop_last() =~= digits.take(here));
            assert(digits.take(here + 1).last() == chars@[at as int]);
            lemma_hex_prefix(digits, here + 1);
        }
        let digit: u128 = match hex_digit(chars[at]) {
            Some(digit) => digit,
            None => {
                return None;
            },
        };
        let shifted: Option<u128> = number.checked_mul(16);
        let next: Option<u128> = match shifted {
            Some(shifted) => shifted.checked_add(digit),
            None => None,
        };
        match next {
            Some(next) => {
                number = next;
            },
            None => {
                return None;
            },
        }
        at = at + 1;
    }
    proof {
        assert(digits.take(digits.len() as int) =~= digits);
    }
    Some(number)
}

proof fn lemma_hex_read(number: nat, digits: nat, limit: nat)
    requires
        limit == vstd::arithmetic::power::pow(16, digits),
        number < limit,
    ensures
        hex(number, digits).len() == digits,
        hex_number(hex(number, digits)) == Some(number),
        digits > 0 ==> hex(number, digits)[0] != '+',
    decreases digits,
{
    reveal(vstd::arithmetic::power::pow);
    if digits > 0 {
        let less = vstd::arithmetic::power::pow(16, (digits - 1) as nat);
        vstd::arithmetic::power::lemma_pow_positive(16, (digits - 1) as nat);
        assert(limit == 16 * less);
        lemma_hex_read(number / 16, (digits - 1) as nat, less as nat);
        let before = hex(number / 16, (digits - 1) as nat);
        assert(hex(number, digits).drop_last() =~= before);
        assert(hex_value(digit_char(number % 16)) == Some(number % 16));
        assert(number == 16 * (number / 16) + number % 16);
        assert(hex(number, digits)[0] == if digits > 1 {
            before[0]
        } else {
            digit_char(number % 16)
        });
    }
}

/// An identity is read back as it was written, and stands for itself.
pub proof fn law_written_identities_are_read_back(id: Ref)
    ensures
        written_ref(ref_chars(id)) == Some(id),
        named_identity(ref_chars(id)) == id,
{
    assert(vstd::arithmetic::power::pow(16, 32) == 0x1_0000_0000_0000_0000_0000_0000_0000_0000int) by {
        reveal(vstd::arithmetic::power::pow);
        reveal_with_fuel(vstd::arithmetic::power::pow, 33);
    }
    lemma_hex_read(id as nat, 32, vstd::arithmetic::power::pow(16, 32) as nat);
}

/// The identity that a text stands for: the one it spells, or one derived from it.
pub open spec fn named_identity(id: Seq<char>) -> Ref {
    match written_ref(id) {
        Some(id) => id,
        None => stable_identity("id:"@ + id),
    }
}

pub fn identity_ref(id: &str) -> (found: Ref)
    ensures
        found == named_identity(id@),
{
    match parse_ref(id) {
        Some(found) => found,
        None => stable_ref(joined("id:", id).as_str()),
    }
}

/// The identity that a reference property names: none for `null` and for nothing.
pub open spec fn referred(target: Seq<char>) -> Ref {
    if target == "null"@ || target.len() == 0 {
        crate::NO_REF
    } else {
        named_identity(target)
    }
}

pub fn resolve_reference(target: &str) -> (found: Ref)
    ensures
        found == referred(target@),
{
    if target.eq("null") || target.unicode_len() == 0 {
        return crate::NO_REF;
    }
    identity_ref(target)
}

/// A text without the white space around it.
pub uninterp spec fn trimmed(text: Seq<char>) -> Seq<char>;

/// `str::trim`: the text is a function of the given one alone.
#[verifier::external_body]
fn trim(text: &str) -> (rest: &str)
    ensures
        rest@ == trimmed(text@),
{
    text.trim()
}

/// Judges an explicit identity, given what it is without the white space around it.
pub fn judge_explicit_id(id: &str, without_space: &str) -> (result: Result<(), NameError>)
    ensures
        without_space@.len() == 0 ==> result == Err::<(), NameError>(NameError::EmptyIdentity),
        without_space@.len() > 0 && id@ != without_space@ ==> result == Err::<(), NameError>(
            NameError::IdentityWhitespace,
        ),
        without_space@.len() > 0 && id@ == without_space@ ==> result is Ok,
{
    if without_space.unicode_len() == 0 {
        return Err(NameError::EmptyIdentity);
    }
    if !id.eq(without_space) {
        return Err(NameError::IdentityWhitespace);
    }
    Ok(())
}

/// Whether a text can be an explicit identity: not empty, and no white space around
/// it.
pub fn validate_explicit_id(id: &str) -> (result: Result<(), NameError>)
    ensures
        trimmed(id@).len() == 0 ==> result == Err::<(), NameError>(NameError::EmptyIdentity),
        trimmed(id@).len() > 0 && id@ != trimmed(id@) ==> result == Err::<(), NameError>(
            NameError::IdentityWhitespace,
        ),
        trimmed(id@).len() > 0 && id@ == trimmed(id@) ==> result is Ok,
{
    judge_explicit_id(id, trim(id))
}

// ---------------------------------------------------------------------------
// Names that fall together

/// The canonical composition of a text.
pub uninterp spec fn composed(text: Seq<char>) -> Seq<char>;

/// `UnicodeNormalization::nfc` of `unicode_normalization`: the text is a function of
/// the given one alone.
#[verifier::external_body]
fn compose(text: &str) -> (result: String)
    ensures
        result@ == composed(text@),
{
    unicode_normalization::UnicodeNormalization::nfc(text).collect::<String>()
}

/// A text in lower case.
pub uninterp spec fn lowered(text: Seq<char>) -> Seq<char>;

/// `str::to_lowercase`: the text is a function of the given one alone.
#[verifier::external_body]
fn lower(text: &str) -> (result: String)
    ensures
        result@ == lowered(text@),
{
    text.to_lowercase()
}

/// What file systems may take for the same name.
pub open spec fn folded(name: Seq<char>) -> Seq<char> {
    lowered(composed(name))
}

/// What file systems may take for the same name.
pub fn fold_name(name: &str) -> (result: String)
    ensures
        result@ == folded(name@),
{
    lower(compose(name).as_str())
}

} // verus!
