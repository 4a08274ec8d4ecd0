//! What checking names and paths is for: what is let through can stand on every file system
//! and stays where it is mapped.

use crate::names::{
    component_start, components_of, is_attribute_char, is_awkward, is_separator, refused_attribute, refused_name,
    refused_path, stem, upper, upper_text, walked, without_detours,
};
use crate::text::text_bytes;
use vstd::prelude::*;

verus! {

// ---------------------------------------------------------------------------
// Names

/// A letter of a device in either case, or its digit.
pub open spec fn is_letter_of(c: char, letter: char) -> bool {
    c == letter || ('A' <= letter <= 'Z' && c as int == letter as int + 32)
}

/// A name begins with a device, and nothing or a dot follows it.
pub open spec fn begins_with_device(name: Seq<char>, device: Seq<char>) -> bool {
    &&& name.len() >= device.len()
    &&& name.len() == device.len() || name[device.len() as int] == '.'
    &&& forall|k: int| 0 <= k < device.len() ==> is_letter_of(#[trigger] name[k], device[k])
}

proof fn lemma_stem(name: Seq<char>, len: int)
    requires
        0 <= len <= name.len(),
        len == name.len() || name[len] == '.',
        forall|k: int| 0 <= k < len ==> #[trigger] name[k] != '.',
    ensures
        stem(name) == name.take(len),
    decreases name.len(),
{
    if len == 0 {
        assert(name.take(0) =~= Seq::empty());
    } else {
        let rest = name.skip(1);
        assert(name[0] != '.');
        assert forall|k: int| 0 <= k < len - 1 implies #[trigger] rest[k] != '.' by {
            assert(rest[k] == name[k + 1]);
        }
        lemma_stem(rest, len - 1);
        assert(seq![name[0]] + rest.take(len - 1) =~= name.take(len));
    }
}

proof fn lemma_device(name: Seq<char>, device: Seq<char>)
    requires
        begins_with_device(name, device),
        forall|k: int| 0 <= k < device.len() ==> 'A' <= #[trigger] device[k] <= 'Z' || '0' <= device[k] <= '9',
    ensures
        upper_text(stem(name)) == device,
{
    let len = device.len() as int;
    assert forall|k: int| 0 <= k < len implies #[trigger] name[k] != '.' by {
        assert(is_letter_of(name[k], device[k]));
        assert('A' <= device[k] <= 'Z' || '0' <= device[k] <= '9');
    }
    lemma_stem(name, len);
    assert forall|k: int| 0 <= k < len implies upper(name[k]) == device[k] by {
        assert(is_letter_of(name[k], device[k]));
    }
    assert(upper_text(stem(name)) =~= device);
}

/// A name that is let through can stand on every file system: it is not empty, holds no
/// control character and none that paths or patterns are made of, ends neither in a space
/// nor in a dot, and is no device, whatever stands behind a dot.
pub proof fn law_accepted_names_are_portable(name: Seq<char>, digit: char)
    requires
        '1' <= digit <= '9',
    ensures
        refused_name(name) is None ==> {
            &&& name.len() > 0
            &&& forall|k: int|
                0 <= k < name.len() ==> {
                    let c = #[trigger] name[k];
                    c >= ' ' && c != '<' && c != '>' && c != ':' && c != '"' && c != '/' && c != '\\' && c != '|' && c
                        != '?' && c != '*'
                }
            &&& name.last() != ' ' && name.last() != '.'
            &&& !begins_with_device(name, "CON"@)
            &&& !begins_with_device(name, "PRN"@)
            &&& !begins_with_device(name, "AUX"@)
            &&& !begins_with_device(name, "NUL"@)
            &&& !begins_with_device(name, "COM"@.push(digit))
            &&& !begins_with_device(name, "LPT"@.push(digit))
        },
{
    reveal_strlit("CON");
    reveal_strlit("PRN");
    reveal_strlit("AUX");
    reveal_strlit("NUL");
    reveal_strlit("COM");
    reveal_strlit("LPT");
    if refused_name(name) is None {
        assert forall|k: int| 0 <= k < name.len() implies {
            let c = #[trigger] name[k];
            c >= ' ' && c != '<' && c != '>' && c != ':' && c != '"' && c != '/' && c != '\\' && c != '|' && c != '?'
                && c != '*'
        } by {
            assert(!is_awkward(name[k]));
        }
        if begins_with_device(name, "CON"@) {
            lemma_device(name, "CON"@);
        }
        if begins_with_device(name, "PRN"@) {
            lemma_device(name, "PRN"@);
        }
        if begins_with_device(name, "AUX"@) {
            lemma_device(name, "AUX"@);
        }
        if begins_with_device(name, "NUL"@) {
            lemma_device(name, "NUL"@);
        }
        if begins_with_device(name, "COM"@.push(digit)) {
            lemma_device(name, "COM"@.push(digit));
            assert("COM"@.push(digit).take(3) =~= "COM"@);
        }
        if begins_with_device(name, "LPT"@.push(digit)) {
            lemma_device(name, "LPT"@.push(digit));
            assert("LPT"@.push(digit).take(3) =~= "LPT"@);
        }
    }
}

/// A name of letters, digits and underscores that is longer than any device is let through.
pub proof fn law_plain_names_are_accepted(name: Seq<char>)
    requires
        name.len() > 4,
        forall|k: int|
            0 <= k < name.len() ==> {
                let c = #[trigger] name[k];
                'a' <= c <= 'z' || 'A' <= c <= 'Z' || '0' <= c <= '9' || c == '_'
            },
    ensures
        refused_name(name) is None,
{
    reveal_strlit("CON");
    reveal_strlit("PRN");
    reveal_strlit("AUX");
    reveal_strlit("NUL");
    assert forall|k: int| 0 <= k < name.len() implies !is_awkward(#[trigger] name[k]) by {
        let c = name[k];
        assert('a' <= c <= 'z' || 'A' <= c <= 'Z' || '0' <= c <= '9' || c == '_');
    }
    let last = name[name.len() - 1];
    assert('a' <= last <= 'z' || 'A' <= last <= 'Z' || '0' <= last <= '9' || last == '_');
    assert forall|k: int| 0 <= k < name.len() implies #[trigger] name[k] != '.' by {
        let c = name[k];
        assert('a' <= c <= 'z' || 'A' <= c <= 'Z' || '0' <= c <= '9' || c == '_');
    }
    lemma_stem(name, name.len() as int);
    assert(name.take(name.len() as int) =~= name);
    assert(upper_text(stem(name)).len() == name.len());
}

/// The name of an attribute is let through exactly where it is made of letters, digits and
/// underscores, does not begin with a digit or, in any case of letters, with `RBX`, and takes
/// one to a hundred bytes.
pub proof fn law_attribute_names(name: Seq<char>)
    ensures
        refused_attribute(name) is None <==> {
            &&& name.len() > 0
            &&& text_bytes(name).len() <= 100
            &&& forall|k: int|
                0 <= k < name.len() ==> {
                    let c = #[trigger] name[k];
                    'a' <= c <= 'z' || 'A' <= c <= 'Z' || c == '_' || ('0' <= c <= '9' && k > 0)
                }
            &&& !(name.len() >= 3 && (name[0] == 'r' || name[0] == 'R') && (name[1] == 'b' || name[1] == 'B') && (
            name[2] == 'x' || name[2] == 'X'))
        },
{
    reveal_strlit("RBX");
    let raised = upper_text(name);
    assert(raised.len() == name.len());
    if name.len() >= 3 {
        assert(raised[0] == upper(name[0]) && raised[1] == upper(name[1]) && raised[2] == upper(name[2]));
        assert("RBX"@.is_prefix_of(raised) <==> raised[0] == 'R' && raised[1] == 'B' && raised[2] == 'X') by {
            if raised[0] == 'R' && raised[1] == 'B' && raised[2] == 'X' {
                assert("RBX"@ =~= raised.subrange(0, 3));
            }
            if "RBX"@.is_prefix_of(raised) {
                assert("RBX"@ =~= raised.subrange(0, 3));
                assert(raised.subrange(0, 3)[0] == 'R' && raised.subrange(0, 3)[1] == 'B' && raised.subrange(0, 3)[2] == 'X');
            }
        }
    }
    if forall|k: int| 0 <= k < name.len() ==> is_attribute_char(#[trigger] name[k], k) {
        assert forall|k: int| 0 <= k < name.len() implies {
            let c = #[trigger] name[k];
            'a' <= c <= 'z' || 'A' <= c <= 'Z' || c == '_' || ('0' <= c <= '9' && k > 0)
        } by {
            assert(is_attribute_char(name[k], k));
        }
    }
}

// ---------------------------------------------------------------------------
// Paths

/// A path that begins at a root or names a drive is not mapped; any other is, but for the
/// empty one. Drives and backslashes are so on Windows only.
pub proof fn law_mapped_paths_are_relative(path: Seq<char>, windows: bool)
    ensures
        refused_path(path, windows) is None <==> {
            &&& path.len() > 0
            &&& path[0] != '/'
            &&& windows ==> path[0] != '\\' && !(path.len() >= 2 && path[1] == ':' && ('a' <= path[0] <= 'z' || 'A'
                <= path[0] <= 'Z'))
        },
{
}

/// Components are walked as directories are: a name is entered, a way up leaves the name
/// that was entered last, above a root there is nothing, and nothing else is left out. So a
/// path from a root holds no way up in the end.
pub proof fn law_detours_are_walked(names: Seq<Seq<char>>, name: Seq<char>, rooted: bool)
    ensures
        name != ".."@ ==> without_detours(names.push(name), rooted) == without_detours(names, rooted).push(name),
        name != ".."@ ==> without_detours(names.push(name).push(".."@), rooted) == without_detours(names, rooted),
        rooted ==> !without_detours(names, rooted).contains(".."@),
        !names.contains(".."@) ==> without_detours(names, rooted) == names,
        !rooted && without_detours(names, rooted).len() == 0 ==> without_detours(names.push(".."@), rooted) == seq![
            ".."@,
        ],
    decreases names.len(),
{
    assert(names.push(name).drop_last() =~= names);
    assert(names.push(".."@).drop_last() =~= names);
    assert(names.push(name).push(".."@).drop_last() =~= names.push(name));
    let walk = without_detours(names, rooted);
    assert(walk.push(name).drop_last() =~= walk);
    if name != ".."@ {
        assert(without_detours(names.push(name), rooted) == walk.push(name));
        assert(names.push(name).push(".."@).last() == ".."@);
        assert(without_detours(names.push(name).push(".."@), rooted) == walked(
            without_detours(names.push(name), rooted),
            ".."@,
            rooted,
        ));
        assert(walk.push(name).last() == name);
    }
    if names.len() > 0 {
        let rest = names.drop_last();
        law_detours_are_walked(rest, name, rooted);
        let before = without_detours(rest, rooted);
        if rooted {
            assert forall|k: int| 0 <= k < walk.len() implies walk[k] != ".."@ by {
                if k < before.len() {
                    assert(before.contains(before[k]));
                }
            }
        }
        if !names.contains(".."@) {
            assert(names[names.len() - 1] == names.last());
            assert(names.contains(names.last()));
            assert forall|other: Seq<char>| rest.contains(other) implies names.contains(other) by {
                assert(names[rest.index_of(other)] == other);
            }
            assert(rest.push(names.last()) =~= names);
        }
    }
    if walk.len() == 0 && !rooted {
        assert(walk.push(".."@) =~= seq![".."@]);
    }
}

proof fn lemma_start(path: Seq<char>, windows: bool)
    ensures
        0 <= component_start(path, windows) <= path.len(),
        component_start(path, windows) > 0 ==> is_separator(path[component_start(path, windows) - 1], windows),
        forall|k: int| component_start(path, windows) <= k < path.len() ==> !is_separator(#[trigger] path[k], windows),
    decreases path.len(),
{
    if path.len() > 0 && !is_separator(path.last(), windows) {
        let rest = path.drop_last();
        lemma_start(rest, windows);
        assert forall|k: int| component_start(path, windows) <= k < path.len() implies !is_separator(
            #[trigger] path[k],
            windows,
        ) by {
            if k < rest.len() {
                assert(rest[k] == path[k]);
            }
        }
        if component_start(path, windows) > 0 {
            assert(rest[component_start(path, windows) - 1] == path[component_start(path, windows) - 1]);
        }
    }
}

/// What the components of a path are: none is empty, stands for its own directory or holds a
/// separator.
pub proof fn law_components_are_names(path: Seq<char>, windows: bool, k: int)
    requires
        0 <= k < components_of(path, windows).len(),
    ensures
        components_of(path, windows)[k].len() > 0,
        components_of(path, windows)[k] != "."@,
        forall|c: int|
            0 <= c < components_of(path, windows)[k].len() ==> (#[trigger] components_of(path, windows)[k][c]) != '/'
                && (windows ==> components_of(path, windows)[k][c] != '\\'),
    decreases path.len(),
{
    let at = component_start(path, windows);
    lemma_start(path, windows);
    let before = if at > 0 {
        components_of(path.take(at - 1), windows)
    } else {
        Seq::empty()
    };
    let last = path.skip(at);
    if k < before.len() {
        law_components_are_names(path.take(at - 1), windows, k);
        assert(components_of(path, windows)[k] == before[k]);
    } else {
        assert(components_of(path, windows)[k] == last);
        assert forall|c: int| 0 <= c < last.len() implies (#[trigger] last[c]) != '/' && (windows ==> last[c] != '\\') by {
            assert(last[c] == path[at + c]);
            assert(!is_separator(path[at + c], windows));
        }
    }
}

proof fn lemma_start_shift(left: Seq<char>, right: Seq<char>, windows: bool, c: char)
    requires
        is_separator(c, windows),
    ensures
        component_start(left.push(c) + right, windows) == left.len() + 1 + component_start(right, windows),
    decreases right.len(),
{
    let whole = left.push(c) + right;
    if right.len() == 0 {
        assert(whole =~= left.push(c));
        assert(whole.last() == c);
    } else {
        assert(whole.last() == right.last());
        assert(whole.drop_last() =~= left.push(c) + right.drop_last());
        if !is_separator(right.last(), windows) {
            lemma_start_shift(left, right.drop_last(), windows, c);
        }
    }
}

/// The components of two paths with a separator between them are those of the one and then
/// those of the other.
pub proof fn law_components_are_joined(left: Seq<char>, right: Seq<char>, windows: bool, separator: char)
    requires
        separator == '/' || (windows && separator == '\\'),
    ensures
        components_of(left.push(separator) + right, windows) == components_of(left, windows) + components_of(
            right,
            windows,
        ),
    decreases right.len(),
{
    let whole = left.push(separator) + right;
    lemma_start_shift(left, right, windows, separator);
    lemma_start(right, windows);
    let at = component_start(right, windows);
    let from = left.len() as int + 1 + at;
    assert(whole.skip(from) =~= right.skip(at));
    if at > 0 {
        law_components_are_joined(left, right.take(at - 1), windows, separator);
        assert(whole.take(from - 1) =~= left.push(separator) + right.take(at - 1));
        assert(components_of(whole, windows) =~= components_of(left, windows) + components_of(right, windows));
    } else {
        assert(whole.take(from - 1) =~= left);
        assert(components_of(whole, windows) =~= components_of(left, windows) + components_of(right, windows));
    }
}

} // verus!
