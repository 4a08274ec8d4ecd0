//! The records in which bridges make themselves known, as they stand on disk.

use crate::text::{copy_texts, ends_with, same_texts, texts};
use crate::watch_roots::{are_components_before, components_before, paths};
use vstd::prelude::*;
use vstd::string::StringSliceAdditionalSpecFns;

verus! {

/// A record on disk, with the time of its last change.
#[derive(Debug)]
pub struct RecordFile {
    pub path: String,
    pub modified: u64,
}

#[verifier::ext_equal]
pub struct RecordView {
    pub path: Seq<char>,
    pub modified: u64,
}

impl View for RecordFile {
    type V = RecordView;

    open spec fn view(&self) -> RecordView {
        RecordView { path: self.path@, modified: self.modified }
    }
}

/// What records are.
pub open spec fn record_views(list: Seq<RecordFile>) -> Seq<RecordView> {
    list.map_values(|record: RecordFile| record@)
}

/// Whether a file of a registry is a record: it has a name before its `.json`.
pub fn is_record_file(name: &str) -> (is: bool)
    ensures
        is == (".json"@.is_suffix_of(name@) && name@.len() > 5),
{
    ends_with(name, ".json") && name.unicode_len() > 5
}

// ---------------------------------------------------------------------------
// The newest first

/// A record put behind those that are not older.
pub open spec fn record_placed(list: Seq<RecordView>, record: RecordView) -> Seq<RecordView>
    decreases list.len(),
{
    if list.len() > 0 && list.last().modified < record.modified {
        record_placed(list.drop_last(), record).push(list.last())
    } else {
        list.push(record)
    }
}

/// Records with the newest first. Those of the same time keep their order.
pub open spec fn newest_first(list: Seq<RecordView>) -> Seq<RecordView>
    decreases list.len(),
{
    if list.len() == 0 {
        Seq::empty()
    } else {
        record_placed(newest_first(list.drop_last()), list.last())
    }
}

/// A list without the repetitions that stand side by side.
pub open spec fn without_repetitions<T>(list: Seq<T>) -> Seq<T>
    decreases list.len(),
{
    if list.len() == 0 {
        Seq::empty()
    } else {
        let before = without_repetitions(list.drop_last());
        if before.len() > 0 && before.last() == list.last() {
            before
        } else {
            before.push(list.last())
        }
    }
}

/// The paths of records.
pub open spec fn record_paths(list: Seq<RecordView>) -> Seq<Seq<char>> {
    list.map_values(|record: RecordView| record.path)
}

proof fn lemma_record_placed(list: Seq<RecordView>, record: RecordView, place: int)
    requires
        0 <= place <= list.len(),
        forall|k: int| place <= k < list.len() ==> (#[trigger] list[k]).modified < record.modified,
        place > 0 ==> list[place - 1].modified >= record.modified,
    ensures
        record_placed(list, record) == list.insert(place, record),
    decreases list.len(),
{
    if place < list.len() {
        assert(list[list.len() - 1].modified < record.modified);
        lemma_record_placed(list.drop_last(), record, place);
        assert(list.drop_last().insert(place, record).push(list.last()) =~= list.insert(place, record));
    } else {
        assert(list.push(record) =~= list.insert(place, record));
    }
}

fn place_record(list: &mut Vec<RecordFile>, record: RecordFile)
    ensures
        record_views(final(list)@) == record_placed(record_views(old(list)@), record@),
{
    let ghost before = record_views(list@);
    let mut place: usize = list.len();
    while place > 0 && list[place - 1].modified < record.modified
        invariant
            place <= list@.len(),
            before == record_views(list@),
            forall|k: int| place <= k < list@.len() ==> (#[trigger] before[k]).modified < record.modified,
        decreases place,
    {
        place = place - 1;
        proof {
            assert(before[place as int] == list@[place as int]@);
        }
    }
    proof {
        if place > 0 {
            assert(before[place - 1] == list@[place - 1]@);
        }
        lemma_record_placed(before, record@, place as int);
    }
    list.insert(place, record);
    proof {
        assert(record_views(list@) =~= before.insert(place as int, record@));
    }
}

/// Puts the paths of records into the order in which they are tried: the newest first.
pub fn order_records(records: Vec<RecordFile>) -> (paths: Vec<String>)
    ensures
        texts(paths@) == without_repetitions(record_paths(newest_first(record_views(records@)))),
{
    let ghost all = record_views(records@);
    let ghost given = records@;
    let mut sorted: Vec<RecordFile> = Vec::new();
    proof {
        assert(all.take(0) =~= Seq::empty());
        assert(record_views(sorted@) =~= Seq::empty());
    }
    for record in iter: records
        invariant
            iter.seq() == given,
            all == record_views(given),
            record_views(sorted@) == newest_first(all.take(iter.index() as int)),
    {
        proof {
            let at = iter.index() as int;
            assert(all.take(at + 1).drop_last() =~= all.take(at));
            assert(all.take(at + 1).last() == record@);
        }
        place_record(&mut sorted, record);
    }
    proof {
        assert(all.take(all.len() as int) =~= all);
    }
    let ghost ordered = record_paths(record_views(sorted@));
    let mut paths: Vec<String> = Vec::new();
    proof {
        assert(ordered.take(0) =~= Seq::empty());
        assert(texts(paths@) =~= Seq::empty());
    }
    let mut at: usize = 0;
    while at < sorted.len()
        invariant
            at <= sorted@.len(),
            ordered == record_paths(record_views(sorted@)),
            texts(paths@) == without_repetitions(ordered.take(at as int)),
        decreases sorted@.len() - at,
    {
        let ghost before = texts(paths@);
        proof {
            assert(ordered.take(at + 1).drop_last() =~= ordered.take(at as int));
            assert(ordered.take(at + 1).last() == sorted@[at as int].path@);
            if before.len() > 0 {
                assert(before.last() == paths@[paths@.len() - 1]@);
            }
        }
        let repeated: bool = paths.len() > 0 && paths[paths.len() - 1].as_str().eq(sorted[at].path.as_str());
        if !repeated {
            paths.push(sorted[at].path.clone());
            proof {
                assert(texts(paths@) =~= before.push(sorted@[at as int].path@));
            }
        }
        at = at + 1;
    }
    proof {
        assert(ordered.take(ordered.len() as int) =~= ordered);
    }
    paths
}

// ---------------------------------------------------------------------------
// By path

/// A path put behind those that do not come after it.
pub open spec fn path_placed(list: Seq<Seq<Seq<char>>>, path: Seq<Seq<char>>) -> Seq<Seq<Seq<char>>>
    decreases list.len(),
{
    if list.len() > 0 && components_before(path, list.last()) {
        path_placed(list.drop_last(), path).push(list.last())
    } else {
        list.push(path)
    }
}

/// Paths in order.
pub open spec fn sorted_paths(list: Seq<Seq<Seq<char>>>) -> Seq<Seq<Seq<char>>>
    decreases list.len(),
{
    if list.len() == 0 {
        Seq::empty()
    } else {
        path_placed(sorted_paths(list.drop_last()), list.last())
    }
}

proof fn lemma_path_placed(list: Seq<Seq<Seq<char>>>, path: Seq<Seq<char>>, place: int)
    requires
        0 <= place <= list.len(),
        forall|k: int| place <= k < list.len() ==> components_before(path, #[trigger] list[k]),
        place > 0 ==> !components_before(path, list[place - 1]),
    ensures
        path_placed(list, path) == list.insert(place, path),
    decreases list.len(),
{
    if place < list.len() {
        assert(components_before(path, list[list.len() - 1]));
        lemma_path_placed(list.drop_last(), path, place);
        assert(list.drop_last().insert(place, path).push(list.last()) =~= list.insert(place, path));
    } else {
        assert(list.push(path) =~= list.insert(place, path));
    }
}

fn place_path(list: &mut Vec<Vec<String>>, path: Vec<String>)
    ensures
        paths(final(list)@) == path_placed(paths(old(list)@), texts(path@)),
{
    let ghost before = paths(list@);
    let mut place: usize = list.len();
    while place > 0 && are_components_before(&path, &list[place - 1])
        invariant
            place <= list@.len(),
            before == paths(list@),
            forall|k: int| place <= k < list@.len() ==> components_before(texts(path@), #[trigger] before[k]),
        decreases place,
    {
        place = place - 1;
        proof {
            assert(before[place as int] == texts(list@[place as int]@));
        }
    }
    proof {
        if place > 0 {
            assert(before[place - 1] == texts(list@[place - 1]@));
        }
        lemma_path_placed(before, texts(path@), place as int);
    }
    list.insert(place, path);
    proof {
        assert(paths(list@) =~= before.insert(place as int, texts(path@)));
    }
}

/// Puts paths into order, each once.
pub fn order_paths(list: Vec<Vec<String>>) -> (found: Vec<Vec<String>>)
    ensures
        paths(found@) == without_repetitions(sorted_paths(paths(list@))),
{
    let ghost all = paths(list@);
    let ghost given = list@;
    let mut sorted: Vec<Vec<String>> = Vec::new();
    proof {
        assert(all.take(0) =~= Seq::empty());
        assert(paths(sorted@) =~= Seq::empty());
    }
    for path in iter: list
        invariant
            iter.seq() == given,
            all == paths(given),
            paths(sorted@) == sorted_paths(all.take(iter.index() as int)),
    {
        proof {
            let at = iter.index() as int;
            assert(all.take(at + 1).drop_last() =~= all.take(at));
            assert(all.take(at + 1).last() == texts(path@));
        }
        place_path(&mut sorted, path);
    }
    let ghost ordered = paths(sorted@);
    let mut found: Vec<Vec<String>> = Vec::new();
    proof {
        assert(all.take(all.len() as int) =~= all);
        assert(ordered.take(0) =~= Seq::empty());
        assert(paths(found@) =~= Seq::empty());
    }
    let mut at: usize = 0;
    while at < sorted.len()
        invariant
            at <= sorted@.len(),
            ordered == paths(sorted@),
            paths(found@) == without_repetitions(ordered.take(at as int)),
        decreases sorted@.len() - at,
    {
        let ghost before = paths(found@);
        proof {
            assert(ordered.take(at + 1).drop_last() =~= ordered.take(at as int));
            assert(ordered.take(at + 1).last() == texts(sorted@[at as int]@));
            if before.len() > 0 {
                assert(before.last() == texts(found@[found@.len() - 1]@));
            }
        }
        let repeated: bool = found.len() > 0 && same_texts(&found[found.len() - 1], &sorted[at]);
        if !repeated {
            found.push(copy_texts(&sorted[at]));
            proof {
                assert(paths(found@) =~= before.push(texts(sorted@[at as int]@)));
            }
        }
        at = at + 1;
    }
    proof {
        assert(ordered.take(ordered.len() as int) =~= ordered);
    }
    found
}

// ---------------------------------------------------------------------------
// The record of one bridge

/// The newest record: of several, the last.
pub open spec fn newest(list: Seq<RecordView>) -> Option<RecordView>
    decreases list.len(),
{
    if list.len() == 0 {
        None
    } else {
        match newest(list.drop_last()) {
            Some(best) if best.modified > list.last().modified => Some(best),
            _ => Some(list.last()),
        }
    }
}

/// Where the record of a bridge is looked for: in the registry of this user if it is
/// there or no other registry can be seen, otherwise where it was written last.
pub fn choose_record(native: &str, native_there: bool, others: &Option<Vec<RecordFile>>) -> (path: String)
    ensures
        path@ == (match others {
            Some(list) if !native_there => match newest(record_views(list@)) {
                Some(record) => record.path,
                None => native@,
            },
            _ => native@,
        }),
{
    if native_there {
        return native.to_owned();
    }
    match others {
        Some(list) => {
            let ghost all = record_views(list@);
            let mut best: Option<usize> = None;
            let mut at: usize = 0;
            proof {
                assert(all.take(0) =~= Seq::empty());
            }
            while at < list.len()
                invariant
                    at <= list@.len(),
                    all == record_views(list@),
                    match best {
                        Some(place) => place < at && newest(all.take(at as int)) == Some(list@[place as int]@),
                        None => at == 0 && newest(all.take(at as int)) is None,
                    },
                decreases list@.len() - at,
            {
                proof {
                    assert(all.take(at + 1).drop_last() =~= all.take(at as int));
                    assert(all.take(at + 1).last() == list@[at as int]@);
                }
                let kept: bool = match best {
                    Some(place) => list[place].modified > list[at].modified,
                    None => false,
                };
                if !kept {
                    best = Some(at);
                }
                at = at + 1;
            }
            proof {
                assert(all.take(all.len() as int) =~= all);
            }
            match best {
                Some(place) => list[place].path.clone(),
                None => native.to_owned(),
            }
        },
        None => native.to_owned(),
    }
}

} // verus!
