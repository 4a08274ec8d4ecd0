//! Replacing files so that an interruption at any point is made good: what is done with
//! each record of a recovery journal, and what an interruption leaves.

use crate::source_metadata::{refused, SourceError};
use crate::text::joined;
use vstd::prelude::*;

verus! {

/// One change to the files.
#[derive(Debug)]
pub enum FileStep {
    Rename { from: String, to: String },
    /// The directories above the new place are made first.
    RenameInto { from: String, to: String },
    Remove(String),
}

#[verifier::ext_equal]
pub enum StepView {
    Rename { from: Seq<char>, to: Seq<char> },
    RenameInto { from: Seq<char>, to: Seq<char> },
    Remove(Seq<char>),
}

impl View for FileStep {
    type V = StepView;

    open spec fn view(&self) -> StepView {
        match self {
            FileStep::Rename { from, to } => StepView::Rename { from: from@, to: to@ },
            FileStep::RenameInto { from, to } => StepView::RenameInto { from: from@, to: to@ },
            FileStep::Remove(path) => StepView::Remove(path@),
        }
    }
}

/// What steps are.
pub open spec fn step_views(steps: Seq<FileStep>) -> Seq<StepView> {
    steps.map_values(|step: FileStep| step@)
}

/// What the paths hold after a step.
pub open spec fn after_step(disk: Map<Seq<char>, int>, step: StepView) -> Map<Seq<char>, int> {
    match step {
        StepView::Rename { from, to } => disk.remove(from).insert(to, disk[from]),
        StepView::RenameInto { from, to } => disk.remove(from).insert(to, disk[from]),
        StepView::Remove(path) => disk.remove(path),
    }
}

/// What the paths hold after steps.
pub open spec fn after(disk: Map<Seq<char>, int>, steps: Seq<StepView>) -> Map<Seq<char>, int>
    decreases steps.len(),
{
    if steps.len() == 0 {
        disk
    } else {
        after_step(after(disk, steps.drop_last()), steps.last())
    }
}

/// A path that takes another's place, which is kept aside meanwhile.
#[derive(Debug)]
pub struct Domain {
    pub staged: String,
    pub target: String,
    pub backup: String,
}

/// A path that is put aside.
#[derive(Debug)]
pub struct Retirement {
    pub target: String,
    pub backup: String,
}

/// A path that moves to a place where nothing is yet.
#[derive(Debug)]
pub struct Output {
    pub source: String,
    pub target: String,
}

/// What a record of a journal asks for.
#[verifier::ext_equal]
pub enum Record {
    Domain { staged: Seq<char>, target: Seq<char>, backup: Seq<char> },
    Retirement { target: Seq<char>, backup: Seq<char> },
    Output { source: Seq<char>, target: Seq<char> },
    Move { source: Seq<char>, target: Seq<char> },
}

impl View for Domain {
    type V = Record;

    open spec fn view(&self) -> Record {
        Record::Domain { staged: self.staged@, target: self.target@, backup: self.backup@ }
    }
}

impl View for Retirement {
    type V = Record;

    open spec fn view(&self) -> Record {
        Record::Retirement { target: self.target@, backup: self.backup@ }
    }
}

/// What a domain needs, by which of its paths are there.
pub open spec fn domain_steps(
    staged: Seq<char>,
    target: Seq<char>,
    backup: Seq<char>,
    staged_there: bool,
    target_there: bool,
    backup_there: bool,
    recovering: bool,
) -> Result<Seq<StepView>, Seq<char>> {
    let place = StepView::Rename { from: staged, to: target };
    if staged_there {
        if !target_there {
            Ok(seq![place])
        } else if !backup_there {
            Ok(seq![StepView::Rename { from: target, to: backup }, place])
        } else {
            Err(
                if recovering {
                    "cannot recover occupied capture target "@ + target
                } else {
                    "capture promotion target was not retired: "@ + target
                },
            )
        }
    } else if target_there {
        Ok(Seq::empty())
    } else {
        Err(
            if recovering {
                "cannot recover capture target "@ + target
            } else {
                "capture promotion target is missing: "@ + target
            },
        )
    }
}

/// What a retirement needs, by which of its paths are there.
pub open spec fn retirement_steps(
    target: Seq<char>,
    backup: Seq<char>,
    target_there: bool,
    backup_there: bool,
    recovering: bool,
) -> Result<Seq<StepView>, Seq<char>> {
    if target_there && !backup_there {
        Ok(seq![StepView::Rename { from: target, to: backup }])
    } else if !target_there && backup_there {
        Ok(Seq::empty())
    } else {
        Err(
            if recovering {
                "cannot recover capture retirement "@ + target
            } else {
                "capture retirement did not preserve "@ + target
            },
        )
    }
}

/// What a move to a new place needs, by which of its paths are there.
pub open spec fn move_steps(
    source: Seq<char>,
    target: Seq<char>,
    source_there: bool,
    target_there: bool,
    output: bool,
) -> Result<Seq<StepView>, Seq<char>> {
    if target_there {
        Ok(Seq::empty())
    } else if source_there {
        Ok(
            if output {
                seq![StepView::RenameInto { from: source, to: target }]
            } else {
                seq![StepView::Rename { from: source, to: target }]
            },
        )
    } else {
        Err(
            if output {
                "cannot recover transaction output "@ + target
            } else {
                "cannot recover transaction target "@ + target
            },
        )
    }
}

/// What a record needs, by what is there.
pub open spec fn record_steps(record: Record, there: Set<Seq<char>>, recovering: bool) -> Result<
    Seq<StepView>,
    Seq<char>,
> {
    match record {
        Record::Domain { staged, target, backup } => domain_steps(
            staged,
            target,
            backup,
            there.contains(staged),
            there.contains(target),
            there.contains(backup),
            recovering,
        ),
        Record::Retirement { target, backup } => retirement_steps(
            target,
            backup,
            there.contains(target),
            there.contains(backup),
            recovering,
        ),
        Record::Output { source, target } => move_steps(
            source,
            target,
            there.contains(source),
            there.contains(target),
            true,
        ),
        Record::Move { source, target } => move_steps(
            source,
            target,
            there.contains(source),
            there.contains(target),
            false,
        ),
    }
}

/// What the records of a journal need, one after the other.
pub open spec fn rolled_forward(records: Seq<Record>, disk: Map<Seq<char>, int>, recovering: bool) -> Result<
    Seq<StepView>,
    Seq<char>,
>
    decreases records.len(),
{
    if records.len() == 0 {
        Ok(Seq::empty())
    } else {
        match record_steps(records.first(), disk.dom(), recovering) {
            Err(text) => Err(text),
            Ok(steps) => match rolled_forward(records.drop_first(), after(disk, steps), recovering) {
                Err(text) => Err(text),
                Ok(rest) => Ok(steps + rest),
            },
        }
    }
}

/// The paths of a record.
pub open spec fn record_paths(record: Record) -> Seq<Seq<char>> {
    match record {
        Record::Domain { staged, target, backup } => seq![staged, target, backup],
        Record::Retirement { target, backup } => seq![target, backup],
        Record::Output { source, target } => seq![source, target],
        Record::Move { source, target } => seq![source, target],
    }
}

/// The paths of records.
pub open spec fn all_paths(records: Seq<Record>) -> Seq<Seq<char>>
    decreases records.len(),
{
    if records.len() == 0 {
        Seq::empty()
    } else {
        record_paths(records.first()) + all_paths(records.drop_first())
    }
}

proof fn lemma_after_parts(disk: Map<Seq<char>, int>, left: Seq<StepView>, right: Seq<StepView>)
    ensures
        after(disk, left + right) == after(after(disk, left), right),
    decreases right.len(),
{
    if right.len() == 0 {
        assert(left + right =~= left);
    } else {
        assert((left + right).drop_last() =~= left + right.drop_last());
        lemma_after_parts(disk, left, right.drop_last());
    }
}

/// A step touches none of some paths.
spec fn spares(step: StepView, path: Seq<char>) -> bool {
    match step {
        StepView::Rename { from, to } => from != path && to != path,
        StepView::RenameInto { from, to } => from != path && to != path,
        StepView::Remove(removed) => removed != path,
    }
}

proof fn lemma_spared(disk: Map<Seq<char>, int>, steps: Seq<StepView>, path: Seq<char>)
    requires
        forall|k: int| 0 <= k < steps.len() ==> spares(#[trigger] steps[k], path),
    ensures
        after(disk, steps).dom().contains(path) == disk.dom().contains(path),
    decreases steps.len(),
{
    if steps.len() > 0 {
        assert(spares(steps[steps.len() - 1], path));
        assert forall|k: int| 0 <= k < steps.drop_last().len() implies spares(#[trigger] steps.drop_last()[k], path) by {
            assert(spares(steps[k], path));
        }
        lemma_spared(disk, steps.drop_last(), path);
    }
}

/// What records need touches only their paths.
proof fn lemma_steps_stay_inside(records: Seq<Record>, disk: Map<Seq<char>, int>, recovering: bool, path: Seq<char>)
    requires
        !all_paths(records).contains(path),
        rolled_forward(records, disk, recovering) is Ok,
    ensures
        forall|k: int|
            0 <= k < rolled_forward(records, disk, recovering)->Ok_0.len() ==> spares(
                #[trigger] rolled_forward(records, disk, recovering)->Ok_0[k],
                path,
            ),
    decreases records.len(),
{
    if records.len() > 0 {
        let own = record_paths(records.first());
        let rest = all_paths(records.drop_first());
        let steps = record_steps(records.first(), disk.dom(), recovering)->Ok_0;
        assert forall|at: int| 0 <= at < own.len() implies own[at] != path by {
            assert((own + rest)[at] == own[at]);
        }
        assert forall|at: int| 0 <= at < rest.len() implies rest[at] != path by {
            assert((own + rest)[own.len() + at] == rest[at]);
        }
        assert(!rest.contains(path));
        lemma_steps_stay_inside(records.drop_first(), after(disk, steps), recovering, path);
        match records.first() {
            Record::Domain { staged, target, backup } => {
                assert(own[0] == staged && own[1] == target && own[2] == backup);
            },
            Record::Retirement { target, backup } => {
                assert(own[0] == target && own[1] == backup);
            },
            Record::Output { source, target } => {
                assert(own[0] == source && own[1] == target);
            },
            Record::Move { source, target } => {
                assert(own[0] == source && own[1] == target);
            },
        }
        let later = rolled_forward(records.drop_first(), after(disk, steps), recovering)->Ok_0;
        let all = rolled_forward(records, disk, recovering)->Ok_0;
        assert(all == steps + later);
        assert forall|k: int| 0 <= k < all.len() implies spares(#[trigger] all[k], path) by {
            if k < steps.len() {
                assert(all[k] == steps[k]);
            } else {
                assert(all[k] == later[k - steps.len()]);
            }
        }
    }
}

/// A record whose steps were interrupted needs the steps that were left.
proof fn lemma_record_resumes(record: Record, disk: Map<Seq<char>, int>, recovering: bool, again: bool, done: int)
    requires
        record_paths(record).no_duplicates(),
        record_steps(record, disk.dom(), recovering) is Ok,
        0 <= done <= record_steps(record, disk.dom(), recovering)->Ok_0.len(),
    ensures
        record_steps(
            record,
            after(disk, record_steps(record, disk.dom(), recovering)->Ok_0.take(done)).dom(),
            again,
        ) == Ok::<Seq<StepView>, Seq<char>>(record_steps(record, disk.dom(), recovering)->Ok_0.skip(done)),
{
    let steps = record_steps(record, disk.dom(), recovering)->Ok_0;
    let paths = record_paths(record);
    reveal_with_fuel(after, 3);
    match record {
        Record::Domain { staged, target, backup } => {
            assert(paths[0] == staged && paths[1] == target && paths[2] == backup);
        },
        Record::Retirement { target, backup } => {
            assert(paths[0] == target && paths[1] == backup);
        },
        Record::Output { source, target } => {
            assert(paths[0] == source && paths[1] == target);
        },
        Record::Move { source, target } => {
            assert(paths[0] == source && paths[1] == target);
        },
    }
    if done == 0 {
        assert(steps.take(0) =~= Seq::empty());
        assert(steps.skip(0) =~= steps);
    } else if done == 1 {
        assert(steps.take(1) =~= seq![steps[0]]);
        assert(steps.take(1).drop_last() =~= Seq::empty());
        if steps.len() == 1 {
            assert(steps.skip(1) =~= Seq::empty());
        } else {
            assert(steps.skip(1) =~= seq![steps[1]]);
        }
    } else {
        assert(steps.take(2) =~= seq![steps[0], steps[1]]);
        assert(steps.take(2).drop_last() =~= seq![steps[0]]);
        assert(steps.take(2).drop_last().drop_last() =~= Seq::empty());
        assert(steps.skip(2) =~= Seq::empty());
    }
}

proof fn lemma_parts_differ(left: Seq<Seq<char>>, right: Seq<Seq<char>>)
    requires
        (left + right).no_duplicates(),
    ensures
        left.no_duplicates(),
        right.no_duplicates(),
        forall|k: int| 0 <= k < left.len() ==> !right.contains(#[trigger] left[k]),
{
    let both = left + right;
    assert forall|i: int, j: int| 0 <= i < left.len() && 0 <= j < left.len() && i != j implies left[i] != left[j] by {
        assert(both[i] == left[i] && both[j] == left[j]);
    }
    assert forall|i: int, j: int| 0 <= i < right.len() && 0 <= j < right.len() && i != j implies right[i] != right[j] by {
        assert(both[left.len() + i] == right[i] && both[left.len() + j] == right[j]);
    }
    assert forall|k: int| 0 <= k < left.len() implies !right.contains(#[trigger] left[k]) by {
        if right.contains(left[k]) {
            let at = choose|at: int| 0 <= at < right.len() && right[at] == left[k];
            assert(both[left.len() + at] == both[k]);
        }
    }
}

/// What a record needs follows from which of its paths are there.
proof fn lemma_steps_follow_paths(record: Record, left: Set<Seq<char>>, right: Set<Seq<char>>, recovering: bool)
    requires
        forall|k: int|
            0 <= k < record_paths(record).len() ==> left.contains(#[trigger] record_paths(record)[k]) == right.contains(
                record_paths(record)[k],
            ),
    ensures
        record_steps(record, left, recovering) == record_steps(record, right, recovering),
{
    let own = record_paths(record);
    match record {
        Record::Domain { staged, target, backup } => {
            assert(own[0] == staged && own[1] == target && own[2] == backup);
        },
        Record::Retirement { target, backup } => {
            assert(own[0] == target && own[1] == backup);
        },
        Record::Output { source, target } => {
            assert(own[0] == source && own[1] == target);
        },
        Record::Move { source, target } => {
            assert(own[0] == source && own[1] == target);
        },
    }
}

/// The steps of records leave paths as they are that the records do not have.
proof fn lemma_later_steps_spare(
    records: Seq<Record>,
    disk: Map<Seq<char>, int>,
    recovering: bool,
    done: int,
    paths: Seq<Seq<char>>,
)
    requires
        rolled_forward(records, disk, recovering) is Ok,
        0 <= done <= rolled_forward(records, disk, recovering)->Ok_0.len(),
        forall|k: int| 0 <= k < paths.len() ==> !all_paths(records).contains(#[trigger] paths[k]),
    ensures
        forall|k: int|
            0 <= k < paths.len() ==> after(
                disk,
                rolled_forward(records, disk, recovering)->Ok_0.take(done),
            ).dom().contains(#[trigger] paths[k]) == disk.dom().contains(paths[k]),
{
    let steps = rolled_forward(records, disk, recovering)->Ok_0;
    assert forall|k: int| 0 <= k < paths.len() implies after(disk, steps.take(done)).dom().contains(
        #[trigger] paths[k],
    ) == disk.dom().contains(paths[k]) by {
        lemma_steps_stay_inside(records, disk, recovering, paths[k]);
        assert forall|j: int| 0 <= j < steps.take(done).len() implies spares(#[trigger] steps.take(done)[j], paths[k]) by {
            assert(steps.take(done)[j] == steps[j]);
        }
        lemma_spared(disk, steps.take(done), paths[k]);
    }
}

/// A commit that was interrupted is rolled forward: where each path occurs once in the
/// records of a journal, recovery takes exactly the steps that were left, so that the
/// files end as they would have without the interruption.
#[verifier::rlimit(60)]
pub proof fn law_interrupted_commits_roll_forward(
    records: Seq<Record>,
    disk: Map<Seq<char>, int>,
    recovering: bool,
    again: bool,
    done: int,
)
    requires
        all_paths(records).no_duplicates(),
        rolled_forward(records, disk, recovering) is Ok,
        0 <= done <= rolled_forward(records, disk, recovering)->Ok_0.len(),
    ensures
        ({
            let steps = rolled_forward(records, disk, recovering)->Ok_0;
            let left = after(disk, steps.take(done));
            &&& rolled_forward(records, left, again) == Ok::<Seq<StepView>, Seq<char>>(steps.skip(done))
            &&& after(left, steps.skip(done)) == after(disk, steps)
        }),
    decreases records.len(),
{
    let all = rolled_forward(records, disk, recovering)->Ok_0;
    assert(all.take(done) + all.skip(done) =~= all);
    lemma_after_parts(disk, all.take(done), all.skip(done));
    if records.len() == 0 {
        assert(all.take(0) =~= Seq::empty());
        assert(all.skip(done) =~= Seq::empty());
    } else {
        let record = records.first();
        let rest = records.drop_first();
        let steps = record_steps(record, disk.dom(), recovering)->Ok_0;
        let middle = after(disk, steps);
        let later = rolled_forward(rest, middle, recovering)->Ok_0;
        let own = record_paths(record);
        lemma_parts_differ(own, all_paths(rest));
        assert(all == steps + later);
        let left = after(disk, all.take(done));
        if done <= steps.len() {
            assert(all.take(done) =~= steps.take(done));
            lemma_record_resumes(record, disk, recovering, again, done);
            assert(steps.take(done) + steps.skip(done) =~= steps);
            lemma_after_parts(disk, steps.take(done), steps.skip(done));
            assert(after(left, steps.skip(done)) == middle);
            law_interrupted_commits_roll_forward(rest, middle, recovering, again, 0);
            assert(later.take(0) =~= Seq::empty());
            assert(later.skip(0) =~= later);
            assert(all.skip(done) =~= steps.skip(done) + later);
        } else {
            let over = done - steps.len();
            assert(all.take(done) =~= steps + later.take(over));
            lemma_after_parts(disk, steps, later.take(over));
            assert(left == after(middle, later.take(over)));
            law_interrupted_commits_roll_forward(rest, middle, recovering, again, over);
            assert(all.skip(done) =~= later.skip(over));
            lemma_record_resumes(record, disk, recovering, again, steps.len() as int);
            assert(steps.take(steps.len() as int) =~= steps);
            assert(steps.skip(steps.len() as int) =~= Seq::empty());
            lemma_later_steps_spare(rest, middle, recovering, over, own);
            lemma_steps_follow_paths(record, left.dom(), middle.dom(), again);
            assert(record_steps(record, left.dom(), again) == record_steps(record, middle.dom(), again));
            assert(after(left, Seq::<StepView>::empty()) == left);
            assert(Seq::<StepView>::empty() + later.skip(over) =~= later.skip(over));
        }
    }
}

/// Says what a domain needs, by which of its paths are there.
pub fn settle_domain(domain: &Domain, staged_there: bool, target_there: bool, backup_there: bool, recovering: bool) -> (steps:
    Result<Vec<FileStep>, SourceError>)
    ensures
        match domain_steps(
            domain.staged@,
            domain.target@,
            domain.backup@,
            staged_there,
            target_there,
            backup_there,
            recovering,
        ) {
            Ok(expected) => steps matches Ok(steps) && step_views(steps@) == expected,
            Err(text) => steps matches Err(error) && error.message@ == text,
        },
{
    let mut steps: Vec<FileStep> = Vec::new();
    if staged_there {
        if target_there && backup_there {
            return Err(
                refused(
                    if recovering {
                        joined("cannot recover occupied capture target ", domain.target.as_str())
                    } else {
                        joined("capture promotion target was not retired: ", domain.target.as_str())
                    },
                ),
            );
        }
        if target_there {
            steps.push(FileStep::Rename { from: domain.target.clone(), to: domain.backup.clone() });
        }
        steps.push(FileStep::Rename { from: domain.staged.clone(), to: domain.target.clone() });
    } else if !target_there {
        return Err(
            refused(
                if recovering {
                    joined("cannot recover capture target ", domain.target.as_str())
                } else {
                    joined("capture promotion target is missing: ", domain.target.as_str())
                },
            ),
        );
    }
    proof {
        assert(step_views(steps@) =~= domain_steps(
            domain.staged@,
            domain.target@,
            domain.backup@,
            staged_there,
            target_there,
            backup_there,
            recovering,
        )->Ok_0);
    }
    Ok(steps)
}

/// Says what a retirement needs, by which of its paths are there.
pub fn settle_retirement(retirement: &Retirement, target_there: bool, backup_there: bool, recovering: bool) -> (steps:
    Result<Vec<FileStep>, SourceError>)
    ensures
        match retirement_steps(retirement.target@, retirement.backup@, target_there, backup_there, recovering) {
            Ok(expected) => steps matches Ok(steps) && step_views(steps@) == expected,
            Err(text) => steps matches Err(error) && error.message@ == text,
        },
{
    let mut steps: Vec<FileStep> = Vec::new();
    if target_there && !backup_there {
        steps.push(FileStep::Rename { from: retirement.target.clone(), to: retirement.backup.clone() });
    } else if target_there || !backup_there {
        return Err(
            refused(
                if recovering {
                    joined("cannot recover capture retirement ", retirement.target.as_str())
                } else {
                    joined("capture retirement did not preserve ", retirement.target.as_str())
                },
            ),
        );
    }
    proof {
        assert(step_views(steps@) =~= retirement_steps(
            retirement.target@,
            retirement.backup@,
            target_there,
            backup_there,
            recovering,
        )->Ok_0);
    }
    Ok(steps)
}

/// Says what a move to a new place needs, by which of its paths are there. An output is
/// a file that a new project starts with.
pub fn settle_move(moved: &Output, source_there: bool, target_there: bool, output: bool) -> (steps: Result<
    Vec<FileStep>,
    SourceError,
>)
    ensures
        match move_steps(moved.source@, moved.target@, source_there, target_there, output) {
            Ok(expected) => steps matches Ok(steps) && step_views(steps@) == expected,
            Err(text) => steps matches Err(error) && error.message@ == text,
        },
{
    let mut steps: Vec<FileStep> = Vec::new();
    if !target_there {
        if !source_there {
            return Err(
                refused(
                    if output {
                        joined("cannot recover transaction output ", moved.target.as_str())
                    } else {
                        joined("cannot recover transaction target ", moved.target.as_str())
                    },
                ),
            );
        }
        if output {
            steps.push(FileStep::RenameInto { from: moved.source.clone(), to: moved.target.clone() });
        } else {
            steps.push(FileStep::Rename { from: moved.source.clone(), to: moved.target.clone() });
        }
    }
    proof {
        assert(step_views(steps@) =~= move_steps(
            moved.source@,
            moved.target@,
            source_there,
            target_there,
            output,
        )->Ok_0);
    }
    Ok(steps)
}

/// What puts a path in another's place, the journal written.
pub open spec fn replacement_steps(staged: Seq<char>, target: Seq<char>, backup: Seq<char>, target_there: bool) -> Seq<
    StepView,
> {
    let place = StepView::Rename { from: staged, to: target };
    if target_there {
        seq![StepView::Rename { from: target, to: backup }, place, StepView::Remove(backup)]
    } else {
        seq![place]
    }
}

/// Says how a path is put in another's place. Before the first of the steps the journal
/// is written, and after the last it is removed.
pub fn replace(domain: &Domain, target_there: bool) -> (steps: Vec<FileStep>)
    ensures
        step_views(steps@) == replacement_steps(domain.staged@, domain.target@, domain.backup@, target_there),
{
    let mut steps: Vec<FileStep> = Vec::new();
    if target_there {
        steps.push(FileStep::Rename { from: domain.target.clone(), to: domain.backup.clone() });
    }
    steps.push(FileStep::Rename { from: domain.staged.clone(), to: domain.target.clone() });
    if target_there {
        steps.push(FileStep::Remove(domain.backup.clone()));
    }
    proof {
        assert(step_views(steps@) =~= replacement_steps(
            domain.staged@,
            domain.target@,
            domain.backup@,
            target_there,
        ));
    }
    steps
}

/// What makes an interrupted replacement good, by which of its paths are there.
pub open spec fn replacement_recovery(
    staged: Seq<char>,
    target: Seq<char>,
    backup: Seq<char>,
    staged_there: bool,
    target_there: bool,
    backup_there: bool,
) -> Result<Seq<StepView>, Seq<char>> {
    if target_there {
        Ok(seq![StepView::Remove(backup), StepView::Remove(staged)])
    } else if staged_there {
        Ok(seq![StepView::Rename { from: staged, to: target }, StepView::Remove(backup)])
    } else if backup_there {
        Ok(seq![StepView::Rename { from: backup, to: target }])
    } else {
        Err("Carbon transaction cannot be recovered: all transaction domains are missing"@)
    }
}

/// Says what makes an interrupted replacement good.
pub fn recover_replacement(domain: &Domain, staged_there: bool, target_there: bool, backup_there: bool) -> (steps: Result<
    Vec<FileStep>,
    SourceError,
>)
    ensures
        match replacement_recovery(
            domain.staged@,
            domain.target@,
            domain.backup@,
            staged_there,
            target_there,
            backup_there,
        ) {
            Ok(expected) => steps matches Ok(steps) && step_views(steps@) == expected,
            Err(text) => steps matches Err(error) && error.message@ == text,
        },
{
    let mut steps: Vec<FileStep> = Vec::new();
    if target_there {
        steps.push(FileStep::Remove(domain.backup.clone()));
        steps.push(FileStep::Remove(domain.staged.clone()));
    } else if staged_there {
        steps.push(FileStep::Rename { from: domain.staged.clone(), to: domain.target.clone() });
        steps.push(FileStep::Remove(domain.backup.clone()));
    } else if backup_there {
        steps.push(FileStep::Rename { from: domain.backup.clone(), to: domain.target.clone() });
    } else {
        return Err(
            refused("Carbon transaction cannot be recovered: all transaction domains are missing".to_owned()),
        );
    }
    proof {
        assert(step_views(steps@) =~= replacement_recovery(
            domain.staged@,
            domain.target@,
            domain.backup@,
            staged_there,
            target_there,
            backup_there,
        )->Ok_0);
    }
    Ok(steps)
}

/// A replacement is all or nothing: wherever it is interrupted, recovery succeeds and
/// leaves at the target what was there before or what was staged, and nothing at the
/// other two paths.
pub proof fn law_replacements_are_all_or_nothing(
    staged: Seq<char>,
    target: Seq<char>,
    backup: Seq<char>,
    disk: Map<Seq<char>, int>,
    done: int,
)
    requires
        staged != target,
        staged != backup,
        target != backup,
        disk.dom().contains(staged),
        !disk.dom().contains(backup),
        0 <= done <= replacement_steps(staged, target, backup, disk.dom().contains(target)).len(),
    ensures
        ({
            let steps = replacement_steps(staged, target, backup, disk.dom().contains(target));
            let left = after(disk, steps.take(done));
            let recovery = replacement_recovery(
                staged,
                target,
                backup,
                left.dom().contains(staged),
                left.dom().contains(target),
                left.dom().contains(backup),
            );
            let ended = after(left, recovery->Ok_0);
            &&& recovery is Ok
            &&& ended.dom().contains(target)
            &&& ended[target] == (if done == 0 && disk.dom().contains(target) {
                disk[target]
            } else {
                disk[staged]
            })
            &&& !ended.dom().contains(staged)
            &&& !ended.dom().contains(backup)
        }),
{
    let steps = replacement_steps(staged, target, backup, disk.dom().contains(target));
    reveal_with_fuel(after, 4);
    if done == 0 {
        assert(steps.take(0) =~= Seq::empty());
    } else if done == 1 {
        assert(steps.take(1) =~= seq![steps[0]]);
        assert(steps.take(1).drop_last() =~= Seq::empty());
    } else if done == 2 {
        assert(steps.take(2) =~= seq![steps[0], steps[1]]);
        assert(steps.take(2).drop_last() =~= seq![steps[0]]);
        assert(steps.take(2).drop_last().drop_last() =~= Seq::empty());
    } else {
        assert(steps.take(3) =~= seq![steps[0], steps[1], steps[2]]);
        assert(steps.take(3).drop_last() =~= seq![steps[0], steps[1]]);
        assert(steps.take(3).drop_last().drop_last() =~= seq![steps[0]]);
        assert(steps.take(3).drop_last().drop_last().drop_last() =~= Seq::empty());
    }
    let left = after(disk, steps.take(done));
    let recovery = replacement_recovery(
        staged,
        target,
        backup,
        left.dom().contains(staged),
        left.dom().contains(target),
        left.dom().contains(backup),
    )->Ok_0;
    assert(recovery.drop_last() =~= seq![recovery[0]]);
    assert(recovery.drop_last().drop_last() =~= Seq::empty());
}

} // verus!
