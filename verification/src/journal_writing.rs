//! The recovery journals that are written before anything is moved.

use crate::journal::{Domain, Output, Record, Retirement};
use crate::journal_documents::{
    domain_record, journal_of, member, move_record, output_views, replacement_record, retirement_record, JournalView,
};
use crate::json_view::{array_view, field_place, json_view, lemma_array_pushed, object_view, Fields, JsonView};
use crate::project_document::{Json, JsonField};
use crate::project_writing::push_value;
use vstd::prelude::*;

verus! {

/// The text of a journal's field.
pub open spec fn text_field(key: Seq<char>, text: Seq<char>) -> (Seq<char>, JsonView) {
    (key, JsonView::String(text))
}

/// How a domain is written down.
pub open spec fn domain_view(staged: Seq<char>, target: Seq<char>, backup: Seq<char>) -> JsonView {
    JsonView::Object(
        seq![text_field("staged"@, staged), text_field("target"@, target), text_field("backup"@, backup)],
    )
}

/// How domains are written down.
pub open spec fn domain_views(domains: Seq<Domain>) -> Seq<JsonView> {
    domains.map_values(|domain: Domain| domain_view(domain.staged@, domain.target@, domain.backup@))
}

/// How a retirement is written down.
pub open spec fn retirement_view(target: Seq<char>, backup: Seq<char>) -> JsonView {
    JsonView::Object(seq![text_field("target"@, target), text_field("backup"@, backup)])
}

/// How retirements are written down.
pub open spec fn retirement_views(retirements: Seq<Retirement>) -> Seq<JsonView> {
    retirements.map_values(|retirement: Retirement| retirement_view(retirement.target@, retirement.backup@))
}

/// How a file that a new project starts with is written down.
pub open spec fn output_view(output: (Seq<char>, Seq<char>)) -> JsonView {
    JsonView::Object(seq![text_field("source"@, output.0), text_field("target"@, output.1)])
}

/// A journal of a mode, with what it says.
pub open spec fn journal_view(mode: Seq<char>, rest: Fields) -> JsonView {
    JsonView::Object(seq![("version"@, JsonView::Number("1"@)), text_field("mode"@, mode)] + rest)
}

/// The journal of a capture.
pub open spec fn capture_view(domains: Seq<Domain>, retirements: Seq<Retirement>) -> JsonView {
    journal_view(
        "captureData"@,
        seq![
            ("domains"@, JsonView::Array(domain_views(domains))),
            ("retirements"@, JsonView::Array(retirement_views(retirements))),
        ],
    )
}

/// The journal of data that is replaced.
pub open spec fn replacement_view(domain: Domain) -> JsonView {
    journal_view(
        "replaceData"@,
        seq![
            text_field("target"@, domain.target@),
            text_field("backup"@, domain.backup@),
            text_field("staged"@, domain.staged@),
        ],
    )
}

/// The journal of a new project: where its document, its data and its source move.
pub open spec fn creation_view(project: Output, data: Output, outputs: Seq<Output>) -> JsonView {
    journal_view(
        "createProject"@,
        seq![
            text_field("targetProject"@, project.target@),
            text_field("stagedProject"@, project.source@),
            text_field("targetData"@, data.target@),
            text_field("stagedData"@, data.source@),
            (
                "outputs"@,
                JsonView::Array(output_views(outputs).map_values(|output: (Seq<char>, Seq<char>)| output_view(output))),
            ),
        ],
    )
}

fn push_text_field(fields: &mut Vec<JsonField>, key: &str, text: &String)
    ensures
        object_view(final(fields)@) == object_view(old(fields)@).push(text_field(key@, text@)),
{
    push_value(fields, key, Json::String(text.clone()));
}

fn begin_journal(mode: &str) -> (fields: Vec<JsonField>)
    ensures
        object_view(fields@) == seq![("version"@, JsonView::Number("1"@)), text_field("mode"@, mode@)],
{
    let mut fields: Vec<JsonField> = Vec::new();
    push_value(&mut fields, "version", Json::Number("1".to_owned()));
    push_value(&mut fields, "mode", Json::String(mode.to_owned()));
    proof {
        assert(object_view(fields@) =~= seq![("version"@, JsonView::Number("1"@)), text_field("mode"@, mode@)]);
    }
    fields
}

fn write_domains(domains: &Vec<Domain>) -> (list: Vec<Json>)
    ensures
        array_view(list@) == domain_views(domains@),
{
    let mut list: Vec<Json> = Vec::new();
    let mut at: usize = 0;
    proof {
        assert(array_view(list@) =~= domain_views(domains@.take(0)));
    }
    while at < domains.len()
        invariant
            at <= domains@.len(),
            array_view(list@) == domain_views(domains@.take(at as int)),
        decreases domains@.len() - at,
    {
        let domain: &Domain = &domains[at];
        let mut fields: Vec<JsonField> = Vec::new();
        push_text_field(&mut fields, "staged", &domain.staged);
        push_text_field(&mut fields, "target", &domain.target);
        push_text_field(&mut fields, "backup", &domain.backup);
        let written: Json = Json::Object(fields);
        proof {
            assert(object_view(fields@) =~= seq![
                text_field("staged"@, domain.staged@),
                text_field("target"@, domain.target@),
                text_field("backup"@, domain.backup@),
            ]);
            lemma_array_pushed(list@, written);
            assert(domain_views(domains@.take(at + 1)) =~= domain_views(domains@.take(at as int)).push(
                domain_view(domain.staged@, domain.target@, domain.backup@),
            ));
        }
        list.push(written);
        at = at + 1;
    }
    proof {
        assert(domains@.take(domains@.len() as int) =~= domains@);
    }
    list
}

fn write_retirements(retirements: &Vec<Retirement>) -> (list: Vec<Json>)
    ensures
        array_view(list@) == retirement_views(retirements@),
{
    let mut list: Vec<Json> = Vec::new();
    let mut at: usize = 0;
    proof {
        assert(array_view(list@) =~= retirement_views(retirements@.take(0)));
    }
    while at < retirements.len()
        invariant
            at <= retirements@.len(),
            array_view(list@) == retirement_views(retirements@.take(at as int)),
        decreases retirements@.len() - at,
    {
        let retirement: &Retirement = &retirements[at];
        let mut fields: Vec<JsonField> = Vec::new();
        push_text_field(&mut fields, "target", &retirement.target);
        push_text_field(&mut fields, "backup", &retirement.backup);
        let written: Json = Json::Object(fields);
        proof {
            assert(object_view(fields@) =~= seq![
                text_field("target"@, retirement.target@),
                text_field("backup"@, retirement.backup@),
            ]);
            lemma_array_pushed(list@, written);
            assert(retirement_views(retirements@.take(at + 1)) =~= retirement_views(
                retirements@.take(at as int),
            ).push(retirement_view(retirement.target@, retirement.backup@)));
        }
        list.push(written);
        at = at + 1;
    }
    proof {
        assert(retirements@.take(retirements@.len() as int) =~= retirements@);
    }
    list
}

/// Writes the journal of a capture.
pub fn capture_journal(domains: &Vec<Domain>, retirements: &Vec<Retirement>) -> (journal: Json)
    ensures
        json_view(journal) == capture_view(domains@, retirements@),
{
    let mut fields: Vec<JsonField> = begin_journal("captureData");
    push_value(&mut fields, "domains", Json::Array(write_domains(domains)));
    push_value(&mut fields, "retirements", Json::Array(write_retirements(retirements)));
    proof {
        assert(json_view(Json::Object(fields)) == JsonView::Object(object_view(fields@)));
        assert(object_view(fields@) =~= capture_view(domains@, retirements@)->Object_0);
    }
    Json::Object(fields)
}

/// Writes the journal of data that is replaced.
pub fn replacement_journal(domain: &Domain) -> (journal: Json)
    ensures
        json_view(journal) == replacement_view(*domain),
{
    let mut fields: Vec<JsonField> = begin_journal("replaceData");
    push_text_field(&mut fields, "target", &domain.target);
    push_text_field(&mut fields, "backup", &domain.backup);
    push_text_field(&mut fields, "staged", &domain.staged);
    proof {
        assert(json_view(Json::Object(fields)) == JsonView::Object(object_view(fields@)));
        assert(object_view(fields@) =~= replacement_view(*domain)->Object_0);
    }
    Json::Object(fields)
}

/// Writes the journal of a new project.
pub fn new_project_journal(project: &Output, data: &Output, outputs: &Vec<Output>) -> (journal: Json)
    ensures
        json_view(journal) == creation_view(*project, *data, outputs@),
{
    let ghost all = output_views(outputs@).map_values(|output: (Seq<char>, Seq<char>)| output_view(output));
    let mut list: Vec<Json> = Vec::new();
    let mut at: usize = 0;
    proof {
        assert(array_view(list@) =~= all.take(0));
    }
    while at < outputs.len()
        invariant
            at <= outputs@.len(),
            all == output_views(outputs@).map_values(|output: (Seq<char>, Seq<char>)| output_view(output)),
            array_view(list@) == all.take(at as int),
        decreases outputs@.len() - at,
    {
        let output: &Output = &outputs[at];
        let mut held: Vec<JsonField> = Vec::new();
        push_text_field(&mut held, "source", &output.source);
        push_text_field(&mut held, "target", &output.target);
        let written: Json = Json::Object(held);
        proof {
            assert(object_view(held@) =~= seq![
                text_field("source"@, output.source@),
                text_field("target"@, output.target@),
            ]);
            lemma_array_pushed(list@, written);
            assert(all.take(at + 1) =~= all.take(at as int).push(output_view((output.source@, output.target@))));
        }
        list.push(written);
        at = at + 1;
    }
    proof {
        assert(all.take(outputs@.len() as int) =~= all);
    }
    let mut fields: Vec<JsonField> = begin_journal("createProject");
    push_text_field(&mut fields, "targetProject", &project.target);
    push_text_field(&mut fields, "stagedProject", &project.source);
    push_text_field(&mut fields, "targetData", &data.target);
    push_text_field(&mut fields, "stagedData", &data.source);
    push_value(&mut fields, "outputs", Json::Array(list));
    proof {
        assert(json_view(Json::Object(fields)) == JsonView::Object(object_view(fields@)));
        assert(object_view(fields@) =~= creation_view(*project, *data, outputs@)->Object_0);
    }
    Json::Object(fields)
}

// ---------------------------------------------------------------------------
// Reading back what is written

proof fn lemma_member(fields: Fields, key: Seq<char>, at: int)
    requires
        0 <= at < fields.len(),
        fields[at].0 == key,
        forall|k: int| 0 <= k < at ==> (#[trigger] fields[k]).0 != key,
    ensures
        member(JsonView::Object(fields), key) == Some(fields[at].1),
{
    lemma_place(fields, key, at, 0);
}

proof fn lemma_place(fields: Fields, key: Seq<char>, at: int, from: int)
    requires
        0 <= from <= at < fields.len(),
        fields[at].0 == key,
        forall|k: int| 0 <= k < at ==> (#[trigger] fields[k]).0 != key,
    ensures
        field_place(fields, key, from) == Some(at),
    decreases at - from,
{
    if from < at {
        assert(fields[from].0 != key);
        lemma_place(fields, key, at, from + 1);
    }
}

proof fn lemma_keys()
    ensures
        "version"@ != "mode"@,
        "version"@ != "domains"@ && "mode"@ != "domains"@,
        "version"@ != "retirements"@ && "mode"@ != "retirements"@ && "domains"@ != "retirements"@,
        "version"@ != "target"@ && "mode"@ != "target"@,
        "version"@ != "backup"@ && "mode"@ != "backup"@ && "target"@ != "backup"@ && "staged"@ != "backup"@,
        "version"@ != "staged"@ && "mode"@ != "staged"@ && "target"@ != "staged"@,
        "source"@ != "target"@,
        "captureData"@ != "createProject"@,
        "replaceData"@ != "createProject"@ && "replaceData"@ != "captureData"@ && "replaceData"@ != "promoteScript"@,
        "version"@ != "outputs"@ && "mode"@ != "outputs"@,
        "targetProject"@ != "outputs"@ && "stagedProject"@ != "outputs"@ && "targetData"@ != "outputs"@
            && "stagedData"@ != "outputs"@,
        "version"@ != "targetProject"@ && "mode"@ != "targetProject"@,
        "version"@ != "stagedProject"@ && "mode"@ != "stagedProject"@ && "targetProject"@ != "stagedProject"@,
        "version"@ != "targetData"@ && "mode"@ != "targetData"@ && "targetProject"@ != "targetData"@
            && "stagedProject"@ != "targetData"@,
        "version"@ != "stagedData"@ && "mode"@ != "stagedData"@ && "targetProject"@ != "stagedData"@
            && "stagedProject"@ != "stagedData"@ && "targetData"@ != "stagedData"@,
{
    reveal_strlit("version");
    reveal_strlit("mode");
    reveal_strlit("domains");
    reveal_strlit("retirements");
    reveal_strlit("target");
    reveal_strlit("backup");
    reveal_strlit("staged");
    reveal_strlit("source");
    reveal_strlit("outputs");
    reveal_strlit("captureData");
    reveal_strlit("createProject");
    reveal_strlit("replaceData");
    reveal_strlit("promoteScript");
    reveal_strlit("targetProject");
    reveal_strlit("stagedProject");
    reveal_strlit("targetData");
    reveal_strlit("stagedData");
    assert("staged"@[0] == 's' && "backup"@[0] == 'b' && "target"@[0] == 't' && "mode"@[0] == 'm');
    assert("captureData"@[1] == 'a' && "createProject"@[1] == 'r' && "replaceData"@[0] == 'r');
    assert("version"@[0] == 'v' && "domains"@[0] == 'd' && "retirements"@[0] == 'r' && "outputs"@[0] == 'o');
    assert("targetProject"@[0] == 't' && "stagedProject"@[0] == 's' && "promoteScript"@[0] == 'p');
    assert("source"@[1] == 'o' && "targetData"@[0] == 't' && "stagedData"@[0] == 's');
    assert("targetData"@.len() < "targetProject"@.len() && "stagedData"@.len() < "stagedProject"@.len());
}

/// The journal of a capture is read back: it is of a capture, and each of its domains and
/// retirements is the one that was written.
pub proof fn law_capture_journals_are_read_back(domains: Seq<Domain>, retirements: Seq<Retirement>)
    ensures
        journal_of(capture_view(domains, retirements)) == Ok::<JournalView, Seq<char>>(
            JournalView::CaptureData {
                domains: domain_views(domains),
                retirements: Some(retirement_views(retirements)),
            },
        ),
        forall|k: int|
            0 <= k < domains.len() ==> domain_record(#[trigger] domain_views(domains)[k]) == Ok::<Record, Seq<char>>(
                domains[k]@,
            ),
        forall|k: int|
            0 <= k < retirements.len() ==> retirement_record(#[trigger] retirement_views(retirements)[k]) == Ok::<
                Record,
                Seq<char>,
            >(retirements[k]@),
{
    lemma_keys();
    let fields = capture_view(domains, retirements)->Object_0;
    lemma_member(fields, "version"@, 0);
    lemma_member(fields, "mode"@, 1);
    lemma_member(fields, "domains"@, 2);
    lemma_member(fields, "retirements"@, 3);
    assert forall|k: int| 0 <= k < domains.len() implies domain_record(#[trigger] domain_views(domains)[k]) == Ok::<
        Record,
        Seq<char>,
    >(domains[k]@) by {
        let held = domain_views(domains)[k]->Object_0;
        lemma_member(held, "staged"@, 0);
        lemma_member(held, "target"@, 1);
        lemma_member(held, "backup"@, 2);
    }
    assert forall|k: int| 0 <= k < retirements.len() implies retirement_record(
        #[trigger] retirement_views(retirements)[k],
    ) == Ok::<Record, Seq<char>>(retirements[k]@) by {
        let held = retirement_views(retirements)[k]->Object_0;
        lemma_member(held, "target"@, 0);
        lemma_member(held, "backup"@, 1);
    }
}

/// The journal of data that is replaced is read back as what was written.
pub proof fn law_replacement_journals_are_read_back(domain: Domain)
    ensures
        journal_of(replacement_view(domain)) == Ok::<JournalView, Seq<char>>(JournalView::Replacement),
        replacement_record(replacement_view(domain)) == Ok::<Record, Seq<char>>(domain@),
{
    lemma_keys();
    let fields = replacement_view(domain)->Object_0;
    lemma_member(fields, "version"@, 0);
    lemma_member(fields, "mode"@, 1);
    lemma_member(fields, "target"@, 2);
    lemma_member(fields, "backup"@, 3);
    lemma_member(fields, "staged"@, 4);
}

/// The journal of a new project is read back: it is of a new project, and where its
/// document, its data and each of its files move is what was written.
pub proof fn law_creation_journals_are_read_back(project: Output, data: Output, outputs: Seq<Output>)
    ensures
        journal_of(creation_view(project, data, outputs)) matches Ok(JournalView::CreateProject { outputs: written })
            && written.len() == outputs.len() && forall|k: int|
            0 <= k < outputs.len() ==> move_record(#[trigger] written[k], "source"@, "target"@) == Ok::<
                (Seq<char>, Seq<char>),
                Seq<char>,
            >((outputs[k].source@, outputs[k].target@)),
        move_record(creation_view(project, data, outputs), "stagedData"@, "targetData"@) == Ok::<
            (Seq<char>, Seq<char>),
            Seq<char>,
        >((data.source@, data.target@)),
        move_record(creation_view(project, data, outputs), "stagedProject"@, "targetProject"@) == Ok::<
            (Seq<char>, Seq<char>),
            Seq<char>,
        >((project.source@, project.target@)),
{
    lemma_keys();
    let fields = creation_view(project, data, outputs)->Object_0;
    lemma_member(fields, "version"@, 0);
    lemma_member(fields, "mode"@, 1);
    lemma_member(fields, "targetProject"@, 2);
    lemma_member(fields, "stagedProject"@, 3);
    lemma_member(fields, "targetData"@, 4);
    lemma_member(fields, "stagedData"@, 5);
    lemma_member(fields, "outputs"@, 6);
    let written = fields[6].1->Array_0;
    assert forall|k: int| 0 <= k < outputs.len() implies move_record(#[trigger] written[k], "source"@, "target"@)
        == Ok::<(Seq<char>, Seq<char>), Seq<char>>((outputs[k].source@, outputs[k].target@)) by {
        assert(written[k] == output_view((outputs[k].source@, outputs[k].target@)));
        let held = written[k]->Object_0;
        lemma_member(held, "source"@, 0);
        lemma_member(held, "target"@, 1);
    }
}

} // verus!
