//! What recovery journals say, and the decisions around a promotion.

use crate::journal::{step_views, Domain, FileStep, Output, Record, Retirement, StepView};
use crate::json_view::{array_view, field, find_field, json_parsed, json_view, read_json, viewed, JsonView};
use crate::project_document::Json;
use crate::source_metadata::{refused, SourceError};
use crate::text::{hex, hex_text, joined, optional_text, same_bytes};
use crate::Ref;
use vstd::prelude::*;

verus! {

/// A member of a value that may be an object.
pub open spec fn member(value: JsonView, key: Seq<char>) -> Option<JsonView> {
    match value {
        JsonView::Object(fields) => field(fields, key),
        _ => None,
    }
}

fn find_member<'a>(value: &'a Json, key: &str) -> (found: Option<&'a Json>)
    ensures
        viewed(found) == member(json_view(*value), key@),
{
    match value {
        Json::Object(fields) => find_field(fields, key),
        _ => None,
    }
}

/// A path that a journal names.
pub open spec fn journal_path(value: JsonView, key: Seq<char>) -> Result<Seq<char>, Seq<char>> {
    match member(value, key) {
        Some(JsonView::String(path)) => Ok(path),
        _ => Err("recovery journal is missing "@ + key),
    }
}

/// Reads a path that a journal names.
pub fn json_path(value: &Json, key: &str) -> (path: Result<String, SourceError>)
    ensures
        match journal_path(json_view(*value), key@) {
            Ok(expected) => path matches Ok(path) && path@ == expected,
            Err(text) => path matches Err(error) && error.message@ == text,
        },
{
    match find_member(value, key) {
        Some(found) => match found {
            Json::String(path) => Ok(path.clone()),
            _ => Err(refused(joined("recovery journal is missing ", key))),
        },
        None => Err(refused(joined("recovery journal is missing ", key))),
    }
}

/// A path that a journal may name.
pub open spec fn journal_optional_path(value: JsonView, key: Seq<char>) -> Result<Option<Seq<char>>, Seq<char>> {
    match member(value, key) {
        None => Ok(None),
        Some(JsonView::Null) => Ok(None),
        Some(JsonView::String(path)) => Ok(Some(path)),
        Some(_) => Err("recovery journal has invalid "@ + key),
    }
}

/// Reads a path that a journal may name.
pub fn json_optional_path(value: &Json, key: &str) -> (path: Result<Option<String>, SourceError>)
    ensures
        match journal_optional_path(json_view(*value), key@) {
            Ok(expected) => path matches Ok(path) && optional_text(path) == expected,
            Err(text) => path matches Err(error) && error.message@ == text,
        },
{
    match find_member(value, key) {
        None => Ok(None),
        Some(found) => match found {
            Json::Null => Ok(None),
            Json::String(path) => Ok(Some(path.clone())),
            _ => Err(refused(joined("recovery journal has invalid ", key))),
        },
    }
}

/// The record of a domain.
pub open spec fn domain_record(value: JsonView) -> Result<Record, Seq<char>> {
    match journal_path(value, "staged"@) {
        Err(text) => Err(text),
        Ok(staged) => match journal_path(value, "target"@) {
            Err(text) => Err(text),
            Ok(target) => match journal_path(value, "backup"@) {
                Err(text) => Err(text),
                Ok(backup) => Ok(Record::Domain { staged, target, backup }),
            },
        },
    }
}

/// Reads the record of a domain.
pub fn read_domain(value: &Json) -> (domain: Result<Domain, SourceError>)
    ensures
        match domain_record(json_view(*value)) {
            Ok(expected) => domain matches Ok(domain) && domain@ == expected,
            Err(text) => domain matches Err(error) && error.message@ == text,
        },
{
    let staged: String = match json_path(value, "staged") {
        Ok(path) => path,
        Err(error) => {
            return Err(error);
        },
    };
    let target: String = match json_path(value, "target") {
        Ok(path) => path,
        Err(error) => {
            return Err(error);
        },
    };
    match json_path(value, "backup") {
        Ok(backup) => Ok(Domain { staged, target, backup }),
        Err(error) => Err(error),
    }
}

/// The record of a replacement. Its paths are looked for in another order.
pub open spec fn replacement_record(value: JsonView) -> Result<Record, Seq<char>> {
    match journal_path(value, "target"@) {
        Err(text) => Err(text),
        Ok(target) => match journal_path(value, "backup"@) {
            Err(text) => Err(text),
            Ok(backup) => match journal_path(value, "staged"@) {
                Err(text) => Err(text),
                Ok(staged) => Ok(Record::Domain { staged, target, backup }),
            },
        },
    }
}

/// Reads the record of a replacement.
pub fn read_replacement(value: &Json) -> (domain: Result<Domain, SourceError>)
    ensures
        match replacement_record(json_view(*value)) {
            Ok(expected) => domain matches Ok(domain) && domain@ == expected,
            Err(text) => domain matches Err(error) && error.message@ == text,
        },
{
    let target: String = match json_path(value, "target") {
        Ok(path) => path,
        Err(error) => {
            return Err(error);
        },
    };
    let backup: String = match json_path(value, "backup") {
        Ok(path) => path,
        Err(error) => {
            return Err(error);
        },
    };
    match json_path(value, "staged") {
        Ok(staged) => Ok(Domain { staged, target, backup }),
        Err(error) => Err(error),
    }
}

/// The record of a retirement.
pub open spec fn retirement_record(value: JsonView) -> Result<Record, Seq<char>> {
    match journal_path(value, "target"@) {
        Err(text) => Err(text),
        Ok(target) => match journal_path(value, "backup"@) {
            Err(text) => Err(text),
            Ok(backup) => Ok(Record::Retirement { target, backup }),
        },
    }
}

/// Reads the record of a retirement.
pub fn read_retirement(value: &Json) -> (retirement: Result<Retirement, SourceError>)
    ensures
        match retirement_record(json_view(*value)) {
            Ok(expected) => retirement matches Ok(retirement) && retirement@ == expected,
            Err(text) => retirement matches Err(error) && error.message@ == text,
        },
{
    let target: String = match json_path(value, "target") {
        Ok(path) => path,
        Err(error) => {
            return Err(error);
        },
    };
    match json_path(value, "backup") {
        Ok(backup) => Ok(Retirement { target, backup }),
        Err(error) => Err(error),
    }
}

/// Two paths that a move is recorded with.
pub open spec fn move_record(value: JsonView, source_key: Seq<char>, target_key: Seq<char>) -> Result<
    (Seq<char>, Seq<char>),
    Seq<char>,
> {
    match journal_path(value, source_key) {
        Err(text) => Err(text),
        Ok(source) => match journal_path(value, target_key) {
            Err(text) => Err(text),
            Ok(target) => Ok((source, target)),
        },
    }
}

/// Reads a move, by the keys that it is recorded with: `source` and `target` for the
/// files of a new project, `stagedData` and `targetData` for its data, `stagedProject`
/// and `targetProject` for its document.
pub fn read_move(value: &Json, source_key: &str, target_key: &str) -> (moved: Result<Output, SourceError>)
    ensures
        match move_record(json_view(*value), source_key@, target_key@) {
            Ok((source, target)) => moved matches Ok(moved) && moved.source@ == source && moved.target@ == target,
            Err(text) => moved matches Err(error) && error.message@ == text,
        },
{
    let source: String = match json_path(value, source_key) {
        Ok(path) => path,
        Err(error) => {
            return Err(error);
        },
    };
    match json_path(value, target_key) {
        Ok(target) => Ok(Output { source, target }),
        Err(error) => Err(error),
    }
}

/// What a journal is of.
#[derive(Debug)]
pub enum Journal<'a> {
    CreateProject { outputs: &'a Vec<Json> },
    CaptureData { domains: &'a Vec<Json>, retirements: Option<&'a Vec<Json>> },
    PromoteScript,
    Replacement,
}

/// What a journal is of.
#[verifier::ext_equal]
pub enum JournalView {
    CreateProject { outputs: Seq<JsonView> },
    CaptureData { domains: Seq<JsonView>, retirements: Option<Seq<JsonView>> },
    PromoteScript,
    Replacement,
}

impl<'a> View for Journal<'a> {
    type V = JournalView;

    open spec fn view(&self) -> JournalView {
        match self {
            Journal::CreateProject { outputs } => JournalView::CreateProject { outputs: array_view(outputs@) },
            Journal::CaptureData { domains, retirements } => JournalView::CaptureData {
                domains: array_view(domains@),
                retirements: match retirements {
                    Some(retirements) => Some(array_view(retirements@)),
                    None => None,
                },
            },
            Journal::PromoteScript => JournalView::PromoteScript,
            Journal::Replacement => JournalView::Replacement,
        }
    }
}

/// What a journal is of, or why it is refused.
pub open spec fn journal_of(value: JsonView) -> Result<JournalView, Seq<char>> {
    if !(member(value, "version"@) matches Some(JsonView::Number(version)) && version == "1"@) {
        Err("unsupported Carbon recovery journal"@)
    } else {
        match member(value, "mode"@) {
            Some(JsonView::String(mode)) => if mode == "createProject"@ {
                match member(value, "outputs"@) {
                    Some(JsonView::Array(outputs)) => Ok(JournalView::CreateProject { outputs }),
                    _ => Err("create-project recovery journal has no outputs"@),
                }
            } else if mode == "captureData"@ {
                match member(value, "domains"@) {
                    Some(JsonView::Array(domains)) => Ok(
                        JournalView::CaptureData {
                            domains,
                            retirements: match member(value, "retirements"@) {
                                Some(JsonView::Array(retirements)) => Some(retirements),
                                _ => None,
                            },
                        },
                    ),
                    _ => Err("capture-data recovery journal has no domains"@),
                }
            } else if mode == "promoteScript"@ {
                Ok(JournalView::PromoteScript)
            } else if mode == "replaceData"@ || mode == "replacePath"@ || mode == "replaceFile"@ {
                Ok(JournalView::Replacement)
            } else {
                Err("unsupported Carbon recovery journal mode"@)
            },
            _ => Err("unsupported Carbon recovery journal mode"@),
        }
    }
}

fn find_array<'a>(value: &'a Json, key: &str) -> (found: Option<&'a Vec<Json>>)
    ensures
        match member(json_view(*value), key@) {
            Some(JsonView::Array(expected)) => found matches Some(found) && array_view(found@) == expected,
            _ => found is None,
        },
{
    match find_member(value, key) {
        Some(found) => match found {
            Json::Array(list) => Some(list),
            _ => None,
        },
        None => None,
    }
}

/// Says what a journal is of.
pub fn read_journal<'a>(value: &'a Json) -> (journal: Result<Journal<'a>, SourceError>)
    ensures
        match journal_of(json_view(*value)) {
            Ok(expected) => journal matches Ok(journal) && journal@ == expected,
            Err(text) => journal matches Err(error) && error.message@ == text,
        },
{
    let supported: bool = match find_member(value, "version") {
        Some(found) => match found {
            Json::Number(version) => version.as_str().eq("1"),
            _ => false,
        },
        None => false,
    };
    if !supported {
        return Err(refused("unsupported Carbon recovery journal".to_owned()));
    }
    let mode: &str = match find_member(value, "mode") {
        Some(found) => match found {
            Json::String(mode) => mode.as_str(),
            _ => {
                return Err(refused("unsupported Carbon recovery journal mode".to_owned()));
            },
        },
        None => {
            return Err(refused("unsupported Carbon recovery journal mode".to_owned()));
        },
    };
    if mode.eq("createProject") {
        return match find_array(value, "outputs") {
            Some(outputs) => Ok(Journal::CreateProject { outputs }),
            None => Err(refused("create-project recovery journal has no outputs".to_owned())),
        };
    }
    if mode.eq("captureData") {
        return match find_array(value, "domains") {
            Some(domains) => {
                let retirements: Option<&'a Vec<Json>> = find_array(value, "retirements");
                Ok(Journal::CaptureData { domains, retirements })
            },
            None => Err(refused("capture-data recovery journal has no domains".to_owned())),
        };
    }
    if mode.eq("promoteScript") {
        return Ok(Journal::PromoteScript);
    }
    if mode.eq("replaceData") || mode.eq("replacePath") || mode.eq("replaceFile") {
        return Ok(Journal::Replacement);
    }
    Err(refused("unsupported Carbon recovery journal mode".to_owned()))
}

/// The journal that the bytes of a file are, or why they are refused.
pub open spec fn journal_read(bytes: Seq<u8>) -> Result<JournalView, Seq<char>> {
    match json_parsed(bytes) {
        Ok(document) => journal_of(document),
        Err(reason) => Err(reason),
    }
}

/// Reads a journal from the bytes of its file. What it is of is said by `read_journal`,
/// which then succeeds.
pub fn load_journal(bytes: &[u8]) -> (loaded: Result<Json, SourceError>)
    ensures
        match journal_read(bytes@) {
            Ok(_) => loaded matches Ok(document) && json_parsed(bytes@) == Ok::<JsonView, Seq<char>>(
                json_view(document),
            ),
            Err(text) => loaded matches Err(error) && error.message@ == text,
        },
{
    let document: Json = match read_json(bytes) {
        Ok(document) => document,
        Err(reason) => {
            return Err(refused(reason));
        },
    };
    match read_journal(&document) {
        Ok(_) => {},
        Err(error) => {
            return Err(error);
        },
    }
    Ok(document)
}

/// A script that moves into a directory of its own, and the project document that then
/// maps the directory.
#[derive(Debug)]
pub struct ScriptPromotion {
    pub source: String,
    pub source_backup: String,
    pub target: String,
    pub staged: String,
    pub project: Option<String>,
    pub project_backup: Option<String>,
    pub staged_project: Option<String>,
}

#[verifier::ext_equal]
pub struct PromotionView {
    pub source: Seq<char>,
    pub source_backup: Seq<char>,
    pub target: Seq<char>,
    pub staged: Seq<char>,
    pub project: Option<Seq<char>>,
    pub project_backup: Option<Seq<char>>,
    pub staged_project: Option<Seq<char>>,
}

impl View for ScriptPromotion {
    type V = PromotionView;

    open spec fn view(&self) -> PromotionView {
        PromotionView {
            source: self.source@,
            source_backup: self.source_backup@,
            target: self.target@,
            staged: self.staged@,
            project: optional_text(self.project),
            project_backup: optional_text(self.project_backup),
            staged_project: optional_text(self.staged_project),
        }
    }
}

/// The record of a script's move.
pub open spec fn promotion_record(value: JsonView) -> Result<PromotionView, Seq<char>> {
    match move_record(value, "source"@, "sourceBackup"@) {
        Err(text) => Err(text),
        Ok((source, source_backup)) => match move_record(value, "target"@, "staged"@) {
            Err(text) => Err(text),
            Ok((target, staged)) => match journal_optional_path(value, "project"@) {
                Err(text) => Err(text),
                Ok(project) => match journal_optional_path(value, "projectBackup"@) {
                    Err(text) => Err(text),
                    Ok(project_backup) => match journal_optional_path(value, "stagedProject"@) {
                        Err(text) => Err(text),
                        Ok(staged_project) => Ok(
                            PromotionView {
                                source,
                                source_backup,
                                target,
                                staged,
                                project,
                                project_backup,
                                staged_project,
                            },
                        ),
                    },
                },
            },
        },
    }
}

/// Reads the record of a script's move.
pub fn read_promotion(value: &Json) -> (promotion: Result<ScriptPromotion, SourceError>)
    ensures
        match promotion_record(json_view(*value)) {
            Ok(expected) => promotion matches Ok(promotion) && promotion@ == expected,
            Err(text) => promotion matches Err(error) && error.message@ == text,
        },
{
    let first: Output = match read_move(value, "source", "sourceBackup") {
        Ok(paths) => paths,
        Err(error) => {
            return Err(error);
        },
    };
    let second: Output = match read_move(value, "target", "staged") {
        Ok(paths) => paths,
        Err(error) => {
            return Err(error);
        },
    };
    let project: Option<String> = match json_optional_path(value, "project") {
        Ok(path) => path,
        Err(error) => {
            return Err(error);
        },
    };
    let project_backup: Option<String> = match json_optional_path(value, "projectBackup") {
        Ok(path) => path,
        Err(error) => {
            return Err(error);
        },
    };
    match json_optional_path(value, "stagedProject") {
        Ok(staged_project) => Ok(
            ScriptPromotion {
                source: first.source,
                source_backup: first.target,
                target: second.source,
                staged: second.target,
                project,
                project_backup,
                staged_project,
            },
        ),
        Err(error) => Err(error),
    }
}

/// Which paths of a script's move are there; a path that is not named is not.
#[derive(Clone, Copy, Debug)]
pub struct PromotionFacts {
    pub source: bool,
    pub source_backup: bool,
    pub target: bool,
    pub staged: bool,
    pub project: bool,
    pub project_backup: bool,
    pub staged_project: bool,
}

/// What puts the project document of a script's move in its place.
pub open spec fn project_promotion(promotion: PromotionView, facts: PromotionFacts) -> Result<Seq<StepView>, Seq<char>> {
    match (promotion.project, promotion.project_backup, promotion.staged_project) {
        (Some(project), Some(backup), Some(staged)) => if facts.staged_project {
            Ok(
                (if facts.project && !facts.project_backup {
                    seq![StepView::Rename { from: project, to: backup }]
                } else {
                    Seq::empty()
                }).push(StepView::Rename { from: staged, to: project }),
            )
        } else if facts.project {
            Ok(Seq::empty())
        } else {
            Err("cannot recover promoted script project"@)
        },
        _ => Ok(Seq::empty()),
    }
}

/// What takes back a script's move.
pub open spec fn promotion_taken_back(promotion: PromotionView, facts: PromotionFacts) -> Seq<StepView> {
    (match (promotion.project, promotion.project_backup) {
        (Some(project), Some(backup)) => if facts.project_backup {
            seq![StepView::Remove(project), StepView::Rename { from: backup, to: project }]
        } else {
            Seq::empty()
        },
        _ => Seq::empty(),
    }) + (if facts.source {
        Seq::empty()
    } else {
        seq![StepView::Rename { from: promotion.source_backup, to: promotion.source }]
    })
}

/// What is cleared away once a script's move is made good.
pub open spec fn promotion_cleanup(promotion: PromotionView) -> Seq<StepView> {
    seq![StepView::Remove(promotion.source_backup)] + (match promotion.project_backup {
        Some(backup) => seq![StepView::Remove(backup)],
        None => Seq::empty(),
    }) + seq![StepView::Remove(promotion.staged)]
}

/// What makes an interrupted move of a script good.
pub open spec fn promotion_recovery(promotion: PromotionView, facts: PromotionFacts) -> Result<Seq<StepView>, Seq<char>> {
    if facts.target {
        if promotion.project is Some && !facts.project {
            Err("cannot recover promoted script project"@)
        } else {
            Ok(promotion_cleanup(promotion))
        }
    } else if facts.staged {
        match project_promotion(promotion, facts) {
            Err(text) => Err(text),
            Ok(steps) => Ok(
                steps.push(StepView::Rename { from: promotion.staged, to: promotion.target }) + promotion_cleanup(
                    promotion,
                ),
            ),
        }
    } else if facts.source_backup {
        Ok(promotion_taken_back(promotion, facts) + promotion_cleanup(promotion))
    } else {
        Err("Carbon script-promotion transaction cannot be recovered"@)
    }
}

fn push_step(steps: &mut Vec<FileStep>, step: FileStep)
    ensures
        step_views(final(steps)@) == step_views(old(steps)@).push(step@),
{
    let ghost before = step_views(steps@);
    steps.push(step);
    proof {
        assert(step_views(steps@) =~= before.push(step@));
    }
}

fn clean_up_promotion(promotion: &ScriptPromotion, steps: &mut Vec<FileStep>)
    ensures
        step_views(final(steps)@) == step_views(old(steps)@) + promotion_cleanup(promotion@),
{
    let ghost before = step_views(steps@);
    push_step(steps, FileStep::Remove(promotion.source_backup.clone()));
    match &promotion.project_backup {
        Some(backup) => {
            push_step(steps, FileStep::Remove(backup.clone()));
        },
        None => {},
    }
    push_step(steps, FileStep::Remove(promotion.staged.clone()));
    proof {
        assert(step_views(steps@) =~= before + promotion_cleanup(promotion@));
    }
}

fn promote_project(promotion: &ScriptPromotion, facts: PromotionFacts, steps: &mut Vec<FileStep>) -> (result: Result<
    (),
    SourceError,
>)
    ensures
        match project_promotion(promotion@, facts) {
            Ok(expected) => result is Ok && step_views(final(steps)@) == step_views(old(steps)@) + expected,
            Err(text) => result matches Err(error) && error.message@ == text,
        },
{
    let ghost before = step_views(steps@);
    match (&promotion.project, &promotion.project_backup, &promotion.staged_project) {
        (Some(project), Some(backup), Some(staged)) => {
            if facts.staged_project {
                if facts.project && !facts.project_backup {
                    push_step(steps, FileStep::Rename { from: project.clone(), to: backup.clone() });
                }
                push_step(steps, FileStep::Rename { from: staged.clone(), to: project.clone() });
            } else if !facts.project {
                return Err(refused("cannot recover promoted script project".to_owned()));
            }
        },
        _ => {},
    }
    proof {
        assert(step_views(steps@) =~= before + project_promotion(promotion@, facts)->Ok_0);
    }
    Ok(())
}

/// Says what makes an interrupted move of a script good. After the steps, the directory
/// that the script was staged in and the journal are removed.
pub fn recover_promotion(promotion: &ScriptPromotion, facts: PromotionFacts) -> (steps: Result<
    Vec<FileStep>,
    SourceError,
>)
    ensures
        match promotion_recovery(promotion@, facts) {
            Ok(expected) => steps matches Ok(steps) && step_views(steps@) == expected,
            Err(text) => steps matches Err(error) && error.message@ == text,
        },
{
    let mut steps: Vec<FileStep> = Vec::new();
    proof {
        assert(step_views(steps@) =~= Seq::empty());
    }
    if facts.target {
        if promotion.project.is_some() && !facts.project {
            return Err(refused("cannot recover promoted script project".to_owned()));
        }
    } else if facts.staged {
        match promote_project(promotion, facts, &mut steps) {
            Ok(()) => {},
            Err(error) => {
                return Err(error);
            },
        }
        push_step(&mut steps, FileStep::Rename { from: promotion.staged.clone(), to: promotion.target.clone() });
    } else if facts.source_backup {
        match (&promotion.project, &promotion.project_backup) {
            (Some(project), Some(backup)) => {
                if facts.project_backup {
                    push_step(&mut steps, FileStep::Remove(project.clone()));
                    push_step(&mut steps, FileStep::Rename { from: backup.clone(), to: project.clone() });
                }
            },
            _ => {},
        }
        if !facts.source {
            push_step(
                &mut steps,
                FileStep::Rename { from: promotion.source_backup.clone(), to: promotion.source.clone() },
            );
        }
        proof {
            assert(step_views(steps@) =~= promotion_taken_back(promotion@, facts));
        }
    } else {
        return Err(refused("Carbon script-promotion transaction cannot be recovered".to_owned()));
    }
    let ghost before = step_views(steps@);
    clean_up_promotion(promotion, &mut steps);
    proof {
        if facts.target {
            assert(before =~= Seq::empty());
            assert(step_views(steps@) =~= promotion_cleanup(promotion@));
        } else if facts.staged {
            assert(before =~= project_promotion(promotion@, facts)->Ok_0.push(
                StepView::Rename { from: promotion.staged@, to: promotion.target@ },
            ));
        }
    }
    Ok(steps)
}

/// The domains of a promotion in their order: the captured place unless nothing of it
/// changed, then what Studio owns unless nothing of it changed, then the identities.
pub fn promotion_domains(composite: Option<Domain>, studio: Option<Domain>, identities: &mut Vec<Domain>) -> (domains: Vec<
    Domain,
>)
    ensures
        domains@ == (match composite {
            Some(domain) => seq![domain],
            None => Seq::empty(),
        }) + (match studio {
            Some(domain) => seq![domain],
            None => Seq::empty(),
        }) + old(identities)@,
        final(identities)@ == Seq::<Domain>::empty(),
{
    let ghost given = identities@;
    let mut domains: Vec<Domain> = Vec::new();
    match composite {
        Some(domain) => {
            domains.push(domain);
        },
        None => {},
    }
    match studio {
        Some(domain) => {
            domains.push(domain);
        },
        None => {},
    }
    let ghost before = domains@;
    domains.append(identities);
    proof {
        assert(domains@ =~= before + given);
    }
    domains
}

/// The paths that a promotion put aside, in order.
pub open spec fn backups_of(domains: Seq<Domain>, retirements: Seq<Retirement>) -> Seq<Seq<char>> {
    domains.map_values(|domain: Domain| domain.backup@) + retirements.map_values(
        |retirement: Retirement| retirement.backup@,
    )
}

/// The paths that a promotion put aside, which are removed once it is through.
pub fn promotion_backups(domains: &Vec<Domain>, retirements: &Vec<Retirement>) -> (backups: Vec<String>)
    ensures
        crate::text::texts(backups@) == backups_of(domains@, retirements@),
{
    let mut backups: Vec<String> = Vec::new();
    let mut at: usize = 0;
    while at < domains.len()
        invariant
            at <= domains@.len(),
            backups@.len() == at,
            forall|k: int| 0 <= k < at ==> #[trigger] backups@[k]@ == domains@[k].backup@,
        decreases domains@.len() - at,
    {
        backups.push(domains[at].backup.clone());
        at = at + 1;
    }
    let mut next: usize = 0;
    while next < retirements.len()
        invariant
            next <= retirements@.len(),
            backups@.len() == domains@.len() + next,
            forall|k: int| 0 <= k < domains@.len() ==> #[trigger] backups@[k]@ == domains@[k].backup@,
            forall|k: int|
                domains@.len() <= k < domains@.len() + next ==> #[trigger] backups@[k]@ == retirements@[k
                    - domains@.len()].backup@,
        decreases retirements@.len() - next,
    {
        backups.push(retirements[next].backup.clone());
        next = next + 1;
    }
    proof {
        assert(crate::text::texts(backups@) =~= backups_of(domains@, retirements@));
    }
    backups
}

/// What becomes of a promotion that failed once its journal was written: whether what
/// was staged is kept for a later recovery, and what is said of it.
#[derive(Debug)]
pub struct PromotionFailure {
    pub keep_staged: bool,
    pub context: String,
}

/// Concludes a promotion that failed, by how the recovery that follows at once went.
pub fn conclude_failed_promotion(recovery: Result<(), String>) -> (failure: PromotionFailure)
    ensures
        failure.keep_staged == recovery is Err,
        failure.context@ == (match recovery {
            Ok(_) => "capture promotion failed after the journal was written; synchronous roll-forward completed"@,
            Err(text) => "capture promotion failed and synchronous roll-forward also failed: "@ + text@,
        }),
{
    match recovery {
        Ok(_) => PromotionFailure {
            keep_staged: false,
            context: "capture promotion failed after the journal was written; synchronous roll-forward completed".to_owned(),
        },
        Err(text) => PromotionFailure {
            keep_staged: true,
            context: joined("capture promotion failed and synchronous roll-forward also failed: ", text.as_str()),
        },
    }
}

/// How what Studio owns is staged.
#[derive(Clone, Copy, Debug, PartialEq, Eq, Structural)]
pub enum StudioStaging {
    /// The validated artifact as it is.
    Validated,
    /// The composite as it is.
    Unfiltered,
    /// The composite without what is mapped.
    Filtered,
}

/// Says how what Studio owns is staged, unless the capture was cancelled.
pub fn studio_staging(validated: bool, maps_nothing: bool, cancelled: bool) -> (staging: Result<
    StudioStaging,
    SourceError,
>)
    ensures
        match staging {
            Ok(staging) => !cancelled && staging == (if validated {
                StudioStaging::Validated
            } else if maps_nothing {
                StudioStaging::Unfiltered
            } else {
                StudioStaging::Filtered
            }),
            Err(error) => cancelled && error.message@
                == "Capture Manifest was cancelled during Studio-domain staging"@,
        },
{
    if cancelled {
        return Err(refused("Capture Manifest was cancelled during Studio-domain staging".to_owned()));
    }
    if validated {
        Ok(StudioStaging::Validated)
    } else if maps_nothing {
        Ok(StudioStaging::Unfiltered)
    } else {
        Ok(StudioStaging::Filtered)
    }
}

/// Says whether what was staged of Studio's is promoted: an artifact that did not change
/// is not. A filtered one is written either way, so it is compared with the active one.
pub fn promotes_studio(
    staging: StudioStaging,
    changed: bool,
    active: &Option<Vec<u8>>,
    staged: &[u8],
    cancelled: bool,
) -> (promotes: Result<bool, SourceError>)
    ensures
        match promotes {
            Ok(promotes) => !cancelled && promotes == (if staging == StudioStaging::Filtered {
                !(active matches Some(active) && active@ == staged@)
            } else {
                changed
            }),
            Err(error) => cancelled && error.message@
                == "Capture Manifest was cancelled during Studio-domain staging"@,
        },
{
    if cancelled {
        return Err(refused("Capture Manifest was cancelled during Studio-domain staging".to_owned()));
    }
    match staging {
        StudioStaging::Filtered => match active {
            Some(active) => Ok(!same_bytes(active.as_slice(), staged)),
            None => Ok(true),
        },
        _ => Ok(changed),
    }
}

/// A file that a new project may start with, and which of its paths are there.
#[derive(Debug)]
pub struct OutputFacts {
    pub output: Output,
    pub source_there: bool,
    pub target_there: bool,
}

/// A file that collides with what is there already.
pub open spec fn first_collision(outputs: Seq<OutputFacts>) -> Option<Seq<char>>
    decreases outputs.len(),
{
    if outputs.len() == 0 {
        None
    } else {
        match first_collision(outputs.drop_last()) {
            Some(target) => Some(target),
            None => if outputs.last().source_there && outputs.last().target_there {
                Some(outputs.last().output.target@)
            } else {
                None
            },
        }
    }
}

/// The files that were staged for a new project, in order.
pub open spec fn staged_outputs(outputs: Seq<OutputFacts>) -> Seq<(Seq<char>, Seq<char>)>
    decreases outputs.len(),
{
    if outputs.len() == 0 {
        Seq::empty()
    } else {
        let before = staged_outputs(outputs.drop_last());
        let last = outputs.last();
        if last.source_there {
            before.push((last.output.source@, last.output.target@))
        } else {
            before
        }
    }
}

/// What outputs are.
pub open spec fn output_views(outputs: Seq<Output>) -> Seq<(Seq<char>, Seq<char>)> {
    outputs.map_values(|output: Output| (output.source@, output.target@))
}

proof fn lemma_collision_stays(outputs: Seq<OutputFacts>, at: int)
    requires
        0 <= at <= outputs.len(),
        first_collision(outputs.take(at)) is Some,
    ensures
        first_collision(outputs) == first_collision(outputs.take(at)),
    decreases outputs.len() - at,
{
    if at == outputs.len() {
        assert(outputs.take(at) =~= outputs);
    } else {
        assert(outputs.take(at + 1).drop_last() =~= outputs.take(at));
        lemma_collision_stays(outputs, at + 1);
    }
}

/// The files that a new project starts with, none of which may be there already.
pub fn new_project_outputs(outputs: &Vec<OutputFacts>) -> (moved: Result<Vec<Output>, SourceError>)
    ensures
        match first_collision(outputs@) {
            Some(target) => moved matches Err(error) && error.message@ == "transaction output collision: "@ + target,
            None => moved matches Ok(moved) && output_views(moved@) == staged_outputs(outputs@),
        },
{
    let mut moved: Vec<Output> = Vec::new();
    let mut at: usize = 0;
    proof {
        assert(outputs@.take(0) =~= Seq::empty());
        assert(output_views(moved@) =~= Seq::empty());
    }
    while at < outputs.len()
        invariant
            at <= outputs@.len(),
            first_collision(outputs@.take(at as int)) is None,
            output_views(moved@) == staged_outputs(outputs@.take(at as int)),
        decreases outputs@.len() - at,
    {
        let facts: &OutputFacts = &outputs[at];
        proof {
            assert(outputs@.take(at + 1).drop_last() =~= outputs@.take(at as int));
            assert(outputs@.take(at + 1).last() == *facts);
        }
        if facts.source_there {
            if facts.target_there {
                proof {
                    lemma_collision_stays(outputs@, at + 1);
                }
                return Err(refused(joined("transaction output collision: ", facts.output.target.as_str())));
            }
            let ghost before = moved@;
            moved.push(Output { source: facts.output.source.clone(), target: facts.output.target.clone() });
            proof {
                assert(output_views(moved@) =~= output_views(before).push(
                    (facts.output.source@, facts.output.target@),
                ));
            }
        }
        at = at + 1;
    }
    proof {
        assert(outputs@.take(outputs@.len() as int) =~= outputs@);
    }
    Ok(moved)
}

/// The name of the journal of a project, which stands beside it.
pub fn transaction_journal(project_name: &str) -> (name: String)
    ensures
        name@ == "."@ + project_name@ + ".transaction.json"@,
{
    let mut name: String = joined(".", project_name);
    name.append(".transaction.json");
    name
}

/// The name of a directory that a change is staged in, by a random identity.
pub fn transaction_stage(id: Ref) -> (name: String)
    ensures
        name@ == ".carbon-stage-"@ + hex(id as nat, 32),
{
    joined(".carbon-stage-", hex_text(id, 32).as_str())
}

/// The name that a path is put aside under while a capture is promoted, by a random
/// identity.
pub fn capture_backup(target_name: &str, id: Ref) -> (name: String)
    ensures
        name@ == "."@ + target_name@ + ".capture-backup-"@ + hex(id as nat, 32),
{
    let mut name: String = joined(".", target_name);
    name.append(".capture-backup-");
    name.append(hex_text(id, 32).as_str());
    name
}

} // verus!
