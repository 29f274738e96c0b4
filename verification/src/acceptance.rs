//! Decisions to keep both sides of a conflict, and the files they are kept in.

use vstd::prelude::*;
use vstd::string::*;

use crate::conflict::{
    AcceptanceView, Conflict, ConflictAcceptance, ConflictStatus, ConflictView, DecisionDiagnostic,
    DiagnosticView,
};
use crate::digest;
use crate::error::Error;
use crate::frontmatter::{self, Entry, Field, FieldValue, Frontmatter};
use crate::frontmatter_laws::{
    are_stable_entries, document_reads_back, entry_is_found, is_key, is_stable_field,
    only_entries_are_found, with_entries,
};
use crate::memory;
use crate::numeral::{decimal_i64, i64_of, parse_i64, signed_decimal};
use crate::order::{self, Ranked};
use crate::path;
use crate::text;
use crate::workspace::{self, PathState, Workspace};

verus! {

// Checks.

/// A control character: below the space, or from 7F to 9F.
pub open spec fn is_control(c: char) -> bool {
    c < ' ' || '\u{7F}' <= c <= '\u{9F}'
}

/// Whether a reason says something, on one line.
pub open spec fn is_reason(reason: Seq<char>) -> bool {
    text::trimmed(reason).len() > 0 && forall|i: int|
        0 <= i < reason.len() ==> !is_control(#[trigger] reason[i])
}

pub fn validate_reason(reason: Option<&str>) -> (valid: Result<(), Error>)
    ensures
        match valid {
            Ok(_) => reason matches Some(reason) ==> is_reason(reason@),
            Err(error) => {
                &&& reason matches Some(reason) && !is_reason(reason@)
                &&& error@ == "acceptance reason must be a non-empty single line"@
            },
        },
{
    match reason {
        None => Ok(()),
        Some(reason) => {
            let chars = text::chars_of(reason);
            let mut i: usize = 0;
            while i < chars.len()
                invariant
                    i <= chars.len(),
                    chars@ == reason@,
                    forall|k: int| 0 <= k < i ==> !is_control(#[trigger] reason@[k]),
                ensures
                    i == chars.len() || (i < chars.len() && is_control(reason@[i as int])),
                decreases chars.len() - i,
            {
                let c = chars[i];
                if c < ' ' || ('\u{7F}' <= c && c <= '\u{9F}') {
                    break;
                }
                i = i + 1;
            }
            if text::trim(reason).is_empty() || i < chars.len() {
                return Err(Error::of("acceptance reason must be a non-empty single line"));
            }
            Ok(())
        },
    }
}

pub fn validate_stable_id(value: &str, prefix: &str) -> (valid: Result<(), Error>)
    ensures
        match valid {
            Ok(_) => digest::id_problem(value@, prefix@) is None,
            Err(error) => digest::id_problem(value@, prefix@) == Some(error@),
        },
{
    let head = text::concat2(prefix, "-");
    match text::strip_prefix(value, head.as_str()) {
        None => Err(
            Error::new(
                text::concat4(
                    prefix,
                    " id ",
                    text::quoted(value).as_str(),
                    " has an invalid prefix",
                ),
            ),
        ),
        Some(hash) => {
            let chars = text::chars_of(hash);
            let mut i: usize = 0;
            while i < chars.len()
                invariant
                    i <= chars.len(),
                    chars@ == hash@,
                    forall|k: int| 0 <= k < i ==> digest::is_hex_digit(#[trigger] hash@[k]),
                ensures
                    i == chars.len() || (i < chars.len() && !digest::is_hex_digit(
                        hash@[i as int],
                    )),
                decreases chars.len() - i,
            {
                let c = chars[i];
                if !(('0' <= c && c <= '9') || ('a' <= c && c <= 'f') || ('A' <= c && c <= 'F')) {
                    break;
                }
                i = i + 1;
            }
            if chars.len() != 16 || i < chars.len() {
                return Err(
                    Error::new(
                        text::concat4(
                            prefix,
                            " id ",
                            text::quoted(value).as_str(),
                            " must end in 16 hex digits",
                        ),
                    ),
                );
            }
            Ok(())
        },
    }
}

// Files.

/// The file that the decision about a conflict is kept in.
pub fn acceptance_path(workspace: &Workspace, conflict_id: &str) -> (file: Result<String, Error>)
    ensures
        match file {
            Ok(file) => digest::id_problem(conflict_id@, "conflict"@) is None && file@
                == path::below(workspace::conflicts_path(workspace@), conflict_id@ + ".md"@),
            Err(error) => digest::id_problem(conflict_id@, "conflict"@) == Some(error@),
        },
{
    validate_stable_id(conflict_id, "conflict")?;
    Ok(
        path::join(
            workspace.conflicts_dir().as_str(),
            text::concat2(conflict_id, ".md").as_str(),
        ),
    )
}

/// The front matter of a decision.
pub open spec fn acceptance_entries(conflict_id: Seq<char>, acceptance: AcceptanceView) -> Seq<
    Entry,
> {
    seq![
        ("conflict_id"@, Field::Scalar(conflict_id)),
        ("decision"@, Field::Scalar("keep-both"@)),
        ("evidence_hash"@, Field::Scalar(acceptance.evidence_hash)),
        ("accepted_at"@, Field::Scalar(acceptance.accepted_at)),
        ("reason"@, memory::optional_field(acceptance.reason)),
    ]
}

/// The file of a decision.
pub open spec fn acceptance_text(conflict_id: Seq<char>, acceptance: AcceptanceView) -> Seq<char> {
    text::trimmed_end(frontmatter::block_text(acceptance_entries(conflict_id, acceptance)))
        + "\n# Accepted Conflict\n\nCurrent evidence is intentionally kept.\n"@
}

/// Writes the file of a decision.
pub fn render_acceptance(conflict_id: &str, acceptance: &ConflictAcceptance) -> (raw: String)
    ensures
        raw@ == acceptance_text(conflict_id@, acceptance@),
{
    let mut fields: Vec<(&str, FieldValue)> = Vec::new();
    fields.push(("conflict_id", FieldValue::Scalar(conflict_id.to_owned())));
    fields.push(("decision", FieldValue::Scalar("keep-both".to_owned())));
    fields.push(("evidence_hash", FieldValue::Scalar(acceptance.evidence_hash.clone())));
    fields.push(("accepted_at", FieldValue::Scalar(acceptance.accepted_at.clone())));
    let reason = match &acceptance.reason {
        Some(reason) => FieldValue::Scalar(reason.clone()),
        None => FieldValue::Null,
    };
    fields.push(("reason", reason));
    assert(frontmatter::entry_seq(fields@) =~= acceptance_entries(conflict_id@, acceptance@));
    let block = frontmatter::render_frontmatter(fields.as_slice());
    text::concat2(
        text::trim_end(block.as_str()),
        "\n# Accepted Conflict\n\nCurrent evidence is intentionally kept.\n",
    )
}

/// The fields that a decision may have.
pub open spec fn allowed_fields() -> Seq<Seq<char>> {
    seq![
        "conflict_id"@,
        "decision"@,
        "evidence_hash"@,
        "accepted_at"@,
        "reason"@,
    ]
}

/// A field that has to be there.
pub open spec fn required_field(fields: Map<Seq<char>, Field>, key: Seq<char>) -> Result<
    Seq<char>,
    Seq<char>,
> {
    match frontmatter::scalar_field(fields, key) {
        Ok(Some(value)) => Ok(value),
        Ok(None) => Err("missing required field "@ + text::quoted_form(key)),
        Err(message) => Err(message),
    }
}

fn required_scalar(fields: &Frontmatter, key: &str) -> (value: Result<String, Error>)
    ensures
        crate::error::agrees(value, required_field(fields@, key@)),
{
    match frontmatter::get_optional_scalar(fields, key)? {
        Some(value) => Ok(value),
        None => Err(
            Error::new(text::concat2("missing required field ", text::quoted(key).as_str())),
        ),
    }
}

/// The decision that the fields of a file give.
pub open spec fn acceptance_from(fields: Map<Seq<char>, Field>, path: Seq<char>) -> Result<
    (Seq<char>, AcceptanceView),
    Seq<char>,
> {
    let conflict_id = required_field(fields, "conflict_id"@);
    let decision = required_field(fields, "decision"@);
    let evidence_hash = required_field(fields, "evidence_hash"@);
    let accepted_at = required_field(fields, "accepted_at"@);
    let reason = frontmatter::scalar_field(fields, "reason"@);
    let file_id = path::stem_of(path);
    if exists|key: Seq<char>| #[trigger]
        frontmatter::is_first_except(fields, allowed_fields(), key) {
        Err(
            "unknown field "@ + text::quoted_form(
                choose|key: Seq<char>| #[trigger]
                    frontmatter::is_first_except(fields, allowed_fields(), key),
            ),
        )
    } else if conflict_id is Err {
        Err(conflict_id->Err_0)
    } else if digest::id_problem(conflict_id->Ok_0, "conflict"@) is Some {
        Err(digest::id_problem(conflict_id->Ok_0, "conflict"@)->Some_0)
    } else if file_id is None {
        Err("decision filename must be valid UTF-8"@)
    } else if file_id->Some_0 != conflict_id->Ok_0 {
        Err(
            "decision filename "@ + text::quoted_form(file_id->Some_0)
                + " does not match conflict_id "@ + text::quoted_form(conflict_id->Ok_0),
        )
    } else if decision is Err {
        Err(decision->Err_0)
    } else if decision->Ok_0 != "keep-both"@ {
        Err("decision must be \"keep-both\""@)
    } else if evidence_hash is Err {
        Err(evidence_hash->Err_0)
    } else if digest::id_problem(evidence_hash->Ok_0, "evidence"@) is Some {
        Err(digest::id_problem(evidence_hash->Ok_0, "evidence"@)->Some_0)
    } else if accepted_at is Err {
        Err(accepted_at->Err_0)
    } else if i64_of(accepted_at->Ok_0) is None {
        Err("accepted_at must be signed 64-bit unix seconds"@)
    } else if reason is Err {
        Err(reason->Err_0)
    } else if reason->Ok_0 is Some && !is_reason(reason->Ok_0->Some_0) {
        Err("acceptance reason must be a non-empty single line"@)
    } else {
        Ok(
            (
                conflict_id->Ok_0,
                AcceptanceView {
                    evidence_hash: evidence_hash->Ok_0,
                    accepted_at: accepted_at->Ok_0,
                    reason: reason->Ok_0,
                },
            ),
        )
    }
}

/// The decision that a file holds, and the conflict that it is about.
pub open spec fn acceptance_of(raw: Seq<char>, path: Seq<char>) -> Result<
    (Seq<char>, AcceptanceView),
    Seq<char>,
> {
    match frontmatter::document_of(raw) {
        Err(message) => Err(message),
        Ok((fields, _)) => acceptance_from(fields, path),
    }
}

proof fn lemma_first_except_is_unique(
    fields: Map<Seq<char>, Field>,
    allowed: Seq<Seq<char>>,
    first: Seq<char>,
    second: Seq<char>,
)
    requires
        frontmatter::is_first_except(fields, allowed, first),
        frontmatter::is_first_except(fields, allowed, second),
    ensures
        first == second,
{
    order::text_less_is_total(first, second);
}

/// Reads the file of a decision.
pub fn parse_acceptance(path: &str, raw: &str) -> (parsed: Result<
    (String, ConflictAcceptance),
    Error,
>)
    ensures
        match parsed {
            Ok((id, acceptance)) => acceptance_of(raw@, path@) == Ok::<_, Seq<char>>(
                (id@, acceptance@),
            ),
            Err(error) => acceptance_of(raw@, path@) == Err::<(Seq<char>, AcceptanceView), _>(
                error@,
            ),
        },
{
    let (fields, _) = frontmatter::split_document(raw)?;
    let allowed: [&str; 5] = [
        "conflict_id",
        "decision",
        "evidence_hash",
        "accepted_at",
        "reason",
    ];
    let keys: &[&str] = &allowed;
    assert(keys.deep_view() =~= allowed_fields());
    if let Some(key) = fields.first_key_except(keys) {
        proof {
            let chosen = choose|key: Seq<char>| #[trigger]
                frontmatter::is_first_except(fields@, allowed_fields(), key);
            lemma_first_except_is_unique(fields@, allowed_fields(), key@, chosen);
        }
        return Err(Error::new(text::concat2("unknown field ", text::quoted(key).as_str())));
    }
    let conflict_id = required_scalar(&fields, "conflict_id")?;
    validate_stable_id(conflict_id.as_str(), "conflict")?;
    let file_id = match path::file_stem(path) {
        Some(stem) => stem,
        None => {
            return Err(Error::of("decision filename must be valid UTF-8"));
        },
    };
    if !text::same(file_id, conflict_id.as_str()) {
        return Err(
            Error::new(
                text::concat4(
                    "decision filename ",
                    text::quoted(file_id).as_str(),
                    " does not match conflict_id ",
                    text::quoted(conflict_id.as_str()).as_str(),
                ),
            ),
        );
    }
    let decision = required_scalar(&fields, "decision")?;
    if !text::same(decision.as_str(), "keep-both") {
        return Err(Error::of("decision must be \"keep-both\""));
    }
    let evidence_hash = required_scalar(&fields, "evidence_hash")?;
    validate_stable_id(evidence_hash.as_str(), "evidence")?;
    let accepted_at = required_scalar(&fields, "accepted_at")?;
    if parse_i64(accepted_at.as_str()).is_none() {
        return Err(Error::of("accepted_at must be signed 64-bit unix seconds"));
    }
    let reason = frontmatter::get_optional_scalar(&fields, "reason")?;
    validate_reason(crate::semantic::as_slice(&reason))?;
    Ok((conflict_id, ConflictAcceptance { evidence_hash, accepted_at, reason }))
}

// All decisions of a vault.

/// What is found where a decision is kept.
#[derive(Debug)]
pub enum DecisionContent {
    NotRegular,
    Unreadable(String),
    Text(String),
}

pub enum ContentView {
    NotRegular,
    Unreadable(Seq<char>),
    Text(Seq<char>),
}

/// A file in the directory of decisions.
#[derive(Debug)]
pub struct DecisionFile {
    pub path: String,
    pub content: DecisionContent,
}

pub struct FileView {
    pub path: Seq<char>,
    pub content: ContentView,
}

impl DeepView for DecisionFile {
    type V = FileView;

    open spec fn deep_view(&self) -> FileView {
        FileView {
            path: self.path@,
            content: match self.content {
                DecisionContent::NotRegular => ContentView::NotRegular,
                DecisionContent::Unreadable(message) => ContentView::Unreadable(message@),
                DecisionContent::Text(raw) => ContentView::Text(raw@),
            },
        }
    }
}

impl Ranked for DecisionFile {
    open spec fn ranks_before(left: FileView, right: FileView) -> bool {
        order::text_less(left.path, right.path)
    }

    fn is_before(&self, other: &Self) -> (before: bool) {
        order::is_less(self.path.as_str(), other.path.as_str())
    }
}

pub type Decision = (Seq<char>, AcceptanceView);

/// The decision about a conflict, the last one counting.
pub open spec fn decision_for(decisions: Seq<Decision>, id: Seq<char>) -> Option<AcceptanceView>
    decreases decisions.len(),
{
    if decisions.len() == 0 {
        None
    } else if decisions.last().0 == id {
        Some(decisions.last().1)
    } else {
        decision_for(decisions.drop_last(), id)
    }
}

pub open spec fn decision_views(decisions: Seq<(String, ConflictAcceptance)>) -> Seq<Decision> {
    decisions.map_values(|entry: (String, ConflictAcceptance)| (entry.0@, entry.1@))
}

/// What is wrong with a file, given the decisions before it.
pub open spec fn file_outcome(file: FileView, decisions: Seq<Decision>) -> (
    Option<Decision>,
    Option<Seq<char>>,
) {
    match file.content {
        ContentView::NotRegular => (None, Some("conflict decision must be a regular file"@)),
        ContentView::Unreadable(message) => (None, Some(message)),
        ContentView::Text(raw) => match acceptance_of(raw, file.path) {
            Err(message) => (None, Some(message)),
            Ok((id, acceptance)) => (
                Some((id, acceptance)),
                if decision_for(decisions, id) is Some {
                    Some("duplicate conflict decision for "@ + id)
                } else {
                    None
                },
            ),
        },
    }
}

/// The decisions in the files, and what is wrong with the others. Only Markdown
/// files count.
pub open spec fn decisions_of(files: Seq<FileView>) -> (Seq<Decision>, Seq<DiagnosticView>)
    decreases files.len(),
{
    if files.len() == 0 {
        (seq![], seq![])
    } else {
        let (decisions, diagnostics) = decisions_of(files.drop_last());
        let file = files.last();
        if path::extension_of(file.path) != Some("md"@) {
            (decisions, diagnostics)
        } else {
            let (decision, problem) = file_outcome(file, decisions);
            (
                match decision {
                    Some(decision) => decisions.push(decision),
                    None => decisions,
                },
                match problem {
                    Some(message) => diagnostics.push(
                        DiagnosticView {
                            path: file.path,
                            message: "conflict decision is invalid: "@ + message,
                        },
                    ),
                    None => diagnostics,
                },
            )
        }
    }
}

fn find_decision<'a>(decisions: &'a Vec<(String, ConflictAcceptance)>, id: &str) -> (found: Option<
    &'a ConflictAcceptance,
>)
    ensures
        match found {
            Some(found) => decision_for(decision_views(decisions@), id@) == Some(found@),
            None => decision_for(decision_views(decisions@), id@) is None,
        },
{
    let ghost all = decision_views(decisions@);
    let mut i: usize = decisions.len();
    assert(all.take(i as int) =~= all);
    while i > 0
        invariant
            i <= decisions.len(),
            all == decision_views(decisions@),
            decision_for(all, id@) == decision_for(all.take(i as int), id@),
        decreases i,
    {
        assert(all.take(i as int).last() == (decisions[i - 1].0@, decisions[i - 1].1@));
        assert(all.take(i as int).drop_last() =~= all.take(i - 1));
        if text::same(decisions[i - 1].0.as_str(), id) {
            return Some(&decisions[i - 1].1);
        }
        i = i - 1;
    }
    None
}

fn note(diagnostics: &mut Vec<DecisionDiagnostic>, path: &str, message: &str)
    ensures
        final(diagnostics).deep_view() == old(diagnostics).deep_view().push(
            DiagnosticView {
                path: path@,
                message: "conflict decision is invalid: "@ + message@,
            },
        ),
{
    let ghost before = diagnostics.deep_view();
    diagnostics.push(
        DecisionDiagnostic {
            path: path.to_owned(),
            message: text::concat2("conflict decision is invalid: ", message),
        },
    );
    assert(diagnostics.deep_view() =~= before.push(
        DiagnosticView { path: path@, message: "conflict decision is invalid: "@ + message@ },
    ));
}

/// Reads all decisions, in the order of their files.
pub fn load_acceptances(files: Vec<DecisionFile>) -> (loaded: (
    Vec<(String, ConflictAcceptance)>,
    Vec<DecisionDiagnostic>,
))
    ensures
        (decision_views(loaded.0@), loaded.1.deep_view()) == decisions_of(
            order::ranked::<DecisionFile>(files.deep_view()),
        ),
{
    let files = order::sort(files);
    let ghost all = files.deep_view();
    let mut decisions: Vec<(String, ConflictAcceptance)> = Vec::new();
    let mut diagnostics: Vec<DecisionDiagnostic> = Vec::new();
    let mut i: usize = 0;
    assert(all.take(0) =~= seq![]);
    assert(decision_views(decisions@) =~= seq![]);
    assert(diagnostics.deep_view() =~= seq![]);
    while i < files.len()
        invariant
            i <= files.len(),
            all == files.deep_view(),
            (decision_views(decisions@), diagnostics.deep_view()) == decisions_of(
                all.take(i as int),
            ),
        decreases files.len() - i,
    {
        let file = &files[i];
        assert(all.take(i + 1).drop_last() =~= all.take(i as int));
        assert(all.take(i + 1).last() == file.deep_view());
        i = i + 1;
        let markdown = match path::extension(file.path.as_str()) {
            Some(extension) => text::same(extension, "md"),
            None => false,
        };
        if !markdown {
            continue;
        }
        match &file.content {
            DecisionContent::NotRegular => {
                note(
                    &mut diagnostics,
                    file.path.as_str(),
                    "conflict decision must be a regular file",
                );
            },
            DecisionContent::Unreadable(message) => {
                note(&mut diagnostics, file.path.as_str(), message.as_str());
            },
            DecisionContent::Text(raw) => {
                match parse_acceptance(file.path.as_str(), raw.as_str()) {
                    Err(error) => {
                        note(&mut diagnostics, file.path.as_str(), error.message.as_str());
                    },
                    Ok((id, acceptance)) => {
                        if find_decision(&decisions, id.as_str()).is_some() {
                            let message = text::concat2(
                                "duplicate conflict decision for ",
                                id.as_str(),
                            );
                            note(&mut diagnostics, file.path.as_str(), message.as_str());
                        }
                        let ghost before = decision_views(decisions@);
                        let ghost added = (id@, acceptance@);
                        decisions.push((id, acceptance));
                        assert(decision_views(decisions@) =~= before.push(added));
                    },
                }
            },
        }
    }
    assert(all.take(i as int) =~= all);
    (decisions, diagnostics)
}

/// A conflict in the light of the decisions: accepted where one rests on the
/// very evidence, reopened where the evidence has changed since.
pub open spec fn decided(conflict: ConflictView, decisions: Seq<Decision>) -> ConflictView {
    match decision_for(decisions, conflict.id) {
        None => conflict,
        Some(acceptance) => ConflictView {
            status: if acceptance.evidence_hash == conflict.evidence_hash {
                ConflictStatus::Accepted
            } else {
                ConflictStatus::Reopened
            },
            acceptance: Some(acceptance),
            ..conflict
        },
    }
}

/// Applies the decisions to the conflicts.
pub fn apply_acceptance_map(
    conflicts: &mut Vec<Conflict>,
    decisions: &Vec<(String, ConflictAcceptance)>,
)
    ensures
        final(conflicts).deep_view() == old(conflicts).deep_view().map_values(
            |conflict: ConflictView| decided(conflict, decision_views(decisions@)),
        ),
{
    let ghost all = conflicts.deep_view();
    let ghost views = decision_views(decisions@);
    let ghost result = all.map_values(|conflict: ConflictView| decided(conflict, views));
    let mut i: usize = 0;
    while i < conflicts.len()
        invariant
            i <= conflicts.len(),
            conflicts.len() == all.len(),
            views == decision_views(decisions@),
            result == all.map_values(|conflict: ConflictView| decided(conflict, views)),
            forall|k: int| 0 <= k < i ==> conflicts.deep_view()[k] == #[trigger] result[k],
            forall|k: int| i <= k < all.len() ==> conflicts.deep_view()[k] == #[trigger] all[k],
        decreases conflicts.len() - i,
    {
        let ghost before = conflicts.deep_view();
        let mut conflict = conflicts[i].clone();
        assert(conflict@ == before[i as int]);
        assert(conflict@ == all[i as int]);
        if let Some(acceptance) = find_decision(decisions, conflict.id.as_str()) {
            if text::same(acceptance.evidence_hash.as_str(), conflict.evidence_hash.as_str()) {
                conflict.status = ConflictStatus::Accepted;
            } else {
                conflict.status = ConflictStatus::Reopened;
            }
            conflict.acceptance = Some(acceptance.clone());
        }
        let ghost changed = conflict@;
        assert(changed =~= decided(all[i as int], views));
        conflicts.set(i, conflict);
        assert(conflicts.deep_view() =~= before.update(i as int, changed));
        i = i + 1;
    }
    assert(conflicts.deep_view() =~= result);
}

// Deciding.

/// What accepting a conflict comes to: the decision, and whether it is new.
pub open spec fn accepted(
    conflict: ConflictView,
    reason: Option<Seq<char>>,
    now: int,
) -> Result<(AcceptanceView, bool), Seq<char>> {
    if reason is Some && !is_reason(reason->Some_0) {
        Err("acceptance reason must be a non-empty single line"@)
    } else if conflict.status == ConflictStatus::Accepted && conflict.acceptance is Some
        && conflict.acceptance->Some_0.reason == reason {
        Ok((conflict.acceptance->Some_0, false))
    } else {
        Ok(
            (
                AcceptanceView {
                    evidence_hash: conflict.evidence_hash,
                    accepted_at: signed_decimal(now),
                    reason,
                },
                true,
            ),
        )
    }
}

/// Accepts a conflict at a time. Nothing is to be written where it has been
/// accepted for the same reason already.
pub fn accept(conflict: &Conflict, reason: Option<String>, now: i64) -> (outcome: Result<
    (ConflictAcceptance, bool),
    Error,
>)
    ensures
        match outcome {
            Ok((acceptance, is_new)) => accepted(conflict@, reason.deep_view(), now as int)
                == Ok::<_, Seq<char>>((acceptance@, is_new)),
            Err(error) => accepted(conflict@, reason.deep_view(), now as int) == Err::<
                (AcceptanceView, bool),
                _,
            >(error@),
        },
{
    validate_reason(crate::semantic::as_slice(&reason))?;
    if conflict.status == ConflictStatus::Accepted {
        if let Some(acceptance) = &conflict.acceptance {
            if text::same_optional(&acceptance.reason, &reason) {
                return Ok((acceptance.clone(), false));
            }
        }
    }
    Ok(
        (
            ConflictAcceptance {
                evidence_hash: conflict.evidence_hash.clone(),
                accepted_at: decimal_i64(now),
                reason,
            },
            true,
        ),
    )
}

/// The conflicts in the light of the decisions in the files, and what is wrong
/// with the files.
pub fn apply_acceptances(conflicts: Vec<Conflict>, files: Vec<DecisionFile>) -> (result: (
    Vec<Conflict>,
    Vec<DecisionDiagnostic>,
))
    ensures
        ({
            let loaded = decisions_of(order::ranked::<DecisionFile>(files.deep_view()));
            &&& result.0.deep_view() == conflicts.deep_view().map_values(
                |conflict: ConflictView| decided(conflict, loaded.0),
            )
            &&& result.1.deep_view() == loaded.1
        }),
{
    let (decisions, diagnostics) = load_acceptances(files);
    let mut conflicts = conflicts;
    apply_acceptance_map(&mut conflicts, &decisions);
    (conflicts, diagnostics)
}

/// Whether there is a decision at a path; anything but a regular file is
/// refused.
pub fn ensure_regular_decision_path(state: PathState, path: &str) -> (present: Result<bool, Error>)
    ensures
        match present {
            Ok(present) => (state == PathState::File || state == PathState::Missing) && present == (
            state == PathState::File),
            Err(error) => state != PathState::File && state != PathState::Missing && error@
                == "conflict decision path "@ + path@ + " must be a regular file"@,
        },
{
    match state {
        PathState::File => Ok(true),
        PathState::Missing => Ok(false),
        _ => Err(
            Error::new(
                text::concat3("conflict decision path ", path, " must be a regular file"),
            ),
        ),
    }
}

/// Whether there is a directory of decisions; anything else in its place is
/// refused.
pub fn has_decision_directory(state: PathState, path: &str) -> (present: Result<bool, Error>)
    ensures
        match present {
            Ok(present) => (state == PathState::Directory || state == PathState::Missing) && present
                == (state == PathState::Directory),
            Err(error) => state != PathState::Directory && state != PathState::Missing && error@
                == "conflict decision path "@ + path@ + " must be a regular directory"@,
        },
{
    match state {
        PathState::Directory => Ok(true),
        PathState::Missing => Ok(false),
        _ => Err(
            Error::new(
                text::concat3("conflict decision path ", path, " must be a regular directory"),
            ),
        ),
    }
}

// Laws.

/// A decision that was made counts until the evidence changes: it accepts the
/// conflict it was made about, and reopens it under other evidence.
pub proof fn decisions_hold_for_their_evidence(
    conflict: ConflictView,
    changed: ConflictView,
    reason: Option<Seq<char>>,
    now: int,
    decisions: Seq<Decision>,
)
    requires
        conflict.status != ConflictStatus::Accepted,
        accepted(conflict, reason, now) is Ok,
        changed.id == conflict.id,
    ensures
        ({
            let acceptance = accepted(conflict, reason, now)->Ok_0.0;
            let kept = decisions.push((conflict.id, acceptance));
            &&& decided(conflict, kept).status == ConflictStatus::Accepted
            &&& decided(changed, kept).status == if changed.evidence_hash
                == conflict.evidence_hash {
                ConflictStatus::Accepted
            } else {
                ConflictStatus::Reopened
            }
        }),
{
}

/// Accepting again for the same reason changes nothing.
pub proof fn accepting_again_is_no_change(
    conflict: ConflictView,
    reason: Option<Seq<char>>,
    now: int,
    later: int,
    decisions: Seq<Decision>,
)
    requires
        accepted(conflict, reason, now) is Ok,
    ensures
        ({
            let acceptance = accepted(conflict, reason, now)->Ok_0.0;
            let again = decided(conflict, decisions.push((conflict.id, acceptance)));
            again.status == ConflictStatus::Accepted ==> accepted(again, reason, later) == Ok::<
                _,
                Seq<char>,
            >((acceptance, false))
        }),
{
}

/// The file of a decision gives the decision back, under the name of the
/// conflict.
pub proof fn acceptance_reads_back(
    conflict_id: Seq<char>,
    acceptance: AcceptanceView,
    path: Seq<char>,
)
    requires
        digest::id_problem(conflict_id, "conflict"@) is None,
        digest::id_problem(acceptance.evidence_hash, "evidence"@) is None,
        i64_of(acceptance.accepted_at) is Some,
        acceptance.reason matches Some(reason) ==> is_reason(reason),
        path::stem_of(path) == Some(conflict_id),
    ensures
        acceptance_of(acceptance_text(conflict_id, acceptance), path) == Ok::<_, Seq<char>>(
            (conflict_id, acceptance),
        ),
{
    let entries = acceptance_entries(conflict_id, acceptance);
    let block = frontmatter::block_text(entries);
    let tail = "\n# Accepted Conflict\n\nCurrent evidence is intentionally kept.\n"@;
    let body = tail.drop_first();
    reveal_strlit("\n# Accepted Conflict\n\nCurrent evidence is intentionally kept.\n");
    assert(tail[0] == '\n');
    lemma_block_without_feed(entries);
    assert(acceptance_text(conflict_id, acceptance) =~= block + body);
    lemma_acceptance_keys();
    let keys = allowed_fields();
    assert(entries[0].0 == keys[0] && entries[1].0 == keys[1] && entries[2].0 == keys[2]
        && entries[3].0 == keys[3] && entries[4].0 == keys[4]);
    assert forall|i: int| 0 <= i < entries.len() implies (#[trigger] entries[i]).0 == keys[i]
        && is_stable_field(entries[i].1) by {}
    assert(are_stable_entries(entries));
    document_reads_back(entries, body);
    let fields = with_entries(Map::empty(), entries);
    entry_is_found(entries, 0);
    entry_is_found(entries, 1);
    entry_is_found(entries, 2);
    entry_is_found(entries, 3);
    entry_is_found(entries, 4);
    assert forall|key: Seq<char>| !#[trigger] frontmatter::is_first_except(
        fields,
        allowed_fields(),
        key,
    ) by {
        if fields.contains_key(key) {
            only_entries_are_found(entries, key);
            assert(allowed_fields()[0] == "conflict_id"@);
            assert(allowed_fields()[1] == "decision"@);
            assert(allowed_fields()[2] == "evidence_hash"@);
            assert(allowed_fields()[3] == "accepted_at"@);
            assert(allowed_fields()[4] == "reason"@);
        }
    }
}

proof fn lemma_block_without_feed(entries: Seq<Entry>)
    ensures
        text::trimmed_end(frontmatter::block_text(entries)) + seq!['\n']
            == frontmatter::block_text(entries),
{
    let block = frontmatter::block_text(entries);
    reveal_strlit("---\n");
    assert("---\n"@.len() == 4);
    assert(block.last() == '\n');
    let rest = block.drop_last();
    assert(rest.last() == '-');
    assert(text::trimmed_end(rest) == rest);
    assert(text::trimmed_end(block) == rest);
    assert(rest + seq!['\n'] =~= block);
}

/// The keys of a decision are keys, and different ones.
proof fn lemma_acceptance_keys()
    ensures
        forall|i: int|
            0 <= i < allowed_fields().len() ==> is_key(
                #[trigger] allowed_fields()[i],
            ),
        forall|i: int, j: int|
            0 <= i < j < allowed_fields().len() ==> allowed_fields()[i] != allowed_fields()[j],
{
    reveal_strlit("conflict_id");
    reveal_strlit("decision");
    reveal_strlit("evidence_hash");
    reveal_strlit("accepted_at");
    reveal_strlit("reason");
    assert("conflict_id"@.len() == 11 && "decision"@.len() == 8 && "evidence_hash"@.len() == 13
        && "accepted_at"@.len() == 11 && "reason"@.len() == 6);
    assert("conflict_id"@[0] != "accepted_at"@[0]);
    assert forall|i: int| 0 <= i < allowed_fields().len() implies is_key(
        #[trigger] allowed_fields()[i],
    ) by {
        let key = allowed_fields()[i];
        assert(!text::is_space(key[0]) && !text::is_space(key.last()));
        assert(text::trimmed(key) == key);
    }
}

} // verus!
