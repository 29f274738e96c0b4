//! What the commands say when they are done.

use vstd::prelude::*;
use vstd::string::*;

use crate::cli::ConfigKey;
use crate::command::{is_configured, unconfigured};
use crate::config::{profile_index, AppConfig, ConfigView, ProfileConfig, ProfileView};
use crate::conflict::{
    Conflict, ConflictFact, ConflictFactView, ConflictKind, ConflictMember, ConflictView, MemberView,
};
use crate::doctor::{DoctorFinding, DoctorLevel, FindingView};
use crate::error::Error;
use crate::index::{RebuildReport, ReportView};
use crate::memory::{title_of, Memory, MemoryView};
use crate::numeral::{decimal, decimal_i64, decimal_usize, signed_decimal};
use crate::output::{
    action, action_of, action_tone, cell_views, colon_value, colon_value_of, key_value_of,
    list_rows, listing, memory_type_tone, paint, painted, row, row_of, row_views, tone_of_action,
    type_tone, Cell, Tone,
};
use crate::resolution::{Resolution, ResolutionView};
use crate::review::{append_pair, ReviewAction, ReviewPlan};
use crate::search::{ResultView, SearchResult};
use crate::semantic::{FactRow, FactRowView};
use crate::text;
use crate::transaction::{DryRunReport, DryRunView, OutcomeView, TransactionOutcome};

verus! {

fn add_line(lines: &mut Vec<String>, line: String)
    ensures
        final(lines).deep_view() == old(lines).deep_view().push(line@),
{
    let ghost before = lines.deep_view();
    let ghost model = line@;
    lines.push(line);
    assert(lines.deep_view() =~= before.push(model));
}

fn add_cell(cells: &mut Vec<(String, Tone)>, value: String, tone: Tone)
    ensures
        cell_views(final(cells)@) == cell_views(old(cells)@).push((value@, tone)),
{
    let ghost before = cell_views(cells@);
    let ghost model = (value@, tone);
    cells.push((value, tone));
    assert(cell_views(cells@) =~= before.push(model));
}

/// A value, or a dash where there is none.
pub open spec fn or_dash(value: Option<Seq<char>>) -> Seq<char> {
    match value {
        Some(value) => value,
        None => "-"@,
    }
}

fn shown(value: &Option<String>) -> (text: &str)
    ensures
        text@ == or_dash(value.deep_view()),
{
    match value {
        Some(value) => value.as_str(),
        None => "-",
    }
}

/// A value, or nothing where there is none.
pub open spec fn or_blank(value: Option<Seq<char>>) -> Seq<char> {
    match value {
        Some(value) => value,
        None => ""@,
    }
}

fn filled(value: &Option<String>) -> (text: String)
    ensures
        text@ == or_blank(value.deep_view()),
{
    match value {
        Some(value) => value.clone(),
        None => "".to_owned(),
    }
}

// Memories.

/// A memory in a list.
pub open spec fn memory_cells(memory: MemoryView) -> Seq<Cell> {
    let kind = memory.metadata.memory_type.name();
    seq![
        (memory.metadata.id, Tone::Id),
        (kind, type_tone(kind)),
        (memory.metadata.scope.name(), Tone::Scope),
        (memory.metadata.kind.name(), Tone::Kind),
        (title_of(memory), Tone::Title),
    ]
}

fn memory_row(memory: &Memory) -> (cells: Vec<(String, Tone)>)
    ensures
        cell_views(cells@) == memory_cells(memory@),
{
    let mut cells: Vec<(String, Tone)> = Vec::new();
    let kind = memory.metadata.memory_type.label();
    assert(cell_views(cells@) =~= seq![]);
    add_cell(&mut cells, memory.metadata.id.clone(), Tone::Id);
    add_cell(&mut cells, kind.to_owned(), memory_type_tone(kind));
    add_cell(&mut cells, memory.metadata.scope.label().to_owned(), Tone::Scope);
    add_cell(&mut cells, memory.metadata.kind.label().to_owned(), Tone::Kind);
    add_cell(&mut cells, memory.title(), Tone::Title);
    assert(cell_views(cells@) =~= memory_cells(memory@));
    cells
}

pub open spec fn memory_listing(memories: Seq<MemoryView>, terminal: bool, on: bool) -> Seq<
    Seq<char>,
> {
    listing(
        seq!["ID"@, "TYPE"@, "SCOPE"@, "KIND"@, "TITLE"@],
        memories.map_values(|memory: MemoryView| memory_cells(memory)),
        terminal,
        on,
    )
}

/// A list of memories.
pub fn list_memory_lines(memories: &Vec<Memory>, terminal: bool, on: bool) -> (lines: Vec<String>)
    ensures
        lines.deep_view() == memory_listing(memories.deep_view(), terminal, on),
{
    let ghost all = memories.deep_view();
    let ghost wanted = all.map_values(|memory: MemoryView| memory_cells(memory));
    let mut rows: Vec<Vec<(String, Tone)>> = Vec::new();
    let mut i: usize = 0;
    assert(row_views(rows@) =~= wanted.take(0));
    while i < memories.len()
        invariant
            i <= memories.len(),
            all == memories.deep_view(),
            wanted == all.map_values(|memory: MemoryView| memory_cells(memory)),
            row_views(rows@) == wanted.take(i as int),
        decreases memories.len() - i,
    {
        assert(all[i as int] == memories[i as int]@);
        let cells = memory_row(&memories[i]);
        let ghost before = row_views(rows@);
        let ghost model = cell_views(cells@);
        rows.push(cells);
        assert(row_views(rows@) =~= before.push(model));
        assert(wanted.take(i + 1) =~= wanted.take(i as int).push(wanted[i as int]));
        i = i + 1;
    }
    assert(wanted.take(i as int) =~= wanted);
    let mut headers: Vec<&str> = Vec::new();
    headers.push("ID");
    headers.push("TYPE");
    headers.push("SCOPE");
    headers.push("KIND");
    headers.push("TITLE");
    assert(headers.deep_view() =~= seq!["ID"@, "TYPE"@, "SCOPE"@, "KIND"@, "TITLE"@]);
    list_rows(&headers, rows, terminal, on)
}

/// That nothing had to be done.
pub fn no_op_line(id: &str, reason: &str, on: bool) -> (line: String)
    ensures
        line@ == painted("no-op"@, Tone::Warning, on) + " "@ + painted(id@, Tone::Id, on) + " "@
            + key_value_of("reason"@, reason@, Tone::Muted, on),
{
    let mut line = paint("no-op", Tone::Warning, on);
    line.append(" ");
    line.append(paint(id, Tone::Id, on).as_str());
    append_pair(&mut line, "reason", reason, Tone::Muted, on);
    line
}

pub fn added_line(memory: &Memory, on: bool) -> (line: String)
    ensures
        ({
            let kind = memory@.metadata.memory_type.name();
            line@ == action_of(
                "added"@,
                painted(kind, type_tone(kind), on) + " "@ + painted(
                    memory@.metadata.id,
                    Tone::Id,
                    on,
                ),
                Tone::Success,
                on,
            )
        }),
{
    let kind = memory.metadata.memory_type.label();
    let detail = text::concat3(
        paint(kind, memory_type_tone(kind), on).as_str(),
        " ",
        paint(memory.metadata.id.as_str(), Tone::Id, on).as_str(),
    );
    action("added", detail.as_str(), Tone::Success, on)
}

/// What was done to a memory, a profile or a file.
pub fn done_line(verb: &str, target: &str, target_tone: Tone, tone: Tone, on: bool) -> (line: String)
    ensures
        line@ == action_of(verb@, painted(target@, target_tone, on), tone, on),
{
    action(verb, paint(target, target_tone, on).as_str(), tone, on)
}

pub fn deleted_line(id: &str, hard: bool, on: bool) -> (line: String)
    ensures
        line@ == (if hard {
            action_of("deleted"@, painted(id@, Tone::Id, on), Tone::Error, on)
        } else {
            action_of("archived"@, painted(id@, Tone::Id, on), Tone::Warning, on)
        }),
{
    if hard {
        done_line("deleted", id, Tone::Id, Tone::Error, on)
    } else {
        done_line("archived", id, Tone::Id, Tone::Warning, on)
    }
}

pub fn superseded_line(source_id: &str, replacement_id: &str, on: bool) -> (line: String)
    ensures
        line@ == painted("superseded"@, Tone::Success, on) + " "@ + painted(
            source_id@,
            Tone::Id,
            on,
        ) + " "@ + painted("with"@, Tone::Muted, on) + " "@ + painted(
            replacement_id@,
            Tone::Id,
            on,
        ),
{
    let mut line = paint("superseded", Tone::Success, on);
    line.append(" ");
    line.append(paint(source_id, Tone::Id, on).as_str());
    line.append(" ");
    line.append(paint("with", Tone::Muted, on).as_str());
    line.append(" ");
    line.append(paint(replacement_id, Tone::Id, on).as_str());
    line
}

// Reviews.

/// What came out of a review; one that was broken off is an error.
pub fn review_line(plan: &ReviewPlan, choice: ReviewAction, on: bool) -> (line: Result<String, Error>)
    ensures
        match line {
            Ok(line) => choice != ReviewAction::Abort && line@ == painted(
                "review"@,
                Tone::Info,
                on,
            ) + " "@ + key_value_of("action"@, choice.name(), tone_of_action(choice.name()), on)
                + " "@ + key_value_of(
                "target"@,
                or_dash(
                    match plan@.target {
                        Some(target) => Some(target.metadata.id),
                        None => None,
                    },
                ),
                Tone::Id,
                on,
            ) + " "@ + key_value_of("reason"@, plan@.reason, Tone::Muted, on),
            Err(error) => choice == ReviewAction::Abort && error@ == "memory review aborted"@,
        },
{
    if choice == ReviewAction::Abort {
        return Err(Error::of("memory review aborted"));
    }
    let name = choice.label();
    let mut line = paint("review", Tone::Info, on);
    append_pair(&mut line, "action", name, action_tone(name), on);
    let target = match plan.target_id() {
        Some(id) => id,
        None => "-",
    };
    append_pair(&mut line, "target", target, Tone::Id, on);
    append_pair(&mut line, "reason", plan.reason, Tone::Muted, on);
    Ok(line)
}

// Searches.

pub open spec fn result_cells(result: ResultView, score: Seq<char>) -> Seq<Cell> {
    seq![
        (result.id, Tone::Id),
        (result.memory_type, type_tone(result.memory_type)),
        (result.source, Tone::Source),
        (result.title, Tone::Title),
        (score, Tone::Number),
        (result.path, Tone::Path),
    ]
}

/// What was found, and how well it fits.
pub fn search_line(result: &SearchResult, score: &str, on: bool) -> (line: String)
    ensures
        line@ == row_of(result_cells(result@, score@), on),
{
    let mut cells: Vec<(String, Tone)> = Vec::new();
    assert(cell_views(cells@) =~= seq![]);
    add_cell(&mut cells, result.id.clone(), Tone::Id);
    add_cell(
        &mut cells,
        result.memory_type.clone(),
        memory_type_tone(result.memory_type.as_str()),
    );
    add_cell(&mut cells, result.source.clone(), Tone::Source);
    add_cell(&mut cells, result.title.clone(), Tone::Title);
    add_cell(&mut cells, score.to_owned(), Tone::Number);
    add_cell(&mut cells, result.path.clone(), Tone::Path);
    assert(cell_views(cells@) =~= result_cells(result@, score@));
    row(&cells, on)
}

/// A fact; with its source, or with the time at which it was learned.
pub open spec fn fact_cells(fact: FactRowView, with_source: bool) -> Seq<Cell> {
    let said = seq![
        (fact.id, Tone::Id),
        (fact.subject, Tone::Title),
        (fact.relation, Tone::Kind),
        (fact.object, Tone::Value),
        (or_blank(fact.valid_from), Tone::Muted),
        (or_blank(fact.valid_to), Tone::Muted),
        (or_blank(fact.expired_at), Tone::Muted),
    ];
    if with_source {
        said + seq![
            (fact.source_memory_id, Tone::Id),
            (or_blank(fact.confidence), Tone::Number),
            (fact.source_path, Tone::Path),
            (fact.episode_id, Tone::Source),
            (fact.excerpt, Tone::Muted),
        ]
    } else {
        said + seq![
            (fact.learned_at, Tone::Muted),
            (or_blank(fact.confidence), Tone::Number),
            (fact.source_memory_id, Tone::Id),
        ]
    }
}

pub fn fact_line(fact: &FactRow, with_source: bool, on: bool) -> (line: String)
    ensures
        line@ == row_of(fact_cells(fact@, with_source), on),
{
    let mut cells: Vec<(String, Tone)> = Vec::new();
    assert(cell_views(cells@) =~= seq![]);
    add_cell(&mut cells, fact.id.clone(), Tone::Id);
    add_cell(&mut cells, fact.subject.clone(), Tone::Title);
    add_cell(&mut cells, fact.relation.clone(), Tone::Kind);
    add_cell(&mut cells, fact.object.clone(), Tone::Value);
    add_cell(&mut cells, filled(&fact.valid_from), Tone::Muted);
    add_cell(&mut cells, filled(&fact.valid_to), Tone::Muted);
    add_cell(&mut cells, filled(&fact.expired_at), Tone::Muted);
    if with_source {
        add_cell(&mut cells, fact.source_memory_id.clone(), Tone::Id);
        add_cell(&mut cells, filled(&fact.confidence), Tone::Number);
        add_cell(&mut cells, fact.source_path.clone(), Tone::Path);
        add_cell(&mut cells, fact.episode_id.clone(), Tone::Source);
        add_cell(&mut cells, fact.excerpt.clone(), Tone::Muted);
    } else {
        add_cell(&mut cells, fact.learned_at.clone(), Tone::Muted);
        add_cell(&mut cells, filled(&fact.confidence), Tone::Number);
        add_cell(&mut cells, fact.source_memory_id.clone(), Tone::Id);
    }
    assert(cell_views(cells@) =~= fact_cells(fact@, with_source));
    row(&cells, on)
}

// Conflicts.

/// A conflict in a list.
pub open spec fn conflict_cells(conflict: ConflictView) -> Seq<Cell> {
    seq![
        (conflict.id, Tone::Id),
        (conflict.status.name(), Tone::Info),
        (conflict.kind.name(), Tone::Kind),
        (conflict.scope.name(), Tone::Scope),
        (or_dash(conflict.subject), Tone::Title),
        (or_dash(conflict.relation), Tone::Kind),
        (decimal(conflict.members.len()), Tone::Number),
    ]
}

fn conflict_row(conflict: &Conflict) -> (cells: Vec<(String, Tone)>)
    ensures
        cell_views(cells@) == conflict_cells(conflict@),
{
    assert(conflict@.members.len() == conflict.members.len());
    let mut cells: Vec<(String, Tone)> = Vec::new();
    assert(cell_views(cells@) =~= seq![]);
    add_cell(&mut cells, conflict.id.clone(), Tone::Id);
    add_cell(&mut cells, conflict.status.label().to_owned(), Tone::Info);
    add_cell(&mut cells, conflict.kind.label().to_owned(), Tone::Kind);
    add_cell(&mut cells, conflict.scope.label().to_owned(), Tone::Scope);
    add_cell(&mut cells, shown(&conflict.subject).to_owned(), Tone::Title);
    add_cell(&mut cells, shown(&conflict.relation).to_owned(), Tone::Kind);
    add_cell(&mut cells, decimal_usize(conflict.members.len()), Tone::Number);
    assert(cell_views(cells@) =~= conflict_cells(conflict@));
    cells
}

pub open spec fn conflict_listing(conflicts: Seq<ConflictView>, terminal: bool, on: bool) -> Seq<
    Seq<char>,
> {
    listing(
        seq!["ID"@, "STATUS"@, "KIND"@, "SCOPE"@, "SUBJECT"@, "RELATION"@, "MEMBERS"@],
        conflicts.map_values(|conflict: ConflictView| conflict_cells(conflict)),
        terminal,
        on,
    )
}

/// A list of conflicts.
pub fn list_conflict_lines(conflicts: &Vec<Conflict>, terminal: bool, on: bool) -> (lines: Vec<
    String,
>)
    ensures
        lines.deep_view() == conflict_listing(conflicts.deep_view(), terminal, on),
{
    let ghost all = conflicts.deep_view();
    let ghost wanted = all.map_values(|conflict: ConflictView| conflict_cells(conflict));
    let mut rows: Vec<Vec<(String, Tone)>> = Vec::new();
    let mut i: usize = 0;
    assert(row_views(rows@) =~= wanted.take(0));
    while i < conflicts.len()
        invariant
            i <= conflicts.len(),
            all == conflicts.deep_view(),
            wanted == all.map_values(|conflict: ConflictView| conflict_cells(conflict)),
            row_views(rows@) == wanted.take(i as int),
        decreases conflicts.len() - i,
    {
        assert(all[i as int] == conflicts[i as int]@);
        let cells = conflict_row(&conflicts[i]);
        let ghost before = row_views(rows@);
        let ghost model = cell_views(cells@);
        rows.push(cells);
        assert(row_views(rows@) =~= before.push(model));
        assert(wanted.take(i + 1) =~= wanted.take(i as int).push(wanted[i as int]));
        i = i + 1;
    }
    assert(wanted.take(i as int) =~= wanted);
    let mut headers: Vec<&str> = Vec::new();
    headers.push("ID");
    headers.push("STATUS");
    headers.push("KIND");
    headers.push("SCOPE");
    headers.push("SUBJECT");
    headers.push("RELATION");
    headers.push("MEMBERS");
    assert(headers.deep_view() =~= seq![
        "ID"@,
        "STATUS"@,
        "KIND"@,
        "SCOPE"@,
        "SUBJECT"@,
        "RELATION"@,
        "MEMBERS"@,
    ]);
    list_rows(&headers, rows, terminal, on)
}

pub open spec fn stated_fact_lines(fact: ConflictFactView, on: bool) -> Seq<Seq<char>> {
    seq![
        colon_value_of("fact_id"@, fact.id, Tone::Id, on),
        colon_value_of("object_id"@, or_dash(fact.object_id), Tone::Id, on),
        colon_value_of("object"@, fact.object_value, Tone::Value, on),
        colon_value_of("valid_from"@, or_dash(fact.valid_from), Tone::Muted, on),
        colon_value_of("valid_to"@, or_dash(fact.valid_to), Tone::Muted, on),
        colon_value_of("learned_at"@, fact.learned_at, Tone::Muted, on),
        colon_value_of("expired_at"@, or_dash(fact.expired_at), Tone::Muted, on),
        colon_value_of("confidence"@, or_dash(fact.confidence), Tone::Number, on),
        colon_value_of("line"@, decimal(fact.line_number), Tone::Number, on),
    ]
}

/// A member of a conflict, under its number.
pub open spec fn member_lines(member: MemberView, number: nat, on: bool) -> Seq<Seq<char>> {
    let told = seq![
        ""@,
        colon_value_of("member"@, decimal(number), Tone::Number, on),
        colon_value_of("memory_id"@, member.memory_id, Tone::Id, on),
        colon_value_of("memory_path"@, member.memory_path, Tone::Path, on),
        colon_value_of("memory_title"@, member.memory_title, Tone::Title, on),
        colon_value_of("excerpt"@, member.excerpt, Tone::Muted, on),
    ];
    match member.fact {
        Some(fact) => told + stated_fact_lines(fact, on),
        None => told,
    }
}

pub open spec fn all_member_lines(members: Seq<MemberView>, on: bool) -> Seq<Seq<char>>
    decreases members.len(),
{
    if members.len() == 0 {
        seq![]
    } else {
        all_member_lines(members.drop_last(), on) + member_lines(
            members.last(),
            members.len(),
            on,
        )
    }
}

pub open spec fn conflict_head(conflict: ConflictView, on: bool) -> Seq<Seq<char>> {
    seq![
        colon_value_of("id"@, conflict.id, Tone::Id, on),
        colon_value_of("kind"@, conflict.kind.name(), Tone::Kind, on),
        colon_value_of("scope"@, conflict.scope.name(), Tone::Scope, on),
        colon_value_of("subject_id"@, or_dash(conflict.subject_id), Tone::Id, on),
        colon_value_of("subject"@, or_dash(conflict.subject), Tone::Title, on),
        colon_value_of("relation"@, or_dash(conflict.relation), Tone::Kind, on),
        colon_value_of("members"@, decimal(conflict.members.len()), Tone::Number, on),
    ]
}

/// A conflict with all its evidence.
pub open spec fn conflict_lines(conflict: ConflictView, on: bool) -> Seq<Seq<char>> {
    conflict_head(conflict, on) + all_member_lines(conflict.members, on)
}

fn add_fact(lines: &mut Vec<String>, fact: &ConflictFact, on: bool)
    ensures
        final(lines).deep_view() == old(lines).deep_view() + stated_fact_lines(fact@, on),
{
    let ghost before = lines.deep_view();
    add_line(lines, colon_value("fact_id", fact.id.as_str(), Tone::Id, on));
    add_line(lines, colon_value("object_id", shown(&fact.object_id), Tone::Id, on));
    add_line(lines, colon_value("object", fact.object_value.as_str(), Tone::Value, on));
    add_line(lines, colon_value("valid_from", shown(&fact.valid_from), Tone::Muted, on));
    add_line(lines, colon_value("valid_to", shown(&fact.valid_to), Tone::Muted, on));
    add_line(lines, colon_value("learned_at", fact.learned_at.as_str(), Tone::Muted, on));
    add_line(lines, colon_value("expired_at", shown(&fact.expired_at), Tone::Muted, on));
    add_line(lines, colon_value("confidence", shown(&fact.confidence), Tone::Number, on));
    let number = decimal_usize(fact.line_number);
    add_line(lines, colon_value("line", number.as_str(), Tone::Number, on));
    assert(lines.deep_view() =~= before + stated_fact_lines(fact@, on));
}

fn add_member(lines: &mut Vec<String>, member: &ConflictMember, number: usize, on: bool)
    ensures
        final(lines).deep_view() == old(lines).deep_view() + member_lines(
            member@,
            number as nat,
            on,
        ),
{
    let ghost before = lines.deep_view();
    add_line(lines, "".to_owned());
    add_line(lines, colon_value("member", decimal_usize(number).as_str(), Tone::Number, on));
    add_line(lines, colon_value("memory_id", member.memory_id.as_str(), Tone::Id, on));
    add_line(lines, colon_value("memory_path", member.memory_path.as_str(), Tone::Path, on));
    add_line(lines, colon_value("memory_title", member.memory_title.as_str(), Tone::Title, on));
    add_line(lines, colon_value("excerpt", member.excerpt.as_str(), Tone::Muted, on));
    if let Some(fact) = &member.fact {
        add_fact(lines, fact, on);
    }
    assert(lines.deep_view() =~= before + member_lines(member@, number as nat, on));
}

/// Shows a conflict with all its evidence.
pub fn print_conflict(conflict: &Conflict, on: bool) -> (lines: Vec<String>)
    ensures
        lines.deep_view() == conflict_lines(conflict@, on),
{
    let ghost all = conflict@.members;
    assert(all.len() == conflict.members.len());
    let mut lines: Vec<String> = Vec::new();
    assert(lines.deep_view() =~= seq![]);
    add_line(&mut lines, colon_value("id", conflict.id.as_str(), Tone::Id, on));
    add_line(&mut lines, colon_value("kind", conflict.kind.label(), Tone::Kind, on));
    add_line(&mut lines, colon_value("scope", conflict.scope.label(), Tone::Scope, on));
    add_line(&mut lines, colon_value("subject_id", shown(&conflict.subject_id), Tone::Id, on));
    add_line(&mut lines, colon_value("subject", shown(&conflict.subject), Tone::Title, on));
    add_line(&mut lines, colon_value("relation", shown(&conflict.relation), Tone::Kind, on));
    let count = decimal_usize(conflict.members.len());
    add_line(&mut lines, colon_value("members", count.as_str(), Tone::Number, on));
    let ghost head = conflict_head(conflict@, on);
    assert(lines.deep_view() =~= head);
    assert(head + all_member_lines(all.take(0), on) =~= head);
    let mut i: usize = 0;
    while i < conflict.members.len()
        invariant
            i <= conflict.members.len(),
            all == conflict@.members,
            all.len() == conflict.members.len(),
            lines.deep_view() == head + all_member_lines(all.take(i as int), on),
        decreases conflict.members.len() - i,
    {
        assert(all[i as int] == conflict.members[i as int]@);
        assert(all.take(i + 1).drop_last() =~= all.take(i as int));
        add_member(&mut lines, &conflict.members[i], i + 1, on);
        assert(lines.deep_view() =~= head + all_member_lines(all.take(i + 1), on));
        i = i + 1;
    }
    assert(all.take(i as int) =~= all);
    lines
}

/// A fact or a memory that a resolution ended.
pub open spec fn ended_rows(verb: Seq<char>, ids: Seq<Seq<char>>, on: bool) -> Seq<Seq<char>> {
    ids.map_values(
        |id: Seq<char>| row_of(seq![(verb, Tone::Warning), (id, Tone::Id)], on),
    )
}

fn add_ended(lines: &mut Vec<String>, verb: &str, ids: &Vec<String>, on: bool)
    ensures
        final(lines).deep_view() == old(lines).deep_view() + ended_rows(
            verb@,
            ids.deep_view(),
            on,
        ),
{
    let ghost all = ids.deep_view();
    let ghost wanted = ended_rows(verb@, all, on);
    let ghost before = lines.deep_view();
    let mut i: usize = 0;
    assert(before =~= before + wanted.take(0));
    while i < ids.len()
        invariant
            i <= ids.len(),
            all == ids.deep_view(),
            wanted == ended_rows(verb@, all, on),
            lines.deep_view() == before + wanted.take(i as int),
        decreases ids.len() - i,
    {
        let mut cells: Vec<(String, Tone)> = Vec::new();
        assert(cell_views(cells@) =~= seq![]);
        add_cell(&mut cells, verb.to_owned(), Tone::Warning);
        add_cell(&mut cells, ids[i].clone(), Tone::Id);
        assert(all[i as int] == ids[i as int]@);
        assert(cell_views(cells@) =~= seq![(verb@, Tone::Warning), (all[i as int], Tone::Id)]);
        add_line(lines, row(&cells, on));
        assert(wanted.take(i + 1) =~= wanted.take(i as int).push(wanted[i as int]));
        assert(lines.deep_view() =~= before + wanted.take(i + 1));
        i = i + 1;
    }
    assert(wanted.take(i as int) =~= wanted);
}

pub open spec fn resolved_line(resolution: ResolutionView, kind: ConflictKind, on: bool) -> Seq<char> {
    painted("resolved"@, Tone::Success, on) + " "@ + painted(
        resolution.conflict_id,
        Tone::Id,
        on,
    ) + " "@ + key_value_of("kind"@, kind.name(), Tone::Kind, on) + " "@ + key_value_of(
        "kept"@,
        resolution.kept_id,
        Tone::Id,
        on,
    ) + " "@ + key_value_of(
        "archived"@,
        decimal(resolution.archived_memory_ids.len()),
        Tone::Number,
        on,
    ) + " "@ + key_value_of(
        "expired"@,
        decimal(resolution.expired_fact_ids.len()),
        Tone::Number,
        on,
    )
}

/// What resolving a conflict came to.
pub open spec fn resolution_lines_of(
    resolution: ResolutionView,
    kind: ConflictKind,
    commit_id: Option<Seq<char>>,
    on: bool,
) -> Seq<Seq<char>> {
    seq![resolved_line(resolution, kind, on)] + (match resolution.expired_at {
        Some(time) => seq![
            colon_value_of("expired_at"@, signed_decimal(time as int), Tone::Muted, on),
        ],
        None => seq![],
    }) + ended_rows("archived"@, resolution.archived_memory_ids, on) + ended_rows(
        "expired"@,
        resolution.expired_fact_ids,
        on,
    ) + (match commit_id {
        Some(id) => seq![colon_value_of("commit"@, id, Tone::Id, on)],
        None => seq![],
    })
}

fn first_resolution_line(resolution: &Resolution, kind: ConflictKind, on: bool) -> (line: String)
    ensures
        line@ == resolved_line(resolution@, kind, on),
{
    assert(resolution@.archived_memory_ids.len() == resolution.archived_memory_ids.len());
    assert(resolution@.expired_fact_ids.len() == resolution.expired_fact_ids.len());
    let mut line = paint("resolved", Tone::Success, on);
    line.append(" ");
    line.append(paint(resolution.conflict_id.as_str(), Tone::Id, on).as_str());
    append_pair(&mut line, "kind", kind.label(), Tone::Kind, on);
    append_pair(&mut line, "kept", resolution.kept_id.as_str(), Tone::Id, on);
    let archived = decimal_usize(resolution.archived_memory_ids.len());
    append_pair(&mut line, "archived", archived.as_str(), Tone::Number, on);
    let expired = decimal_usize(resolution.expired_fact_ids.len());
    append_pair(&mut line, "expired", expired.as_str(), Tone::Number, on);
    line
}

pub fn resolution_lines(
    resolution: &Resolution,
    kind: ConflictKind,
    commit_id: &Option<String>,
    on: bool,
) -> (lines: Vec<String>)
    ensures
        lines.deep_view() == resolution_lines_of(resolution@, kind, commit_id.deep_view(), on),
{
    let mut lines: Vec<String> = Vec::new();
    assert(lines.deep_view() =~= seq![]);
    add_line(&mut lines, first_resolution_line(resolution, kind, on));
    let ghost first = seq![resolved_line(resolution@, kind, on)];
    assert(lines.deep_view() =~= first);
    let ghost mut second: Seq<Seq<char>> = seq![];
    if let Some(time) = resolution.expired_at {
        let number = decimal_i64(time);
        add_line(&mut lines, colon_value("expired_at", number.as_str(), Tone::Muted, on));
        proof {
            second = seq![
                colon_value_of("expired_at"@, signed_decimal(time as int), Tone::Muted, on),
            ];
        }
    }
    assert(lines.deep_view() =~= first + second);
    add_ended(&mut lines, "archived", &resolution.archived_memory_ids, on);
    add_ended(&mut lines, "expired", &resolution.expired_fact_ids, on);
    let ghost middle = lines.deep_view();
    if let Some(id) = commit_id {
        add_line(&mut lines, colon_value("commit", id.as_str(), Tone::Id, on));
        assert(lines.deep_view() =~= middle + seq![
            colon_value_of("commit"@, id@, Tone::Id, on),
        ]);
    } else {
        assert(lines.deep_view() =~= middle + Seq::<Seq<char>>::empty());
    }
    lines
}

// The index and commits.

pub open spec fn rebuilt_line(report: ReportView, on: bool) -> Seq<char> {
    action_of(
        "rebuilt"@,
        painted(report.index_path, Tone::Path, on) + " "@ + key_value_of(
            "indexed"@,
            decimal(report.indexed),
            Tone::Number,
            on,
        ) + " "@ + key_value_of("diagnostics"@, decimal(report.diagnostics), Tone::Number, on)
            + " "@ + key_value_of(
            "semantic_entities"@,
            decimal(report.semantic_entities),
            Tone::Number,
            on,
        ) + " "@ + key_value_of(
            "semantic_episodes"@,
            decimal(report.semantic_episodes),
            Tone::Number,
            on,
        ) + " "@ + key_value_of(
            "semantic_facts"@,
            decimal(report.semantic_facts),
            Tone::Number,
            on,
        ) + " "@ + key_value_of(
            "semantic_conflicts"@,
            decimal(report.semantic_conflicts),
            Tone::Number,
            on,
        ),
        Tone::Success,
        on,
    )
}

fn append_count(line: &mut String, key: &str, count: usize, on: bool)
    ensures
        final(line)@ == old(line)@ + " "@ + key_value_of(
            key@,
            decimal(count as nat),
            Tone::Number,
            on,
        ),
{
    append_pair(line, key, decimal_usize(count).as_str(), Tone::Number, on);
}

/// What a rebuilt index holds.
pub fn rebuild_line(report: &RebuildReport, on: bool) -> (line: String)
    ensures
        line@ == rebuilt_line(report@, on),
{
    let mut detail = paint(report.index_path.as_str(), Tone::Path, on);
    append_count(&mut detail, "indexed", report.indexed, on);
    append_count(&mut detail, "diagnostics", report.diagnostics, on);
    append_count(&mut detail, "semantic_entities", report.semantic_entities, on);
    append_count(&mut detail, "semantic_episodes", report.semantic_episodes, on);
    append_count(&mut detail, "semantic_facts", report.semantic_facts, on);
    append_count(&mut detail, "semantic_conflicts", report.semantic_conflicts, on);
    action("rebuilt", detail.as_str(), Tone::Success, on)
}

pub open spec fn committed_line(outcome: OutcomeView, on: bool) -> Seq<char> {
    match outcome.commit_id {
        Some(id) => action_of(
            "committed"@,
            painted(id, Tone::Id, on) + " "@ + key_value_of(
                "changes"@,
                decimal(outcome.changed_paths.len()),
                Tone::Number,
                on,
            ) + " "@ + key_value_of("indexed"@, decimal(outcome.indexed), Tone::Number, on),
            Tone::Success,
            on,
        ),
        None => painted("nothing"@, Tone::Warning, on) + " "@ + painted(
            "to commit"@,
            Tone::Muted,
            on,
        ) + " "@ + key_value_of("indexed"@, decimal(outcome.indexed), Tone::Number, on),
    }
}

/// What a commit came to.
pub fn commit_line(outcome: &TransactionOutcome, on: bool) -> (line: String)
    ensures
        line@ == committed_line(outcome@, on),
{
    match &outcome.commit_id {
        Some(id) => {
            assert(outcome@.changed_paths.len() == outcome.changed_paths.len());
            let mut detail = paint(id.as_str(), Tone::Id, on);
            append_count(&mut detail, "changes", outcome.changed_paths.len(), on);
            append_count(&mut detail, "indexed", outcome.indexed, on);
            action("committed", detail.as_str(), Tone::Success, on)
        },
        None => {
            let mut line = paint("nothing", Tone::Warning, on);
            line.append(" ");
            line.append(paint("to commit", Tone::Muted, on).as_str());
            append_count(&mut line, "indexed", outcome.indexed, on);
            line
        },
    }
}

pub open spec fn planned_rows(paths: Seq<Seq<char>>, on: bool) -> Seq<Seq<char>> {
    paths.map_values(
        |path: Seq<char>| row_of(seq![("would commit"@, Tone::Info), (path, Tone::Path)], on),
    )
}

/// What a commit would do.
pub open spec fn dry_run_lines_of(report: DryRunView, on: bool) -> Seq<Seq<char>> {
    seq![
        painted("dry-run"@, Tone::Info, on) + " "@ + key_value_of(
            "changes"@,
            decimal(report.changed_paths.len()),
            Tone::Number,
            on,
        ),
    ] + planned_rows(report.changed_paths, on) + seq![
        painted("dry-run"@, Tone::Info, on) + " "@ + painted("reindex"@, Tone::Muted, on) + " "@
            + key_value_of("indexed"@, decimal(report.indexed), Tone::Number, on) + " "@
            + key_value_of("diagnostics"@, decimal(report.diagnostics), Tone::Number, on),
    ]
}

pub fn dry_run_lines(report: &DryRunReport, on: bool) -> (lines: Vec<String>)
    ensures
        lines.deep_view() == dry_run_lines_of(report@, on),
{
    let ghost all = report@.changed_paths;
    assert(all.len() == report.changed_paths.len());
    let mut lines: Vec<String> = Vec::new();
    assert(lines.deep_view() =~= seq![]);
    let mut first = paint("dry-run", Tone::Info, on);
    append_count(&mut first, "changes", report.changed_paths.len(), on);
    let ghost head = seq![first@];
    add_line(&mut lines, first);
    let ghost wanted = planned_rows(all, on);
    assert(lines.deep_view() =~= head + wanted.take(0));
    let mut i: usize = 0;
    while i < report.changed_paths.len()
        invariant
            i <= report.changed_paths.len(),
            all == report.changed_paths.deep_view(),
            wanted == planned_rows(all, on),
            lines.deep_view() == head + wanted.take(i as int),
        decreases report.changed_paths.len() - i,
    {
        let mut cells: Vec<(String, Tone)> = Vec::new();
        assert(cell_views(cells@) =~= seq![]);
        add_cell(&mut cells, "would commit".to_owned(), Tone::Info);
        add_cell(&mut cells, report.changed_paths[i].clone(), Tone::Path);
        assert(all[i as int] == report.changed_paths[i as int]@);
        assert(cell_views(cells@) =~= seq![
            ("would commit"@, Tone::Info),
            (all[i as int], Tone::Path),
        ]);
        add_line(&mut lines, row(&cells, on));
        assert(wanted.take(i + 1) =~= wanted.take(i as int).push(wanted[i as int]));
        assert(lines.deep_view() =~= head + wanted.take(i + 1));
        i = i + 1;
    }
    assert(wanted.take(i as int) =~= wanted);
    let mut last = paint("dry-run", Tone::Info, on);
    last.append(" ");
    last.append(paint("reindex", Tone::Muted, on).as_str());
    append_count(&mut last, "indexed", report.indexed, on);
    append_count(&mut last, "diagnostics", report.diagnostics, on);
    let ghost middle = lines.deep_view();
    let ghost model = last@;
    add_line(&mut lines, last);
    assert(lines.deep_view() =~= middle + seq![model]);
    lines
}

/// Refuses a commit that would not go through.
pub fn ensure_committable(report: &DryRunReport) -> (committable: Result<(), Error>)
    ensures
        match committable {
            Ok(_) => report.diagnostics == 0,
            Err(error) => report.diagnostics > 0 && error@ == "reindex produced "@ + decimal(
                report.diagnostics as nat,
            ) + " diagnostics; commit would fail"@,
        },
{
    if report.diagnostics > 0 {
        return Err(
            Error::new(
                text::concat3(
                    "reindex produced ",
                    decimal_usize(report.diagnostics).as_str(),
                    " diagnostics; commit would fail",
                ),
            ),
        );
    }
    Ok(())
}

// Profiles and settings.

pub open spec fn profile_line_of(profile: ProfileView, active: Seq<char>, on: bool) -> Seq<char> {
    (if profile.name == active {
        painted("*"@, Tone::Success, on)
    } else {
        painted(" "@, Tone::Muted, on)
    }) + " "@ + painted(profile.name, Tone::Id, on) + "\t"@ + painted(
        profile.storage.name(),
        Tone::Source,
        on,
    ) + "\t"@ + painted(profile.root, Tone::Path, on)
}

/// All profiles, with a mark on the active one.
pub open spec fn profile_lines_of(config: ConfigView, on: bool) -> Seq<Seq<char>> {
    if config.profiles.len() == 0 {
        seq![painted("no profiles configured; run `rem init --root <path>`"@, Tone::Warning, on)]
    } else {
        config.profiles.map_values(
            |profile: ProfileView| profile_line_of(profile, config.active_profile, on),
        )
    }
}

fn profile_line(profile: &ProfileConfig, active: &str, on: bool) -> (line: String)
    ensures
        line@ == profile_line_of(profile@, active@, on),
{
    let mut line = if text::same(profile.name.as_str(), active) {
        paint("*", Tone::Success, on)
    } else {
        paint(" ", Tone::Muted, on)
    };
    line.append(" ");
    line.append(paint(profile.name.as_str(), Tone::Id, on).as_str());
    line.append("\t");
    line.append(paint(profile.storage.label(), Tone::Source, on).as_str());
    line.append("\t");
    line.append(paint(profile.root.as_str(), Tone::Path, on).as_str());
    line
}

pub fn profile_lines(config: &AppConfig, on: bool) -> (lines: Vec<String>)
    ensures
        lines.deep_view() == profile_lines_of(config@, on),
{
    let ghost all = config@.profiles;
    assert(all.len() == config.profiles.len());
    let mut lines: Vec<String> = Vec::new();
    assert(lines.deep_view() =~= seq![]);
    if config.profiles.len() == 0 {
        add_line(
            &mut lines,
            paint("no profiles configured; run `rem init --root <path>`", Tone::Warning, on),
        );
        assert(lines.deep_view() =~= profile_lines_of(config@, on));
        return lines;
    }
    let ghost wanted = profile_lines_of(config@, on);
    let mut i: usize = 0;
    assert(lines.deep_view() =~= wanted.take(0));
    while i < config.profiles.len()
        invariant
            i <= config.profiles.len(),
            config.profiles.len() > 0,
            all == config@.profiles,
            all.len() == config.profiles.len(),
            wanted == profile_lines_of(config@, on),
            lines.deep_view() == wanted.take(i as int),
        decreases config.profiles.len() - i,
    {
        assert(all[i as int] == config.profiles[i as int]@);
        let line = profile_line(&config.profiles[i], config.active_profile.as_str(), on);
        add_line(&mut lines, line);
        assert(wanted.take(i + 1) =~= wanted.take(i as int).push(wanted[i as int]));
        i = i + 1;
    }
    assert(wanted.take(i as int) =~= wanted);
    lines
}

pub open spec fn equation(key: Seq<char>, value: Seq<char>, tone: Tone, on: bool) -> Seq<char> {
    painted(key, Tone::Key, on) + " = "@ + painted(value, tone, on)
}

fn set_out(key: &str, value: &str, tone: Tone, on: bool) -> (line: String)
    ensures
        line@ == equation(key@, value@, tone, on),
{
    text::concat3(
        paint(key, Tone::Key, on).as_str(),
        " = ",
        paint(value, tone, on).as_str(),
    )
}

/// One profile; the active one where none is named.
pub fn profile_details(config: &AppConfig, name: Option<&str>, on: bool) -> (lines: Result<
    Vec<String>,
    Error,
>)
    ensures
        ({
            let name = match name.deep_view() {
                Some(name) => name,
                None => config@.active_profile,
            };
            let profile = config@.profiles[profile_index(config@.profiles, name)];
            match lines {
                Ok(lines) => is_configured(config@, name) && lines.deep_view() == seq![
                    equation("name"@, profile.name, Tone::Id, on),
                    equation("storage"@, profile.storage.name(), Tone::Source, on),
                    equation("root"@, profile.root, Tone::Path, on),
                ],
                Err(error) => !is_configured(config@, name) && error@ == unconfigured(name),
            }
        }),
{
    let name = match name {
        Some(name) => name,
        None => config.active_profile.as_str(),
    };
    let profile = config.profile(name)?;
    let mut lines: Vec<String> = Vec::new();
    assert(lines.deep_view() =~= seq![]);
    add_line(&mut lines, set_out("name", profile.name.as_str(), Tone::Id, on));
    add_line(&mut lines, set_out("storage", profile.storage.label(), Tone::Source, on));
    add_line(&mut lines, set_out("root", profile.root.as_str(), Tone::Path, on));
    assert(lines.deep_view() =~= seq![
        equation("name"@, profile@.name, Tone::Id, on),
        equation("storage"@, profile@.storage.name(), Tone::Source, on),
        equation("root"@, profile@.root, Tone::Path, on),
    ]);
    Ok(lines)
}

/// That a setting was changed.
pub fn setting_line(key: ConfigKey, config_path: &str, on: bool) -> (line: String)
    ensures
        line@ == painted("updated"@, Tone::Success, on) + " "@ + painted(key.name(), Tone::Key, on)
            + " "@ + painted("in"@, Tone::Muted, on) + " "@ + painted(
            config_path@,
            Tone::Path,
            on,
        ),
{
    let mut line = paint("updated", Tone::Success, on);
    line.append(" ");
    line.append(paint(key.label(), Tone::Key, on).as_str());
    line.append(" ");
    line.append(paint("in", Tone::Muted, on).as_str());
    line.append(" ");
    line.append(paint(config_path, Tone::Path, on).as_str());
    line
}

// Inspections.

pub open spec fn warning_row(message: Seq<char>, on: bool) -> Seq<char> {
    row_of(seq![("warn"@, Tone::Warning), (message, Tone::Value)], on)
}

/// How the report on a vault starts: where the configuration is, and which vault
/// is looked at, if any.
pub open spec fn inspection_head(config: ConfigView, config_path: Seq<char>, on: bool) -> Seq<
    Seq<char>,
> {
    let first = colon_value_of("config"@, config_path, Tone::Path, on);
    if config.profiles.len() == 0 {
        seq![first, warning_row("no profiles configured; run `rem init --root <path>`"@, on)]
    } else if !is_configured(config, config.active_profile) {
        seq![first, warning_row(unconfigured(config.active_profile), on)]
    } else {
        let profile = config.profiles[profile_index(config.profiles, config.active_profile)];
        seq![
            first,
            colon_value_of("active_profile"@, config.active_profile, Tone::Id, on),
            colon_value_of("root"@, profile.root, Tone::Path, on),
        ]
    }
}

fn warn_row(message: &str, on: bool) -> (line: String)
    ensures
        line@ == warning_row(message@, on),
{
    let mut cells: Vec<(String, Tone)> = Vec::new();
    assert(cell_views(cells@) =~= seq![]);
    add_cell(&mut cells, "warn".to_owned(), Tone::Warning);
    add_cell(&mut cells, message.to_owned(), Tone::Value);
    assert(cell_views(cells@) =~= seq![("warn"@, Tone::Warning), (message@, Tone::Value)]);
    row(&cells, on)
}

/// Starts the report on a vault, and says which profile it is on.
pub fn start_inspection(config: &AppConfig, config_path: &str, on: bool) -> (head: (
    Vec<String>,
    Option<ProfileConfig>,
))
    ensures
        head.0.deep_view() == inspection_head(config@, config_path@, on),
        match head.1 {
            Some(profile) => is_configured(config@, config@.active_profile) && profile@
                == config@.profiles[profile_index(config@.profiles, config@.active_profile)],
            None => !is_configured(config@, config@.active_profile),
        },
{
    assert(config@.profiles.len() == config.profiles.len());
    let mut lines: Vec<String> = Vec::new();
    assert(lines.deep_view() =~= seq![]);
    add_line(&mut lines, colon_value("config", config_path, Tone::Path, on));
    if config.profiles.len() == 0 {
        add_line(
            &mut lines,
            warn_row("no profiles configured; run `rem init --root <path>`", on),
        );
        assert(lines.deep_view() =~= inspection_head(config@, config_path@, on));
        return (lines, None);
    }
    match config.active_profile() {
        Ok(profile) => {
            add_line(
                &mut lines,
                colon_value("active_profile", config.active_profile.as_str(), Tone::Id, on),
            );
            add_line(&mut lines, colon_value("root", profile.root.as_str(), Tone::Path, on));
            assert(lines.deep_view() =~= inspection_head(config@, config_path@, on));
            (lines, Some(profile.clone()))
        },
        Err(error) => {
            add_line(&mut lines, warn_row(error.message(), on));
            assert(lines.deep_view() =~= inspection_head(config@, config_path@, on));
            (lines, None)
        },
    }
}

pub open spec fn finding_row(finding: FindingView, on: bool) -> Seq<char> {
    row_of(
        seq![
            (
                finding.level.name(),
                match finding.level {
                    DoctorLevel::Fine => Tone::Success,
                    DoctorLevel::Warn => Tone::Warning,
                },
            ),
            (finding.message, Tone::Value),
        ],
        on,
    )
}

/// A finding on a vault.
pub fn finding_line(finding: &DoctorFinding, on: bool) -> (line: String)
    ensures
        line@ == finding_row(finding@, on),
{
    let tone = match finding.level {
        DoctorLevel::Fine => Tone::Success,
        DoctorLevel::Warn => Tone::Warning,
    };
    let mut cells: Vec<(String, Tone)> = Vec::new();
    assert(cell_views(cells@) =~= seq![]);
    add_cell(&mut cells, finding.level.label().to_owned(), tone);
    add_cell(&mut cells, finding.message.clone(), Tone::Value);
    assert(cell_views(cells@) =~= seq![
        (finding@.level.name(), tone),
        (finding@.message, Tone::Value),
    ]);
    row(&cells, on)
}

} // verus!
