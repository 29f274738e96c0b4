//! What the steps of a command come to: what is staged and committed, what stops
//! a transaction, which decisions count, and what is looked at.

use vstd::prelude::*;

use crate::acceptance::{
    acceptance_of, acceptance_path, decided, decision_for, decisions_of,
    ensure_regular_decision_path, file_outcome, has_decision_directory, ContentView, Decision,
    DecisionFile, FileView,
};
use crate::conflict::{conflicts_at, Conflict, ConflictKind, ConflictStatus, ConflictView};
use crate::conflict_cache::{open_index, queried, query, query_all, StoredConflict};
use crate::deciding_laws::{is_asked_about, queries_answer_what_is_asked};
use crate::digest;
use crate::error::Error;
use crate::external_laws::{paths_are_those_of_changes, pending_are_journals_and_the_lock};
use crate::git::{is_excluded, label_of, GitStatusEntry};
use crate::index::{IndexContents, IndexPlan};
use crate::memory::{memory_directories, stale_file, MemoryScope};
use crate::order::{self, Ranked};
use crate::order_laws::filtering_keeps_what_is_wanted;
use crate::path::{extension_of, stem_of};
use crate::policy::{write_if_missing, PolicyStep};
use crate::search::{ranked_or_none, SearchResult};
use crate::text::trimmed;
use crate::transaction::{
    all_paths, check_hooks, check_reindex, committing, fail_if_pending_transaction_journals,
    fail_if_unmerged, is_commit_created, journal_views, pending_paths, pending_transactions,
    release_lock, snapshot_labels, staging, strays, JournalEntry,
};
use crate::workspace::{PathState, Workspace};

verus! {

// Transactions.

/// A lock is removed by the one who holds it, and by nobody else; where there is
/// none, nothing is removed.
pub proof fn locks_are_released_by_their_owners(
    path: &str,
    held: Option<&str>,
    owner: &str,
    remove: Result<bool, Error>,
)
    requires
        call_ensures(release_lock, (path, held, owner), remove),
    ensures
        held is None ==> remove == Ok::<bool, Error>(false),
        held matches Some(holder) ==> {
            &&& remove == Ok::<bool, Error>(true) <==> trimmed(holder@) == owner@
            &&& remove is Err <==> trimmed(holder@) != owner@
        },
{
}

/// Where nothing has changed nothing is staged; else all changed files are, under
/// every name that they have or had, and no others.
pub proof fn changes_are_staged(
    changes: &Vec<GitStatusEntry>,
    arguments: Option<Vec<String>>,
    path: Seq<char>,
)
    requires
        call_ensures(staging, (changes,), arguments),
    ensures
        arguments is None <==> changes@.len() == 0,
        arguments matches Some(arguments) ==> {
            let given = arguments.deep_view();
            &&& given.len() >= 3
            &&& given[0] == "add"@ && given[1] == "--all"@ && given[2] == "--"@
            &&& given.skip(3).contains(path) <==> exists|i: int|
                0 <= i < changes.deep_view().len() && ((#[trigger] changes.deep_view()[i]).path
                    == path || changes.deep_view()[i].original_path == Some(path))
        },
{
    paths_are_those_of_changes(changes.deep_view(), path);
    let head = seq!["add"@, "--all"@, "--"@];
    let paths = all_paths(changes.deep_view());
    let whole = head + paths;
    assert(whole.skip(3) =~= paths);
    assert(whole[0] == head[0] && whole[1] == head[1] && whole[2] == head[2]);
}

/// Nothing is committed where nothing is staged; a commit has the message that was
/// given.
pub proof fn what_is_staged_is_committed(
    staged: &Vec<String>,
    message: &str,
    arguments: Option<Vec<String>>,
)
    requires
        call_ensures(committing, (staged, message), arguments),
    ensures
        arguments is None <==> staged@.len() == 0,
        arguments matches Some(arguments) ==> {
            let given = arguments.deep_view();
            &&& given.len() == 7
            &&& given[0] == "-c"@ && given[1] == "user.name=rem"@
            &&& given[2] == "-c"@ && given[3] == "user.email=rem@example.invalid"@
            &&& given[4] == "commit"@ && given[5] == "-m"@
            &&& given[6] == message@
        },
{
    let given = crate::transaction::commit_arguments(message@);
    assert(given[0] == "-c"@ && given[1] == "user.name=rem"@ && given[2] == "-c"@ && given[3]
        == "user.email=rem@example.invalid"@ && given[4] == "commit"@ && given[5] == "-m"@
        && given[6] == message@);
}

/// A commit was made where the head has moved.
pub proof fn commits_move_the_head(
    head_before: &Option<String>,
    head_after: &Option<String>,
    created: bool,
)
    requires
        call_ensures(is_commit_created, (head_before, head_after), created),
    ensures
        !created <==> match (*head_before, *head_after) {
            (None, None) => true,
            (Some(before), Some(after)) => before@ == after@,
            _ => false,
        },
{
}

/// A vault in which something is wrong is not committed, nor is one that the hooks
/// have changed, or in which a change could not be merged.
pub proof fn broken_vaults_are_not_committed(
    diagnostics: usize,
    messages: &Vec<String>,
    purpose: &str,
    indexed: Result<(), Error>,
    remaining: &Vec<GitStatusEntry>,
    hooked: Result<(), Error>,
    entries: &Vec<GitStatusEntry>,
    merged: Result<(), Error>,
)
    requires
        call_ensures(check_reindex, (diagnostics, messages, purpose), indexed),
        call_ensures(check_hooks, (remaining,), hooked),
        call_ensures(fail_if_unmerged, (entries,), merged),
    ensures
        indexed is Ok <==> diagnostics == 0,
        hooked is Ok <==> remaining@.len() == 0,
        merged is Ok <==> !crate::external_laws::some_torn(entries.deep_view()),
{
    crate::external_laws::torn_changes_are_a_problem(entries.deep_view());
}

/// A transaction does not begin while the journal of another is there; the lock
/// alone does not stop it here, but is reported all the same.
pub proof fn journals_stop_transactions(
    entries: &Vec<JournalEntry>,
    clear: Result<(), Error>,
    paths: Vec<String>,
    path: Seq<char>,
)
    requires
        call_ensures(fail_if_pending_transaction_journals, (entries,), clear),
        call_ensures(pending_transactions, (entries,), paths),
    ensures
        clear is Ok <==> forall|i: int| 0 <= i < entries@.len() ==> !(#[trigger] entries@[i]).is_directory,
        paths.deep_view().contains(path) <==> exists|i: int|
            0 <= i < entries@.len() && (#[trigger] entries@[i]).path@ == path && (
            entries@[i].is_directory || crate::path::name_of(path) == Some("active.lock"@)),
{
    let views = journal_views(entries@);
    let less = |left: Seq<char>, right: Seq<char>| String::ranks_before(left, right);
    let left = pending_paths(views, false);
    order::lemma_sorted_members(left, less);
    order::lemma_sorted_members(pending_paths(views, true), less);
    pending_are_journals_and_the_lock(views, true, path);
    assert forall|i: int| 0 <= i < entries@.len() implies (#[trigger] views[i]) == (
        entries@[i].path@,
        entries@[i].is_directory,
    ) by {}
    if left.len() > 0 {
        pending_are_journals_and_the_lock(views, false, left[0]);
        assert(left.contains(left[0]));
        let i = choose|i: int|
            0 <= i < views.len() && (#[trigger] views[i]).0 == left[0] && views[i].1;
        assert(entries@[i].is_directory);
    } else {
        assert forall|i: int| 0 <= i < entries@.len() implies !(
        #[trigger] entries@[i]).is_directory by {
            pending_are_journals_and_the_lock(views, false, views[i].0);
        }
    }
    if exists|i: int|
        0 <= i < views.len() && (#[trigger] views[i]).0 == path && (views[i].1
            || crate::path::name_of(path) == Some("active.lock"@)) {
        let i = choose|i: int|
            0 <= i < views.len() && (#[trigger] views[i]).0 == path && (views[i].1
                || crate::path::name_of(path) == Some("active.lock"@));
        assert(entries@[i].path@ == path);
    }
    if exists|i: int|
        0 <= i < entries@.len() && (#[trigger] entries@[i]).path@ == path && (
        entries@[i].is_directory || crate::path::name_of(path) == Some("active.lock"@)) {
        let i = choose|i: int|
            0 <= i < entries@.len() && (#[trigger] entries@[i]).path@ == path && (
            entries@[i].is_directory || crate::path::name_of(path) == Some("active.lock"@));
        assert(views[i].0 == path);
    }
}

/// A snapshot holds every file of the vault, and going back to it removes every
/// file of the vault that it does not hold.
pub proof fn what_came_later_is_removed(
    files: Seq<Seq<char>>,
    now: Seq<Seq<char>>,
    file: Seq<char>,
)
    ensures
        snapshot_labels(files).contains(file) <==> exists|i: int|
            0 <= i < files.len() && label_of(#[trigger] files[i]) == file && !is_excluded(files[i]),
        strays(now, snapshot_labels(files)).contains(file) <==> now.contains(file) && !is_excluded(
            file,
        ) && !snapshot_labels(files).contains(label_of(file)),
{
    let held = snapshot_labels(files);
    filtering_keeps_what_is_wanted(now, |file: Seq<char>| crate::transaction::is_stray(file, held));
    lemma_snapshot(files, file);
}

proof fn lemma_snapshot(files: Seq<Seq<char>>, file: Seq<char>)
    ensures
        snapshot_labels(files).contains(file) <==> exists|i: int|
            0 <= i < files.len() && label_of(#[trigger] files[i]) == file && !is_excluded(files[i]),
    decreases files.len(),
{
    let all = snapshot_labels(files);
    if files.len() > 0 {
        let rest = files.drop_last();
        let before = snapshot_labels(rest);
        lemma_snapshot(rest, file);
        assert(files[files.len() - 1] == files.last());
        if all.contains(file) {
            let k = choose|k: int| 0 <= k < all.len() && all[k] == file;
            if k < before.len() {
                assert(before[k] == file);
                assert(before.contains(file));
                let i = choose|i: int|
                    0 <= i < rest.len() && label_of(#[trigger] rest[i]) == file && !is_excluded(
                        rest[i],
                    );
                assert(files[i] == rest[i]);
            }
        }
        if exists|i: int|
            0 <= i < files.len() && label_of(#[trigger] files[i]) == file && !is_excluded(files[i]) {
            let i = choose|i: int|
                0 <= i < files.len() && label_of(#[trigger] files[i]) == file && !is_excluded(
                    files[i],
                );
            if i < rest.len() {
                assert(rest[i] == files[i]);
                let k = choose|k: int| 0 <= k < before.len() && before[k] == file;
                assert(all[k] == file);
            } else {
                assert(all[before.len() as int] == file);
            }
        }
    }
}

// Decisions.

/// A file holds a decision only where it is named after its conflict, says to keep
/// both, rests on evidence and a time, and gives a reason that is one, if any.
pub proof fn decisions_are_checked(raw: Seq<char>, path: Seq<char>)
    requires
        acceptance_of(raw, path) is Ok,
    ensures
        ({
            let (id, acceptance) = acceptance_of(raw, path)->Ok_0;
            let fields = crate::frontmatter::document_of(raw)->Ok_0.0;
            let field = |key: Seq<char>| crate::frontmatter::scalar_field(fields, key);
            &&& stem_of(path) == Some(id)
            &&& field("conflict_id"@) == Ok::<_, Seq<char>>(Some(id))
            &&& field("decision"@) == Ok::<_, Seq<char>>(Some("keep-both"@))
            &&& field("evidence_hash"@) == Ok::<_, Seq<char>>(Some(acceptance.evidence_hash))
            &&& field("accepted_at"@) == Ok::<_, Seq<char>>(Some(acceptance.accepted_at))
            &&& field("reason"@) == Ok::<_, Seq<char>>(acceptance.reason)
            &&& digest::id_problem(id, "conflict"@) is None
            &&& digest::id_problem(acceptance.evidence_hash, "evidence"@) is None
            &&& crate::numeral::i64_of(acceptance.accepted_at) is Some
            &&& acceptance.reason matches Some(reason) ==> crate::deciding_laws::is_sound(reason)
        }),
{
    let (id, acceptance) = acceptance_of(raw, path)->Ok_0;
    if let Some(reason) = acceptance.reason {
        crate::deciding_laws::sound_reasons_are_accepted(reason);
    }
}

/// Whether a file holds a decision.
pub open spec fn holds_decision(file: FileView, decision: Decision) -> bool {
    &&& extension_of(file.path) == Some("md"@)
    &&& file.content matches ContentView::Text(raw) && acceptance_of(raw, file.path) == Ok::<
        _,
        Seq<char>,
    >(decision)
}

/// The decisions that count are those that the Markdown files hold. A Markdown file
/// that holds none is said to be wrong, and other files are passed over.
pub proof fn decisions_are_read_from_files(files: Seq<FileView>, decision: Decision, at: int)
    ensures
        decisions_of(files).0.contains(decision) <==> exists|i: int|
            0 <= i < files.len() && holds_decision(#[trigger] files[i], decision),
        0 <= at < files.len() && extension_of(files[at].path) == Some("md"@) && (forall|
            other: Decision,
        |
            !(#[trigger] holds_decision(files[at], other))) ==> exists|k: int|
            0 <= k < decisions_of(files).1.len() && (#[trigger] decisions_of(files).1[k]).path
                == files[at].path,
    decreases files.len(),
{
    if files.len() > 0 {
        let rest = files.drop_last();
        let (before, wrong) = decisions_of(rest);
        let (after, said) = decisions_of(files);
        let file = files.last();
        assert(files[files.len() - 1] == file);
        decisions_are_read_from_files(rest, decision, at);
        if after.contains(decision) {
            let k = choose|k: int| 0 <= k < after.len() && after[k] == decision;
            if k < before.len() {
                assert(before[k] == decision);
                assert(before.contains(decision));
                let i = choose|i: int|
                    0 <= i < rest.len() && holds_decision(#[trigger] rest[i], decision);
                assert(files[i] == rest[i]);
            } else {
                assert(holds_decision(file, decision));
            }
        }
        if exists|i: int| 0 <= i < files.len() && holds_decision(#[trigger] files[i], decision) {
            let i = choose|i: int|
                0 <= i < files.len() && holds_decision(#[trigger] files[i], decision);
            if i < rest.len() {
                assert(rest[i] == files[i]);
                let k = choose|k: int| 0 <= k < before.len() && before[k] == decision;
                assert(after[k] == decision);
            } else {
                assert(after[before.len() as int] == decision);
            }
        }
        if 0 <= at < files.len() && extension_of(files[at].path) == Some("md"@) && (forall|
            other: Decision,
        |
            !(#[trigger] holds_decision(files[at], other))) {
            if at < rest.len() {
                assert(rest[at] == files[at]);
                let k = choose|k: int|
                    0 <= k < wrong.len() && (#[trigger] wrong[k]).path == rest[at].path;
                assert(said[k] == wrong[k]);
            } else {
                if let ContentView::Text(raw) = file.content {
                    if acceptance_of(raw, file.path) is Ok {
                        assert(holds_decision(files[at], acceptance_of(raw, file.path)->Ok_0));
                    }
                }
                assert(said[wrong.len() as int].path == file.path);
            }
        }
    }
}

/// A second decision about a conflict is said to be wrong.
pub proof fn second_decisions_are_said(file: FileView, decisions: Seq<Decision>, decision: Decision)
    requires
        holds_decision(file, decision),
    ensures
        file_outcome(file, decisions).0 == Some(decision),
        file_outcome(file, decisions).1 is Some <==> decision_for(decisions, decision.0) is Some,
{
}

/// The file of a decision stands in the directory of conflicts, under the id of the
/// conflict; an id that is none has no file.
pub proof fn decisions_are_kept_by_conflict(
    workspace: &Workspace,
    conflict_id: &str,
    file: Result<String, Error>,
)
    requires
        call_ensures(acceptance_path, (workspace, conflict_id), file),
        workspace@.len() > 0,
        workspace@.last() != '/',
    ensures
        file is Ok <==> digest::id_problem(conflict_id@, "conflict"@) is None,
        file matches Ok(file) ==> file@ == workspace@ + "/conflicts/"@ + conflict_id@ + ".md"@
            || conflict_id@.len() == 0 || conflict_id@[0] == '/',
{
    reveal_strlit("/");
    reveal_strlit("conflicts");
    reveal_strlit("/conflicts/");
    reveal_strlit(".md");
    let dir = crate::workspace::conflicts_path(workspace@);
    assert(dir =~= workspace@ + "/"@ + "conflicts"@);
    if conflict_id@.len() > 0 && conflict_id@[0] != '/' {
        let name = conflict_id@ + ".md"@;
        assert(name[0] == conflict_id@[0]);
        assert(crate::path::below(dir, name) =~= workspace@ + "/conflicts/"@ + conflict_id@
            + ".md"@);
    }
}

/// What is in the place of a decision has to be a file, of the decisions a
/// directory, or nothing at all; and a policy is written only where there is
/// nothing, and kept where there is a file.
pub proof fn places_hold_what_they_should(
    state: PathState,
    path: &str,
    file: Result<bool, Error>,
    directory: Result<bool, Error>,
    policy: Result<PolicyStep, Error>,
)
    requires
        call_ensures(ensure_regular_decision_path, (state, path), file),
        call_ensures(has_decision_directory, (state, path), directory),
        call_ensures(write_if_missing, (state, path), policy),
    ensures
        file == Ok::<_, Error>(true) <==> state == PathState::File,
        file == Ok::<_, Error>(false) <==> state == PathState::Missing,
        directory == Ok::<_, Error>(true) <==> state == PathState::Directory,
        directory == Ok::<_, Error>(false) <==> state == PathState::Missing,
        policy == Ok::<_, Error>(PolicyStep::Keep) <==> state == PathState::File,
        policy == Ok::<_, Error>(PolicyStep::Write) <==> state == PathState::Missing,
{
}

// Queries.

/// Accepted conflicts are left out of a query, and stand in one about all; what is
/// found by its id stands among all.
pub proof fn accepted_conflicts_are_left_out(
    stored: Vec<StoredConflict>,
    kind: Option<ConflictKind>,
    scope: Option<MemoryScope>,
    open: Result<Vec<Conflict>, Error>,
    every: Result<Vec<Conflict>, Error>,
    all: Result<Vec<Conflict>, Error>,
    conflict: ConflictView,
)
    requires
        call_ensures(query, (stored, kind, scope), open),
        call_ensures(query_all, (stored, kind, scope), every),
        call_ensures(query_all, (stored, None, None), all),
        all is Ok,
    ensures
        open is Ok && every is Ok,
        open->Ok_0.deep_view().contains(conflict) <==> all->Ok_0.deep_view().contains(conflict) && (
        kind is None || kind == Some(conflict.kind)) && (scope is None || scope == Some(
            conflict.scope,
        )) && conflict.status != ConflictStatus::Accepted,
        every->Ok_0.deep_view().contains(conflict) <==> all->Ok_0.deep_view().contains(conflict) && (
        kind is None || kind == Some(conflict.kind)) && (scope is None || scope == Some(
            conflict.scope,
        )),
{
    let views = stored.deep_view();
    queries_answer_what_is_asked(views, kind, scope, false);
    queries_answer_what_is_asked(views, kind, scope, true);
    let found = queried(views, None, None, true)->Ok_0;
    filtering_keeps_what_is_wanted(
        found,
        |conflict: ConflictView| is_asked_about(conflict, kind, scope, false),
    );
    filtering_keeps_what_is_wanted(
        found,
        |conflict: ConflictView| is_asked_about(conflict, kind, scope, true),
    );
}

/// An index is used only where it is a file and has what is needed.
pub proof fn indexes_have_to_be_there(
    path: &str,
    is_file: bool,
    has_schema: bool,
    usable: Result<(), Error>,
)
    requires
        call_ensures(open_index, (path, is_file, has_schema), usable),
    ensures
        usable is Ok <==> is_file && has_schema,
{
}

/// Without an index nothing is ranked; an index that cannot be read is warned of,
/// and nothing is ranked either.
pub proof fn rankings_come_from_the_index(
    exists_index: bool,
    path: &str,
    outcome: Result<Vec<SearchResult>, Error>,
    ranked: (Vec<SearchResult>, Option<String>),
)
    requires
        call_ensures(ranked_or_none, (exists_index, path, outcome), ranked),
    ensures
        !exists_index || outcome is Err ==> ranked.0@.len() == 0,
        exists_index && outcome is Ok ==> ranked.0 == outcome->Ok_0,
        ranked.1 is Some <==> exists_index && outcome is Err,
{
    assert(ranked.0.deep_view().len() == ranked.0@.len());
}

/// Memories are looked for among the short-term and the long-term ones, and in the
/// archive where that is asked for.
pub proof fn archives_are_looked_into_on_request(
    workspace: &Workspace,
    include_archived: bool,
    dirs: Vec<String>,
)
    requires
        call_ensures(memory_directories, (workspace, include_archived), dirs),
    ensures
        dirs.deep_view().contains(crate::workspace::short_path(workspace@)),
        dirs.deep_view().contains(crate::workspace::long_path(workspace@)),
        include_archived ==> dirs.deep_view().contains(
            crate::workspace::archive_path(workspace@),
        ),
        dirs@.len() == if include_archived {
            3
        } else {
            2int
        },
{
    let all = dirs.deep_view();
    assert(all.len() == dirs@.len());
    assert(all[0] == crate::workspace::short_path(workspace@));
    assert(all[1] == crate::workspace::long_path(workspace@));
    if include_archived {
        assert(all[2] == crate::workspace::archive_path(workspace@));
    }
}

/// The file that a memory stood in is stale where it is written elsewhere.
pub proof fn moved_memories_leave_stale_files(
    original: &Option<String>,
    written: &str,
    stale: Option<String>,
)
    requires
        call_ensures(stale_file, (original, written), stale),
    ensures
        stale is Some <==> original is Some && original->Some_0@ != written@,
        stale matches Some(stale) ==> stale@ == original->Some_0@,
{
}

// The index.

/// What an index holds of conflicts are all that are found, each in the light of the
/// decisions that were read; and what is wrong with the files, of memories and of
/// decisions, is all said.
pub proof fn indexes_hold_all_conflicts(
    plan: IndexPlan,
    decisions: Vec<DecisionFile>,
    at: i64,
    contents: Result<IndexContents, Error>,
)
    requires
        call_ensures(IndexPlan::complete, (plan, decisions, at), contents),
    ensures
        contents is Ok <==> conflicts_at(plan@.memories, plan@.extractions, at as int) is Ok,
        contents matches Ok(contents) ==> {
            let found = conflicts_at(plan@.memories, plan@.extractions, at as int)->Ok_0;
            let read = decisions_of(order::ranked::<DecisionFile>(decisions.deep_view()));
            let held = contents.conflicts.deep_view();
            &&& held.len() == found.len()
            &&& forall|i: int|
                0 <= i < held.len() ==> (#[trigger] held[i]).id == found[i].id && held[i].members
                    == found[i].members && (held[i].status == ConflictStatus::Accepted ==> {
                    let decision = decision_for(read.0, found[i].id);
                    decision is Some && decision->Some_0.evidence_hash == found[i].evidence_hash
                })
            &&& contents.diagnostics.deep_view() == plan@.diagnostics + read.1
        },
{
    if let Ok(contents) = contents {
        let found = conflicts_at(plan@.memories, plan@.extractions, at as int)->Ok_0;
        let read = decisions_of(order::ranked::<DecisionFile>(decisions.deep_view()));
        let held = contents.conflicts.deep_view();
        assert forall|i: int| 0 <= i < held.len() implies (#[trigger] held[i]).id == found[i].id
            && held[i].members == found[i].members && (held[i].status == ConflictStatus::Accepted
            ==> {
            let decision = decision_for(read.0, found[i].id);
            decision is Some && decision->Some_0.evidence_hash == found[i].evidence_hash
        }) by {
            assert(held[i] == decided(found[i], read.0));
            crate::detection_laws::found_conflicts_stand_open(
                plan@.memories,
                plan@.extractions,
                at as int,
                i,
            );
        }
    }
}

} // verus!
