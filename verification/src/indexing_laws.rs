//! What the index holds of a vault, and what is said of the state of one.

use vstd::prelude::*;

use crate::conflict::path_label_of;
use crate::directive::Reading;
use crate::doctor::{findings_of, DoctorLevel, VaultFacts};
use crate::index::{
    by_id, extracted, extraction_problems, first_with_identity, identity_diagnostics, index_of_id,
    refused, row_of, same_identity, selected, with_memory, FileContentView, IndexPlanView,
    MemoryFileView, SelectionView,
};
use crate::memory::{
    better, match_rank, title_of, MemoryKind, MemoryScope, MemoryStatus, MemoryType, MemoryView,
};
use crate::order::{self, Ranked};
use crate::order_laws::filtering_keeps_what_is_wanted;
use crate::path::stem_of;
use crate::search::{
    merged, merged_before, merged_index, plan_of, MergedView, ResultView, SearchMode, SearchPlan,
};
use crate::semantic::{extraction_of, ExtractionView};
use crate::text::{is_space, joined, line_seq, trimmed};

verus! {

// Files.

/// Whether a memory is held by one of the files.
pub open spec fn is_read(files: Seq<MemoryFileView>, memory: MemoryView) -> bool {
    exists|i: int|
        0 <= i < files.len() && (#[trigger] files[i]).content == FileContentView::Readable(memory)
}

/// Whether one memory stands for another: it has its id, it is active where the
/// other is, and of two that are, or are not, it has the file named after the id
/// where the other has.
pub open spec fn stands_for(memory: MemoryView, other: MemoryView) -> bool {
    let named = |m: MemoryView|
        m.path is Some && stem_of(m.path->Some_0) == Some(other.metadata.id);
    let is_active = |m: MemoryView| m.metadata.status == MemoryStatus::Active;
    &&& memory.metadata.id == other.metadata.id
    &&& is_active(other) ==> is_active(memory)
    &&& is_active(memory) == is_active(other) && named(other) ==> named(memory)
}

proof fn lemma_index_of_id(memories: Seq<MemoryView>, id: Seq<char>)
    ensures
        0 <= index_of_id(memories, id) <= memories.len(),
        index_of_id(memories, id) < memories.len() ==> memories[index_of_id(
            memories,
            id,
        )].metadata.id == id,
        index_of_id(memories, id) == memories.len() ==> forall|i: int|
            0 <= i < memories.len() ==> (#[trigger] memories[i]).metadata.id != id,
    decreases memories.len(),
{
    if memories.len() > 0 && memories[0].metadata.id != id {
        let rest = memories.drop_first();
        lemma_index_of_id(rest, id);
        if index_of_id(memories, id) == memories.len() {
            assert forall|i: int| 0 <= i < memories.len() implies (
            #[trigger] memories[i]).metadata.id != id by {
                if i > 0 {
                    assert(rest[i - 1] == memories[i]);
                }
            }
        }
    }
}

proof fn lemma_inserted_members<M>(items: Seq<M>, item: M, before: spec_fn(M, M) -> bool)
    ensures
        forall|x: M| #[trigger]
            order::inserted(items, item, before).contains(x) <==> items.contains(x) || x == item,
    decreases items.len(),
{
    let all = order::inserted(items, item, before);
    if items.len() > 0 && before(item, items.last()) {
        let rest = items.drop_last();
        let tail = order::inserted(rest, item, before);
        lemma_inserted_members(rest, item, before);
        assert forall|x: M| #[trigger] all.contains(x) <==> items.contains(x) || x == item by {
            if all.contains(x) {
                let k = choose|k: int| 0 <= k < all.len() && all[k] == x;
                if k < tail.len() {
                    assert(tail[k] == x);
                    assert(tail.contains(x));
                    if rest.contains(x) {
                        let j = choose|j: int| 0 <= j < rest.len() && rest[j] == x;
                        assert(items[j] == x);
                    }
                } else {
                    assert(items[items.len() - 1] == x);
                }
            }
            if items.contains(x) || x == item {
                if x != item {
                    let j = choose|j: int| 0 <= j < items.len() && items[j] == x;
                    if j < rest.len() {
                        assert(rest[j] == x);
                    } else {
                        assert(all[tail.len() as int] == x);
                    }
                }
                if tail.contains(x) {
                    let k = choose|k: int| 0 <= k < tail.len() && tail[k] == x;
                    assert(all[k] == x);
                }
            }
        }
    } else {
        assert forall|x: M| #[trigger] all.contains(x) <==> items.contains(x) || x == item by {
            if items.contains(x) {
                let j = choose|j: int| 0 <= j < items.len() && items[j] == x;
                assert(all[j] == x);
            }
            assert(all[items.len() as int] == item);
        }
    }
}

/// Whether everything that was read is indexed, by what stands for it.
spec fn is_kept(kept: Seq<MemoryView>, other: MemoryView) -> bool {
    exists|k: int| 0 <= k < kept.len() && stands_for(#[trigger] kept[k], other)
}

proof fn lemma_better(memory: MemoryView, existing: MemoryView)
    requires
        memory.metadata.id == existing.metadata.id,
    ensures
        better(match_rank(memory, memory.metadata.id), match_rank(existing, memory.metadata.id))
            ==> stands_for(memory, existing),
        !better(match_rank(memory, memory.metadata.id), match_rank(existing, memory.metadata.id))
            ==> stands_for(existing, memory),
        stands_for(memory, memory),
{
}

proof fn lemma_with_memory(
    selection: SelectionView,
    path: Seq<char>,
    memory: MemoryView,
    other: MemoryView,
)
    requires
        is_kept(selection.memories, other) || other == memory,
    ensures
        is_kept(with_memory(selection, path, memory).memories, other),
{
    let id = memory.metadata.id;
    let kept = selection.memories;
    let at = index_of_id(kept, id);
    let after = with_memory(selection, path, memory).memories;
    lemma_index_of_id(kept, id);
    if at >= kept.len() {
        lemma_inserted_members(kept, memory, by_id());
        lemma_better(memory, memory);
        if is_kept(kept, other) {
            let k = choose|k: int| 0 <= k < kept.len() && stands_for(#[trigger] kept[k], other);
            assert(kept.contains(kept[k]));
            assert(after.contains(kept[k]));
            let j = choose|j: int| 0 <= j < after.len() && after[j] == kept[k];
            assert(stands_for(after[j], other));
        } else {
            assert(after.contains(memory));
            let j = choose|j: int| 0 <= j < after.len() && after[j] == memory;
            assert(stands_for(after[j], other));
        }
    } else {
        let existing = kept[at];
        lemma_better(memory, existing);
        if is_kept(kept, other) {
            let k = choose|k: int| 0 <= k < kept.len() && stands_for(#[trigger] kept[k], other);
            if better(match_rank(memory, id), match_rank(existing, id)) && k == at {
                assert(after[at] == memory);
                assert(stands_for(memory, existing));
                assert(stands_for(after[at], other));
            } else {
                assert(after[k] == kept[k]);
            }
        } else {
            if better(match_rank(memory, id), match_rank(existing, id)) {
                assert(after[at] == memory);
            } else {
                assert(after[at] == existing);
            }
            assert(stands_for(after[at], other));
        }
    }
}

/// What is indexed was read from a file, and everything that was read is indexed,
/// itself or by one that stands for it; what a link leads to is not.
pub proof fn the_best_of_each_id_is_indexed(files: Seq<MemoryFileView>, memory: MemoryView)
    ensures
        selected(files).memories.contains(memory) ==> is_read(files, memory),
        is_read(files, memory) ==> exists|k: int|
            0 <= k < selected(files).memories.len() && stands_for(
                #[trigger] selected(files).memories[k],
                memory,
            ),
    decreases files.len(),
{
    if files.len() > 0 {
        let rest = files.drop_last();
        let before = selected(rest);
        let after = selected(files);
        let file = files.last();
        assert(files[files.len() - 1] == file);
        the_best_of_each_id_is_indexed(rest, memory);
        if is_read(rest, memory) {
            let i = choose|i: int|
                0 <= i < rest.len() && (#[trigger] rest[i]).content == FileContentView::Readable(
                    memory,
                );
            assert(files[i] == rest[i]);
        }
        if let FileContentView::Readable(found) = file.content {
            let id = found.metadata.id;
            let at = index_of_id(before.memories, id);
            lemma_index_of_id(before.memories, id);
            if after.memories.contains(memory) && memory != found {
                if at >= before.memories.len() {
                    lemma_inserted_members(before.memories, found, by_id());
                } else {
                    let k = choose|k: int|
                        0 <= k < after.memories.len() && after.memories[k] == memory;
                    assert(before.memories[k] == memory);
                }
                assert(before.memories.contains(memory));
            }
            if is_read(files, memory) {
                if !is_read(rest, memory) {
                    let i = choose|i: int|
                        0 <= i < files.len() && (#[trigger] files[i]).content
                            == FileContentView::Readable(memory);
                    if i < rest.len() {
                        assert(rest[i] == files[i]);
                    }
                }
                lemma_with_memory(before, file.path, found, memory);
                let k = choose|k: int|
                    0 <= k < after.memories.len() && stands_for(
                        #[trigger] after.memories[k],
                        memory,
                    );
                assert(stands_for(selected(files).memories[k], memory));
            }
        } else {
            assert(after.memories == before.memories);
            if is_read(files, memory) && !is_read(rest, memory) {
                let i = choose|i: int|
                    0 <= i < files.len() && (#[trigger] files[i]).content
                        == FileContentView::Readable(memory);
                assert(rest[i] == files[i]);
            }
        }
    }
}

/// A file that is a link, or that cannot be read, is said to be wrong, under its
/// path.
pub proof fn what_is_not_read_is_said(files: Seq<MemoryFileView>, at: int)
    requires
        0 <= at < files.len(),
        !(files[at].content is Readable),
    ensures
        exists|k: int|
            0 <= k < selected(files).diagnostics.len() && (
            #[trigger] selected(files).diagnostics[k]).path == files[at].path,
    decreases files.len(),
{
    let rest = files.drop_last();
    let before = selected(rest).diagnostics;
    let after = selected(files).diagnostics;
    if at < rest.len() {
        assert(rest[at] == files[at]);
        what_is_not_read_is_said(rest, at);
        let k = choose|k: int| 0 <= k < before.len() && (#[trigger] before[k]).path == rest[at].path;
        assert(after[k] == before[k]);
    } else {
        assert(after[before.len() as int].path == files[at].path);
    }
}

// Identities.

/// Whether two memories name the same item of the same source.
pub open spec fn share_an_origin(left: MemoryView, right: MemoryView) -> bool {
    match (left.metadata.source, left.metadata.source_id) {
        (Some(source), Some(id)) => right.metadata.source == Some(source)
            && right.metadata.source_id == Some(id),
        _ => false,
    }
}

/// How many memories have an origin that one before them has.
pub open spec fn repeat_count(memories: Seq<MemoryView>) -> nat
    decreases memories.len(),
{
    if memories.len() == 0 {
        0
    } else {
        let rest = memories.drop_last();
        repeat_count(rest) + if exists|i: int|
            0 <= i < rest.len() && share_an_origin(memories.last(), #[trigger] rest[i]) {
            1nat
        } else {
            0nat
        }
    }
}

proof fn lemma_first_with_identity(memories: Seq<MemoryView>, memory: MemoryView)
    ensures
        0 <= first_with_identity(memories, memory) <= memories.len(),
        first_with_identity(memories, memory) < memories.len() <==> exists|i: int|
            0 <= i < memories.len() && share_an_origin(memory, #[trigger] memories[i]),
    decreases memories.len(),
{
    if memories.len() > 0 {
        let rest = memories.drop_first();
        lemma_first_with_identity(rest, memory);
        if same_identity(memory, memories[0]) {
            assert(share_an_origin(memory, memories[0]));
        } else {
            if exists|i: int| 0 <= i < memories.len() && share_an_origin(memory, #[trigger] memories[i]) {
                let i = choose|i: int|
                    0 <= i < memories.len() && share_an_origin(memory, #[trigger] memories[i]);
                assert(rest[i - 1] == memories[i]);
            }
            if exists|i: int| 0 <= i < rest.len() && share_an_origin(memory, #[trigger] rest[i]) {
                let i = choose|i: int|
                    0 <= i < rest.len() && share_an_origin(memory, #[trigger] rest[i]);
                assert(memories[i + 1] == rest[i]);
            }
        }
    }
}

/// Every memory with an origin that one before it has is said to be wrong, and
/// no other.
pub proof fn shared_origins_are_said(memories: Seq<MemoryView>)
    ensures
        identity_diagnostics(memories).len() == repeat_count(memories),
        repeat_count(memories) == 0 <==> forall|i: int, j: int|
            0 <= i < j < memories.len() ==> !share_an_origin(
                #[trigger] memories[j],
                #[trigger] memories[i],
            ),
    decreases memories.len(),
{
    if memories.len() > 0 {
        let rest = memories.drop_last();
        let last = memories.len() - 1;
        shared_origins_are_said(rest);
        lemma_first_with_identity(rest, memories.last());
        assert(memories[last] == memories.last());
        assert forall|i: int| 0 <= i < rest.len() implies rest[i] == #[trigger] memories[i] by {}
        if repeat_count(memories) == 0 {
            assert forall|i: int, j: int| 0 <= i < j < memories.len() implies !share_an_origin(
                #[trigger] memories[j],
                #[trigger] memories[i],
            ) by {
                if j < last {
                    assert(rest[i] == memories[i] && rest[j] == memories[j]);
                } else {
                    assert(!share_an_origin(memories.last(), rest[i]));
                }
            }
        } else if repeat_count(rest) > 0 {
            let (i, j) = choose|i: int, j: int|
                0 <= i < j < rest.len() && share_an_origin(#[trigger] rest[j], #[trigger] rest[i]);
            assert(share_an_origin(memories[j], memories[i]));
        } else {
            let i = choose|i: int|
                0 <= i < rest.len() && share_an_origin(memories.last(), #[trigger] rest[i]);
            assert(share_an_origin(memories[last], memories[i]));
        }
    }
}

// Facts.

/// The facts of a memory are indexed where they can be read, under its id; where
/// they cannot, the memory is said to be wrong.
#[verifier::rlimit(60)]
pub proof fn facts_are_indexed_or_said(
    memories: Seq<MemoryView>,
    table: Map<Seq<char>, Reading>,
    at: int,
)
    requires
        0 <= at < memories.len(),
    ensures
        extraction_of(memories[at], table) matches Ok(extraction) ==> extracted(
            memories,
            table,
        ).contains((memories[at].metadata.id, extraction)),
        extraction_of(memories[at], table) is Err ==> exists|k: int|
            0 <= k < extraction_problems(memories, table).len() && (
            #[trigger] extraction_problems(memories, table)[k]).path == path_label_of(memories[at]),
        extracted(memories, table).len() + extraction_problems(memories, table).len()
            == memories.len(),
    decreases memories.len(),
{
    let rest = memories.drop_last();
    let before = extracted(rest, table);
    let after = extracted(memories, table);
    let said = extraction_problems(rest, table);
    let all = extraction_problems(memories, table);
    lemma_facts_count(memories, table);
    if at < rest.len() {
        assert(rest[at] == memories[at]);
        facts_are_indexed_or_said(rest, table, at);
        match extraction_of(memories[at], table) {
            Ok(extraction) => {
                let entry = (memories[at].metadata.id, extraction);
                let k = choose|k: int| 0 <= k < before.len() && before[k] == entry;
                assert(after[k] == entry);
            },
            Err(_) => {
                let k = choose|k: int|
                    0 <= k < said.len() && (#[trigger] said[k]).path == path_label_of(rest[at]);
                assert(all[k] == said[k]);
            },
        }
    } else {
        match extraction_of(memories[at], table) {
            Ok(extraction) => {
                assert(after[before.len() as int] == (memories[at].metadata.id, extraction));
            },
            Err(_) => {
                assert(all[said.len() as int].path == path_label_of(memories[at]));
            },
        }
    }
}

proof fn lemma_facts_count(memories: Seq<MemoryView>, table: Map<Seq<char>, Reading>)
    ensures
        extracted(memories, table).len() + extraction_problems(memories, table).len()
            == memories.len(),
    decreases memories.len(),
{
    if memories.len() > 0 {
        lemma_facts_count(memories.drop_last(), table);
    }
}

/// Facts that the index refuses are left out, those of the one memory and no
/// others, and the memory is said to be wrong; it is indexed all the same.
pub proof fn refused_facts_are_left_out(
    plan: IndexPlanView,
    id: Seq<char>,
    message: Seq<char>,
    entry: (Seq<char>, ExtractionView),
)
    requires
        exists|i: int|
            0 <= i < plan.memories.len() && (#[trigger] plan.memories[i]).metadata.id == id,
    ensures
        refused(plan, id, message).memories == plan.memories,
        refused(plan, id, message).extractions.contains(entry) <==> plan.extractions.contains(entry)
            && entry.0 != id,
        refused(plan, id, message).diagnostics.len() == plan.diagnostics.len() + 1,
        refused(plan, id, message).diagnostics.drop_last() == plan.diagnostics,
        exists|i: int|
            0 <= i < plan.memories.len() && (#[trigger] plan.memories[i]).metadata.id == id
                && refused(plan, id, message).diagnostics.last().path == path_label_of(
                plan.memories[i],
            ),
{
    lemma_index_of_id(plan.memories, id);
    let at = index_of_id(plan.memories, id);
    assert(plan.memories[at].metadata.id == id);
    filtering_keeps_what_is_wanted(plan.extractions, crate::index::is_not_of(id));
    assert(refused(plan, id, message).diagnostics.drop_last() =~= plan.diagnostics);
}

// Rows.

/// The row about a memory says what the memory does, in words.
pub proof fn rows_say_what_memories_do(memory: MemoryView)
    ensures
        ({
            let row = row_of(memory);
            let said = memory.metadata;
            &&& row.id == said.id
            &&& row.memory_type == match said.memory_type {
                MemoryType::Short => "short"@,
                MemoryType::Long => "long"@,
            }
            &&& row.scope == match said.scope {
                MemoryScope::User => "user"@,
                MemoryScope::Project => "project"@,
                MemoryScope::Agent => "agent"@,
                MemoryScope::Session => "session"@,
            }
            &&& row.kind == match said.kind {
                MemoryKind::Fact => "fact"@,
                MemoryKind::Preference => "preference"@,
                MemoryKind::Decision => "decision"@,
                MemoryKind::Task => "task"@,
                MemoryKind::Procedure => "procedure"@,
                MemoryKind::Note => "note"@,
                MemoryKind::Question => "question"@,
            }
            &&& row.status == match said.status {
                MemoryStatus::Active => "active"@,
                MemoryStatus::Archived => "archived"@,
                MemoryStatus::Superseded => "superseded"@,
            }
            &&& row.title == title_of(memory)
            &&& row.body == memory.body
            &&& memory.path matches Some(path) ==> row.path == path
            &&& row.tags == joined(said.tags, ","@)
            &&& row.search_tags == joined(said.tags, " "@)
            &&& row.supersedes == joined(said.supersedes, ","@)
            &&& row.created_at == said.created_at && row.updated_at == said.updated_at
            &&& row.source == said.source && row.source_id == said.source_id
            &&& row.agent == said.agent && row.session == said.session
            &&& row.confidence == said.confidence && row.promoted_from == said.promoted_from
        }),
{
}

// The state of a vault.

/// Whether a line of a text is that, but for white space around it.
pub open spec fn has_line(raw: Seq<char>, wanted: Seq<char>) -> bool {
    exists|i: int| 0 <= i < line_seq(raw).len() && trimmed(#[trigger] line_seq(raw)[i]) == wanted
}

proof fn lemma_has_line(raw: Seq<char>, slashed: Seq<char>, bare: Seq<char>)
    ensures
        crate::doctor::names_directory(raw, slashed, bare) == (has_line(raw, slashed) || has_line(
            raw,
            bare,
        )),
{
}

/// Each thing that a vault needs is found to be in order exactly where it is there.
#[verifier::rlimit(40)]
pub proof fn what_is_missing_is_found(root: Seq<char>, facts: &VaultFacts)
    ensures
        ({
            let found = findings_of(root, facts);
            let is_fine = |at: int| found[at].level == DoctorLevel::Fine;
            let rest = if facts.index is Some {
                12
            } else {
                10int
            };
            &&& found.len() >= 14
            &&& is_fine(0) <==> facts.has_root
            &&& is_fine(1) <==> facts.has_short
            &&& is_fine(2) <==> facts.has_long
            &&& is_fine(3) <==> facts.has_policies
            &&& is_fine(4) <==> facts.has_archive
            &&& is_fine(5) <==> facts.has_cache
            &&& is_fine(6) <==> facts.has_short_policy
            &&& is_fine(7) <==> facts.has_long_policy
            &&& is_fine(8) <==> facts.has_promote_policy
            &&& is_fine(9) <==> facts.index is Some
            &&& facts.index matches Some(index) ==> {
                &&& is_fine(10) <==> index.diagnostics is Ok && index.diagnostics->Ok_0 == 0
                &&& is_fine(11) <==> index.semantic is Ok && index.semantic->Ok_0 is Some
            }
            &&& is_fine(rest) <==> facts.git is Ok
            &&& is_fine(rest + 1) <==> has_line(facts.gitignore@, ".rem/cache/"@) || has_line(
                facts.gitignore@,
                ".rem/cache"@,
            )
            &&& is_fine(rest + 2) <==> has_line(facts.gitignore@, ".rem/tx/"@) || has_line(
                facts.gitignore@,
                ".rem/tx"@,
            )
            &&& is_fine(rest + 3) <==> facts.pending is Ok && facts.pending->Ok_0@.len() == 0
            &&& forall|i: int| rest + 3 < i < found.len() ==> !#[trigger] is_fine(i)
            &&& facts.pending matches Ok(pending) ==> found.len() == rest + 3 + if pending@.len()
                == 0 {
                1
            } else {
                pending@.len()
            }
        }),
{
    let found = findings_of(root, facts);
    let layout = crate::doctor::layout_findings(root, facts);
    let index = crate::doctor::index_findings(facts.index, crate::doctor::index_of(root));
    let git = seq![crate::doctor::git_finding(facts.git)];
    let ignored = crate::doctor::ignore_findings(facts.gitignore@);
    let pending = crate::doctor::pending_findings(facts.pending);
    lemma_has_line(facts.gitignore@, ".rem/cache/"@, ".rem/cache"@);
    lemma_has_line(facts.gitignore@, ".rem/tx/"@, ".rem/tx"@);
    assert(layout.len() == 9);
    assert(found =~= layout + index + git + ignored + pending);
    assert forall|i: int| 0 <= i < 9 implies found[i] == layout[i] by {}
    assert forall|i: int| 0 <= i < index.len() implies found[9 + i] == index[i] by {}
    let rest = 9 + index.len() as int;
    assert(found[rest] == git[0]);
    assert(found[rest + 1] == ignored[0]);
    assert(found[rest + 2] == ignored[1]);
    assert forall|i: int| 0 <= i < pending.len() implies found[rest + 3 + i] == pending[i] by {}
    assert(found[9] == index[0]);
    if facts.index is Some {
        assert(found[10] == index[1]);
        assert(found[11] == index[2]);
    }
    if let Ok(paths) = facts.pending {
        assert(paths.deep_view().len() == paths@.len());
        assert(pending.len() > 0);
        assert(found[rest + 3] == pending[0]);
        if paths@.len() > 0 {
            assert forall|i: int| rest + 3 <= i < found.len() implies (#[trigger] found[i]).level
                == DoctorLevel::Warn by {
                assert(found[i] == pending[i - rest - 3]);
                assert(pending[i - rest - 3] == crate::doctor::journal_finding(
                    paths.deep_view()[i - rest - 3],
                ));
            }
        }
    } else {
        assert(found[rest + 3] == pending[0]);
    }
}

// Searching.

/// A search is refused where nothing is looked for, or by meaning; a search by text
/// looks into the files, a ranked one into the index, and others into both.
pub proof fn searches_look_where_they_should(query: Seq<char>, mode: SearchMode)
    ensures
        plan_of(query, mode) is Ok <==> mode != SearchMode::Vector && exists|i: int|
            0 <= i < query.len() && !is_space(#[trigger] query[i]),
        plan_of(query, mode) matches Ok(plan) ==> {
            &&& plan == SearchPlan::Grep <==> mode == SearchMode::Grep
            &&& plan == SearchPlan::Bm25 <==> mode == SearchMode::Bm25
            &&& plan == SearchPlan::Both <==> mode == SearchMode::Auto || mode == SearchMode::All
        },
{
    crate::keeping_laws::blank_texts_are_white(query);
}

/// The sources of the results at some places, with commas between them.
pub open spec fn sources_of(results: Seq<ResultView>, parts: Seq<usize>) -> Seq<char>
    decreases parts.len(),
{
    if parts.len() == 0 {
        seq![]
    } else if parts.len() == 1 {
        results[parts[0] as int].source
    } else {
        sources_of(results, parts.drop_last()) + ","@ + results[parts.last() as int].source
    }
}

/// Whether a merged result is made of all results about one memory, in their order:
/// it says what the first of them says, and names the sources of all.
pub open spec fn is_merge_of(results: Seq<ResultView>, one: MergedView) -> bool {
    &&& one.parts.len() > 0
    &&& forall|k: int| 0 <= k < one.parts.len() ==> #[trigger] one.parts[k] < results.len()
    &&& forall|k: int, l: int|
        0 <= k < l < one.parts.len() ==> #[trigger] one.parts[k] < #[trigger] one.parts[l]
    &&& forall|i: int|
        0 <= i < results.len() ==> (one.parts.contains(i as usize) <==> (
        #[trigger] results[i]).id == one.result.id)
    &&& one.result == (ResultView {
        source: sources_of(results, one.parts),
        ..results[one.parts[0] as int]
    })
}

proof fn lemma_merged_index(all: Seq<MergedView>, id: Seq<char>)
    ensures
        0 <= merged_index(all, id) <= all.len(),
        merged_index(all, id) < all.len() ==> all[merged_index(all, id)].result.id == id,
        merged_index(all, id) == all.len() ==> forall|i: int|
            0 <= i < all.len() ==> (#[trigger] all[i]).result.id != id,
    decreases all.len(),
{
    if all.len() > 0 && all[0].result.id != id {
        let rest = all.drop_first();
        lemma_merged_index(rest, id);
        if merged_index(all, id) == all.len() {
            assert forall|i: int| 0 <= i < all.len() implies (#[trigger] all[i]).result.id != id by {
                if i > 0 {
                    assert(rest[i - 1] == all[i]);
                }
            }
        }
    }
}

proof fn lemma_sources_stay(results: Seq<ResultView>, more: Seq<ResultView>, parts: Seq<usize>)
    requires
        results.len() <= more.len(),
        forall|i: int| 0 <= i < results.len() ==> results[i] == more[i],
        forall|k: int| 0 <= k < parts.len() ==> #[trigger] parts[k] < results.len(),
    ensures
        sources_of(results, parts) == sources_of(more, parts),
    decreases parts.len(),
{
    if parts.len() > 1 {
        let rest = parts.drop_last();
        assert forall|k: int| 0 <= k < rest.len() implies #[trigger] rest[k] < results.len() by {
            assert(rest[k] == parts[k]);
        }
        lemma_sources_stay(results, more, rest);
        assert(parts[parts.len() - 1] < results.len());
    } else if parts.len() == 1 {
        assert(parts[0] < results.len());
    }
}

proof fn lemma_other_merge(results: Seq<ResultView>, one: MergedView)
    requires
        0 < results.len() <= usize::MAX,
        is_merge_of(results.drop_last(), one),
        results.last().id != one.result.id,
    ensures
        is_merge_of(results, one),
{
    let rest = results.drop_last();
    let last = results.len() - 1;
    assert(results[last] == results.last());
    lemma_sources_stay(rest, results, one.parts);
    assert(one.parts[0] < rest.len());
    assert forall|i: int| 0 <= i < results.len() implies (one.parts.contains(i as usize) <==> (
    #[trigger] results[i]).id == one.result.id) by {
        if i < last {
            assert(rest[i] == results[i]);
        } else if one.parts.contains(i as usize) {
            let k = choose|k: int| 0 <= k < one.parts.len() && one.parts[k] == i as usize;
            assert(one.parts[k] < rest.len());
        }
    }
}

proof fn lemma_joined_merge(results: Seq<ResultView>, held: MergedView, one: MergedView)
    requires
        0 < results.len() <= usize::MAX,
        is_merge_of(results.drop_last(), held),
        results.last().id == held.result.id,
        one == (MergedView {
            result: ResultView {
                source: held.result.source + ","@ + results.last().source,
                ..held.result
            },
            parts: held.parts.push((results.len() - 1) as usize),
        }),
    ensures
        is_merge_of(results, one),
{
    let rest = results.drop_last();
    let last = results.len() - 1;
    assert(results[last] == results.last());
    lemma_sources_stay(rest, results, held.parts);
    assert(one.parts.drop_last() =~= held.parts);
    assert(one.parts[0] == held.parts[0]);
    assert(held.parts[0] < rest.len());
    assert(sources_of(results, one.parts) == held.result.source + ","@ + results.last().source);
    assert forall|k: int, l: int| 0 <= k < l < one.parts.len() implies #[trigger] one.parts[k]
        < #[trigger] one.parts[l] by {
        assert(held.parts[k] < rest.len());
        if l < held.parts.len() {
            assert(held.parts[l] == one.parts[l]);
        }
    }
    assert forall|k: int| 0 <= k < one.parts.len() implies #[trigger] one.parts[k]
        < results.len() by {
        if k < held.parts.len() {
            assert(held.parts[k] < rest.len());
        }
    }
    assert forall|i: int| 0 <= i < results.len() implies (one.parts.contains(i as usize) <==> (
    #[trigger] results[i]).id == one.result.id) by {
        if i < last {
            assert(rest[i] == results[i]);
            if held.parts.contains(i as usize) {
                let k = choose|k: int| 0 <= k < held.parts.len() && held.parts[k] == i as usize;
                assert(one.parts[k] == i as usize);
            }
            if one.parts.contains(i as usize) {
                let k = choose|k: int| 0 <= k < one.parts.len() && one.parts[k] == i as usize;
                assert(k < held.parts.len());
                assert(held.parts[k] == i as usize);
            }
        } else {
            assert(one.parts[held.parts.len() as int] == i as usize);
        }
    }
}

proof fn lemma_new_merge(results: Seq<ResultView>)
    requires
        0 < results.len() <= usize::MAX,
        forall|i: int|
            0 <= i < results.len() - 1 ==> (#[trigger] results[i]).id != results.last().id,
    ensures
        is_merge_of(
            results,
            MergedView { result: results.last(), parts: seq![(results.len() - 1) as usize] },
        ),
{
    let one = MergedView { result: results.last(), parts: seq![(results.len() - 1) as usize] };
    let last = results.len() - 1;
    assert(results[last] == results.last());
    assert(one.parts[0] == last as usize);
    assert forall|i: int| 0 <= i < results.len() implies (one.parts.contains(i as usize) <==> (
    #[trigger] results[i]).id == one.result.id) by {
        if i == last {
            assert(one.parts[0] == i as usize);
        }
    }
}

/// Merged results are made of all results about a memory, and there is one for
/// every result.
pub proof fn merged_results_name_their_parts(results: Seq<ResultView>)
    requires
        results.len() <= usize::MAX,
    ensures
        forall|k: int|
            0 <= k < merged(results).len() ==> is_merge_of(results, #[trigger] merged(results)[k]),
        forall|i: int|
            0 <= i < results.len() ==> exists|k: int|
                0 <= k < merged(results).len() && (#[trigger] merged(results)[k]).result.id == (
                #[trigger] results[i]).id,
    decreases results.len(),
{
    crate::search::merging_keeps_each_once(results);
    if results.len() > 0 {
        let rest = results.drop_last();
        let last = results.len() - 1;
        let result = results.last();
        let before = merged(rest);
        let after = merged(results);
        merged_results_name_their_parts(rest);
        crate::search::merging_keeps_each_once(rest);
        assert(results[last] == result);
        let at = merged_index(before, result.id);
        lemma_merged_index(before, result.id);
        if at < before.len() {
            assert forall|k: int| 0 <= k < after.len() implies is_merge_of(
                results,
                #[trigger] after[k],
            ) by {
                assert(is_merge_of(rest, before[k]));
                if k == at {
                    lemma_joined_merge(results, before[at], after[at]);
                } else {
                    assert(before[k].result.id != before[at].result.id);
                    lemma_other_merge(results, before[k]);
                }
            }
        } else {
            let added = MergedView { result, parts: seq![last as usize] };
            assert forall|i: int| 0 <= i < last implies (#[trigger] results[i]).id != result.id by {
                assert(rest[i] == results[i]);
                let k = choose|k: int|
                    0 <= k < before.len() && (#[trigger] before[k]).result.id == rest[i].id;
                assert(before[k].result.id != result.id);
            }
            lemma_new_merge(results);
            lemma_inserted_members(before, added, merged_before());
            assert forall|k: int| 0 <= k < after.len() implies is_merge_of(
                results,
                #[trigger] after[k],
            ) by {
                assert(after.contains(after[k]));
                if after[k] != added {
                    assert(before.contains(after[k]));
                    let j = choose|j: int| 0 <= j < before.len() && before[j] == after[k];
                    assert(before[j].result.id != result.id);
                    lemma_other_merge(results, before[j]);
                }
            }
        }
        assert forall|i: int| 0 <= i < results.len() implies exists|k: int|
            0 <= k < after.len() && (#[trigger] after[k]).result.id == (
            #[trigger] results[i]).id by {
            assert(crate::search::has_merged(after, results[i].id));
        }
    }
}

} // verus!
