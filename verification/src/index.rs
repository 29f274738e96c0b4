//! What the index of a vault holds: which memories, what is wrong with the
//! others, and the rows about each.

use vstd::prelude::*;
use vstd::string::*;

use crate::acceptance::{self, decided, decisions_of, DecisionFile};
use crate::conflict::{
    self, conflicts_at, keyed_views, memory_path_label, path_label_of, Conflict, ConflictView,
    DecisionDiagnostic, DiagnosticView,
};
use crate::directive::{ConfidenceTable, Reading};
use crate::error::Error;
use crate::memory::{self, better, match_rank, title_of, Memory, MemoryView};
use crate::numeral::{decimal, decimal_u128, decimal_u64};
use crate::order::{self, text_less, Ranked};
use crate::path;
use crate::semantic::{self, extraction_of, ExtractionView, SemanticExtraction};
use crate::text;
use crate::workspace::{self, Workspace};

verus! {

// Files.

/// What was found in the place of a memory.
#[derive(Debug)]
pub enum FileContent {
    Symlink,
    Unreadable(String),
    Readable(Memory),
}

pub enum FileContentView {
    Symlink,
    Unreadable(Seq<char>),
    Readable(MemoryView),
}

impl View for FileContent {
    type V = FileContentView;

    open spec fn view(&self) -> FileContentView {
        match self {
            FileContent::Symlink => FileContentView::Symlink,
            FileContent::Unreadable(message) => FileContentView::Unreadable(message@),
            FileContent::Readable(memory) => FileContentView::Readable(memory@),
        }
    }
}

/// A file that should hold a memory.
#[derive(Debug)]
pub struct MemoryFile {
    pub path: String,
    pub content: FileContent,
}

pub struct MemoryFileView {
    pub path: Seq<char>,
    pub content: FileContentView,
}

impl View for MemoryFile {
    type V = MemoryFileView;

    open spec fn view(&self) -> MemoryFileView {
        MemoryFileView { path: self.path@, content: self.content@ }
    }
}

impl DeepView for MemoryFile {
    type V = MemoryFileView;

    open spec fn deep_view(&self) -> MemoryFileView {
        self@
    }
}

// Choosing.

/// Where the memory with that id stands; the number of memories if there is none.
pub open spec fn index_of_id(memories: Seq<MemoryView>, id: Seq<char>) -> int
    decreases memories.len(),
{
    if memories.len() == 0 || memories[0].metadata.id == id {
        0
    } else {
        1 + index_of_id(memories.drop_first(), id)
    }
}

pub open spec fn by_id() -> spec_fn(MemoryView, MemoryView) -> bool {
    |left: MemoryView, right: MemoryView| Memory::ranks_before(left, right)
}

/// The memories that are indexed, and what is wrong with the other files.
#[verifier::ext_equal]
pub struct SelectionView {
    pub memories: Seq<MemoryView>,
    pub diagnostics: Seq<DiagnosticView>,
}

pub open spec fn diagnosed(selection: SelectionView, path: Seq<char>, message: Seq<char>) -> SelectionView {
    SelectionView {
        diagnostics: selection.diagnostics.push(DiagnosticView { path, message }),
        ..selection
    }
}

/// The selection with one more memory. Of two with the same id the better one
/// is kept, and the other is wrong.
pub open spec fn with_memory(selection: SelectionView, path: Seq<char>, memory: MemoryView) -> SelectionView {
    let id = memory.metadata.id;
    let at = index_of_id(selection.memories, id);
    if at >= selection.memories.len() {
        SelectionView {
            memories: order::inserted(selection.memories, memory, by_id()),
            ..selection
        }
    } else {
        let existing = selection.memories[at];
        if better(match_rank(memory, id), match_rank(existing, id)) {
            SelectionView {
                memories: selection.memories.update(at, memory),
                diagnostics: selection.diagnostics.push(
                    DiagnosticView {
                        path: path_label_of(existing),
                        message: "duplicate memory id "@ + id + "; ignored in favor of "@ + path,
                    },
                ),
            }
        } else {
            diagnosed(selection, path, "duplicate memory id "@ + id)
        }
    }
}

pub open spec fn with_file(selection: SelectionView, file: MemoryFileView) -> SelectionView {
    match file.content {
        FileContentView::Symlink => diagnosed(
            selection,
            file.path,
            "memory file must be a regular vault file, not a symlink"@,
        ),
        FileContentView::Unreadable(message) => diagnosed(selection, file.path, message),
        FileContentView::Readable(memory) => with_memory(selection, file.path, memory),
    }
}

/// The memories in the files, by their ids, each once.
pub open spec fn selected(files: Seq<MemoryFileView>) -> SelectionView
    decreases files.len(),
{
    if files.len() == 0 {
        SelectionView { memories: seq![], diagnostics: seq![] }
    } else {
        with_file(selected(files.drop_last()), files.last())
    }
}

fn note(diagnostics: &mut Vec<DecisionDiagnostic>, path: String, message: String)
    ensures
        final(diagnostics).deep_view() == old(diagnostics).deep_view().push(
            DiagnosticView { path: path@, message: message@ },
        ),
{
    let ghost before = diagnostics.deep_view();
    let ghost model = DiagnosticView { path: path@, message: message@ };
    diagnostics.push(DecisionDiagnostic { path, message });
    assert(diagnostics.deep_view() =~= before.push(model));
}

fn find_id(memories: &Vec<Memory>, id: &str) -> (at: usize)
    ensures
        at == index_of_id(memories.deep_view(), id@),
        at <= memories.len(),
{
    let ghost all = memories.deep_view();
    let mut i: usize = 0;
    assert(all.skip(0) =~= all);
    while i < memories.len()
        invariant
            i <= memories.len(),
            all == memories.deep_view(),
            index_of_id(all, id@) == i + index_of_id(all.skip(i as int), id@),
        decreases memories.len() - i,
    {
        assert(all.skip(i as int)[0] == memories[i as int]@);
        if text::same(memories[i].metadata.id.as_str(), id) {
            return i;
        }
        assert(all.skip(i as int).drop_first() =~= all.skip(i + 1));
        i = i + 1;
    }
    i
}

fn choose_memory(
    memories: &mut Vec<Memory>,
    diagnostics: &mut Vec<DecisionDiagnostic>,
    path: &str,
    memory: &Memory,
)
    ensures
        ({
            let result = with_memory(
                SelectionView {
                    memories: old(memories).deep_view(),
                    diagnostics: old(diagnostics).deep_view(),
                },
                path@,
                memory@,
            );
            &&& final(memories).deep_view() == result.memories
            &&& final(diagnostics).deep_view() == result.diagnostics
        }),
{
    let ghost all = memories.deep_view();
    let id = memory.metadata.id.as_str();
    let at = find_id(memories, id);
    if at >= memories.len() {
        order::insert_ranked(memories, memory.clone());
        return;
    }
    assert(all[at as int] == memories[at as int]@);
    let rank = memory::effective_priority(memory);
    let held = memory::effective_priority(&memories[at]);
    proof {
        lemma_index_of_id(all, id@);
    }
    if rank.0 < held.0 || (rank.0 == held.0 && rank.1 < held.1) {
        note(
            diagnostics,
            memory_path_label(&memories[at]),
            text::concat4("duplicate memory id ", id, "; ignored in favor of ", path),
        );
        memories.set(at, memory.clone());
        assert(memories.deep_view() =~= all.update(at as int, memory@));
    } else {
        note(diagnostics, path.to_owned(), text::concat2("duplicate memory id ", id));
    }
}

proof fn lemma_index_of_id(memories: Seq<MemoryView>, id: Seq<char>)
    ensures
        0 <= index_of_id(memories, id) <= memories.len(),
        index_of_id(memories, id) < memories.len() ==> memories[index_of_id(
            memories,
            id,
        )].metadata.id == id,
        forall|i: int|
            0 <= i < index_of_id(memories, id) ==> (#[trigger] memories[i]).metadata.id != id,
    decreases memories.len(),
{
    if memories.len() > 0 && memories[0].metadata.id != id {
        lemma_index_of_id(memories.drop_first(), id);
        let n = index_of_id(memories, id);
        assert forall|i: int| 0 <= i < n implies (#[trigger] memories[i]).metadata.id != id by {
            if i > 0 {
                assert(memories[i] == memories.drop_first()[i - 1]);
            }
        }
    }
}

/// Picks the memories to index among the files.
pub fn select_memories(files: &Vec<MemoryFile>) -> (selection: (Vec<Memory>, Vec<DecisionDiagnostic>))
    ensures
        selection.0.deep_view() == selected(files.deep_view()).memories,
        selection.1.deep_view() == selected(files.deep_view()).diagnostics,
{
    let ghost all = files.deep_view();
    let mut memories: Vec<Memory> = Vec::new();
    let mut diagnostics: Vec<DecisionDiagnostic> = Vec::new();
    let mut i: usize = 0;
    assert(memories.deep_view() =~= seq![]);
    assert(diagnostics.deep_view() =~= seq![]);
    while i < files.len()
        invariant
            i <= files.len(),
            all == files.deep_view(),
            memories.deep_view() == selected(all.take(i as int)).memories,
            diagnostics.deep_view() == selected(all.take(i as int)).diagnostics,
        decreases files.len() - i,
    {
        let file = &files[i];
        assert(all.take(i + 1).drop_last() =~= all.take(i as int));
        assert(all.take(i + 1).last() == file@);
        match &file.content {
            FileContent::Symlink => {
                note(
                    &mut diagnostics,
                    file.path.clone(),
                    "memory file must be a regular vault file, not a symlink".to_owned(),
                );
            },
            FileContent::Unreadable(message) => {
                note(&mut diagnostics, file.path.clone(), message.clone());
            },
            FileContent::Readable(memory) => {
                choose_memory(&mut memories, &mut diagnostics, file.path.as_str(), memory);
            },
        }
        i = i + 1;
    }
    assert(all.take(i as int) =~= all);
    (memories, diagnostics)
}

// Source identities.

/// Whether two memories come from the same item of the same source.
pub open spec fn same_identity(left: MemoryView, right: MemoryView) -> bool {
    &&& left.metadata.source is Some && left.metadata.source_id is Some
    &&& left.metadata.source == right.metadata.source
    &&& left.metadata.source_id == right.metadata.source_id
}

/// Where the first memory with the same identity stands; the number of memories
/// if there is none.
pub open spec fn first_with_identity(memories: Seq<MemoryView>, memory: MemoryView) -> int
    decreases memories.len(),
{
    if memories.len() == 0 || same_identity(memory, memories[0]) {
        0
    } else {
        1 + first_with_identity(memories.drop_first(), memory)
    }
}

/// What is wrong with identities that are used twice.
pub open spec fn identity_diagnostics(memories: Seq<MemoryView>) -> Seq<DiagnosticView>
    decreases memories.len(),
{
    if memories.len() == 0 {
        seq![]
    } else {
        let rest = memories.drop_last();
        let memory = memories.last();
        let before = identity_diagnostics(rest);
        let at = first_with_identity(rest, memory);
        if at < rest.len() {
            before.push(
                DiagnosticView {
                    path: path_label_of(memory),
                    message: "duplicate source identity "@ + text::quoted_form(
                        memory.metadata.source->Some_0,
                    ) + "/"@ + memory.metadata.source_id->Some_0 + "; already used by memory "@
                        + rest[at].metadata.id + " at "@ + path_label_of(rest[at]),
                },
            )
        } else {
            before
        }
    }
}

fn is_same_identity(left: &Memory, right: &Memory) -> (same: bool)
    ensures
        same == same_identity(left@, right@),
{
    left.metadata.source.is_some() && left.metadata.source_id.is_some() && text::same_optional(
        &left.metadata.source,
        &right.metadata.source,
    ) && text::same_optional(&left.metadata.source_id, &right.metadata.source_id)
}

fn find_identity(memories: &Vec<Memory>, end: usize) -> (at: usize)
    requires
        end < memories.len(),
    ensures
        at == first_with_identity(
            memories.deep_view().take(end as int),
            memories.deep_view()[end as int],
        ),
        at <= end,
{
    let ghost all = memories.deep_view().take(end as int);
    let ghost memory = memories.deep_view()[end as int];
    let mut i: usize = 0;
    assert(all.skip(0) =~= all);
    while i < end
        invariant
            i <= end < memories.len(),
            all == memories.deep_view().take(end as int),
            memory == memories.deep_view()[end as int],
            first_with_identity(all, memory) == i + first_with_identity(all.skip(i as int), memory),
        decreases end - i,
    {
        assert(all.skip(i as int)[0] == memories[i as int]@);
        if is_same_identity(&memories[end], &memories[i]) {
            return i;
        }
        assert(all.skip(i as int).drop_first() =~= all.skip(i + 1));
        i = i + 1;
    }
    i
}

/// Says what is wrong with identities that are used twice.
pub fn check_identities(memories: &Vec<Memory>) -> (diagnostics: Vec<DecisionDiagnostic>)
    ensures
        diagnostics.deep_view() == identity_diagnostics(memories.deep_view()),
{
    let ghost all = memories.deep_view();
    let mut diagnostics: Vec<DecisionDiagnostic> = Vec::new();
    let mut i: usize = 0;
    assert(diagnostics.deep_view() =~= seq![]);
    while i < memories.len()
        invariant
            i <= memories.len(),
            all == memories.deep_view(),
            diagnostics.deep_view() == identity_diagnostics(all.take(i as int)),
        decreases memories.len() - i,
    {
        let memory = &memories[i];
        assert(all.take(i + 1).drop_last() =~= all.take(i as int));
        assert(all.take(i + 1).last() == memory@);
        let at = find_identity(memories, i);
        if at < i {
            assert(all.take(i as int)[at as int] == memories[at as int]@);
            proof {
                lemma_identity(all.take(i as int), memory@);
            }
            let mut message = "duplicate source identity ".to_owned();
            if let Some(source) = &memory.metadata.source {
                message.append(text::quoted(source.as_str()).as_str());
            }
            message.append("/");
            if let Some(source_id) = &memory.metadata.source_id {
                message.append(source_id.as_str());
            }
            message.append("; already used by memory ");
            message.append(memories[at].metadata.id.as_str());
            message.append(" at ");
            message.append(memory_path_label(&memories[at]).as_str());
            note(&mut diagnostics, memory_path_label(memory), message);
        }
        i = i + 1;
    }
    assert(all.take(i as int) =~= all);
    diagnostics
}

proof fn lemma_identity(memories: Seq<MemoryView>, memory: MemoryView)
    ensures
        first_with_identity(memories, memory) < memories.len()
            ==> memory.metadata.source is Some && memory.metadata.source_id is Some,
    decreases memories.len(),
{
    if memories.len() > 0 && !same_identity(memory, memories[0]) {
        lemma_identity(memories.drop_first(), memory);
    }
}

// Facts.

pub open spec fn extraction_problem(memory: MemoryView, message: Seq<char>) -> DiagnosticView {
    DiagnosticView {
        path: path_label_of(memory),
        message: "semantic cache extraction failed: "@ + message,
    }
}

/// What is said of a memory whose facts cannot be read or kept.
pub fn extraction_diagnostic(memory: &Memory, message: &str) -> (diagnostic: DecisionDiagnostic)
    ensures
        diagnostic@ == extraction_problem(memory@, message@),
{
    DecisionDiagnostic {
        path: memory_path_label(memory),
        message: text::concat2("semantic cache extraction failed: ", message),
    }
}

/// What the memories say, as far as it can be read.
pub open spec fn extracted(memories: Seq<MemoryView>, table: Map<Seq<char>, Reading>) -> Seq<
    (Seq<char>, ExtractionView),
>
    decreases memories.len(),
{
    if memories.len() == 0 {
        seq![]
    } else {
        let before = extracted(memories.drop_last(), table);
        match extraction_of(memories.last(), table) {
            Ok(extraction) => before.push((memories.last().metadata.id, extraction)),
            Err(_) => before,
        }
    }
}

/// What is wrong with the memories whose facts cannot be read.
pub open spec fn extraction_problems(memories: Seq<MemoryView>, table: Map<Seq<char>, Reading>) -> Seq<
    DiagnosticView,
>
    decreases memories.len(),
{
    if memories.len() == 0 {
        seq![]
    } else {
        let before = extraction_problems(memories.drop_last(), table);
        match extraction_of(memories.last(), table) {
            Ok(_) => before,
            Err(message) => before.push(extraction_problem(memories.last(), message)),
        }
    }
}

/// What goes into an index, before the facts are kept and compared.
#[derive(Debug)]
pub struct IndexPlan {
    pub memories: Vec<Memory>,
    pub extractions: Vec<(String, SemanticExtraction)>,
    pub diagnostics: Vec<DecisionDiagnostic>,
}

#[verifier::ext_equal]
pub struct IndexPlanView {
    pub memories: Seq<MemoryView>,
    pub extractions: Seq<(Seq<char>, ExtractionView)>,
    pub diagnostics: Seq<DiagnosticView>,
}

impl View for IndexPlan {
    type V = IndexPlanView;

    open spec fn view(&self) -> IndexPlanView {
        IndexPlanView {
            memories: self.memories.deep_view(),
            extractions: keyed_views(self.extractions@),
            diagnostics: self.diagnostics.deep_view(),
        }
    }
}

/// What the files come to.
pub open spec fn planned(files: Seq<MemoryFileView>, table: Map<Seq<char>, Reading>) -> IndexPlanView {
    let selection = selected(files);
    IndexPlanView {
        memories: selection.memories,
        extractions: extracted(selection.memories, table),
        diagnostics: selection.diagnostics + identity_diagnostics(selection.memories)
            + extraction_problems(selection.memories, table),
    }
}

fn extract_all(memories: &Vec<Memory>, table: &ConfidenceTable) -> (read: (
    Vec<(String, SemanticExtraction)>,
    Vec<DecisionDiagnostic>,
))
    ensures
        keyed_views(read.0@) == extracted(memories.deep_view(), table@),
        read.1.deep_view() == extraction_problems(memories.deep_view(), table@),
{
    let ghost all = memories.deep_view();
    let mut extractions: Vec<(String, SemanticExtraction)> = Vec::new();
    let mut diagnostics: Vec<DecisionDiagnostic> = Vec::new();
    let mut i: usize = 0;
    assert(keyed_views(extractions@) =~= seq![]);
    assert(diagnostics.deep_view() =~= seq![]);
    while i < memories.len()
        invariant
            i <= memories.len(),
            all == memories.deep_view(),
            keyed_views(extractions@) == extracted(all.take(i as int), table@),
            diagnostics.deep_view() == extraction_problems(all.take(i as int), table@),
        decreases memories.len() - i,
    {
        let memory = &memories[i];
        assert(all.take(i + 1).drop_last() =~= all.take(i as int));
        assert(all.take(i + 1).last() == memory@);
        match semantic::extract(memory, table) {
            Ok(extraction) => {
                let ghost before = keyed_views(extractions@);
                let ghost model = (memory@.metadata.id, extraction@);
                extractions.push((memory.metadata.id.clone(), extraction));
                assert(keyed_views(extractions@) =~= before.push(model));
            },
            Err(error) => {
                let diagnostic = extraction_diagnostic(memory, error.message());
                let ghost before = diagnostics.deep_view();
                let ghost model = diagnostic@;
                diagnostics.push(diagnostic);
                assert(diagnostics.deep_view() =~= before.push(model));
            },
        }
        i = i + 1;
    }
    assert(all.take(i as int) =~= all);
    (extractions, diagnostics)
}

/// Decides what goes into an index, and says what is wrong with the rest.
pub fn plan_index(files: &Vec<MemoryFile>, table: &ConfidenceTable) -> (plan: IndexPlan)
    ensures
        plan@ == planned(files.deep_view(), table@),
{
    let (memories, mut diagnostics) = select_memories(files);
    let mut identities = check_identities(&memories);
    let (extractions, mut problems) = extract_all(&memories, table);
    let ghost first = diagnostics.deep_view();
    let ghost second = identities.deep_view();
    let ghost third = problems.deep_view();
    diagnostics.append(&mut identities);
    assert(diagnostics.deep_view() =~= first + second);
    diagnostics.append(&mut problems);
    assert(diagnostics.deep_view() =~= first + second + third);
    IndexPlan { memories, extractions, diagnostics }
}

pub open spec fn is_not_of(id: Seq<char>) -> spec_fn((Seq<char>, ExtractionView)) -> bool {
    |entry: (Seq<char>, ExtractionView)| entry.0 != id
}

/// A plan without the facts of a memory.
pub open spec fn refused(plan: IndexPlanView, id: Seq<char>, message: Seq<char>) -> IndexPlanView {
    let at = index_of_id(plan.memories, id);
    if at < plan.memories.len() {
        IndexPlanView {
            extractions: plan.extractions.filter(is_not_of(id)),
            diagnostics: plan.diagnostics.push(extraction_problem(plan.memories[at], message)),
            ..plan
        }
    } else {
        plan
    }
}

/// What is compared and kept, and what was wrong.
#[derive(Debug)]
pub struct IndexContents {
    pub conflicts: Vec<Conflict>,
    pub diagnostics: Vec<DecisionDiagnostic>,
}

impl IndexPlan {
    /// Takes out the facts of a memory that could not be kept.
    pub fn refuse(self, id: &str, message: &str) -> (plan: IndexPlan)
        ensures
            plan@ == refused(self@, id@, message@),
    {
        let ghost all = self.memories.deep_view();
        let ghost entries = keyed_views(self.extractions@);
        let mut at: usize = 0;
        assert(all.skip(0) =~= all);
        while at < self.memories.len() && !text::same(self.memories[at].metadata.id.as_str(), id)
            invariant
                at <= self.memories.len(),
                all == self.memories.deep_view(),
                index_of_id(all, id@) == at + index_of_id(all.skip(at as int), id@),
            decreases self.memories.len() - at,
        {
            assert(all.skip(at as int)[0] == self.memories[at as int]@);
            assert(all.skip(at as int).drop_first() =~= all.skip(at + 1));
            at = at + 1;
        }
        if at >= self.memories.len() {
            return self;
        }
        assert(all.skip(at as int)[0] == self.memories[at as int]@);
        let diagnostic = extraction_diagnostic(&self.memories[at], message);
        let mut diagnostics = self.diagnostics;
        let ghost before = diagnostics.deep_view();
        let ghost model = diagnostic@;
        diagnostics.push(diagnostic);
        assert(diagnostics.deep_view() =~= before.push(model));
        let mut extractions = self.extractions;
        let mut i: usize = 0;
        let ghost mut seen: int = 0;
        let ghost wanted = is_not_of(id@);
        proof {
            reveal(Seq::filter);
            assert(entries.take(0).filter(wanted) =~= seq![]);
            assert(entries =~= entries.take(0).filter(wanted) + entries.skip(0));
        }
        while i < extractions.len()
            invariant
                0 <= seen <= entries.len(),
                wanted == is_not_of(id@),
                i == entries.take(seen).filter(wanted).len(),
                i <= extractions.len(),
                keyed_views(extractions@) == entries.take(seen).filter(wanted) + entries.skip(seen),
            decreases extractions.len() - i,
        {
            let ghost front = entries.take(seen).filter(wanted);
            let ghost views = keyed_views(extractions@);
            proof {
                reveal(Seq::filter);
                assert(views.len() == extractions.len());
                assert(views[i as int] == entries.skip(seen)[0]);
                assert(views[i as int] == (extractions[i as int].0@, extractions[i as int].1@));
                assert(entries.take(seen + 1).drop_last() =~= entries.take(seen));
                assert(entries.take(seen + 1).last() == entries[seen]);
            }
            if text::same(extractions[i].0.as_str(), id) {
                let ghost old_extractions = extractions@;
                extractions.remove(i);
                assert(keyed_views(extractions@) =~= front + entries.skip(seen + 1)) by {
                    assert(extractions@ =~= old_extractions.remove(i as int));
                    assert forall|k: int| 0 <= k < extractions@.len() implies #[trigger]
                    keyed_views(extractions@)[k] == (front + entries.skip(seen + 1))[k] by {
                        if k < i {
                            assert(keyed_views(extractions@)[k] == views[k]);
                        } else {
                            assert(keyed_views(extractions@)[k] == views[k + 1]);
                        }
                    }
                }
            } else {
                assert(keyed_views(extractions@) =~= front.push(entries[seen]) + entries.skip(
                    seen + 1,
                ));
                i = i + 1;
            }
            proof {
                seen = seen + 1;
            }
        }
        proof {
            assert(entries.skip(seen).len() == 0);
            assert(entries.take(seen) =~= entries);
            assert(keyed_views(extractions@) =~= entries.filter(wanted));
        }
        IndexPlan { memories: self.memories, extractions, diagnostics }
    }

    /// Compares the facts of a plan at a time, in the light of the decisions.
    pub fn complete(self, decisions: Vec<DecisionFile>, at: i64) -> (contents: Result<
        IndexContents,
        Error,
    >)
        ensures
            ({
                let loaded = decisions_of(order::ranked::<DecisionFile>(decisions.deep_view()));
                let found = conflicts_at(self@.memories, self@.extractions, at as int);
                match contents {
                    Ok(contents) => found is Ok && contents.conflicts.deep_view()
                        == found->Ok_0.map_values(
                        |conflict: ConflictView| decided(conflict, loaded.0),
                    ) && contents.diagnostics.deep_view() == self@.diagnostics + loaded.1,
                    Err(error) => found == Err::<Seq<ConflictView>, _>(error@),
                }
            }),
    {
        let found = conflict::detect_at(&self.memories, &self.extractions, at)?;
        let (conflicts, mut problems) = acceptance::apply_acceptances(found, decisions);
        let mut diagnostics = self.diagnostics;
        let ghost first = diagnostics.deep_view();
        let ghost second = problems.deep_view();
        diagnostics.append(&mut problems);
        assert(diagnostics.deep_view() =~= first + second);
        Ok(IndexContents { conflicts, diagnostics })
    }
}

// Diagnostics.

impl Ranked for DecisionDiagnostic {
    open spec fn ranks_before(left: DiagnosticView, right: DiagnosticView) -> bool {
        if left.path != right.path {
            text_less(left.path, right.path)
        } else {
            text_less(left.message, right.message)
        }
    }

    fn is_before(&self, other: &Self) -> (before: bool) {
        if self.path != other.path {
            order::is_less(self.path.as_str(), other.path.as_str())
        } else {
            order::is_less(self.message.as_str(), other.message.as_str())
        }
    }
}

pub open spec fn diagnostic_line(diagnostic: DiagnosticView) -> Seq<char> {
    diagnostic.path + " [error]: "@ + diagnostic.message
}

/// The diagnostics as they are printed, by path and message.
pub open spec fn diagnostic_lines(diagnostics: Seq<DiagnosticView>) -> Seq<Seq<char>> {
    order::ranked::<DecisionDiagnostic>(diagnostics).map_values(
        |diagnostic: DiagnosticView| diagnostic_line(diagnostic),
    )
}

pub fn diagnostic_messages(diagnostics: Vec<DecisionDiagnostic>) -> (messages: Vec<String>)
    ensures
        messages.deep_view() == diagnostic_lines(diagnostics.deep_view()),
{
    let ghost wanted = diagnostic_lines(diagnostics.deep_view());
    let sorted = order::sort(diagnostics);
    let mut messages: Vec<String> = Vec::new();
    let mut i: usize = 0;
    while i < sorted.len()
        invariant
            i <= sorted.len(),
            wanted == sorted.deep_view().map_values(
                |diagnostic: DiagnosticView| diagnostic_line(diagnostic),
            ),
            messages.deep_view() == wanted.take(i as int),
        decreases sorted.len() - i,
    {
        let line = text::concat3(
            sorted[i].path.as_str(),
            " [error]: ",
            sorted[i].message.as_str(),
        );
        let ghost before = messages.deep_view();
        let ghost model = line@;
        messages.push(line);
        assert(messages.deep_view() =~= before.push(model));
        assert(wanted.take(i + 1) =~= wanted.take(i as int).push(wanted[i as int]));
        i = i + 1;
    }
    assert(wanted.take(i as int) =~= wanted);
    messages
}

// Rows.

/// The row about a memory.
#[derive(Debug)]
pub struct MemoryRow {
    pub id: String,
    pub memory_type: String,
    pub scope: String,
    pub kind: String,
    pub status: String,
    pub title: String,
    pub body: String,
    pub path: String,
    pub tags: String,
    pub created_at: String,
    pub updated_at: String,
    pub source: Option<String>,
    pub source_id: Option<String>,
    pub agent: Option<String>,
    pub session: Option<String>,
    pub confidence: Option<String>,
    pub promoted_from: Option<String>,
    pub supersedes: String,
    pub search_tags: String,
}

#[verifier::ext_equal]
pub struct RowView {
    pub id: Seq<char>,
    pub memory_type: Seq<char>,
    pub scope: Seq<char>,
    pub kind: Seq<char>,
    pub status: Seq<char>,
    pub title: Seq<char>,
    pub body: Seq<char>,
    pub path: Seq<char>,
    pub tags: Seq<char>,
    pub created_at: Seq<char>,
    pub updated_at: Seq<char>,
    pub source: Option<Seq<char>>,
    pub source_id: Option<Seq<char>>,
    pub agent: Option<Seq<char>>,
    pub session: Option<Seq<char>>,
    pub confidence: Option<Seq<char>>,
    pub promoted_from: Option<Seq<char>>,
    pub supersedes: Seq<char>,
    pub search_tags: Seq<char>,
}

impl View for MemoryRow {
    type V = RowView;

    open spec fn view(&self) -> RowView {
        RowView {
            id: self.id@,
            memory_type: self.memory_type@,
            scope: self.scope@,
            kind: self.kind@,
            status: self.status@,
            title: self.title@,
            body: self.body@,
            path: self.path@,
            tags: self.tags@,
            created_at: self.created_at@,
            updated_at: self.updated_at@,
            source: self.source.deep_view(),
            source_id: self.source_id.deep_view(),
            agent: self.agent.deep_view(),
            session: self.session.deep_view(),
            confidence: self.confidence.deep_view(),
            promoted_from: self.promoted_from.deep_view(),
            supersedes: self.supersedes@,
            search_tags: self.search_tags@,
        }
    }
}

impl DeepView for MemoryRow {
    type V = RowView;

    open spec fn deep_view(&self) -> RowView {
        self@
    }
}

/// The row about a memory; for searching, its tags stand with spaces between
/// them.
pub open spec fn row_of(memory: MemoryView) -> RowView {
    RowView {
        id: memory.metadata.id,
        memory_type: memory.metadata.memory_type.name(),
        scope: memory.metadata.scope.name(),
        kind: memory.metadata.kind.name(),
        status: memory.metadata.status.name(),
        title: title_of(memory),
        body: memory.body,
        path: path_label_of(memory),
        tags: text::joined(memory.metadata.tags, ","@),
        created_at: memory.metadata.created_at,
        updated_at: memory.metadata.updated_at,
        source: memory.metadata.source,
        source_id: memory.metadata.source_id,
        agent: memory.metadata.agent,
        session: memory.metadata.session,
        confidence: memory.metadata.confidence,
        promoted_from: memory.metadata.promoted_from,
        supersedes: text::joined(memory.metadata.supersedes, ","@),
        search_tags: text::joined(memory.metadata.tags, " "@),
    }
}

pub fn memory_row(memory: &Memory) -> (row: MemoryRow)
    ensures
        row@ == row_of(memory@),
{
    MemoryRow {
        id: memory.metadata.id.clone(),
        memory_type: memory.metadata.memory_type.label().to_owned(),
        scope: memory.metadata.scope.label().to_owned(),
        kind: memory.metadata.kind.label().to_owned(),
        status: memory.metadata.status.label().to_owned(),
        title: memory.title(),
        body: memory.body.clone(),
        path: memory_path_label(memory),
        tags: text::join(&memory.metadata.tags, ","),
        created_at: memory.metadata.created_at.clone(),
        updated_at: memory.metadata.updated_at.clone(),
        source: text::clone_optional(&memory.metadata.source),
        source_id: text::clone_optional(&memory.metadata.source_id),
        agent: text::clone_optional(&memory.metadata.agent),
        session: text::clone_optional(&memory.metadata.session),
        confidence: text::clone_optional(&memory.metadata.confidence),
        promoted_from: text::clone_optional(&memory.metadata.promoted_from),
        supersedes: text::join(&memory.metadata.supersedes, ","),
        search_tags: text::join(&memory.metadata.tags, " "),
    }
}

/// What a rebuilt index holds.
#[derive(Debug)]
pub struct RebuildReport {
    pub indexed: usize,
    pub diagnostics: usize,
    pub semantic_entities: usize,
    pub semantic_episodes: usize,
    pub semantic_facts: usize,
    pub semantic_conflicts: usize,
    pub index_path: String,
}

#[verifier::ext_equal]
pub struct ReportView {
    pub indexed: nat,
    pub diagnostics: nat,
    pub semantic_entities: nat,
    pub semantic_episodes: nat,
    pub semantic_facts: nat,
    pub semantic_conflicts: nat,
    pub index_path: Seq<char>,
}

impl View for RebuildReport {
    type V = ReportView;

    open spec fn view(&self) -> ReportView {
        ReportView {
            indexed: self.indexed as nat,
            diagnostics: self.diagnostics as nat,
            semantic_entities: self.semantic_entities as nat,
            semantic_episodes: self.semantic_episodes as nat,
            semantic_facts: self.semantic_facts as nat,
            semantic_conflicts: self.semantic_conflicts as nat,
            index_path: self.index_path@,
        }
    }
}

impl DeepView for RebuildReport {
    type V = ReportView;

    open spec fn deep_view(&self) -> ReportView {
        self@
    }
}

impl Clone for RebuildReport {
    fn clone(&self) -> (copy: Self)
        ensures
            copy@ == self@,
    {
        RebuildReport {
            indexed: self.indexed,
            diagnostics: self.diagnostics,
            semantic_entities: self.semantic_entities,
            semantic_episodes: self.semantic_episodes,
            semantic_facts: self.semantic_facts,
            semantic_conflicts: self.semantic_conflicts,
            index_path: self.index_path.clone(),
        }
    }
}

/// Where an index is made before it takes its place.
pub fn temp_index_path(workspace: &Workspace, label: &str, process: u32, nanos: u128) -> (file: String)
    ensures
        file@ == path::below(
            workspace::cache_path(workspace@),
            "index.sqlite.tmp-"@ + label@ + "-"@ + decimal(process as nat) + "-"@ + decimal(
                nanos as nat,
            ),
        ),
{
    let mut name = text::concat3("index.sqlite.tmp-", label, "-");
    name.append(decimal_u64(process as u64).as_str());
    name.append("-");
    name.append(decimal_u128(nanos).as_str());
    path::join(workspace.cache_dir().as_str(), name.as_str())
}

// Laws.

/// Whether memories stand in the order of their ids, each id once.
pub open spec fn in_order(memories: Seq<MemoryView>) -> bool {
    forall|i: int, j: int|
        0 <= i < j < memories.len() ==> text_less(
            (#[trigger] memories[i]).metadata.id,
            (#[trigger] memories[j]).metadata.id,
        )
}

proof fn lemma_inserted_in_order(memories: Seq<MemoryView>, memory: MemoryView)
    requires
        in_order(memories),
        forall|i: int|
            0 <= i < memories.len() ==> (#[trigger] memories[i]).metadata.id
                != memory.metadata.id,
    ensures
        in_order(order::inserted(memories, memory, by_id())),
        order::inserted(memories, memory, by_id()).len() == memories.len() + 1,
        forall|i: int|
            0 <= i < memories.len() + 1 ==> (memory == #[trigger] order::inserted(
                memories,
                memory,
                by_id(),
            )[i] || memories.contains(order::inserted(memories, memory, by_id())[i])),
    decreases memories.len(),
{
    let result = order::inserted(memories, memory, by_id());
    if memories.len() > 0 && by_id()(memory, memories.last()) {
        let rest = memories.drop_last();
        let last = memories.last();
        assert forall|i: int| 0 <= i < rest.len() implies (#[trigger] rest[i]).metadata.id
            != memory.metadata.id by {
            assert(rest[i] == memories[i]);
        }
        assert forall|i: int, j: int| 0 <= i < j < rest.len() implies text_less(
            (#[trigger] rest[i]).metadata.id,
            (#[trigger] rest[j]).metadata.id,
        ) by {
            assert(rest[i] == memories[i] && rest[j] == memories[j]);
        }
        lemma_inserted_in_order(rest, memory);
        let inner = order::inserted(rest, memory, by_id());
        assert forall|i: int| 0 <= i < inner.len() implies text_less(
            (#[trigger] inner[i]).metadata.id,
            last.metadata.id,
        ) by {
            if inner[i] != memory {
                let k = choose|k: int| 0 <= k < rest.len() && rest[k] == inner[i];
                assert(memories[k] == rest[k]);
                assert(memories[memories.len() - 1] == last);
            }
        }
        assert forall|i: int, j: int| 0 <= i < j < result.len() implies text_less(
            (#[trigger] result[i]).metadata.id,
            (#[trigger] result[j]).metadata.id,
        ) by {
            assert(result[i] == inner[i]);
            if j < inner.len() {
                assert(result[j] == inner[j]);
            }
        }
        assert forall|i: int| 0 <= i < result.len() implies (memory == #[trigger] result[i]
            || memories.contains(result[i])) by {
            if i < inner.len() {
                assert(result[i] == inner[i]);
                if inner[i] != memory {
                    let k = choose|k: int| 0 <= k < rest.len() && rest[k] == inner[i];
                    assert(memories[k] == result[i]);
                }
            } else {
                assert(memories[memories.len() - 1] == last);
            }
        }
    } else {
        assert(result == memories.push(memory));
        assert forall|i: int, j: int| 0 <= i < j < result.len() implies text_less(
            (#[trigger] result[i]).metadata.id,
            (#[trigger] result[j]).metadata.id,
        ) by {
            assert(result[i] == memories[i]);
            if j < memories.len() {
                assert(result[j] == memories[j]);
            } else {
                let last = memories.last();
                assert(memories[memories.len() - 1] == last);
                order::text_less_is_total(memory.metadata.id, last.metadata.id);
                if i < memories.len() - 1 {
                    order::text_less_is_transitive(
                        memories[i].metadata.id,
                        last.metadata.id,
                        memory.metadata.id,
                    );
                }
            }
        }
        assert forall|i: int| 0 <= i < result.len() implies (memory == #[trigger] result[i]
            || memories.contains(result[i])) by {
            if i < memories.len() {
                assert(memories[i] == result[i]);
            }
        }
    }
}

/// The indexed memories stand in the order of their ids, and no id twice.
pub proof fn indexed_ids_are_unique(files: Seq<MemoryFileView>)
    ensures
        in_order(selected(files).memories),
        crate::conflict_laws::distinct_ids(selected(files).memories),
    decreases files.len(),
{
    if files.len() > 0 {
        indexed_ids_are_unique(files.drop_last());
        let before = selected(files.drop_last());
        match files.last().content {
            FileContentView::Readable(memory) => {
                lemma_index_of_id(before.memories, memory.metadata.id);
                let at = index_of_id(before.memories, memory.metadata.id);
                if at >= before.memories.len() {
                    lemma_inserted_in_order(before.memories, memory);
                } else {
                    let after = selected(files).memories;
                    assert forall|i: int, j: int| 0 <= i < j < after.len() implies text_less(
                        (#[trigger] after[i]).metadata.id,
                        (#[trigger] after[j]).metadata.id,
                    ) by {
                        assert(after[i].metadata.id == before.memories[i].metadata.id);
                        assert(after[j].metadata.id == before.memories[j].metadata.id);
                    }
                }
            },
            _ => {},
        }
    }
    let all = selected(files).memories;
    assert forall|i: int, j: int| 0 <= i < j < all.len() implies (#[trigger] all[i]).metadata.id
        != (#[trigger] all[j]).metadata.id by {
        order::text_less_is_irreflexive(all[i].metadata.id);
    }
}

/// Every file is either indexed or diagnosed: each adds a memory or a
/// diagnostic.
pub proof fn every_file_counts(files: Seq<MemoryFileView>)
    ensures
        selected(files).memories.len() + selected(files).diagnostics.len() == files.len(),
    decreases files.len(),
{
    if files.len() > 0 {
        every_file_counts(files.drop_last());
        indexed_ids_are_unique(files.drop_last());
        let before = selected(files.drop_last());
        match files.last().content {
            FileContentView::Readable(memory) => {
                lemma_index_of_id(before.memories, memory.metadata.id);
                if index_of_id(before.memories, memory.metadata.id) >= before.memories.len() {
                    lemma_inserted_in_order(before.memories, memory);
                }
            },
            _ => {},
        }
    }
}

proof fn lemma_every_memory_is_read_or_not(
    memories: Seq<MemoryView>,
    table: Map<Seq<char>, Reading>,
)
    ensures
        extracted(memories, table).len() + extraction_problems(memories, table).len()
            == memories.len(),
    decreases memories.len(),
{
    if memories.len() > 0 {
        lemma_every_memory_is_read_or_not(memories.drop_last(), table);
    }
}

/// Where nothing is wrong, every file is indexed and every memory is read.
pub proof fn clean_vault_is_indexed_whole(
    files: Seq<MemoryFileView>,
    table: Map<Seq<char>, Reading>,
)
    requires
        planned(files, table).diagnostics.len() == 0,
    ensures
        planned(files, table).memories.len() == files.len(),
        planned(files, table).extractions.len() == files.len(),
{
    every_file_counts(files);
    lemma_every_memory_is_read_or_not(selected(files).memories, table);
}

} // verus!
