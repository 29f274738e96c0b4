//! Conflicts between memories: the same body twice, or facts that exclude each
//! other.

use vstd::prelude::*;
use vstd::string::*;

use crate::digest;
use crate::error::Error;
use crate::memory::{self, Memory, MemoryScope, MemoryStatus, MemoryView};
use crate::numeral::{decimal, decimal_usize};
use crate::order::{self, text_less, Grouped, Ranked};
use crate::semantic::{self, EntityView, ExtractionView, FactView, SemanticExtraction, SemanticFact};
use crate::text;

verus! {

/// What kind of conflict there is.
#[derive(Clone, Copy, Debug, PartialEq, Eq, Structural)]
pub enum ConflictKind {
    ExactActiveDuplicate,
    ExclusiveCurrent,
}

impl ConflictKind {
    pub open spec fn name(self) -> Seq<char> {
        match self {
            ConflictKind::ExactActiveDuplicate => "exact-active-duplicate"@,
            ConflictKind::ExclusiveCurrent => "exclusive-current-conflict"@,
        }
    }

    pub fn label(self) -> (label: &'static str)
        ensures
            label@ == self.name(),
    {
        match self {
            ConflictKind::ExactActiveDuplicate => "exact-active-duplicate",
            ConflictKind::ExclusiveCurrent => "exclusive-current-conflict",
        }
    }

    pub open spec fn of_name(value: Seq<char>) -> Result<ConflictKind, Seq<char>> {
        if value == "exact-active-duplicate"@ {
            Ok(ConflictKind::ExactActiveDuplicate)
        } else if value == "exclusive-current-conflict"@ {
            Ok(ConflictKind::ExclusiveCurrent)
        } else {
            Err("unknown semantic conflict kind "@ + text::quoted_form(value))
        }
    }

    pub fn from_label(value: &str) -> (parsed: Result<ConflictKind, Error>)
        ensures
            match parsed {
                Ok(parsed) => ConflictKind::of_name(value@) == Ok::<_, Seq<char>>(parsed),
                Err(error) => ConflictKind::of_name(value@) == Err::<ConflictKind, _>(error@),
            },
    {
        if text::same(value, "exact-active-duplicate") {
            Ok(ConflictKind::ExactActiveDuplicate)
        } else if text::same(value, "exclusive-current-conflict") {
            Ok(ConflictKind::ExclusiveCurrent)
        } else {
            Err(Error::new(text::concat2("unknown semantic conflict kind ", text::quoted(value).as_str())))
        }
    }
}

/// A label is read back.
pub proof fn conflict_kind_reads_back(value: ConflictKind)
    ensures
        ConflictKind::of_name(value.name()) == Ok::<_, Seq<char>>(value),
{
    reveal_strlit("exact-active-duplicate");
    reveal_strlit("exclusive-current-conflict");
    assert("exact-active-duplicate"@.len() != "exclusive-current-conflict"@.len());
}

/// Whether a conflict has been accepted.
#[derive(Clone, Copy, Debug, PartialEq, Eq, Structural)]
pub enum ConflictStatus {
    Open,
    Accepted,
    Reopened,
}

impl ConflictStatus {
    pub open spec fn name(self) -> Seq<char> {
        match self {
            ConflictStatus::Open => "open"@,
            ConflictStatus::Accepted => "accepted"@,
            ConflictStatus::Reopened => "reopened"@,
        }
    }

    pub fn label(self) -> (label: &'static str)
        ensures
            label@ == self.name(),
    {
        match self {
            ConflictStatus::Open => "open",
            ConflictStatus::Accepted => "accepted",
            ConflictStatus::Reopened => "reopened",
        }
    }

    pub open spec fn of_name(value: Seq<char>) -> Result<ConflictStatus, Seq<char>> {
        if value == "open"@ {
            Ok(ConflictStatus::Open)
        } else if value == "accepted"@ {
            Ok(ConflictStatus::Accepted)
        } else if value == "reopened"@ {
            Ok(ConflictStatus::Reopened)
        } else {
            Err("unknown semantic conflict status "@ + text::quoted_form(value))
        }
    }

    pub fn from_label(value: &str) -> (parsed: Result<ConflictStatus, Error>)
        ensures
            match parsed {
                Ok(parsed) => ConflictStatus::of_name(value@) == Ok::<_, Seq<char>>(parsed),
                Err(error) => ConflictStatus::of_name(value@) == Err::<ConflictStatus, _>(error@),
            },
    {
        if text::same(value, "open") {
            Ok(ConflictStatus::Open)
        } else if text::same(value, "accepted") {
            Ok(ConflictStatus::Accepted)
        } else if text::same(value, "reopened") {
            Ok(ConflictStatus::Reopened)
        } else {
            Err(Error::new(text::concat2("unknown semantic conflict status ", text::quoted(value).as_str())))
        }
    }
}

/// A label is read back.
pub proof fn conflict_status_reads_back(value: ConflictStatus)
    ensures
        ConflictStatus::of_name(value.name()) == Ok::<_, Seq<char>>(value),
{
    reveal_strlit("open");
    reveal_strlit("accepted");
    reveal_strlit("reopened");
    assert("open"@.len() != "accepted"@.len());
    assert("open"@.len() != "reopened"@.len());
    assert("accepted"@[0] != "reopened"@[0]);
}

/// The decision to live with a conflict.
#[derive(Debug, Eq, PartialEq)]
pub struct ConflictAcceptance {
    pub evidence_hash: String,
    pub accepted_at: String,
    pub reason: Option<String>,
}

#[verifier::ext_equal]
pub struct AcceptanceView {
    pub evidence_hash: Seq<char>,
    pub accepted_at: Seq<char>,
    pub reason: Option<Seq<char>>,
}

impl View for ConflictAcceptance {
    type V = AcceptanceView;

    open spec fn view(&self) -> AcceptanceView {
        AcceptanceView {
            evidence_hash: self.evidence_hash@,
            accepted_at: self.accepted_at@,
            reason: self.reason.deep_view(),
        }
    }
}

impl DeepView for ConflictAcceptance {
    type V = AcceptanceView;

    open spec fn deep_view(&self) -> AcceptanceView {
        self@
    }
}

impl Clone for ConflictAcceptance {
    fn clone(&self) -> (copy: Self)
        ensures
            copy@ == self@,
    {
        ConflictAcceptance {
            evidence_hash: self.evidence_hash.clone(),
            accepted_at: self.accepted_at.clone(),
            reason: text::clone_optional(&self.reason),
        }
    }
}

/// A decision that could not be read.
#[derive(Debug, Eq, PartialEq)]
pub struct DecisionDiagnostic {
    pub path: String,
    pub message: String,
}

#[verifier::ext_equal]
pub struct DiagnosticView {
    pub path: Seq<char>,
    pub message: Seq<char>,
}

impl View for DecisionDiagnostic {
    type V = DiagnosticView;

    open spec fn view(&self) -> DiagnosticView {
        DiagnosticView {
            path: self.path@,
            message: self.message@,
        }
    }
}

impl DeepView for DecisionDiagnostic {
    type V = DiagnosticView;

    open spec fn deep_view(&self) -> DiagnosticView {
        self@
    }
}

impl Clone for DecisionDiagnostic {
    fn clone(&self) -> (copy: Self)
        ensures
            copy@ == self@,
    {
        DecisionDiagnostic {
            path: self.path.clone(),
            message: self.message.clone(),
        }
    }
}

/// A fact as evidence of a conflict.
#[derive(Debug, Eq, PartialEq)]
pub struct ConflictFact {
    pub id: String,
    pub object_id: Option<String>,
    pub object_value: String,
    pub valid_from: Option<String>,
    pub valid_to: Option<String>,
    pub learned_at: String,
    pub expired_at: Option<String>,
    pub confidence: Option<String>,
    pub line_number: usize,
}

#[verifier::ext_equal]
pub struct ConflictFactView {
    pub id: Seq<char>,
    pub object_id: Option<Seq<char>>,
    pub object_value: Seq<char>,
    pub valid_from: Option<Seq<char>>,
    pub valid_to: Option<Seq<char>>,
    pub learned_at: Seq<char>,
    pub expired_at: Option<Seq<char>>,
    pub confidence: Option<Seq<char>>,
    pub line_number: nat,
}

impl View for ConflictFact {
    type V = ConflictFactView;

    open spec fn view(&self) -> ConflictFactView {
        ConflictFactView {
            id: self.id@,
            object_id: self.object_id.deep_view(),
            object_value: self.object_value@,
            valid_from: self.valid_from.deep_view(),
            valid_to: self.valid_to.deep_view(),
            learned_at: self.learned_at@,
            expired_at: self.expired_at.deep_view(),
            confidence: self.confidence.deep_view(),
            line_number: self.line_number as nat,
        }
    }
}

impl DeepView for ConflictFact {
    type V = ConflictFactView;

    open spec fn deep_view(&self) -> ConflictFactView {
        self@
    }
}

impl Clone for ConflictFact {
    fn clone(&self) -> (copy: Self)
        ensures
            copy@ == self@,
    {
        ConflictFact {
            id: self.id.clone(),
            object_id: text::clone_optional(&self.object_id),
            object_value: self.object_value.clone(),
            valid_from: text::clone_optional(&self.valid_from),
            valid_to: text::clone_optional(&self.valid_to),
            learned_at: self.learned_at.clone(),
            expired_at: text::clone_optional(&self.expired_at),
            confidence: text::clone_optional(&self.confidence),
            line_number: self.line_number,
        }
    }
}

/// A memory that takes part in a conflict.
#[derive(Debug, Eq, PartialEq)]
pub struct ConflictMember {
    pub memory_id: String,
    pub memory_path: String,
    pub memory_title: String,
    pub excerpt: String,
    pub fact: Option<ConflictFact>,
}

#[verifier::ext_equal]
pub struct MemberView {
    pub memory_id: Seq<char>,
    pub memory_path: Seq<char>,
    pub memory_title: Seq<char>,
    pub excerpt: Seq<char>,
    pub fact: Option<ConflictFactView>,
}

impl View for ConflictMember {
    type V = MemberView;

    open spec fn view(&self) -> MemberView {
        MemberView {
            memory_id: self.memory_id@,
            memory_path: self.memory_path@,
            memory_title: self.memory_title@,
            excerpt: self.excerpt@,
            fact: self.fact.deep_view(),
        }
    }
}

impl DeepView for ConflictMember {
    type V = MemberView;

    open spec fn deep_view(&self) -> MemberView {
        self@
    }
}

impl Clone for ConflictMember {
    fn clone(&self) -> (copy: Self)
        ensures
            copy@ == self@,
    {
        ConflictMember {
            memory_id: self.memory_id.clone(),
            memory_path: self.memory_path.clone(),
            memory_title: self.memory_title.clone(),
            excerpt: self.excerpt.clone(),
            fact: match &self.fact {
                Some(fact) => Some(fact.clone()),
                None => None,
            },
        }
    }
}

/// Memories, or facts of theirs, that contradict each other.
#[derive(Debug, Eq, PartialEq)]
pub struct Conflict {
    pub id: String,
    pub kind: ConflictKind,
    pub status: ConflictStatus,
    pub evidence_hash: String,
    pub acceptance: Option<ConflictAcceptance>,
    pub scope: MemoryScope,
    pub subject_id: Option<String>,
    pub subject: Option<String>,
    pub relation: Option<String>,
    pub members: Vec<ConflictMember>,
}

#[verifier::ext_equal]
pub struct ConflictView {
    pub id: Seq<char>,
    pub kind: ConflictKind,
    pub status: ConflictStatus,
    pub evidence_hash: Seq<char>,
    pub acceptance: Option<AcceptanceView>,
    pub scope: MemoryScope,
    pub subject_id: Option<Seq<char>>,
    pub subject: Option<Seq<char>>,
    pub relation: Option<Seq<char>>,
    pub members: Seq<MemberView>,
}

impl View for Conflict {
    type V = ConflictView;

    open spec fn view(&self) -> ConflictView {
        ConflictView {
            id: self.id@,
            kind: self.kind,
            status: self.status,
            evidence_hash: self.evidence_hash@,
            acceptance: self.acceptance.deep_view(),
            scope: self.scope,
            subject_id: self.subject_id.deep_view(),
            subject: self.subject.deep_view(),
            relation: self.relation.deep_view(),
            members: self.members.deep_view(),
        }
    }
}

impl DeepView for Conflict {
    type V = ConflictView;

    open spec fn deep_view(&self) -> ConflictView {
        self@
    }
}

fn clone_members(members: &Vec<ConflictMember>) -> (copies: Vec<ConflictMember>)
    ensures
        copies.deep_view() == members.deep_view(),
{
    let mut copies: Vec<ConflictMember> = Vec::new();
    let ghost all = members.deep_view();
    let mut i: usize = 0;
    while i < members.len()
        invariant
            i <= members.len(),
            all == members.deep_view(),
            copies.deep_view() == all.take(i as int),
        decreases members.len() - i,
    {
        let ghost before = copies.deep_view();
        copies.push(members[i].clone());
        assert(copies.deep_view() =~= before.push(members[i as int]@));
        assert(all.take(i + 1) =~= all.take(i as int).push(all[i as int]));
        i = i + 1;
    }
    assert(all.take(i as int) =~= all);
    copies
}

impl Clone for Conflict {
    fn clone(&self) -> (copy: Self)
        ensures
            copy@ == self@,
    {
        Conflict {
            id: self.id.clone(),
            kind: self.kind,
            status: self.status,
            evidence_hash: self.evidence_hash.clone(),
            acceptance: match &self.acceptance {
                Some(acceptance) => Some(acceptance.clone()),
                None => None,
            },
            scope: self.scope,
            subject_id: text::clone_optional(&self.subject_id),
            subject: text::clone_optional(&self.subject),
            relation: text::clone_optional(&self.relation),
            members: clone_members(&self.members),
        }
    }
}

// Evidence.

pub open spec fn fact_evidence(fact: ConflictFactView) -> Seq<char> {
    "\nfact:"@ + fact.id + "\nobject-id:"@ + semantic::or_empty(fact.object_id) + "\nobject:"@
        + fact.object_value + "\nfrom:"@ + semantic::or_empty(fact.valid_from) + "\nto:"@
        + semantic::or_empty(fact.valid_to) + "\nlearned:"@ + fact.learned_at + "\nexpired:"@
        + semantic::or_empty(fact.expired_at) + "\nconfidence:"@ + semantic::or_empty(
        fact.confidence,
    ) + "\nline:"@ + decimal(fact.line_number)
}

pub open spec fn member_evidence(member: MemberView) -> Seq<char> {
    let head = "\nmemory:"@ + member.memory_id;
    match member.fact {
        Some(fact) => head + fact_evidence(fact),
        None => head,
    }
}

pub open spec fn members_evidence(members: Seq<MemberView>) -> Seq<char>
    decreases members.len(),
{
    if members.len() == 0 {
        seq![]
    } else {
        members_evidence(members.drop_last()) + member_evidence(members.last())
    }
}

/// Everything that an acceptance of a conflict rests on.
pub open spec fn evidence_of(conflict: ConflictView) -> Seq<char> {
    conflict.id + "\n"@ + conflict.kind.name() + "\n"@ + conflict.scope.name() + "\n"@
        + semantic::or_empty(conflict.subject_id) + "\n"@ + semantic::or_empty(conflict.relation)
        + members_evidence(conflict.members)
}

pub open spec fn evidence_hash_of(conflict: ConflictView) -> Seq<char> {
    digest::id_of("evidence"@, evidence_of(conflict))
}

fn describe_fact(fact: &ConflictFact) -> (evidence: String)
    ensures
        evidence@ == fact_evidence(fact@),
{
    let mut evidence = "\nfact:".to_owned();
    evidence.append(fact.id.as_str());
    evidence.append("\nobject-id:");
    evidence.append(semantic::text_or_empty(&fact.object_id));
    evidence.append("\nobject:");
    evidence.append(fact.object_value.as_str());
    evidence.append("\nfrom:");
    evidence.append(semantic::text_or_empty(&fact.valid_from));
    evidence.append("\nto:");
    evidence.append(semantic::text_or_empty(&fact.valid_to));
    evidence.append("\nlearned:");
    evidence.append(fact.learned_at.as_str());
    evidence.append("\nexpired:");
    evidence.append(semantic::text_or_empty(&fact.expired_at));
    evidence.append("\nconfidence:");
    evidence.append(semantic::text_or_empty(&fact.confidence));
    evidence.append("\nline:");
    evidence.append(decimal_usize(fact.line_number).as_str());
    evidence
}

fn describe_member(member: &ConflictMember) -> (evidence: String)
    ensures
        evidence@ == member_evidence(member@),
{
    let mut evidence = text::concat2("\nmemory:", member.memory_id.as_str());
    if let Some(fact) = &member.fact {
        evidence.append(describe_fact(fact).as_str());
    }
    evidence
}

/// The hash of everything that an acceptance of a conflict rests on.
pub fn evidence_hash(conflict: &Conflict) -> (hash: String)
    ensures
        hash@ == evidence_hash_of(conflict@),
{
    let mut evidence = conflict.id.clone();
    evidence.append("\n");
    evidence.append(conflict.kind.label());
    evidence.append("\n");
    evidence.append(conflict.scope.label());
    evidence.append("\n");
    evidence.append(semantic::text_or_empty(&conflict.subject_id));
    evidence.append("\n");
    evidence.append(semantic::text_or_empty(&conflict.relation));
    let ghost head = evidence@;
    let ghost all = conflict@.members;
    let mut i: usize = 0;
    assert(all.take(0) =~= seq![]);
    assert(head + members_evidence(all.take(0)) =~= head);
    while i < conflict.members.len()
        invariant
            i <= conflict.members.len(),
            all == conflict@.members,
            evidence@ == head + members_evidence(all.take(i as int)),
        decreases conflict.members.len() - i,
    {
        let member = &conflict.members[i];
        assert(all.take(i + 1).drop_last() =~= all.take(i as int));
        assert(all.take(i + 1).last() == member@);
        let ghost before = evidence@;
        evidence.append(describe_member(member).as_str());
        assert(evidence@ == before + member_evidence(member@));
        assert(evidence@ =~= head + members_evidence(all.take(i + 1)));
        i = i + 1;
    }
    assert(all.take(i as int) =~= all);
    digest::stable_id("evidence", evidence.as_str())
}

/// A conflict that nobody has decided about.
pub open spec fn opened(
    id: Seq<char>,
    kind: ConflictKind,
    scope: MemoryScope,
    subject_id: Option<Seq<char>>,
    subject: Option<Seq<char>>,
    relation: Option<Seq<char>>,
    members: Seq<MemberView>,
) -> ConflictView {
    let bare = ConflictView {
        id,
        kind,
        status: ConflictStatus::Open,
        evidence_hash: seq![],
        acceptance: None,
        scope,
        subject_id,
        subject,
        relation,
        members,
    };
    ConflictView { evidence_hash: evidence_hash_of(bare), ..bare }
}

fn open_conflict(
    id: String,
    kind: ConflictKind,
    scope: MemoryScope,
    subject_id: Option<String>,
    subject: Option<String>,
    relation: Option<String>,
    members: Vec<ConflictMember>,
) -> (conflict: Conflict)
    ensures
        conflict@ == opened(
            id@,
            kind,
            scope,
            subject_id.deep_view(),
            subject.deep_view(),
            relation.deep_view(),
            members.deep_view(),
        ),
{
    let mut conflict = Conflict {
        id,
        kind,
        status: ConflictStatus::Open,
        evidence_hash: String::new(),
        acceptance: None,
        scope,
        subject_id,
        subject,
        relation,
        members,
    };
    assert(conflict@.evidence_hash =~= seq![]);
    conflict.evidence_hash = evidence_hash(&conflict);
    conflict
}

/// The path of a memory, or its id in its place.
pub open spec fn path_label_of(memory: MemoryView) -> Seq<char> {
    match memory.path {
        Some(path) => path,
        None => "<memory:"@ + memory.metadata.id + ">"@,
    }
}

pub fn memory_path_label(memory: &Memory) -> (label: String)
    ensures
        label@ == path_label_of(memory@),
{
    match &memory.path {
        Some(path) => path.clone(),
        None => text::concat3("<memory:", memory.metadata.id.as_str(), ">"),
    }
}

pub open spec fn member_of(
    memory: MemoryView,
    fact: Option<ConflictFactView>,
    excerpt: Seq<char>,
) -> MemberView {
    MemberView {
        memory_id: memory.metadata.id,
        memory_path: path_label_of(memory),
        memory_title: memory::title_of(memory),
        excerpt,
        fact,
    }
}

fn memory_member(memory: &Memory, fact: Option<ConflictFact>, excerpt: String) -> (
    member: ConflictMember)
    ensures
        member@ == member_of(memory@, fact.deep_view(), excerpt@),
{
    ConflictMember {
        memory_id: memory.metadata.id.clone(),
        memory_path: memory_path_label(memory),
        memory_title: memory.title(),
        excerpt,
        fact,
    }
}

pub open spec fn conflict_fact_of(fact: FactView) -> ConflictFactView {
    ConflictFactView {
        id: fact.id,
        object_id: fact.object_id,
        object_value: fact.object_value,
        valid_from: fact.valid_from,
        valid_to: fact.valid_to,
        learned_at: fact.learned_at,
        expired_at: fact.expired_at,
        confidence: fact.confidence,
        line_number: fact.line_number,
    }
}

fn conflict_fact(fact: &SemanticFact) -> (result: ConflictFact)
    ensures
        result@ == conflict_fact_of(fact@),
{
    ConflictFact {
        id: fact.id.clone(),
        object_id: text::clone_optional(&fact.object_id),
        object_value: fact.object_value.clone(),
        valid_from: text::clone_optional(&fact.valid_from),
        valid_to: text::clone_optional(&fact.valid_to),
        learned_at: fact.learned_at.clone(),
        expired_at: text::clone_optional(&fact.expired_at),
        confidence: text::clone_optional(&fact.confidence),
        line_number: fact.line_number,
    }
}

// Duplicates.

/// An active memory, by what it says.
#[derive(Debug)]
pub struct ContentEntry {
    pub scope: MemoryScope,
    pub content: String,
    pub member: ConflictMember,
}

#[verifier::ext_equal]
pub struct ContentView {
    pub scope: MemoryScope,
    pub content: Seq<char>,
    pub member: MemberView,
}

impl DeepView for ContentEntry {
    type V = ContentView;

    open spec fn deep_view(&self) -> ContentView {
        ContentView { scope: self.scope, content: self.content@, member: self.member@ }
    }
}

/// By scope, then by content, then by id.
pub open spec fn content_before(left: ContentView, right: ContentView) -> bool {
    if left.scope != right.scope {
        text_less(left.scope.name(), right.scope.name())
    } else if left.content != right.content {
        text_less(left.content, right.content)
    } else {
        text_less(left.member.memory_id, right.member.memory_id)
    }
}

impl Ranked for ContentEntry {
    open spec fn ranks_before(left: ContentView, right: ContentView) -> bool {
        content_before(left, right)
    }

    fn is_before(&self, other: &Self) -> (before: bool) {
        if self.scope != other.scope {
            order::is_less(self.scope.label(), other.scope.label())
        } else if self.content != other.content {
            order::is_less(self.content.as_str(), other.content.as_str())
        } else {
            order::is_less(self.member.memory_id.as_str(), other.member.memory_id.as_str())
        }
    }
}

impl Grouped for ContentEntry {
    open spec fn together(left: ContentView, right: ContentView) -> bool {
        left.scope == right.scope && left.content == right.content
    }

    open spec fn same_entry(left: ContentView, right: ContentView) -> bool {
        left.member.memory_id == right.member.memory_id
    }

    fn is_together(&self, other: &Self) -> (together: bool) {
        self.scope == other.scope && self.content == other.content
    }

    fn is_same_entry(&self, other: &Self) -> (same: bool) {
        self.member.memory_id == other.member.memory_id
    }
}

/// The active memories, by what they say.
pub open spec fn content_entries(memories: Seq<MemoryView>) -> Seq<ContentView>
    decreases memories.len(),
{
    if memories.len() == 0 {
        seq![]
    } else {
        let before = content_entries(memories.drop_last());
        let memory = memories.last();
        if memory.metadata.status == MemoryStatus::Active {
            before.push(
                ContentView {
                    scope: memory.metadata.scope,
                    content: memory::canonical(memory.body),
                    member: member_of(memory, None, semantic::excerpt_of(memory.body)),
                },
            )
        } else {
            before
        }
    }
}

pub open spec fn content_members(group: Seq<ContentView>) -> Seq<MemberView> {
    group.map_values(|entry: ContentView| entry.member)
}

pub open spec fn duplicate_id(scope: MemoryScope, content: Seq<char>) -> Seq<char> {
    digest::id_of(
        "conflict"@,
        "exact-active-duplicate\n"@ + scope.name() + "\n"@ + content,
    )
}

/// The conflict of the memories that say the same in one scope.
pub open spec fn duplicate_conflict(group: Seq<ContentView>) -> ConflictView {
    opened(
        duplicate_id(group[0].scope, group[0].content),
        ConflictKind::ExactActiveDuplicate,
        group[0].scope,
        None,
        None,
        None,
        content_members(group),
    )
}

pub open spec fn duplicate_conflicts(groups: Seq<Seq<ContentView>>) -> Seq<ConflictView>
    decreases groups.len(),
{
    if groups.len() == 0 {
        seq![]
    } else {
        let before = duplicate_conflicts(groups.drop_last());
        if groups.last().len() < 2 {
            before
        } else {
            before.push(duplicate_conflict(groups.last()))
        }
    }
}

/// The groups of active memories that say the same in one scope.
pub open spec fn content_groups(memories: Seq<MemoryView>) -> Seq<Seq<ContentView>> {
    order::grouped::<ContentEntry>(content_entries(memories))
}

/// The duplicates among the active memories.
pub open spec fn duplicates_of(memories: Seq<MemoryView>) -> Seq<ConflictView> {
    duplicate_conflicts(content_groups(memories))
}

fn content_member_list(group: &Vec<ContentEntry>) -> (members: Vec<ConflictMember>)
    ensures
        members.deep_view() == content_members(group.deep_view()),
{
    let mut members: Vec<ConflictMember> = Vec::new();
    let ghost all = content_members(group.deep_view());
    let mut i: usize = 0;
    while i < group.len()
        invariant
            i <= group.len(),
            all == content_members(group.deep_view()),
            members.deep_view() == all.take(i as int),
        decreases group.len() - i,
    {
        let ghost before = members.deep_view();
        members.push(group[i].member.clone());
        assert(group.deep_view()[i as int] == group[i as int].deep_view());
        assert(members.deep_view() =~= before.push(group[i as int].member@));
        assert(all.take(i + 1) =~= all.take(i as int).push(all[i as int]));
        i = i + 1;
    }
    assert(all.take(i as int) =~= all);
    members
}

/// Finds the active memories that say the same in one scope.
pub fn exact_active_duplicates(memories: &Vec<Memory>) -> (conflicts: Vec<Conflict>)
    ensures
        conflicts.deep_view() == duplicates_of(memories.deep_view()),
{
    let ghost all = memories.deep_view();
    let mut entries: Vec<ContentEntry> = Vec::new();
    let mut i: usize = 0;
    assert(all.take(0) =~= seq![]);
    assert(entries.deep_view() =~= seq![]);
    while i < memories.len()
        invariant
            i <= memories.len(),
            all == memories.deep_view(),
            entries.deep_view() == content_entries(all.take(i as int)),
        decreases memories.len() - i,
    {
        let memory = &memories[i];
        assert(all.take(i + 1).drop_last() =~= all.take(i as int));
        assert(all.take(i + 1).last() == memory@);
        if memory.metadata.status == MemoryStatus::Active {
            let ghost before = entries.deep_view();
            let entry = ContentEntry {
                scope: memory.metadata.scope,
                content: memory::canonical_body(memory.body.as_str()),
                member: memory_member(memory, None, semantic::excerpt(memory.body.as_str())),
            };
            let ghost added = entry.deep_view();
            entries.push(entry);
            assert(entries.deep_view() =~= before.push(added));
        }
        i = i + 1;
    }
    assert(all.take(i as int) =~= all);
    let groups = order::group(entries);
    let ghost grouped = groups.deep_view();
    let mut conflicts: Vec<Conflict> = Vec::new();
    let mut k: usize = 0;
    assert(grouped.take(0) =~= seq![]);
    assert(conflicts.deep_view() =~= seq![]);
    while k < groups.len()
        invariant
            k <= groups.len(),
            grouped == groups.deep_view(),
            conflicts.deep_view() == duplicate_conflicts(grouped.take(k as int)),
        decreases groups.len() - k,
    {
        let group = &groups[k];
        assert(grouped.take(k + 1).drop_last() =~= grouped.take(k as int));
        assert(grouped.take(k + 1).last() == group.deep_view());
        if group.len() >= 2 {
            let first = &group[0];
            assert(group.deep_view()[0] == first.deep_view());
            let key = text::concat4(
                "exact-active-duplicate\n",
                first.scope.label(),
                "\n",
                first.content.as_str(),
            );
            let conflict = open_conflict(
                digest::stable_id("conflict", key.as_str()),
                ConflictKind::ExactActiveDuplicate,
                first.scope,
                None,
                None,
                None,
                content_member_list(group),
            );
            let ghost before = conflicts.deep_view();
            let ghost added = conflict@;
            conflicts.push(conflict);
            assert(conflicts.deep_view() =~= before.push(added));
        }
        k = k + 1;
    }
    assert(grouped.take(k as int) =~= grouped);
    conflicts
}

// Facts that exclude each other.

/// A fact that holds, of a relation that admits one object at a time.
#[derive(Debug)]
pub struct ExclusiveEntry {
    pub scope: MemoryScope,
    pub subject_name: Option<String>,
    pub member: ConflictMember,
    pub fact: SemanticFact,
}

#[verifier::ext_equal]
pub struct ExclusiveView {
    pub scope: MemoryScope,
    pub subject_name: Option<Seq<char>>,
    pub member: MemberView,
    pub fact: FactView,
}

impl DeepView for ExclusiveEntry {
    type V = ExclusiveView;

    open spec fn deep_view(&self) -> ExclusiveView {
        ExclusiveView {
            scope: self.scope,
            subject_name: self.subject_name.deep_view(),
            member: self.member@,
            fact: self.fact@,
        }
    }
}

/// By scope, subject and relation, then by memory and fact.
pub open spec fn exclusive_before(left: ExclusiveView, right: ExclusiveView) -> bool {
    if left.scope != right.scope {
        text_less(left.scope.name(), right.scope.name())
    } else if left.fact.subject_id != right.fact.subject_id {
        text_less(left.fact.subject_id, right.fact.subject_id)
    } else if left.fact.relation != right.fact.relation {
        text_less(left.fact.relation, right.fact.relation)
    } else if left.member.memory_id != right.member.memory_id {
        text_less(left.member.memory_id, right.member.memory_id)
    } else {
        text_less(left.fact.id, right.fact.id)
    }
}

impl Ranked for ExclusiveEntry {
    open spec fn ranks_before(left: ExclusiveView, right: ExclusiveView) -> bool {
        exclusive_before(left, right)
    }

    fn is_before(&self, other: &Self) -> (before: bool) {
        if self.scope != other.scope {
            order::is_less(self.scope.label(), other.scope.label())
        } else if self.fact.subject_id != other.fact.subject_id {
            order::is_less(self.fact.subject_id.as_str(), other.fact.subject_id.as_str())
        } else if self.fact.relation != other.fact.relation {
            order::is_less(self.fact.relation.as_str(), other.fact.relation.as_str())
        } else if self.member.memory_id != other.member.memory_id {
            order::is_less(self.member.memory_id.as_str(), other.member.memory_id.as_str())
        } else {
            order::is_less(self.fact.id.as_str(), other.fact.id.as_str())
        }
    }
}

impl Grouped for ExclusiveEntry {
    open spec fn together(left: ExclusiveView, right: ExclusiveView) -> bool {
        left.scope == right.scope && left.fact.subject_id == right.fact.subject_id
            && left.fact.relation == right.fact.relation
    }

    open spec fn same_entry(left: ExclusiveView, right: ExclusiveView) -> bool {
        left.member.memory_id == right.member.memory_id && left.fact.id == right.fact.id
    }

    fn is_together(&self, other: &Self) -> (together: bool) {
        self.scope == other.scope && self.fact.subject_id == other.fact.subject_id
            && self.fact.relation == other.fact.relation
    }

    fn is_same_entry(&self, other: &Self) -> (same: bool) {
        self.member.memory_id == other.member.memory_id && self.fact.id == other.fact.id
    }
}

/// The name of the entity with that id.
pub open spec fn entity_name(entities: Seq<EntityView>, id: Seq<char>) -> Option<Seq<char>>
    decreases entities.len(),
{
    if entities.len() == 0 {
        None
    } else if entities[0].id == id {
        Some(entities[0].canonical_name)
    } else {
        entity_name(entities.drop_first(), id)
    }
}

pub fn find_entity_name(extraction: &SemanticExtraction, id: &str) -> (name: Option<String>)
    ensures
        name.deep_view() == entity_name(extraction@.entities, id@),
{
    let ghost all = extraction@.entities;
    let mut i: usize = 0;
    assert(all.skip(0) =~= all);
    while i < extraction.entities.len()
        invariant
            i <= extraction.entities.len(),
            all == extraction@.entities,
            entity_name(all, id@) == entity_name(all.skip(i as int), id@),
        decreases extraction.entities.len() - i,
    {
        assert(all.skip(i as int)[0] == extraction.entities[i as int]@);
        if text::same(extraction.entities[i].id.as_str(), id) {
            return Some(extraction.entities[i].canonical_name.clone());
        }
        assert(all.skip(i as int).drop_first() =~= all.skip(i + 1));
        i = i + 1;
    }
    None
}

/// The extraction that is kept for a memory.
pub open spec fn extraction_for(extractions: Seq<(Seq<char>, ExtractionView)>, id: Seq<char>) -> Option<
    ExtractionView,
>
    decreases extractions.len(),
{
    if extractions.len() == 0 {
        None
    } else if extractions.last().0 == id {
        Some(extractions.last().1)
    } else {
        extraction_for(extractions.drop_last(), id)
    }
}

pub open spec fn keyed_views(extractions: Seq<(String, SemanticExtraction)>) -> Seq<
    (Seq<char>, ExtractionView),
> {
    extractions.map_values(|entry: (String, SemanticExtraction)| (entry.0@, entry.1@))
}

fn find_extraction<'a>(extractions: &'a Vec<(String, SemanticExtraction)>, id: &str) -> (
    found: Option<&'a SemanticExtraction>)
    ensures
        match found {
            Some(found) => extraction_for(keyed_views(extractions@), id@) == Some(found@),
            None => extraction_for(keyed_views(extractions@), id@) is None,
        },
{
    let ghost all = keyed_views(extractions@);
    let mut i: usize = extractions.len();
    assert(all.take(i as int) =~= all);
    while i > 0
        invariant
            i <= extractions.len(),
            all == keyed_views(extractions@),
            extraction_for(all, id@) == extraction_for(all.take(i as int), id@),
        decreases i,
    {
        assert(all.take(i as int).last() == (extractions[i - 1].0@, extractions[i - 1].1@));
        assert(all.take(i as int).drop_last() =~= all.take(i - 1));
        if text::same(extractions[i - 1].0.as_str(), id) {
            return Some(&extractions[i - 1].1);
        }
        i = i - 1;
    }
    None
}

pub open spec fn provenance_problem(memory_id: Seq<char>, fact: FactView) -> Seq<char> {
    "semantic fact "@ + fact.id + " belongs to memory "@ + fact.source_memory_id + ", not "@
        + memory_id
}

/// What a fact of a memory is, if it can exclude others.
pub open spec fn exclusive_entry(
    memory: MemoryView,
    extraction: ExtractionView,
    fact: FactView,
) -> ExclusiveView {
    ExclusiveView {
        scope: memory.metadata.scope,
        subject_name: entity_name(extraction.entities, fact.subject_id),
        member: member_of(memory, Some(conflict_fact_of(fact)), extraction.episode.excerpt),
        fact,
    }
}

/// The facts of one memory that hold and can exclude others.
pub open spec fn memory_entries(
    memory: MemoryView,
    extraction: ExtractionView,
    facts: Seq<FactView>,
    at: int,
) -> Result<Seq<ExclusiveView>, Seq<char>>
    decreases facts.len(),
{
    if facts.len() == 0 {
        Ok(seq![])
    } else {
        match memory_entries(memory, extraction, facts.drop_last(), at) {
            Err(message) => Err(message),
            Ok(entries) => {
                let fact = facts.last();
                if fact.source_memory_id != memory.metadata.id {
                    Err(provenance_problem(memory.metadata.id, fact))
                } else if !semantic::is_exclusive(fact.relation) {
                    Ok(entries)
                } else {
                    match semantic::fact_holds(fact, at) {
                        Err(message) => Err(message),
                        Ok(true) => Ok(entries.push(exclusive_entry(memory, extraction, fact))),
                        Ok(false) => Ok(entries),
                    }
                }
            },
        }
    }
}

/// The facts of all active memories that hold and can exclude others.
pub open spec fn exclusive_entries(
    memories: Seq<MemoryView>,
    extractions: Seq<(Seq<char>, ExtractionView)>,
    at: int,
) -> Result<Seq<ExclusiveView>, Seq<char>>
    decreases memories.len(),
{
    if memories.len() == 0 {
        Ok(seq![])
    } else {
        match exclusive_entries(memories.drop_last(), extractions, at) {
            Err(message) => Err(message),
            Ok(entries) => {
                let memory = memories.last();
                let extraction = extraction_for(extractions, memory.metadata.id);
                if memory.metadata.status != MemoryStatus::Active || extraction is None {
                    Ok(entries)
                } else {
                    match memory_entries(
                        memory,
                        extraction->Some_0,
                        extraction->Some_0.facts,
                        at,
                    ) {
                        Err(message) => Err(message),
                        Ok(found) => Ok(entries + found),
                    }
                }
            },
        }
    }
}

proof fn lemma_memory_entries_prefix(
    memory: MemoryView,
    extraction: ExtractionView,
    facts: Seq<FactView>,
    at: int,
    n: int,
)
    requires
        0 <= n <= facts.len(),
    ensures
        memory_entries(memory, extraction, facts.take(n), at) is Err ==> memory_entries(
            memory,
            extraction,
            facts,
            at,
        ) == memory_entries(memory, extraction, facts.take(n), at),
    decreases facts.len(),
{
    if n == facts.len() {
        assert(facts.take(n) =~= facts);
    } else {
        lemma_memory_entries_prefix(memory, extraction, facts.drop_last(), at, n);
        assert(facts.drop_last().take(n) =~= facts.take(n));
    }
}

proof fn lemma_exclusive_entries_prefix(
    memories: Seq<MemoryView>,
    extractions: Seq<(Seq<char>, ExtractionView)>,
    at: int,
    n: int,
)
    requires
        0 <= n <= memories.len(),
    ensures
        exclusive_entries(memories.take(n), extractions, at) is Err ==> exclusive_entries(
            memories,
            extractions,
            at,
        ) == exclusive_entries(memories.take(n), extractions, at),
    decreases memories.len(),
{
    if n == memories.len() {
        assert(memories.take(n) =~= memories);
    } else {
        lemma_exclusive_entries_prefix(memories.drop_last(), extractions, at, n);
        assert(memories.drop_last().take(n) =~= memories.take(n));
    }
}

#[verifier::loop_isolation(false)]
fn collect_memory_entries(memory: &Memory, extraction: &SemanticExtraction, at: i64) -> (
    entries: Result<Vec<ExclusiveEntry>, Error>)
    ensures
        match entries {
            Ok(entries) => memory_entries(memory@, extraction@, extraction@.facts, at as int)
                == Ok::<_, Seq<char>>(entries.deep_view()),
            Err(error) => memory_entries(memory@, extraction@, extraction@.facts, at as int)
                == Err::<Seq<ExclusiveView>, _>(error@),
        },
{
    let ghost facts = extraction@.facts;
    let mut entries: Vec<ExclusiveEntry> = Vec::new();
    let mut i: usize = 0;
    assert(facts.take(0) =~= seq![]);
    assert(entries.deep_view() =~= seq![]);
    while i < extraction.facts.len()
        invariant
            i <= extraction.facts.len(),
            memory_entries(memory@, extraction@, facts.take(i as int), at as int) == Ok::<
                _,
                Seq<char>,
            >(entries.deep_view()),
        decreases extraction.facts.len() - i,
    {
        let fact = &extraction.facts[i];
        proof {
            assert(facts.take(i + 1).drop_last() =~= facts.take(i as int));
            assert(facts.take(i + 1).last() == fact@);
            lemma_memory_entries_prefix(memory@, extraction@, facts, at as int, i + 1);
        }
        i = i + 1;
        if fact.source_memory_id != memory.metadata.id {
            let mut message = text::concat4(
                "semantic fact ",
                fact.id.as_str(),
                " belongs to memory ",
                fact.source_memory_id.as_str(),
            );
            message.append(", not ");
            message.append(memory.metadata.id.as_str());
            return Err(Error::new(message));
        }
        if !semantic::relation_is_exclusive_current(fact.relation.as_str()) {
            continue;
        }
        if !semantic::semantic_fact_is_valid_at(fact, at)? {
            continue;
        }
        let entry = ExclusiveEntry {
            scope: memory.metadata.scope,
            subject_name: find_entity_name(extraction, fact.subject_id.as_str()),
            member: memory_member(
                memory,
                Some(conflict_fact(fact)),
                extraction.episode.excerpt.clone(),
            ),
            fact: fact.clone(),
        };
        let ghost before = entries.deep_view();
        let ghost added = entry.deep_view();
        entries.push(entry);
        assert(entries.deep_view() =~= before.push(added));
        assert(added =~= exclusive_entry(memory@, extraction@, fact@));
    }
    assert(facts.take(i as int) =~= facts);
    Ok(entries)
}

#[verifier::loop_isolation(false)]
fn collect_exclusive_entries(
    memories: &Vec<Memory>,
    extractions: &Vec<(String, SemanticExtraction)>,
    at: i64,
) -> (entries: Result<Vec<ExclusiveEntry>, Error>)
    ensures
        match entries {
            Ok(entries) => exclusive_entries(
                memories.deep_view(),
                keyed_views(extractions@),
                at as int,
            ) == Ok::<_, Seq<char>>(entries.deep_view()),
            Err(error) => exclusive_entries(
                memories.deep_view(),
                keyed_views(extractions@),
                at as int,
            ) == Err::<Seq<ExclusiveView>, _>(error@),
        },
{
    let ghost all = memories.deep_view();
    let ghost kept = keyed_views(extractions@);
    let mut entries: Vec<ExclusiveEntry> = Vec::new();
    let mut i: usize = 0;
    assert(all.take(0) =~= seq![]);
    assert(entries.deep_view() =~= seq![]);
    while i < memories.len()
        invariant
            i <= memories.len(),
            exclusive_entries(all.take(i as int), kept, at as int) == Ok::<_, Seq<char>>(
                entries.deep_view(),
            ),
        decreases memories.len() - i,
    {
        let memory = &memories[i];
        proof {
            assert(all.take(i + 1).drop_last() =~= all.take(i as int));
            assert(all.take(i + 1).last() == memory@);
            lemma_exclusive_entries_prefix(all, kept, at as int, i + 1);
        }
        i = i + 1;
        if memory.metadata.status != MemoryStatus::Active {
            continue;
        }
        if let Some(extraction) = find_extraction(extractions, memory.metadata.id.as_str()) {
            let mut found = collect_memory_entries(memory, extraction, at)?;
            let ghost before = entries.deep_view();
            let ghost added = found.deep_view();
            entries.append(&mut found);
            assert(entries.deep_view() =~= before + added);
        }
    }
    assert(all.take(i as int) =~= all);
    Ok(entries)
}

/// Whether all facts of a group say the same.
pub open spec fn all_agree(group: Seq<ExclusiveView>) -> bool {
    forall|i: int|
        1 <= i < group.len() ==> semantic::same_fact_object(group[0].fact, (#[trigger] group[i]).fact)
}

/// The first of the names of the subject, in order.
pub open spec fn least_name(group: Seq<ExclusiveView>) -> Option<Seq<char>>
    decreases group.len(),
{
    if group.len() == 0 {
        None
    } else {
        match (least_name(group.drop_last()), group.last().subject_name) {
            (None, name) => name,
            (Some(least), None) => Some(least),
            (Some(least), Some(name)) => if text_less(name, least) {
                Some(name)
            } else {
                Some(least)
            },
        }
    }
}

pub open spec fn exclusive_members(group: Seq<ExclusiveView>) -> Seq<MemberView> {
    group.map_values(|entry: ExclusiveView| entry.member)
}

pub open spec fn exclusive_id(scope: MemoryScope, subject_id: Seq<char>, relation: Seq<char>) -> Seq<
    char,
> {
    digest::id_of(
        "conflict"@,
        "exclusive-current-conflict\n"@ + scope.name() + "\n"@ + subject_id + "\n"@ + relation,
    )
}

/// The conflict of the facts that exclude each other.
pub open spec fn exclusive_conflict(group: Seq<ExclusiveView>) -> ConflictView {
    let first = group[0];
    opened(
        exclusive_id(first.scope, first.fact.subject_id, first.fact.relation),
        ConflictKind::ExclusiveCurrent,
        first.scope,
        Some(first.fact.subject_id),
        Some(
            match least_name(group) {
                Some(name) => name,
                None => first.fact.subject_id,
            },
        ),
        Some(first.fact.relation),
        exclusive_members(group),
    )
}

pub open spec fn exclusive_conflicts(groups: Seq<Seq<ExclusiveView>>) -> Seq<ConflictView>
    decreases groups.len(),
{
    if groups.len() == 0 {
        seq![]
    } else {
        let before = exclusive_conflicts(groups.drop_last());
        if groups.last().len() < 2 || all_agree(groups.last()) {
            before
        } else {
            before.push(exclusive_conflict(groups.last()))
        }
    }
}

/// The facts of active memories that exclude each other at a time.
pub open spec fn exclusives_of(
    memories: Seq<MemoryView>,
    extractions: Seq<(Seq<char>, ExtractionView)>,
    at: int,
) -> Result<Seq<ConflictView>, Seq<char>> {
    match exclusive_entries(memories, extractions, at) {
        Err(message) => Err(message),
        Ok(entries) => Ok(exclusive_conflicts(order::grouped::<ExclusiveEntry>(entries))),
    }
}

fn agrees_throughout(group: &Vec<ExclusiveEntry>) -> (agrees: bool)
    requires
        group.len() > 0,
    ensures
        agrees == all_agree(group.deep_view()),
{
    let ghost all = group.deep_view();
    let mut i: usize = 1;
    assert(all[0] == group[0].deep_view());
    while i < group.len()
        invariant
            1 <= i <= group.len(),
            all == group.deep_view(),
            all[0] == group[0].deep_view(),
            forall|k: int|
                1 <= k < i ==> semantic::same_fact_object(all[0].fact, (#[trigger] all[k]).fact),
        decreases group.len() - i,
    {
        assert(all[i as int] == group[i as int].deep_view());
        if !semantic::semantic_objects_match(&group[0].fact, &group[i].fact) {
            return false;
        }
        i = i + 1;
    }
    true
}

fn smallest_name(group: &Vec<ExclusiveEntry>) -> (name: Option<String>)
    ensures
        name.deep_view() == least_name(group.deep_view()),
{
    let ghost all = group.deep_view();
    let mut least: Option<String> = None;
    let mut i: usize = 0;
    assert(all.take(0) =~= seq![]);
    while i < group.len()
        invariant
            i <= group.len(),
            all == group.deep_view(),
            least.deep_view() == least_name(all.take(i as int)),
        decreases group.len() - i,
    {
        assert(all.take(i + 1).drop_last() =~= all.take(i as int));
        assert(all.take(i + 1).last() == group[i as int].deep_view());
        if let Some(name) = &group[i].subject_name {
            let smaller = match &least {
                None => true,
                Some(least) => order::is_less(name.as_str(), least.as_str()),
            };
            if smaller {
                least = Some(name.clone());
            }
        }
        i = i + 1;
    }
    assert(all.take(i as int) =~= all);
    least
}

fn exclusive_member_list(group: &Vec<ExclusiveEntry>) -> (members: Vec<ConflictMember>)
    ensures
        members.deep_view() == exclusive_members(group.deep_view()),
{
    let mut members: Vec<ConflictMember> = Vec::new();
    let ghost all = exclusive_members(group.deep_view());
    let mut i: usize = 0;
    while i < group.len()
        invariant
            i <= group.len(),
            all == exclusive_members(group.deep_view()),
            members.deep_view() == all.take(i as int),
        decreases group.len() - i,
    {
        let ghost before = members.deep_view();
        members.push(group[i].member.clone());
        assert(group.deep_view()[i as int] == group[i as int].deep_view());
        assert(members.deep_view() =~= before.push(group[i as int].member@));
        assert(all.take(i + 1) =~= all.take(i as int).push(all[i as int]));
        i = i + 1;
    }
    assert(all.take(i as int) =~= all);
    members
}

/// Finds the facts of active memories that exclude each other at a time.
pub fn exclusive_current_conflicts(
    memories: &Vec<Memory>,
    extractions: &Vec<(String, SemanticExtraction)>,
    at: i64,
) -> (conflicts: Result<Vec<Conflict>, Error>)
    ensures
        match conflicts {
            Ok(conflicts) => exclusives_of(
                memories.deep_view(),
                keyed_views(extractions@),
                at as int,
            ) == Ok::<_, Seq<char>>(conflicts.deep_view()),
            Err(error) => exclusives_of(memories.deep_view(), keyed_views(extractions@), at as int)
                == Err::<Seq<ConflictView>, _>(error@),
        },
{
    let entries = collect_exclusive_entries(memories, extractions, at)?;
    let groups = order::group(entries);
    let ghost grouped = groups.deep_view();
    let mut conflicts: Vec<Conflict> = Vec::new();
    let mut k: usize = 0;
    assert(grouped.take(0) =~= seq![]);
    assert(conflicts.deep_view() =~= seq![]);
    while k < groups.len()
        invariant
            k <= groups.len(),
            grouped == groups.deep_view(),
            conflicts.deep_view() == exclusive_conflicts(grouped.take(k as int)),
        decreases groups.len() - k,
    {
        let group = &groups[k];
        assert(grouped.take(k + 1).drop_last() =~= grouped.take(k as int));
        assert(grouped.take(k + 1).last() == group.deep_view());
        if group.len() >= 2 && !agrees_throughout(group) {
            let first = &group[0];
            assert(group.deep_view()[0] == first.deep_view());
            let mut key = text::concat4(
                "exclusive-current-conflict\n",
                first.scope.label(),
                "\n",
                first.fact.subject_id.as_str(),
            );
            key.append("\n");
            key.append(first.fact.relation.as_str());
            let subject = match smallest_name(group) {
                Some(name) => name,
                None => first.fact.subject_id.clone(),
            };
            let conflict = open_conflict(
                digest::stable_id("conflict", key.as_str()),
                ConflictKind::ExclusiveCurrent,
                first.scope,
                Some(first.fact.subject_id.clone()),
                Some(subject),
                Some(first.fact.relation.clone()),
                exclusive_member_list(group),
            );
            let ghost before = conflicts.deep_view();
            let ghost added = conflict@;
            conflicts.push(conflict);
            assert(conflicts.deep_view() =~= before.push(added));
        }
        k = k + 1;
    }
    assert(grouped.take(k as int) =~= grouped);
    Ok(conflicts)
}

// Detection.

/// Duplicates come first; then by scope, subject, relation and id.
pub open spec fn conflict_before(left: ConflictView, right: ConflictView) -> bool {
    if left.kind != right.kind {
        left.kind == ConflictKind::ExactActiveDuplicate
    } else if left.scope != right.scope {
        text_less(left.scope.name(), right.scope.name())
    } else if left.subject_id != right.subject_id {
        order::optional_less(left.subject_id, right.subject_id)
    } else if left.relation != right.relation {
        order::optional_less(left.relation, right.relation)
    } else {
        text_less(left.id, right.id)
    }
}

impl Ranked for Conflict {
    open spec fn ranks_before(left: ConflictView, right: ConflictView) -> bool {
        conflict_before(left, right)
    }

    fn is_before(&self, other: &Self) -> (before: bool) {
        if self.kind != other.kind {
            self.kind == ConflictKind::ExactActiveDuplicate
        } else if self.scope != other.scope {
            order::is_less(self.scope.label(), other.scope.label())
        } else if !text::same_optional(&self.subject_id, &other.subject_id) {
            order::is_optional_less(&self.subject_id, &other.subject_id)
        } else if !text::same_optional(&self.relation, &other.relation) {
            order::is_optional_less(&self.relation, &other.relation)
        } else {
            order::is_less(self.id.as_str(), other.id.as_str())
        }
    }
}

/// All conflicts among the memories at a time.
pub open spec fn conflicts_at(
    memories: Seq<MemoryView>,
    extractions: Seq<(Seq<char>, ExtractionView)>,
    at: int,
) -> Result<Seq<ConflictView>, Seq<char>> {
    match exclusives_of(memories, extractions, at) {
        Err(message) => Err(message),
        Ok(exclusives) => Ok(order::ranked::<Conflict>(duplicates_of(memories) + exclusives)),
    }
}

/// Finds all conflicts among the memories at a time.
pub fn detect_at(
    memories: &Vec<Memory>,
    extractions: &Vec<(String, SemanticExtraction)>,
    at: i64,
) -> (conflicts: Result<Vec<Conflict>, Error>)
    ensures
        match conflicts {
            Ok(conflicts) => conflicts_at(
                memories.deep_view(),
                keyed_views(extractions@),
                at as int,
            ) == Ok::<_, Seq<char>>(conflicts.deep_view()),
            Err(error) => conflicts_at(memories.deep_view(), keyed_views(extractions@), at as int)
                == Err::<Seq<ConflictView>, _>(error@),
        },
{
    let mut conflicts = exact_active_duplicates(memories);
    let mut exclusives = exclusive_current_conflicts(memories, extractions, at)?;
    let ghost first = conflicts.deep_view();
    let ghost second = exclusives.deep_view();
    conflicts.append(&mut exclusives);
    assert(conflicts.deep_view() =~= first + second);
    Ok(order::sort(conflicts))
}

} // verus!
