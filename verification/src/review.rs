//! Reviewing a memory before it is written: what it repeats, and what it
//! contradicts.

use vstd::prelude::*;
use vstd::string::*;

use crate::conflict::{entity_name, find_entity_name};
use crate::directive::{ConfidenceTable, Reading};
use crate::error::Error;
use crate::memory::{
    self, canonical, is_found, listed, title_of, Memory, MemoryFilter, MemoryKind, MemoryMetadata,
    MemoryScope, MemoryStatus, MemoryType, MemoryView, MetadataView,
};
use crate::output::{
    action_tone, key_value, key_value_of, memory_type_tone, paint, painted, tone_of_action,
    type_tone, Tone,
};
use crate::semantic::{
    self, extraction_of, fact_holds, same_fact_object, ExtractionView, FactView,
    SemanticExtraction, SemanticFact,
};
use crate::text;

verus! {

/// What may be done with a memory that is proposed.
#[derive(Clone, Copy, Debug, PartialEq, Eq, Structural)]
pub enum ReviewAction {
    Add,
    Append,
    Update,
    Supersede,
    NoOp,
    Abort,
}

impl ReviewAction {
    pub open spec fn name(self) -> Seq<char> {
        match self {
            ReviewAction::Add => "add"@,
            ReviewAction::Append => "append"@,
            ReviewAction::Update => "update"@,
            ReviewAction::Supersede => "supersede"@,
            ReviewAction::NoOp => "no-op"@,
            ReviewAction::Abort => "abort"@,
        }
    }

    pub fn label(self) -> (label: &'static str)
        ensures
            label@ == self.name(),
    {
        match self {
            ReviewAction::Add => "add",
            ReviewAction::Append => "append",
            ReviewAction::Update => "update",
            ReviewAction::Supersede => "supersede",
            ReviewAction::NoOp => "no-op",
            ReviewAction::Abort => "abort",
        }
    }
}

/// A fact that a memory states about the same subject and relation.
#[derive(Debug)]
pub struct SemanticMatch {
    pub subject: String,
    pub relation: String,
    pub existing_object: String,
    pub proposed_object: String,
}

#[verifier::ext_equal]
pub struct MatchView {
    pub subject: Seq<char>,
    pub relation: Seq<char>,
    pub existing_object: Seq<char>,
    pub proposed_object: Seq<char>,
}

impl View for SemanticMatch {
    type V = MatchView;

    open spec fn view(&self) -> MatchView {
        MatchView {
            subject: self.subject@,
            relation: self.relation@,
            existing_object: self.existing_object@,
            proposed_object: self.proposed_object@,
        }
    }
}

impl DeepView for SemanticMatch {
    type V = MatchView;

    open spec fn deep_view(&self) -> MatchView {
        self@
    }
}

impl Clone for SemanticMatch {
    fn clone(&self) -> (copy: Self)
        ensures
            copy@ == self@,
    {
        SemanticMatch {
            subject: self.subject.clone(),
            relation: self.relation.clone(),
            existing_object: self.existing_object.clone(),
            proposed_object: self.proposed_object.clone(),
        }
    }
}

/// A memory that a proposal touches.
#[derive(Debug)]
pub struct ReviewCandidate {
    pub memory: Memory,
    pub suggested_action: ReviewAction,
    pub reason: &'static str,
    pub semantic_match: Option<SemanticMatch>,
}

#[verifier::ext_equal]
pub struct CandidateView {
    pub memory: MemoryView,
    pub suggested_action: ReviewAction,
    pub reason: Seq<char>,
    pub semantic_match: Option<MatchView>,
}

impl View for ReviewCandidate {
    type V = CandidateView;

    open spec fn view(&self) -> CandidateView {
        CandidateView {
            memory: self.memory@,
            suggested_action: self.suggested_action,
            reason: self.reason@,
            semantic_match: self.semantic_match.deep_view(),
        }
    }
}

impl DeepView for ReviewCandidate {
    type V = CandidateView;

    open spec fn deep_view(&self) -> CandidateView {
        self@
    }
}

/// What is suggested for a proposal.
#[derive(Debug)]
pub struct ReviewPlan {
    pub suggested_action: ReviewAction,
    pub target: Option<Memory>,
    pub candidates: Vec<ReviewCandidate>,
    pub reason: &'static str,
}

#[verifier::ext_equal]
pub struct PlanView {
    pub suggested_action: ReviewAction,
    pub target: Option<MemoryView>,
    pub candidates: Seq<CandidateView>,
    pub reason: Seq<char>,
}

impl View for ReviewPlan {
    type V = PlanView;

    open spec fn view(&self) -> PlanView {
        PlanView {
            suggested_action: self.suggested_action,
            target: self.target.deep_view(),
            candidates: self.candidates.deep_view(),
            reason: self.reason@,
        }
    }
}

impl ReviewPlan {
    pub fn target_id(&self) -> (id: Option<&str>)
        ensures
            id.deep_view() == (match self@.target {
                Some(target) => Some(target.metadata.id),
                None => None,
            }),
    {
        match &self.target {
            Some(target) => Some(target.metadata.id.as_str()),
            None => None,
        }
    }
}

// Facts.

/// What a fact about the same subject and relation suggests, and why.
pub open spec fn action_for(relation: Seq<char>, same_object: bool) -> (ReviewAction, Seq<char>) {
    let spec = semantic::relation_named(relation);
    if same_object {
        (ReviewAction::Append, "semantic-same-fact"@)
    } else if spec is Some && spec->Some_0.invalidation_policy == "review-close-previous"@ {
        (ReviewAction::Supersede, "semantic-exclusive-conflict"@)
    } else {
        (ReviewAction::Add, "semantic-compatible-fact"@)
    }
}

pub fn semantic_action(relation: &str, same_object: bool) -> (action: (ReviewAction, &'static str))
    ensures
        (action.0, action.1@) == action_for(relation@, same_object),
{
    if same_object {
        return (ReviewAction::Append, "semantic-same-fact");
    }
    let exclusive = match semantic::relation_spec(relation) {
        Some(spec) => text::same(spec.invalidation_policy, "review-close-previous"),
        None => false,
    };
    if exclusive {
        (ReviewAction::Supersede, "semantic-exclusive-conflict")
    } else {
        (ReviewAction::Add, "semantic-compatible-fact")
    }
}

/// Which of two suggestions counts.
pub open spec fn priority(action: ReviewAction) -> u8 {
    match action {
        ReviewAction::Supersede => 3,
        ReviewAction::Append => 2,
        ReviewAction::Add => 1,
        _ => 0,
    }
}

fn action_priority(action: ReviewAction) -> (value: u8)
    ensures
        value == priority(action),
{
    match action {
        ReviewAction::Supersede => 3,
        ReviewAction::Append => 2,
        ReviewAction::Add => 1,
        _ => 0,
    }
}

/// The candidates with one more. Each memory has one, of the highest priority,
/// and the first of those; memories are taken in the order of their ids.
pub open spec fn offered(candidates: Seq<CandidateView>, candidate: CandidateView) -> Seq<
    CandidateView,
> {
    if candidates.len() > 0 && candidates.last().memory.metadata.id
        == candidate.memory.metadata.id {
        if priority(candidates.last().suggested_action) >= priority(candidate.suggested_action) {
            candidates
        } else {
            candidates.drop_last().push(candidate)
        }
    } else {
        candidates.push(candidate)
    }
}

/// What a review compares with a memory.
pub struct Proposal {
    pub extraction: ExtractionView,
    pub now: int,
}

/// The memory as a candidate, by one of its facts and one of the proposal's.
pub open spec fn candidate_of(
    proposal: Proposal,
    memory: MemoryView,
    proposed: FactView,
    existing: FactView,
) -> CandidateView {
    let suggestion = action_for(proposed.relation, same_fact_object(proposed, existing));
    CandidateView {
        memory,
        suggested_action: suggestion.0,
        reason: suggestion.1,
        semantic_match: Some(
            MatchView {
                subject: match entity_name(proposal.extraction.entities, proposed.subject_id) {
                    Some(name) => name,
                    None => proposed.subject_id,
                },
                relation: proposed.relation,
                existing_object: existing.object_value,
                proposed_object: proposed.object_value,
            },
        ),
    }
}

/// The candidates after one fact of the proposal was held against facts of a
/// memory, or why a fact cannot be dated.
pub open spec fn against_facts(
    candidates: Seq<CandidateView>,
    proposal: Proposal,
    memory: MemoryView,
    proposed: FactView,
    existing: Seq<FactView>,
) -> Result<Seq<CandidateView>, Seq<char>>
    decreases existing.len(),
{
    if existing.len() == 0 {
        Ok(candidates)
    } else {
        match against_facts(candidates, proposal, memory, proposed, existing.drop_last()) {
            Err(message) => Err(message),
            Ok(before) => match fact_holds(existing.last(), proposal.now) {
                Err(message) => Err(message),
                Ok(current) => if current && proposed.subject_id == existing.last().subject_id
                    && proposed.relation == existing.last().relation {
                    Ok(
                        offered(before, candidate_of(proposal, memory, proposed, existing.last())),
                    )
                } else {
                    Ok(before)
                },
            },
        }
    }
}

/// The candidates after facts of the proposal were held against a memory.
pub open spec fn against_memory(
    candidates: Seq<CandidateView>,
    proposal: Proposal,
    memory: MemoryView,
    proposed: Seq<FactView>,
    existing: Seq<FactView>,
) -> Result<Seq<CandidateView>, Seq<char>>
    decreases proposed.len(),
{
    if proposed.len() == 0 {
        Ok(candidates)
    } else {
        match against_memory(candidates, proposal, memory, proposed.drop_last(), existing) {
            Err(message) => Err(message),
            Ok(before) => match fact_holds(proposed.last(), proposal.now) {
                Err(message) => Err(message),
                Ok(false) => Ok(before),
                Ok(true) => against_facts(before, proposal, memory, proposed.last(), existing),
            },
        }
    }
}

/// The candidates among memories, or why one cannot be compared.
pub open spec fn against_memories(
    proposal: Proposal,
    memories: Seq<MemoryView>,
    table: Map<Seq<char>, Reading>,
) -> Result<Seq<CandidateView>, Seq<char>>
    decreases memories.len(),
{
    if memories.len() == 0 {
        Ok(seq![])
    } else {
        let memory = memories.last();
        match against_memories(proposal, memories.drop_last(), table) {
            Err(message) => Err(message),
            Ok(before) => match extraction_of(memory, table) {
                Err(message) => Err(
                    "failed to analyze active memory "@ + memory.metadata.id
                        + " for semantic review: "@ + message,
                ),
                Ok(extraction) => against_memory(
                    before,
                    proposal,
                    memory,
                    proposal.extraction.facts,
                    extraction.facts,
                ),
            },
        }
    }
}

proof fn lemma_facts_prefix(
    candidates: Seq<CandidateView>,
    proposal: Proposal,
    memory: MemoryView,
    proposed: FactView,
    existing: Seq<FactView>,
    n: int,
)
    requires
        0 <= n <= existing.len(),
        against_facts(candidates, proposal, memory, proposed, existing.take(n)) is Err,
    ensures
        against_facts(candidates, proposal, memory, proposed, existing) == against_facts(
            candidates,
            proposal,
            memory,
            proposed,
            existing.take(n),
        ),
    decreases existing.len(),
{
    if n == existing.len() {
        assert(existing.take(n) =~= existing);
    } else {
        assert(existing.drop_last().take(n) =~= existing.take(n));
        lemma_facts_prefix(candidates, proposal, memory, proposed, existing.drop_last(), n);
    }
}

proof fn lemma_memory_prefix(
    candidates: Seq<CandidateView>,
    proposal: Proposal,
    memory: MemoryView,
    proposed: Seq<FactView>,
    existing: Seq<FactView>,
    n: int,
)
    requires
        0 <= n <= proposed.len(),
        against_memory(candidates, proposal, memory, proposed.take(n), existing) is Err,
    ensures
        against_memory(candidates, proposal, memory, proposed, existing) == against_memory(
            candidates,
            proposal,
            memory,
            proposed.take(n),
            existing,
        ),
    decreases proposed.len(),
{
    if n == proposed.len() {
        assert(proposed.take(n) =~= proposed);
    } else {
        assert(proposed.drop_last().take(n) =~= proposed.take(n));
        lemma_memory_prefix(candidates, proposal, memory, proposed.drop_last(), existing, n);
    }
}

proof fn lemma_memories_prefix(
    proposal: Proposal,
    memories: Seq<MemoryView>,
    table: Map<Seq<char>, Reading>,
    n: int,
)
    requires
        0 <= n <= memories.len(),
        against_memories(proposal, memories.take(n), table) is Err,
    ensures
        against_memories(proposal, memories, table) == against_memories(
            proposal,
            memories.take(n),
            table,
        ),
    decreases memories.len(),
{
    if n == memories.len() {
        assert(memories.take(n) =~= memories);
    } else {
        assert(memories.drop_last().take(n) =~= memories.take(n));
        lemma_memories_prefix(proposal, memories.drop_last(), table, n);
    }
}

fn offer(candidates: Vec<ReviewCandidate>, candidate: ReviewCandidate) -> (result: Vec<
    ReviewCandidate,
>)
    ensures
        result.deep_view() == offered(candidates.deep_view(), candidate@),
{
    let mut candidates = candidates;
    let ghost all = candidates.deep_view();
    let ghost model = candidate@;
    if candidates.len() > 0 && candidates[candidates.len() - 1].memory.metadata.id
        == candidate.memory.metadata.id {
        let last = candidates.len() - 1;
        assert(all.last() == candidates[last as int]@);
        if action_priority(candidates[last].suggested_action) >= action_priority(
            candidate.suggested_action,
        ) {
            return candidates;
        }
        candidates.pop();
        assert(candidates.deep_view() =~= all.drop_last());
        candidates.push(candidate);
        assert(candidates.deep_view() =~= all.drop_last().push(model));
    } else {
        assert(all.len() > 0 ==> all.last() == candidates[candidates.len() - 1]@);
        candidates.push(candidate);
        assert(candidates.deep_view() =~= all.push(model));
    }
    candidates
}

fn compare_facts(
    candidates: Vec<ReviewCandidate>,
    extraction: &SemanticExtraction,
    now: i64,
    memory: &Memory,
    proposed: &SemanticFact,
    existing: &Vec<SemanticFact>,
) -> (result: Result<Vec<ReviewCandidate>, Error>)
    ensures
        ({
            let expected = against_facts(
                candidates.deep_view(),
                Proposal { extraction: extraction@, now: now as int },
                memory@,
                proposed@,
                existing.deep_view(),
            );
            match result {
                Ok(result) => expected == Ok::<_, Seq<char>>(result.deep_view()),
                Err(error) => expected == Err::<Seq<CandidateView>, _>(error@),
            }
        }),
{
    let ghost start = candidates.deep_view();
    let ghost proposal = Proposal { extraction: extraction@, now: now as int };
    let ghost all = existing.deep_view();
    let mut result = candidates;
    let mut i: usize = 0;
    while i < existing.len()
        invariant
            i <= existing.len(),
            all == existing.deep_view(),
            proposal == (Proposal { extraction: extraction@, now: now as int }),
            start == candidates.deep_view(),
            against_facts(start, proposal, memory@, proposed@, all.take(i as int)) == Ok::<
                _,
                Seq<char>,
            >(result.deep_view()),
        decreases existing.len() - i,
    {
        let fact = &existing[i];
        proof {
            assert(all.take(i + 1).drop_last() =~= all.take(i as int));
            assert(all.take(i + 1).last() == fact@);
        }
        match semantic::semantic_fact_is_valid_at(fact, now) {
            Err(error) => {
                proof {
                    lemma_facts_prefix(start, proposal, memory@, proposed@, all, i + 1);
                }
                return Err(error);
            },
            Ok(current) => {
                if current && proposed.subject_id == fact.subject_id && proposed.relation
                    == fact.relation {
                    let same = semantic::semantic_objects_match(proposed, fact);
                    let (action, reason) = semantic_action(proposed.relation.as_str(), same);
                    let subject = match find_entity_name(extraction, proposed.subject_id.as_str()) {
                        Some(name) => name,
                        None => proposed.subject_id.clone(),
                    };
                    let candidate = ReviewCandidate {
                        memory: memory.clone(),
                        suggested_action: action,
                        reason,
                        semantic_match: Some(
                            SemanticMatch {
                                subject,
                                relation: proposed.relation.clone(),
                                existing_object: fact.object_value.clone(),
                                proposed_object: proposed.object_value.clone(),
                            },
                        ),
                    };
                    assert(candidate@ == candidate_of(proposal, memory@, proposed@, fact@));
                    result = offer(result, candidate);
                }
            },
        }
        i = i + 1;
    }
    assert(all.take(i as int) =~= all);
    Ok(result)
}

fn compare_memory(
    candidates: Vec<ReviewCandidate>,
    extraction: &SemanticExtraction,
    now: i64,
    memory: &Memory,
    existing: &Vec<SemanticFact>,
) -> (result: Result<Vec<ReviewCandidate>, Error>)
    ensures
        ({
            let expected = against_memory(
                candidates.deep_view(),
                Proposal { extraction: extraction@, now: now as int },
                memory@,
                extraction@.facts,
                existing.deep_view(),
            );
            match result {
                Ok(result) => expected == Ok::<_, Seq<char>>(result.deep_view()),
                Err(error) => expected == Err::<Seq<CandidateView>, _>(error@),
            }
        }),
{
    let ghost start = candidates.deep_view();
    let ghost proposal = Proposal { extraction: extraction@, now: now as int };
    let ghost all = extraction@.facts;
    let ghost facts = existing.deep_view();
    let mut result = candidates;
    let mut i: usize = 0;
    while i < extraction.facts.len()
        invariant
            i <= extraction.facts.len(),
            all == extraction.facts.deep_view(),
            all == extraction@.facts,
            facts == existing.deep_view(),
            proposal == (Proposal { extraction: extraction@, now: now as int }),
            start == candidates.deep_view(),
            against_memory(start, proposal, memory@, all.take(i as int), facts) == Ok::<
                _,
                Seq<char>,
            >(result.deep_view()),
        decreases extraction.facts.len() - i,
    {
        let fact = &extraction.facts[i];
        proof {
            assert(all.take(i + 1).drop_last() =~= all.take(i as int));
            assert(all.take(i + 1).last() == fact@);
        }
        match semantic::semantic_fact_is_valid_at(fact, now) {
            Err(error) => {
                proof {
                    lemma_memory_prefix(start, proposal, memory@, all, facts, i + 1);
                }
                return Err(error);
            },
            Ok(current) => {
                if current {
                    match compare_facts(result, extraction, now, memory, fact, existing) {
                        Err(error) => {
                            proof {
                                lemma_memory_prefix(start, proposal, memory@, all, facts, i + 1);
                            }
                            return Err(error);
                        },
                        Ok(next) => {
                            result = next;
                        },
                    }
                }
            },
        }
        i = i + 1;
    }
    assert(all.take(i as int) =~= all);
    Ok(result)
}

fn compare_memories(
    extraction: &SemanticExtraction,
    now: i64,
    memories: &Vec<Memory>,
    table: &ConfidenceTable,
) -> (result: Result<Vec<ReviewCandidate>, Error>)
    ensures
        ({
            let expected = against_memories(
                Proposal { extraction: extraction@, now: now as int },
                memories.deep_view(),
                table@,
            );
            match result {
                Ok(result) => expected == Ok::<_, Seq<char>>(result.deep_view()),
                Err(error) => expected == Err::<Seq<CandidateView>, _>(error@),
            }
        }),
{
    let ghost proposal = Proposal { extraction: extraction@, now: now as int };
    let ghost all = memories.deep_view();
    let mut result: Vec<ReviewCandidate> = Vec::new();
    let mut i: usize = 0;
    assert(result.deep_view() =~= seq![]);
    while i < memories.len()
        invariant
            i <= memories.len(),
            all == memories.deep_view(),
            proposal == (Proposal { extraction: extraction@, now: now as int }),
            against_memories(proposal, all.take(i as int), table@) == Ok::<_, Seq<char>>(
                result.deep_view(),
            ),
        decreases memories.len() - i,
    {
        let memory = &memories[i];
        proof {
            assert(all.take(i + 1).drop_last() =~= all.take(i as int));
            assert(all.take(i + 1).last() == memory@);
        }
        match semantic::extract(memory, table) {
            Err(error) => {
                proof {
                    lemma_memories_prefix(proposal, all, table@, i + 1);
                }
                return Err(
                    Error::new(
                        text::concat4(
                            "failed to analyze active memory ",
                            memory.metadata.id.as_str(),
                            " for semantic review: ",
                            error.message(),
                        ),
                    ),
                );
            },
            Ok(found) => match compare_memory(result, extraction, now, memory, &found.facts) {
                Err(error) => {
                    proof {
                        lemma_memories_prefix(proposal, all, table@, i + 1);
                    }
                    return Err(error);
                },
                Ok(next) => {
                    result = next;
                },
            },
        }
        i = i + 1;
    }
    assert(all.take(i as int) =~= all);
    Ok(result)
}

// Plans.

/// The proposal as a memory, for what can be read from it.
pub open spec fn proposed_memory(body: Seq<char>, scope: MemoryScope) -> MemoryView {
    MemoryView {
        metadata: MetadataView {
            id: "review-proposal"@,
            memory_type: MemoryType::Short,
            scope,
            kind: MemoryKind::Note,
            status: MemoryStatus::Active,
            created_at: "0"@,
            updated_at: "0"@,
            tags: seq![],
            title: None,
            source: None,
            source_id: None,
            agent: None,
            session: None,
            confidence: Some("1.0"@),
            promoted_from: None,
            supersedes: seq![],
        },
        body,
        path: None,
    }
}

pub fn proposal_memory(body: &str, scope: MemoryScope) -> (memory: Memory)
    ensures
        memory@ == proposed_memory(body@, scope),
{
    let tags: Vec<String> = Vec::new();
    let supersedes: Vec<String> = Vec::new();
    assert(tags.deep_view() =~= seq![]);
    assert(supersedes.deep_view() =~= seq![]);
    Memory {
        metadata: MemoryMetadata {
            id: "review-proposal".to_owned(),
            memory_type: MemoryType::Short,
            scope,
            kind: MemoryKind::Note,
            status: MemoryStatus::Active,
            created_at: "0".to_owned(),
            updated_at: "0".to_owned(),
            tags,
            title: None,
            source: None,
            source_id: None,
            agent: None,
            session: None,
            confidence: Some("1.0".to_owned()),
            promoted_from: None,
            supersedes,
        },
        body: body.to_owned(),
        path: None,
    }
}

pub open spec fn scope_filter(scope: MemoryScope) -> MemoryFilter {
    MemoryFilter {
        memory_type: None,
        scope: Some(scope),
        kind: None,
        tag: None,
        include_archived: false,
    }
}

/// The memories that say the same.
pub open spec fn repeated(memories: Seq<MemoryView>, body: Seq<char>) -> Seq<MemoryView> {
    memories.filter(|memory: MemoryView| canonical(memory.body) == canonical(body))
}

pub open spec fn repetition(memory: MemoryView) -> CandidateView {
    CandidateView {
        memory,
        suggested_action: ReviewAction::NoOp,
        reason: "matching-body"@,
        semantic_match: None,
    }
}

pub open spec fn repetitions(memories: Seq<MemoryView>) -> Seq<CandidateView> {
    memories.map_values(|memory: MemoryView| repetition(memory))
}

/// What candidates by facts suggest.
pub open spec fn candidates_plan(candidates: Seq<CandidateView>) -> PlanView {
    if candidates.len() == 1 {
        PlanView {
            suggested_action: candidates[0].suggested_action,
            target: Some(candidates[0].memory),
            candidates,
            reason: candidates[0].reason,
        }
    } else {
        PlanView {
            suggested_action: ReviewAction::Add,
            target: None,
            candidates,
            reason: if candidates.len() == 0 {
                "no-explicit-target"@
            } else {
                "ambiguous-semantic-candidates"@
            },
        }
    }
}

/// What the active memories of a scope suggest for a proposal.
pub open spec fn searched(
    memories: Seq<MemoryView>,
    body: Seq<char>,
    scope: MemoryScope,
    table: Map<Seq<char>, Reading>,
    now: int,
) -> Result<PlanView, Seq<char>> {
    let active = listed(memories, &scope_filter(scope));
    let same = repeated(active, body);
    if same.len() == 1 {
        Ok(
            PlanView {
                suggested_action: ReviewAction::NoOp,
                target: Some(same[0]),
                candidates: repetitions(same),
                reason: "matching-body"@,
            },
        )
    } else if same.len() > 1 {
        Ok(
            PlanView {
                suggested_action: ReviewAction::Add,
                target: None,
                candidates: repetitions(same),
                reason: "ambiguous-body-candidates"@,
            },
        )
    } else {
        match extraction_of(proposed_memory(body, scope), table) {
            Err(message) => Err(message),
            Ok(extraction) => match against_memories(Proposal { extraction, now }, active, table) {
                Err(message) => Err(message),
                Ok(candidates) => Ok(candidates_plan(candidates)),
            },
        }
    }
}

fn list_repeated(memories: &Vec<Memory>, body: &str) -> (same: Vec<Memory>)
    ensures
        same.deep_view() == repeated(memories.deep_view(), body@),
{
    let ghost all = memories.deep_view();
    let ghost wanted = |memory: MemoryView| canonical(memory.body) == canonical(body@);
    let mut same: Vec<Memory> = Vec::new();
    let mut i: usize = 0;
    proof {
        reveal(Seq::filter);
        assert(all.take(0).filter(wanted) =~= seq![]);
        assert(same.deep_view() =~= seq![]);
    }
    while i < memories.len()
        invariant
            i <= memories.len(),
            all == memories.deep_view(),
            wanted == (|memory: MemoryView| canonical(memory.body) == canonical(body@)),
            same.deep_view() == all.take(i as int).filter(wanted),
        decreases memories.len() - i,
    {
        proof {
            reveal(Seq::filter);
            assert(all.take(i + 1).drop_last() =~= all.take(i as int));
            assert(all.take(i + 1).last() == memories[i as int]@);
        }
        if memory::bodies_match(memories[i].body.as_str(), body) {
            let ghost before = same.deep_view();
            same.push(memories[i].clone());
            assert(same.deep_view() =~= before.push(memories[i as int]@));
        }
        i = i + 1;
    }
    assert(all.take(i as int) =~= all);
    same
}

fn list_repetitions(memories: &Vec<Memory>) -> (candidates: Vec<ReviewCandidate>)
    ensures
        candidates.deep_view() == repetitions(memories.deep_view()),
{
    let ghost wanted = repetitions(memories.deep_view());
    let mut candidates: Vec<ReviewCandidate> = Vec::new();
    let mut i: usize = 0;
    while i < memories.len()
        invariant
            i <= memories.len(),
            wanted == repetitions(memories.deep_view()),
            candidates.deep_view() == wanted.take(i as int),
        decreases memories.len() - i,
    {
        let candidate = ReviewCandidate {
            memory: memories[i].clone(),
            suggested_action: ReviewAction::NoOp,
            reason: "matching-body",
            semantic_match: None,
        };
        let ghost before = candidates.deep_view();
        assert(candidate@ == repetition(memories[i as int]@));
        candidates.push(candidate);
        assert(candidates.deep_view() =~= before.push(repetition(memories[i as int]@)));
        assert(wanted.take(i + 1) =~= wanted.take(i as int).push(wanted[i as int]));
        i = i + 1;
    }
    assert(wanted.take(i as int) =~= wanted);
    candidates
}

/// Looks for active memories of a scope that a proposal repeats, adds to or
/// contradicts.
pub fn semantic_plan(
    memories: &Vec<Memory>,
    body: &str,
    scope: MemoryScope,
    table: &ConfidenceTable,
    now: i64,
) -> (plan: Result<ReviewPlan, Error>)
    ensures
        crate::error::agrees(
            plan,
            searched(memories.deep_view(), body@, scope, table@, now as int),
        ),
{
    let filter = MemoryFilter {
        memory_type: None,
        scope: Some(scope),
        kind: None,
        tag: None,
        include_archived: false,
    };
    let active = memory::list_memories(memories, &filter);
    let same = list_repeated(&active, body);
    assert(same.deep_view().len() == same.len());
    if same.len() == 1 {
        assert(same.deep_view()[0] == same[0]@);
        return Ok(
            ReviewPlan {
                suggested_action: ReviewAction::NoOp,
                target: Some(same[0].clone()),
                candidates: list_repetitions(&same),
                reason: "matching-body",
            },
        );
    }
    if same.len() > 1 {
        return Ok(
            ReviewPlan {
                suggested_action: ReviewAction::Add,
                target: None,
                candidates: list_repetitions(&same),
                reason: "ambiguous-body-candidates",
            },
        );
    }
    let proposal = proposal_memory(body, scope);
    let extraction = semantic::extract(&proposal, table)?;
    let candidates = compare_memories(&extraction, now, &active, table)?;
    assert(candidates.deep_view().len() == candidates.len());
    if candidates.len() == 0 {
        return Ok(
            ReviewPlan {
                suggested_action: ReviewAction::Add,
                target: None,
                candidates,
                reason: "no-explicit-target",
            },
        );
    }
    if candidates.len() == 1 {
        assert(candidates.deep_view()[0] == candidates[0]@);
        let suggested_action = candidates[0].suggested_action;
        let target = candidates[0].memory.clone();
        let reason = candidates[0].reason;
        return Ok(ReviewPlan { suggested_action, target: Some(target), candidates, reason });
    }
    Ok(
        ReviewPlan {
            suggested_action: ReviewAction::Add,
            target: None,
            candidates,
            reason: "ambiguous-semantic-candidates",
        },
    )
}

/// What is suggested where the memory to change was named.
pub open spec fn targeted(target: MemoryView, body: Seq<char>) -> Result<PlanView, Seq<char>> {
    if target.metadata.status != MemoryStatus::Active {
        Err(
            "memory "@ + target.metadata.id + " is "@ + target.metadata.status.name()
                + "; choose an explicit add or supersede action instead"@,
        )
    } else {
        let same = canonical(target.body) == canonical(body);
        Ok(
            PlanView {
                suggested_action: if same { ReviewAction::NoOp } else { ReviewAction::Update },
                target: Some(target),
                candidates: seq![],
                reason: if same { "unchanged-body"@ } else { "explicit-target"@ },
            },
        )
    }
}

fn plan_target(target: Memory, body: &str) -> (plan: Result<ReviewPlan, Error>)
    ensures
        crate::error::agrees(plan, targeted(target@, body@)),
{
    if target.metadata.status != MemoryStatus::Active {
        let mut message = "memory ".to_owned();
        message.append(target.metadata.id.as_str());
        message.append(" is ");
        message.append(target.metadata.status.label());
        message.append("; choose an explicit add or supersede action instead");
        return Err(Error::new(message));
    }
    let same = memory::bodies_match(target.body.as_str(), body);
    let candidates: Vec<ReviewCandidate> = Vec::new();
    assert(candidates.deep_view() =~= seq![]);
    Ok(
        ReviewPlan {
            suggested_action: if same {
                ReviewAction::NoOp
            } else {
                ReviewAction::Update
            },
            target: Some(target),
            candidates,
            reason: if same {
                "unchanged-body"
            } else {
                "explicit-target"
            },
        },
    )
}

/// Whether a plan is about the memory that an id names.
pub open spec fn is_target_plan(
    memories: Seq<MemoryView>,
    id: Seq<char>,
    body: Seq<char>,
    plan: Result<PlanView, Seq<char>>,
) -> bool {
    ||| plan is Err && is_found(memories, id, Err::<MemoryView, _>(plan->Err_0))
    ||| exists|target: MemoryView|
        plan == targeted(target, body) && #[trigger] is_found(
            memories,
            id,
            Ok::<_, Seq<char>>(target),
        )
}

/// Whether a plan is the one for a proposal: about the named memory, if one was
/// named, or about what the active memories of the scope say.
pub open spec fn is_plan(
    memories: Seq<MemoryView>,
    id: Option<Seq<char>>,
    body: Seq<char>,
    scope: MemoryScope,
    table: Map<Seq<char>, Reading>,
    now: int,
    plan: Result<PlanView, Seq<char>>,
) -> bool {
    if text::trimmed(body).len() == 0 {
        plan == Err::<PlanView, _>("review body cannot be empty"@)
    } else {
        match id {
            None => plan == searched(memories, body, scope, table, now),
            Some(id) => is_target_plan(memories, id, body, plan),
        }
    }
}

pub open spec fn plan_outcome(plan: Result<ReviewPlan, Error>) -> Result<PlanView, Seq<char>> {
    match plan {
        Ok(plan) => Ok(plan@),
        Err(error) => Err(error@),
    }
}

fn plan_named(memories: Vec<Memory>, id: &str, body: &str) -> (plan: Result<ReviewPlan, Error>)
    ensures
        is_target_plan(memories.deep_view(), id@, body@, plan_outcome(plan)),
{
    let ghost all = memories.deep_view();
    let target = memory::find_memory(memories, id)?;
    assert(is_found(all, id@, Ok::<_, Seq<char>>(target@)));
    plan_target(target, body)
}

/// Plans what to do with a proposal.
pub fn plan(
    memories: Vec<Memory>,
    id: Option<&str>,
    body: &str,
    scope: MemoryScope,
    table: &ConfidenceTable,
    now: i64,
) -> (plan: Result<ReviewPlan, Error>)
    ensures
        is_plan(
            memories.deep_view(),
            id.deep_view(),
            body@,
            scope,
            table@,
            now as int,
            plan_outcome(plan),
        ),
{
    if text::trim(body).is_empty() {
        return Err(Error::of("review body cannot be empty"));
    }
    match id {
        None => semantic_plan(&memories, body, scope, table, now),
        Some(id) => plan_named(memories, id, body),
    }
}

// Choosing.

/// What the choices are, and which one is suggested.
pub fn choice_prompt(plan: &ReviewPlan) -> (question: String)
    ensures
        question@ == "choose "@ + (if plan@.target is Some {
            "add / append / update / supersede / no-op / abort"@
        } else {
            "add / no-op / abort"@
        }) + " ["@ + plan@.suggested_action.name() + "]: "@,
{
    let options = if plan.target.is_some() {
        "add / append / update / supersede / no-op / abort"
    } else {
        "add / no-op / abort"
    };
    let mut question = text::concat3("choose ", options, " [");
    question.append(plan.suggested_action.label());
    question.append("]: ");
    question
}

/// What an answer chooses.
pub open spec fn choice_of(answer: Seq<char>, plan: PlanView) -> Result<ReviewAction, Seq<char>> {
    let answer = text::ascii_lower(text::trimmed(answer));
    let has_target = plan.target is Some;
    if answer == ""@ {
        Ok(plan.suggested_action)
    } else if answer == "add"@ || answer == "a"@ {
        Ok(ReviewAction::Add)
    } else if has_target && (answer == "append"@ || answer == "p"@) {
        Ok(ReviewAction::Append)
    } else if has_target && (answer == "update"@ || answer == "u"@) {
        Ok(ReviewAction::Update)
    } else if has_target && (answer == "supersede"@ || answer == "s"@) {
        Ok(ReviewAction::Supersede)
    } else if answer == "no-op"@ || answer == "noop"@ || answer == "n"@ {
        Ok(ReviewAction::NoOp)
    } else if answer == "abort"@ || answer == "q"@ {
        Ok(ReviewAction::Abort)
    } else if answer == "append"@ || answer == "p"@ || answer == "update"@ || answer == "u"@
        || answer == "supersede"@ || answer == "s"@ {
        Err("append, update, and supersede require one review target"@)
    } else {
        Err("unknown memory review choice "@ + text::quoted_form(answer))
    }
}

/// The action that a plan and the answer to its question come to. There is no
/// question where nothing is to be done.
pub fn prompt_for_action(plan: &ReviewPlan, answer: Option<&str>) -> (action: Result<
    ReviewAction,
    Error,
>)
    ensures
        ({
            let expected = if plan@.suggested_action == ReviewAction::NoOp {
                Ok(ReviewAction::NoOp)
            } else {
                match answer {
                    None => Err("memory review input ended before a choice was made"@),
                    Some(answer) => choice_of(answer@, plan@),
                }
            };
            match action {
                Ok(action) => expected == Ok::<_, Seq<char>>(action),
                Err(error) => expected == Err::<ReviewAction, _>(error@),
            }
        }),
{
    if plan.suggested_action == ReviewAction::NoOp {
        return Ok(ReviewAction::NoOp);
    }
    let answer = match answer {
        None => {
            return Err(Error::of("memory review input ended before a choice was made"));
        },
        Some(answer) => answer,
    };
    let lower = text::to_ascii_lowercase(text::trim(answer));
    let answer = lower.as_str();
    let has_target = plan.target.is_some();
    if text::same(answer, "") {
        Ok(plan.suggested_action)
    } else if text::same(answer, "add") || text::same(answer, "a") {
        Ok(ReviewAction::Add)
    } else if has_target && (text::same(answer, "append") || text::same(answer, "p")) {
        Ok(ReviewAction::Append)
    } else if has_target && (text::same(answer, "update") || text::same(answer, "u")) {
        Ok(ReviewAction::Update)
    } else if has_target && (text::same(answer, "supersede") || text::same(answer, "s")) {
        Ok(ReviewAction::Supersede)
    } else if text::same(answer, "no-op") || text::same(answer, "noop") || text::same(answer, "n") {
        Ok(ReviewAction::NoOp)
    } else if text::same(answer, "abort") || text::same(answer, "q") {
        Ok(ReviewAction::Abort)
    } else if text::same(answer, "append") || text::same(answer, "p") || text::same(
        answer,
        "update",
    ) || text::same(answer, "u") || text::same(answer, "supersede") || text::same(answer, "s") {
        Err(Error::of("append, update, and supersede require one review target"))
    } else {
        Err(
            Error::new(
                text::concat2("unknown memory review choice ", text::quoted(answer).as_str()),
            ),
        )
    }
}

// Printing.

/// The line about the memory that a plan would change.
pub open spec fn target_line(target: Option<MemoryView>, on: bool) -> Seq<char> {
    let head = painted("candidate"@, Tone::Info, on);
    match target {
        None => head + " "@ + painted("none"@, Tone::Muted, on),
        Some(target) => {
            let memory_type = target.metadata.memory_type.name();
            head + " "@ + key_value_of("id"@, target.metadata.id, Tone::Id, on) + " "@
                + key_value_of("type"@, memory_type, type_tone(memory_type), on) + " "@
                + key_value_of("scope"@, target.metadata.scope.name(), Tone::Scope, on) + " "@
                + key_value_of("kind"@, target.metadata.kind.name(), Tone::Kind, on) + " "@
                + key_value_of("title"@, title_of(target), Tone::Title, on)
        },
    }
}

/// The line about a memory with a fact on the same subject and relation.
pub open spec fn match_line(candidate: CandidateView, found: MatchView, on: bool) -> Seq<char> {
    let action = candidate.suggested_action.name();
    painted("candidate"@, Tone::Info, on) + " "@ + painted("semantic"@, Tone::Short, on) + " "@
        + key_value_of("id"@, candidate.memory.metadata.id, Tone::Id, on) + " "@ + key_value_of(
        "suggested"@,
        action,
        tone_of_action(action),
        on,
    ) + " "@ + key_value_of("reason"@, candidate.reason, Tone::Muted, on) + " "@ + key_value_of(
        "subject"@,
        found.subject,
        Tone::Title,
        on,
    ) + " "@ + key_value_of("relation"@, found.relation, Tone::Kind, on) + " "@ + key_value_of(
        "existing"@,
        found.existing_object,
        Tone::Warning,
        on,
    ) + " "@ + key_value_of("proposed"@, found.proposed_object, Tone::Success, on)
}

pub open spec fn match_lines(candidates: Seq<CandidateView>, on: bool) -> Seq<Seq<char>>
    decreases candidates.len(),
{
    if candidates.len() == 0 {
        seq![]
    } else {
        let before = match_lines(candidates.drop_last(), on);
        match candidates.last().semantic_match {
            Some(found) => before.push(match_line(candidates.last(), found, on)),
            None => before,
        }
    }
}

/// The line about what is suggested.
pub open spec fn suggestion_line(plan: PlanView, on: bool) -> Seq<char> {
    let action = plan.suggested_action.name();
    let target = match plan.target {
        Some(target) => target.metadata.id,
        None => "-"@,
    };
    painted("review"@, Tone::Info, on) + " "@ + key_value_of(
        "suggested"@,
        action,
        tone_of_action(action),
        on,
    ) + " "@ + key_value_of("target"@, target, Tone::Id, on) + " "@ + key_value_of(
        "reason"@,
        plan.reason,
        Tone::Muted,
        on,
    )
}

/// What is printed about a plan.
pub open spec fn plan_lines(plan: PlanView, on: bool) -> Seq<Seq<char>> {
    seq![target_line(plan.target, on)] + match_lines(plan.candidates, on) + seq![
        suggestion_line(plan, on),
    ]
}

/// Adds a key and its value behind a space.
pub fn append_pair(line: &mut String, key: &str, value: &str, tone: Tone, on: bool)
    ensures
        final(line)@ == old(line)@ + " "@ + key_value_of(key@, value@, tone, on),
{
    line.append(" ");
    line.append(key_value(key, value, tone, on).as_str());
}

fn describe_target(target: &Option<Memory>, on: bool) -> (line: String)
    ensures
        line@ == target_line(target.deep_view(), on),
{
    let mut line = paint("candidate", Tone::Info, on);
    match target {
        None => {
            line.append(" ");
            line.append(paint("none", Tone::Muted, on).as_str());
        },
        Some(target) => {
            let memory_type = target.metadata.memory_type.label();
            append_pair(&mut line, "id", target.metadata.id.as_str(), Tone::Id, on);
            append_pair(&mut line, "type", memory_type, memory_type_tone(memory_type), on);
            append_pair(&mut line, "scope", target.metadata.scope.label(), Tone::Scope, on);
            append_pair(&mut line, "kind", target.metadata.kind.label(), Tone::Kind, on);
            append_pair(&mut line, "title", target.title().as_str(), Tone::Title, on);
        },
    }
    line
}

fn describe_match(candidate: &ReviewCandidate, found: &SemanticMatch, on: bool) -> (line: String)
    ensures
        line@ == match_line(candidate@, found@, on),
{
    let action = candidate.suggested_action.label();
    let mut line = paint("candidate", Tone::Info, on);
    line.append(" ");
    line.append(paint("semantic", Tone::Short, on).as_str());
    append_pair(&mut line, "id", candidate.memory.metadata.id.as_str(), Tone::Id, on);
    append_pair(&mut line, "suggested", action, action_tone(action), on);
    append_pair(&mut line, "reason", candidate.reason, Tone::Muted, on);
    append_pair(&mut line, "subject", found.subject.as_str(), Tone::Title, on);
    append_pair(&mut line, "relation", found.relation.as_str(), Tone::Kind, on);
    append_pair(&mut line, "existing", found.existing_object.as_str(), Tone::Warning, on);
    append_pair(&mut line, "proposed", found.proposed_object.as_str(), Tone::Success, on);
    line
}

/// The lines that are printed about a plan.
pub fn print_plan(plan: &ReviewPlan, on: bool) -> (lines: Vec<String>)
    ensures
        lines.deep_view() == plan_lines(plan@, on),
{
    let mut lines: Vec<String> = Vec::new();
    lines.push(describe_target(&plan.target, on));
    let ghost head = seq![target_line(plan@.target, on)];
    let ghost all = plan@.candidates;
    let mut i: usize = 0;
    assert(match_lines(all.take(0), on) =~= seq![]);
    assert(lines.deep_view() =~= head + match_lines(all.take(0), on));
    while i < plan.candidates.len()
        invariant
            i <= plan.candidates.len(),
            all == plan.candidates.deep_view(),
            lines.deep_view() == head + match_lines(all.take(i as int), on),
        decreases plan.candidates.len() - i,
    {
        let candidate = &plan.candidates[i];
        assert(all.take(i + 1).drop_last() =~= all.take(i as int));
        assert(all.take(i + 1).last() == candidate@);
        if let Some(found) = &candidate.semantic_match {
            let line = describe_match(candidate, found, on);
            let ghost before = lines.deep_view();
            let ghost model = line@;
            lines.push(line);
            assert(lines.deep_view() =~= before.push(model));
            assert(lines.deep_view() =~= head + match_lines(all.take(i + 1), on));
        }
        i = i + 1;
    }
    assert(all.take(i as int) =~= all);
    let action = plan.suggested_action.label();
    let mut line = paint("review", Tone::Info, on);
    append_pair(&mut line, "suggested", action, action_tone(action), on);
    let target = match plan.target_id() {
        Some(id) => id,
        None => "-",
    };
    append_pair(&mut line, "target", target, Tone::Id, on);
    append_pair(&mut line, "reason", plan.reason, Tone::Muted, on);
    assert(line@ == suggestion_line(plan@, on));
    let ghost before = lines.deep_view();
    let ghost model = line@;
    lines.push(line);
    assert(lines.deep_view() =~= before.push(model));
    assert(before.push(model) =~= plan_lines(plan@, on));
    lines
}

} // verus!
