//! What a review of a proposal says about the memories there are.

use vstd::prelude::*;

use crate::conflict::entity_name;
use crate::directive::Reading;
use crate::memory::{canonical, is_found, listed, MemoryScope, MemoryStatus, MemoryView};
use crate::order_laws::filtering_keeps_what_is_wanted;
use crate::query_laws::{has_begun, is_ahead};
use crate::relation_laws::only_exclusive_facts_supersede;
use crate::review::{
    against_facts, against_memories, against_memory, candidate_of, candidates_plan, choice_of,
    is_plan, offered, priority, proposed_memory, repeated, repetitions, scope_filter, searched, targeted,
    CandidateView, MatchView, PlanView, Proposal, ReviewAction,
};
use crate::semantic::{extraction_of, fact_holds, same_fact_object, FactView};
use crate::text::{ascii_lower, is_space, trimmed};

verus! {

/// Whether a fact has begun and not ended.
pub open spec fn is_current(fact: FactView, now: int) -> bool {
    &&& has_begun(fact.valid_from, fact.time_kind, now)
    &&& is_ahead(fact.valid_to, fact.time_kind, now)
    &&& is_ahead(fact.expired_at, fact.time_kind, now)
}

/// A fact holds from its start, included, to its ends, excluded.
pub proof fn facts_hold_between_their_times(fact: FactView, now: int)
    ensures
        fact_holds(fact, now) == Ok::<_, Seq<char>>(true) <==> is_current(fact, now),
{
}

/// Whether two facts are about the same: both are current, of one subject and one
/// relation.
pub open spec fn meet(proposed: FactView, existing: FactView, now: int) -> bool {
    &&& is_current(proposed, now)
    &&& is_current(existing, now)
    &&& proposed.subject_id == existing.subject_id
    &&& proposed.relation == existing.relation
}

/// What two facts that meet suggest.
pub open spec fn suggestion(proposed: FactView, existing: FactView) -> ReviewAction {
    if same_fact_object(proposed, existing) {
        ReviewAction::Append
    } else if proposed.relation == "PREFERS"@ || proposed.relation == "WORKS_AT"@ {
        ReviewAction::Supersede
    } else {
        ReviewAction::Add
    }
}

/// How much a suggestion weighs: replacing more than adding to, and that more
/// than standing side by side.
pub open spec fn weight(action: ReviewAction) -> int {
    if action == ReviewAction::Supersede {
        3
    } else if action == ReviewAction::Append {
        2
    } else if action == ReviewAction::Add {
        1
    } else {
        0
    }
}

/// Whether a candidate says what two facts that meet come to.
pub open spec fn is_answer(
    candidate: CandidateView,
    memory: MemoryView,
    proposal: Proposal,
    proposed: FactView,
    existing: FactView,
) -> bool {
    &&& meet(proposed, existing, proposal.now)
    &&& candidate.memory == memory
    &&& candidate.suggested_action == suggestion(proposed, existing)
    &&& candidate.semantic_match == Some(
        MatchView {
            subject: match entity_name(proposal.extraction.entities, proposed.subject_id) {
                Some(name) => name,
                None => proposed.subject_id,
            },
            relation: existing.relation,
            existing_object: existing.object_value,
            proposed_object: proposed.object_value,
        },
    )
}

proof fn lemma_answer(
    proposal: Proposal,
    memory: MemoryView,
    proposed: FactView,
    existing: FactView,
)
    requires
        meet(proposed, existing, proposal.now),
    ensures
        is_answer(
            candidate_of(proposal, memory, proposed, existing),
            memory,
            proposal,
            proposed,
            existing,
        ),
{
    only_exclusive_facts_supersede(proposed.relation, same_fact_object(proposed, existing));
}

/// Whether a memory is a candidate with a suggestion that weighs so much.
pub open spec fn covers(candidates: Seq<CandidateView>, id: Seq<char>, level: int) -> bool {
    exists|k: int|
        0 <= k < candidates.len() && (#[trigger] candidates[k]).memory.metadata.id == id && weight(
            candidates[k].suggested_action,
        ) >= level
}

/// Whether no memory is a candidate twice.
pub open spec fn once_each(candidates: Seq<CandidateView>) -> bool {
    forall|i: int, j: int|
        0 <= i < j < candidates.len() ==> (#[trigger] candidates[i]).memory.metadata.id != (
        #[trigger] candidates[j]).memory.metadata.id
}

/// Whether only the last candidate can be a memory.
spec fn only_last(candidates: Seq<CandidateView>, id: Seq<char>) -> bool {
    forall|i: int|
        0 <= i < candidates.len() - 1 ==> (#[trigger] candidates[i]).memory.metadata.id != id
}

proof fn lemma_offered(candidates: Seq<CandidateView>, next: CandidateView)
    ensures
        forall|c: CandidateView| #[trigger]
            offered(candidates, next).contains(c) ==> c == next || candidates.contains(c),
        forall|id: Seq<char>, level: int|
            covers(candidates, id, level) ==> #[trigger] covers(
                offered(candidates, next),
                id,
                level,
            ),
        covers(offered(candidates, next), next.memory.metadata.id, weight(next.suggested_action)),
        once_each(candidates) && only_last(candidates, next.memory.metadata.id) ==> once_each(
            offered(candidates, next),
        ) && only_last(offered(candidates, next), next.memory.metadata.id),
{
    let all = offered(candidates, next);
    let id = next.memory.metadata.id;
    let n = candidates.len() - 1;
    assert(weight(next.suggested_action) == priority(next.suggested_action));
    assert forall|c: CandidateView| #[trigger] all.contains(c) implies c == next
        || candidates.contains(c) by {
        let k = choose|k: int| 0 <= k < all.len() && all[k] == c;
        if k < candidates.len() && all[k] != next {
            assert(candidates[k] == c);
        }
    }
    assert forall|other: Seq<char>, level: int| covers(candidates, other, level) implies
        #[trigger] covers(all, other, level) by {
        let k = choose|k: int|
            0 <= k < candidates.len() && (#[trigger] candidates[k]).memory.metadata.id == other
                && weight(candidates[k].suggested_action) >= level;
        if all[k] != candidates[k] {
            assert(all[k] == next);
            assert(weight(candidates[k].suggested_action) == priority(
                candidates[k].suggested_action,
            ));
        }
        assert(all[k].memory.metadata.id == other);
    }
    if all == candidates {
        assert(all[n].memory.metadata.id == id);
        assert(weight(all[n].suggested_action) == priority(all[n].suggested_action));
    } else {
        assert(all[all.len() - 1] == next);
    }
    if once_each(candidates) && only_last(candidates, id) {
        assert forall|i: int| 0 <= i < all.len() - 1 implies (#[trigger] all[i]).memory.metadata.id
            != id by {
            assert(all[i] == candidates[i]);
            if i == n {
                assert(candidates[n] == candidates.last());
            }
        }
        assert forall|i: int, j: int| 0 <= i < j < all.len() implies (
        #[trigger] all[i]).memory.metadata.id != (#[trigger] all[j]).memory.metadata.id by {
            assert(all[i] == candidates[i]);
            if all[j] != next {
                assert(all[j] == candidates[j]);
            }
        }
    }
}

/// Whether a candidate answers facts of a memory.
spec fn answers(
    candidate: CandidateView,
    memory: MemoryView,
    proposal: Proposal,
    proposed: Seq<FactView>,
    existing: Seq<FactView>,
) -> bool {
    exists|p: int, e: int|
        0 <= p < proposed.len() && 0 <= e < existing.len() && is_answer(
            candidate,
            memory,
            proposal,
            #[trigger] proposed[p],
            #[trigger] existing[e],
        )
}

proof fn lemma_facts(
    candidates: Seq<CandidateView>,
    proposal: Proposal,
    memory: MemoryView,
    proposed: FactView,
    existing: Seq<FactView>,
)
    requires
        is_current(proposed, proposal.now),
        against_facts(candidates, proposal, memory, proposed, existing) is Ok,
    ensures
        ({
            let found = against_facts(candidates, proposal, memory, proposed, existing)->Ok_0;
            let id = memory.metadata.id;
            &&& forall|c: CandidateView| #[trigger]
                found.contains(c) ==> candidates.contains(c) || answers(
                    c,
                    memory,
                    proposal,
                    seq![proposed],
                    existing,
                )
            &&& forall|other: Seq<char>, level: int|
                covers(candidates, other, level) ==> #[trigger] covers(found, other, level)
            &&& forall|e: int|
                0 <= e < existing.len() && meet(proposed, #[trigger] existing[e], proposal.now)
                    ==> covers(found, id, weight(suggestion(proposed, existing[e])))
            &&& once_each(candidates) && only_last(candidates, id) ==> once_each(found)
                && only_last(found, id)
        }),
    decreases existing.len(),
{
    if existing.len() > 0 {
        let rest = existing.drop_last();
        let last = existing.last();
        lemma_facts(candidates, proposal, memory, proposed, rest);
        facts_hold_between_their_times(last, proposal.now);
        let before = against_facts(candidates, proposal, memory, proposed, rest)->Ok_0;
        let found = against_facts(candidates, proposal, memory, proposed, existing)->Ok_0;
        let next = candidate_of(proposal, memory, proposed, last);
        let id = memory.metadata.id;
        assert(existing[existing.len() - 1] == last);
        if meet(proposed, last, proposal.now) {
            lemma_offered(before, next);
            lemma_answer(proposal, memory, proposed, last);
            assert(found == offered(before, next));
        } else {
            assert(found == before);
        }
        assert forall|c: CandidateView| #[trigger] found.contains(c) implies candidates.contains(c)
            || answers(c, memory, proposal, seq![proposed], existing) by {
            if found != before && c == next {
                assert(is_answer(
                    c,
                    memory,
                    proposal,
                    seq![proposed][0],
                    existing[existing.len() - 1],
                ));
            } else {
                assert(before.contains(c));
                if !candidates.contains(c) {
                    let (p, e) = choose|p: int, e: int|
                        0 <= p < 1 && 0 <= e < rest.len() && is_answer(
                            c,
                            memory,
                            proposal,
                            #[trigger] seq![proposed][p],
                            #[trigger] rest[e],
                        );
                    assert(existing[e] == rest[e]);
                    assert(is_answer(c, memory, proposal, seq![proposed][p], existing[e]));
                }
            }
        }
        assert forall|other: Seq<char>, level: int| covers(candidates, other, level) implies
            #[trigger] covers(found, other, level) by {
            assert(covers(before, other, level));
        }
        assert forall|e: int|
            0 <= e < existing.len() && meet(
                proposed,
                #[trigger] existing[e],
                proposal.now,
            ) implies covers(found, id, weight(suggestion(proposed, existing[e]))) by {
            if e < rest.len() {
                assert(rest[e] == existing[e]);
                assert(covers(before, id, weight(suggestion(proposed, rest[e]))));
            }
        }
    }
}

proof fn lemma_memory(
    candidates: Seq<CandidateView>,
    proposal: Proposal,
    memory: MemoryView,
    proposed: Seq<FactView>,
    existing: Seq<FactView>,
)
    requires
        against_memory(candidates, proposal, memory, proposed, existing) is Ok,
    ensures
        ({
            let found = against_memory(candidates, proposal, memory, proposed, existing)->Ok_0;
            let id = memory.metadata.id;
            &&& forall|c: CandidateView| #[trigger]
                found.contains(c) ==> candidates.contains(c) || answers(
                    c,
                    memory,
                    proposal,
                    proposed,
                    existing,
                )
            &&& forall|other: Seq<char>, level: int|
                covers(candidates, other, level) ==> #[trigger] covers(found, other, level)
            &&& forall|p: int, e: int|
                0 <= p < proposed.len() && 0 <= e < existing.len() && meet(
                    #[trigger] proposed[p],
                    #[trigger] existing[e],
                    proposal.now,
                ) ==> covers(found, id, weight(suggestion(proposed[p], existing[e])))
            &&& once_each(candidates) && only_last(candidates, id) ==> once_each(found)
                && only_last(found, id)
        }),
    decreases proposed.len(),
{
    if proposed.len() > 0 {
        let rest = proposed.drop_last();
        let last = proposed.last();
        lemma_memory(candidates, proposal, memory, rest, existing);
        facts_hold_between_their_times(last, proposal.now);
        let before = against_memory(candidates, proposal, memory, rest, existing)->Ok_0;
        let found = against_memory(candidates, proposal, memory, proposed, existing)->Ok_0;
        let id = memory.metadata.id;
        assert(proposed[proposed.len() - 1] == last);
        if is_current(last, proposal.now) {
            lemma_facts(before, proposal, memory, last, existing);
        }
        assert forall|c: CandidateView| #[trigger] found.contains(c) implies candidates.contains(c)
            || answers(c, memory, proposal, proposed, existing) by {
            if before.contains(c) {
                if !candidates.contains(c) {
                    let (p, e) = choose|p: int, e: int|
                        0 <= p < rest.len() && 0 <= e < existing.len() && is_answer(
                            c,
                            memory,
                            proposal,
                            #[trigger] rest[p],
                            #[trigger] existing[e],
                        );
                    assert(proposed[p] == rest[p]);
                    assert(is_answer(c, memory, proposal, proposed[p], existing[e]));
                }
            } else {
                let (p, e) = choose|p: int, e: int|
                    0 <= p < 1 && 0 <= e < existing.len() && is_answer(
                        c,
                        memory,
                        proposal,
                        #[trigger] seq![last][p],
                        #[trigger] existing[e],
                    );
                assert(is_answer(c, memory, proposal, proposed[proposed.len() - 1], existing[e]));
            }
        }
        assert forall|other: Seq<char>, level: int| covers(candidates, other, level) implies
            #[trigger] covers(found, other, level) by {
            assert(covers(before, other, level));
        }
        assert forall|p: int, e: int|
            0 <= p < proposed.len() && 0 <= e < existing.len() && meet(
                #[trigger] proposed[p],
                #[trigger] existing[e],
                proposal.now,
            ) implies covers(found, id, weight(suggestion(proposed[p], existing[e]))) by {
            if p < rest.len() {
                assert(rest[p] == proposed[p]);
                assert(covers(before, id, weight(suggestion(rest[p], existing[e]))));
            }
        }
    }
}

/// The facts that a memory states.
pub open spec fn stated(memory: MemoryView, table: Map<Seq<char>, Reading>) -> Seq<FactView> {
    match extraction_of(memory, table) {
        Ok(extraction) => extraction.facts,
        Err(_) => seq![],
    }
}

/// Whether a fact of the proposal meets one that a memory states.
pub open spec fn facts_meet(
    proposal: Proposal,
    memories: Seq<MemoryView>,
    table: Map<Seq<char>, Reading>,
    m: int,
    p: int,
    e: int,
) -> bool {
    &&& 0 <= m < memories.len()
    &&& 0 <= p < proposal.extraction.facts.len()
    &&& 0 <= e < stated(memories[m], table).len()
    &&& meet(proposal.extraction.facts[p], stated(memories[m], table)[e], proposal.now)
}

/// Whether a candidate is a memory by facts that meet.
pub open spec fn is_reason(
    candidate: CandidateView,
    proposal: Proposal,
    memories: Seq<MemoryView>,
    table: Map<Seq<char>, Reading>,
    m: int,
    p: int,
    e: int,
) -> bool {
    &&& facts_meet(proposal, memories, table, m, p, e)
    &&& is_answer(
        candidate,
        memories[m],
        proposal,
        proposal.extraction.facts[p],
        stated(memories[m], table)[e],
    )
}

/// Whether the candidates do justice to facts that meet.
spec fn does_justice(
    found: Seq<CandidateView>,
    proposal: Proposal,
    memories: Seq<MemoryView>,
    table: Map<Seq<char>, Reading>,
    m: int,
    p: int,
    e: int,
) -> bool {
    facts_meet(proposal, memories, table, m, p, e) ==> covers(
        found,
        memories[m].metadata.id,
        weight(suggestion(proposal.extraction.facts[p], stated(memories[m], table)[e])),
    )
}

proof fn lemma_one_more(
    proposal: Proposal,
    memories: Seq<MemoryView>,
    table: Map<Seq<char>, Reading>,
)
    requires
        memories.len() > 0,
        against_memories(proposal, memories, table) is Ok,
    ensures
        against_memories(proposal, memories.drop_last(), table) is Ok,
        against_memories(proposal, memories, table) == against_memory(
            against_memories(proposal, memories.drop_last(), table)->Ok_0,
            proposal,
            memories.last(),
            proposal.extraction.facts,
            stated(memories.last(), table),
        ),
{
}

proof fn lemma_reasons(
    proposal: Proposal,
    memories: Seq<MemoryView>,
    table: Map<Seq<char>, Reading>,
    candidate: CandidateView,
)
    requires
        against_memories(proposal, memories, table) is Ok,
        against_memories(proposal, memories, table)->Ok_0.contains(candidate),
    ensures
        exists|m: int, p: int, e: int| #[trigger]
            is_reason(candidate, proposal, memories, table, m, p, e),
    decreases memories.len(),
{
    if memories.len() > 0 {
        let rest = memories.drop_last();
        let last = memories.last();
        let facts = proposal.extraction.facts;
        lemma_one_more(proposal, memories, table);
        let before = against_memories(proposal, rest, table)->Ok_0;
        lemma_memory(before, proposal, last, facts, stated(last, table));
        assert(memories[memories.len() - 1] == last);
        if before.contains(candidate) {
            lemma_reasons(proposal, rest, table, candidate);
            let (m, p, e) = choose|m: int, p: int, e: int| #[trigger]
                is_reason(candidate, proposal, rest, table, m, p, e);
            assert(memories[m] == rest[m]);
            assert(is_reason(candidate, proposal, memories, table, m, p, e));
        } else {
            assert(answers(candidate, last, proposal, facts, stated(last, table)));
            let (p, e) = choose|p: int, e: int|
                0 <= p < facts.len() && 0 <= e < stated(last, table).len() && is_answer(
                    candidate,
                    last,
                    proposal,
                    #[trigger] facts[p],
                    #[trigger] stated(last, table)[e],
                );
            assert(is_reason(candidate, proposal, memories, table, memories.len() - 1, p, e));
        }
    }
}

proof fn lemma_justice(
    proposal: Proposal,
    memories: Seq<MemoryView>,
    table: Map<Seq<char>, Reading>,
    m: int,
    p: int,
    e: int,
)
    requires
        against_memories(proposal, memories, table) is Ok,
    ensures
        does_justice(
            against_memories(proposal, memories, table)->Ok_0,
            proposal,
            memories,
            table,
            m,
            p,
            e,
        ),
    decreases memories.len(),
{
    if facts_meet(proposal, memories, table, m, p, e) {
        let rest = memories.drop_last();
        let last = memories.last();
        let facts = proposal.extraction.facts;
        lemma_one_more(proposal, memories, table);
        let before = against_memories(proposal, rest, table)->Ok_0;
        let found = against_memories(proposal, memories, table)->Ok_0;
        lemma_memory(before, proposal, last, facts, stated(last, table));
        if m < rest.len() {
            assert(rest[m] == memories[m]);
            lemma_justice(proposal, rest, table, m, p, e);
            let level = weight(suggestion(facts[p], stated(rest[m], table)[e]));
            assert(covers(before, rest[m].metadata.id, level));
            assert(covers(found, rest[m].metadata.id, level));
        } else {
            assert(memories[m] == last);
            assert(meet(facts[p], stated(last, table)[e], proposal.now));
        }
    }
}

/// Every candidate has its reason: a current fact of the proposal and a current
/// fact of that memory, of the same subject and the same relation, which suggest
/// what the candidate suggests.
pub proof fn candidates_have_their_reason(
    proposal: Proposal,
    memories: Seq<MemoryView>,
    table: Map<Seq<char>, Reading>,
    k: int,
)
    requires
        against_memories(proposal, memories, table) is Ok,
        0 <= k < against_memories(proposal, memories, table)->Ok_0.len(),
    ensures
        exists|m: int, p: int, e: int| #[trigger]
            is_reason(
                against_memories(proposal, memories, table)->Ok_0[k],
                proposal,
                memories,
                table,
                m,
                p,
                e,
            ),
{
    let found = against_memories(proposal, memories, table)->Ok_0;
    assert(found.contains(found[k]));
    lemma_reasons(proposal, memories, table, found[k]);
}

/// Every memory with a fact that meets one of the proposal is a candidate, and
/// what is suggested for it weighs no less than what the two suggest.
pub proof fn facts_that_meet_make_candidates(
    proposal: Proposal,
    memories: Seq<MemoryView>,
    table: Map<Seq<char>, Reading>,
    m: int,
    p: int,
    e: int,
)
    requires
        against_memories(proposal, memories, table) is Ok,
        facts_meet(proposal, memories, table, m, p, e),
    ensures
        covers(
            against_memories(proposal, memories, table)->Ok_0,
            memories[m].metadata.id,
            weight(suggestion(proposal.extraction.facts[p], stated(memories[m], table)[e])),
        ),
{
    lemma_justice(proposal, memories, table, m, p, e);
}

/// A memory is a candidate once.
pub proof fn memories_are_candidates_once(
    proposal: Proposal,
    memories: Seq<MemoryView>,
    table: Map<Seq<char>, Reading>,
)
    requires
        against_memories(proposal, memories, table) is Ok,
        forall|i: int, j: int|
            0 <= i < j < memories.len() ==> (#[trigger] memories[i]).metadata.id != (
            #[trigger] memories[j]).metadata.id,
    ensures
        once_each(against_memories(proposal, memories, table)->Ok_0),
    decreases memories.len(),
{
    if memories.len() > 0 {
        let rest = memories.drop_last();
        let last = memories.last();
        assert(memories[memories.len() - 1] == last);
        assert forall|i: int, j: int| 0 <= i < j < rest.len() implies (
        #[trigger] rest[i]).metadata.id != (#[trigger] rest[j]).metadata.id by {
            assert(rest[i] == memories[i] && rest[j] == memories[j]);
        }
        memories_are_candidates_once(proposal, rest, table);
        lemma_one_more(proposal, memories, table);
        let before = against_memories(proposal, rest, table)->Ok_0;
        assert forall|i: int| 0 <= i < before.len() implies (
        #[trigger] before[i]).memory.metadata.id != last.metadata.id by {
            assert(before.contains(before[i]));
            lemma_reasons(proposal, rest, table, before[i]);
            let (m, p, e) = choose|m: int, p: int, e: int| #[trigger]
                is_reason(before[i], proposal, rest, table, m, p, e);
            assert(memories[m] == rest[m]);
        }
        lemma_memory(before, proposal, last, proposal.extraction.facts, stated(last, table));
    }
}

/// The memories that a proposal is held against: the active ones of its scope.
pub open spec fn held_against(memories: Seq<MemoryView>, scope: MemoryScope) -> Seq<MemoryView> {
    listed(memories, &scope_filter(scope))
}

/// What a search comes to where no memory says the same.
proof fn lemma_searched(
    memories: Seq<MemoryView>,
    body: Seq<char>,
    scope: MemoryScope,
    table: Map<Seq<char>, Reading>,
    now: int,
)
    requires
        searched(memories, body, scope, table, now) is Ok,
        repeated(held_against(memories, scope), body).len() == 0,
    ensures
        ({
            let proposal = the_proposal(body, scope, table, now);
            let active = held_against(memories, scope);
            &&& extraction_of(proposed_memory(body, scope), table) is Ok
            &&& against_memories(proposal, active, table) is Ok
            &&& searched(memories, body, scope, table, now)->Ok_0 == candidates_plan(
                against_memories(proposal, active, table)->Ok_0,
            )
        }),
{
}

/// A proposal, with the facts that it states.
pub open spec fn the_proposal(
    body: Seq<char>,
    scope: MemoryScope,
    table: Map<Seq<char>, Reading>,
    now: int,
) -> Proposal {
    Proposal { extraction: extraction_of(proposed_memory(body, scope), table)->Ok_0, now }
}

proof fn lemma_repeated(active: Seq<MemoryView>, body: Seq<char>)
    ensures
        forall|memory: MemoryView| #[trigger]
            repeated(active, body).contains(memory) <==> active.contains(memory) && canonical(
                memory.body,
            ) == canonical(body),
{
    let wanted = |memory: MemoryView| canonical(memory.body) == canonical(body);
    filtering_keeps_what_is_wanted(active, wanted);
    assert forall|memory: MemoryView| #[trigger]
        repeated(active, body).contains(memory) <==> active.contains(memory) && canonical(
            memory.body,
        ) == canonical(body) by {
        assert(active.filter(wanted).contains(memory) <==> active.contains(memory) && wanted(
            memory,
        ));
    }
}

/// A proposal of which no active memory of the scope says the same, or states a
/// current fact of the same subject and relation, is to be added.
pub proof fn new_proposals_are_added(
    memories: Seq<MemoryView>,
    body: Seq<char>,
    scope: MemoryScope,
    table: Map<Seq<char>, Reading>,
    now: int,
)
    requires
        searched(memories, body, scope, table, now) is Ok,
        forall|memory: MemoryView| #[trigger]
            held_against(memories, scope).contains(memory) ==> canonical(memory.body) != canonical(
                body,
            ),
        forall|m: int, p: int, e: int|
            !(#[trigger] facts_meet(
                the_proposal(body, scope, table, now),
                held_against(memories, scope),
                table,
                m,
                p,
                e,
            )),
    ensures
        searched(memories, body, scope, table, now)->Ok_0 == (PlanView {
            suggested_action: ReviewAction::Add,
            target: None,
            candidates: seq![],
            reason: "no-explicit-target"@,
        }),
{
    let active = held_against(memories, scope);
    let same = repeated(active, body);
    lemma_repeated(active, body);
    if same.len() > 0 {
        assert(same.contains(same[0]));
    }
    lemma_searched(memories, body, scope, table, now);
    let proposal = the_proposal(body, scope, table, now);
    let candidates = against_memories(proposal, active, table)->Ok_0;
    if candidates.len() > 0 {
        candidates_have_their_reason(proposal, active, table, 0);
        let (m, p, e) = choose|m: int, p: int, e: int| #[trigger]
            is_reason(candidates[0], proposal, active, table, m, p, e);
        assert(facts_meet(proposal, active, table, m, p, e));
    }
    assert(candidates =~= seq![]);
}

/// Where no memory says the same, the candidates of a plan are those of the
/// facts that meet: each has its reason, and each such fact makes one.
pub proof fn plans_go_by_facts_that_meet(
    memories: Seq<MemoryView>,
    body: Seq<char>,
    scope: MemoryScope,
    table: Map<Seq<char>, Reading>,
    now: int,
    k: int,
    m: int,
    p: int,
    e: int,
)
    requires
        searched(memories, body, scope, table, now) is Ok,
        forall|memory: MemoryView| #[trigger]
            held_against(memories, scope).contains(memory) ==> canonical(memory.body) != canonical(
                body,
            ),
    ensures
        ({
            let plan = searched(memories, body, scope, table, now)->Ok_0;
            let proposal = the_proposal(body, scope, table, now);
            let active = held_against(memories, scope);
            &&& 0 <= k < plan.candidates.len() ==> exists|m: int, p: int, e: int| #[trigger]
                is_reason(plan.candidates[k], proposal, active, table, m, p, e)
            &&& facts_meet(proposal, active, table, m, p, e) ==> covers(
                plan.candidates,
                active[m].metadata.id,
                weight(suggestion(proposal.extraction.facts[p], stated(active[m], table)[e])),
            )
        }),
{
    let active = held_against(memories, scope);
    let same = repeated(active, body);
    lemma_repeated(active, body);
    if same.len() > 0 {
        assert(same.contains(same[0]));
    }
    lemma_searched(memories, body, scope, table, now);
    let proposal = the_proposal(body, scope, table, now);
    let candidates = against_memories(proposal, active, table)->Ok_0;
    if 0 <= k < candidates.len() {
        candidates_have_their_reason(proposal, active, table, k);
    }
    lemma_justice(proposal, active, table, m, p, e);
}

/// What one memory that says the same makes of a proposal: nothing is to be
/// done. Of several none can be told from the others.
pub proof fn repeated_proposals_are_not_added(
    memories: Seq<MemoryView>,
    body: Seq<char>,
    scope: MemoryScope,
    table: Map<Seq<char>, Reading>,
    now: int,
    memory: MemoryView,
)
    requires
        held_against(memories, scope).contains(memory),
        canonical(memory.body) == canonical(body),
    ensures
        searched(memories, body, scope, table, now) matches Ok(plan) && {
            &&& plan.candidates.len() > 0
            &&& forall|k: int|
                0 <= k < plan.candidates.len() ==> canonical(
                    (#[trigger] plan.candidates[k]).memory.body,
                ) == canonical(body) && plan.candidates[k].suggested_action == ReviewAction::NoOp
                    && held_against(memories, scope).contains(plan.candidates[k].memory)
            &&& exists|k: int|
                0 <= k < plan.candidates.len() && (#[trigger] plan.candidates[k]).memory == memory
            &&& plan.candidates.len() == 1 ==> plan.suggested_action == ReviewAction::NoOp
                && plan.target == Some(memory)
            &&& plan.candidates.len() > 1 ==> plan.suggested_action == ReviewAction::Add
                && plan.target is None
        },
{
    let active = held_against(memories, scope);
    let same = repeated(active, body);
    lemma_repeated(active, body);
    assert(same.contains(memory));
    let k = choose|k: int| 0 <= k < same.len() && same[k] == memory;
    let plan = searched(memories, body, scope, table, now)->Ok_0;
    assert(plan.candidates == repetitions(same));
    assert(plan.candidates[k].memory == memory);
    assert forall|k: int| 0 <= k < plan.candidates.len() implies canonical(
        (#[trigger] plan.candidates[k]).memory.body,
    ) == canonical(body) && plan.candidates[k].suggested_action == ReviewAction::NoOp
        && active.contains(plan.candidates[k].memory) by {
        assert(same.contains(same[k]));
    }
}

/// What a plan by facts suggests: what its one candidate suggests, with that
/// memory as the target; with several, or none, that the proposal is added.
pub proof fn one_candidate_is_the_target(
    memories: Seq<MemoryView>,
    body: Seq<char>,
    scope: MemoryScope,
    table: Map<Seq<char>, Reading>,
    now: int,
)
    requires
        searched(memories, body, scope, table, now) is Ok,
    ensures
        ({
            let plan = searched(memories, body, scope, table, now)->Ok_0;
            &&& plan.candidates.len() == 1 ==> plan.target == Some(plan.candidates[0].memory)
                && plan.suggested_action == plan.candidates[0].suggested_action
            &&& plan.candidates.len() != 1 ==> plan.target is None && plan.suggested_action
                == ReviewAction::Add
        }),
{
}

/// A named memory is the target: it is updated, unless it says the same already;
/// one that is not active is refused.
pub proof fn named_memories_are_targets(target: MemoryView, body: Seq<char>)
    ensures
        match targeted(target, body) {
            Ok(plan) => {
                &&& target.metadata.status == MemoryStatus::Active
                &&& plan.target == Some(target)
                &&& plan.candidates.len() == 0
                &&& plan.suggested_action == ReviewAction::NoOp <==> canonical(target.body)
                    == canonical(body)
                &&& plan.suggested_action != ReviewAction::NoOp ==> plan.suggested_action
                    == ReviewAction::Update
            },
            Err(_) => target.metadata.status != MemoryStatus::Active,
        },
{
}

proof fn lemma_answers()
    ensures
        ""@.len() == 0,
        "a"@.len() == 1 && "a"@[0] == 'a',
        "p"@.len() == 1 && "p"@[0] == 'p',
        "u"@.len() == 1 && "u"@[0] == 'u',
        "s"@.len() == 1 && "s"@[0] == 's',
        "n"@.len() == 1 && "n"@[0] == 'n',
        "q"@.len() == 1 && "q"@[0] == 'q',
        "add"@.len() == 3,
        "noop"@.len() == 4,
        "no-op"@.len() == 5 && "no-op"@[0] == 'n',
        "abort"@.len() == 5 && "abort"@[0] == 'a',
        "append"@.len() == 6 && "append"@[0] == 'a',
        "update"@.len() == 6 && "update"@[0] == 'u',
        "supersede"@.len() == 9,
{
    reveal_strlit("");
    reveal_strlit("a");
    reveal_strlit("p");
    reveal_strlit("u");
    reveal_strlit("s");
    reveal_strlit("n");
    reveal_strlit("q");
    reveal_strlit("add");
    reveal_strlit("noop");
    reveal_strlit("no-op");
    reveal_strlit("abort");
    reveal_strlit("append");
    reveal_strlit("update");
    reveal_strlit("supersede");
}

/// What an answer in a review does, in whatever case it is typed: no answer takes
/// the suggestion, and a memory is changed only where the plan names one.
pub proof fn answers_choose_actions(answer: Seq<char>, plan: PlanView)
    ensures
        ({
            let typed = ascii_lower(trimmed(answer));
            let choice = choice_of(answer, plan);
            let is_change = typed == "append"@ || typed == "p"@ || typed == "update"@ || typed
                == "u"@ || typed == "supersede"@ || typed == "s"@;
            &&& typed == ""@ ==> choice == Ok::<_, Seq<char>>(plan.suggested_action)
            &&& typed != ""@ ==> {
                &&& choice == Ok::<_, Seq<char>>(ReviewAction::Add) <==> typed == "add"@ || typed
                    == "a"@
                &&& choice == Ok::<_, Seq<char>>(ReviewAction::Append) <==> plan.target is Some && (
                typed == "append"@ || typed == "p"@)
                &&& choice == Ok::<_, Seq<char>>(ReviewAction::Update) <==> plan.target is Some && (
                typed == "update"@ || typed == "u"@)
                &&& choice == Ok::<_, Seq<char>>(ReviewAction::Supersede) <==> plan.target is Some
                    && (typed == "supersede"@ || typed == "s"@)
                &&& choice == Ok::<_, Seq<char>>(ReviewAction::NoOp) <==> typed == "no-op"@ || typed
                    == "noop"@ || typed == "n"@
                &&& choice == Ok::<_, Seq<char>>(ReviewAction::Abort) <==> typed == "abort"@
                    || typed == "q"@
            }
            &&& is_change && plan.target is None ==> choice is Err
        }),
{
    lemma_answers();
}

/// Nothing is planned for a text of white space.
pub proof fn blanks_are_not_reviewed(
    memories: Seq<MemoryView>,
    id: Option<Seq<char>>,
    body: Seq<char>,
    scope: MemoryScope,
    table: Map<Seq<char>, Reading>,
    now: int,
    plan: Result<PlanView, Seq<char>>,
)
    requires
        is_plan(memories, id, body, scope, table, now, plan),
        forall|i: int| 0 <= i < body.len() ==> is_space(#[trigger] body[i]),
    ensures
        plan is Err,
{
    crate::keeping_laws::blank_texts_are_white(body);
}

/// Where a memory is named, the plan is about that memory and no other, if it is
/// active; and it is changed only where it would say something else.
pub proof fn named_memories_are_planned_for(
    memories: Seq<MemoryView>,
    id: Seq<char>,
    body: Seq<char>,
    scope: MemoryScope,
    table: Map<Seq<char>, Reading>,
    now: int,
    plan: PlanView,
)
    requires
        is_plan(memories, Some(id), body, scope, table, now, Ok::<_, Seq<char>>(plan)),
    ensures
        plan.target matches Some(target) && {
            &&& memories.contains(target)
            &&& id.is_prefix_of(target.metadata.id)
            &&& target.metadata.status == MemoryStatus::Active
            &&& plan.suggested_action == ReviewAction::NoOp <==> canonical(target.body)
                == canonical(body)
            &&& plan.suggested_action == ReviewAction::Update <==> canonical(target.body)
                != canonical(body)
            &&& plan.candidates.len() == 0
        },
{
    let target = choose|target: MemoryView|
        Ok::<_, Seq<char>>(plan) == targeted(target, body) && #[trigger] is_found(
            memories,
            id,
            Ok::<_, Seq<char>>(target),
        );
    crate::keeping_laws::what_is_found_was_meant(memories, id, target);
}

/// A proposal is held against the active memories of its scope, and no others.
pub proof fn active_memories_of_the_scope_count(
    memories: Seq<MemoryView>,
    scope: MemoryScope,
    memory: MemoryView,
)
    ensures
        held_against(memories, scope).contains(memory) <==> memories.contains(memory)
            && memory.metadata.status == MemoryStatus::Active && memory.metadata.scope == scope,
{
    crate::keeping_laws::listings_hold_what_is_asked_for(memories, &scope_filter(scope), memory);
}

/// A proposal is read as a memory that says what it says, in its scope, and of
/// which nothing is doubted.
pub proof fn proposals_are_read_as_written(body: Seq<char>, scope: MemoryScope)
    ensures
        proposed_memory(body, scope).body == body,
        proposed_memory(body, scope).metadata.scope == scope,
        proposed_memory(body, scope).metadata.status == MemoryStatus::Active,
        proposed_memory(body, scope).metadata.confidence == Some("1.0"@),
        proposed_memory(body, scope).metadata.updated_at == "0"@,
{
}

} // verus!
