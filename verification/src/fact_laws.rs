//! What holds of the facts that queries find.

use vstd::prelude::*;

use crate::clock::{self, instant_of, TimeKind};
use crate::order::{self, Ranked};
use crate::semantic::{
    candidates_of, found_facts, is_asked_for, plan_of, row_views, CandidateView, FactCandidate,
    FactQuery, FactRowView, QueryPlan, StoredView,
};

verus! {

/// Whether two queries ask for the same entity and relation.
pub open spec fn ask_alike(left: &FactQuery, right: &FactQuery) -> bool {
    &&& left.entity.deep_view() == right.entity.deep_view()
    &&& left.relation.deep_view() == right.relation.deep_view()
}

/// Two ways to write one instant find the same facts.
pub proof fn one_instant_finds_the_same_facts(
    stored: Seq<StoredView>,
    left: &FactQuery,
    right: &FactQuery,
    now: int,
)
    requires
        ask_alike(left, right),
        left.at is Some,
        right.at is Some,
        instant_of(left.at->Some_0@) == instant_of(right.at->Some_0@),
    ensures
        found_facts(stored, left, now) == found_facts(stored, right, now),
{
    assert(plan_of(left, now) == plan_of(right, now));
}

/// Without a time, the facts are found that are found at the time that it is.
pub proof fn current_facts_are_those_of_now(
    stored: Seq<StoredView>,
    current: &FactQuery,
    dated: &FactQuery,
    now: int,
)
    requires
        ask_alike(current, dated),
        current.at is None,
        !current.include_expired,
        dated.at is Some,
        instant_of(dated.at->Some_0@) == Ok::<_, Seq<char>>(now),
    ensures
        found_facts(stored, current, now) == found_facts(stored, dated, now),
{
    assert(plan_of(current, now) == plan_of(dated, now));
}

/// Whether a stored fact holds at a time; without one, every fact counts.
pub open spec fn holds(stored: StoredView, at: Option<int>) -> bool {
    match (TimeKind::of_name(stored.time_kind), at) {
        (Ok(kind), Some(at)) => clock::holds_at(
            stored.row.valid_from,
            stored.row.valid_to,
            stored.row.expired_at,
            kind,
            at,
        ) == Ok::<_, Seq<char>>(true),
        (Ok(_), None) => true,
        (Err(_), _) => false,
    }
}

/// Whether a plan finds a stored fact.
pub open spec fn finds(stored: StoredView, entity: Option<Seq<char>>, plan: QueryPlan) -> bool {
    is_asked_for(stored, entity, plan.relation) && holds(stored, plan.at)
}

proof fn lemma_candidates(
    stored: Seq<StoredView>,
    entity: Option<Seq<char>>,
    plan: QueryPlan,
    row: FactRowView,
)
    requires
        candidates_of(stored, entity, plan) is Ok,
    ensures
        row_views(candidates_of(stored, entity, plan)->Ok_0).contains(row) <==> exists|i: int|
            0 <= i < stored.len() && finds(stored[i], entity, plan) && #[trigger] stored[i].row
                == row,
    decreases stored.len(),
{
    let found = candidates_of(stored, entity, plan)->Ok_0;
    let rows = row_views(found);
    if stored.len() > 0 {
        let rest = stored.drop_last();
        let last = stored.last();
        lemma_candidates(rest, entity, plan, row);
        let before = candidates_of(rest, entity, plan)->Ok_0;
        let base = row_views(before);
        if finds(last, entity, plan) {
            assert(rows =~= base.push(last.row));
            assert(rows[base.len() as int] == last.row);
        } else {
            assert(found == before);
        }
        if rows.contains(row) {
            if base.contains(row) {
                let i = choose|i: int|
                    0 <= i < rest.len() && finds(rest[i], entity, plan) && #[trigger] rest[i].row
                        == row;
                assert(stored[i] == rest[i]);
                assert(stored[i].row == row);
            } else {
                let k = choose|k: int| 0 <= k < rows.len() && rows[k] == row;
                if k < base.len() {
                    assert(base[k] == row);
                }
                assert(stored[stored.len() - 1].row == row);
            }
        }
        if exists|i: int|
            0 <= i < stored.len() && finds(stored[i], entity, plan) && #[trigger] stored[i].row
                == row {
            let i = choose|i: int|
                0 <= i < stored.len() && finds(stored[i], entity, plan) && #[trigger] stored[i].row
                    == row;
            if i < rest.len() {
                assert(rest[i] == stored[i]);
                assert(rest[i].row == row);
                let k = choose|k: int| 0 <= k < base.len() && base[k] == row;
                assert(rows[k] == row);
            }
        }
    }
}

/// A query that is answered finds exactly the stored facts that are asked for
/// and hold at its time.
pub proof fn queries_find_what_holds(
    stored: Seq<StoredView>,
    query: &FactQuery,
    now: int,
    row: FactRowView,
)
    requires
        found_facts(stored, query, now) is Ok,
    ensures
        found_facts(stored, query, now)->Ok_0.contains(row) <==> exists|i: int|
            0 <= i < stored.len() && finds(
                stored[i],
                query.entity.deep_view(),
                plan_of(query, now)->Ok_0,
            ) && #[trigger] stored[i].row == row,
{
    let plan = plan_of(query, now)->Ok_0;
    let entity = query.entity.deep_view();
    let candidates = candidates_of(stored, entity, plan)->Ok_0;
    let sorted = order::ranked::<FactCandidate>(candidates);
    let before = |left: CandidateView, right: CandidateView|
        FactCandidate::ranks_before(left, right);
    lemma_candidates(stored, entity, plan, row);
    order::lemma_sorted_members(candidates, before);
    let found = row_views(sorted);
    let rows = row_views(candidates);
    if found.contains(row) {
        let k = choose|k: int| 0 <= k < found.len() && found[k] == row;
        assert(sorted.contains(sorted[k]));
        let j = choose|j: int| 0 <= j < candidates.len() && candidates[j] == sorted[k];
        assert(rows[j] == row);
    }
    if rows.contains(row) {
        let j = choose|j: int| 0 <= j < rows.len() && rows[j] == row;
        assert(sorted.contains(candidates[j]));
        let k = choose|k: int| 0 <= k < sorted.len() && sorted[k] == candidates[j];
        assert(found[k] == row);
    }
}

/// Every fact that is found at a time is among those that are found when expired
/// facts are wanted too.
pub proof fn facts_of_a_time_are_among_all(
    stored: Seq<StoredView>,
    dated: &FactQuery,
    every: &FactQuery,
    now: int,
    row: FactRowView,
)
    requires
        ask_alike(dated, every),
        every.at is None,
        every.include_expired,
        found_facts(stored, dated, now) is Ok,
        found_facts(stored, every, now) is Ok,
        found_facts(stored, dated, now)->Ok_0.contains(row),
    ensures
        found_facts(stored, every, now)->Ok_0.contains(row),
{
    queries_find_what_holds(stored, dated, now, row);
    queries_find_what_holds(stored, every, now, row);
    let plan = plan_of(dated, now)->Ok_0;
    let i = choose|i: int|
        0 <= i < stored.len() && finds(stored[i], dated.entity.deep_view(), plan)
            && #[trigger] stored[i].row == row;
    assert(finds(stored[i], every.entity.deep_view(), plan_of(every, now)->Ok_0));
}

} // verus!
