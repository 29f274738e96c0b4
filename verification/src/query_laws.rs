//! Which facts a query lists, and in which order.

use vstd::prelude::*;

use crate::clock::{instant_of, seconds_of, TimeKind};
use crate::fact_laws::{finds, queries_find_what_holds};
use crate::order::{self, Ranked};
use crate::order_laws::{is_ranking, sorting_puts_in_rank};
use crate::semantic::{
    candidates_of, found_facts, is_asked_for, normal_relation, plan_of, row_views, CandidateView,
    FactCandidate, FactQuery, FactRowView, QueryPlan, StoredView,
};
use crate::text::ascii_lower;

verus! {

/// The time that a query is about; none where facts of all times are wanted.
pub open spec fn asked_time(query: &FactQuery, now: int) -> Option<int> {
    match query.at {
        Some(at) => match instant_of(at@) {
            Ok(seconds) => Some(seconds),
            Err(_) => None,
        },
        None => if query.include_expired {
            None
        } else {
            Some(now)
        },
    }
}

/// Whether a row is about an entity, in whatever case it is written.
pub open spec fn is_about(row: FactRowView, entity: Seq<char>) -> bool {
    ascii_lower(row.subject) == ascii_lower(entity) || ascii_lower(row.object) == ascii_lower(
        entity,
    )
}

/// Whether a time has come, or has not come yet, counted in seconds.
pub open spec fn has_begun(value: Option<Seq<char>>, kind: TimeKind, at: int) -> bool {
    value matches Some(value) ==> seconds_of(value, kind) is Ok && seconds_of(value, kind)->Ok_0
        <= at
}

pub open spec fn is_ahead(value: Option<Seq<char>>, kind: TimeKind, at: int) -> bool {
    value matches Some(value) ==> seconds_of(value, kind) is Ok && at < seconds_of(
        value,
        kind,
    )->Ok_0
}

/// Whether a stored fact is one that a query asks for: its memory is active, it
/// is about the entity and of the relation, and it has begun and not ended at the
/// time.
pub open spec fn is_wanted(stored: StoredView, query: &FactQuery, now: int) -> bool {
    let row = stored.row;
    let kind = TimeKind::of_name(stored.time_kind);
    &&& stored.source_is_active
    &&& query.entity matches Some(entity) ==> is_about(row, entity@)
    &&& query.relation matches Some(relation) ==> normal_relation(relation@) == Ok::<_, Seq<char>>(
        row.relation,
    )
    &&& kind is Ok
    &&& asked_time(query, now) matches Some(at) ==> {
        &&& has_begun(row.valid_from, kind->Ok_0, at)
        &&& is_ahead(row.valid_to, kind->Ok_0, at)
        &&& is_ahead(row.expired_at, kind->Ok_0, at)
    }
}

proof fn lemma_wanted(stored: StoredView, query: &FactQuery, now: int)
    requires
        plan_of(query, now) is Ok,
    ensures
        finds(stored, query.entity.deep_view(), plan_of(query, now)->Ok_0) == is_wanted(
            stored,
            query,
            now,
        ),
{
}

/// The rows of a query are those of the stored facts that are wanted: no other
/// fact has one, and none of these is left out.
pub proof fn rows_are_of_wanted_facts(
    stored: Seq<StoredView>,
    query: &FactQuery,
    now: int,
    row: FactRowView,
)
    requires
        found_facts(stored, query, now) is Ok,
    ensures
        found_facts(stored, query, now)->Ok_0.contains(row) <==> exists|i: int|
            0 <= i < stored.len() && is_wanted(stored[i], query, now) && #[trigger] stored[i].row
                == row,
{
    queries_find_what_holds(stored, query, now, row);
    let plan = plan_of(query, now)->Ok_0;
    let entity = query.entity.deep_view();
    assert forall|i: int| 0 <= i < stored.len() implies is_wanted(stored[i], query, now) == finds(
        #[trigger] stored[i],
        entity,
        plan,
    ) by {
        lemma_wanted(stored[i], query, now);
    }
    if exists|i: int|
        0 <= i < stored.len() && finds(stored[i], entity, plan) && #[trigger] stored[i].row == row {
        let i = choose|i: int|
            0 <= i < stored.len() && finds(stored[i], entity, plan) && #[trigger] stored[i].row
                == row;
        assert(is_wanted(stored[i], query, now));
    }
}

/// How many of the stored facts are wanted.
pub open spec fn wanted_count(stored: Seq<StoredView>, query: &FactQuery, now: int) -> nat
    decreases stored.len(),
{
    if stored.len() == 0 {
        0
    } else {
        wanted_count(stored.drop_last(), query, now) + if is_wanted(stored.last(), query, now) {
            1nat
        } else {
            0nat
        }
    }
}

proof fn lemma_candidate_count(stored: Seq<StoredView>, query: &FactQuery, now: int)
    requires
        plan_of(query, now) is Ok,
        candidates_of(stored, query.entity.deep_view(), plan_of(query, now)->Ok_0) is Ok,
    ensures
        candidates_of(
            stored,
            query.entity.deep_view(),
            plan_of(query, now)->Ok_0,
        )->Ok_0.len() == wanted_count(stored, query, now),
    decreases stored.len(),
{
    if stored.len() > 0 {
        lemma_candidate_count(stored.drop_last(), query, now);
        lemma_wanted(stored.last(), query, now);
    }
}

/// Each wanted fact has one row, and there are no more.
pub proof fn each_wanted_fact_has_a_row(stored: Seq<StoredView>, query: &FactQuery, now: int)
    requires
        found_facts(stored, query, now) is Ok,
    ensures
        found_facts(stored, query, now)->Ok_0.len() == wanted_count(stored, query, now),
{
    let plan = plan_of(query, now)->Ok_0;
    let candidates = candidates_of(stored, query.entity.deep_view(), plan)->Ok_0;
    lemma_candidate_count(stored, query, now);
    lemma_listing_ranks();
    sorting_puts_in_rank(
        candidates,
        |left: CandidateView, right: CandidateView| FactCandidate::ranks_before(left, right),
    );
}

/// A fact whose memory is not active adds nothing to a query, wherever it is
/// stored and whatever else it holds.
pub proof fn facts_of_inactive_memories_do_not_count(
    stored: Seq<StoredView>,
    query: &FactQuery,
    now: int,
    at: int,
)
    requires
        0 <= at < stored.len(),
        !stored[at].source_is_active,
    ensures
        found_facts(stored, query, now) == found_facts(stored.remove(at), query, now),
{
    if plan_of(query, now) is Ok {
        lemma_without(stored, query.entity.deep_view(), plan_of(query, now)->Ok_0, at);
    }
}

/// Nor does a fact of another relation, or one about other entities.
pub proof fn facts_of_others_do_not_count(
    stored: Seq<StoredView>,
    query: &FactQuery,
    now: int,
    at: int,
)
    requires
        0 <= at < stored.len(),
        (query.relation matches Some(relation) && normal_relation(relation@) is Ok
            && normal_relation(relation@) != Ok::<_, Seq<char>>(stored[at].row.relation)) || (
        query.entity matches Some(entity) && !is_about(stored[at].row, entity@)),
    ensures
        found_facts(stored, query, now) == found_facts(stored.remove(at), query, now),
{
    if plan_of(query, now) is Ok {
        lemma_without(stored, query.entity.deep_view(), plan_of(query, now)->Ok_0, at);
    }
}

proof fn lemma_without(
    stored: Seq<StoredView>,
    entity: Option<Seq<char>>,
    plan: QueryPlan,
    at: int,
)
    requires
        0 <= at < stored.len(),
        !is_asked_for(stored[at], entity, plan.relation),
    ensures
        candidates_of(stored, entity, plan) == candidates_of(stored.remove(at), entity, plan),
    decreases stored.len(),
{
    let rest = stored.drop_last();
    if at == stored.len() - 1 {
        assert(stored.remove(at) =~= rest);
    } else {
        assert(rest[at] == stored[at]);
        lemma_without(rest, entity, plan, at);
        assert(stored.remove(at).drop_last() =~= rest.remove(at));
        assert(stored.remove(at).last() == stored.last());
    }
}

/// The time that a row is listed by, in seconds: its start, or when it was
/// learned.
pub open spec fn listed_by(stored: StoredView) -> int {
    match stored.row.valid_from {
        Some(value) => seconds_of(value, TimeKind::of_name(stored.time_kind)->Ok_0)->Ok_0,
        None => instant_of(stored.row.learned_at)->Ok_0,
    }
}

spec fn is_candidate(stored: Seq<StoredView>, candidate: CandidateView) -> bool {
    exists|i: int|
        0 <= i < stored.len() && (#[trigger] stored[i]).row == candidate.row && listed_by(stored[i])
            == candidate.sort_time
}

proof fn lemma_candidate_times(
    stored: Seq<StoredView>,
    entity: Option<Seq<char>>,
    plan: QueryPlan,
)
    requires
        candidates_of(stored, entity, plan) is Ok,
    ensures
        forall|k: int|
            0 <= k < candidates_of(stored, entity, plan)->Ok_0.len() ==> is_candidate(
                stored,
                #[trigger] candidates_of(stored, entity, plan)->Ok_0[k],
            ),
    decreases stored.len(),
{
    if stored.len() > 0 {
        let rest = stored.drop_last();
        lemma_candidate_times(rest, entity, plan);
        let before = candidates_of(rest, entity, plan)->Ok_0;
        let all = candidates_of(stored, entity, plan)->Ok_0;
        assert forall|k: int| 0 <= k < all.len() implies is_candidate(
            stored,
            #[trigger] all[k],
        ) by {
            if k < before.len() {
                assert(all[k] == before[k]);
                let i = choose|i: int|
                    0 <= i < rest.len() && (#[trigger] rest[i]).row == before[k].row && listed_by(
                        rest[i],
                    ) == before[k].sort_time;
                assert(stored[i] == rest[i]);
            } else {
                assert(stored[stored.len() - 1] == stored.last());
            }
        }
    }
}

proof fn lemma_listing_ranks()
    ensures
        is_ranking(
            |left: CandidateView, right: CandidateView| FactCandidate::ranks_before(left, right),
        ),
{
    let before = |left: CandidateView, right: CandidateView|
        FactCandidate::ranks_before(left, right);
    assert forall|a: CandidateView, b: CandidateView| #[trigger] before(a, b) implies !before(
        b,
        a,
    ) by {
        order::text_less_is_total(a.row.id, b.row.id);
    }
    assert forall|a: CandidateView, b: CandidateView, c: CandidateView|
        !(#[trigger] before(b, a)) && !(#[trigger] before(c, b)) implies !before(c, a) by {
        order::text_less_is_total(b.row.id, a.row.id);
        order::text_less_is_total(c.row.id, b.row.id);
        if order::text_less(c.row.id, a.row.id) && a.row.id != b.row.id && order::text_less(
            a.row.id,
            b.row.id,
        ) {
            order::text_less_is_transitive(c.row.id, a.row.id, b.row.id);
        }
    }
}

/// Of two rows the one that is listed first comes from a stored fact that began
/// later, or at the same time with no greater id.
pub proof fn latest_facts_come_first(
    stored: Seq<StoredView>,
    query: &FactQuery,
    now: int,
    i: int,
    j: int,
) -> (sources: (int, int))
    requires
        found_facts(stored, query, now) is Ok,
        0 <= i < j < found_facts(stored, query, now)->Ok_0.len(),
    ensures
        ({
            let rows = found_facts(stored, query, now)->Ok_0;
            let (a, b) = sources;
            &&& 0 <= a < stored.len() && stored[a].row == rows[i]
            &&& 0 <= b < stored.len() && stored[b].row == rows[j]
            &&& listed_by(stored[a]) >= listed_by(stored[b])
            &&& listed_by(stored[a]) == listed_by(stored[b]) ==> !order::text_less(
                rows[j].id,
                rows[i].id,
            )
        }),
{
    let plan = plan_of(query, now)->Ok_0;
    let entity = query.entity.deep_view();
    let candidates = candidates_of(stored, entity, plan)->Ok_0;
    let before = |left: CandidateView, right: CandidateView|
        FactCandidate::ranks_before(left, right);
    let sorted = order::ranked::<FactCandidate>(candidates);
    let rows = row_views(sorted);
    lemma_listing_ranks();
    sorting_puts_in_rank(candidates, before);
    order::lemma_sorted_members(candidates, before);
    lemma_candidate_times(stored, entity, plan);
    assert(sorted.contains(sorted[i]) && sorted.contains(sorted[j]));
    assert(candidates.contains(sorted[i]) && candidates.contains(sorted[j]));
    let k = choose|k: int| 0 <= k < candidates.len() && candidates[k] == sorted[i];
    let l = choose|l: int| 0 <= l < candidates.len() && candidates[l] == sorted[j];
    assert(is_candidate(stored, candidates[k]) && is_candidate(stored, candidates[l]));
    assert(!before(sorted[j], sorted[i]));
    let a = choose|a: int|
        0 <= a < stored.len() && (#[trigger] stored[a]).row == sorted[i].row && listed_by(
            stored[a],
        ) == sorted[i].sort_time;
    let b = choose|b: int|
        0 <= b < stored.len() && (#[trigger] stored[b]).row == sorted[j].row && listed_by(
            stored[b],
        ) == sorted[j].sort_time;
    (a, b)
}

/// Whether the times of a stored fact can be read, in the kind that is stored with
/// it.
pub open spec fn has_sound_times(stored: StoredView) -> bool {
    &&& TimeKind::of_name(stored.time_kind) is Ok
    &&& {
        let kind = TimeKind::of_name(stored.time_kind)->Ok_0;
        &&& stored.row.valid_from matches Some(value) ==> seconds_of(value, kind) is Ok
        &&& stored.row.valid_to matches Some(value) ==> seconds_of(value, kind) is Ok
        &&& stored.row.expired_at matches Some(value) ==> seconds_of(value, kind) is Ok
        &&& instant_of(stored.row.learned_at) is Ok
    }
}

proof fn lemma_sound(stored: Seq<StoredView>, entity: Option<Seq<char>>, plan: QueryPlan)
    requires
        forall|i: int| 0 <= i < stored.len() ==> has_sound_times(#[trigger] stored[i]),
    ensures
        candidates_of(stored, entity, plan) is Ok,
    decreases stored.len(),
{
    if stored.len() > 0 {
        let rest = stored.drop_last();
        assert(has_sound_times(stored[stored.len() - 1]));
        assert forall|i: int| 0 <= i < rest.len() implies has_sound_times(#[trigger] rest[i]) by {
            assert(rest[i] == stored[i]);
        }
        lemma_sound(rest, entity, plan);
    }
}

/// Where the times of the stored facts can be read, a query is answered, unless it
/// names a relation that there is not, or a time that is none.
pub proof fn sound_facts_are_always_found(stored: Seq<StoredView>, query: &FactQuery, now: int)
    requires
        forall|i: int| 0 <= i < stored.len() ==> has_sound_times(#[trigger] stored[i]),
    ensures
        found_facts(stored, query, now) is Ok <==> {
            &&& query.relation matches Some(relation) ==> normal_relation(relation@) is Ok
            &&& query.at matches Some(at) ==> instant_of(at@) is Ok
        },
{
    if plan_of(query, now) is Ok {
        lemma_sound(stored, query.entity.deep_view(), plan_of(query, now)->Ok_0);
    }
}

} // verus!
