//! What is decided about conflicts: which are accepted, which are asked for, and
//! what is kept and what ends when one is resolved.

use vstd::prelude::*;

use crate::acceptance::{accepted, decided, decision_for, is_control, is_reason, Decision};
use crate::conflict::{
    AcceptanceView, ConflictFactView, ConflictKind, ConflictStatus, ConflictView, MemberView,
};
use crate::conflict_cache::{
    conflict_in, conflicts_in, found, named, queried, stored_of, unaccepted, StoredConflict,
    StoredView,
};
use crate::keeping_laws::blank_texts_are_white;
use crate::memory::MemoryScope;
use crate::order::{self, text_less, Ranked};
use crate::order_laws::{
    filtering_keeps_what_is_wanted, goes_first_by, sorting_goes_by_the_first_key,
};
use crate::resolution::{fact_ids, fact_with, planned, selected, selection_is_a_candidate};
use crate::semantic::same_object;
use crate::text::{ascii_lower, is_space, joined, words};

verus! {

// Decisions.

proof fn lemma_last_decision(decisions: Seq<Decision>, id: Seq<char>, at: int)
    requires
        -1 <= at < decisions.len(),
        at >= 0 ==> decisions[at].0 == id,
        forall|i: int| at < i < decisions.len() ==> (#[trigger] decisions[i]).0 != id,
    ensures
        decision_for(decisions, id) == if at < 0 {
            None
        } else {
            Some(decisions[at].1)
        },
    decreases decisions.len(),
{
    if decisions.len() > 0 {
        let rest = decisions.drop_last();
        assert(decisions[decisions.len() - 1] == decisions.last());
        if at < rest.len() {
            assert forall|i: int| at < i < rest.len() implies (#[trigger] rest[i]).0 != id by {
                assert(rest[i] == decisions[i]);
            }
            lemma_last_decision(rest, id, at);
        }
    }
}

/// A conflict that nothing was decided about stays as it is. Otherwise the last
/// decision about it counts: it is accepted where the evidence is the one that was
/// decided about, and reopened where it is not; nothing else changes.
pub proof fn the_last_decision_counts(conflict: ConflictView, decisions: Seq<Decision>, at: int)
    requires
        -1 <= at < decisions.len(),
        at >= 0 ==> decisions[at].0 == conflict.id,
        forall|i: int| at < i < decisions.len() ==> (#[trigger] decisions[i]).0 != conflict.id,
    ensures
        at < 0 ==> decided(conflict, decisions) == conflict,
        at >= 0 ==> {
            let result = decided(conflict, decisions);
            &&& result.status == ConflictStatus::Accepted <==> decisions[at].1.evidence_hash
                == conflict.evidence_hash
            &&& result.status == ConflictStatus::Reopened <==> decisions[at].1.evidence_hash
                != conflict.evidence_hash
            &&& result.acceptance == Some(decisions[at].1)
            &&& result == (ConflictView {
                status: result.status,
                acceptance: result.acceptance,
                ..conflict
            })
        },
{
    lemma_last_decision(decisions, conflict.id, at);
}

/// Whether a reason is one: more than white space, and no character that would
/// end its line or control anything.
pub open spec fn is_sound(reason: Seq<char>) -> bool {
    &&& exists|i: int| 0 <= i < reason.len() && !is_space(#[trigger] reason[i])
    &&& forall|i: int|
        0 <= i < reason.len() ==> (32 <= (#[trigger] reason[i]) as int <= 126 || 160
            <= reason[i] as int)
}

/// A reason is taken exactly where it is one.
pub proof fn sound_reasons_are_accepted(reason: Seq<char>)
    ensures
        is_reason(reason) <==> is_sound(reason),
{
    blank_texts_are_white(reason);
    if is_sound(reason) {
        assert forall|i: int| 0 <= i < reason.len() implies !is_control(#[trigger] reason[i]) by {}
    }
    if is_reason(reason) {
        assert forall|i: int| 0 <= i < reason.len() implies (32 <= (
        #[trigger] reason[i]) as int <= 126 || 160 <= reason[i] as int) by {
            assert(!is_control(reason[i]));
        }
    }
}

/// Accepting fails exactly for a reason that is none. It keeps the evidence as it
/// is now, the reason and the time; nothing is recorded again where the conflict
/// is accepted for that very reason.
pub proof fn accepting_keeps_the_evidence(
    conflict: ConflictView,
    reason: Option<Seq<char>>,
    now: int,
)
    ensures
        accepted(conflict, reason, now) is Ok <==> (reason is None || is_sound(reason->Some_0)),
        accepted(conflict, reason, now) matches Ok((acceptance, is_new)) ==> {
            let stands = conflict.status == ConflictStatus::Accepted && conflict.acceptance is Some
                && conflict.acceptance->Some_0.reason == reason;
            &&& is_new <==> !stands
            &&& stands ==> conflict.acceptance == Some(acceptance)
            &&& !stands ==> acceptance == (AcceptanceView {
                evidence_hash: conflict.evidence_hash,
                accepted_at: crate::numeral::signed_decimal(now),
                reason,
            })
        },
{
    if let Some(reason) = reason {
        sound_reasons_are_accepted(reason);
    }
}

// Objects.

proof fn lemma_lower_of_both(left: Seq<char>, right: Seq<char>)
    ensures
        ascii_lower(left + right) == ascii_lower(left) + ascii_lower(right),
{
    assert(ascii_lower(left + right) =~= ascii_lower(left) + ascii_lower(right));
}

proof fn lemma_lower_of_joined(parts: Seq<Seq<char>>)
    ensures
        ascii_lower(joined(parts, seq![' '])) == joined(
            parts.map_values(|part: Seq<char>| ascii_lower(part)),
            seq![' '],
        ),
    decreases parts.len(),
{
    let lower = |part: Seq<char>| ascii_lower(part);
    let all = parts.map_values(lower);
    if parts.len() == 0 {
        assert(ascii_lower(joined(parts, seq![' '])) =~= seq![]);
    } else if parts.len() > 1 {
        let rest = parts.drop_last();
        lemma_lower_of_joined(rest);
        assert(all.drop_last() =~= rest.map_values(lower));
        lemma_lower_of_both(joined(rest, seq![' ']), seq![' ']);
        lemma_lower_of_both(joined(rest, seq![' ']) + seq![' '], parts.last());
        assert(ascii_lower(seq![' ']) =~= seq![' ']);
    }
}

/// Objects are the same where they are the same entity, or values of the same
/// words, in upper or lower case; an entity is never the same as a value.
pub proof fn objects_are_told_apart(
    left_id: Option<Seq<char>>,
    left_value: Seq<char>,
    right_id: Option<Seq<char>>,
    right_value: Seq<char>,
)
    ensures
        ({
            let lower = |word: Seq<char>| ascii_lower(word);
            let same = same_object(left_id, left_value, right_id, right_value);
            &&& left_id is Some && right_id is Some ==> (same <==> left_id == right_id)
            &&& left_id is Some != right_id is Some ==> !same
            &&& left_id is None && right_id is None ==> (same <==> joined(
                words(left_value).map_values(lower),
                seq![' '],
            ) == joined(words(right_value).map_values(lower), seq![' ']))
        }),
{
    lemma_lower_of_joined(words(left_value));
    lemma_lower_of_joined(words(right_value));
}

// Choosing.

/// How many of the texts begin with another.
pub open spec fn beginning_count(candidates: Seq<Seq<char>>, start: Seq<char>) -> nat
    decreases candidates.len(),
{
    if candidates.len() == 0 {
        0
    } else {
        beginning_count(candidates.drop_last(), start) + if start.is_prefix_of(candidates.last()) {
            1nat
        } else {
            0nat
        }
    }
}

proof fn lemma_beginning_count(candidates: Seq<Seq<char>>, start: Seq<char>)
    ensures
        candidates.filter(|candidate: Seq<char>| start.is_prefix_of(candidate)).len()
            == beginning_count(candidates, start),
    decreases candidates.len(),
{
    reveal(Seq::filter);
    if candidates.len() > 0 {
        lemma_beginning_count(candidates.drop_last(), start);
    }
}

/// What is kept is chosen by its id, or by a start that no other id has; a text
/// of white space chooses nothing, and neither does one that begins none, or more
/// than one, and is none of them.
pub proof fn choices_are_clear(
    candidates: Seq<Seq<char>>,
    selector: Seq<char>,
    label: Seq<char>,
)
    ensures
        selected(candidates, selector, label) is Ok <==> {
            &&& exists|i: int| 0 <= i < selector.len() && !is_space(#[trigger] selector[i])
            &&& candidates.contains(selector) || beginning_count(candidates, selector) == 1
        },
        selected(candidates, selector, label) matches Ok(kept) ==> {
            &&& candidates.contains(kept)
            &&& selector.is_prefix_of(kept)
            &&& candidates.contains(selector) ==> kept == selector
        },
{
    blank_texts_are_white(selector);
    lemma_beginning_count(candidates, selector);
    if selected(candidates, selector, label) is Ok {
        selection_is_a_candidate(candidates, selector, label);
    }
}

/// A conflict is found by its id, or by a start that no other id has.
pub proof fn conflicts_are_found_by_their_start(
    conflicts: Seq<ConflictView>,
    start: Seq<char>,
)
    ensures
        named(conflicts, start) is Ok <==> {
            ||| exists|i: int| 0 <= i < conflicts.len() && (#[trigger] conflicts[i]).id == start
            ||| beginning_count(conflicts.map_values(|c: ConflictView| c.id), start) == 1
        },
        named(conflicts, start) matches Ok(conflict) ==> {
            &&& conflicts.contains(conflict)
            &&& start.is_prefix_of(conflict.id)
            &&& (exists|i: int| 0 <= i < conflicts.len() && (#[trigger] conflicts[i]).id == start)
                ==> conflict.id == start
        },
{
    lemma_with_id(conflicts, start);
    lemma_conflict_count(conflicts, start);
    let wanted = |conflict: ConflictView| start.is_prefix_of(conflict.id);
    filtering_keeps_what_is_wanted(conflicts, wanted);
    let matches = conflicts.filter(wanted);
    assert(start.subrange(0, start.len() as int) =~= start);
    if matches.len() == 1 {
        assert(matches.contains(matches[0]));
    }
}

proof fn lemma_with_id(conflicts: Seq<ConflictView>, id: Seq<char>)
    ensures
        crate::conflict_cache::with_id(conflicts, id) is Some <==> exists|i: int|
            0 <= i < conflicts.len() && (#[trigger] conflicts[i]).id == id,
        crate::conflict_cache::with_id(conflicts, id) matches Some(conflict) ==> conflict.id == id
            && conflicts.contains(conflict),
    decreases conflicts.len(),
{
    if conflicts.len() > 0 {
        let rest = conflicts.drop_first();
        lemma_with_id(rest, id);
        if conflicts[0].id != id {
            if exists|i: int| 0 <= i < conflicts.len() && (#[trigger] conflicts[i]).id == id {
                let i = choose|i: int| 0 <= i < conflicts.len() && (#[trigger] conflicts[i]).id == id;
                assert(rest[i - 1] == conflicts[i]);
            }
            if exists|i: int| 0 <= i < rest.len() && (#[trigger] rest[i]).id == id {
                let i = choose|i: int| 0 <= i < rest.len() && (#[trigger] rest[i]).id == id;
                assert(conflicts[i + 1] == rest[i]);
                let found = crate::conflict_cache::with_id(rest, id)->Some_0;
                let j = choose|j: int| 0 <= j < rest.len() && rest[j] == found;
                assert(conflicts[j + 1] == found);
            }
        }
    }
}

proof fn lemma_conflict_count(conflicts: Seq<ConflictView>, start: Seq<char>)
    ensures
        conflicts.filter(|conflict: ConflictView| start.is_prefix_of(conflict.id)).len()
            == beginning_count(conflicts.map_values(|c: ConflictView| c.id), start),
    decreases conflicts.len(),
{
    reveal(Seq::filter);
    let id = |c: ConflictView| c.id;
    if conflicts.len() > 0 {
        lemma_conflict_count(conflicts.drop_last(), start);
        assert(conflicts.map_values(id).drop_last() =~= conflicts.drop_last().map_values(id));
        assert(conflicts.map_values(id).last() == conflicts.last().id);
    }
}

/// A text of white space names no conflict.
pub proof fn blanks_name_no_conflict(stored: Seq<StoredView>, text: Seq<char>)
    requires
        forall|i: int| 0 <= i < text.len() ==> is_space(#[trigger] text[i]),
    ensures
        found(stored, text) is Err,
{
    blank_texts_are_white(text);
}

// Queries.

/// Whether a conflict is one that is asked about: of the kind and the scope asked
/// for, and not accepted, unless those are wanted too.
pub open spec fn is_asked_about(
    conflict: ConflictView,
    kind: Option<ConflictKind>,
    scope: Option<MemoryScope>,
    include_accepted: bool,
) -> bool {
    &&& kind matches Some(kind) ==> conflict.kind == kind
    &&& scope matches Some(scope) ==> conflict.scope == scope
    &&& conflict.status == ConflictStatus::Accepted ==> include_accepted
}

proof fn lemma_filtered(
    stored: StoredView,
    kind: Option<ConflictKind>,
    scope: Option<MemoryScope>,
    include_accepted: bool,
)
    requires
        conflict_in(stored, None, None, true) is Ok,
    ensures
        conflict_in(stored, None, None, true)->Ok_0 is Some,
        conflict_in(stored, kind, scope, include_accepted) == Ok::<_, Seq<char>>(
            if is_asked_about(
                conflict_in(stored, None, None, true)->Ok_0->Some_0,
                kind,
                scope,
                include_accepted,
            ) {
                conflict_in(stored, None, None, true)->Ok_0
            } else {
                None
            },
        ),
{
}

proof fn lemma_all_filtered(
    stored: Seq<StoredView>,
    kind: Option<ConflictKind>,
    scope: Option<MemoryScope>,
    include_accepted: bool,
)
    requires
        conflicts_in(stored, None, None, true) is Ok,
    ensures
        conflicts_in(stored, kind, scope, include_accepted) == Ok::<_, Seq<char>>(
            conflicts_in(stored, None, None, true)->Ok_0.filter(
                |conflict: ConflictView| is_asked_about(conflict, kind, scope, include_accepted),
            ),
        ),
        conflicts_in(stored, None, None, true)->Ok_0.len() == stored.len(),
    decreases stored.len(),
{
    reveal(Seq::filter);
    let wanted = |conflict: ConflictView| is_asked_about(conflict, kind, scope, include_accepted);
    if stored.len() == 0 {
        assert(conflicts_in(stored, None, None, true)->Ok_0.filter(wanted) =~= seq![]);
    } else {
        lemma_all_filtered(stored.drop_last(), kind, scope, include_accepted);
        lemma_filtered(stored.last(), kind, scope, include_accepted);
        let all = conflicts_in(stored, None, None, true)->Ok_0;
        assert(all.drop_last() =~= conflicts_in(stored.drop_last(), None, None, true)->Ok_0);
    }
}

/// A query answers with the conflicts that are asked about, out of all that there
/// are, and in the same order.
pub proof fn queries_answer_what_is_asked(
    stored: Seq<StoredView>,
    kind: Option<ConflictKind>,
    scope: Option<MemoryScope>,
    include_accepted: bool,
)
    requires
        queried(stored, None, None, true) is Ok,
    ensures
        queried(stored, kind, scope, include_accepted) == Ok::<_, Seq<char>>(
            queried(stored, None, None, true)->Ok_0.filter(
                |conflict: ConflictView| is_asked_about(conflict, kind, scope, include_accepted),
            ),
        ),
        queried(stored, None, None, true)->Ok_0.len() == stored.len(),
{
    let before = |left: StoredView, right: StoredView| StoredConflict::ranks_before(left, right);
    order::lemma_sorted_members(stored, before);
    lemma_all_filtered(order::ranked::<StoredConflict>(stored), kind, scope, include_accepted);
}

/// How many of the conflicts are not accepted.
pub open spec fn open_count(conflicts: Seq<ConflictView>) -> nat
    decreases conflicts.len(),
{
    if conflicts.len() == 0 {
        0
    } else {
        open_count(conflicts.drop_last()) + if conflicts.last().status == ConflictStatus::Accepted {
            0nat
        } else {
            1nat
        }
    }
}

/// The conflicts that count are those that are not accepted.
pub proof fn accepted_conflicts_do_not_count(conflicts: Seq<ConflictView>)
    ensures
        unaccepted(conflicts.map_values(|c: ConflictView| stored_of(c))).len() == open_count(
            conflicts,
        ),
    decreases conflicts.len(),
{
    reveal(Seq::filter);
    let store = |c: ConflictView| stored_of(c);
    if conflicts.len() > 0 {
        accepted_conflicts_do_not_count(conflicts.drop_last());
        let all = conflicts.map_values(store);
        assert(all.drop_last() =~= conflicts.drop_last().map_values(store));
        assert(all.last() == stored_of(conflicts.last()));
        reveal_strlit("open");
        reveal_strlit("accepted");
        reveal_strlit("reopened");
        assert("open"@.len() == 4);
        assert("accepted"@[0] == 'a');
        assert("reopened"@[0] == 'r');
        assert("open"@[0] == 'o');
    }
}

// Resolving.

proof fn lemma_fact_ids(members: Seq<MemberView>, id: Seq<char>)
    requires
        fact_ids(members).contains(id),
    ensures
        exists|i: int|
            0 <= i < members.len() && (#[trigger] members[i]).fact is Some
                && members[i].fact->Some_0.id == id,
    decreases members.len(),
{
    if members.len() > 0 {
        let rest = members.drop_last();
        let before = fact_ids(rest);
        let all = fact_ids(members);
        let k = choose|k: int| 0 <= k < all.len() && all[k] == id;
        if k < before.len() {
            assert(before[k] == id);
            lemma_fact_ids(rest, id);
            let i = choose|i: int|
                0 <= i < rest.len() && (#[trigger] rest[i]).fact is Some
                    && rest[i].fact->Some_0.id == id;
            assert(members[i] == rest[i]);
        } else {
            assert(members[members.len() - 1] == members.last());
        }
    }
}

/// Facts that exclude each other are resolved by ending some of them, at a time
/// that is not ahead: the one that is asked for, or now. The kept one is a fact of
/// the conflict, and no memory is archived.
pub proof fn facts_end_by_now(
    conflict: ConflictView,
    keep: Seq<char>,
    requested: Option<i64>,
    now: i64,
)
    requires
        conflict.kind == ConflictKind::ExclusiveCurrent,
    ensures
        requested is Some && requested->Some_0 > now ==> planned(conflict, keep, requested, now)
            is Err,
        planned(conflict, keep, requested, now) matches Ok(plan) ==> {
            &&& plan.resolution.conflict_id == conflict.id
            &&& plan.resolution.expired_at == Some(
                match requested {
                    Some(time) => time,
                    None => now,
                },
            )
            &&& plan.resolution.expired_at->Some_0 <= now
            &&& plan.resolution.archived_memory_ids.len() == 0
            &&& plan.resolution.expired_fact_ids.len() > 0
            &&& keep.is_prefix_of(plan.resolution.kept_id)
            &&& exists|i: int|
                0 <= i < conflict.members.len() && (#[trigger] conflict.members[i]).fact is Some
                    && conflict.members[i].fact->Some_0.id == plan.resolution.kept_id
        },
{
    if let Ok(plan) = planned(conflict, keep, requested, now) {
        choices_are_clear(fact_ids(conflict.members), keep, "fact"@);
        lemma_fact_ids(conflict.members, plan.resolution.kept_id);
        let kept = fact_with(conflict.members, plan.resolution.kept_id)->Some_0;
        let entries = crate::resolution::competing(conflict.members, kept);
        order::lemma_sorted_members(
            crate::resolution::entry_facts(entries),
            |left: Seq<char>, right: Seq<char>| String::ranks_before(left, right),
        );
    }
}

/// Duplicates are resolved by archiving all but one of them; nothing ends, so no
/// time can be asked for.
pub proof fn duplicates_are_archived(
    conflict: ConflictView,
    keep: Seq<char>,
    requested: Option<i64>,
    now: i64,
)
    requires
        conflict.kind == ConflictKind::ExactActiveDuplicate,
    ensures
        requested is Some ==> planned(conflict, keep, requested, now) is Err,
        planned(conflict, keep, requested, now) matches Ok(plan) ==> {
            &&& plan.resolution.conflict_id == conflict.id
            &&& plan.resolution.expired_at is None
            &&& plan.resolution.expired_fact_ids.len() == 0
            &&& plan.expiries.len() == 0
            &&& keep.is_prefix_of(plan.resolution.kept_id)
            &&& !plan.resolution.archived_memory_ids.contains(plan.resolution.kept_id)
            &&& exists|i: int|
                0 <= i < conflict.members.len() && (#[trigger] conflict.members[i]).memory_id
                    == plan.resolution.kept_id
        },
{
    if let Ok(plan) = planned(conflict, keep, requested, now) {
        let ids = crate::resolution::memory_ids(conflict.members);
        choices_are_clear(ids, keep, "memory"@);
        let kept = plan.resolution.kept_id;
        let i = choose|i: int| 0 <= i < ids.len() && ids[i] == kept;
        assert(conflict.members[i].memory_id == kept);
        filtering_keeps_what_is_wanted(ids, crate::resolution::is_not(kept));
    }
}

/// Whether a member states a fact that says something else than another fact.
pub open spec fn differs(member: MemberView, kept: ConflictFactView) -> bool {
    member.fact matches Some(fact) && !same_object(
        kept.object_id,
        kept.object_value,
        fact.object_id,
        fact.object_value,
    )
}

proof fn lemma_competing(members: Seq<MemberView>, kept: ConflictFactView)
    ensures
        crate::resolution::competing(members, kept).len() > 0 <==> exists|i: int|
            0 <= i < members.len() && differs(#[trigger] members[i], kept),
    decreases members.len(),
{
    if members.len() > 0 {
        let rest = members.drop_last();
        lemma_competing(rest, kept);
        assert(members[members.len() - 1] == members.last());
        if exists|i: int| 0 <= i < rest.len() && differs(#[trigger] rest[i], kept) {
            let i = choose|i: int| 0 <= i < rest.len() && differs(#[trigger] rest[i], kept);
            assert(members[i] == rest[i]);
        }
        if exists|i: int| 0 <= i < members.len() && differs(#[trigger] members[i], kept) {
            let i = choose|i: int| 0 <= i < members.len() && differs(#[trigger] members[i], kept);
            if i < rest.len() {
                assert(rest[i] == members[i]);
            }
        }
    }
}

/// Facts that exclude each other are resolved whenever the time is not ahead, what
/// is kept is clear, every member states a fact, and one of them says something
/// else than what is kept. Duplicates are resolved whenever what is kept is clear,
/// and no time is asked for.
pub proof fn clear_choices_resolve_conflicts(
    conflict: ConflictView,
    keep: Seq<char>,
    requested: Option<i64>,
    now: i64,
)
    ensures
        conflict.kind == ConflictKind::ExclusiveCurrent ==> (planned(
            conflict,
            keep,
            requested,
            now,
        ) is Ok <==> {
            let kept = selected(fact_ids(conflict.members), keep, "fact"@);
            &&& requested is None || requested->Some_0 <= now
            &&& kept is Ok
            &&& forall|i: int|
                0 <= i < conflict.members.len() ==> (#[trigger] conflict.members[i]).fact is Some
            &&& exists|i: int|
                0 <= i < conflict.members.len() && differs(
                    #[trigger] conflict.members[i],
                    fact_with(conflict.members, kept->Ok_0)->Some_0,
                )
        }),
        conflict.kind == ConflictKind::ExactActiveDuplicate ==> (planned(
            conflict,
            keep,
            requested,
            now,
        ) is Ok <==> requested is None && selected(
            crate::resolution::memory_ids(conflict.members),
            keep,
            "memory"@,
        ) is Ok),
{
    let kept = selected(fact_ids(conflict.members), keep, "fact"@);
    if kept is Ok {
        lemma_competing(conflict.members, fact_with(conflict.members, kept->Ok_0)->Some_0);
    }
    let members = conflict.members;
    if crate::conflict_cache::some_member(members, false) {
        let i = choose|i: int|
            0 <= i < members.len() && (#[trigger] members[i]).fact is Some == false;
        assert(members[i].fact is None);
    } else {
        assert forall|i: int| 0 <= i < members.len() implies (#[trigger] members[i]).fact is Some by {
            assert(!((members[i].fact is Some) == false));
        }
    }
}

proof fn lemma_read_one_by_one(stored: Seq<StoredView>)
    requires
        conflicts_in(stored, None, None, true) is Ok,
    ensures
        conflicts_in(stored, None, None, true)->Ok_0.len() == stored.len(),
        forall|i: int|
            0 <= i < stored.len() ==> conflict_in(#[trigger] stored[i], None, None, true) == Ok::<
                _,
                Seq<char>,
            >(Some(conflicts_in(stored, None, None, true)->Ok_0[i])),
    decreases stored.len(),
{
    if stored.len() > 0 {
        let rest = stored.drop_last();
        lemma_read_one_by_one(rest);
        lemma_filtered(stored.last(), None, None, true);
        assert(stored[stored.len() - 1] == stored.last());
        assert forall|i: int| 0 <= i < stored.len() implies conflict_in(
            #[trigger] stored[i],
            None,
            None,
            true,
        ) == Ok::<_, Seq<char>>(Some(conflicts_in(stored, None, None, true)->Ok_0[i])) by {
            if i < rest.len() {
                assert(rest[i] == stored[i]);
            }
        }
    }
}

/// Every stored conflict is answered with, as it was stored, and they stand in the
/// order of what is decided about them.
pub proof fn queries_go_by_status(stored: Seq<StoredView>, conflict: ConflictView)
    requires
        queried(stored, None, None, true) is Ok,
    ensures
        queried(stored, None, None, true)->Ok_0.contains(conflict) <==> exists|i: int|
            0 <= i < stored.len() && conflict_in(#[trigger] stored[i], None, None, true) == Ok::<
                _,
                Seq<char>,
            >(Some(conflict)),
        forall|i: int, j: int|
            0 <= i < j < queried(stored, None, None, true)->Ok_0.len() ==> !text_less(
                (#[trigger] queried(stored, None, None, true)->Ok_0[j]).status.name(),
                (#[trigger] queried(stored, None, None, true)->Ok_0[i]).status.name(),
            ),
{
    let before = |left: StoredView, right: StoredView| StoredConflict::ranks_before(left, right);
    let key = |row: StoredView| row.record.status;
    let sorted = order::ranked::<StoredConflict>(stored);
    let all = queried(stored, None, None, true)->Ok_0;
    order::lemma_sorted_members(stored, before);
    lemma_read_one_by_one(sorted);
    if all.contains(conflict) {
        let k = choose|k: int| 0 <= k < all.len() && all[k] == conflict;
        assert(sorted.contains(sorted[k]));
        let i = choose|i: int| 0 <= i < stored.len() && stored[i] == sorted[k];
        assert(conflict_in(stored[i], None, None, true) == Ok::<_, Seq<char>>(Some(conflict)));
    }
    if exists|i: int|
        0 <= i < stored.len() && conflict_in(#[trigger] stored[i], None, None, true) == Ok::<
            _,
            Seq<char>,
        >(Some(conflict)) {
        let i = choose|i: int|
            0 <= i < stored.len() && conflict_in(#[trigger] stored[i], None, None, true) == Ok::<
                _,
                Seq<char>,
            >(Some(conflict));
        assert(stored.contains(stored[i]));
        assert(sorted.contains(stored[i]));
        let k = choose|k: int| 0 <= k < sorted.len() && sorted[k] == stored[i];
        assert(all[k] == conflict);
    }
    assert(goes_first_by(before, key)) by {
        assert forall|a: StoredView, b: StoredView| text_less(
            #[trigger] key(a),
            #[trigger] key(b),
        ) implies before(a, b) by {
            order::text_less_is_total(key(a), key(b));
        }
        assert forall|a: StoredView, b: StoredView| #[trigger] before(a, b) implies !text_less(
            key(b),
            key(a),
        ) by {
            order::text_less_is_total(key(a), key(b));
        }
    }
    sorting_goes_by_the_first_key(stored, before, key);
    assert forall|i: int, j: int| 0 <= i < j < all.len() implies !text_less(
        (#[trigger] all[j]).status.name(),
        (#[trigger] all[i]).status.name(),
    ) by {
        lemma_status(sorted[i], all[i]);
        lemma_status(sorted[j], all[j]);
        assert(!text_less(key(sorted[j]), key(sorted[i])));
    }
}

proof fn lemma_status(stored: StoredView, conflict: ConflictView)
    requires
        conflict_in(stored, None, None, true) == Ok::<_, Seq<char>>(Some(conflict)),
    ensures
        conflict.status.name() == stored.record.status,
{
}

} // verus!
