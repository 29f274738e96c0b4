//! Resolving a conflict in favour of one of its members.

use vstd::prelude::*;
use vstd::string::*;

use crate::conflict::{
    Conflict, ConflictFactView, ConflictKind, ConflictMember, ConflictView, MemberView,
};
use crate::conflict_cache::some_member;
use crate::directive::{ConfidenceTable, Reading};
use crate::error::Error;
use crate::expiry::{self, is_expired_body};
use crate::memory::{self, Memory, MemoryStatus, MemoryView, MetadataView};
use crate::numeral::{decimal_i64, signed_decimal};
use crate::order::{self, text_less, Grouped, Ranked};
use crate::semantic::{self, extraction_of, FactView, SemanticFact};
use crate::text;
use crate::workspace::PathState;

verus! {

/// What a resolution came to.
#[derive(Debug, Eq, PartialEq)]
pub struct Resolution {
    pub conflict_id: String,
    pub kept_id: String,
    pub archived_memory_ids: Vec<String>,
    pub expired_fact_ids: Vec<String>,
    pub expired_at: Option<i64>,
}

#[verifier::ext_equal]
pub struct ResolutionView {
    pub conflict_id: Seq<char>,
    pub kept_id: Seq<char>,
    pub archived_memory_ids: Seq<Seq<char>>,
    pub expired_fact_ids: Seq<Seq<char>>,
    pub expired_at: Option<i64>,
}

impl View for Resolution {
    type V = ResolutionView;

    open spec fn view(&self) -> ResolutionView {
        ResolutionView {
            conflict_id: self.conflict_id@,
            kept_id: self.kept_id@,
            archived_memory_ids: self.archived_memory_ids.deep_view(),
            expired_fact_ids: self.expired_fact_ids.deep_view(),
            expired_at: self.expired_at,
        }
    }
}

impl DeepView for Resolution {
    type V = ResolutionView;

    open spec fn deep_view(&self) -> ResolutionView {
        self@
    }
}

impl Clone for Resolution {
    fn clone(&self) -> (copy: Self)
        ensures
            copy@ == self@,
    {
        Resolution {
            conflict_id: self.conflict_id.clone(),
            kept_id: self.kept_id.clone(),
            archived_memory_ids: text::clone_texts(&self.archived_memory_ids),
            expired_fact_ids: text::clone_texts(&self.expired_fact_ids),
            expired_at: self.expired_at,
        }
    }
}

/// The facts of a memory that are to end.
#[derive(Debug, Eq, PartialEq)]
pub struct MemoryExpiry {
    pub memory_id: String,
    pub fact_ids: Vec<String>,
}

#[verifier::ext_equal]
pub struct MemoryExpiryView {
    pub memory_id: Seq<char>,
    pub fact_ids: Seq<Seq<char>>,
}

impl View for MemoryExpiry {
    type V = MemoryExpiryView;

    open spec fn view(&self) -> MemoryExpiryView {
        MemoryExpiryView {
            memory_id: self.memory_id@,
            fact_ids: self.fact_ids.deep_view(),
        }
    }
}

impl DeepView for MemoryExpiry {
    type V = MemoryExpiryView;

    open spec fn deep_view(&self) -> MemoryExpiryView {
        self@
    }
}

/// What is to be done to resolve a conflict, and what it comes to.
#[derive(Debug, Eq, PartialEq)]
pub struct ResolutionPlan {
    pub resolution: Resolution,
    pub expiries: Vec<MemoryExpiry>,
}

#[verifier::ext_equal]
pub struct PlanView {
    pub resolution: ResolutionView,
    pub expiries: Seq<MemoryExpiryView>,
}

impl View for ResolutionPlan {
    type V = PlanView;

    open spec fn view(&self) -> PlanView {
        PlanView { resolution: self.resolution@, expiries: self.expiries.deep_view() }
    }
}

// Choosing.

/// The candidate that an id names, or the beginning of one.
pub open spec fn selected(
    candidates: Seq<Seq<char>>,
    selector: Seq<char>,
    label: Seq<char>,
) -> Result<Seq<char>, Seq<char>> {
    let matches = candidates.filter(|candidate: Seq<char>| selector.is_prefix_of(candidate));
    if text::trimmed(selector).len() == 0 {
        Err("kept "@ + label + " id or prefix cannot be empty"@)
    } else if candidates.contains(selector) {
        Ok(selector)
    } else if matches.len() == 0 {
        Err(text::quoted_form(selector) + " does not identify a "@ + label + " in this conflict"@)
    } else if matches.len() == 1 {
        Ok(matches[0])
    } else {
        Err(label + " prefix "@ + text::quoted_form(selector) + " is ambiguous in this conflict"@)
    }
}

/// What is chosen is one of the candidates.
pub proof fn selection_is_a_candidate(
    candidates: Seq<Seq<char>>,
    selector: Seq<char>,
    label: Seq<char>,
)
    requires
        selected(candidates, selector, label) is Ok,
    ensures
        candidates.contains(selected(candidates, selector, label)->Ok_0),
        selector.is_prefix_of(selected(candidates, selector, label)->Ok_0),
{
    if !candidates.contains(selector) {
        let wanted = |candidate: Seq<char>| selector.is_prefix_of(candidate);
        let matches = candidates.filter(wanted);
        candidates.lemma_filter_pred(wanted, 0);
        candidates.lemma_filter_contains_rev(wanted, matches[0]);
        assert(wanted(matches[0]));
    }
}

/// Picks the candidate that an id names, or the beginning of one. An exact id
/// goes before any other.
pub fn select_member_id(candidates: &Vec<String>, selector: &str, label: &str) -> (chosen: Result<
    String,
    Error,
>)
    ensures
        crate::error::agrees(chosen, selected(candidates.deep_view(), selector@, label@)),
{
    if text::trim(selector).is_empty() {
        return Err(Error::new(text::concat3("kept ", label, " id or prefix cannot be empty")));
    }
    if memory::contains_text(candidates, selector) {
        return Ok(selector.to_owned());
    }
    let ghost all = candidates.deep_view();
    let ghost wanted = |candidate: Seq<char>| selector@.is_prefix_of(candidate);
    let mut count: usize = 0;
    let mut first: usize = 0;
    let mut i: usize = 0;
    proof {
        reveal(Seq::filter);
        assert(all.take(0).filter(wanted) =~= seq![]);
    }
    while i < candidates.len()
        invariant
            i <= candidates.len(),
            count <= i,
            all == candidates.deep_view(),
            wanted == (|candidate: Seq<char>| selector@.is_prefix_of(candidate)),
            count == all.take(i as int).filter(wanted).len(),
            count > 0 ==> first < i && all.take(i as int).filter(wanted)[0] == all[first as int],
        decreases candidates.len() - i,
    {
        proof {
            reveal(Seq::filter);
            assert(all.take(i + 1).drop_last() =~= all.take(i as int));
        }
        if text::starts_with(candidates[i].as_str(), selector) {
            if count == 0 {
                first = i;
            }
            count = count + 1;
        }
        i = i + 1;
    }
    assert(all.take(i as int) =~= all);
    if count == 0 {
        return Err(
            Error::new(
                text::concat4(
                    text::quoted(selector).as_str(),
                    " does not identify a ",
                    label,
                    " in this conflict",
                ),
            ),
        );
    }
    if count == 1 {
        return Ok(candidates[first].clone());
    }
    Err(
        Error::new(
            text::concat4(
                label,
                " prefix ",
                text::quoted(selector).as_str(),
                " is ambiguous in this conflict",
            ),
        ),
    )
}

// Duplicates.

pub open spec fn memory_ids(members: Seq<MemberView>) -> Seq<Seq<char>> {
    members.map_values(|member: MemberView| member.memory_id)
}

pub open spec fn is_not(kept: Seq<char>) -> spec_fn(Seq<char>) -> bool {
    |id: Seq<char>| id != kept
}

/// The memories besides the kept one.
pub open spec fn others(ids: Seq<Seq<char>>, kept: Seq<char>) -> Seq<Seq<char>> {
    ids.filter(is_not(kept))
}

pub open spec fn duplicate_plan(conflict: ConflictView, keep: Seq<char>) -> Result<
    PlanView,
    Seq<char>,
> {
    match selected(memory_ids(conflict.members), keep, "memory"@) {
        Err(message) => Err(message),
        Ok(kept_id) => Ok(
            PlanView {
                resolution: ResolutionView {
                    conflict_id: conflict.id,
                    kept_id,
                    archived_memory_ids: others(memory_ids(conflict.members), kept_id),
                    expired_fact_ids: seq![],
                    expired_at: None,
                },
                expiries: seq![],
            },
        ),
    }
}

fn list_memories(members: &Vec<ConflictMember>) -> (ids: Vec<String>)
    ensures
        ids.deep_view() == memory_ids(members.deep_view()),
{
    let ghost all = memory_ids(members.deep_view());
    let mut ids: Vec<String> = Vec::new();
    let mut i: usize = 0;
    while i < members.len()
        invariant
            i <= members.len(),
            all == memory_ids(members.deep_view()),
            ids.deep_view() == all.take(i as int),
        decreases members.len() - i,
    {
        let ghost before = ids.deep_view();
        let id = members[i].memory_id.clone();
        ids.push(id);
        assert(ids.deep_view() =~= before.push(members[i as int]@.memory_id));
        assert(all.take(i + 1) =~= all.take(i as int).push(all[i as int]));
        i = i + 1;
    }
    assert(all.take(i as int) =~= all);
    ids
}

fn plan_duplicates(conflict: &Conflict, keep: &str) -> (plan: Result<ResolutionPlan, Error>)
    ensures
        crate::error::agrees(plan, duplicate_plan(conflict@, keep@)),
{
    let ids = list_memories(&conflict.members);
    let kept_id = select_member_id(&ids, keep, "memory")?;
    let ghost all = ids.deep_view();
    let ghost is_other = is_not(kept_id@);
    let mut archived: Vec<String> = Vec::new();
    let mut i: usize = 0;
    proof {
        reveal(Seq::filter);
        assert(all.take(0).filter(is_other) =~= seq![]);
        assert(archived.deep_view() =~= seq![]);
    }
    while i < ids.len()
        invariant
            i <= ids.len(),
            all == ids.deep_view(),
            is_other == is_not(kept_id@),
            archived.deep_view() == all.take(i as int).filter(is_other),
        decreases ids.len() - i,
    {
        proof {
            reveal(Seq::filter);
            assert(all.take(i + 1).drop_last() =~= all.take(i as int));
            assert(all.take(i + 1).last() == ids[i as int]@);
        }
        if ids[i] != kept_id {
            let ghost before = archived.deep_view();
            archived.push(ids[i].clone());
            assert(archived.deep_view() =~= before.push(ids[i as int]@));
        }
        i = i + 1;
    }
    assert(all.take(i as int) =~= all);
    let expired: Vec<String> = Vec::new();
    let expiries: Vec<MemoryExpiry> = Vec::new();
    assert(expired.deep_view() =~= seq![]);
    assert(expiries.deep_view() =~= seq![]);
    Ok(
        ResolutionPlan {
            resolution: Resolution {
                conflict_id: conflict.id.clone(),
                kept_id,
                archived_memory_ids: archived,
                expired_fact_ids: expired,
                expired_at: None,
            },
            expiries,
        },
    )
}

// Facts that exclude each other.

/// A fact that is to end, and the memory that states it.
#[derive(Debug)]
pub struct ExpiryEntry {
    pub memory_id: String,
    pub fact_id: String,
}

#[verifier::ext_equal]
pub struct ExpiryView {
    pub memory_id: Seq<char>,
    pub fact_id: Seq<char>,
}

impl View for ExpiryEntry {
    type V = ExpiryView;

    open spec fn view(&self) -> ExpiryView {
        ExpiryView {
            memory_id: self.memory_id@,
            fact_id: self.fact_id@,
        }
    }
}

impl DeepView for ExpiryEntry {
    type V = ExpiryView;

    open spec fn deep_view(&self) -> ExpiryView {
        self@
    }
}

impl Ranked for ExpiryEntry {
    open spec fn ranks_before(left: ExpiryView, right: ExpiryView) -> bool {
        if left.memory_id != right.memory_id {
            text_less(left.memory_id, right.memory_id)
        } else {
            text_less(left.fact_id, right.fact_id)
        }
    }

    fn is_before(&self, other: &Self) -> (before: bool) {
        if self.memory_id != other.memory_id {
            order::is_less(self.memory_id.as_str(), other.memory_id.as_str())
        } else {
            order::is_less(self.fact_id.as_str(), other.fact_id.as_str())
        }
    }
}

impl Grouped for ExpiryEntry {
    open spec fn together(left: ExpiryView, right: ExpiryView) -> bool {
        left.memory_id == right.memory_id
    }

    open spec fn same_entry(left: ExpiryView, right: ExpiryView) -> bool {
        left.fact_id == right.fact_id
    }

    fn is_together(&self, other: &Self) -> (together: bool) {
        self.memory_id == other.memory_id
    }

    fn is_same_entry(&self, other: &Self) -> (same: bool) {
        self.fact_id == other.fact_id
    }
}

/// The ids of the facts among the evidence.
pub open spec fn fact_ids(members: Seq<MemberView>) -> Seq<Seq<char>>
    decreases members.len(),
{
    if members.len() == 0 {
        seq![]
    } else {
        let before = fact_ids(members.drop_last());
        match members.last().fact {
            Some(fact) => before.push(fact.id),
            None => before,
        }
    }
}

/// The first fact with that id.
pub open spec fn fact_with(members: Seq<MemberView>, id: Seq<char>) -> Option<ConflictFactView>
    decreases members.len(),
{
    if members.len() == 0 {
        None
    } else if members[0].fact is Some && members[0].fact->Some_0.id == id {
        members[0].fact
    } else {
        fact_with(members.drop_first(), id)
    }
}

/// Whether a fact says something else than the kept one.
pub open spec fn competes(kept: ConflictFactView, fact: ConflictFactView) -> bool {
    !semantic::same_object(kept.object_id, kept.object_value, fact.object_id, fact.object_value)
}

/// The facts that say something else than the kept one.
pub open spec fn competing(members: Seq<MemberView>, kept: ConflictFactView) -> Seq<ExpiryView>
    decreases members.len(),
{
    if members.len() == 0 {
        seq![]
    } else {
        let before = competing(members.drop_last(), kept);
        match members.last().fact {
            Some(fact) if competes(kept, fact) => before.push(
                ExpiryView { memory_id: members.last().memory_id, fact_id: fact.id },
            ),
            _ => before,
        }
    }
}

pub open spec fn entry_facts(entries: Seq<ExpiryView>) -> Seq<Seq<char>> {
    entries.map_values(|entry: ExpiryView| entry.fact_id)
}

pub open spec fn memory_expiry(group: Seq<ExpiryView>) -> MemoryExpiryView {
    MemoryExpiryView { memory_id: group[0].memory_id, fact_ids: entry_facts(group) }
}

/// The facts that are to end, memory by memory.
pub open spec fn expiries_of(entries: Seq<ExpiryView>) -> Seq<MemoryExpiryView> {
    order::grouped::<ExpiryEntry>(entries).map_values(
        |group: Seq<ExpiryView>| memory_expiry(group),
    )
}

pub open spec fn exclusive_plan(
    conflict: ConflictView,
    keep: Seq<char>,
    requested_expiration: Option<i64>,
    now: i64,
) -> Result<PlanView, Seq<char>> {
    let expiration = match requested_expiration {
        Some(expiration) => expiration,
        None => now,
    };
    if expiration > now {
        Err(
            "conflict expiration time "@ + signed_decimal(expiration as int)
                + " is in the future; choose a time at or before "@ + signed_decimal(now as int),
        )
    } else {
        match selected(fact_ids(conflict.members), keep, "fact"@) {
            Err(message) => Err(message),
            Ok(kept_id) => {
                let kept = fact_with(conflict.members, kept_id)->Some_0;
                let entries = competing(conflict.members, kept);
                if some_member(conflict.members, false) {
                    Err("exclusive conflict "@ + conflict.id + " has non-fact evidence"@)
                } else if entries.len() == 0 {
                    Err("conflict "@ + conflict.id + " has no competing facts to expire"@)
                } else {
                    Ok(
                        PlanView {
                            resolution: ResolutionView {
                                conflict_id: conflict.id,
                                kept_id,
                                archived_memory_ids: seq![],
                                expired_fact_ids: order::ranked::<String>(entry_facts(entries)),
                                expired_at: Some(expiration),
                            },
                            expiries: expiries_of(entries),
                        },
                    )
                }
            },
        }
    }
}

proof fn lemma_fact_with(members: Seq<MemberView>, id: Seq<char>)
    requires
        fact_ids(members).contains(id),
    ensures
        fact_with(members, id) is Some,
        fact_with(members, id)->Some_0.id == id,
    decreases members.len(),
{
    lemma_fact_member(members, id);
    let at = choose|i: int|
        0 <= i < members.len() && (#[trigger] members[i]).fact is Some && members[i].fact->Some_0.id
            == id;
    lemma_fact_at(members, id, at);
}

proof fn lemma_fact_member(members: Seq<MemberView>, id: Seq<char>)
    requires
        fact_ids(members).contains(id),
    ensures
        exists|i: int|
            0 <= i < members.len() && (#[trigger] members[i]).fact is Some
                && members[i].fact->Some_0.id == id,
    decreases members.len(),
{
    let rest = members.drop_last();
    if members.len() > 0 {
        let k = choose|k: int| 0 <= k < fact_ids(members).len() && fact_ids(members)[k] == id;
        if k < fact_ids(rest).len() {
            assert(fact_ids(rest)[k] == id);
            lemma_fact_member(rest, id);
            let i = choose|i: int|
                0 <= i < rest.len() && (#[trigger] rest[i]).fact is Some && rest[i].fact->Some_0.id
                    == id;
            assert(members[i] == rest[i]);
        } else {
            assert(members[members.len() - 1] == members.last());
        }
    }
}

proof fn lemma_fact_at(members: Seq<MemberView>, id: Seq<char>, at: int)
    requires
        0 <= at < members.len(),
        members[at].fact is Some,
        members[at].fact->Some_0.id == id,
    ensures
        fact_with(members, id) is Some,
        fact_with(members, id)->Some_0.id == id,
    decreases members.len(),
{
    if !(members[0].fact is Some && members[0].fact->Some_0.id == id) {
        assert(members.drop_first()[at - 1] == members[at]);
        lemma_fact_at(members.drop_first(), id, at - 1);
    }
}

fn list_facts(members: &Vec<ConflictMember>) -> (ids: Vec<String>)
    ensures
        ids.deep_view() == fact_ids(members.deep_view()),
{
    let ghost all = members.deep_view();
    let mut ids: Vec<String> = Vec::new();
    let mut i: usize = 0;
    assert(ids.deep_view() =~= seq![]);
    while i < members.len()
        invariant
            i <= members.len(),
            all == members.deep_view(),
            ids.deep_view() == fact_ids(all.take(i as int)),
        decreases members.len() - i,
    {
        assert(all.take(i + 1).drop_last() =~= all.take(i as int));
        assert(all.take(i + 1).last() == members[i as int]@);
        if let Some(fact) = &members[i].fact {
            let ghost before = ids.deep_view();
            ids.push(fact.id.clone());
            assert(ids.deep_view() =~= before.push(fact.id@));
        }
        i = i + 1;
    }
    assert(all.take(i as int) =~= all);
    ids
}

fn find_fact(members: &Vec<ConflictMember>, id: &str) -> (at: usize)
    requires
        fact_with(members.deep_view(), id@) is Some,
    ensures
        at < members.len(),
        members[at as int].fact is Some,
        members[at as int].fact->Some_0@ == fact_with(members.deep_view(), id@)->Some_0,
{
    let ghost all = members.deep_view();
    let mut i: usize = 0;
    assert(all.skip(0) =~= all);
    while i < members.len()
        invariant
            i <= members.len(),
            all == members.deep_view(),
            fact_with(all, id@) is Some,
            fact_with(all, id@) == fact_with(all.skip(i as int), id@),
        decreases members.len() - i,
    {
        assert(all.skip(i as int)[0] == members[i as int]@);
        if let Some(fact) = &members[i].fact {
            if text::same(fact.id.as_str(), id) {
                return i;
            }
        }
        assert(all.skip(i as int).drop_first() =~= all.skip(i + 1));
        i = i + 1;
    }
    i
}

/// A sorted run of items has no empty group.
proof fn lemma_groups_are_filled(items: Seq<ExpiryView>)
    ensures
        forall|i: int|
            0 <= i < order::groups_of::<ExpiryEntry>(items).len() ==> (
            #[trigger] order::groups_of::<ExpiryEntry>(items)[i]).len() > 0,
    decreases items.len(),
{
    if items.len() > 0 {
        lemma_groups_are_filled(items.drop_last());
        let before = order::groups_of::<ExpiryEntry>(items.drop_last());
        let groups = order::groups_of::<ExpiryEntry>(items);
        assert forall|i: int| 0 <= i < groups.len() implies (#[trigger] groups[i]).len() > 0 by {
            if i < before.len() {
                assert(before[i].len() > 0);
            }
            if i < before.len() - 1 {
                assert(groups[i] == before[i]);
            }
        }
    }
}

fn list_expiries(entries: Vec<ExpiryEntry>) -> (expiries: Vec<MemoryExpiry>)
    ensures
        expiries.deep_view() == expiries_of(entries.deep_view()),
{
    let ghost wanted = expiries_of(entries.deep_view());
    let ghost items = order::ranked::<ExpiryEntry>(entries.deep_view());
    let groups = order::group(entries);
    let ghost all = groups.deep_view();
    proof {
        lemma_groups_are_filled(items);
    }
    let mut expiries: Vec<MemoryExpiry> = Vec::new();
    let mut i: usize = 0;
    while i < groups.len()
        invariant
            i <= groups.len(),
            all == groups.deep_view(),
            wanted == all.map_values(|group: Seq<ExpiryView>| memory_expiry(group)),
            forall|k: int| 0 <= k < all.len() ==> (#[trigger] all[k]).len() > 0,
            expiries.deep_view() == wanted.take(i as int),
        decreases groups.len() - i,
    {
        let group = &groups[i];
        let ghost model = group.deep_view();
        assert(model == all[i as int]);
        let ghost facts = entry_facts(model);
        let mut ids: Vec<String> = Vec::new();
        let mut k: usize = 0;
        while k < group.len()
            invariant
                k <= group.len(),
                model == group.deep_view(),
                facts == entry_facts(model),
                ids.deep_view() == facts.take(k as int),
            decreases group.len() - k,
        {
            let ghost before = ids.deep_view();
            ids.push(group[k].fact_id.clone());
            assert(ids.deep_view() =~= before.push(group[k as int]@.fact_id));
            assert(facts.take(k + 1) =~= facts.take(k as int).push(facts[k as int]));
            k = k + 1;
        }
        assert(facts.take(k as int) =~= facts);
        let ghost before = expiries.deep_view();
        let expiry = MemoryExpiry { memory_id: group[0].memory_id.clone(), fact_ids: ids };
        assert(expiry@ == memory_expiry(model));
        expiries.push(expiry);
        assert(expiries.deep_view() =~= before.push(memory_expiry(model)));
        assert(wanted.take(i + 1) =~= wanted.take(i as int).push(wanted[i as int]));
        i = i + 1;
    }
    assert(wanted.take(i as int) =~= wanted);
    expiries
}

fn plan_exclusive(
    conflict: &Conflict,
    keep: &str,
    requested_expiration: Option<i64>,
    now: i64,
) -> (plan: Result<ResolutionPlan, Error>)
    ensures
        crate::error::agrees(plan, exclusive_plan(conflict@, keep@, requested_expiration, now)),
{
    let expiration = match requested_expiration {
        Some(expiration) => expiration,
        None => now,
    };
    if expiration > now {
        return Err(
            Error::new(
                text::concat4(
                    "conflict expiration time ",
                    decimal_i64(expiration).as_str(),
                    " is in the future; choose a time at or before ",
                    decimal_i64(now).as_str(),
                ),
            ),
        );
    }
    let ids = list_facts(&conflict.members);
    let kept_id = select_member_id(&ids, keep, "fact")?;
    let ghost all = conflict.members.deep_view();
    proof {
        selection_is_a_candidate(fact_ids(all), keep@, "fact"@);
        lemma_fact_with(all, kept_id@);
    }
    let at = find_fact(&conflict.members, kept_id.as_str());
    let ghost kept = fact_with(all, kept_id@)->Some_0;
    let mut entries: Vec<ExpiryEntry> = Vec::new();
    let mut expired: Vec<String> = Vec::new();
    let mut i: usize = 0;
    proof {
        assert(entries.deep_view() =~= seq![]);
        assert(expired.deep_view() =~= entry_facts(seq![]));
    }
    while i < conflict.members.len()
        invariant
            i <= conflict.members.len(),
            at < conflict.members.len(),
            all == conflict.members.deep_view(),
            all == conflict@.members,
            conflict.members[at as int].fact is Some,
            conflict.members[at as int].fact->Some_0@ == kept,
            kept == fact_with(all, kept_id@)->Some_0,
            expiration <= now,
            selected(fact_ids(all), keep@, "fact"@) == Ok::<Seq<char>, Seq<char>>(kept_id@),
            expiration == (match requested_expiration {
                Some(expiration) => expiration,
                None => now,
            }),
            forall|k: int| 0 <= k < i ==> (#[trigger] all[k]).fact is Some,
            entries.deep_view() == competing(all.take(i as int), kept),
            expired.deep_view() == entry_facts(entries.deep_view()),
        decreases conflict.members.len() - i,
    {
        let member = &conflict.members[i];
        proof {
            assert(all[i as int] == member@);
            assert(all.take(i + 1).drop_last() =~= all.take(i as int));
            assert(all.take(i + 1).last() == member@);
        }
        match &member.fact {
            None => {
                assert(all[i as int].fact is Some == false);
                return Err(
                    Error::new(
                        text::concat3(
                            "exclusive conflict ",
                            conflict.id.as_str(),
                            " has non-fact evidence",
                        ),
                    ),
                );
            },
            Some(fact) => {
                if let Some(kept_fact) = &conflict.members[at].fact {
                    if !semantic::semantic_object_parts_match(
                        semantic::as_slice(&kept_fact.object_id),
                        kept_fact.object_value.as_str(),
                        semantic::as_slice(&fact.object_id),
                        fact.object_value.as_str(),
                    ) {
                        let ghost before = entries.deep_view();
                        let ghost before_ids = expired.deep_view();
                        let entry = ExpiryEntry {
                            memory_id: member.memory_id.clone(),
                            fact_id: fact.id.clone(),
                        };
                        let ghost model = entry@;
                        entries.push(entry);
                        expired.push(fact.id.clone());
                        assert(entries.deep_view() =~= before.push(model));
                        assert(expired.deep_view() =~= before_ids.push(model.fact_id));
                        assert(expired.deep_view() =~= entry_facts(entries.deep_view()));
                    }
                }
            },
        }
        i = i + 1;
    }
    assert(all.take(i as int) =~= all);
    assert(!some_member(all, false));
    if expired.len() == 0 {
        assert(expired.deep_view().len() == 0);
        return Err(
            Error::new(
                text::concat3(
                    "conflict ",
                    conflict.id.as_str(),
                    " has no competing facts to expire",
                ),
            ),
        );
    }
    assert(expired.deep_view().len() > 0);
    let archived: Vec<String> = Vec::new();
    assert(archived.deep_view() =~= seq![]);
    Ok(
        ResolutionPlan {
            resolution: Resolution {
                conflict_id: conflict.id.clone(),
                kept_id,
                archived_memory_ids: archived,
                expired_fact_ids: order::sort(expired),
                expired_at: Some(expiration),
            },
            expiries: list_expiries(entries),
        },
    )
}

/// What resolving a conflict takes.
pub open spec fn planned(
    conflict: ConflictView,
    keep: Seq<char>,
    requested_expiration: Option<i64>,
    now: i64,
) -> Result<PlanView, Seq<char>> {
    match conflict.kind {
        ConflictKind::ExactActiveDuplicate => if requested_expiration is Some {
            Err("--at only applies to exclusive-current conflicts"@)
        } else {
            duplicate_plan(conflict, keep)
        },
        ConflictKind::ExclusiveCurrent => exclusive_plan(
            conflict,
            keep,
            requested_expiration,
            now,
        ),
    }
}

/// Plans how a conflict is resolved. Of duplicates all but the kept one are
/// archived; of facts that exclude each other those end that say something else
/// than the kept one.
pub fn plan_resolution(
    conflict: &Conflict,
    keep: &str,
    requested_expiration: Option<i64>,
    now: i64,
) -> (plan: Result<ResolutionPlan, Error>)
    ensures
        crate::error::agrees(plan, planned(conflict@, keep@, requested_expiration, now)),
{
    match conflict.kind {
        ConflictKind::ExactActiveDuplicate => {
            if requested_expiration.is_some() {
                return Err(Error::of("--at only applies to exclusive-current conflicts"));
            }
            plan_duplicates(conflict, keep)
        },
        ConflictKind::ExclusiveCurrent => plan_exclusive(conflict, keep, requested_expiration, now),
    }
}

/// A memory with another body, unless its file is a link.
pub open spec fn rewritten(
    source: MemoryView,
    state: PathState,
    body: Result<Seq<char>, Seq<char>>,
    now: Seq<char>,
) -> Result<MemoryView, Seq<char>> {
    match body {
        Err(message) => Err(message),
        Ok(body) => if text::trimmed(body).len() == 0 {
            Err("updated body cannot be empty"@)
        } else if state == PathState::Symlink {
            Err(memory::link_refusal(source))
        } else {
            Ok(
                MemoryView {
                    metadata: MetadataView { updated_at: now, ..source.metadata },
                    body,
                    ..source
                },
            )
        },
    }
}

/// Whether that is a memory with some of its facts ended at a time.
pub open spec fn is_ended(
    source: MemoryView,
    state: PathState,
    fact_ids: Seq<Seq<char>>,
    expiration: int,
    table: Map<Seq<char>, Reading>,
    now: Seq<char>,
    ended: Result<MemoryView, Seq<char>>,
) -> bool {
    if source.metadata.status != MemoryStatus::Active {
        ended == Err::<MemoryView, _>("only active memories can be used for conflict resolution"@)
    } else {
        match extraction_of(source, table) {
            Err(message) => ended == Err::<MemoryView, _>(message),
            Ok(extraction) => is_ended_by(
                source,
                state,
                extraction.facts,
                fact_ids,
                expiration,
                now,
                ended,
            ),
        }
    }
}

pub open spec fn is_ended_by(
    source: MemoryView,
    state: PathState,
    facts: Seq<FactView>,
    fact_ids: Seq<Seq<char>>,
    expiration: int,
    now: Seq<char>,
    ended: Result<MemoryView, Seq<char>>,
) -> bool {
    exists|body: Result<Seq<char>, Seq<char>>| #[trigger]
        is_expired_body(source, facts, fact_ids, expiration, body) && ended == rewritten(
            source,
            state,
            body,
            now,
        )
}

fn end_known_facts(
    source: Memory,
    state: PathState,
    facts: &Vec<SemanticFact>,
    fact_ids: &Vec<String>,
    expiration: i64,
    now: &str,
) -> (ended: Result<Memory, Error>)
    ensures
        is_ended_by(
            source@,
            state,
            facts.deep_view(),
            fact_ids.deep_view(),
            expiration as int,
            now@,
            memory::outcome(ended),
        ),
{
    let body = expiry::expire_facts(&source, facts, fact_ids, expiration);
    let ghost read = match &body {
        Ok(body) => Ok(body@),
        Err(error) => Err(error@),
    };
    assert(is_expired_body(
        source@,
        facts.deep_view(),
        fact_ids.deep_view(),
        expiration as int,
        read,
    ));
    match body {
        Ok(body) => memory::update_memory(source, state, body, false, now),
        Err(error) => Err(error),
    }
}

/// Ends some of the facts that a memory states.
fn end_stated_facts(
    source: Memory,
    state: PathState,
    fact_ids: &Vec<String>,
    expiration: i64,
    table: &ConfidenceTable,
    now: &str,
) -> (ended: Result<Memory, Error>)
    ensures
        is_ended(
            source@,
            state,
            fact_ids.deep_view(),
            expiration as int,
            table@,
            now@,
            memory::outcome(ended),
        ),
{
    match memory::ensure_active_memory(&source, "used for conflict resolution") {
        Ok(_) => {},
        Err(error) => {
            proof {
                reveal_strlit("only active memories can be ");
                reveal_strlit("used for conflict resolution");
                reveal_strlit("only active memories can be used for conflict resolution");
                assert("only active memories can be "@ + "used for conflict resolution"@
                    =~= "only active memories can be used for conflict resolution"@);
            }
            return Err(error);
        },
    }
    match semantic::extract(&source, table) {
        Ok(extraction) => end_known_facts(
            source,
            state,
            &extraction.facts,
            fact_ids,
            expiration,
            now,
        ),
        Err(error) => Err(error),
    }
}

/// Finds a memory of a plan, and ends those of its facts that compete. The state
/// is that of the file of the memory that is found.
pub fn expire_memory(
    memories: Vec<Memory>,
    expiry: &MemoryExpiry,
    state: PathState,
    expiration: i64,
    table: &ConfidenceTable,
    now: &str,
) -> (ended: Result<Memory, Error>)
    ensures
        exists|found: Result<MemoryView, Seq<char>>| #[trigger]
            memory::is_found(memories.deep_view(), expiry@.memory_id, found) && match found {
                Ok(source) => is_ended(
                    source,
                    state,
                    expiry@.fact_ids,
                    expiration as int,
                    table@,
                    now@,
                    memory::outcome(ended),
                ),
                Err(message) => memory::outcome(ended) == Err::<MemoryView, _>(message),
            },
{
    let ghost all = memories.deep_view();
    let found = memory::find_memory(memories, expiry.memory_id.as_str());
    assert(memory::is_found(all, expiry@.memory_id, memory::outcome(found)));
    match found {
        Ok(source) => end_stated_facts(source, state, &expiry.fact_ids, expiration, table, now),
        Err(error) => Err(error),
    }
}

/// What a resolution is recorded as.
pub open spec fn message_of(kind: ConflictKind, resolution: ResolutionView) -> Seq<char> {
    match kind {
        ConflictKind::ExactActiveDuplicate => "rem: resolve duplicate conflict "@
            + resolution.conflict_id + " keep memory "@ + resolution.kept_id,
        ConflictKind::ExclusiveCurrent => "rem: resolve semantic conflict "@
            + resolution.conflict_id + " keep fact "@ + resolution.kept_id,
    }
}

pub fn resolution_message(kind: ConflictKind, resolution: &Resolution) -> (message: String)
    ensures
        message@ == message_of(kind, resolution@),
{
    let id = resolution.conflict_id.as_str();
    let kept = resolution.kept_id.as_str();
    match kind {
        ConflictKind::ExactActiveDuplicate => text::concat4(
            "rem: resolve duplicate conflict ",
            id,
            " keep memory ",
            kept,
        ),
        ConflictKind::ExclusiveCurrent => text::concat4(
            "rem: resolve semantic conflict ",
            id,
            " keep fact ",
            kept,
        ),
    }
}

// Laws.

/// Nothing is ended through a link.
pub proof fn links_are_not_ended(
    source: MemoryView,
    fact_ids: Seq<Seq<char>>,
    expiration: int,
    table: Map<Seq<char>, Reading>,
    now: Seq<char>,
    ended: Result<MemoryView, Seq<char>>,
)
    requires
        is_ended(source, PathState::Symlink, fact_ids, expiration, table, now, ended),
    ensures
        ended is Err,
{
}

/// Whether each member has a memory, or a fact, of its own.
pub open spec fn distinct_members(members: Seq<MemberView>) -> bool {
    forall|i: int, j: int|
        0 <= i < j < members.len() && (#[trigger] members[i]).fact is Some && (
        #[trigger] members[j]).fact is Some ==> members[i].fact->Some_0.id
            != members[j].fact->Some_0.id
}

proof fn lemma_competing_members(members: Seq<MemberView>, kept: ConflictFactView)
    ensures
        forall|entry: ExpiryView|
            #[trigger] competing(members, kept).contains(entry) <==> exists|i: int|
                {
                    &&& 0 <= i < members.len()
                    &&& (#[trigger] members[i]).fact is Some
                    &&& competes(kept, members[i].fact->Some_0)
                    &&& entry == (ExpiryView {
                        memory_id: members[i].memory_id,
                        fact_id: members[i].fact->Some_0.id,
                    })
                },
    decreases members.len(),
{
    if members.len() > 0 {
        let rest = members.drop_last();
        lemma_competing_members(rest, kept);
        let all = competing(members, kept);
        let before = competing(rest, kept);
        assert forall|entry: ExpiryView|
            #[trigger] all.contains(entry) <==> exists|i: int|
                {
                    &&& 0 <= i < members.len()
                    &&& (#[trigger] members[i]).fact is Some
                    &&& competes(kept, members[i].fact->Some_0)
                    &&& entry == (ExpiryView {
                        memory_id: members[i].memory_id,
                        fact_id: members[i].fact->Some_0.id,
                    })
                } by {
            if all.contains(entry) {
                let k = choose|k: int| 0 <= k < all.len() && all[k] == entry;
                if k < before.len() {
                    assert(before[k] == entry);
                    assert(before.contains(entry));
                    let i = choose|i: int|
                        {
                            &&& 0 <= i < rest.len()
                            &&& (#[trigger] rest[i]).fact is Some
                            &&& competes(kept, rest[i].fact->Some_0)
                            &&& entry == (ExpiryView {
                                memory_id: rest[i].memory_id,
                                fact_id: rest[i].fact->Some_0.id,
                            })
                        };
                    assert(members[i] == rest[i]);
                } else {
                    assert(members[members.len() - 1] == members.last());
                }
            }
            if exists|i: int|
                {
                    &&& 0 <= i < members.len()
                    &&& (#[trigger] members[i]).fact is Some
                    &&& competes(kept, members[i].fact->Some_0)
                    &&& entry == (ExpiryView {
                        memory_id: members[i].memory_id,
                        fact_id: members[i].fact->Some_0.id,
                    })
                } {
                let i = choose|i: int|
                    {
                        &&& 0 <= i < members.len()
                        &&& (#[trigger] members[i]).fact is Some
                        &&& competes(kept, members[i].fact->Some_0)
                        &&& entry == (ExpiryView {
                            memory_id: members[i].memory_id,
                            fact_id: members[i].fact->Some_0.id,
                        })
                    };
                if i < rest.len() {
                    assert(rest[i] == members[i]);
                    assert(before.contains(entry));
                    let k = choose|k: int| 0 <= k < before.len() && before[k] == entry;
                    assert(all[k] == entry);
                } else {
                    assert(all[all.len() - 1] == entry);
                }
            }
        }
    }
}

/// A fact ends if, and only if, it says something else than the kept one; the
/// kept one never does.
pub proof fn resolution_ends_what_competes(
    conflict: ConflictView,
    keep: Seq<char>,
    requested_expiration: Option<i64>,
    now: i64,
    at: int,
)
    requires
        conflict.kind == ConflictKind::ExclusiveCurrent,
        distinct_members(conflict.members),
        planned(conflict, keep, requested_expiration, now) is Ok,
        0 <= at < conflict.members.len(),
    ensures
        ({
            let resolution = planned(conflict, keep, requested_expiration, now)->Ok_0.resolution;
            let kept = fact_with(conflict.members, resolution.kept_id)->Some_0;
            let fact = conflict.members[at].fact->Some_0;
            &&& kept.id == resolution.kept_id
            &&& resolution.expired_fact_ids.contains(fact.id) <==> competes(kept, fact)
            &&& !resolution.expired_fact_ids.contains(resolution.kept_id)
        }),
{
    let members = conflict.members;
    let resolution = planned(conflict, keep, requested_expiration, now)->Ok_0.resolution;
    selection_is_a_candidate(fact_ids(members), keep, "fact"@);
    lemma_fact_with(members, resolution.kept_id);
    let kept = fact_with(members, resolution.kept_id)->Some_0;
    let entries = competing(members, kept);
    let facts = entry_facts(entries);
    lemma_competing_members(members, kept);
    order::lemma_sorted_members::<Seq<char>>(
        facts,
        |left: Seq<char>, right: Seq<char>| String::ranks_before(left, right),
    );
    assert(resolution.expired_fact_ids == order::ranked::<String>(facts));
    assert forall|i: int| 0 <= i < members.len() implies (resolution.expired_fact_ids.contains(
        (#[trigger] members[i]).fact->Some_0.id,
    ) <==> competes(kept, members[i].fact->Some_0)) by {
        assert(members[i].fact is Some) by {
            assert(!some_member(members, false));
        }
        let id = members[i].fact->Some_0.id;
        if resolution.expired_fact_ids.contains(id) {
            assert(facts.contains(id));
            let k = choose|k: int| 0 <= k < facts.len() && facts[k] == id;
            assert(entries.contains(entries[k]));
            let j = choose|j: int|
                {
                    &&& 0 <= j < members.len()
                    &&& (#[trigger] members[j]).fact is Some
                    &&& competes(kept, members[j].fact->Some_0)
                    &&& entries[k] == (ExpiryView {
                        memory_id: members[j].memory_id,
                        fact_id: members[j].fact->Some_0.id,
                    })
                };
            assert(j == i);
        }
        if competes(kept, members[i].fact->Some_0) {
            let entry = ExpiryView { memory_id: members[i].memory_id, fact_id: id };
            assert(entries.contains(entry));
            let k = choose|k: int| 0 <= k < entries.len() && entries[k] == entry;
            assert(facts[k] == id);
            assert(facts.contains(id));
        }
    }
    lemma_fact_member(members, resolution.kept_id);
    lemma_fact_is_member(members, resolution.kept_id);
    let own = choose|i: int|
        0 <= i < members.len() && (#[trigger] members[i]).fact == Some(kept);
    assert(!competes(kept, members[own].fact->Some_0));
}

proof fn lemma_fact_is_member(members: Seq<MemberView>, id: Seq<char>)
    requires
        fact_with(members, id) is Some,
    ensures
        exists|i: int|
            0 <= i < members.len() && (#[trigger] members[i]).fact == fact_with(members, id),
    decreases members.len(),
{
    if members.len() > 0 {
        if members[0].fact is Some && members[0].fact->Some_0.id == id {
            assert(members[0].fact == fact_with(members, id));
        } else {
            let rest = members.drop_first();
            lemma_fact_is_member(rest, id);
            let i = choose|i: int|
                0 <= i < rest.len() && (#[trigger] rest[i]).fact == fact_with(rest, id);
            assert(members[i + 1] == rest[i]);
        }
    }
}

/// Of duplicates every memory but the kept one is archived.
pub proof fn resolution_keeps_one_duplicate(conflict: ConflictView, keep: Seq<char>, now: i64)
    requires
        conflict.kind == ConflictKind::ExactActiveDuplicate,
        planned(conflict, keep, None, now) is Ok,
    ensures
        ({
            let resolution = planned(conflict, keep, None, now)->Ok_0.resolution;
            &&& memory_ids(conflict.members).contains(resolution.kept_id)
            &&& forall|id: Seq<char>|
                #[trigger] resolution.archived_memory_ids.contains(id) <==> memory_ids(
                    conflict.members,
                ).contains(id) && id != resolution.kept_id
        }),
{
    let ids = memory_ids(conflict.members);
    let resolution = planned(conflict, keep, None, now)->Ok_0.resolution;
    selection_is_a_candidate(ids, keep, "memory"@);
    let is_other = is_not(resolution.kept_id);
    assert(resolution.archived_memory_ids == ids.filter(is_other));
    assert forall|id: Seq<char>|
        #[trigger] resolution.archived_memory_ids.contains(id) <==> ids.contains(id) && id
            != resolution.kept_id by {
        if ids.filter(is_other).contains(id) {
            ids.lemma_filter_contains_rev(is_other, id);
            let k = choose|k: int|
                0 <= k < ids.filter(is_other).len() && ids.filter(is_other)[k] == id;
            ids.lemma_filter_pred(is_other, k);
        }
        if ids.contains(id) && is_other(id) {
            let k = choose|k: int| 0 <= k < ids.len() && ids[k] == id;
            ids.lemma_filter_contains(is_other, k);
        }
    }
}

} // verus!
