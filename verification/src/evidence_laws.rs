//! What conflicts rest on: what is kept of facts and memories, what they mention,
//! and which of them can be ended.

use vstd::prelude::*;

use crate::conflict::{
    conflict_fact_of, evidence_of, exclusive_entry, fact_evidence, least_name, member_evidence,
    member_of, members_evidence, opened, ConflictFactView, ConflictKind, ConflictStatus,
    ConflictView, ExclusiveView, MemberView,
};
use crate::deciding_laws::differs;
use crate::digest::{hash_of, id_problem};
use crate::directive::Reading;
use crate::expiry::{is_expired_body, is_known, known_ids, some_need_date};
use crate::memory::{title_of, MemoryScope, MemoryStatus, MemoryView, MetadataView};
use crate::order::{
    groups_of, joined_by, text_less, text_less_is_total, text_less_is_transitive, Grouped, Ranked,
};
use crate::resolution::{
    competing, distinct_members, expiries_of, fact_with, is_ended, planned,
    resolution_ends_what_competes, ExpiryEntry, ExpiryView, MemoryExpiryView,
};
use crate::semantic::{
    entity_of, episode_of, excerpt_of, has_entity, mentioned, object_kind_of, with_entity,
    EntityView, ExtractionView, FactView, ReadFact,
};
use crate::text::trimmed;
use crate::workspace::PathState;

verus! {

// What is kept.

/// Of a fact a conflict keeps what it says, when it holds, and where it stands.
pub proof fn conflicts_keep_what_facts_say(fact: FactView)
    ensures
        ({
            let kept = conflict_fact_of(fact);
            &&& kept.id == fact.id
            &&& kept.object_id == fact.object_id
            &&& kept.object_value == fact.object_value
            &&& kept.valid_from == fact.valid_from
            &&& kept.valid_to == fact.valid_to
            &&& kept.learned_at == fact.learned_at
            &&& kept.expired_at == fact.expired_at
            &&& kept.confidence == fact.confidence
            &&& kept.line_number == fact.line_number
        }),
{
}

/// A member of a conflict tells which memory it is, where it stands and what it is
/// called; one that states a fact tells the fact too.
pub proof fn members_tell_their_memory(
    memory: MemoryView,
    extraction: ExtractionView,
    fact: FactView,
    said: Seq<char>,
)
    ensures
        ({
            let plain = member_of(memory, None, said);
            let entry = exclusive_entry(memory, extraction, fact);
            &&& plain.memory_id == memory.metadata.id
            &&& plain.memory_title == title_of(memory)
            &&& memory.path matches Some(path) ==> plain.memory_path == path
            &&& plain.excerpt == said
            &&& plain.fact is None
            &&& entry.scope == memory.metadata.scope
            &&& entry.fact == fact
            &&& entry.member.memory_id == memory.metadata.id
            &&& entry.member.fact == Some(conflict_fact_of(fact))
        }),
{
}

/// A conflict is open when it is found, and nothing is decided about it; its hash
/// is that of its evidence.
pub proof fn found_conflicts_are_open(
    id: Seq<char>,
    kind: ConflictKind,
    scope: MemoryScope,
    subject_id: Option<Seq<char>>,
    subject: Option<Seq<char>>,
    relation: Option<Seq<char>>,
    members: Seq<MemberView>,
)
    ensures
        ({
            let conflict = opened(id, kind, scope, subject_id, subject, relation, members);
            &&& conflict.id == id && conflict.kind == kind && conflict.scope == scope
            &&& conflict.subject_id == subject_id && conflict.subject == subject
            &&& conflict.relation == relation && conflict.members == members
            &&& conflict.status == ConflictStatus::Open
            &&& conflict.acceptance is None
            &&& conflict.evidence_hash == "evidence"@ + "-"@ + hash_of(evidence_of(conflict))
        }),
{
}

/// A subject that has several names goes by the first of them, in order.
pub proof fn subjects_go_by_their_first_name(group: Seq<ExclusiveView>)
    ensures
        match least_name(group) {
            Some(least) => {
                &&& exists|i: int|
                    0 <= i < group.len() && (#[trigger] group[i]).subject_name == Some(least)
                &&& forall|i: int|
                    0 <= i < group.len() && (#[trigger] group[i]).subject_name is Some
                        ==> !text_less(group[i].subject_name->Some_0, least)
            },
            None => forall|i: int|
                0 <= i < group.len() ==> (#[trigger] group[i]).subject_name is None,
        },
    decreases group.len(),
{
    if group.len() > 0 {
        let rest = group.drop_last();
        let last = group.len() - 1;
        subjects_go_by_their_first_name(rest);
        assert(group[last] == group.last());
        assert forall|i: int| 0 <= i < rest.len() implies rest[i] == #[trigger] group[i] by {}
        match (least_name(rest), group.last().subject_name) {
            (None, None) => {},
            (None, Some(name)) => {
                text_less_is_total(name, name);
                assert(group[last].subject_name == Some(name));
            },
            (Some(least), None) => {
                let i = choose|i: int|
                    0 <= i < rest.len() && (#[trigger] rest[i]).subject_name == Some(least);
                assert(group[i].subject_name == Some(least));
            },
            (Some(least), Some(name)) => {
                text_less_is_total(name, name);
                text_less_is_total(name, least);
                if text_less(name, least) {
                    assert(group[last].subject_name == Some(name));
                    assert forall|i: int|
                        0 <= i < group.len() && (#[trigger] group[i]).subject_name is Some implies
                        !text_less(group[i].subject_name->Some_0, name) by {
                        if i < last && text_less(group[i].subject_name->Some_0, name) {
                            text_less_is_transitive(
                                group[i].subject_name->Some_0,
                                name,
                                least,
                            );
                            assert(rest[i] == group[i]);
                        }
                    }
                } else {
                    let i = choose|i: int|
                        0 <= i < rest.len() && (#[trigger] rest[i]).subject_name == Some(least);
                    assert(group[i].subject_name == Some(least));
                }
            },
        }
    }
}

// Evidence.

/// The text of a value that may be missing.
pub open spec fn or_nothing(value: Option<Seq<char>>) -> Seq<char> {
    match value {
        Some(value) => value,
        None => seq![],
    }
}

proof fn lemma_or_nothing(value: Option<Seq<char>>)
    ensures
        or_nothing(value) == crate::semantic::or_empty(value),
{
}

/// What an acceptance rests on names everything about a conflict: its kind, its
/// scope, its subject and its relation, and then its members.
pub proof fn evidence_names_the_conflict(conflict: ConflictView)
    ensures
        evidence_of(conflict) == conflict.id + "\n"@ + (match conflict.kind {
            ConflictKind::ExactActiveDuplicate => "exact-active-duplicate"@,
            ConflictKind::ExclusiveCurrent => "exclusive-current-conflict"@,
        }) + "\n"@ + (match conflict.scope {
            MemoryScope::User => "user"@,
            MemoryScope::Project => "project"@,
            MemoryScope::Agent => "agent"@,
            MemoryScope::Session => "session"@,
        }) + "\n"@ + or_nothing(conflict.subject_id) + "\n"@ + or_nothing(conflict.relation)
            + members_evidence(conflict.members),
{
    lemma_or_nothing(conflict.subject_id);
    lemma_or_nothing(conflict.relation);
}

/// Members are named one after the other, each with its memory and, where it states
/// one, its fact.
pub proof fn evidence_names_the_members(members: Seq<MemberView>, more: MemberView)
    ensures
        members_evidence(Seq::empty()) == Seq::<char>::empty(),
        members_evidence(members.push(more)) == members_evidence(members) + member_evidence(more),
        more.fact is None ==> member_evidence(more) == "\nmemory:"@ + more.memory_id,
        more.fact matches Some(fact) ==> member_evidence(more) == "\nmemory:"@ + more.memory_id
            + fact_evidence(fact),
{
    assert(members.push(more).drop_last() =~= members);
}

/// A fact is named with all that it says, when it holds, and where it stands.
pub proof fn evidence_names_the_fact(fact: ConflictFactView)
    ensures
        fact_evidence(fact) == "\nfact:"@ + fact.id + "\nobject-id:"@ + or_nothing(fact.object_id)
            + "\nobject:"@ + fact.object_value + "\nfrom:"@ + or_nothing(fact.valid_from)
            + "\nto:"@ + or_nothing(fact.valid_to) + "\nlearned:"@ + fact.learned_at
            + "\nexpired:"@ + or_nothing(fact.expired_at) + "\nconfidence:"@ + or_nothing(
            fact.confidence,
        ) + "\nline:"@ + crate::numeral::decimal(fact.line_number),
{
    lemma_or_nothing(fact.object_id);
    lemma_or_nothing(fact.valid_from);
    lemma_or_nothing(fact.valid_to);
    lemma_or_nothing(fact.expired_at);
    lemma_or_nothing(fact.confidence);
}

/// Whether a character is a hexadecimal digit.
pub open spec fn is_hex(c: char) -> bool {
    '0' <= c <= '9' || 'a' <= c <= 'f' || 'A' <= c <= 'F'
}

/// An identifier is a prefix, a hyphen and sixteen hexadecimal digits, and nothing
/// else is one.
pub proof fn ids_are_prefixes_and_digits(prefix: Seq<char>, hash: Seq<char>, value: Seq<char>)
    ensures
        id_problem(prefix + "-"@ + hash, prefix) is None <==> hash.len() == 16 && forall|i: int|
            0 <= i < hash.len() ==> is_hex(#[trigger] hash[i]),
        id_problem(value, prefix) is None ==> (prefix + "-"@).is_prefix_of(value) && value.len()
            == prefix.len() + 17,
{
    reveal_strlit("-");
    let head = prefix + "-"@;
    let whole = prefix + "-"@ + hash;
    assert(whole =~= head + hash);
    assert(whole.subrange(0, head.len() as int) =~= head);
    assert(whole.skip(head.len() as int) =~= hash);
    if hash.len() == 16 && forall|i: int| 0 <= i < hash.len() ==> is_hex(#[trigger] hash[i]) {
        assert forall|i: int| 0 <= i < hash.len() implies crate::digest::is_hex_digit(
            #[trigger] hash[i],
        ) by {
            assert(is_hex(hash[i]));
        }
    }
    if id_problem(whole, prefix) is None {
        assert forall|i: int| 0 <= i < hash.len() implies is_hex(#[trigger] hash[i]) by {
            assert(crate::digest::is_hex_digit(hash[i]));
        }
    }
}

// Mentions.

/// Whether an entity is what a fact mentions, as its subject or as its object.
pub open spec fn is_mentioned_by(metadata: MetadataView, read: ReadFact, entity: EntityView) -> bool {
    &&& entity.created_at == metadata.created_at
    &&& entity.updated_at == metadata.updated_at
    &&& {
        ||| {
            &&& entity.id == read.fact.subject_id
            &&& entity.canonical_name == trimmed(read.directive.subject)
            &&& entity.kind == "entity"@
        }
        ||| {
            &&& read.fact.object_id == Some(entity.id)
            &&& entity.canonical_name == trimmed(read.directive.object)
            &&& entity.kind == object_kind_of(read.fact.relation)
        }
    }
}

proof fn lemma_with_entity(entities: Seq<EntityView>, entity: EntityView)
    ensures
        has_entity(with_entity(entities, entity), entity.id),
        forall|id: Seq<char>| #[trigger]
            has_entity(entities, id) ==> has_entity(with_entity(entities, entity), id),
        forall|i: int|
            0 <= i < with_entity(entities, entity).len() ==> (#[trigger] with_entity(
                entities,
                entity,
            )[i]) == entity || entities.contains(with_entity(entities, entity)[i]),
{
    let all = with_entity(entities, entity);
    if !has_entity(entities, entity.id) {
        assert(all[entities.len() as int] == entity);
        assert forall|id: Seq<char>| #[trigger] has_entity(entities, id) implies has_entity(
            all,
            id,
        ) by {
            let i = choose|i: int| 0 <= i < entities.len() && (#[trigger] entities[i]).id == id;
            assert(all[i] == entities[i]);
        }
    }
    assert forall|i: int| 0 <= i < all.len() implies (#[trigger] all[i]) == entity
        || entities.contains(all[i]) by {
        if i < entities.len() {
            assert(all[i] == entities[i]);
        }
    }
}

/// Whether an entity is mentioned by one of the facts.
pub open spec fn some_mention(metadata: MetadataView, facts: Seq<ReadFact>, entity: EntityView) -> bool {
    exists|k: int| 0 <= k < facts.len() && is_mentioned_by(metadata, #[trigger] facts[k], entity)
}

/// Every fact mentions its subject, and its object where that is an entity.
pub proof fn facts_mention_what_they_are_about(
    metadata: MetadataView,
    facts: Seq<ReadFact>,
    at: int,
)
    requires
        0 <= at < facts.len(),
    ensures
        has_entity(mentioned(metadata, facts), facts[at].fact.subject_id),
        facts[at].fact.object_id matches Some(id) ==> has_entity(mentioned(metadata, facts), id),
    decreases facts.len(),
{
    let rest = facts.drop_last();
    let last = facts.last();
    let before = mentioned(metadata, rest);
    let subject = entity_of(metadata, last.fact.subject_id, last.directive.subject, "entity"@);
    lemma_with_entity(before, subject);
    if let Some(id) = last.fact.object_id {
        let object = entity_of(
            metadata,
            id,
            last.directive.object,
            object_kind_of(last.fact.relation),
        );
        lemma_with_entity(with_entity(before, subject), object);
    }
    if at < rest.len() {
        assert(rest[at] == facts[at]);
        facts_mention_what_they_are_about(metadata, rest, at);
    }
}

/// What is mentioned is mentioned by a fact, under its name.
pub proof fn mentions_come_from_facts(
    metadata: MetadataView,
    facts: Seq<ReadFact>,
    entity: EntityView,
)
    requires
        mentioned(metadata, facts).contains(entity),
    ensures
        some_mention(metadata, facts, entity),
    decreases facts.len(),
{
    if facts.len() > 0 {
        let rest = facts.drop_last();
        let last = facts.last();
        let before = mentioned(metadata, rest);
        let all = mentioned(metadata, facts);
        assert(facts[facts.len() - 1] == last);
        let subject = entity_of(metadata, last.fact.subject_id, last.directive.subject, "entity"@);
        let with_subject = with_entity(before, subject);
        lemma_with_entity(before, subject);
        let i = choose|i: int| 0 <= i < all.len() && all[i] == entity;
        if before.contains(entity) {
            mentions_come_from_facts(metadata, rest, entity);
            let k = choose|k: int|
                0 <= k < rest.len() && is_mentioned_by(metadata, #[trigger] rest[k], entity);
            assert(facts[k] == rest[k]);
        } else {
            if let Some(id) = last.fact.object_id {
                let object = entity_of(
                    metadata,
                    id,
                    last.directive.object,
                    object_kind_of(last.fact.relation),
                );
                lemma_with_entity(with_subject, object);
                if with_subject.contains(entity) {
                    let j = choose|j: int| 0 <= j < with_subject.len() && with_subject[j] == entity;
                    assert(with_subject[j] == subject || before.contains(with_subject[j]));
                }
                assert(all[i] == object || with_subject.contains(all[i]));
            } else {
                assert(with_subject[i] == subject || before.contains(with_subject[i]));
            }
            assert(is_mentioned_by(metadata, facts[facts.len() - 1], entity));
        }
    }
}

/// An episode tells which memory it is, of what kind, since when, and what it says.
pub proof fn episodes_tell_their_memory(memory: MemoryView)
    ensures
        ({
            let episode = episode_of(memory);
            &&& episode.id == "episode-"@ + memory.metadata.id
            &&& episode.source_memory_id == memory.metadata.id
            &&& episode.kind == memory.metadata.kind.name()
            &&& episode.created_at == memory.metadata.created_at
            &&& episode.text_hash == "text"@ + "-"@ + hash_of(memory.body)
            &&& episode.excerpt == excerpt_of(memory.body)
        }),
{
}

// Endings.

proof fn lemma_known_ids(facts: Seq<FactView>, ids: Seq<Seq<char>>)
    ensures
        0 <= known_ids(facts, ids) <= ids.len(),
        known_ids(facts, ids) == ids.len() <==> forall|i: int|
            0 <= i < ids.len() ==> is_known(facts, #[trigger] ids[i]),
    decreases ids.len(),
{
    if ids.len() > 0 {
        let rest = ids.drop_first();
        lemma_known_ids(facts, rest);
        if known_ids(facts, ids) == ids.len() {
            assert forall|i: int| 0 <= i < ids.len() implies is_known(facts, #[trigger] ids[i]) by {
                if i > 0 {
                    assert(rest[i - 1] == ids[i]);
                }
            }
        }
        if forall|i: int| 0 <= i < ids.len() ==> is_known(facts, #[trigger] ids[i]) {
            assert(is_known(facts, ids[0]));
            assert forall|i: int| 0 <= i < rest.len() implies is_known(facts, #[trigger] rest[i]) by {
                assert(rest[i] == ids[i + 1]);
            }
        }
    }
}

/// Facts of a memory can be ended only where it states all of them.
pub proof fn only_stated_facts_are_ended(
    memory: MemoryView,
    facts: Seq<FactView>,
    ids: Seq<Seq<char>>,
    expiration: int,
    body: Result<Seq<char>, Seq<char>>,
    at: int,
)
    requires
        is_expired_body(memory, facts, ids, expiration, body),
        0 <= at < ids.len(),
        forall|k: int| 0 <= k < facts.len() ==> (#[trigger] facts[k]).id != ids[at],
    ensures
        body is Err,
{
    lemma_known_ids(facts, ids);
    assert(!is_known(facts, ids[at]));
}

/// Facts that a memory states can be ended, unless that takes a date for a time that
/// the calendar does not have.
pub proof fn stated_facts_can_be_ended(
    memory: MemoryView,
    facts: Seq<FactView>,
    ids: Seq<Seq<char>>,
    expiration: int,
    body: Result<Seq<char>, Seq<char>>,
)
    requires
        is_expired_body(memory, facts, ids, expiration, body),
        forall|i: int|
            0 <= i < ids.len() ==> exists|k: int|
                0 <= k < facts.len() && (#[trigger] facts[k]).id == #[trigger] ids[i],
        body is Err,
    ensures
        some_need_date(crate::text::line_seq(memory.body), facts, ids),
        expiration < 86_400 * crate::clock::epoch_days(1, 1, 1) || expiration >= 86_400
            * crate::clock::epoch_days(10000, 1, 1),
{
    lemma_known_ids(facts, ids);
    assert forall|i: int| 0 <= i < ids.len() implies is_known(facts, #[trigger] ids[i]) by {
        let k = choose|k: int| 0 <= k < facts.len() && (#[trigger] facts[k]).id == ids[i];
        assert(facts[k].id == ids[i]);
    }
}

/// Resolving facts that exclude each other ends those that say something else than
/// the kept one, and leaves those that say the same: of one entity, or of the same
/// words.
pub proof fn facts_that_say_the_same_stay(
    conflict: ConflictView,
    keep: Seq<char>,
    requested: Option<i64>,
    now: i64,
    at: int,
)
    requires
        conflict.kind == ConflictKind::ExclusiveCurrent,
        distinct_members(conflict.members),
        planned(conflict, keep, requested, now) is Ok,
        0 <= at < conflict.members.len(),
    ensures
        ({
            let resolution = planned(conflict, keep, requested, now)->Ok_0.resolution;
            let kept = fact_with(conflict.members, resolution.kept_id)->Some_0;
            let fact = conflict.members[at].fact->Some_0;
            let ends = resolution.expired_fact_ids.contains(fact.id);
            &&& kept.object_id is Some && fact.object_id is Some ==> (ends <==> kept.object_id
                != fact.object_id)
            &&& kept.object_id is Some != fact.object_id is Some ==> ends
            &&& kept.object_id is None && fact.object_id is None ==> (ends
                <==> crate::semantic::normal_name(kept.object_value)
                != crate::semantic::normal_name(fact.object_value))
        }),
{
    resolution_ends_what_competes(conflict, keep, requested, now, at);
}

/// Whether an entry stands in one of the groups.
spec fn is_grouped(groups: Seq<Seq<ExpiryView>>, entry: ExpiryView) -> bool {
    exists|g: int| 0 <= g < groups.len() && (#[trigger] groups[g]).contains(entry)
}

/// Whether a group is one of entries of one memory, all of them out of some others.
spec fn is_group_of(group: Seq<ExpiryView>, items: Seq<ExpiryView>) -> bool {
    &&& group.len() > 0
    &&& forall|k: int|
        0 <= k < group.len() ==> items.contains(#[trigger] group[k]) && group[k].memory_id
            == group[0].memory_id
}

proof fn lemma_more_items(group: Seq<ExpiryView>, items: Seq<ExpiryView>)
    requires
        items.len() > 0,
        is_group_of(group, items.drop_last()),
    ensures
        is_group_of(group, items),
{
    let rest = items.drop_last();
    assert forall|k: int| 0 <= k < group.len() implies items.contains(#[trigger] group[k])
        && group[k].memory_id == group[0].memory_id by {
        let i = choose|i: int| 0 <= i < rest.len() && rest[i] == group[k];
        assert(items[i] == group[k]);
    }
}

/// Whether groups are made of some items, and of all of them.
spec fn are_groups_of(groups: Seq<Seq<ExpiryView>>, items: Seq<ExpiryView>) -> bool {
    &&& forall|g: int| 0 <= g < groups.len() ==> is_group_of(#[trigger] groups[g], items)
    &&& forall|i: int| 0 <= i < items.len() ==> is_grouped(groups, #[trigger] items[i])
}

proof fn lemma_new_group(groups: Seq<Seq<ExpiryView>>, items: Seq<ExpiryView>)
    requires
        items.len() > 0,
        are_groups_of(groups, items.drop_last()),
    ensures
        are_groups_of(groups.push(seq![items.last()]), items),
{
    let rest = items.drop_last();
    let item = items.last();
    let all = groups.push(seq![item]);
    let last = groups.len() as int;
    assert(items[items.len() - 1] == item);
    assert(items.contains(item));
    assert(all[last][0] == item);
    assert(all[last].contains(item));
    assert forall|g: int| 0 <= g < all.len() implies is_group_of(#[trigger] all[g], items) by {
        if g < last {
            assert(all[g] == groups[g]);
            lemma_more_items(groups[g], items);
        }
    }
    assert forall|i: int| 0 <= i < items.len() implies is_grouped(all, #[trigger] items[i]) by {
        if i < rest.len() {
            assert(rest[i] == items[i]);
            assert(is_grouped(groups, rest[i]));
            let g = choose|g: int| 0 <= g < groups.len() && (#[trigger] groups[g]).contains(items[i]);
            assert(all[g] == groups[g]);
        }
    }
}

proof fn lemma_grown(group: Seq<ExpiryView>, items: Seq<ExpiryView>)
    requires
        items.len() > 0,
        is_group_of(group, items.drop_last()),
        group.last().memory_id == items.last().memory_id,
    ensures
        is_group_of(joined_by::<ExpiryEntry>(group, items.last()), items),
        joined_by::<ExpiryEntry>(group, items.last()).contains(items.last()),
        forall|k: int|
            0 <= k < group.len() ==> joined_by::<ExpiryEntry>(group, items.last()).contains(
                #[trigger] group[k],
            ),
{
    let item = items.last();
    let grown = joined_by::<ExpiryEntry>(group, item);
    lemma_more_items(group, items);
    assert(items[items.len() - 1] == item);
    assert(items.contains(item));
    assert(group[group.len() - 1].memory_id == group[0].memory_id);
    if ExpiryEntry::same_entry(group.last(), item) {
        assert(group.last() == item);
        assert(grown =~= group);
    } else {
        assert(grown =~= group.push(item));
    }
    assert(grown[grown.len() - 1] == item);
    assert forall|k: int| 0 <= k < group.len() implies grown.contains(#[trigger] group[k]) by {
        assert(grown[k] == group[k]);
    }
    assert forall|k: int| 0 <= k < grown.len() implies items.contains(#[trigger] grown[k])
        && grown[k].memory_id == grown[0].memory_id by {
        assert(grown[0] == group[0]);
        if k < group.len() {
            assert(grown[k] == group[k]);
        }
    }
}

proof fn lemma_joined_group(groups: Seq<Seq<ExpiryView>>, items: Seq<ExpiryView>)
    requires
        items.len() > 0,
        groups.len() > 0,
        are_groups_of(groups, items.drop_last()),
        groups.last().last().memory_id == items.last().memory_id,
    ensures
        are_groups_of(
            groups.drop_last().push(joined_by::<ExpiryEntry>(groups.last(), items.last())),
            items,
        ),
{
    let rest = items.drop_last();
    let item = items.last();
    let group = groups.last();
    let grown = joined_by::<ExpiryEntry>(group, item);
    let all = groups.drop_last().push(grown);
    let last = groups.len() - 1;
    assert(groups[last] == group);
    assert(is_group_of(groups[last], rest));
    lemma_grown(group, items);
    assert(all[last] == grown);
    assert forall|g: int| 0 <= g < all.len() implies is_group_of(#[trigger] all[g], items) by {
        if g < last {
            assert(all[g] == groups[g]);
            lemma_more_items(groups[g], items);
        }
    }
    assert forall|i: int| 0 <= i < items.len() implies is_grouped(all, #[trigger] items[i]) by {
        if i < rest.len() {
            assert(rest[i] == items[i]);
            assert(is_grouped(groups, rest[i]));
            let g = choose|g: int| 0 <= g < groups.len() && (#[trigger] groups[g]).contains(items[i]);
            if g < last {
                assert(all[g] == groups[g]);
            } else {
                let k = choose|k: int| 0 <= k < group.len() && group[k] == items[i];
                assert(grown.contains(group[k]));
                assert(all[last].contains(items[i]));
            }
        } else {
            assert(all[last].contains(item));
        }
    }
}

proof fn lemma_groups(items: Seq<ExpiryView>)
    ensures
        are_groups_of(groups_of::<ExpiryEntry>(items), items),
    decreases items.len(),
{
    if items.len() > 0 {
        let before = groups_of::<ExpiryEntry>(items.drop_last());
        lemma_groups(items.drop_last());
        if before.len() > 0 && before.last().len() > 0 && ExpiryEntry::together(
            before.last().last(),
            items.last(),
        ) {
            lemma_joined_group(before, items);
        } else {
            lemma_new_group(before, items);
        }
    }
}

/// Whether a fact of a memory is among those that are to end.
pub open spec fn is_to_end(expiries: Seq<MemoryExpiryView>, memory: Seq<char>, fact: Seq<char>) -> bool {
    exists|e: int|
        0 <= e < expiries.len() && (#[trigger] expiries[e]).memory_id == memory
            && expiries[e].fact_ids.contains(fact)
}

proof fn lemma_expiries(entries: Seq<ExpiryView>, memory: Seq<char>, fact: Seq<char>)
    ensures
        is_to_end(expiries_of(entries), memory, fact) <==> entries.contains(
            ExpiryView { memory_id: memory, fact_id: fact },
        ),
{
    let entry = ExpiryView { memory_id: memory, fact_id: fact };
    let sorted = crate::order::ranked::<ExpiryEntry>(entries);
    let groups = groups_of::<ExpiryEntry>(sorted);
    let all = expiries_of(entries);
    crate::order::lemma_sorted_members(
        entries,
        |left: ExpiryView, right: ExpiryView| ExpiryEntry::ranks_before(left, right),
    );
    lemma_groups(sorted);
    assert(sorted.contains(entry) <==> entries.contains(entry));
    if entries.contains(entry) {
        let i = choose|i: int| 0 <= i < sorted.len() && sorted[i] == entry;
        assert(is_grouped(groups, sorted[i]));
        let g = choose|g: int| 0 <= g < groups.len() && (#[trigger] groups[g]).contains(entry);
        let k = choose|k: int| 0 <= k < groups[g].len() && groups[g][k] == entry;
        assert(is_group_of(groups[g], sorted));
        assert(groups[g][k].memory_id == groups[g][0].memory_id);
        assert(all[g].fact_ids[k] == fact);
        assert(all[g].memory_id == memory);
    }
    if is_to_end(all, memory, fact) {
        let g = choose|g: int|
            0 <= g < all.len() && (#[trigger] all[g]).memory_id == memory
                && all[g].fact_ids.contains(fact);
        let k = choose|k: int| 0 <= k < all[g].fact_ids.len() && all[g].fact_ids[k] == fact;
        assert(is_group_of(groups[g], sorted));
        assert(groups[g][k].fact_id == fact);
        assert(groups[g][k].memory_id == groups[g][0].memory_id);
        assert(sorted.contains(groups[g][k]));
        assert(groups[g][k] == entry);
    }
}

proof fn lemma_competing_members(
    members: Seq<MemberView>,
    kept: ConflictFactView,
    memory: Seq<char>,
    fact: Seq<char>,
)
    ensures
        competing(members, kept).contains(ExpiryView { memory_id: memory, fact_id: fact })
            <==> exists|i: int|
            0 <= i < members.len() && differs(#[trigger] members[i], kept) && members[i].memory_id
                == memory && members[i].fact->Some_0.id == fact,
    decreases members.len(),
{
    let entry = ExpiryView { memory_id: memory, fact_id: fact };
    let all = competing(members, kept);
    if members.len() > 0 {
        let rest = members.drop_last();
        let before = competing(rest, kept);
        lemma_competing_members(rest, kept, memory, fact);
        assert(members[members.len() - 1] == members.last());
        if all.contains(entry) {
            let k = choose|k: int| 0 <= k < all.len() && all[k] == entry;
            if k < before.len() {
                assert(before[k] == entry);
                assert(before.contains(entry));
                let i = choose|i: int|
                    0 <= i < rest.len() && differs(#[trigger] rest[i], kept) && rest[i].memory_id
                        == memory && rest[i].fact->Some_0.id == fact;
                assert(members[i] == rest[i]);
            } else {
                assert(differs(members[members.len() - 1], kept));
            }
        }
        if exists|i: int|
            0 <= i < members.len() && differs(#[trigger] members[i], kept) && members[i].memory_id
                == memory && members[i].fact->Some_0.id == fact {
            let i = choose|i: int|
                0 <= i < members.len() && differs(#[trigger] members[i], kept)
                    && members[i].memory_id == memory && members[i].fact->Some_0.id == fact;
            if i < rest.len() {
                assert(rest[i] == members[i]);
                let k = choose|k: int| 0 <= k < before.len() && before[k] == entry;
                assert(all[k] == entry);
            } else {
                assert(all[before.len() as int] == entry);
            }
        }
    }
}

/// Facts are ended where they stand: in each memory those that say something else
/// than the kept fact, and no others.
pub proof fn facts_end_where_they_stand(
    conflict: ConflictView,
    keep: Seq<char>,
    requested: Option<i64>,
    now: i64,
    memory: Seq<char>,
    fact: Seq<char>,
)
    requires
        conflict.kind == ConflictKind::ExclusiveCurrent,
        planned(conflict, keep, requested, now) is Ok,
    ensures
        ({
            let plan = planned(conflict, keep, requested, now)->Ok_0;
            let kept = fact_with(conflict.members, plan.resolution.kept_id)->Some_0;
            is_to_end(plan.expiries, memory, fact) <==> exists|i: int|
                0 <= i < conflict.members.len() && differs(#[trigger] conflict.members[i], kept)
                    && conflict.members[i].memory_id == memory
                    && conflict.members[i].fact->Some_0.id == fact
        }),
{
    let plan = planned(conflict, keep, requested, now)->Ok_0;
    let kept = fact_with(conflict.members, plan.resolution.kept_id)->Some_0;
    lemma_expiries(competing(conflict.members, kept), memory, fact);
    lemma_competing_members(conflict.members, kept, memory, fact);
}

/// A memory whose facts are ended is active and no link, and says something still;
/// nothing but what it says, and when it was changed, is changed.
pub proof fn ended_memories_stay_what_they_were(
    source: MemoryView,
    state: PathState,
    fact_ids: Seq<Seq<char>>,
    expiration: int,
    table: Map<Seq<char>, Reading>,
    now: Seq<char>,
    ended: MemoryView,
)
    requires
        is_ended(source, state, fact_ids, expiration, table, now, Ok::<_, Seq<char>>(ended)),
    ensures
        source.metadata.status == MemoryStatus::Active,
        state != PathState::Symlink,
        ended.metadata == (MetadataView { updated_at: now, ..source.metadata }),
        ended.path == source.path,
        crate::semantic::extraction_of(source, table) is Ok,
        is_expired_body(
            source,
            crate::semantic::extraction_of(source, table)->Ok_0.facts,
            fact_ids,
            expiration,
            Ok::<_, Seq<char>>(ended.body),
        ),
{
}

} // verus!
