//! Which conflicts are found does not depend on how, or how often, the memories
//! are listed.

use vstd::prelude::*;

use crate::conflict::{
    conflicts_at, content_entries, duplicates_of, exclusive_entries, exclusive_entry,
    extraction_for, member_of, memory_entries, ContentEntry, ContentView, ExclusiveEntry,
    ExclusiveView,
};
use crate::memory::{self, memory_scope_reads_back, MemoryScope, MemoryStatus, MemoryView};
use crate::order::{self, groups_of, joined_by, Grouped, Ranked};
use crate::order_laws::{
    goes_by_key, key_less, last_of_each, last_with, lemma_last_with, lemma_last_with_both,
    lemma_without_repeats, one_per_key, sorting_goes_by_the_last, sorting_ignores_repeats,
    without_repeats,
};
use crate::semantic::{self, ExtractionView, FactView};

verus! {

/// Whether no two memories have the same id.
pub open spec fn distinct_ids(memories: Seq<MemoryView>) -> bool {
    forall|i: int, j: int|
        0 <= i < j < memories.len() ==> (#[trigger] memories[i]).metadata.id != (
        #[trigger] memories[j]).metadata.id
}

/// Whether memories with the same id are the same.
pub open spec fn same_by_id(memories: Seq<MemoryView>) -> bool {
    forall|i: int, j: int|
        0 <= i < memories.len() && 0 <= j < memories.len() && (
        #[trigger] memories[i]).metadata.id == (#[trigger] memories[j]).metadata.id ==> memories[i]
            == memories[j]
}

proof fn lemma_same_by_id(left: Seq<MemoryView>, right: Seq<MemoryView>)
    requires
        same_by_id(left),
        same_memories(left, right),
    ensures
        same_by_id(right),
{
    assert forall|i: int, j: int|
        0 <= i < right.len() && 0 <= j < right.len() && (#[trigger] right[i]).metadata.id == (
        #[trigger] right[j]).metadata.id implies right[i] == right[j] by {
        assert(right.contains(right[i]) && right.contains(right[j]));
        assert(left.contains(right[i]) && left.contains(right[j]));
        let a = choose|a: int| 0 <= a < left.len() && left[a] == right[i];
        let b = choose|b: int| 0 <= b < left.len() && left[b] == right[j];
        assert(left[a] == left[b]);
    }
}

/// Items that stand several times in a row are in their group once.
pub proof fn lemma_groups_ignore_repeats<T: Grouped>(items: Seq<T::V>)
    requires
        forall|item: T::V| #[trigger] T::together(item, item) && T::same_entry(item, item),
    ensures
        groups_of::<T>(without_repeats(items)) == groups_of::<T>(items),
        items.len() > 0 ==> groups_of::<T>(items).len() > 0 && groups_of::<T>(items).last().len() > 0
            && groups_of::<T>(items).last().last() == items.last(),
    decreases items.len(),
{
    if items.len() > 0 {
        let rest = items.drop_last();
        let item = items.last();
        lemma_groups_ignore_repeats::<T>(rest);
        lemma_without_repeats(rest);
        let before = without_repeats(rest);
        let groups = groups_of::<T>(rest);
        if before.len() > 0 && before.last() == item {
            assert(rest.len() > 0) by {
                if rest.len() == 0 {
                    assert(before.contains(before[0]));
                }
            }
            assert(groups.last().last() == item);
            assert(T::together(item, item));
            assert(joined_by::<T>(groups.last(), item) =~= groups.last());
            assert(groups.drop_last().push(groups.last()) =~= groups);
        } else {
            assert(before.push(item).drop_last() =~= before);
            assert(without_repeats(items) == before.push(item));
        }
    }
}

/// Whether two lists hold the same memories.
pub open spec fn same_memories(left: Seq<MemoryView>, right: Seq<MemoryView>) -> bool {
    forall|memory: MemoryView| #[trigger] left.contains(memory) <==> right.contains(memory)
}

pub proof fn lemma_scope_names(left: MemoryScope, right: MemoryScope)
    ensures
        left != right ==> left.name() != right.name(),
{
    memory_scope_reads_back(left);
    memory_scope_reads_back(right);
}

// Duplicates.

pub open spec fn content_key(entry: ContentView) -> Seq<Seq<char>> {
    seq![entry.scope.name(), entry.content, entry.member.memory_id]
}

pub proof fn lemma_content_order()
    ensures
        goes_by_key(
            |left: ContentView, right: ContentView| ContentEntry::ranks_before(left, right),
            |entry: ContentView| content_key(entry),
        ),
{
    let before = |left: ContentView, right: ContentView| ContentEntry::ranks_before(left, right);
    let key = |entry: ContentView| content_key(entry);
    assert forall|left: ContentView, right: ContentView| #[trigger]
        before(left, right) == key_less(key(left), key(right)) by {
        lemma_scope_names(left.scope, right.scope);
        let a = content_key(left);
        let b = content_key(right);
        reveal_with_fuel(key_less, 5);
        assert(a.drop_first() =~= seq![left.content, left.member.memory_id]);
        assert(b.drop_first() =~= seq![right.content, right.member.memory_id]);
        assert(a.drop_first().drop_first() =~= seq![left.member.memory_id]);
        assert(b.drop_first().drop_first() =~= seq![right.member.memory_id]);
        assert(a.drop_first().drop_first().drop_first() =~= seq![]);
        assert(b.drop_first().drop_first().drop_first() =~= seq![]);
        order::text_less_is_irreflexive(left.member.memory_id);
    }
}

pub open spec fn content_of(memory: MemoryView) -> ContentView {
    ContentView {
        scope: memory.metadata.scope,
        content: memory::canonical(memory.body),
        member: member_of(memory, None, semantic::excerpt_of(memory.body)),
    }
}

/// Whether an entry comes from one of the memories.
pub open spec fn is_content_of(memories: Seq<MemoryView>, entry: ContentView) -> bool {
    exists|i: int|
        0 <= i < memories.len() && (#[trigger] memories[i]).metadata.status == MemoryStatus::Active
            && content_of(memories[i]) == entry
}

pub proof fn lemma_content_members(memories: Seq<MemoryView>)
    ensures
        forall|entry: ContentView|
            #[trigger] content_entries(memories).contains(entry) <==> is_content_of(
                memories,
                entry,
            ),
    decreases memories.len(),
{
    if memories.len() > 0 {
        let rest = memories.drop_last();
        lemma_content_members(rest);
        let before = content_entries(rest);
        let all = content_entries(memories);
        let last = memories.last();
        assert forall|entry: ContentView| #[trigger] all.contains(entry) <==> is_content_of(
            memories,
            entry,
        ) by {
            if all.contains(entry) {
                let k = choose|k: int| 0 <= k < all.len() && all[k] == entry;
                if k < before.len() {
                    assert(before[k] == entry);
                    assert(before.contains(entry));
                    let i = choose|i: int|
                        0 <= i < rest.len() && (#[trigger] rest[i]).metadata.status
                            == MemoryStatus::Active && content_of(rest[i]) == entry;
                    assert(memories[i] == rest[i]);
                } else {
                    assert(memories[memories.len() - 1] == last);
                }
            }
            if is_content_of(memories, entry) {
                let i = choose|i: int|
                    0 <= i < memories.len() && (#[trigger] memories[i]).metadata.status
                        == MemoryStatus::Active && content_of(memories[i]) == entry;
                if i < rest.len() {
                    assert(rest[i] == memories[i]);
                    assert(is_content_of(rest, entry));
                    assert(before.contains(entry));
                    let k = choose|k: int| 0 <= k < before.len() && before[k] == entry;
                    assert(all[k] == entry);
                } else {
                    assert(all[before.len() as int] == entry);
                }
            }
        }
    }
}

pub proof fn lemma_content_repeats(memories: Seq<MemoryView>)
    requires
        same_by_id(memories),
    ensures
        one_per_key(content_entries(memories), |entry: ContentView| content_key(entry)),
{
    let key = |entry: ContentView| content_key(entry);
    let all = content_entries(memories);
    lemma_content_members(memories);
    assert forall|i: int, j: int|
        0 <= i < all.len() && 0 <= j < all.len() && key(#[trigger] all[i]) == key(
            #[trigger] all[j],
        ) implies all[i] == all[j] by {
        assert(all.contains(all[i]) && all.contains(all[j]));
        let a = choose|a: int|
            0 <= a < memories.len() && (#[trigger] memories[a]).metadata.status
                == MemoryStatus::Active && content_of(memories[a]) == all[i];
        let b = choose|b: int|
            0 <= b < memories.len() && (#[trigger] memories[b]).metadata.status
                == MemoryStatus::Active && content_of(memories[b]) == all[j];
        assert(content_key(all[i])[2] == memories[a].metadata.id);
        assert(content_key(all[j])[2] == memories[b].metadata.id);
    }
}

/// The duplicates do not depend on how, or how often, the memories are listed.
pub proof fn duplicates_ignore_order(left: Seq<MemoryView>, right: Seq<MemoryView>)
    requires
        same_by_id(left),
        same_memories(left, right),
    ensures
        duplicates_of(left) == duplicates_of(right),
{
    lemma_same_by_id(left, right);
    lemma_content_order();
    lemma_content_repeats(left);
    lemma_content_repeats(right);
    lemma_content_members(left);
    lemma_content_members(right);
    let a = content_entries(left);
    let b = content_entries(right);
    assert forall|entry: ContentView| #[trigger] a.contains(entry) <==> b.contains(entry) by {
        if a.contains(entry) {
            let i = choose|i: int|
                0 <= i < left.len() && (#[trigger] left[i]).metadata.status == MemoryStatus::Active
                    && content_of(left[i]) == entry;
            assert(left.contains(left[i]));
            let j = choose|j: int| 0 <= j < right.len() && right[j] == left[i];
            assert(is_content_of(right, entry));
        }
        if b.contains(entry) {
            let i = choose|i: int|
                0 <= i < right.len() && (#[trigger] right[i]).metadata.status
                    == MemoryStatus::Active && content_of(right[i]) == entry;
            assert(right.contains(right[i]));
            assert(left.contains(right[i]));
            let j = choose|j: int| 0 <= j < left.len() && left[j] == right[i];
            assert(is_content_of(left, entry));
        }
    }
    let before = |x: ContentView, y: ContentView| ContentEntry::ranks_before(x, y);
    sorting_ignores_repeats(a, b, before, |entry: ContentView| content_key(entry));
    lemma_groups_ignore_repeats::<ContentEntry>(order::ranked::<ContentEntry>(a));
    lemma_groups_ignore_repeats::<ContentEntry>(order::ranked::<ContentEntry>(b));
}

// Facts that exclude each other.

pub type Extractions = Seq<(Seq<char>, ExtractionView)>;

pub open spec fn exclusive_key(entry: ExclusiveView) -> Seq<Seq<char>> {
    seq![
        entry.scope.name(),
        entry.fact.subject_id,
        entry.fact.relation,
        entry.member.memory_id,
        entry.fact.id,
    ]
}

pub proof fn lemma_exclusive_order()
    ensures
        goes_by_key(
            |left: ExclusiveView, right: ExclusiveView| ExclusiveEntry::ranks_before(left, right),
            |entry: ExclusiveView| exclusive_key(entry),
        ),
{
    let before = |left: ExclusiveView, right: ExclusiveView|
        ExclusiveEntry::ranks_before(left, right);
    let key = |entry: ExclusiveView| exclusive_key(entry);
    assert forall|left: ExclusiveView, right: ExclusiveView| #[trigger]
        before(left, right) == key_less(key(left), key(right)) by {
        lemma_scope_names(left.scope, right.scope);
        let a = exclusive_key(left);
        let b = exclusive_key(right);
        reveal_with_fuel(key_less, 7);
        assert(a.drop_first() =~= seq![
            left.fact.subject_id,
            left.fact.relation,
            left.member.memory_id,
            left.fact.id,
        ]);
        assert(b.drop_first() =~= seq![
            right.fact.subject_id,
            right.fact.relation,
            right.member.memory_id,
            right.fact.id,
        ]);
        assert(a.drop_first().drop_first() =~= seq![
            left.fact.relation,
            left.member.memory_id,
            left.fact.id,
        ]);
        assert(b.drop_first().drop_first() =~= seq![
            right.fact.relation,
            right.member.memory_id,
            right.fact.id,
        ]);
        assert(a.drop_first().drop_first().drop_first() =~= seq![
            left.member.memory_id,
            left.fact.id,
        ]);
        assert(b.drop_first().drop_first().drop_first() =~= seq![
            right.member.memory_id,
            right.fact.id,
        ]);
        assert(a.drop_first().drop_first().drop_first().drop_first() =~= seq![left.fact.id]);
        assert(b.drop_first().drop_first().drop_first().drop_first() =~= seq![right.fact.id]);
        assert(a.drop_first().drop_first().drop_first().drop_first().drop_first() =~= seq![]);
        assert(b.drop_first().drop_first().drop_first().drop_first().drop_first() =~= seq![]);
        order::text_less_is_irreflexive(left.fact.id);
    }
}

/// What one memory contributes.
pub open spec fn contribution(memory: MemoryView, extractions: Extractions, at: int) -> Result<
    Seq<ExclusiveView>,
    Seq<char>,
> {
    let extraction = extraction_for(extractions, memory.metadata.id);
    if memory.metadata.status != MemoryStatus::Active || extraction is None {
        Ok(seq![])
    } else {
        memory_entries(memory, extraction->Some_0, extraction->Some_0.facts, at)
    }
}

pub proof fn lemma_exclusive_ok(memories: Seq<MemoryView>, extractions: Extractions, at: int)
    ensures
        exclusive_entries(memories, extractions, at) is Ok <==> forall|i: int|
            0 <= i < memories.len() ==> contribution(#[trigger] memories[i], extractions, at) is Ok,
    decreases memories.len(),
{
    if memories.len() > 0 {
        let rest = memories.drop_last();
        lemma_exclusive_ok(rest, extractions, at);
        let last = memories.last();
        assert(memories[memories.len() - 1] == last);
        if exclusive_entries(memories, extractions, at) is Ok {
            assert forall|i: int| 0 <= i < memories.len() implies contribution(
                #[trigger] memories[i],
                extractions,
                at,
            ) is Ok by {
                if i < rest.len() {
                    assert(rest[i] == memories[i]);
                }
            }
        }
        if forall|i: int|
            0 <= i < memories.len() ==> contribution(#[trigger] memories[i], extractions, at) is Ok {
            assert forall|i: int| 0 <= i < rest.len() implies contribution(
                #[trigger] rest[i],
                extractions,
                at,
            ) is Ok by {
                assert(rest[i] == memories[i]);
            }
            assert(contribution(last, extractions, at) is Ok);
        }
    }
}

/// Whether an entry comes from one of the memories.
pub open spec fn is_contributed(
    memories: Seq<MemoryView>,
    extractions: Extractions,
    at: int,
    entry: ExclusiveView,
) -> bool {
    exists|i: int|
        0 <= i < memories.len() && contribution(
            #[trigger] memories[i],
            extractions,
            at,
        )->Ok_0.contains(entry)
}

pub proof fn lemma_exclusive_members(memories: Seq<MemoryView>, extractions: Extractions, at: int)
    requires
        exclusive_entries(memories, extractions, at) is Ok,
    ensures
        forall|entry: ExclusiveView|
            #[trigger] exclusive_entries(memories, extractions, at)->Ok_0.contains(entry)
                <==> is_contributed(memories, extractions, at, entry),
    decreases memories.len(),
{
    if memories.len() > 0 {
        let rest = memories.drop_last();
        lemma_exclusive_members(rest, extractions, at);
        let last = memories.last();
        assert(memories[memories.len() - 1] == last);
        let before = exclusive_entries(rest, extractions, at)->Ok_0;
        let added = contribution(last, extractions, at)->Ok_0;
        let all = exclusive_entries(memories, extractions, at)->Ok_0;
        assert(all =~= before + added);
        assert forall|entry: ExclusiveView| #[trigger] all.contains(entry) <==> is_contributed(
            memories,
            extractions,
            at,
            entry,
        ) by {
            if all.contains(entry) {
                let k = choose|k: int| 0 <= k < all.len() && all[k] == entry;
                if k < before.len() {
                    assert(before[k] == entry);
                    assert(before.contains(entry));
                    let i = choose|i: int|
                        0 <= i < rest.len() && contribution(
                            #[trigger] rest[i],
                            extractions,
                            at,
                        )->Ok_0.contains(entry);
                    assert(memories[i] == rest[i]);
                } else {
                    assert(added[k - before.len()] == entry);
                    assert(added.contains(entry));
                }
            }
            if is_contributed(memories, extractions, at, entry) {
                let i = choose|i: int|
                    0 <= i < memories.len() && contribution(
                        #[trigger] memories[i],
                        extractions,
                        at,
                    )->Ok_0.contains(entry);
                if i < rest.len() {
                    assert(rest[i] == memories[i]);
                    assert(is_contributed(rest, extractions, at, entry));
                    assert(before.contains(entry));
                    let k = choose|k: int| 0 <= k < before.len() && before[k] == entry;
                    assert(all[k] == entry);
                } else {
                    let k = choose|k: int| 0 <= k < added.len() && added[k] == entry;
                    assert(all[before.len() + k] == entry);
                }
            }
        }
    } else {
        assert forall|entry: ExclusiveView|
            !(#[trigger] exclusive_entries(memories, extractions, at)->Ok_0.contains(entry)) by {}
    }
}

proof fn lemma_contributed_id(
    memory: MemoryView,
    extractions: Extractions,
    at: int,
    entry: ExclusiveView,
)
    requires
        contribution(memory, extractions, at)->Ok_0.contains(entry),
        contribution(memory, extractions, at) is Ok,
    ensures
        entry.member.memory_id == memory.metadata.id,
{
    let extraction = extraction_for(extractions, memory.metadata.id);
    if memory.metadata.status == MemoryStatus::Active && extraction is Some {
        lemma_member_ids(memory, extraction->Some_0, extraction->Some_0.facts, at);
    }
}

proof fn lemma_member_ids(
    memory: MemoryView,
    extraction: ExtractionView,
    facts: Seq<FactView>,
    at: int,
)
    requires
        memory_entries(memory, extraction, facts, at) is Ok,
    ensures
        forall|i: int|
            0 <= i < memory_entries(memory, extraction, facts, at)->Ok_0.len() ==> (
            #[trigger] memory_entries(
                memory,
                extraction,
                facts,
                at,
            )->Ok_0[i]).member.memory_id == memory.metadata.id,
    decreases facts.len(),
{
    if facts.len() > 0 {
        lemma_member_ids(memory, extraction, facts.drop_last(), at);
        let before = memory_entries(memory, extraction, facts.drop_last(), at)->Ok_0;
        let entries = memory_entries(memory, extraction, facts, at)->Ok_0;
        assert forall|i: int| 0 <= i < entries.len() implies (
        #[trigger] entries[i]).member.memory_id == memory.metadata.id by {
            if i < before.len() {
                assert(entries[i] == before[i]);
            }
        }
    }
}

/// Whether facts kept for one memory that have the same id are the same.
pub open spec fn facts_are_one(memories: Seq<MemoryView>, extractions: Extractions) -> bool {
    forall|i: int|
        0 <= i < memories.len() ==> (extraction_for(
            extractions,
            (#[trigger] memories[i]).metadata.id,
        ) matches Some(extraction) ==> same_facts_by_id(extraction.facts))
}

pub open spec fn same_facts_by_id(facts: Seq<FactView>) -> bool {
    forall|i: int, j: int|
        0 <= i < facts.len() && 0 <= j < facts.len() && (#[trigger] facts[i]).id == (
        #[trigger] facts[j]).id ==> facts[i] == facts[j]
}

proof fn lemma_entry_of_fact(
    memory: MemoryView,
    extraction: ExtractionView,
    facts: Seq<FactView>,
    at: int,
)
    requires
        memory_entries(memory, extraction, facts, at) is Ok,
    ensures
        forall|i: int|
            0 <= i < memory_entries(memory, extraction, facts, at)->Ok_0.len() ==> facts.contains(
                (#[trigger] memory_entries(memory, extraction, facts, at)->Ok_0[i]).fact,
            ) && memory_entries(memory, extraction, facts, at)->Ok_0[i] == exclusive_entry(
                memory,
                extraction,
                memory_entries(memory, extraction, facts, at)->Ok_0[i].fact,
            ),
    decreases facts.len(),
{
    if facts.len() > 0 {
        let rest = facts.drop_last();
        lemma_entry_of_fact(memory, extraction, rest, at);
        let before = memory_entries(memory, extraction, rest, at)->Ok_0;
        let entries = memory_entries(memory, extraction, facts, at)->Ok_0;
        assert(facts[facts.len() - 1] == facts.last());
        assert forall|i: int| 0 <= i < entries.len() implies facts.contains(
            (#[trigger] entries[i]).fact,
        ) && entries[i] == exclusive_entry(memory, extraction, entries[i].fact) by {
            if i < before.len() {
                assert(entries[i] == before[i]);
                let k = choose|k: int| 0 <= k < rest.len() && rest[k] == before[i].fact;
                assert(facts[k] == before[i].fact);
            }
        }
    }
}

/// What one memory contributes is told apart by the fact.
proof fn lemma_contributed_once(
    memory: MemoryView,
    extractions: Extractions,
    at: int,
    first: ExclusiveView,
    second: ExclusiveView,
)
    requires
        contribution(memory, extractions, at) is Ok,
        contribution(memory, extractions, at)->Ok_0.contains(first),
        contribution(memory, extractions, at)->Ok_0.contains(second),
        extraction_for(extractions, memory.metadata.id) matches Some(extraction)
            ==> same_facts_by_id(extraction.facts),
        first.fact.id == second.fact.id,
    ensures
        first == second,
{
    let extraction = extraction_for(extractions, memory.metadata.id);
    if memory.metadata.status == MemoryStatus::Active && extraction is Some {
        let facts = extraction->Some_0.facts;
        let entries = contribution(memory, extractions, at)->Ok_0;
        lemma_entry_of_fact(memory, extraction->Some_0, facts, at);
        let i = choose|i: int| 0 <= i < entries.len() && entries[i] == first;
        let j = choose|j: int| 0 <= j < entries.len() && entries[j] == second;
        assert(facts.contains(entries[i].fact) && facts.contains(entries[j].fact));
        let a = choose|a: int| 0 <= a < facts.len() && facts[a] == first.fact;
        let b = choose|b: int| 0 <= b < facts.len() && facts[b] == second.fact;
        assert(facts[a] == facts[b]);
    }
}

pub proof fn lemma_exclusive_repeats(memories: Seq<MemoryView>, extractions: Extractions, at: int)
    requires
        exclusive_entries(memories, extractions, at) is Ok,
        same_by_id(memories),
        facts_are_one(memories, extractions),
    ensures
        one_per_key(
            exclusive_entries(memories, extractions, at)->Ok_0,
            |entry: ExclusiveView| exclusive_key(entry),
        ),
{
    let key = |entry: ExclusiveView| exclusive_key(entry);
    let all = exclusive_entries(memories, extractions, at)->Ok_0;
    lemma_exclusive_ok(memories, extractions, at);
    lemma_exclusive_members(memories, extractions, at);
    assert forall|i: int, j: int|
        0 <= i < all.len() && 0 <= j < all.len() && key(#[trigger] all[i]) == key(
            #[trigger] all[j],
        ) implies all[i] == all[j] by {
        assert(all.contains(all[i]) && all.contains(all[j]));
        assert(is_contributed(memories, extractions, at, all[i]));
        assert(is_contributed(memories, extractions, at, all[j]));
        let a = choose|a: int|
            0 <= a < memories.len() && contribution(
                #[trigger] memories[a],
                extractions,
                at,
            )->Ok_0.contains(all[i]);
        let b = choose|b: int|
            0 <= b < memories.len() && contribution(
                #[trigger] memories[b],
                extractions,
                at,
            )->Ok_0.contains(all[j]);
        lemma_contributed_id(memories[a], extractions, at, all[i]);
        lemma_contributed_id(memories[b], extractions, at, all[j]);
        assert(exclusive_key(all[i])[3] == exclusive_key(all[j])[3]);
        assert(exclusive_key(all[i])[4] == exclusive_key(all[j])[4]);
        assert(memories[a] == memories[b]);
        lemma_contributed_once(memories[a], extractions, at, all[i], all[j]);
    }
}

/// Whether entries with the same key are one entry, and stand alike to others.
spec fn keys_decide<T: Grouped>(key: spec_fn(T::V) -> Seq<Seq<char>>) -> bool {
    &&& forall|left: T::V, right: T::V|
        key(left) == key(right) ==> #[trigger] T::together(left, right) && T::same_entry(
            left,
            right,
        )
    &&& forall|other: T::V, left: T::V, right: T::V|
        #![trigger T::together(other, left), T::together(other, right)]
        key(left) == key(right) ==> T::together(other, left) == T::together(other, right)
            && T::same_entry(other, left) == T::same_entry(other, right)
}

/// An item takes the place of the one before it that has its key.
proof fn lemma_group_replaces<T: Grouped>(
    items: Seq<T::V>,
    first: T::V,
    second: T::V,
    key: spec_fn(T::V) -> Seq<Seq<char>>,
)
    requires
        keys_decide::<T>(key),
        key(first) == key(second),
    ensures
        groups_of::<T>(items.push(first).push(second)) == groups_of::<T>(items.push(second)),
        groups_of::<T>(items.push(first)).len() > 0,
{
    let groups = groups_of::<T>(items);
    let once = groups_of::<T>(items.push(first));
    let twice = groups_of::<T>(items.push(first).push(second));
    let direct = groups_of::<T>(items.push(second));
    assert(items.push(first).drop_last() =~= items);
    assert(items.push(second).drop_last() =~= items);
    assert(items.push(first).push(second).drop_last() =~= items.push(first));
    assert(T::together(first, second) && T::same_entry(first, second));
    assert(once.last().last() == first);
    assert(twice == once.drop_last().push(joined_by::<T>(once.last(), second)));
    if groups.len() > 0 && groups.last().len() > 0 {
        let last = groups.last().last();
        assert(T::together(last, first) == T::together(last, second));
        if T::together(last, first) {
            assert(once.drop_last() =~= groups.drop_last());
            assert(joined_by::<T>(once.last(), second) =~= joined_by::<T>(groups.last(), second));
        } else {
            assert(once.drop_last() =~= groups);
            assert(joined_by::<T>(once.last(), second) =~= seq![second]);
        }
    } else {
        assert(once.drop_last() =~= groups);
        assert(joined_by::<T>(once.last(), second) =~= seq![second]);
    }
}

/// Of items with the same key in a row only the last matters to the groups.
proof fn lemma_groups_go_by_the_last<T: Grouped>(
    items: Seq<T::V>,
    key: spec_fn(T::V) -> Seq<Seq<char>>,
)
    requires
        keys_decide::<T>(key),
    ensures
        groups_of::<T>(last_of_each(items, key)) == groups_of::<T>(items),
    decreases items.len(),
{
    if items.len() > 0 {
        let rest = items.drop_last();
        let item = items.last();
        let old = last_of_each(rest, key);
        lemma_groups_go_by_the_last::<T>(rest, key);
        assert(old.push(item).drop_last() =~= old);
        assert(groups_of::<T>(items) == groups_of::<T>(old.push(item)));
        if old.len() > 0 && key(old.last()) == key(item) {
            lemma_group_replaces::<T>(old.drop_last(), old.last(), item, key);
            assert(old.drop_last().push(old.last()) =~= old);
        }
    }
}

proof fn lemma_exclusive_keys()
    ensures
        keys_decide::<ExclusiveEntry>(|entry: ExclusiveView| exclusive_key(entry)),
{
    let key = |entry: ExclusiveView| exclusive_key(entry);
    assert forall|left: ExclusiveView, right: ExclusiveView| key(left) == key(right) implies
        left.scope == right.scope && left.fact.subject_id == right.fact.subject_id
        && left.fact.relation == right.fact.relation && left.member.memory_id
        == right.member.memory_id && left.fact.id == right.fact.id by {
        let a = exclusive_key(left);
        let b = exclusive_key(right);
        lemma_scope_names(left.scope, right.scope);
        assert(a[0] == b[0] && a[1] == b[1] && a[2] == b[2] && a[3] == b[3] && a[4] == b[4]);
    }
}

/// A memory contributes nothing under the key of another.
proof fn lemma_no_contribution(
    memory: MemoryView,
    extractions: Extractions,
    at: int,
    wanted: Seq<Seq<char>>,
)
    requires
        contribution(memory, extractions, at) is Ok,
        wanted[3] != memory.metadata.id,
    ensures
        last_with(
            contribution(memory, extractions, at)->Ok_0,
            |entry: ExclusiveView| exclusive_key(entry),
            wanted,
        ) is None,
{
    let key = |entry: ExclusiveView| exclusive_key(entry);
    let entries = contribution(memory, extractions, at)->Ok_0;
    lemma_last_with(entries, key, wanted);
    if let Some(entry) = last_with(entries, key, wanted) {
        lemma_contributed_id(memory, extractions, at, entry);
        assert(exclusive_key(entry)[3] == memory.metadata.id);
    }
}

/// Under each key the last entry is that of the memory that the key names,
/// however often, and wherever, the memory is listed.
proof fn lemma_last_entry(
    memories: Seq<MemoryView>,
    extractions: Extractions,
    at: int,
    wanted: Seq<Seq<char>>,
)
    requires
        exclusive_entries(memories, extractions, at) is Ok,
        same_by_id(memories),
    ensures
        ({
            let key = |entry: ExclusiveView| exclusive_key(entry);
            let last = last_with(exclusive_entries(memories, extractions, at)->Ok_0, key, wanted);
            &&& forall|i: int|
                0 <= i < memories.len() && (#[trigger] memories[i]).metadata.id == wanted[3]
                    ==> last == last_with(
                    contribution(memories[i], extractions, at)->Ok_0,
                    key,
                    wanted,
                )
            &&& (forall|i: int|
                0 <= i < memories.len() ==> (#[trigger] memories[i]).metadata.id != wanted[3])
                ==> last is None
        }),
    decreases memories.len(),
{
    let key = |entry: ExclusiveView| exclusive_key(entry);
    if memories.len() > 0 {
        let rest = memories.drop_last();
        let memory = memories.last();
        assert(memories[memories.len() - 1] == memory);
        assert forall|i: int| 0 <= i < rest.len() implies #[trigger] rest[i] == memories[i] by {}
        assert(same_by_id(rest));
        lemma_exclusive_ok(memories, extractions, at);
        assert(contribution(memory, extractions, at) is Ok);
        lemma_last_entry(rest, extractions, at, wanted);
        let before = exclusive_entries(rest, extractions, at)->Ok_0;
        let added = contribution(memory, extractions, at)->Ok_0;
        assert(exclusive_entries(memories, extractions, at)->Ok_0 =~= before + added);
        lemma_last_with_both(before, added, key, wanted);
        if memory.metadata.id != wanted[3] {
            lemma_no_contribution(memory, extractions, at, wanted);
            let last = last_with(before + added, key, wanted);
            assert forall|i: int|
                0 <= i < memories.len() && (#[trigger] memories[i]).metadata.id
                    == wanted[3] implies last == last_with(
                contribution(memories[i], extractions, at)->Ok_0,
                key,
                wanted,
            ) by {
                assert(rest[i] == memories[i]);
            }
            if forall|i: int|
                0 <= i < memories.len() ==> (#[trigger] memories[i]).metadata.id != wanted[3] {
                assert forall|i: int| 0 <= i < rest.len() implies (
                #[trigger] rest[i]).metadata.id != wanted[3] by {
                    assert(rest[i] == memories[i]);
                }
            }
        } else {
            assert forall|i: int|
                0 <= i < memories.len() && (#[trigger] memories[i]).metadata.id
                    == wanted[3] implies memories[i] == memory by {}
            if exists|i: int| 0 <= i < rest.len() && (#[trigger] rest[i]).metadata.id == wanted[3] {
                let i = choose|i: int|
                    0 <= i < rest.len() && (#[trigger] rest[i]).metadata.id == wanted[3];
                assert(rest[i] == memories[i]);
                assert(rest[i] == memory);
            }
        }
    }
}

/// Which conflicts there are does not depend on how the memories are listed, nor
/// on how often, where memories with the same id are the same.
pub proof fn detection_ignores_order(
    left: Seq<MemoryView>,
    right: Seq<MemoryView>,
    extractions: Extractions,
    at: int,
)
    requires
        same_by_id(left),
        same_memories(left, right),
    ensures
        conflicts_at(left, extractions, at) is Ok <==> conflicts_at(right, extractions, at) is Ok,
        conflicts_at(left, extractions, at) is Ok ==> conflicts_at(left, extractions, at)
            == conflicts_at(right, extractions, at),
{
    duplicates_ignore_order(left, right);
    lemma_same_by_id(left, right);
    lemma_exclusive_ok(left, extractions, at);
    lemma_exclusive_ok(right, extractions, at);
    if exclusive_entries(left, extractions, at) is Ok {
        lemma_ok_both_ways(left, right, extractions, at);
    }
    if exclusive_entries(right, extractions, at) is Ok {
        assert forall|memory: MemoryView| #[trigger] right.contains(memory) <==> left.contains(
            memory,
        ) by {
            assert(left.contains(memory) <==> right.contains(memory));
        }
        lemma_ok_both_ways(right, left, extractions, at);
    }
    if exclusive_entries(left, extractions, at) is Ok {
        let key = |entry: ExclusiveView| exclusive_key(entry);
        let before = |x: ExclusiveView, y: ExclusiveView| ExclusiveEntry::ranks_before(x, y);
        let a = exclusive_entries(left, extractions, at)->Ok_0;
        let b = exclusive_entries(right, extractions, at)->Ok_0;
        lemma_exclusive_order();
        lemma_exclusive_keys();
        assert forall|wanted: Seq<Seq<char>>| #[trigger]
            last_with(a, key, wanted) == last_with(b, key, wanted) by {
            lemma_same_last_entry(left, right, extractions, at, wanted);
        }
        sorting_goes_by_the_last(a, b, before, key);
        lemma_groups_go_by_the_last::<ExclusiveEntry>(order::ranked::<ExclusiveEntry>(a), key);
        lemma_groups_go_by_the_last::<ExclusiveEntry>(order::ranked::<ExclusiveEntry>(b), key);
    }
}

proof fn lemma_same_last_entry(
    left: Seq<MemoryView>,
    right: Seq<MemoryView>,
    extractions: Extractions,
    at: int,
    wanted: Seq<Seq<char>>,
)
    requires
        exclusive_entries(left, extractions, at) is Ok,
        exclusive_entries(right, extractions, at) is Ok,
        same_by_id(left),
        same_by_id(right),
        same_memories(left, right),
    ensures
        last_with(
            exclusive_entries(left, extractions, at)->Ok_0,
            |entry: ExclusiveView| exclusive_key(entry),
            wanted,
        ) == last_with(
            exclusive_entries(right, extractions, at)->Ok_0,
            |entry: ExclusiveView| exclusive_key(entry),
            wanted,
        ),
{
    lemma_last_entry(left, extractions, at, wanted);
    lemma_last_entry(right, extractions, at, wanted);
    if exists|i: int| 0 <= i < left.len() && (#[trigger] left[i]).metadata.id == wanted[3] {
        let i = choose|i: int| 0 <= i < left.len() && (#[trigger] left[i]).metadata.id == wanted[3];
        assert(left.contains(left[i]));
        let j = choose|j: int| 0 <= j < right.len() && right[j] == left[i];
        assert(right[j].metadata.id == wanted[3]);
    } else {
        assert forall|j: int| 0 <= j < right.len() implies (#[trigger] right[j]).metadata.id
            != wanted[3] by {
            assert(right.contains(right[j]));
            assert(left.contains(right[j]));
            let i = choose|i: int| 0 <= i < left.len() && left[i] == right[j];
            assert(left[i].metadata.id == right[j].metadata.id);
        }
    }
}

proof fn lemma_reordered(left: Seq<MemoryView>, right: Seq<MemoryView>)
    requires
        left.to_multiset() == right.to_multiset(),
    ensures
        same_memories(left, right),
{
    assert forall|memory: MemoryView| #[trigger] left.contains(memory) <==> right.contains(
        memory,
    ) by {
        vstd::seq_lib::to_multiset_contains(left, memory);
        vstd::seq_lib::to_multiset_contains(right, memory);
    }
}

/// Reordering the memories changes nothing, where memories with the same id are
/// the same.
pub proof fn reordering_changes_nothing(
    left: Seq<MemoryView>,
    right: Seq<MemoryView>,
    extractions: Extractions,
    at: int,
)
    requires
        same_by_id(left),
        left.to_multiset() == right.to_multiset(),
        conflicts_at(left, extractions, at) is Ok || conflicts_at(right, extractions, at) is Ok,
    ensures
        conflicts_at(left, extractions, at) == conflicts_at(right, extractions, at),
{
    lemma_reordered(left, right);
    detection_ignores_order(left, right, extractions, at);
}

/// A memory that is listed once more changes nothing.
pub proof fn repeated_memories_count_once(
    memories: Seq<MemoryView>,
    memory: MemoryView,
    extractions: Extractions,
    at: int,
)
    requires
        same_by_id(memories),
        memories.contains(memory),
        conflicts_at(memories, extractions, at) is Ok,
    ensures
        conflicts_at(memories.push(memory), extractions, at) == conflicts_at(
            memories,
            extractions,
            at,
        ),
{
    let longer = memories.push(memory);
    assert forall|other: MemoryView| #[trigger] memories.contains(other) <==> longer.contains(
        other,
    ) by {
        if memories.contains(other) {
            let i = choose|i: int| 0 <= i < memories.len() && memories[i] == other;
            assert(longer[i] == other);
        }
        if longer.contains(other) {
            let i = choose|i: int| 0 <= i < longer.len() && longer[i] == other;
            if i < memories.len() {
                assert(memories[i] == other);
            }
        }
    }
    detection_ignores_order(memories, longer, extractions, at);
}

proof fn lemma_ok_both_ways(
    left: Seq<MemoryView>,
    right: Seq<MemoryView>,
    extractions: Extractions,
    at: int,
)
    requires
        forall|memory: MemoryView| #[trigger] left.contains(memory) <==> right.contains(memory),
        forall|i: int|
            0 <= i < left.len() ==> contribution(#[trigger] left[i], extractions, at) is Ok,
    ensures
        forall|i: int|
            0 <= i < right.len() ==> contribution(#[trigger] right[i], extractions, at) is Ok,
{
    assert forall|i: int| 0 <= i < right.len() implies contribution(
        #[trigger] right[i],
        extractions,
        at,
    ) is Ok by {
        assert(right.contains(right[i]));
        assert(left.contains(right[i]));
        let j = choose|j: int| 0 <= j < left.len() && left[j] == right[i];
        assert(contribution(left[j], extractions, at) is Ok);
    }
}

} // verus!
