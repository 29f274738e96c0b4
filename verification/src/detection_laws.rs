//! Which conflicts are found: those that there are, and no others.

use vstd::prelude::*;

use crate::conflict::{
    all_agree, conflict_before, conflict_fact_of, conflicts_at, content_entries, content_groups,
    content_members, duplicate_conflict, duplicate_conflicts, duplicates_of, exclusive_conflict,
    exclusive_conflicts, exclusive_entries, exclusive_entry, exclusive_members, exclusives_of,
    extraction_for, memory_entries, Conflict, ConflictKind, ConflictStatus, ConflictView,
    ContentEntry, ContentView, ExclusiveEntry, ExclusiveView, MemberView,
};
use crate::conflict_laws::{
    content_key, content_of, contribution, exclusive_key, facts_are_one, is_content_of,
    is_contributed, lemma_content_members, lemma_content_order, lemma_content_repeats,
    lemma_exclusive_members, lemma_exclusive_ok, lemma_exclusive_order, lemma_exclusive_repeats,
    lemma_groups_ignore_repeats, lemma_scope_names, same_by_id, Extractions,
};
use crate::memory::{self, MemoryScope, MemoryStatus, MemoryView};
use crate::order::{
    self, groups_of, joined_by, sorted_by, text_less, text_less_is_irreflexive,
    text_less_is_transitive, Grouped, Ranked,
};
use crate::order_laws::{
    goes_by_key, in_order, increasing, key_less, key_less_is_irreflexive, key_less_is_total,
    key_less_is_transitive, lemma_sorted_repeats, sorting_puts_in_order, without_repeats,
};
use crate::semantic::{self, ExtractionView, FactView};

verus! {

// Groups.

/// Whether belonging together means that the keys begin alike.
pub open spec fn groups_by<T: Grouped>(key: spec_fn(T::V) -> Seq<Seq<char>>, n: int) -> bool {
    forall|left: T::V, right: T::V| #[trigger]
        T::together(left, right) == (key(left).take(n) == key(right).take(n))
}

/// Whether keys tell entries apart.
pub open spec fn tells_apart<T: Grouped>(key: spec_fn(T::V) -> Seq<Seq<char>>, n: int) -> bool {
    forall|left: T::V, right: T::V|
        #[trigger] T::same_entry(left, right) && key(left).take(n) == key(right).take(n) ==> key(left)
            == key(right)
}

/// Whether all keys have so many parts.
pub open spec fn keys_reach<M>(key: spec_fn(M) -> Seq<Seq<char>>, n: int) -> bool {
    forall|item: M| 0 <= n <= (#[trigger] key(item)).len()
}

/// What stands between keys that begin alike begins like them.
proof fn lemma_between(a: Seq<Seq<char>>, b: Seq<Seq<char>>, c: Seq<Seq<char>>, n: int)
    requires
        key_less(a, b),
        key_less(b, c),
        0 <= n <= a.len(),
        n <= b.len(),
        n <= c.len(),
        a.take(n) == c.take(n),
    ensures
        b.take(n) == a.take(n),
    decreases n,
{
    if n > 0 {
        assert(a.take(n)[0] == a[0] && c.take(n)[0] == c[0]);
        if a[0] != b[0] {
            text_less_is_transitive(a[0], b[0], c[0]);
            text_less_is_irreflexive(a[0]);
        } else {
            assert(a.drop_first().take(n - 1) =~= a.take(n).drop_first());
            assert(c.drop_first().take(n - 1) =~= c.take(n).drop_first());
            lemma_between(a.drop_first(), b.drop_first(), c.drop_first(), n - 1);
            assert(b.take(n) =~= seq![b[0]] + b.drop_first().take(n - 1));
            assert(a.take(n) =~= seq![a[0]] + a.drop_first().take(n - 1));
        }
    } else {
        assert(b.take(n) =~= a.take(n));
    }
}

/// Every group has items, all from the list, that belong together.
proof fn lemma_groups_hold_together<T: Grouped>(
    items: Seq<T::V>,
    key: spec_fn(T::V) -> Seq<Seq<char>>,
    n: int,
)
    requires
        groups_by::<T>(key, n),
    ensures
        forall|g: int|
            0 <= g < groups_of::<T>(items).len() ==> (#[trigger] groups_of::<T>(items)[g]).len() > 0,
        forall|g: int, i: int|
            0 <= g < groups_of::<T>(items).len() && 0 <= i < groups_of::<T>(items)[g].len()
                ==> items.contains(#[trigger] groups_of::<T>(items)[g][i]) && key(
                groups_of::<T>(items)[g][i],
            ).take(n) == key(groups_of::<T>(items)[g][0]).take(n),
    decreases items.len(),
{
    if items.len() > 0 {
        let rest = items.drop_last();
        let item = items.last();
        lemma_groups_hold_together::<T>(rest, key, n);
        let before = groups_of::<T>(rest);
        let groups = groups_of::<T>(items);
        assert(items[items.len() - 1] == item);
        assert forall|x: T::V| rest.contains(x) implies #[trigger] items.contains(x) by {
            let k = choose|k: int| 0 <= k < rest.len() && rest[k] == x;
            assert(items[k] == x);
        }
        assert forall|g: int| 0 <= g < groups.len() implies (#[trigger] groups[g]).len() > 0 by {
            if g < before.len() - 1 {
                assert(groups[g] == before[g]);
            }
        }
        assert forall|g: int, i: int|
            0 <= g < groups.len() && 0 <= i < groups[g].len() implies items.contains(
            #[trigger] groups[g][i],
        ) && key(groups[g][i]).take(n) == key(groups[g][0]).take(n) by {
            if g < before.len() - 1 || (g == before.len() - 1 && groups.len() > before.len()) {
                assert(groups[g] == before[g]);
                assert(rest.contains(before[g][i]));
            } else if g == before.len() - 1 {
                let old = before[g];
                assert(groups[g] == joined_by::<T>(old, item));
                assert(T::together(old.last(), item));
                assert(old.last() == old[old.len() - 1]);
                assert(rest.contains(old[old.len() - 1]));
                if groups[g][i] != item {
                    assert(groups[g][i] == old[i]);
                    assert(rest.contains(old[i]));
                }
                if groups[g][0] != item {
                    assert(groups[g][0] == old[0]);
                }
            } else {
                assert(groups[g] == seq![item]);
            }
        }
    }
}

/// What comes after the last item, and does not belong to it, begins like nothing
/// before it.
proof fn lemma_begins_anew<T: Grouped>(
    items: Seq<T::V>,
    key: spec_fn(T::V) -> Seq<Seq<char>>,
    n: int,
    k: int,
)
    requires
        keys_reach(key, n),
        increasing(items, key),
        0 <= k < items.len() - 1,
        key(items[items.len() - 2]).take(n) != key(items.last()).take(n),
    ensures
        key(items[k]).take(n) != key(items.last()).take(n),
{
    let first = items[k];
    let previous = items[items.len() - 2];
    let item = items[items.len() - 1];
    if key(first).take(n) == key(item).take(n) && k < items.len() - 2 {
        assert(key_less(key(first), key(previous)));
        assert(key_less(key(previous), key(item)));
        lemma_between(key(first), key(previous), key(item), n);
    }
}

/// The last group ends with the last item.
proof fn lemma_last_group<T: Grouped>(items: Seq<T::V>)
    requires
        items.len() > 0,
    ensures
        groups_of::<T>(items).len() > 0,
        groups_of::<T>(items).last().len() > 0,
        groups_of::<T>(items).last().last() == items.last(),
{
}

proof fn lemma_increasing_rest<M>(items: Seq<M>, key: spec_fn(M) -> Seq<Seq<char>>)
    requires
        items.len() > 0,
        increasing(items, key),
    ensures
        increasing(items.drop_last(), key),
{
    let rest = items.drop_last();
    assert forall|i: int, j: int| 0 <= i < j < rest.len() implies key_less(
        key(#[trigger] rest[i]),
        key(#[trigger] rest[j]),
    ) by {
        assert(rest[i] == items[i] && rest[j] == items[j]);
    }
}

/// How the groups grow by one item: a group of its own, or at the end of the
/// last.
proof fn lemma_groups_grow<T: Grouped>(
    items: Seq<T::V>,
    key: spec_fn(T::V) -> Seq<Seq<char>>,
    n: int,
)
    requires
        groups_by::<T>(key, n),
        tells_apart::<T>(key, n),
        increasing(items, key),
        items.len() > 0,
    ensures
        ({
            let before = groups_of::<T>(items.drop_last());
            let groups = groups_of::<T>(items);
            if items.len() > 1 && key(items[items.len() - 2]).take(n) == key(items.last()).take(n) {
                groups == before.drop_last().push(before.last().push(items.last()))
            } else {
                groups == before.push(seq![items.last()])
            }
        }),
{
    let rest = items.drop_last();
    if rest.len() > 0 {
        lemma_last_group::<T>(rest);
        let previous = items[items.len() - 2];
        let item = items[items.len() - 1];
        assert(rest.last() == previous);
        assert(T::together(previous, item) == (key(previous).take(n) == key(item).take(n)));
        assert(key_less(key(previous), key(item)));
        key_less_is_irreflexive(key(item));
        if key(previous).take(n) == key(item).take(n) {
            assert(!T::same_entry(previous, item));
        }
    }
}

/// No two groups belong together.
proof fn lemma_groups_differ<T: Grouped>(
    items: Seq<T::V>,
    key: spec_fn(T::V) -> Seq<Seq<char>>,
    n: int,
)
    requires
        groups_by::<T>(key, n),
        tells_apart::<T>(key, n),
        keys_reach(key, n),
        increasing(items, key),
    ensures
        forall|g: int, h: int|
            0 <= g < h < groups_of::<T>(items).len() ==> key(
                (#[trigger] groups_of::<T>(items)[g])[0],
            ).take(n) != key((#[trigger] groups_of::<T>(items)[h])[0]).take(n),
    decreases items.len(),
{
    if items.len() > 0 {
        let rest = items.drop_last();
        lemma_increasing_rest(items, key);
        lemma_groups_differ::<T>(rest, key, n);
        lemma_groups_hold_together::<T>(rest, key, n);
        lemma_groups_grow::<T>(items, key, n);
        let before = groups_of::<T>(rest);
        let groups = groups_of::<T>(items);
        let joins = items.len() > 1 && key(items[items.len() - 2]).take(n) == key(
            items.last(),
        ).take(n);
        if rest.len() > 0 {
            lemma_last_group::<T>(rest);
        }
        assert forall|g: int, h: int| 0 <= g < h < groups.len() implies key(
            (#[trigger] groups[g])[0],
        ).take(n) != key((#[trigger] groups[h])[0]).take(n) by {
            assert(before[g].len() > 0);
            assert(groups[g][0] == before[g][0]);
            if joins || h < before.len() {
                assert(before[h].len() > 0);
                assert(groups[h][0] == before[h][0]);
            } else {
                let first = before[g][0];
                assert(rest.contains(first));
                let k = choose|k: int| 0 <= k < rest.len() && rest[k] == first;
                assert(items[k] == first);
                lemma_begins_anew::<T>(items, key, n, k);
            }
        }
    }
}

/// Every item is in a group.
proof fn lemma_groups_are_whole<T: Grouped>(
    items: Seq<T::V>,
    key: spec_fn(T::V) -> Seq<Seq<char>>,
    n: int,
    x: T::V,
) -> (g: int)
    requires
        groups_by::<T>(key, n),
        tells_apart::<T>(key, n),
        increasing(items, key),
        items.contains(x),
    ensures
        0 <= g < groups_of::<T>(items).len(),
        groups_of::<T>(items)[g].contains(x),
    decreases items.len(),
{
    let rest = items.drop_last();
    let k = choose|k: int| 0 <= k < items.len() && items[k] == x;
    let before = groups_of::<T>(rest);
    let groups = groups_of::<T>(items);
    lemma_increasing_rest(items, key);
    lemma_groups_grow::<T>(items, key, n);
    if k == items.len() - 1 {
        let last = groups.len() - 1;
        lemma_last_group::<T>(items);
        assert(groups[last][groups[last].len() - 1] == x);
        last
    } else {
        assert(rest[k] == x);
        let g = lemma_groups_are_whole::<T>(rest, key, n, x);
        let i = choose|i: int| 0 <= i < before[g].len() && before[g][i] == x;
        assert(groups[g][i] == x);
        g
    }
}

/// Items that belong together are found in one group.
proof fn lemma_found_together<T: Grouped>(
    items: Seq<T::V>,
    key: spec_fn(T::V) -> Seq<Seq<char>>,
    n: int,
    left: T::V,
    right: T::V,
) -> (g: int)
    requires
        groups_by::<T>(key, n),
        tells_apart::<T>(key, n),
        keys_reach(key, n),
        increasing(items, key),
        items.contains(left),
        items.contains(right),
        key(left).take(n) == key(right).take(n),
    ensures
        0 <= g < groups_of::<T>(items).len(),
        groups_of::<T>(items)[g].contains(left),
        groups_of::<T>(items)[g].contains(right),
{
    lemma_groups_differ::<T>(items, key, n);
    lemma_groups_hold_together::<T>(items, key, n);
    let groups = groups_of::<T>(items);
    let g = lemma_groups_are_whole::<T>(items, key, n, left);
    let h = lemma_groups_are_whole::<T>(items, key, n, right);
    let i = choose|i: int| 0 <= i < groups[g].len() && groups[g][i] == left;
    let j = choose|j: int| 0 <= j < groups[h].len() && groups[h][j] == right;
    assert(key(groups[g][i]).take(n) == key(groups[g][0]).take(n));
    assert(key(groups[h][j]).take(n) == key(groups[h][0]).take(n));
    if g < h {
        assert(key(groups[g][0]).take(n) != key(groups[h][0]).take(n));
    } else if h < g {
        assert(key(groups[h][0]).take(n) != key(groups[g][0]).take(n));
    }
    g
}

// Duplicates.

proof fn lemma_content_groups()
    ensures
        groups_by::<ContentEntry>(|entry: ContentView| content_key(entry), 2),
        tells_apart::<ContentEntry>(|entry: ContentView| content_key(entry), 2),
        keys_reach(|entry: ContentView| content_key(entry), 2),
{
    let key = |entry: ContentView| content_key(entry);
    assert forall|left: ContentView, right: ContentView| #[trigger]
        ContentEntry::together(left, right) == (key(left).take(2) == key(right).take(2)) by {
        lemma_scope_names(left.scope, right.scope);
        assert(key(left).take(2) =~= seq![left.scope.name(), left.content]);
        assert(key(right).take(2) =~= seq![right.scope.name(), right.content]);
        if key(left).take(2) == key(right).take(2) {
            assert(key(left).take(2)[0] == key(right).take(2)[0]);
            assert(key(left).take(2)[1] == key(right).take(2)[1]);
        }
    }
    assert forall|left: ContentView, right: ContentView|
        #[trigger] ContentEntry::same_entry(left, right) && key(left).take(2) == key(right).take(
            2,
        ) implies key(left) == key(right) by {
        assert(key(left).take(2)[0] == key(right).take(2)[0]);
        assert(key(left).take(2)[1] == key(right).take(2)[1]);
        assert(key(left) =~= key(right));
    }
}

/// The conflicts of groups come from groups of two or more.
proof fn lemma_conflict_of_group(groups: Seq<Seq<ContentView>>, at: int) -> (g: int)
    requires
        0 <= at < duplicate_conflicts(groups).len(),
    ensures
        0 <= g < groups.len(),
        groups[g].len() >= 2,
        duplicate_conflicts(groups)[at] == duplicate_conflict(groups[g]),
    decreases groups.len(),
{
    let before = duplicate_conflicts(groups.drop_last());
    if at < before.len() {
        let g = lemma_conflict_of_group(groups.drop_last(), at);
        assert(groups.drop_last()[g] == groups[g]);
        g
    } else {
        groups.len() - 1
    }
}

proof fn lemma_group_has_conflict(groups: Seq<Seq<ContentView>>, g: int) -> (at: int)
    requires
        0 <= g < groups.len(),
        groups[g].len() >= 2,
    ensures
        0 <= at < duplicate_conflicts(groups).len(),
        duplicate_conflicts(groups)[at] == duplicate_conflict(groups[g]),
    decreases groups.len(),
{
    if g < groups.len() - 1 {
        assert(groups.drop_last()[g] == groups[g]);
        lemma_group_has_conflict(groups.drop_last(), g)
    } else {
        duplicate_conflicts(groups).len() - 1
    }
}

/// Whether a member of a conflict is an active memory of a scope that says that.
pub open spec fn says(
    memories: Seq<MemoryView>,
    scope: MemoryScope,
    content: Seq<char>,
    member: MemberView,
) -> bool {
    exists|i: int|
        0 <= i < memories.len() && (#[trigger] memories[i]).metadata.status == MemoryStatus::Active
            && memories[i].metadata.scope == scope && memory::canonical(memories[i].body) == content
            && content_of(memories[i]).member == member
}

/// Every duplicate that is found is one: two or more active memories of one
/// scope that say the same.
pub proof fn found_duplicates_say_the_same(memories: Seq<MemoryView>, at: int) -> (content: Seq<
    char,
>)
    requires
        0 <= at < duplicates_of(memories).len(),
    ensures
        duplicates_of(memories)[at].kind == ConflictKind::ExactActiveDuplicate,
        duplicates_of(memories)[at].status == ConflictStatus::Open,
        duplicates_of(memories)[at].members.len() >= 2,
        forall|i: int|
            0 <= i < duplicates_of(memories)[at].members.len() ==> says(
                memories,
                duplicates_of(memories)[at].scope,
                content,
                #[trigger] duplicates_of(memories)[at].members[i],
            ),
{
    let key = |entry: ContentView| content_key(entry);
    let before = |left: ContentView, right: ContentView| ContentEntry::ranks_before(left, right);
    let entries = content_entries(memories);
    let sorted = order::ranked::<ContentEntry>(entries);
    let groups = content_groups(memories);
    let conflict = duplicates_of(memories)[at];
    let g = lemma_conflict_of_group(groups, at);
    let group = groups[g];
    let content = group[0].content;
    lemma_content_groups();
    lemma_groups_hold_together::<ContentEntry>(sorted, key, 2);
    lemma_content_members(memories);
    order::lemma_sorted_members(entries, before);
    assert forall|i: int| 0 <= i < conflict.members.len() implies says(
        memories,
        conflict.scope,
        content,
        #[trigger] conflict.members[i],
    ) by {
        let entry = group[i];
        assert(conflict.members[i] == entry.member);
        assert(sorted.contains(groups_of::<ContentEntry>(sorted)[g][i]));
        assert(entries.contains(entry));
        assert(is_content_of(memories, entry));
        assert(ContentEntry::together(entry, group[0]));
        let k = choose|k: int|
            0 <= k < memories.len() && (#[trigger] memories[k]).metadata.status
                == MemoryStatus::Active && content_of(memories[k]) == entry;
        assert(memories[k].metadata.scope == conflict.scope);
    }
    content
}

/// Every duplicate is found: active memories of one scope that say the same are
/// members of one conflict, where memories with the same id are the same.
pub proof fn duplicates_are_found(memories: Seq<MemoryView>, i: int, j: int) -> (at: int)
    requires
        same_by_id(memories),
        0 <= i < memories.len(),
        0 <= j < memories.len(),
        memories[i].metadata.id != memories[j].metadata.id,
        memories[i].metadata.status == MemoryStatus::Active,
        memories[j].metadata.status == MemoryStatus::Active,
        memories[i].metadata.scope == memories[j].metadata.scope,
        memory::canonical(memories[i].body) == memory::canonical(memories[j].body),
    ensures
        0 <= at < duplicates_of(memories).len(),
        duplicates_of(memories)[at].members.contains(content_of(memories[i]).member),
        duplicates_of(memories)[at].members.contains(content_of(memories[j]).member),
{
    let key = |entry: ContentView| content_key(entry);
    let before = |left: ContentView, right: ContentView| ContentEntry::ranks_before(left, right);
    let entries = content_entries(memories);
    let sorted = order::ranked::<ContentEntry>(entries);
    let groups = content_groups(memories);
    let left = content_of(memories[i]);
    let right = content_of(memories[j]);
    lemma_content_order();
    lemma_content_groups();
    lemma_content_repeats(memories);
    lemma_content_members(memories);
    lemma_sorted_repeats(entries, before, key);
    lemma_groups_ignore_repeats::<ContentEntry>(sorted);
    let once = without_repeats(sorted);
    assert(is_content_of(memories, left));
    assert(is_content_of(memories, right));
    assert(entries.contains(left));
    assert(entries.contains(right));
    assert(once.contains(left));
    assert(once.contains(right));
    assert(ContentEntry::together(left, right));
    let g = lemma_found_together::<ContentEntry>(once, key, 2, left, right);
    let group = groups[g];
    let a = choose|a: int| 0 <= a < group.len() && group[a] == left;
    let b = choose|b: int| 0 <= b < group.len() && group[b] == right;
    assert(left.member.memory_id != right.member.memory_id);
    assert(a != b);
    let at = lemma_group_has_conflict(groups, g);
    let members = duplicates_of(memories)[at].members;
    assert(members =~= content_members(group));
    assert(members[a] == left.member);
    assert(members[b] == right.member);
    at
}

// Facts that exclude each other.

proof fn lemma_exclusive_groups()
    ensures
        groups_by::<ExclusiveEntry>(|entry: ExclusiveView| exclusive_key(entry), 3),
        tells_apart::<ExclusiveEntry>(|entry: ExclusiveView| exclusive_key(entry), 3),
        keys_reach(|entry: ExclusiveView| exclusive_key(entry), 3),
{
    let key = |entry: ExclusiveView| exclusive_key(entry);
    assert forall|left: ExclusiveView, right: ExclusiveView| #[trigger]
        ExclusiveEntry::together(left, right) == (key(left).take(3) == key(right).take(3)) by {
        lemma_scope_names(left.scope, right.scope);
        assert(key(left).take(3) =~= seq![
            left.scope.name(),
            left.fact.subject_id,
            left.fact.relation,
        ]);
        assert(key(right).take(3) =~= seq![
            right.scope.name(),
            right.fact.subject_id,
            right.fact.relation,
        ]);
        if key(left).take(3) == key(right).take(3) {
            assert(key(left).take(3)[0] == key(right).take(3)[0]);
            assert(key(left).take(3)[1] == key(right).take(3)[1]);
            assert(key(left).take(3)[2] == key(right).take(3)[2]);
        }
    }
    assert forall|left: ExclusiveView, right: ExclusiveView|
        #[trigger] ExclusiveEntry::same_entry(left, right) && key(left).take(3) == key(right).take(
            3,
        ) implies key(left) == key(right) by {
        assert(key(left).take(3)[0] == key(right).take(3)[0]);
        assert(key(left).take(3)[1] == key(right).take(3)[1]);
        assert(key(left).take(3)[2] == key(right).take(3)[2]);
        assert(key(left) =~= key(right));
    }
}

/// Whether a fact holds and can exclude others.
pub open spec fn competes(fact: FactView, at: int) -> bool {
    semantic::is_exclusive(fact.relation) && semantic::fact_holds(fact, at) == Ok::<_, Seq<char>>(
        true,
    )
}

/// A memory contributes its facts that hold and can exclude others.
proof fn lemma_memory_contributes(
    memory: MemoryView,
    extraction: ExtractionView,
    facts: Seq<FactView>,
    at: int,
    entry: ExclusiveView,
)
    requires
        memory_entries(memory, extraction, facts, at) is Ok,
    ensures
        memory_entries(memory, extraction, facts, at)->Ok_0.contains(entry) <==> exists|f: int|
            0 <= f < facts.len() && competes(#[trigger] facts[f], at) && entry == exclusive_entry(
                memory,
                extraction,
                facts[f],
            ),
    decreases facts.len(),
{
    let entries = memory_entries(memory, extraction, facts, at)->Ok_0;
    if facts.len() > 0 {
        let rest = facts.drop_last();
        lemma_memory_contributes(memory, extraction, rest, at, entry);
        let before = memory_entries(memory, extraction, rest, at)->Ok_0;
        assert(facts[facts.len() - 1] == facts.last());
        if entries.contains(entry) {
            let k = choose|k: int| 0 <= k < entries.len() && entries[k] == entry;
            if k < before.len() {
                assert(before[k] == entry);
                let f = choose|f: int|
                    0 <= f < rest.len() && competes(#[trigger] rest[f], at) && entry
                        == exclusive_entry(memory, extraction, rest[f]);
                assert(facts[f] == rest[f]);
            }
        }
        if exists|f: int|
            0 <= f < facts.len() && competes(#[trigger] facts[f], at) && entry == exclusive_entry(
                memory,
                extraction,
                facts[f],
            ) {
            let f = choose|f: int|
                0 <= f < facts.len() && competes(#[trigger] facts[f], at) && entry
                    == exclusive_entry(memory, extraction, facts[f]);
            if f < rest.len() {
                assert(rest[f] == facts[f]);
                let k = choose|k: int| 0 <= k < before.len() && before[k] == entry;
                assert(entries[k] == entry);
            } else {
                assert(entries[before.len() as int] == entry);
            }
        }
    }
}

proof fn lemma_exclusive_of_group(groups: Seq<Seq<ExclusiveView>>, at: int) -> (g: int)
    requires
        0 <= at < exclusive_conflicts(groups).len(),
    ensures
        0 <= g < groups.len(),
        groups[g].len() >= 2,
        !all_agree(groups[g]),
        exclusive_conflicts(groups)[at] == exclusive_conflict(groups[g]),
    decreases groups.len(),
{
    let before = exclusive_conflicts(groups.drop_last());
    if at < before.len() {
        let g = lemma_exclusive_of_group(groups.drop_last(), at);
        assert(groups.drop_last()[g] == groups[g]);
        g
    } else {
        groups.len() - 1
    }
}

proof fn lemma_group_has_exclusive(groups: Seq<Seq<ExclusiveView>>, g: int) -> (at: int)
    requires
        0 <= g < groups.len(),
        groups[g].len() >= 2,
        !all_agree(groups[g]),
    ensures
        0 <= at < exclusive_conflicts(groups).len(),
        exclusive_conflicts(groups)[at] == exclusive_conflict(groups[g]),
    decreases groups.len(),
{
    if g < groups.len() - 1 {
        assert(groups.drop_last()[g] == groups[g]);
        lemma_group_has_exclusive(groups.drop_last(), g)
    } else {
        exclusive_conflicts(groups).len() - 1
    }
}

/// Whether an active memory states a fact that holds and can exclude others, and
/// that is what it is as a member of a conflict.
pub open spec fn states(
    memories: Seq<MemoryView>,
    extractions: Extractions,
    at: int,
    fact: FactView,
    scope: MemoryScope,
    member: MemberView,
) -> bool {
    &&& competes(fact, at)
    &&& exists|i: int|
        0 <= i < memories.len() && is_stated(#[trigger] memories[i], extractions, fact)
            && memories[i].metadata.scope == scope && member == stated_member(
            memories[i],
            extractions,
            fact,
        )
}

/// Whether a memory is active, and a fact is among those kept for it.
pub open spec fn is_stated(memory: MemoryView, extractions: Extractions, fact: FactView) -> bool {
    &&& memory.metadata.status == MemoryStatus::Active
    &&& extraction_for(extractions, memory.metadata.id) matches Some(extraction)
        && extraction.facts.contains(fact)
}

/// What a fact of a memory is as a member of a conflict.
pub open spec fn stated_member(
    memory: MemoryView,
    extractions: Extractions,
    fact: FactView,
) -> MemberView {
    exclusive_entry(memory, extraction_for(extractions, memory.metadata.id)->Some_0, fact).member
}

/// What is contributed is a fact of an active memory that competes.
proof fn lemma_contributed_states(
    memories: Seq<MemoryView>,
    extractions: Extractions,
    at: int,
    entry: ExclusiveView,
)
    requires
        exclusive_entries(memories, extractions, at) is Ok,
        is_contributed(memories, extractions, at, entry),
    ensures
        states(memories, extractions, at, entry.fact, entry.scope, entry.member),
{
    lemma_exclusive_ok(memories, extractions, at);
    let i = choose|i: int|
        0 <= i < memories.len() && contribution(
            #[trigger] memories[i],
            extractions,
            at,
        )->Ok_0.contains(entry);
    let memory = memories[i];
    assert(contribution(memory, extractions, at) is Ok);
    let extraction = extraction_for(extractions, memory.metadata.id)->Some_0;
    lemma_memory_contributes(memory, extraction, extraction.facts, at, entry);
    let f = choose|f: int|
        0 <= f < extraction.facts.len() && competes(#[trigger] extraction.facts[f], at) && entry
            == exclusive_entry(memory, extraction, extraction.facts[f]);
    assert(extraction.facts.contains(extraction.facts[f]));
    assert(is_stated(memories[i], extractions, entry.fact));
}

/// Every conflict of facts that is found is one: two or more facts of one
/// subject and relation, stated by active memories of one scope, hold at the
/// time, and do not all say the same.
pub proof fn found_facts_exclude_each_other(
    memories: Seq<MemoryView>,
    extractions: Extractions,
    at: int,
    k: int,
) -> (facts: Seq<FactView>)
    requires
        exclusives_of(memories, extractions, at) is Ok,
        0 <= k < exclusives_of(memories, extractions, at)->Ok_0.len(),
    ensures
        ({
            let conflict = exclusives_of(memories, extractions, at)->Ok_0[k];
            &&& conflict.kind == ConflictKind::ExclusiveCurrent
            &&& conflict.status == ConflictStatus::Open
            &&& facts.len() == conflict.members.len() >= 2
            &&& forall|i: int|
                0 <= i < facts.len() ==> states(
                    memories,
                    extractions,
                    at,
                    #[trigger] facts[i],
                    conflict.scope,
                    conflict.members[i],
                ) && conflict.subject_id == Some(facts[i].subject_id) && conflict.relation == Some(
                    facts[i].relation,
                )
            &&& exists|i: int|
                0 < i < facts.len() && !semantic::same_fact_object(facts[0], #[trigger] facts[i])
        }),
{
    let key = |entry: ExclusiveView| exclusive_key(entry);
    let before = |left: ExclusiveView, right: ExclusiveView|
        ExclusiveEntry::ranks_before(left, right);
    let entries = exclusive_entries(memories, extractions, at)->Ok_0;
    let sorted = order::ranked::<ExclusiveEntry>(entries);
    let groups = order::grouped::<ExclusiveEntry>(entries);
    let conflict = exclusives_of(memories, extractions, at)->Ok_0[k];
    let g = lemma_exclusive_of_group(groups, k);
    let group = groups[g];
    let facts = group.map_values(|entry: ExclusiveView| entry.fact);
    lemma_exclusive_groups();
    lemma_groups_hold_together::<ExclusiveEntry>(sorted, key, 3);
    lemma_exclusive_members(memories, extractions, at);
    order::lemma_sorted_members(entries, before);
    assert forall|i: int| 0 <= i < facts.len() implies states(
        memories,
        extractions,
        at,
        #[trigger] facts[i],
        conflict.scope,
        conflict.members[i],
    ) && conflict.subject_id == Some(facts[i].subject_id) && conflict.relation == Some(
        facts[i].relation,
    ) by {
        let entry = group[i];
        assert(conflict.members[i] == entry.member);
        assert(sorted.contains(groups_of::<ExclusiveEntry>(sorted)[g][i]));
        assert(entries.contains(entry));
        lemma_contributed_states(memories, extractions, at, entry);
        assert(ExclusiveEntry::together(entry, group[0]));
    }
    let i = choose|i: int|
        1 <= i < group.len() && !semantic::same_fact_object(
            group[0].fact,
            (#[trigger] group[i]).fact,
        );
    assert(facts[i] == group[i].fact && facts[0] == group[0].fact);
    facts
}

/// Every conflict of facts is found: facts of one subject and relation that hold
/// and do not say the same, stated by active memories of one scope, are members
/// of one conflict, where memories with the same id are the same, and facts of one
/// memory with the same id too.
pub proof fn exclusions_are_found(
    memories: Seq<MemoryView>,
    extractions: Extractions,
    at: int,
    i: int,
    left: FactView,
    j: int,
    right: FactView,
) -> (k: int)
    requires
        exclusives_of(memories, extractions, at) is Ok,
        same_by_id(memories),
        facts_are_one(memories, extractions),
        0 <= i < memories.len(),
        0 <= j < memories.len(),
        is_stated(memories[i], extractions, left),
        is_stated(memories[j], extractions, right),
        competes(left, at),
        competes(right, at),
        memories[i].metadata.scope == memories[j].metadata.scope,
        left.subject_id == right.subject_id,
        left.relation == right.relation,
        !semantic::same_fact_object(left, right),
    ensures
        0 <= k < exclusives_of(memories, extractions, at)->Ok_0.len(),
        exclusives_of(memories, extractions, at)->Ok_0[k].members.contains(
            stated_member(memories[i], extractions, left),
        ),
        exclusives_of(memories, extractions, at)->Ok_0[k].members.contains(
            stated_member(memories[j], extractions, right),
        ),
{
    let key = |entry: ExclusiveView| exclusive_key(entry);
    let before = |left: ExclusiveView, right: ExclusiveView|
        ExclusiveEntry::ranks_before(left, right);
    let entries = exclusive_entries(memories, extractions, at)->Ok_0;
    let sorted = order::ranked::<ExclusiveEntry>(entries);
    let groups = order::grouped::<ExclusiveEntry>(entries);
    let first = lemma_stated_is_contributed(memories, extractions, at, i, left);
    let second = lemma_stated_is_contributed(memories, extractions, at, j, right);
    lemma_exclusive_order();
    lemma_exclusive_groups();
    lemma_exclusive_repeats(memories, extractions, at);
    lemma_exclusive_members(memories, extractions, at);
    lemma_sorted_repeats(entries, before, key);
    lemma_groups_ignore_repeats::<ExclusiveEntry>(sorted);
    let once = without_repeats(sorted);
    assert(entries.contains(first));
    assert(entries.contains(second));
    assert(once.contains(first));
    assert(once.contains(second));
    assert(ExclusiveEntry::together(first, second));
    let g = lemma_found_together::<ExclusiveEntry>(once, key, 3, first, second);
    let group = groups[g];
    let a = choose|a: int| 0 <= a < group.len() && group[a] == first;
    let b = choose|b: int| 0 <= b < group.len() && group[b] == second;
    lemma_disagreement(group, a, b);
    let k = lemma_group_has_exclusive(groups, g);
    let members = exclusives_of(memories, extractions, at)->Ok_0[k].members;
    assert(members =~= exclusive_members(group));
    assert(members[a] == first.member);
    assert(members[b] == second.member);
    k
}

proof fn lemma_stated_is_contributed(
    memories: Seq<MemoryView>,
    extractions: Extractions,
    at: int,
    i: int,
    fact: FactView,
) -> (entry: ExclusiveView)
    requires
        exclusive_entries(memories, extractions, at) is Ok,
        0 <= i < memories.len(),
        is_stated(memories[i], extractions, fact),
        competes(fact, at),
    ensures
        is_contributed(memories, extractions, at, entry),
        entry.fact == fact,
        entry.scope == memories[i].metadata.scope,
        entry.member == stated_member(memories[i], extractions, fact),
{
    lemma_exclusive_ok(memories, extractions, at);
    let memory = memories[i];
    assert(contribution(memory, extractions, at) is Ok);
    let extraction = extraction_for(extractions, memory.metadata.id)->Some_0;
    let entry = exclusive_entry(memory, extraction, fact);
    let f = choose|f: int| 0 <= f < extraction.facts.len() && extraction.facts[f] == fact;
    assert(competes(extraction.facts[f], at));
    lemma_memory_contributes(memory, extraction, extraction.facts, at, entry);
    assert(contribution(memories[i], extractions, at)->Ok_0.contains(entry));
    entry
}

/// A group in which two facts differ does not agree.
proof fn lemma_disagreement(group: Seq<ExclusiveView>, a: int, b: int)
    requires
        0 <= a < group.len(),
        0 <= b < group.len(),
        !semantic::same_fact_object(group[a].fact, group[b].fact),
    ensures
        !all_agree(group),
        group.len() >= 2,
{
    if all_agree(group) {
        assert(a == 0 || semantic::same_fact_object(group[0].fact, group[a].fact));
        assert(b == 0 || semantic::same_fact_object(group[0].fact, group[b].fact));
    }
}

/// Where all facts of a subject and relation that compete in a scope say the same
/// as one of them, there is no conflict about them.
pub proof fn agreeing_facts_do_not_conflict(
    memories: Seq<MemoryView>,
    extractions: Extractions,
    at: int,
    scope: MemoryScope,
    kept: FactView,
    k: int,
)
    requires
        exclusives_of(memories, extractions, at) is Ok,
        0 <= k < exclusives_of(memories, extractions, at)->Ok_0.len(),
        forall|i: int, fact: FactView|
            0 <= i < memories.len() && #[trigger] is_stated(memories[i], extractions, fact)
                && competes(fact, at) && memories[i].metadata.scope == scope && fact.subject_id
                == kept.subject_id && fact.relation == kept.relation ==> semantic::same_fact_object(
                kept,
                fact,
            ),
    ensures
        ({
            let conflict = exclusives_of(memories, extractions, at)->Ok_0[k];
            conflict.scope != scope || conflict.subject_id != Some(kept.subject_id)
                || conflict.relation != Some(kept.relation)
        }),
{
    let conflict = exclusives_of(memories, extractions, at)->Ok_0[k];
    let facts = found_facts_exclude_each_other(memories, extractions, at, k);
    if conflict.scope == scope && conflict.subject_id == Some(kept.subject_id) && conflict.relation
        == Some(kept.relation) {
        assert forall|f: int| 0 <= f < facts.len() implies semantic::same_fact_object(
            kept,
            #[trigger] facts[f],
        ) by {
            let i = choose|i: int|
                0 <= i < memories.len() && is_stated(#[trigger] memories[i], extractions, facts[f])
                    && memories[i].metadata.scope == conflict.scope && conflict.members[f]
                    == stated_member(memories[i], extractions, facts[f]);
            assert(is_stated(memories[i], extractions, facts[f]));
        }
        let f = choose|f: int|
            0 < f < facts.len() && !semantic::same_fact_object(facts[0], #[trigger] facts[f]);
        assert(semantic::same_fact_object(kept, facts[0]));
        assert(semantic::same_fact_object(kept, facts[f]));
    }
}

// What is found stands in order, and no member twice.

/// A text for what may be missing, which stands in the same order.
spec fn optional_key(value: Option<Seq<char>>) -> Seq<char> {
    match value {
        Some(value) => seq!['+'] + value,
        None => seq![],
    }
}

spec fn conflict_key(conflict: ConflictView) -> Seq<Seq<char>> {
    seq![
        match conflict.kind {
            ConflictKind::ExactActiveDuplicate => seq!['0'],
            ConflictKind::ExclusiveCurrent => seq!['1'],
        },
        conflict.scope.name(),
        optional_key(conflict.subject_id),
        optional_key(conflict.relation),
        conflict.id,
    ]
}

proof fn lemma_optional_key(left: Option<Seq<char>>, right: Option<Seq<char>>)
    ensures
        optional_key(left) == optional_key(right) ==> left == right,
        order::optional_less(left, right) == text_less(optional_key(left), optional_key(right)),
{
    if let (Some(a), Some(b)) = (left, right) {
        assert(optional_key(left).drop_first() =~= a);
        assert(optional_key(right).drop_first() =~= b);
    } else if left is None && right is Some {
        assert(optional_key(right).len() > 0);
    } else if left is Some && right is None {
        assert(optional_key(left).len() > 0);
    }
}

proof fn lemma_conflict_keys(left: ConflictView, right: ConflictView)
    ensures
        conflict_before(left, right) == key_less(conflict_key(left), conflict_key(right)),
{
    lemma_scope_names(left.scope, right.scope);
    lemma_optional_key(left.subject_id, right.subject_id);
    lemma_optional_key(left.relation, right.relation);
    text_less_is_irreflexive(left.id);
    let a = conflict_key(left);
    let b = conflict_key(right);
    assert(seq!['0'][0] == '0' && seq!['1'][0] == '1');
    assert(seq!['0'].len() == 1 && seq!['1'].len() == 1);
    assert(a[0] == b[0] <==> left.kind == right.kind);
    assert(left.kind != right.kind ==> text_less(a[0], b[0]) == (left.kind
        == ConflictKind::ExactActiveDuplicate));
    let a1 = a.drop_first();
    let b1 = b.drop_first();
    let a2 = a1.drop_first();
    let b2 = b1.drop_first();
    let a3 = a2.drop_first();
    let b3 = b2.drop_first();
    let a4 = a3.drop_first();
    let b4 = b3.drop_first();
    assert(a4.drop_first().len() == 0 && b4.drop_first().len() == 0);
    assert(a4[0] == left.id && b4[0] == right.id);
    assert(!key_less(a4.drop_first(), b4.drop_first()));
    assert(key_less(a4, b4) == text_less(left.id, right.id));
    assert(a3[0] == optional_key(left.relation) && b3[0] == optional_key(right.relation));
    assert(key_less(a3, b3) == (if left.relation != right.relation {
        order::optional_less(left.relation, right.relation)
    } else {
        key_less(a4, b4)
    }));
    assert(a2[0] == optional_key(left.subject_id) && b2[0] == optional_key(right.subject_id));
    assert(key_less(a2, b2) == (if left.subject_id != right.subject_id {
        order::optional_less(left.subject_id, right.subject_id)
    } else {
        key_less(a3, b3)
    }));
    assert(a1[0] == left.scope.name() && b1[0] == right.scope.name());
    assert(key_less(a1, b1) == (if left.scope != right.scope {
        text_less(left.scope.name(), right.scope.name())
    } else {
        key_less(a2, b2)
    }));
}

proof fn lemma_conflict_order()
    ensures
        goes_by_key(
            |left: ConflictView, right: ConflictView| Conflict::ranks_before(left, right),
            |conflict: ConflictView| conflict_key(conflict),
        ),
{
    let before = |left: ConflictView, right: ConflictView| Conflict::ranks_before(left, right);
    let key = |conflict: ConflictView| conflict_key(conflict);
    assert forall|left: ConflictView, right: ConflictView| #[trigger]
        before(left, right) == key_less(key(left), key(right)) by {
        lemma_conflict_keys(left, right);
    }
}

/// What is found stands in order: duplicates first, then by scope, subject,
/// relation and id.
pub proof fn conflicts_stand_in_order(
    memories: Seq<MemoryView>,
    extractions: Extractions,
    at: int,
)
    requires
        conflicts_at(memories, extractions, at) is Ok,
    ensures
        forall|i: int, j: int|
            0 <= i < j < conflicts_at(memories, extractions, at)->Ok_0.len() ==> !conflict_before(
                #[trigger] conflicts_at(memories, extractions, at)->Ok_0[j],
                #[trigger] conflicts_at(memories, extractions, at)->Ok_0[i],
            ),
{
    let before = |left: ConflictView, right: ConflictView| Conflict::ranks_before(left, right);
    let found = duplicates_of(memories) + exclusives_of(memories, extractions, at)->Ok_0;
    lemma_conflict_order();
    sorting_puts_in_order(found, before, |conflict: ConflictView| conflict_key(conflict));
    let sorted = conflicts_at(memories, extractions, at)->Ok_0;
    assert(sorted == sorted_by(found, before));
    assert forall|i: int, j: int| 0 <= i < j < sorted.len() implies !conflict_before(
        #[trigger] sorted[j],
        #[trigger] sorted[i],
    ) by {
        assert(!before(sorted[j], sorted[i]));
    }
}

/// Whether entries with the same key are the same entry.
spec fn merges_repeats<T: Grouped>(key: spec_fn(T::V) -> Seq<Seq<char>>) -> bool {
    forall|left: T::V, right: T::V|
        key(left) == key(right) ==> #[trigger] T::same_entry(left, right)
}

/// The keys go up within each group, however often an entry is listed.
proof fn lemma_groups_increase<T: Grouped>(
    items: Seq<T::V>,
    before: spec_fn(T::V, T::V) -> bool,
    key: spec_fn(T::V) -> Seq<Seq<char>>,
)
    requires
        goes_by_key(before, key),
        in_order(items, before),
        merges_repeats::<T>(key),
    ensures
        forall|g: int|
            0 <= g < groups_of::<T>(items).len() ==> increasing(
                #[trigger] groups_of::<T>(items)[g],
                key,
            ),
    decreases items.len(),
{
    if items.len() > 0 {
        let rest = items.drop_last();
        let item = items.last();
        assert forall|i: int, j: int| 0 <= i < j < rest.len() implies !before(
            #[trigger] rest[j],
            #[trigger] rest[i],
        ) by {
            assert(rest[i] == items[i] && rest[j] == items[j]);
        }
        lemma_groups_increase::<T>(rest, before, key);
        let old = groups_of::<T>(rest);
        let groups = groups_of::<T>(items);
        assert forall|g: int| 0 <= g < groups.len() implies increasing(
            #[trigger] groups[g],
            key,
        ) by {
            if g < old.len() - 1 || groups.len() > old.len() && g < old.len() {
                assert(groups[g] == old[g]);
            } else if g == old.len() - 1 {
                assert(rest.len() > 0);
                lemma_last_group::<T>(rest);
                assert(old[g] == old.last());
                assert(items[items.len() - 2] == rest.last());
                assert(items[items.len() - 1] == item);
                assert(!before(item, rest.last()));
                lemma_group_grows::<T>(old[g], item, before, key);
            }
        }
    }
}

proof fn lemma_group_grows<T: Grouped>(
    group: Seq<T::V>,
    item: T::V,
    before: spec_fn(T::V, T::V) -> bool,
    key: spec_fn(T::V) -> Seq<Seq<char>>,
)
    requires
        goes_by_key(before, key),
        merges_repeats::<T>(key),
        group.len() > 0,
        increasing(group, key),
        !before(item, group.last()),
    ensures
        increasing(joined_by::<T>(group, item), key),
{
    let last = group.last();
    let joined = joined_by::<T>(group, item);
    let n = group.len() - 1;
    assert(group[n] == last);
    assert(!key_less(key(item), key(last)));
    key_less_is_total(key(last), key(item));
    assert(key(last) == key(item) || key_less(key(last), key(item)));
    assert forall|i: int, j: int| 0 <= i < j < joined.len() implies key_less(
        key(#[trigger] joined[i]),
        key(#[trigger] joined[j]),
    ) by {
        assert(joined[i] == group[i]);
        if j < joined.len() - 1 {
            assert(joined[j] == group[j]);
        } else {
            assert(joined[j] == item);
            if key(last) == key(item) {
                assert(T::same_entry(last, item));
                assert(i < n);
                assert(key_less(key(group[i]), key(group[n])));
            } else if i < n {
                assert(key_less(key(group[i]), key(group[n])));
                key_less_is_transitive(key(group[i]), key(last), key(item));
            }
        }
    }
}

/// The id of the fact that a member stands for, where it stands for one.
pub open spec fn member_fact(member: MemberView) -> Option<Seq<char>> {
    match member.fact {
        Some(fact) => Some(fact.id),
        None => None,
    }
}

/// Whether no two members are the same memory, or the same fact of it.
pub open spec fn members_differ(members: Seq<MemberView>) -> bool {
    forall|i: int, j: int|
        0 <= i < j < members.len() ==> (#[trigger] members[i]).memory_id != (
        #[trigger] members[j]).memory_id || member_fact(members[i]) != member_fact(members[j])
}

proof fn lemma_duplicate_members(memories: Seq<MemoryView>, at: int)
    requires
        0 <= at < duplicates_of(memories).len(),
    ensures
        members_differ(duplicates_of(memories)[at].members),
{
    let key = |entry: ContentView| content_key(entry);
    let before = |left: ContentView, right: ContentView| ContentEntry::ranks_before(left, right);
    let sorted = order::ranked::<ContentEntry>(content_entries(memories));
    let groups = content_groups(memories);
    let g = lemma_conflict_of_group(groups, at);
    let group = groups[g];
    let members = duplicates_of(memories)[at].members;
    lemma_content_order();
    lemma_content_groups();
    sorting_puts_in_order(content_entries(memories), before, key);
    assert(merges_repeats::<ContentEntry>(key)) by {
        assert forall|left: ContentView, right: ContentView|
            key(left) == key(right) implies #[trigger] ContentEntry::same_entry(left, right) by {
            assert(content_key(left)[2] == content_key(right)[2]);
        }
    }
    lemma_groups_increase::<ContentEntry>(sorted, before, key);
    lemma_groups_hold_together::<ContentEntry>(sorted, key, 2);
    assert(increasing(groups_of::<ContentEntry>(sorted)[g], key));
    assert forall|i: int, j: int| 0 <= i < j < members.len() implies (
    #[trigger] members[i]).memory_id != (#[trigger] members[j]).memory_id by {
        let a = groups_of::<ContentEntry>(sorted)[g][i];
        let b = groups_of::<ContentEntry>(sorted)[g][j];
        assert(members[i] == group[i].member && members[j] == group[j].member);
        assert(key_less(key(group[i]), key(group[j])));
        assert(key(a).take(2) == key(b).take(2));
        key_less_is_irreflexive(key(a));
        if a.member.memory_id == b.member.memory_id {
            assert(ContentEntry::same_entry(a, b));
        }
    }
}

proof fn lemma_exclusive_member_facts(
    memories: Seq<MemoryView>,
    extractions: Extractions,
    at: int,
    k: int,
)
    requires
        exclusives_of(memories, extractions, at) is Ok,
        0 <= k < exclusives_of(memories, extractions, at)->Ok_0.len(),
    ensures
        members_differ(exclusives_of(memories, extractions, at)->Ok_0[k].members),
{
    let key = |entry: ExclusiveView| exclusive_key(entry);
    let before = |left: ExclusiveView, right: ExclusiveView|
        ExclusiveEntry::ranks_before(left, right);
    let entries = exclusive_entries(memories, extractions, at)->Ok_0;
    let sorted = order::ranked::<ExclusiveEntry>(entries);
    let groups = order::grouped::<ExclusiveEntry>(entries);
    let g = lemma_exclusive_of_group(groups, k);
    let group = groups[g];
    let members = exclusives_of(memories, extractions, at)->Ok_0[k].members;
    lemma_exclusive_order();
    lemma_exclusive_groups();
    lemma_exclusive_members(memories, extractions, at);
    order::lemma_sorted_members(entries, before);
    sorting_puts_in_order(entries, before, key);
    assert(merges_repeats::<ExclusiveEntry>(key)) by {
        assert forall|left: ExclusiveView, right: ExclusiveView|
            key(left) == key(right) implies #[trigger] ExclusiveEntry::same_entry(left, right) by {
            assert(exclusive_key(left)[3] == exclusive_key(right)[3]);
            assert(exclusive_key(left)[4] == exclusive_key(right)[4]);
        }
    }
    lemma_groups_increase::<ExclusiveEntry>(sorted, before, key);
    lemma_groups_hold_together::<ExclusiveEntry>(sorted, key, 3);
    assert(increasing(groups_of::<ExclusiveEntry>(sorted)[g], key));
    assert forall|i: int| 0 <= i < group.len() implies (#[trigger] group[i]).member.fact == Some(
        conflict_fact_of(group[i].fact),
    ) by {
        assert(sorted.contains(groups_of::<ExclusiveEntry>(sorted)[g][i]));
        assert(entries.contains(group[i]));
        lemma_contributed_states(memories, extractions, at, group[i]);
    }
    assert forall|i: int, j: int| 0 <= i < j < members.len() implies (
    #[trigger] members[i]).memory_id != (#[trigger] members[j]).memory_id || member_fact(members[i])
        != member_fact(members[j]) by {
        let a = groups_of::<ExclusiveEntry>(sorted)[g][i];
        let b = groups_of::<ExclusiveEntry>(sorted)[g][j];
        assert(members[i] == group[i].member && members[j] == group[j].member);
        assert(key_less(key(group[i]), key(group[j])));
        assert(key(a).take(3) == key(b).take(3));
        key_less_is_irreflexive(key(a));
        if a.member.memory_id == b.member.memory_id && member_fact(a.member) == member_fact(
            b.member,
        ) {
            assert(ExclusiveEntry::same_entry(a, b));
        }
    }
}

/// No memory, and no fact of it, is a member of a conflict twice, however often
/// it is listed.
pub proof fn members_are_listed_once(
    memories: Seq<MemoryView>,
    extractions: Extractions,
    at: int,
    k: int,
)
    requires
        conflicts_at(memories, extractions, at) is Ok,
        0 <= k < conflicts_at(memories, extractions, at)->Ok_0.len(),
    ensures
        members_differ(conflicts_at(memories, extractions, at)->Ok_0[k].members),
{
    let before = |left: ConflictView, right: ConflictView| Conflict::ranks_before(left, right);
    let duplicates = duplicates_of(memories);
    let exclusives = exclusives_of(memories, extractions, at)->Ok_0;
    let found = duplicates + exclusives;
    let sorted = conflicts_at(memories, extractions, at)->Ok_0;
    assert(sorted == sorted_by(found, before));
    order::lemma_sorted_members(found, before);
    assert(sorted.contains(sorted[k]));
    let i = choose|i: int| 0 <= i < found.len() && found[i] == sorted[k];
    if i < duplicates.len() {
        assert(found[i] == duplicates[i]);
        lemma_duplicate_members(memories, i);
    } else {
        assert(found[i] == exclusives[i - duplicates.len()]);
        lemma_exclusive_member_facts(memories, extractions, at, i - duplicates.len());
    }
}

/// What is found are the duplicates and the facts that exclude each other, all of
/// them and nothing else.
pub proof fn conflicts_are_of_two_kinds(
    memories: Seq<MemoryView>,
    extractions: Extractions,
    at: int,
    conflict: ConflictView,
)
    requires
        conflicts_at(memories, extractions, at) is Ok,
    ensures
        exclusives_of(memories, extractions, at) is Ok,
        conflicts_at(memories, extractions, at)->Ok_0.contains(conflict) <==> duplicates_of(
            memories,
        ).contains(conflict) || exclusives_of(memories, extractions, at)->Ok_0.contains(conflict),
        conflicts_at(memories, extractions, at)->Ok_0.len() == duplicates_of(memories).len()
            + exclusives_of(memories, extractions, at)->Ok_0.len(),
{
    let left = duplicates_of(memories);
    let right = exclusives_of(memories, extractions, at)->Ok_0;
    let both = left + right;
    order::lemma_sorted_members(
        both,
        |left: ConflictView, right: ConflictView| Conflict::ranks_before(left, right),
    );
    if left.contains(conflict) {
        let i = choose|i: int| 0 <= i < left.len() && left[i] == conflict;
        assert(both[i] == conflict);
    }
    if right.contains(conflict) {
        let i = choose|i: int| 0 <= i < right.len() && right[i] == conflict;
        assert(both[left.len() + i] == conflict);
    }
    if both.contains(conflict) {
        let i = choose|i: int| 0 <= i < both.len() && both[i] == conflict;
        if i < left.len() {
            assert(left[i] == conflict);
        } else {
            assert(right[i - left.len()] == conflict);
        }
    }
}

proof fn lemma_sound_entries(
    memory: MemoryView,
    extraction: ExtractionView,
    facts: Seq<FactView>,
    at: int,
)
    ensures
        memory_entries(memory, extraction, facts, at) is Ok <==> forall|i: int|
            0 <= i < facts.len() ==> (#[trigger] facts[i]).source_memory_id == memory.metadata.id
                && (semantic::is_exclusive(facts[i].relation) ==> semantic::fact_holds(facts[i], at)
                is Ok),
    decreases facts.len(),
{
    if facts.len() > 0 {
        let rest = facts.drop_last();
        lemma_sound_entries(memory, extraction, rest, at);
        assert(facts[facts.len() - 1] == facts.last());
        assert forall|i: int| 0 <= i < rest.len() implies rest[i] == #[trigger] facts[i] by {}
        if memory_entries(memory, extraction, rest, at) is Err {
            let i = choose|i: int|
                0 <= i < rest.len() && !((#[trigger] rest[i]).source_memory_id
                    == memory.metadata.id && (semantic::is_exclusive(rest[i].relation)
                    ==> semantic::fact_holds(rest[i], at) is Ok));
            assert(facts[i] == rest[i]);
        }
        if memory_entries(memory, extraction, facts, at) is Ok {
            assert forall|i: int| 0 <= i < facts.len() implies (#[trigger] facts[i]).source_memory_id
                == memory.metadata.id && (semantic::is_exclusive(facts[i].relation)
                ==> semantic::fact_holds(facts[i], at) is Ok) by {
                if i < rest.len() {
                    assert(rest[i] == facts[i]);
                }
            }
        }
    }
}

/// Memories can be compared exactly where every fact of an active one is its own,
/// and those that can exclude others have times that can be read.
pub proof fn sound_memories_can_be_compared(
    memories: Seq<MemoryView>,
    extractions: Extractions,
    at: int,
)
    ensures
        conflicts_at(memories, extractions, at) is Ok <==> forall|i: int, k: int|
            #![trigger memories[i], extraction_for(extractions, memories[i].metadata.id)->Some_0.facts[k]]
            0 <= i < memories.len() && memories[i].metadata.status == MemoryStatus::Active
                && extraction_for(extractions, memories[i].metadata.id) is Some && 0 <= k
                < extraction_for(extractions, memories[i].metadata.id)->Some_0.facts.len() ==> {
                let fact = extraction_for(
                    extractions,
                    memories[i].metadata.id,
                )->Some_0.facts[k];
                &&& fact.source_memory_id == memories[i].metadata.id
                &&& semantic::is_exclusive(fact.relation) ==> semantic::fact_holds(fact, at) is Ok
            },
{
    lemma_exclusive_ok(memories, extractions, at);
    assert forall|i: int| 0 <= i < memories.len() && extraction_for(
        extractions,
        (#[trigger] memories[i]).metadata.id,
    ) is Some implies (contribution(memories[i], extractions, at) is Ok
        <==> memories[i].metadata.status != MemoryStatus::Active || memory_entries(
        memories[i],
        extraction_for(extractions, memories[i].metadata.id)->Some_0,
        extraction_for(extractions, memories[i].metadata.id)->Some_0.facts,
        at,
    ) is Ok) by {}
    if conflicts_at(memories, extractions, at) is Ok {
        assert forall|i: int, k: int|
            #![trigger memories[i], extraction_for(extractions, memories[i].metadata.id)->Some_0.facts[k]]
            0 <= i < memories.len() && memories[i].metadata.status == MemoryStatus::Active
                && extraction_for(extractions, memories[i].metadata.id) is Some && 0 <= k
                < extraction_for(
                extractions,
                memories[i].metadata.id,
            )->Some_0.facts.len() implies {
            let fact = extraction_for(extractions, memories[i].metadata.id)->Some_0.facts[k];
            &&& fact.source_memory_id == memories[i].metadata.id
            &&& semantic::is_exclusive(fact.relation) ==> semantic::fact_holds(fact, at) is Ok
        } by {
            let extraction = extraction_for(extractions, memories[i].metadata.id)->Some_0;
            assert(contribution(memories[i], extractions, at) is Ok);
            lemma_sound_entries(memories[i], extraction, extraction.facts, at);
        }
    } else {
        let i = choose|i: int|
            0 <= i < memories.len() && contribution(#[trigger] memories[i], extractions, at) is Err;
        let extraction = extraction_for(extractions, memories[i].metadata.id)->Some_0;
        lemma_sound_entries(memories[i], extraction, extraction.facts, at);
        let k = choose|k: int|
            0 <= k < extraction.facts.len() && !((#[trigger] extraction.facts[k]).source_memory_id
                == memories[i].metadata.id && (semantic::is_exclusive(extraction.facts[k].relation)
                ==> semantic::fact_holds(extraction.facts[k], at) is Ok));
        assert(memories[i] == memories[i]);
        assert(extraction_for(extractions, memories[i].metadata.id)->Some_0.facts[k]
            == extraction.facts[k]);
    }
}

/// Duplicates stand before facts that exclude each other, and conflicts of one kind
/// by their scopes.
pub proof fn duplicates_come_first(
    memories: Seq<MemoryView>,
    extractions: Extractions,
    at: int,
    i: int,
    j: int,
)
    requires
        conflicts_at(memories, extractions, at) is Ok,
        0 <= i < j < conflicts_at(memories, extractions, at)->Ok_0.len(),
    ensures
        ({
            let first = conflicts_at(memories, extractions, at)->Ok_0[i];
            let second = conflicts_at(memories, extractions, at)->Ok_0[j];
            &&& second.kind == ConflictKind::ExactActiveDuplicate ==> first.kind
                == ConflictKind::ExactActiveDuplicate
            &&& first.kind == second.kind ==> !text_less(second.scope.name(), first.scope.name())
        }),
{
    conflicts_stand_in_order(memories, extractions, at);
    let all = conflicts_at(memories, extractions, at)->Ok_0;
    assert(!conflict_before(all[j], all[i]));
    text_less_is_irreflexive(all[i].scope.name());
}

/// What is found is open: nothing is decided about it yet.
pub proof fn found_conflicts_stand_open(
    memories: Seq<MemoryView>,
    extractions: Extractions,
    at: int,
    k: int,
)
    requires
        conflicts_at(memories, extractions, at) is Ok,
        0 <= k < conflicts_at(memories, extractions, at)->Ok_0.len(),
    ensures
        conflicts_at(memories, extractions, at)->Ok_0[k].status == ConflictStatus::Open,
{
    let conflict = conflicts_at(memories, extractions, at)->Ok_0[k];
    assert(conflicts_at(memories, extractions, at)->Ok_0.contains(conflict));
    conflicts_are_of_two_kinds(memories, extractions, at, conflict);
    let left = duplicates_of(memories);
    let right = exclusives_of(memories, extractions, at)->Ok_0;
    if left.contains(conflict) {
        let i = choose|i: int| 0 <= i < left.len() && left[i] == conflict;
        let content = found_duplicates_say_the_same(memories, i);
    } else {
        let i = choose|i: int| 0 <= i < right.len() && right[i] == conflict;
        let facts = found_facts_exclude_each_other(memories, extractions, at, i);
    }
}

} // verus!
