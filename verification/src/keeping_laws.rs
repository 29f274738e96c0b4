//! What is kept of a memory: which are listed and found, and what changes when
//! one is made, changed, promoted or deleted.

use vstd::prelude::*;

use crate::memory::{
    add_outcome, better, canonical, created, deduped, exact_matches, file_of, first_heading,
    fresh_id, is_deleted, is_found, is_only_best, listed, match_rank, normal_tags, on_one_line,
    padded, prefix_matches, promoted, tag_pieces, title_of, updated_body, written_tags, zeros,
    InputView, Memory, MemoryFilter, MemoryStatus, MemoryType, MemoryView, MetadataView,
};
use crate::numeral::{decimal, decimal_reads_back, is_digit, number_of};
use crate::order::{self, text_less, Ranked};
use crate::order_laws::{filtering_keeps_what_is_wanted, is_ranking, sorting_puts_in_rank};
use crate::path::{below, stem_of};
use crate::text::{
    index_of, is_space, joined, lemma_index_of_is, line_seq, pieces, trimmed, trimmed_end,
    trimmed_start, words,
};
use crate::workspace::PathState;

verus! {

// Blank texts.

proof fn lemma_blank_start(value: Seq<char>)
    ensures
        trimmed_start(value).len() == 0 <==> forall|i: int|
            0 <= i < value.len() ==> is_space(#[trigger] value[i]),
    decreases value.len(),
{
    if value.len() > 0 && is_space(value[0]) {
        let rest = value.drop_first();
        lemma_blank_start(rest);
        if trimmed_start(value).len() == 0 {
            assert forall|i: int| 0 <= i < value.len() implies is_space(#[trigger] value[i]) by {
                if i > 0 {
                    assert(rest[i - 1] == value[i]);
                }
            }
        }
        if forall|i: int| 0 <= i < value.len() ==> is_space(#[trigger] value[i]) {
            assert forall|i: int| 0 <= i < rest.len() implies is_space(#[trigger] rest[i]) by {
                assert(rest[i] == value[i + 1]);
            }
        }
    }
}

proof fn lemma_end_stays(value: Seq<char>)
    requires
        value.len() > 0,
        !is_space(value[0]),
    ensures
        trimmed_end(value).len() > 0,
    decreases value.len(),
{
    if is_space(value.last()) {
        assert(value.drop_last().len() > 0);
        assert(value.drop_last()[0] == value[0]);
        lemma_end_stays(value.drop_last());
    }
}

/// Nothing is left of a text exactly where it is all white space.
pub proof fn blank_texts_are_white(value: Seq<char>)
    ensures
        trimmed(value).len() == 0 <==> forall|i: int|
            0 <= i < value.len() ==> is_space(#[trigger] value[i]),
{
    lemma_blank_start(value);
    crate::text::lemma_trimmed_start(value);
    let start = trimmed_start(value);
    if start.len() > 0 {
        lemma_end_stays(start);
    }
}

// Listing.

/// Whether a memory is one that a listing asks for: it is active, unless others
/// are wanted too, and has the type, the scope, the kind and the tag that were
/// asked for.
pub open spec fn is_asked_for(memory: MemoryView, filter: &MemoryFilter) -> bool {
    &&& memory.metadata.status == MemoryStatus::Active || filter.include_archived
    &&& filter.memory_type is None || filter.memory_type == Some(memory.metadata.memory_type)
    &&& filter.scope is None || filter.scope == Some(memory.metadata.scope)
    &&& filter.kind is None || filter.kind == Some(memory.metadata.kind)
    &&& filter.tag is None || exists|i: int|
        0 <= i < memory.metadata.tags.len() && #[trigger] memory.metadata.tags[i]
            == filter.tag->Some_0@
}

proof fn lemma_accepts(memory: MemoryView, filter: &MemoryFilter)
    ensures
        filter.accepts(memory) == is_asked_for(memory, filter),
{
    if filter.tag is Some {
        let tag = filter.tag->Some_0@;
        if memory.metadata.tags.contains(tag) {
            let i = choose|i: int|
                0 <= i < memory.metadata.tags.len() && memory.metadata.tags[i] == tag;
            assert(memory.metadata.tags[i] == tag);
        }
    }
}

/// A listing holds exactly the memories that are asked for.
pub proof fn listings_hold_what_is_asked_for(
    memories: Seq<MemoryView>,
    filter: &MemoryFilter,
    memory: MemoryView,
)
    ensures
        listed(memories, filter).contains(memory) <==> memories.contains(memory) && is_asked_for(
            memory,
            filter,
        ),
{
    let wanted = |memory: MemoryView| filter.accepts(memory);
    let before = |left: MemoryView, right: MemoryView| Memory::ranks_before(left, right);
    filtering_keeps_what_is_wanted(memories, wanted);
    order::lemma_sorted_members(memories.filter(wanted), before);
    lemma_accepts(memory, filter);
    assert(memories.filter(wanted).contains(memory) <==> memories.contains(memory) && wanted(
        memory,
    ));
    assert(listed(memories, filter).contains(memory) <==> memories.filter(wanted).contains(
        memory,
    ));
}

proof fn lemma_id_ranks()
    ensures
        is_ranking(|left: MemoryView, right: MemoryView| Memory::ranks_before(left, right)),
{
    let before = |left: MemoryView, right: MemoryView| Memory::ranks_before(left, right);
    assert forall|a: MemoryView, b: MemoryView| #[trigger] before(a, b) implies !before(b, a) by {
        order::text_less_is_total(a.metadata.id, b.metadata.id);
    }
    assert forall|a: MemoryView, b: MemoryView, c: MemoryView|
        !(#[trigger] before(b, a)) && !(#[trigger] before(c, b)) implies !before(c, a) by {
        order::text_less_is_total(b.metadata.id, a.metadata.id);
        order::text_less_is_total(c.metadata.id, b.metadata.id);
        if text_less(c.metadata.id, a.metadata.id) && text_less(a.metadata.id, b.metadata.id) {
            order::text_less_is_transitive(c.metadata.id, a.metadata.id, b.metadata.id);
        }
    }
}

/// How many of the memories are asked for.
pub open spec fn asked_count(memories: Seq<MemoryView>, filter: &MemoryFilter) -> nat
    decreases memories.len(),
{
    if memories.len() == 0 {
        0
    } else {
        asked_count(memories.drop_last(), filter) + if is_asked_for(memories.last(), filter) {
            1nat
        } else {
            0nat
        }
    }
}

proof fn lemma_asked_count(memories: Seq<MemoryView>, filter: &MemoryFilter)
    ensures
        memories.filter(|memory: MemoryView| filter.accepts(memory)).len() == asked_count(
            memories,
            filter,
        ),
    decreases memories.len(),
{
    reveal(Seq::filter);
    if memories.len() > 0 {
        lemma_asked_count(memories.drop_last(), filter);
        lemma_accepts(memories.last(), filter);
    }
}

/// A listing stands in the order of the ids, with as many memories as are asked
/// for.
pub proof fn listings_go_by_id(memories: Seq<MemoryView>, filter: &MemoryFilter)
    ensures
        listed(memories, filter).len() == asked_count(memories, filter),
        forall|i: int, j: int|
            0 <= i < j < listed(memories, filter).len() ==> !text_less(
                (#[trigger] listed(memories, filter)[j]).metadata.id,
                (#[trigger] listed(memories, filter)[i]).metadata.id,
            ),
{
    let wanted = |memory: MemoryView| filter.accepts(memory);
    let before = |left: MemoryView, right: MemoryView| Memory::ranks_before(left, right);
    lemma_id_ranks();
    lemma_asked_count(memories, filter);
    sorting_puts_in_rank(memories.filter(wanted), before);
    let all = listed(memories, filter);
    assert forall|i: int, j: int| 0 <= i < j < all.len() implies !text_less(
        (#[trigger] all[j]).metadata.id,
        (#[trigger] all[i]).metadata.id,
    ) by {
        assert(!before(all[j], all[i]));
    }
}

// Finding.

proof fn lemma_matches(memories: Seq<MemoryView>, id: Seq<char>)
    ensures
        forall|m: MemoryView| #[trigger]
            exact_matches(memories, id).contains(m) <==> memories.contains(m) && m.metadata.id
                == id,
        forall|m: MemoryView| #[trigger]
            prefix_matches(memories, id).contains(m) <==> memories.contains(m) && m.metadata.id
                != id && id.is_prefix_of(m.metadata.id),
{
    let same = |memory: MemoryView| memory.metadata.id == id;
    let begins = |memory: MemoryView|
        memory.metadata.id != id && id.is_prefix_of(memory.metadata.id);
    filtering_keeps_what_is_wanted(memories, same);
    filtering_keeps_what_is_wanted(memories, begins);
    assert forall|m: MemoryView| #[trigger]
        exact_matches(memories, id).contains(m) <==> memories.contains(m) && m.metadata.id == id by {
        assert(memories.filter(same).contains(m) <==> memories.contains(m) && same(m));
    }
    assert forall|m: MemoryView| #[trigger]
        prefix_matches(memories, id).contains(m) <==> memories.contains(m) && m.metadata.id != id
            && id.is_prefix_of(m.metadata.id) by {
        assert(memories.filter(begins).contains(m) <==> memories.contains(m) && begins(m));
    }
}

/// What is found is one of the memories, and its id is the text that was given
/// or begins with it; a memory with that very id goes before all others, and of
/// those an active one before others.
pub proof fn what_is_found_was_meant(memories: Seq<MemoryView>, id: Seq<char>, found: MemoryView)
    requires
        is_found(memories, id, Ok::<_, Seq<char>>(found)),
    ensures
        memories.contains(found),
        id.is_prefix_of(found.metadata.id),
        forall|m: MemoryView| #[trigger] memories.contains(m) && m.metadata.id == id
            ==> found.metadata.id == id && (m.metadata.status == MemoryStatus::Active
            ==> found.metadata.status == MemoryStatus::Active && (m.path is Some && stem_of(
            m.path->Some_0,
        ) == Some(id) ==> found.path is Some && stem_of(found.path->Some_0) == Some(id))),
        found.metadata.id != id ==> forall|m: MemoryView| #[trigger]
            memories.contains(m) && id.is_prefix_of(m.metadata.id) ==> m == found,
{
    let exact = exact_matches(memories, id);
    let prefixed = prefix_matches(memories, id);
    lemma_matches(memories, id);
    assert(id.is_prefix_of(id)) by {
        assert(id.subrange(0, id.len() as int) =~= id);
    }
    if exact.len() > 0 {
        let at = choose|at: int| #[trigger] is_only_best(exact, id, at) && exact[at] == found;
        assert(exact.contains(exact[at]));
        assert forall|m: MemoryView| #[trigger] memories.contains(m) && m.metadata.id
            == id implies found.metadata.id == id && (m.metadata.status == MemoryStatus::Active
            ==> found.metadata.status == MemoryStatus::Active && (m.path is Some && stem_of(
            m.path->Some_0,
        ) == Some(id) ==> found.path is Some && stem_of(found.path->Some_0) == Some(id))) by {
            assert(exact.contains(m));
            let i = choose|i: int| 0 <= i < exact.len() && exact[i] == m;
            assert(!better(match_rank(exact[i], id), match_rank(exact[at], id)));
        }
    } else {
        assert(prefixed.contains(prefixed[0]));
        assert forall|m: MemoryView| #[trigger] memories.contains(m) implies m.metadata.id != id by {
            if m.metadata.id == id {
                assert(exact.contains(m));
                let i = choose|i: int| 0 <= i < exact.len() && exact[i] == m;
            }
        }
        assert forall|m: MemoryView| #[trigger] memories.contains(m) && id.is_prefix_of(
            m.metadata.id,
        ) implies m == found by {
            assert(prefixed.contains(m));
            let i = choose|i: int| 0 <= i < prefixed.len() && prefixed[i] == m;
        }
    }
}

/// Where no id begins with the text nothing is found, and where two do and none
/// is that text nothing is found either.
pub proof fn unclear_ids_find_nothing(
    memories: Seq<MemoryView>,
    id: Seq<char>,
    found: Result<MemoryView, Seq<char>>,
)
    requires
        is_found(memories, id, found),
    ensures
        (forall|m: MemoryView| #[trigger]
            memories.contains(m) ==> !id.is_prefix_of(m.metadata.id)) ==> found is Err,
        (exists|a: MemoryView, b: MemoryView|
            #![trigger memories.contains(a), memories.contains(b)]
            memories.contains(a) && memories.contains(b) && a != b && id.is_prefix_of(
                a.metadata.id,
            ) && id.is_prefix_of(b.metadata.id)) && (forall|m: MemoryView| #[trigger]
            memories.contains(m) ==> m.metadata.id != id) ==> found is Err,
        (exists|i: int|
            0 <= i < memories.len() && id.is_prefix_of((#[trigger] memories[i]).metadata.id)
                && memories[i].metadata.id != id && forall|j: int|
                0 <= j < memories.len() && j != i ==> !id.is_prefix_of(
                    (#[trigger] memories[j]).metadata.id,
                )) ==> found is Ok,
{
    if let Ok(memory) = found {
        what_is_found_was_meant(memories, id, memory);
    }
    if exists|i: int|
        0 <= i < memories.len() && id.is_prefix_of((#[trigger] memories[i]).metadata.id)
            && memories[i].metadata.id != id && forall|j: int|
            0 <= j < memories.len() && j != i ==> !id.is_prefix_of(
                (#[trigger] memories[j]).metadata.id,
            ) {
        let at = choose|i: int|
            0 <= i < memories.len() && id.is_prefix_of((#[trigger] memories[i]).metadata.id)
                && memories[i].metadata.id != id && forall|j: int|
                0 <= j < memories.len() && j != i ==> !id.is_prefix_of(
                    (#[trigger] memories[j]).metadata.id,
                );
        lemma_one_prefix(memories, id, at);
        lemma_matches(memories, id);
        let exact = exact_matches(memories, id);
        if exact.len() > 0 {
            assert(exact.contains(exact[0]));
            let j = choose|j: int| 0 <= j < memories.len() && memories[j] == exact[0];
            assert(id.subrange(0, id.len() as int) =~= id);
            assert(id.is_prefix_of(memories[j].metadata.id));
        }
    }
}

proof fn lemma_one_prefix(memories: Seq<MemoryView>, id: Seq<char>, at: int)
    requires
        0 <= at < memories.len(),
        id.is_prefix_of(memories[at].metadata.id),
        memories[at].metadata.id != id,
        forall|j: int|
            0 <= j < memories.len() && j != at ==> !id.is_prefix_of(
                (#[trigger] memories[j]).metadata.id,
            ),
    ensures
        prefix_matches(memories, id).len() == 1,
    decreases memories.len(),
{
    reveal(Seq::filter);
    let rest = memories.drop_last();
    if at == memories.len() - 1 {
        assert(prefix_matches(rest, id).len() == 0) by {
            lemma_matches(rest, id);
            let none = prefix_matches(rest, id);
            if none.len() > 0 {
                assert(none.contains(none[0]));
                let j = choose|j: int| 0 <= j < rest.len() && rest[j] == none[0];
                assert(memories[j] == rest[j]);
            }
        }
    } else {
        assert forall|j: int| 0 <= j < rest.len() && j != at implies !id.is_prefix_of(
            (#[trigger] rest[j]).metadata.id,
        ) by {
            assert(memories[j] == rest[j]);
        }
        lemma_one_prefix(rest, id, at);
        assert(!id.is_prefix_of(memories[memories.len() - 1].metadata.id));
    }
}

// Deleting.

/// What is deleted was meant, and says what it said: one that is archived is
/// that and nothing else, one that goes for good is as it was, and what others
/// supersede does not go for good.
pub proof fn deleting_takes_what_was_meant(
    memories: Seq<MemoryView>,
    id: Seq<char>,
    state: PathState,
    hard: bool,
    now: Seq<char>,
    deleted: MemoryView,
)
    requires
        is_deleted(memories, id, state, hard, now, Ok::<_, Seq<char>>(deleted)),
    ensures
        state != PathState::Symlink,
        exists|memory: MemoryView| #[trigger]
            memories.contains(memory) && {
                &&& id.is_prefix_of(memory.metadata.id)
                &&& deleted.metadata.id == memory.metadata.id
                &&& deleted.body == memory.body
                &&& deleted.path == memory.path
                &&& hard ==> deleted == memory && memory.metadata.status
                    != MemoryStatus::Superseded
                &&& !hard ==> deleted.metadata == (MetadataView {
                    status: MemoryStatus::Archived,
                    updated_at: now,
                    ..memory.metadata
                })
            },
{
    let found = choose|found: Result<MemoryView, Seq<char>>| #[trigger]
        is_found(memories, id, found) && (match found {
            Err(_) => false,
            Ok(memory) => deleted.metadata.id == memory.metadata.id && deleted.body == memory.body
                && deleted.path == memory.path && (hard ==> deleted == memory
                && memory.metadata.status != MemoryStatus::Superseded) && (!hard
                ==> deleted.metadata == (MetadataView {
                status: MemoryStatus::Archived,
                updated_at: now,
                ..memory.metadata
            })),
        });
    what_is_found_was_meant(memories, id, found->Ok_0);
}

/// A memory that is found, and whose file is no link, can be archived; it can go
/// for good unless it is superseded.
pub proof fn found_memories_can_be_deleted(
    memories: Seq<MemoryView>,
    id: Seq<char>,
    state: PathState,
    hard: bool,
    now: Seq<char>,
    memory: MemoryView,
    deleted: Result<MemoryView, Seq<char>>,
)
    requires
        is_found(memories, id, Ok::<_, Seq<char>>(memory)),
        state != PathState::Symlink,
        hard ==> memory.metadata.status != MemoryStatus::Superseded,
        is_deleted(memories, id, state, hard, now, deleted),
    ensures
        deleted is Ok,
{
    let found = choose|found: Result<MemoryView, Seq<char>>| #[trigger]
        is_found(memories, id, found) && (deleted is Err ==> match found {
            Err(_) => true,
            Ok(other) => hard && other.metadata.status == MemoryStatus::Superseded,
        });
    crate::memory_laws::what_is_found_is_determined(memories, id, Ok(memory), found);
}

// Making.

/// A memory is made exactly where it says something, and its origin and its tags
/// stay on one line; it is active, new, and holds what it was made from.
pub proof fn made_memories_hold_what_was_given(input: InputView, id: Seq<char>, now: Seq<char>)
    ensures
        ({
            let broken = |value: Seq<char>| value.contains('\n') || value.contains('\r');
            match created(input, id, now) {
                Ok(memory) => {
                    &&& exists|i: int| 0 <= i < input.body.len() && !is_space(#[trigger] input.body[i])
                    &&& input.source_id matches Some(origin) ==> !broken(origin)
                    &&& memory.metadata.tags == normal_tags(input.tags)
                    &&& forall|i: int|
                        0 <= i < memory.metadata.tags.len() ==> !broken(
                            #[trigger] memory.metadata.tags[i],
                        )
                    &&& memory.metadata.id == id
                    &&& memory.metadata.status == MemoryStatus::Active
                    &&& memory.metadata.created_at == now
                    &&& memory.metadata.updated_at == now
                    &&& memory.metadata.memory_type == input.memory_type
                    &&& memory.metadata.scope == input.scope
                    &&& memory.metadata.kind == input.kind
                    &&& memory.metadata.source == input.source
                    &&& memory.metadata.source_id == input.source_id
                    &&& memory.metadata.agent == input.agent
                    &&& memory.metadata.session == input.session
                    &&& memory.metadata.title is None
                    &&& memory.metadata.confidence == Some("1.0"@)
                    &&& memory.metadata.promoted_from is None
                    &&& memory.metadata.supersedes.len() == 0
                    &&& memory.body == input.body
                    &&& memory.path is None
                },
                Err(_) => {
                    ||| forall|i: int|
                        0 <= i < input.body.len() ==> is_space(#[trigger] input.body[i])
                    ||| input.source_id matches Some(origin) && broken(origin)
                    ||| exists|i: int|
                        0 <= i < normal_tags(input.tags).len() && broken(
                            #[trigger] normal_tags(input.tags)[i],
                        )
                },
            }
        }),
{
    blank_texts_are_white(input.body);
    let tags = normal_tags(input.tags);
    if exists|i: int| 0 <= i < tags.len() && !on_one_line(#[trigger] tags[i]) {
        let i = choose|i: int| 0 <= i < tags.len() && !on_one_line(#[trigger] tags[i]);
        assert(tags[i].contains('\n') || tags[i].contains('\r'));
    }
}

/// Whether a tag is written in one of the texts, between commas.
pub open spec fn is_written(tags: Seq<Seq<char>>, tag: Seq<char>) -> bool {
    tag.len() > 0 && exists|i: int, k: int|
        0 <= i < tags.len() && 0 <= k < pieces(tags[i], ',').len() && trimmed(
            #[trigger] pieces(tags[i], ',')[k],
        ) == tag
}

proof fn lemma_tag_pieces(parts: Seq<Seq<char>>, tag: Seq<char>)
    ensures
        tag_pieces(parts).contains(tag) <==> tag.len() > 0 && exists|k: int|
            0 <= k < parts.len() && trimmed(#[trigger] parts[k]) == tag,
    decreases parts.len(),
{
    let all = tag_pieces(parts);
    if parts.len() > 0 {
        let rest = parts.drop_last();
        let before = tag_pieces(rest);
        lemma_tag_pieces(rest, tag);
        assert(parts[parts.len() - 1] == parts.last());
        if all.contains(tag) {
            let k = choose|k: int| 0 <= k < all.len() && all[k] == tag;
            if k < before.len() {
                assert(before[k] == tag);
                assert(before.contains(tag));
                let j = choose|j: int| 0 <= j < rest.len() && trimmed(#[trigger] rest[j]) == tag;
                assert(parts[j] == rest[j]);
            }
        }
        if tag.len() > 0 && exists|k: int|
            0 <= k < parts.len() && trimmed(#[trigger] parts[k]) == tag {
            let k = choose|k: int| 0 <= k < parts.len() && trimmed(#[trigger] parts[k]) == tag;
            if k < rest.len() {
                assert(rest[k] == parts[k]);
                let j = choose|j: int| 0 <= j < before.len() && before[j] == tag;
                assert(all[j] == tag);
            } else {
                assert(all[before.len() as int] == tag);
            }
        }
    }
}

proof fn lemma_written(tags: Seq<Seq<char>>, tag: Seq<char>)
    ensures
        written_tags(tags).contains(tag) <==> is_written(tags, tag),
    decreases tags.len(),
{
    let all = written_tags(tags);
    if tags.len() > 0 {
        let rest = tags.drop_last();
        let before = written_tags(rest);
        let added = tag_pieces(pieces(tags.last(), ','));
        lemma_written(rest, tag);
        lemma_tag_pieces(pieces(tags.last(), ','), tag);
        assert(tags[tags.len() - 1] == tags.last());
        if all.contains(tag) {
            let n = choose|n: int| 0 <= n < all.len() && all[n] == tag;
            if n < before.len() {
                assert(before[n] == tag);
                assert(before.contains(tag));
                let (i, k) = choose|i: int, k: int|
                    0 <= i < rest.len() && 0 <= k < pieces(rest[i], ',').len() && trimmed(
                        #[trigger] pieces(rest[i], ',')[k],
                    ) == tag;
                assert(tags[i] == rest[i]);
                assert(trimmed(pieces(tags[i], ',')[k]) == tag);
            } else {
                assert(added[n - before.len()] == tag);
                assert(added.contains(tag));
                let k = choose|k: int|
                    0 <= k < pieces(tags.last(), ',').len() && trimmed(
                        #[trigger] pieces(tags.last(), ',')[k],
                    ) == tag;
                assert(trimmed(pieces(tags[tags.len() - 1], ',')[k]) == tag);
            }
        }
        if is_written(tags, tag) {
            let (i, k) = choose|i: int, k: int|
                0 <= i < tags.len() && 0 <= k < pieces(tags[i], ',').len() && trimmed(
                    #[trigger] pieces(tags[i], ',')[k],
                ) == tag;
            if i < rest.len() {
                assert(rest[i] == tags[i]);
                assert(trimmed(pieces(rest[i], ',')[k]) == tag);
                let n = choose|n: int| 0 <= n < before.len() && before[n] == tag;
                assert(all[n] == tag);
            } else {
                assert(trimmed(pieces(tags.last(), ',')[k]) == tag);
                let n = choose|n: int| 0 <= n < added.len() && added[n] == tag;
                assert(all[before.len() + n] == tag);
            }
        }
    }
}

proof fn lemma_deduped_members(items: Seq<Seq<char>>, item: Seq<char>)
    ensures
        deduped(items).contains(item) <==> items.contains(item),
    decreases items.len(),
{
    if items.len() > 1 {
        let rest = items.drop_last();
        let before = deduped(rest);
        let all = deduped(items);
        lemma_deduped_members(rest, item);
        lemma_deduped_members(rest, items.last());
        if items.contains(item) {
            let i = choose|i: int| 0 <= i < items.len() && items[i] == item;
            if i < rest.len() {
                assert(rest[i] == item);
                let j = choose|j: int| 0 <= j < before.len() && before[j] == item;
                assert(all[j] == item);
            } else if items.last() == items[items.len() - 2] {
                assert(rest[rest.len() - 1] == item);
            } else {
                assert(all[before.len() as int] == item);
            }
        }
        if all.contains(item) {
            let j = choose|j: int| 0 <= j < all.len() && all[j] == item;
            if j < before.len() {
                assert(before[j] == item);
                let i = choose|i: int| 0 <= i < rest.len() && rest[i] == item;
                assert(items[i] == item);
            } else {
                assert(items[items.len() - 1] == item);
            }
        }
    }
}

/// The tags of a memory are those that are written, between commas, in what was
/// given, without the white space around them.
pub proof fn tags_are_those_written(tags: Seq<Seq<char>>, tag: Seq<char>)
    ensures
        normal_tags(tags).contains(tag) <==> is_written(tags, tag),
{
    let less = |left: Seq<char>, right: Seq<char>| String::ranks_before(left, right);
    let written = written_tags(tags);
    lemma_written(tags, tag);
    order::lemma_sorted_members(written, less);
    lemma_deduped_members(order::sorted_by(written, less), tag);
    assert(order::ranked::<String>(written) == order::sorted_by(written, less));
    assert(normal_tags(tags).contains(tag) <==> order::sorted_by(written, less).contains(tag));
}

/// What adding something again comes to: under a source and an id that no memory
/// has, a memory is made; one active memory that has them and says the same is
/// kept; anything else is refused.
pub proof fn adding_again_makes_nothing(
    matches: Seq<MemoryView>,
    source: Seq<char>,
    source_id: Seq<char>,
    body: Seq<char>,
)
    ensures
        match add_outcome(matches, source, source_id, body) {
            Ok(None) => matches.len() == 0,
            Ok(Some(id)) => matches.len() == 1 && matches[0].metadata.id == id
                && matches[0].metadata.status == MemoryStatus::Active && canonical(matches[0].body)
                == canonical(body),
            Err(_) => matches.len() > 1 || (matches.len() == 1 && (matches[0].metadata.status
                != MemoryStatus::Active || canonical(matches[0].body) != canonical(body))),
        },
{
}

// Changing.

/// A replaced body is the new one. What is added stands behind what was said, a
/// blank line between them; neither is lost.
pub proof fn updates_keep_or_replace(old_body: Seq<char>, body: Seq<char>)
    ensures
        updated_body(old_body, body, false) == body,
        trimmed(old_body).is_prefix_of(updated_body(old_body, body, true)),
        trimmed(body).is_suffix_of(updated_body(old_body, body, true)),
        updated_body(old_body, body, true).len() == trimmed(old_body).len() + 2 + trimmed(
            body,
        ).len(),
        updated_body(old_body, body, true)[trimmed(old_body).len() as int] == '\n',
        updated_body(old_body, body, true)[(trimmed(old_body).len() + 1) as int] == '\n',
{
    reveal_strlit("\n\n");
    let old_text = trimmed(old_body);
    let new_text = trimmed(body);
    let all = updated_body(old_body, body, true);
    assert(all.subrange(0, old_text.len() as int) =~= old_text);
    assert(all.subrange(all.len() - new_text.len(), all.len() as int) =~= new_text);
}

/// Promoting makes a long-term memory of an active short-term one, and of no
/// other; it names where it comes from, and says the same unless told otherwise.
pub proof fn promoting_makes_long_memories(
    source: MemoryView,
    body: Option<Seq<char>>,
    id: Seq<char>,
    now: Seq<char>,
)
    ensures
        match promoted(source, body, id, now) {
            Ok(memory) => {
                &&& source.metadata.status == MemoryStatus::Active
                &&& source.metadata.memory_type == MemoryType::Short
                &&& memory.metadata.memory_type == MemoryType::Long
                &&& memory.metadata.status == MemoryStatus::Active
                &&& memory.metadata.id == id
                &&& memory.metadata.promoted_from == Some(source.metadata.id)
                &&& memory.metadata.created_at == now && memory.metadata.updated_at == now
                &&& memory.metadata.scope == source.metadata.scope
                &&& memory.metadata.kind == source.metadata.kind
                &&& memory.metadata.tags == source.metadata.tags
                &&& memory.metadata.title == source.metadata.title
                &&& memory.metadata.agent == source.metadata.agent
                &&& memory.metadata.session == source.metadata.session
                &&& memory.metadata.confidence == source.metadata.confidence
                &&& memory.metadata.source == Some("promote"@)
                &&& memory.metadata.source_id is None
                &&& memory.metadata.supersedes.len() == 0
                &&& body is None ==> memory.body == source.body
                &&& body matches Some(body) ==> memory.body == body
                &&& memory.path is None
            },
            Err(_) => source.metadata.status != MemoryStatus::Active
                || source.metadata.memory_type != MemoryType::Short,
        },
{
}

// Titles and files.

proof fn lemma_heading(lines: Seq<Seq<char>>, at: int)
    requires
        0 <= at <= lines.len(),
        forall|i: int| 0 <= i < at ==> !"# "@.is_prefix_of(#[trigger] lines[i]),
    ensures
        at < lines.len() && "# "@.is_prefix_of(lines[at]) ==> first_heading(lines) == Some(
            trimmed(lines[at].skip(2)),
        ),
        at == lines.len() ==> first_heading(lines) is None,
    decreases at,
{
    if at > 0 {
        let rest = lines.drop_first();
        assert(!"# "@.is_prefix_of(lines[0]));
        assert forall|i: int| 0 <= i < at - 1 implies !"# "@.is_prefix_of(#[trigger] rest[i]) by {
            assert(rest[i] == lines[i + 1]);
        }
        lemma_heading(rest, at - 1);
    }
}

proof fn lemma_first_word(value: Seq<char>)
    ensures
        words(value).len() > 0 ==> words(value)[0].len() > 0,
        words(value).len() == 0 <==> trimmed_start(value).len() == 0,
{
    crate::text::lemma_trimmed_start(value);
    let rest = trimmed_start(value);
    if rest.len() > 0 {
        crate::text::lemma_word_length(rest);
    }
}

/// A memory is called what it was named, else by its first heading, else by its
/// first eight words; one that says nothing has no title of its own.
pub proof fn titles_come_from_the_memory(memory: MemoryView, at: int)
    requires
        0 <= at <= line_seq(memory.body).len(),
        forall|i: int|
            0 <= i < at ==> !"# "@.is_prefix_of(#[trigger] line_seq(memory.body)[i]),
    ensures
        memory.metadata.title matches Some(title) ==> title_of(memory) == title,
        memory.metadata.title is None && at < line_seq(memory.body).len() && "# "@.is_prefix_of(
            line_seq(memory.body)[at],
        ) ==> title_of(memory) == trimmed(line_seq(memory.body)[at].skip(2)),
        memory.metadata.title is None && at == line_seq(memory.body).len() ==> title_of(memory)
            == (if words(memory.body).len() == 0 {
            "Untitled memory"@
        } else if words(memory.body).len() <= 8 {
            joined(words(memory.body), seq![' '])
        } else {
            joined(words(memory.body).take(8), seq![' '])
        }),
{
    lemma_heading(line_seq(memory.body), at);
    let all = words(memory.body);
    let n = if all.len() < 8 {
        all.len() as int
    } else {
        8
    };
    lemma_first_word(memory.body);
    assert(all.take(all.len() as int) =~= all);
    if all.len() > 0 {
        lemma_joined_holds_first(all.take(n), seq![' ']);
        assert(all.take(n)[0] == all[0]);
    } else {
        assert(all.take(n) =~= seq![]);
    }
}

proof fn lemma_joined_holds_first(parts: Seq<Seq<char>>, separator: Seq<char>)
    requires
        parts.len() > 0,
    ensures
        joined(parts, separator).len() >= parts[0].len(),
    decreases parts.len(),
{
    if parts.len() > 1 {
        lemma_joined_holds_first(parts.drop_last(), separator);
        assert(parts.drop_last()[0] == parts[0]);
    }
}

/// A memory is kept where it belongs: in the archive once it is archived, else
/// with the short-term or the long-term memories, in a file named after its id.
pub proof fn memories_are_kept_by_type(root: Seq<char>, metadata: MetadataView)
    requires
        root.len() > 0,
        root.last() != '/',
        metadata.id.len() > 0,
        metadata.id[0] != '/',
    ensures
        metadata.status == MemoryStatus::Archived ==> file_of(root, metadata) == root
            + "/archive/"@ + metadata.id + ".md"@,
        metadata.status != MemoryStatus::Archived && metadata.memory_type == MemoryType::Short
            ==> file_of(root, metadata) == root + "/memories/short/"@ + metadata.id + ".md"@,
        metadata.status != MemoryStatus::Archived && metadata.memory_type == MemoryType::Long
            ==> file_of(root, metadata) == root + "/memories/long/"@ + metadata.id + ".md"@,
{
    reveal_strlit("/");
    reveal_strlit("archive");
    reveal_strlit("/archive/");
    reveal_strlit("memories");
    reveal_strlit("short");
    reveal_strlit("long");
    reveal_strlit("/memories/short/");
    reveal_strlit("/memories/long/");
    reveal_strlit(".md");
    let name = metadata.id + ".md"@;
    assert(name[0] == metadata.id[0]);
    let archive = below(root, "archive"@);
    assert(archive =~= root + "/"@ + "archive"@);
    assert(below(archive, name) =~= root + "/archive/"@ + metadata.id + ".md"@);
    let memories = below(root, "memories"@);
    assert(memories =~= root + "/"@ + "memories"@);
    let short = below(memories, "short"@);
    assert(short =~= memories + "/"@ + "short"@);
    assert(below(short, name) =~= root + "/memories/short/"@ + metadata.id + ".md"@);
    let long = below(memories, "long"@);
    assert(long =~= memories + "/"@ + "long"@);
    assert(below(long, name) =~= root + "/memories/long/"@ + metadata.id + ".md"@);
}

// Ids.

/// Ten, so many times by itself.
spec fn ten_to(width: nat) -> nat
    decreases width,
{
    if width == 0 {
        1
    } else {
        10 * ten_to((width - 1) as nat)
    }
}

proof fn lemma_width(number: nat, width: nat)
    requires
        width > 0,
        number < ten_to(width),
    ensures
        decimal(number).len() <= width,
    decreases width,
{
    if number >= 10 {
        assert(width > 1) by {
            if width == 1 {
                assert(ten_to(1) == 10 * ten_to(0));
            }
        }
        assert(number / 10 < ten_to((width - 1) as nat)) by {
            assert(ten_to(width) == 10 * ten_to((width - 1) as nat));
        }
        lemma_width(number / 10, (width - 1) as nat);
    }
}

proof fn lemma_zeros(count: nat, digits: Seq<char>)
    ensures
        number_of(zeros(count as int) + digits) == number_of(digits),
    decreases digits.len() + count,
{
    let all = zeros(count as int) + digits;
    if digits.len() > 0 {
        assert(all.drop_last() =~= zeros(count as int) + digits.drop_last());
        assert(all.last() == digits.last());
        lemma_zeros(count, digits.drop_last());
    } else if count > 0 {
        assert(all.drop_last() =~= zeros(count - 1) + digits);
        assert(all.last() == '0');
        lemma_zeros((count - 1) as nat, digits);
    } else {
        assert(all =~= digits);
    }
}

proof fn lemma_id_parts(seconds: nat, nanos: nat, process: nat)
    requires
        nanos < 1_000_000_000,
    ensures
        ({
            let id = fresh_id(seconds, nanos, process);
            let n = index_of(id, '-');
            &&& n >= 10
            &&& n < id.len()
            &&& id.skip(n + 1) == decimal(process)
            &&& id.subrange(n - 9, n) == padded(nanos, 9)
            &&& id.subrange(1, n - 9) == decimal(seconds)
        }),
{
    reveal_strlit("m");
    reveal_strlit("-");
    reveal_with_fuel(ten_to, 10);
    lemma_width(nanos, 9);
    decimal_reads_back(seconds);
    decimal_reads_back(nanos);
    decimal_reads_back(process);
    let id = fresh_id(seconds, nanos, process);
    let head = decimal(seconds);
    let middle = padded(nanos, 9);
    assert(middle.len() == 9);
    let n = 1 + head.len() as int + 9;
    assert forall|i: int| 0 <= i < n implies id[i] != '-' by {
        if i == 0 {
            assert(id[0] == 'm');
        } else if i <= head.len() {
            assert(id[i] == head[i - 1]);
            assert(is_digit(head[i - 1]));
        } else {
            assert(id[i] == middle[i - 1 - head.len()]);
            let fill = 9 - decimal(nanos).len();
            if i - 1 - head.len() >= fill {
                assert(middle[i - 1 - head.len()] == decimal(nanos)[i - 1 - head.len() - fill]);
                assert(is_digit(decimal(nanos)[i - 1 - head.len() - fill]));
            }
        }
    }
    assert(id[n] == '-');
    lemma_index_of_is(id, '-', n);
    assert(id.skip(n + 1) =~= decimal(process));
    assert(id.subrange(n - 9, n) =~= middle);
    assert(id.subrange(1, n - 9) =~= head);
}

/// Ids that are made at another time, or by another process, are different.
pub proof fn made_ids_differ(
    seconds: nat,
    nanos: nat,
    process: nat,
    other_seconds: nat,
    other_nanos: nat,
    other_process: nat,
)
    requires
        nanos < 1_000_000_000,
        other_nanos < 1_000_000_000,
        fresh_id(seconds, nanos, process) == fresh_id(other_seconds, other_nanos, other_process),
    ensures
        seconds == other_seconds,
        nanos == other_nanos,
        process == other_process,
{
    reveal_with_fuel(ten_to, 10);
    lemma_id_parts(seconds, nanos, process);
    lemma_id_parts(other_seconds, other_nanos, other_process);
    decimal_reads_back(seconds);
    decimal_reads_back(other_seconds);
    decimal_reads_back(process);
    decimal_reads_back(other_process);
    decimal_reads_back(nanos);
    decimal_reads_back(other_nanos);
    lemma_width(nanos, 9);
    lemma_width(other_nanos, 9);
    lemma_zeros((9 - decimal(nanos).len()) as nat, decimal(nanos));
    lemma_zeros((9 - decimal(other_nanos).len()) as nat, decimal(other_nanos));
}

} // verus!
