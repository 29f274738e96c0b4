//! What is promised of tags and of memories that are added.

use vstd::prelude::*;

use crate::frontmatter_laws::{closes_quotes, is_stable_list};
use crate::memory::{
    add_outcome, canonical, created, deduped, has_source_identity, markdown_of, memory_of,
    normal_tags, tag_pieces, with_source_identity, written_tags, InputView, MemoryView,
};
use crate::memory_laws::memory_reads_back;
use crate::order::{
    self, inserted, sorted_by, text_less, text_less_is_irreflexive, text_less_is_total,
    text_less_is_transitive, Ranked,
};
use crate::text::{self, is_space, lemma_index_of, pieces, trimmed};
use crate::text_laws::{pieces_hold_no_separator, trimmed_is_tight, trimmed_of_tight};

verus! {

// Order.

/// Whether no text comes before one that stands in front of it.
pub open spec fn nondecreasing(items: Seq<Seq<char>>) -> bool {
    forall|i: int, j: int|
        0 <= i < j < items.len() ==> !text_less(#[trigger] items[j], #[trigger] items[i])
}

/// Whether each text comes before those behind it.
pub open spec fn strictly_increasing(items: Seq<Seq<char>>) -> bool {
    forall|i: int, j: int|
        0 <= i < j < items.len() ==> text_less(#[trigger] items[i], #[trigger] items[j])
}

pub open spec fn is_text_order(before: spec_fn(Seq<char>, Seq<char>) -> bool) -> bool {
    forall|left: Seq<char>, right: Seq<char>| #[trigger]
        before(left, right) == text_less(left, right)
}

proof fn lemma_inserted_in_place(
    sorted: Seq<Seq<char>>,
    item: Seq<char>,
    before: spec_fn(Seq<char>, Seq<char>) -> bool,
)
    requires
        is_text_order(before),
        nondecreasing(sorted),
    ensures
        nondecreasing(inserted(sorted, item, before)),
        inserted(sorted, item, before).len() == sorted.len() + 1,
        forall|i: int|
            0 <= i <= sorted.len() ==> (#[trigger] inserted(sorted, item, before)[i] == item
                || sorted.contains(inserted(sorted, item, before)[i])),
    decreases sorted.len(),
{
    let result = inserted(sorted, item, before);
    if sorted.len() > 0 && before(item, sorted.last()) {
        let rest = sorted.drop_last();
        let last = sorted.last();
        assert forall|i: int, j: int| 0 <= i < j < rest.len() implies !text_less(
            #[trigger] rest[j],
            #[trigger] rest[i],
        ) by {
            assert(rest[i] == sorted[i] && rest[j] == sorted[j]);
        }
        lemma_inserted_in_place(rest, item, before);
        let inner = inserted(rest, item, before);
        assert(result == inner.push(last));
        assert forall|i: int| 0 <= i < inner.len() implies !text_less(last, #[trigger] inner[i])
            && (inner[i] == item || sorted.contains(inner[i])) by {
            if inner[i] == item {
                text_less_is_total(item, last);
                text_less_is_irreflexive(item);
            } else {
                let k = choose|k: int| 0 <= k < rest.len() && rest[k] == inner[i];
                assert(sorted[k] == inner[i]);
                assert(sorted[sorted.len() - 1] == last);
            }
        }
        assert forall|i: int, j: int| 0 <= i < j < result.len() implies !text_less(
            #[trigger] result[j],
            #[trigger] result[i],
        ) by {
            assert(result[i] == inner[i]);
            if j < inner.len() {
                assert(result[j] == inner[j]);
            }
        }
        assert forall|i: int| 0 <= i <= sorted.len() implies (#[trigger] result[i] == item
            || sorted.contains(result[i])) by {
            if i < inner.len() {
                assert(result[i] == inner[i]);
            } else {
                assert(sorted[sorted.len() - 1] == last);
            }
        }
    } else {
        assert(result == sorted.push(item));
        assert forall|i: int| 0 <= i < sorted.len() implies !text_less(item, #[trigger] sorted[i]) by {
            let last = sorted.last();
            assert(sorted[sorted.len() - 1] == last);
            if text_less(item, sorted[i]) && sorted[i] != last {
                assert(!text_less(last, sorted[i]));
                text_less_is_total(sorted[i], last);
                text_less_is_transitive(item, sorted[i], last);
            }
        }
        assert forall|i: int, j: int| 0 <= i < j < result.len() implies !text_less(
            #[trigger] result[j],
            #[trigger] result[i],
        ) by {
            assert(result[i] == sorted[i]);
            if j < sorted.len() {
                assert(result[j] == sorted[j]);
            }
        }
        assert forall|i: int| 0 <= i <= sorted.len() implies (#[trigger] result[i] == item
            || sorted.contains(result[i])) by {
            if i < sorted.len() {
                assert(result[i] == sorted[i]);
            }
        }
    }
}

proof fn lemma_sorted_texts(
    items: Seq<Seq<char>>,
    before: spec_fn(Seq<char>, Seq<char>) -> bool,
)
    requires
        is_text_order(before),
    ensures
        nondecreasing(sorted_by(items, before)),
    decreases items.len(),
{
    if items.len() > 0 {
        lemma_sorted_texts(items.drop_last(), before);
        lemma_inserted_in_place(sorted_by(items.drop_last(), before), items.last(), before);
    }
}

proof fn lemma_sorting_keeps_texts(
    items: Seq<Seq<char>>,
    before: spec_fn(Seq<char>, Seq<char>) -> bool,
)
    requires
        is_text_order(before),
        strictly_increasing(items),
    ensures
        sorted_by(items, before) == items,
    decreases items.len(),
{
    if items.len() > 0 {
        let rest = items.drop_last();
        assert forall|i: int, j: int| 0 <= i < j < rest.len() implies text_less(
            #[trigger] rest[i],
            #[trigger] rest[j],
        ) by {
            assert(rest[i] == items[i] && rest[j] == items[j]);
        }
        lemma_sorting_keeps_texts(rest, before);
        if rest.len() > 0 {
            assert(rest.last() == items[items.len() - 2]);
            assert(items.last() == items[items.len() - 1]);
            text_less_is_total(items.last(), rest.last());
            text_less_is_irreflexive(items.last());
        }
        assert(rest.push(items.last()) =~= items);
    }
}

proof fn lemma_deduped(items: Seq<Seq<char>>)
    requires
        nondecreasing(items),
    ensures
        strictly_increasing(deduped(items)),
        items.len() > 0 ==> deduped(items).len() > 0 && deduped(items).last() == items.last(),
        forall|i: int| 0 <= i < deduped(items).len() ==> items.contains(#[trigger] deduped(items)[i]),
    decreases items.len(),
{
    if items.len() == 1 {
        assert(deduped(items)[0] == items[0]);
    } else if items.len() > 1 {
        let rest = items.drop_last();
        assert forall|i: int, j: int| 0 <= i < j < rest.len() implies !text_less(
            #[trigger] rest[j],
            #[trigger] rest[i],
        ) by {
            assert(rest[i] == items[i] && rest[j] == items[j]);
        }
        lemma_deduped(rest);
        let before = deduped(rest);
        let result = deduped(items);
        let last = items.last();
        assert(rest.last() == items[items.len() - 2]);
        assert(last == items[items.len() - 1]);
        assert forall|i: int| 0 <= i < before.len() implies items.contains(#[trigger] before[i]) by {
            let k = choose|k: int| 0 <= k < rest.len() && rest[k] == before[i];
            assert(items[k] == before[i]);
        }
        if last != rest.last() {
            text_less_is_total(rest.last(), last);
            assert(text_less(rest.last(), last));
            assert forall|i: int, j: int| 0 <= i < j < result.len() implies text_less(
                #[trigger] result[i],
                #[trigger] result[j],
            ) by {
                assert(result[i] == before[i]);
                if j < before.len() {
                    assert(result[j] == before[j]);
                } else if i < before.len() - 1 {
                    assert(before[before.len() - 1] == rest.last());
                    text_less_is_transitive(before[i], rest.last(), last);
                }
            }
            assert forall|i: int| 0 <= i < result.len() implies items.contains(
                #[trigger] result[i],
            ) by {
                if i < before.len() {
                    assert(result[i] == before[i]);
                } else {
                    assert(items[items.len() - 1] == last);
                }
            }
        }
    }
}

proof fn lemma_deduped_keeps(items: Seq<Seq<char>>)
    requires
        strictly_increasing(items),
    ensures
        deduped(items) == items,
    decreases items.len(),
{
    if items.len() > 1 {
        let rest = items.drop_last();
        assert forall|i: int, j: int| 0 <= i < j < rest.len() implies text_less(
            #[trigger] rest[i],
            #[trigger] rest[j],
        ) by {
            assert(rest[i] == items[i] && rest[j] == items[j]);
        }
        lemma_deduped_keeps(rest);
        assert(text_less(items[items.len() - 2], items[items.len() - 1]));
        text_less_is_irreflexive(items.last());
        assert(rest.push(items.last()) =~= items);
    }
}

// Tags.

/// Whether a text is a tag as it is kept: something, without white space around
/// it, and without a comma.
pub open spec fn is_tag(tag: Seq<char>) -> bool {
    &&& tag.len() > 0
    &&& !is_space(tag[0])
    &&& !is_space(tag.last())
    &&& !tag.contains(',')
}

proof fn lemma_trimmed_is_part(value: Seq<char>, c: char)
    requires
        !value.contains(c),
    ensures
        !trimmed(value).contains(c),
{
    text::lemma_trimmed_start(value);
    let start = text::trimmed_start(value);
    text::lemma_trimmed_end(start);
    let inner = trimmed(value);
    assert forall|i: int| 0 <= i < inner.len() implies inner[i] != c by {
        assert(inner[i] == start[i]);
        assert(start[i] == value[value.len() - start.len() + i]);
    }
}

proof fn lemma_tag_pieces(parts: Seq<Seq<char>>)
    requires
        forall|i: int| 0 <= i < parts.len() ==> !(#[trigger] parts[i]).contains(','),
    ensures
        forall|i: int| 0 <= i < tag_pieces(parts).len() ==> is_tag(#[trigger] tag_pieces(parts)[i]),
    decreases parts.len(),
{
    if parts.len() > 0 {
        let rest = parts.drop_last();
        assert forall|i: int| 0 <= i < rest.len() implies !(#[trigger] rest[i]).contains(',') by {
            assert(rest[i] == parts[i]);
        }
        lemma_tag_pieces(rest);
        assert(!parts[parts.len() - 1].contains(','));
        lemma_trimmed_is_part(parts.last(), ',');
        trimmed_is_tight(parts.last());
        let before = tag_pieces(rest);
        assert forall|i: int| 0 <= i < tag_pieces(parts).len() implies is_tag(
            #[trigger] tag_pieces(parts)[i],
        ) by {
            if i < before.len() {
                assert(tag_pieces(parts)[i] == before[i]);
            }
        }
    }
}

proof fn lemma_written_tags(tags: Seq<Seq<char>>)
    ensures
        forall|i: int|
            0 <= i < written_tags(tags).len() ==> is_tag(#[trigger] written_tags(tags)[i]),
    decreases tags.len(),
{
    if tags.len() > 0 {
        lemma_written_tags(tags.drop_last());
        let parts = pieces(tags.last(), ',');
        pieces_hold_no_separator(tags.last(), ',');
        lemma_tag_pieces(parts);
        let before = written_tags(tags.drop_last());
        assert forall|i: int| 0 <= i < written_tags(tags).len() implies is_tag(
            #[trigger] written_tags(tags)[i],
        ) by {
            if i < before.len() {
                assert(written_tags(tags)[i] == before[i]);
            } else {
                assert(written_tags(tags)[i] == tag_pieces(parts)[i - before.len()]);
            }
        }
    }
}

proof fn lemma_written_tags_of_tags(tags: Seq<Seq<char>>)
    requires
        forall|i: int| 0 <= i < tags.len() ==> is_tag(#[trigger] tags[i]),
    ensures
        written_tags(tags) == tags,
    decreases tags.len(),
{
    if tags.len() > 0 {
        let rest = tags.drop_last();
        let tag = tags.last();
        assert forall|i: int| 0 <= i < rest.len() implies is_tag(#[trigger] rest[i]) by {
            assert(rest[i] == tags[i]);
        }
        lemma_written_tags_of_tags(rest);
        assert(is_tag(tags[tags.len() - 1]));
        lemma_index_of(tag, ',');
        assert(pieces(tag, ',') =~= seq![tag]);
        trimmed_of_tight(tag);
        assert(seq![tag].drop_last() =~= seq![]);
        assert(tag_pieces(seq![tag].drop_last()) =~= seq![]);
        assert(tag_pieces(seq![tag]) =~= seq![tag]);
        assert(rest + seq![tag] =~= tags);
    }
}

/// The tags of a memory go up, each is there once, and each is a tag.
pub proof fn tags_are_in_order(tags: Seq<Seq<char>>)
    ensures
        strictly_increasing(normal_tags(tags)),
        forall|i: int| 0 <= i < normal_tags(tags).len() ==> is_tag(#[trigger] normal_tags(tags)[i]),
{
    let less = |left: Seq<char>, right: Seq<char>| String::ranks_before(left, right);
    let written = written_tags(tags);
    let sorted = sorted_by(written, less);
    lemma_written_tags(tags);
    lemma_sorted_texts(written, less);
    order::lemma_sorted_members(written, less);
    assert(order::ranked::<String>(written) == sorted);
    lemma_deduped(sorted);
    assert forall|i: int| 0 <= i < normal_tags(tags).len() implies is_tag(
        #[trigger] normal_tags(tags)[i],
    ) by {
        let tag = normal_tags(tags)[i];
        assert(sorted.contains(tag));
        assert(written.contains(tag));
        let k = choose|k: int| 0 <= k < written.len() && written[k] == tag;
        assert(is_tag(written[k]));
    }
}

/// Tags that are kept are not changed by being kept again.
pub proof fn tags_are_settled(tags: Seq<Seq<char>>)
    ensures
        normal_tags(normal_tags(tags)) == normal_tags(tags),
{
    let less = |left: Seq<char>, right: Seq<char>| String::ranks_before(left, right);
    let normal = normal_tags(tags);
    tags_are_in_order(tags);
    lemma_written_tags_of_tags(normal);
    lemma_sorting_keeps_texts(normal, less);
    assert(order::ranked::<String>(normal) == sorted_by(normal, less));
    lemma_deduped_keeps(normal);
}

// Adding.

/// Whether no tag but the last leaves a quote open.
pub open spec fn tags_close_quotes(tags: Seq<Seq<char>>) -> bool {
    forall|i: int| 0 <= i < tags.len() - 1 ==> closes_quotes(#[trigger] tags[i])
}

/// A memory that was made is read back from its file as it was made, with its
/// body in canonical form; where no tag but the last leaves a quote open.
pub proof fn made_memory_reads_back(
    input: InputView,
    id: Seq<char>,
    now: Seq<char>,
    path: Seq<char>,
)
    requires
        created(input, id, now) is Ok,
        trimmed(id).len() > 0,
        tags_close_quotes(normal_tags(input.tags)),
    ensures
        memory_of(markdown_of(created(input, id, now)->Ok_0), path) == Ok::<_, Seq<char>>(
            MemoryView {
                body: canonical(input.body),
                path: Some(path),
                ..created(input, id, now)->Ok_0
            },
        ),
{
    tags_are_in_order(input.tags);
    let tags = normal_tags(input.tags);
    assert forall|i: int| 0 <= i < tags.len() implies (#[trigger] tags[i]).len() > 0 by {
        assert(is_tag(tags[i]));
    }
    assert(is_stable_list(tags));
    memory_reads_back(created(input, id, now)->Ok_0, path);
}

/// Adding again what was added under a source identity finds it there: where its
/// file gives back its tags, no other memory has the identity, and normalising
/// the line ends of the body once more changes nothing.
pub proof fn adding_again_finds_it(
    input: InputView,
    id: Seq<char>,
    now: Seq<char>,
    path: Seq<char>,
    others: Seq<MemoryView>,
)
    requires
        created(input, id, now) is Ok,
        trimmed(id).len() > 0,
        tags_close_quotes(normal_tags(input.tags)),
        input.source is Some,
        input.source_id is Some,
        canonical(canonical(input.body)) == canonical(input.body),
        forall|i: int|
            0 <= i < others.len() ==> !has_source_identity(
                #[trigger] others[i],
                input.source->Some_0,
                input.source_id->Some_0,
            ),
    ensures
        ({
            let read = memory_of(markdown_of(created(input, id, now)->Ok_0), path)->Ok_0;
            let source = input.source->Some_0;
            let source_id = input.source_id->Some_0;
            add_outcome(
                with_source_identity(others.push(read), source, source_id),
                source,
                source_id,
                input.body,
            ) == Ok::<_, Seq<char>>(Some(id))
        }),
{
    made_memory_reads_back(input, id, now, path);
    let read = memory_of(markdown_of(created(input, id, now)->Ok_0), path)->Ok_0;
    let source = input.source->Some_0;
    let source_id = input.source_id->Some_0;
    lemma_no_identity(others, source, source_id);
    let all = others.push(read);
    reveal(Seq::filter);
    assert(all.drop_last() =~= others);
    assert(with_source_identity(all, source, source_id) =~= seq![read]);
}

proof fn lemma_no_identity(memories: Seq<MemoryView>, source: Seq<char>, source_id: Seq<char>)
    requires
        forall|i: int|
            0 <= i < memories.len() ==> !has_source_identity(
                #[trigger] memories[i],
                source,
                source_id,
            ),
    ensures
        with_source_identity(memories, source, source_id) == Seq::<MemoryView>::empty(),
    decreases memories.len(),
{
    reveal(Seq::filter);
    if memories.len() > 0 {
        let rest = memories.drop_last();
        assert forall|i: int| 0 <= i < rest.len() implies !has_source_identity(
            #[trigger] rest[i],
            source,
            source_id,
        ) by {
            assert(rest[i] == memories[i]);
        }
        lemma_no_identity(rest, source, source_id);
        assert(!has_source_identity(memories[memories.len() - 1], source, source_id));
    }
}

} // verus!
