//! What is written as a memory is read back, and other facts about memories.

use vstd::prelude::*;

use crate::frontmatter::{
    self, block_text, document_of, field_line, scalar_field, Entry, Field,
};
use crate::frontmatter_laws::{
    are_keyed_entries, are_stable_entries, as_read, document_reads_back, entry_is_found,
    field_reads_back, fields_read_apart, is_key, is_stable_field, is_stable_list, with_entries,
};
use crate::memory::{
    self, canonical, exact_matches, is_deleted, is_found, is_only_best, markdown_of, memory_entries,
    memory_kind_reads_back, memory_of, memory_scope_reads_back, memory_status_reads_back,
    memory_type_reads_back, MemoryView, MetadataView,
};
use crate::text::{
    self, index_of, is_space, joined, lemma_index_of, line_seq, replaced, trimmed, without_return,
};
use crate::text_laws::{
    joined_from_front, trimmed_before_space, trimmed_is_tight, trimmed_of_tight,
};
use crate::workspace::PathState;

verus! {

/// A text with plain line feeds.
pub open spec fn unified(value: Seq<char>) -> Seq<char> {
    replaced(value, "\r\n"@, "\n"@)
}

proof fn lemma_literals()
    ensures
        "\r\n"@ == seq!['\r', '\n'],
        "\n"@ == seq!['\n'],
{
    reveal_strlit("\r\n");
    reveal_strlit("\n");
    assert("\r\n"@ =~= seq!['\r', '\n']);
    assert("\n"@ =~= seq!['\n']);
}

proof fn lemma_unified_without_feed(value: Seq<char>)
    requires
        !value.contains('\n'),
    ensures
        unified(value) == value,
    decreases value.len(),
{
    lemma_literals();
    if value.len() > 0 {
        let rest = value.drop_first();
        if "\r\n"@.is_prefix_of(value) {
            assert(value[1] == '\n');
        }
        assert forall|i: int| 0 <= i < rest.len() implies rest[i] != '\n' by {
            assert(rest[i] == value[i + 1]);
        }
        lemma_unified_without_feed(rest);
        assert(seq![value[0]] + rest =~= value);
    }
}

proof fn lemma_unified_line(value: Seq<char>, n: int)
    requires
        0 <= n < value.len(),
        value[n] == '\n',
        forall|i: int| 0 <= i < n ==> value[i] != '\n',
    ensures
        unified(value) == without_return(value.take(n)) + seq!['\n'] + unified(value.skip(n + 1)),
    decreases n,
{
    lemma_literals();
    let result = without_return(value.take(n)) + seq!['\n'] + unified(value.skip(n + 1));
    if n == 0 {
        assert(!"\r\n"@.is_prefix_of(value));
        assert(value.drop_first() =~= value.skip(1));
        assert(result =~= seq!['\n'] + unified(value.skip(1)));
    } else if n == 1 && value[0] == '\r' {
        assert("\r\n"@.is_prefix_of(value)) by {
            assert(value.take(2) =~= "\r\n"@);
        }
        assert(value.take(1).drop_last() =~= seq![]);
        assert(result =~= seq!['\n'] + unified(value.skip(2)));
    } else {
        assert(!"\r\n"@.is_prefix_of(value)) by {
            if "\r\n"@.is_prefix_of(value) {
                assert(value[0] == '\r' && value[1] == '\n');
            }
        }
        let rest = value.drop_first();
        assert forall|i: int| 0 <= i < n - 1 implies rest[i] != '\n' by {
            assert(rest[i] == value[i + 1]);
        }
        lemma_unified_line(rest, n - 1);
        assert(rest.skip(n) =~= value.skip(n + 1));
        assert(rest.take(n - 1) =~= value.take(n).drop_first());
        assert(without_return(value.take(n)) =~= seq![value[0]] + without_return(
            rest.take(n - 1),
        ));
        assert(result =~= seq![value[0]] + unified(rest));
    }
}

/// Taking a text apart into lines and joining them again gives it with plain
/// line feeds, but for the one at its end.
pub proof fn joined_lines_give_text(value: Seq<char>)
    ensures
        joined(line_seq(value), seq!['\n']) + (if value.len() > 0 && value.last() == '\n' {
            seq!['\n']
        } else {
            seq![]
        }) == unified(value),
        value.len() > 0 ==> line_seq(value).len() > 0,
    decreases value.len(),
{
    lemma_index_of(value, '\n');
    let n = index_of(value, '\n');
    if value.len() == 0 {
        assert(joined(line_seq(value), seq!['\n']) =~= value);
        assert(unified(value) =~= value);
    } else if n == value.len() {
        assert(!value.contains('\n'));
        assert(value.contains(value.last()));
        assert(joined(seq![value], seq!['\n']) == value);
        lemma_unified_without_feed(value);
        assert(value + seq![] =~= value);
    } else {
        let line = without_return(value.take(n));
        let rest = value.skip(n + 1);
        lemma_unified_line(value, n);
        joined_lines_give_text(rest);
        let lines = line_seq(value);
        assert(lines == seq![line] + line_seq(rest));
        if rest.len() == 0 {
            assert(lines =~= seq![line]);
            assert(value.last() == value[n]);
            assert(unified(rest) =~= seq![]);
            assert(line + seq!['\n'] =~= line + seq!['\n'] + unified(rest));
        } else {
            joined_from_front(lines, seq!['\n']);
            assert(lines.drop_first() =~= line_seq(rest));
            assert(value.last() == rest.last());
            let end: Seq<char> = if rest.last() == '\n' {
                seq!['\n']
            } else {
                seq![]
            };
            assert(line + seq!['\n'] + joined(line_seq(rest), seq!['\n']) + end =~= line + seq![
                '\n',
            ] + (joined(line_seq(rest), seq!['\n']) + end));
        }
    }
}

proof fn lemma_canonical_after_space(space: char, value: Seq<char>)
    requires
        is_space(space),
    ensures
        canonical(seq![space] + value) == canonical(value),
{
    lemma_literals();
    let whole = seq![space] + value;
    assert(whole.drop_first() =~= value);
    if "\r\n"@.is_prefix_of(whole) {
        assert(whole[0] == '\r' && whole[1] == '\n');
        assert(value[0] == '\n');
        assert(!"\r\n"@.is_prefix_of(value)) by {
            if "\r\n"@.is_prefix_of(value) {
                assert(value[0] == '\r');
            }
        }
        assert(whole.skip(2) =~= value.drop_first());
        assert(unified(whole) == unified(value));
    } else {
        assert(unified(whole) == seq![space] + unified(value));
        assert((seq![space] + unified(value)).drop_first() =~= unified(value));
    }
}

proof fn lemma_unified_push(value: Seq<char>, c: char)
    ensures
        unified(value.push(c)) == unified(value).push(c) || (c == '\n' && unified(value).len() > 0
            && unified(value).last() == '\r' && unified(value.push(c)) == unified(
            value,
        ).drop_last().push('\n')),
    decreases value.len(),
{
    lemma_literals();
    let longer = value.push(c);
    if value.len() == 0 {
        assert(!"\r\n"@.is_prefix_of(longer));
        assert(longer.drop_first() =~= seq![]);
        assert(unified(longer.drop_first()) =~= seq![]);
        assert(unified(value) =~= seq![]);
        assert(unified(longer) =~= unified(value).push(c));
    } else if "\r\n"@.is_prefix_of(value) {
        assert("\r\n"@.is_prefix_of(longer)) by {
            assert(longer.take(2) =~= value.take(2));
        }
        let rest = value.skip(2);
        assert(longer.skip(2) =~= rest.push(c));
        lemma_unified_push(rest, c);
        if unified(rest.push(c)) == unified(rest).push(c) {
            assert(unified(longer) =~= unified(value).push(c));
        } else {
            assert(unified(value).last() == unified(rest).last());
            assert(unified(longer) =~= unified(value).drop_last().push('\n'));
        }
    } else if value.len() == 1 && value[0] == '\r' && c == '\n' {
        assert("\r\n"@.is_prefix_of(longer)) by {
            assert(longer.take(2) =~= "\r\n"@);
        }
        assert(longer.skip(2) =~= seq![]);
        assert(value.drop_first() =~= seq![]);
        assert(unified(value.drop_first()) =~= seq![]);
        assert(unified(longer.skip(2)) =~= seq![]);
        assert(unified(value) =~= seq!['\r']);
        assert(unified(longer) =~= unified(value).drop_last().push('\n'));
    } else {
        assert(!"\r\n"@.is_prefix_of(longer)) by {
            if "\r\n"@.is_prefix_of(longer) {
                assert(longer[0] == '\r' && longer[1] == '\n');
                if value.len() >= 2 {
                    assert(value.take(2) =~= "\r\n"@);
                }
            }
        }
        let rest = value.drop_first();
        assert(longer.drop_first() =~= rest.push(c));
        lemma_unified_push(rest, c);
        if unified(rest.push(c)) == unified(rest).push(c) {
            assert(unified(longer) =~= unified(value).push(c));
        } else {
            assert(unified(value).last() == unified(rest).last());
            assert(unified(longer) =~= unified(value).drop_last().push('\n'));
        }
    }
}

proof fn lemma_canonical_before_space(value: Seq<char>, space: char)
    requires
        is_space(space),
    ensures
        canonical(value.push(space)) == canonical(value),
{
    lemma_unified_push(value, space);
    let plain = unified(value);
    if unified(value.push(space)) == plain.push(space) {
        trimmed_before_space(plain, space);
    } else {
        trimmed_before_space(plain.drop_last(), '\n');
        trimmed_before_space(plain.drop_last(), '\r');
        assert(plain.drop_last().push('\r') =~= plain);
    }
}

proof fn lemma_canonical_of_start(value: Seq<char>)
    ensures
        canonical(text::trimmed_start(value)) == canonical(value),
    decreases value.len(),
{
    if value.len() > 0 && is_space(value[0]) {
        lemma_canonical_of_start(value.drop_first());
        lemma_canonical_after_space(value[0], value.drop_first());
        assert(seq![value[0]] + value.drop_first() =~= value);
    }
}

proof fn lemma_canonical_of_end(value: Seq<char>)
    ensures
        canonical(text::trimmed_end(value)) == canonical(value),
    decreases value.len(),
{
    if value.len() > 0 && is_space(value.last()) {
        lemma_canonical_of_end(value.drop_last());
        lemma_canonical_before_space(value.drop_last(), value.last());
        assert(value.drop_last().push(value.last()) =~= value);
    }
}

/// White space around a body does not show in its canonical form.
pub proof fn margins_do_not_count(body: Seq<char>)
    ensures
        canonical(trimmed(body)) == canonical(body),
{
    lemma_canonical_of_start(body);
    lemma_canonical_of_end(text::trimmed_start(body));
}

proof fn lemma_not_blank(value: Seq<char>)
    requires
        value.len() > 0,
        !is_space(value[0]),
    ensures
        trimmed(value).len() > 0,
{
    text::lemma_trimmed_end(value);
    assert(text::trimmed_start(value) == value);
    if text::trimmed_end(value).len() == 0 {
        lemma_blank_end(value);
    }
}

proof fn lemma_blank_end(value: Seq<char>)
    requires
        text::trimmed_end(value).len() == 0,
    ensures
        forall|i: int| 0 <= i < value.len() ==> is_space(#[trigger] value[i]),
    decreases value.len(),
{
    if value.len() > 0 {
        lemma_blank_end(value.drop_last());
        assert forall|i: int| 0 <= i < value.len() implies is_space(#[trigger] value[i]) by {
            if i < value.len() - 1 {
                assert(value[i] == value.drop_last()[i]);
            }
        }
    }
}

/// A body that says something says something in its canonical form.
pub proof fn canonical_is_not_blank(body: Seq<char>)
    requires
        trimmed(body).len() > 0,
    ensures
        canonical(body).len() > 0,
        trimmed(canonical(body)) == canonical(body),
{
    lemma_literals();
    margins_do_not_count(body);
    let inner = trimmed(body);
    trimmed_is_tight(body);
    assert(!"\r\n"@.is_prefix_of(inner)) by {
        if "\r\n"@.is_prefix_of(inner) {
            assert(inner[0] == '\r');
        }
    }
    assert(unified(inner)[0] == inner[0]);
    lemma_not_blank(unified(inner));
    trimmed_is_tight(unified(body));
    trimmed_of_tight(canonical(body));
}

/// Whether a line feed with a carriage return before it occurs in a text.
pub open spec fn has_crlf(value: Seq<char>) -> bool {
    exists|i: int| 0 <= i < value.len() - 1 && value[i] == '\r' && #[trigger] value[i + 1] == '\n'
}

proof fn lemma_unified_of_plain(value: Seq<char>)
    requires
        !has_crlf(value),
    ensures
        unified(value) == value,
    decreases value.len(),
{
    lemma_literals();
    if value.len() > 0 {
        if "\r\n"@.is_prefix_of(value) {
            assert(value[0] == '\r' && value[0int + 1] == '\n');
        }
        let rest = value.drop_first();
        assert forall|i: int| 0 <= i < rest.len() - 1 implies !(rest[i] == '\r'
            && #[trigger] rest[i + 1] == '\n') by {
            assert(value[i + 1 + 1] == rest[i + 1]);
        }
        lemma_unified_of_plain(rest);
        assert(seq![value[0]] + rest =~= value);
    }
}

/// A body with plain line feeds is only trimmed.
pub proof fn plain_body_is_trimmed(body: Seq<char>)
    requires
        !has_crlf(trimmed(body)),
    ensures
        canonical(body) == trimmed(body),
{
    margins_do_not_count(body);
    lemma_unified_of_plain(trimmed(body));
    trimmed_is_tight(body);
    trimmed_of_tight(trimmed(body));
}

/// The body of a memory is read back from its file in its canonical form.
proof fn body_reads_back(body: Seq<char>)
    ensures
        trimmed(joined(line_seq("\n"@ + trimmed(body) + "\n"@), "\n"@)) == canonical(body),
{
    lemma_literals();
    let inner = trimmed(body);
    let whole = "\n"@ + inner + "\n"@;
    joined_lines_give_text(whole);
    let lines = joined(line_seq(whole), seq!['\n']);
    assert(whole.last() == '\n');
    assert(lines + seq!['\n'] =~= lines.push('\n'));
    trimmed_before_space(lines, '\n');
    assert(trimmed(lines) == canonical(whole));
    assert(whole =~= (seq!['\n'] + inner).push('\n'));
    lemma_canonical_before_space(seq!['\n'] + inner, '\n');
    lemma_canonical_after_space('\n', inner);
    margins_do_not_count(body);
}

/// The keys of a memory, in order.
pub open spec fn memory_keys() -> Seq<Seq<char>> {
    seq![
        "id"@,
        "type"@,
        "scope"@,
        "kind"@,
        "status"@,
        "created_at"@,
        "updated_at"@,
        "tags"@,
        "title"@,
        "source"@,
        "source_id"@,
        "agent"@,
        "session"@,
        "confidence"@,
        "promoted_from"@,
        "supersedes"@,
    ]
}

proof fn lemma_memory_keys()
    ensures
        forall|i: int| 0 <= i < 16 ==> is_key(#[trigger] memory_keys()[i]),
        forall|i: int, j: int| 0 <= i < j < 16 ==> memory_keys()[i] != memory_keys()[j],
{
    reveal_strlit("id");
    reveal_strlit("type");
    reveal_strlit("scope");
    reveal_strlit("kind");
    reveal_strlit("status");
    reveal_strlit("created_at");
    reveal_strlit("updated_at");
    reveal_strlit("tags");
    reveal_strlit("title");
    reveal_strlit("source");
    reveal_strlit("source_id");
    reveal_strlit("agent");
    reveal_strlit("session");
    reveal_strlit("confidence");
    reveal_strlit("promoted_from");
    reveal_strlit("supersedes");
    assert("type"@[0] != "kind"@[0]);
    assert("type"@[1] != "tags"@[1]);
    assert("scope"@[0] != "title"@[0]);
    assert("scope"@[0] != "agent"@[0]);
    assert("kind"@[0] != "tags"@[0]);
    assert("status"@[1] != "source"@[1]);
    assert("created_at"@[0] != "updated_at"@[0]);
    assert("created_at"@[1] != "confidence"@[1]);
    assert("created_at"@[0] != "supersedes"@[0]);
    assert("updated_at"@[0] != "confidence"@[0]);
    assert("updated_at"@[0] != "supersedes"@[0]);
    assert("title"@[0] != "agent"@[0]);
    assert("confidence"@[0] != "supersedes"@[0]);
    assert forall|i: int| 0 <= i < 16 implies is_key(#[trigger] memory_keys()[i]) by {
        let key = memory_keys()[i];
        assert(!is_space(key[0]) && !is_space(key.last()));
        trimmed_of_tight(key);
    }
}

/// The fields of a memory, as its file gives them.
spec fn read_entries(metadata: MetadataView) -> Seq<Entry> {
    as_read(memory_entries(metadata))
}

/// The document that the file of a memory holds.
proof fn lemma_document(memory: MemoryView)
    ensures
        document_of(markdown_of(memory)) == Ok::<_, Seq<char>>(
            (
                with_entries(Map::empty(), read_entries(memory.metadata)),
                canonical(memory.body),
            ),
        ),
        forall|i: int|
            0 <= i < 16 ==> line_seq(markdown_of(memory)).contains(
                field_line(#[trigger] memory_entries(memory.metadata)[i]),
            ),
{
    let entries = memory_entries(memory.metadata);
    let keys = memory_keys();
    let tail = "\n"@ + trimmed(memory.body) + "\n"@;
    assert(markdown_of(memory) =~= block_text(entries) + tail);
    lemma_memory_keys();
    assert forall|i: int| 0 <= i < 16 implies (#[trigger] entries[i]).0 == keys[i] by {}
    assert(are_keyed_entries(entries));
    fields_read_apart(entries, tail);
    body_reads_back(memory.body);
}

/// What is found under the key of a field that is no list.
proof fn lemma_field_is_found(metadata: MetadataView, at: int)
    requires
        0 <= at < 16,
        memory_entries(metadata)[at].1 !is List,
    ensures
        ({
            let fields = with_entries(Map::empty(), read_entries(metadata));
            let entry = memory_entries(metadata)[at];
            fields.contains_key(entry.0) && fields[entry.0] == entry.1
        }),
{
    let entries = memory_entries(metadata);
    let read = read_entries(metadata);
    let keys = memory_keys();
    lemma_memory_keys();
    assert forall|i: int| 0 <= i < 16 implies (#[trigger] read[i]).0 == keys[i] by {
        assert(entries[i].0 == keys[i]);
    }
    entry_is_found(read, at);
    field_reads_back(entries[at].1);
}

/// Whether a field stands as a plain `null` in the file of a memory, and is
/// lacking in what is read from there.
pub open spec fn is_absent(memory: MemoryView, key: Seq<char>) -> bool {
    &&& line_seq(markdown_of(memory)).contains(key + ": null"@)
    &&& match document_of(markdown_of(memory)) {
        Ok((fields, _)) => scalar_field(fields, key) == Ok::<Option<Seq<char>>, Seq<char>>(None),
        Err(_) => false,
    }
}

proof fn lemma_absent(memory: MemoryView, at: int)
    requires
        0 <= at < 16,
        memory_entries(memory.metadata)[at].1 == Field::Null,
    ensures
        is_absent(memory, memory_entries(memory.metadata)[at].0),
{
    let entry = memory_entries(memory.metadata)[at];
    lemma_document(memory);
    lemma_field_is_found(memory.metadata, at);
    reveal_strlit(": ");
    reveal_strlit("null");
    reveal_strlit(": null");
    assert(field_line(entry) =~= entry.0 + ": null"@);
}

/// Whatever a memory holds, a field that it lacks stands as a plain `null` in
/// its file, and is lacking in what is read from there.
pub proof fn absent_fields_stay_absent(memory: MemoryView)
    ensures
        memory.metadata.title is None ==> is_absent(memory, "title"@),
        memory.metadata.source is None ==> is_absent(memory, "source"@),
        memory.metadata.source_id is None ==> is_absent(memory, "source_id"@),
        memory.metadata.agent is None ==> is_absent(memory, "agent"@),
        memory.metadata.session is None ==> is_absent(memory, "session"@),
        memory.metadata.confidence is None ==> is_absent(memory, "confidence"@),
        memory.metadata.promoted_from is None ==> is_absent(memory, "promoted_from"@),
{
    let entries = memory_entries(memory.metadata);
    assert forall|at: int| 8 <= at < 15 && (#[trigger] entries[at]).1 == Field::Null implies is_absent(
        memory,
        entries[at].0,
    ) by {
        lemma_absent(memory, at);
    }
    assert(entries[8].0 == "title"@ && entries[9].0 == "source"@ && entries[10].0 == "source_id"@);
    assert(entries[11].0 == "agent"@ && entries[12].0 == "session"@);
    assert(entries[13].0 == "confidence"@ && entries[14].0 == "promoted_from"@);
}

/// A memory with an id and a body can be read from its file whatever its lists
/// hold, and only the lists can differ: every other field is as it was, absent
/// where it was absent, and the body is in canonical form. Without an id or a
/// body nothing is read.
pub proof fn scalars_always_read_back(memory: MemoryView, path: Seq<char>)
    ensures
        match memory_of(markdown_of(memory), path) {
            Ok(read) => {
                &&& trimmed(memory.metadata.id).len() > 0
                &&& trimmed(memory.body).len() > 0
                &&& read == (MemoryView {
                    metadata: MetadataView {
                        tags: read.metadata.tags,
                        supersedes: read.metadata.supersedes,
                        ..memory.metadata
                    },
                    body: canonical(memory.body),
                    path: Some(path),
                })
            },
            Err(_) => trimmed(memory.metadata.id).len() == 0 || trimmed(memory.body).len() == 0,
        },
{
    let metadata = memory.metadata;
    lemma_document(memory);
    lemma_field_is_found(metadata, 0);
    lemma_field_is_found(metadata, 1);
    lemma_field_is_found(metadata, 2);
    lemma_field_is_found(metadata, 3);
    lemma_field_is_found(metadata, 4);
    lemma_field_is_found(metadata, 5);
    lemma_field_is_found(metadata, 6);
    lemma_field_is_found(metadata, 8);
    lemma_field_is_found(metadata, 9);
    lemma_field_is_found(metadata, 10);
    lemma_field_is_found(metadata, 11);
    lemma_field_is_found(metadata, 12);
    lemma_field_is_found(metadata, 13);
    lemma_field_is_found(metadata, 14);
    memory_type_reads_back(metadata.memory_type);
    memory_scope_reads_back(metadata.scope);
    memory_kind_reads_back(metadata.kind);
    memory_status_reads_back(metadata.status);
    if trimmed(memory.body).len() > 0 {
        canonical_is_not_blank(memory.body);
    } else {
        margins_do_not_count(memory.body);
        assert(canonical(trimmed(memory.body)) =~= seq![]);
    }
}

/// A memory is read back from its file, with its body in canonical form: where
/// no item of its lists is empty and no item but the last leaves a quote open.
pub proof fn memory_reads_back(memory: MemoryView, path: Seq<char>)
    requires
        trimmed(memory.metadata.id).len() > 0,
        trimmed(memory.body).len() > 0,
        is_stable_list(memory.metadata.tags),
        is_stable_list(memory.metadata.supersedes),
    ensures
        memory_of(markdown_of(memory), path) == Ok::<_, Seq<char>>(
            MemoryView { body: canonical(memory.body), path: Some(path), ..memory },
        ),
{
    let entries = memory_entries(memory.metadata);
    let keys = memory_keys();
    let tail = "\n"@ + trimmed(memory.body) + "\n"@;
    assert(markdown_of(memory) =~= frontmatter::block_text(entries) + tail);
    lemma_memory_keys();
    assert forall|i: int| 0 <= i < 16 implies (#[trigger] entries[i]).0 == keys[i]
        && is_stable_field(entries[i].1) by {}
    assert(are_stable_entries(entries));
    document_reads_back(entries, tail);
    body_reads_back(memory.body);
    memory_fields_are_found(memory.metadata);
    memory_type_reads_back(memory.metadata.memory_type);
    memory_scope_reads_back(memory.metadata.scope);
    memory_kind_reads_back(memory.metadata.kind);
    memory_status_reads_back(memory.metadata.status);
    canonical_is_not_blank(memory.body);
}

proof fn memory_fields_are_found(metadata: MetadataView)
    ensures
        ({
            let entries = memory_entries(metadata);
            let fields = with_entries(Map::empty(), entries);
            forall|i: int|
                0 <= i < 16 ==> fields.contains_key((#[trigger] entries[i]).0)
                    && fields[entries[i].0] == entries[i].1
        }),
{
    let entries = memory_entries(metadata);
    let keys = memory_keys();
    lemma_memory_keys();
    assert forall|i: int| 0 <= i < 16 implies (#[trigger] entries[i]).0 == keys[i] by {}
    let fields = with_entries(Map::empty(), entries);
    assert forall|i: int| 0 <= i < 16 implies fields.contains_key((#[trigger] entries[i]).0)
        && fields[entries[i].0] == entries[i].1 by {
        entry_is_found(entries, i);
    }
}

/// Nothing is deleted or archived through a link.
pub proof fn links_are_not_deleted(
    memories: Seq<MemoryView>,
    id: Seq<char>,
    hard: bool,
    now: Seq<char>,
    deleted: Result<MemoryView, Seq<char>>,
)
    requires
        is_deleted(memories, id, PathState::Symlink, hard, now, deleted),
    ensures
        deleted is Err,
{
}

/// An id, or the start of one, stands for one thing at most: what is found, or
/// what is said instead, does not depend on anything else.
pub proof fn what_is_found_is_determined(
    memories: Seq<MemoryView>,
    id: Seq<char>,
    left: Result<MemoryView, Seq<char>>,
    right: Result<MemoryView, Seq<char>>,
)
    requires
        is_found(memories, id, left),
        is_found(memories, id, right),
    ensures
        left == right,
{
    let exact = exact_matches(memories, id);
    if exact.len() > 0 && left is Ok && right is Ok {
        let a = choose|at: int| #[trigger] is_only_best(exact, id, at) && exact[at] == left->Ok_0;
        let b = choose|at: int| #[trigger] is_only_best(exact, id, at) && exact[at] == right->Ok_0;
        if a != b {
            lemma_ranks_are_comparable(exact[a], exact[b], id);
        }
    }
}

proof fn lemma_ranks_are_comparable(left: MemoryView, right: MemoryView, id: Seq<char>)
    ensures
        memory::match_rank(left, id) == memory::match_rank(right, id) || memory::better(
            memory::match_rank(left, id),
            memory::match_rank(right, id),
        ) || memory::better(memory::match_rank(right, id), memory::match_rank(left, id)),
{
}

/// A memory is found by its id where no other has it, even where its id is the
/// start of others.
pub proof fn memory_is_found_by_its_id(memories: Seq<MemoryView>, at: int)
    requires
        0 <= at < memories.len(),
        forall|i: int|
            0 <= i < memories.len() && i != at ==> (#[trigger] memories[i]).metadata.id
                != memories[at].metadata.id,
    ensures
        is_found(memories, memories[at].metadata.id, Ok(memories[at])),
{
    let id = memories[at].metadata.id;
    lemma_only_match(memories, at);
    let exact = exact_matches(memories, id);
    assert(exact =~= seq![memories[at]]);
    assert(is_only_best(exact, id, 0));
}

proof fn lemma_only_match(memories: Seq<MemoryView>, at: int)
    requires
        0 <= at < memories.len(),
        forall|i: int|
            0 <= i < memories.len() && i != at ==> (#[trigger] memories[i]).metadata.id
                != memories[at].metadata.id,
    ensures
        exact_matches(memories, memories[at].metadata.id) == seq![memories[at]],
    decreases memories.len(),
{
    reveal(Seq::filter);
    let id = memories[at].metadata.id;
    let rest = memories.drop_last();
    if at == memories.len() - 1 {
        assert forall|i: int| 0 <= i < rest.len() implies (#[trigger] rest[i]).metadata.id != id by {
            assert(rest[i] == memories[i]);
        }
        lemma_no_match(rest, id);
    } else {
        assert forall|i: int| 0 <= i < rest.len() && i != at implies (
        #[trigger] rest[i]).metadata.id != rest[at].metadata.id by {
            assert(rest[i] == memories[i]);
        }
        lemma_only_match(rest, at);
        assert(memories[memories.len() - 1].metadata.id != id);
    }
}

proof fn lemma_no_match(memories: Seq<MemoryView>, id: Seq<char>)
    requires
        forall|i: int| 0 <= i < memories.len() ==> (#[trigger] memories[i]).metadata.id != id,
    ensures
        exact_matches(memories, id) == Seq::<MemoryView>::empty(),
    decreases memories.len(),
{
    reveal(Seq::filter);
    if memories.len() > 0 {
        let rest = memories.drop_last();
        assert forall|i: int| 0 <= i < rest.len() implies (#[trigger] rest[i]).metadata.id != id by {
            assert(rest[i] == memories[i]);
        }
        lemma_no_match(rest, id);
        assert(memories[memories.len() - 1].metadata.id != id);
    }
}

} // verus!
