//! What is written as front matter is read back.

use vstd::prelude::*;

use crate::frontmatter::{
    block_text, decoded, delimiter_index, document_of, escape_char, escaped_text, field_line,
    field_lines, field_of, fields_of, is_special, list_items, list_parts, needs_quotes, scalar_text,
    scalar_texts, unquoted, value_text, Entry, Field,
};
use crate::text::{is_space, joined, lemma_index_of_is, line_seq, split_once_at, trimmed};
use crate::text_laws::{
    is_line, joined_from_front, joined_lines_read_back, line_seq_of_line, trimmed_after_space,
    trimmed_is_tight, trimmed_of_tight,
};

verus! {

proof fn escaped_from_front(value: Seq<char>)
    requires
        value.len() > 0,
    ensures
        escaped_text(value) == escape_char(value[0]) + escaped_text(value.drop_first()),
    decreases value.len(),
{
    if value.len() == 1 {
        assert(value.drop_last() =~= seq![]);
        assert(value.drop_first() =~= seq![]);
        assert(escaped_text(value) =~= escape_char(value[0]) + escaped_text(value.drop_first()));
    } else {
        escaped_from_front(value.drop_last());
        assert(value.drop_last().drop_first() =~= value.drop_first().drop_last());
        assert(escaped_text(value) =~= escape_char(value[0]) + (escaped_text(
            value.drop_first().drop_last(),
        ) + escape_char(value.last())));
    }
}

/// Decoding undoes escaping.
pub proof fn decoding_undoes_escaping(value: Seq<char>)
    ensures
        decoded(escaped_text(value)) == value,
    decreases value.len(),
{
    if value.len() == 0 {
        assert(decoded(escaped_text(value)) =~= value);
    } else {
        let rest = value.drop_first();
        decoding_undoes_escaping(rest);
        escaped_from_front(value);
        let whole = escaped_text(value);
        let step = escape_char(value[0]);
        if step.len() == 1 {
            assert(whole.drop_first() =~= escaped_text(rest));
        } else {
            assert(whole.skip(2) =~= escaped_text(rest));
        }
        assert(seq![value[0]] + rest =~= value);
    }
}

/// A scalar in its written form is never empty, has no white space at its ends
/// and holds no line break.
pub proof fn scalar_text_is_tight(value: Seq<char>)
    ensures
        scalar_text(value).len() > 0,
        !is_space(scalar_text(value)[0]),
        !is_space(scalar_text(value).last()),
        !scalar_text(value).contains('\n'),
        !scalar_text(value).contains('\r'),
{
    if needs_quotes(value) {
        escaped_holds_no_break(value);
        let whole = scalar_text(value);
        assert forall|i: int| 0 <= i < whole.len() implies whole[i] != '\n' && whole[i] != '\r' by {
            if 0 < i < whole.len() - 1 {
                assert(whole[i] == escaped_text(value)[i - 1]);
                assert(escaped_text(value).contains(whole[i]));
            }
        }
    } else {
        trimmed_is_tight(value);
        assert forall|i: int| 0 <= i < value.len() implies value[i] != '\n' && value[i] != '\r' by {
            assert(!is_special(value[i]));
        }
    }
}

proof fn escaped_holds_no_break(value: Seq<char>)
    ensures
        !escaped_text(value).contains('\n'),
        !escaped_text(value).contains('\r'),
    decreases value.len(),
{
    if value.len() > 0 {
        escaped_holds_no_break(value.drop_last());
        let head = escaped_text(value.drop_last());
        let whole = escaped_text(value);
        assert forall|i: int| 0 <= i < whole.len() implies whole[i] != '\n' && whole[i] != '\r' by {
            if i < head.len() {
                assert(head.contains(head[i]));
            }
        }
    }
}

/// A scalar is read back from its written form.
pub proof fn scalar_reads_back(value: Seq<char>)
    ensures
        unquoted(scalar_text(value)) == value,
        field_of(scalar_text(value)) == Field::Scalar(value),
{
    scalar_text_is_tight(value);
    trimmed_of_tight(scalar_text(value));
    if needs_quotes(value) {
        decoding_undoes_escaping(value);
        let whole = scalar_text(value);
        assert(whole.subrange(1, whole.len() - 1) =~= escaped_text(value));
    } else {
        assert(!is_special(value[0]));
    }
}

/// How many apostrophes a text holds.
pub open spec fn apostrophes(value: Seq<char>) -> nat
    decreases value.len(),
{
    if value.len() == 0 {
        0
    } else {
        apostrophes(value.drop_first()) + if value[0] == '\'' {
            1nat
        } else {
            0nat
        }
    }
}

/// Whether an item can stand before another one in a list: in quotes, or with
/// its apostrophes in pairs.
pub open spec fn closes_quotes(value: Seq<char>) -> bool {
    needs_quotes(value) || apostrophes(value) % 2 == 0
}

/// The lists that are read back from their written form.
pub open spec fn is_stable_list(values: Seq<Seq<char>>) -> bool {
    &&& forall|i: int| 0 <= i < values.len() ==> (#[trigger] values[i]).len() > 0
    &&& forall|i: int| 0 <= i < values.len() - 1 ==> closes_quotes(#[trigger] values[i])
}

/// The fields that are read back from their written form.
pub open spec fn is_stable_field(field: Field) -> bool {
    match field {
        Field::List(values) => is_stable_list(values),
        _ => true,
    }
}

proof fn scan_escaped(value: Seq<char>, rest: Seq<char>, current: Seq<char>)
    ensures
        list_parts(escaped_text(value) + rest, current, Some('"'), false) == list_parts(
            rest,
            current + escaped_text(value),
            Some('"'),
            false,
        ),
    decreases value.len(),
{
    if value.len() == 0 {
        assert(escaped_text(value) + rest =~= rest);
        assert(current + escaped_text(value) =~= current);
    } else {
        escaped_from_front(value);
        let step = escape_char(value[0]);
        let tail = escaped_text(value.drop_first());
        let whole = escaped_text(value) + rest;
        scan_escaped(value.drop_first(), rest, current + step);
        assert(current + step + tail =~= current + escaped_text(value));
        if step.len() == 1 {
            assert(whole.drop_first() =~= tail + rest);
            assert(current.push(step[0]) =~= current + step);
        } else {
            assert(whole.drop_first().drop_first() =~= tail + rest);
            assert(whole[0] == '\\');
            assert(whole.drop_first()[0] == step[1]);
            assert(current.push('\\').push(step[1]) =~= current + step);
            reveal_with_fuel(list_parts, 3);
        }
    }
}

proof fn scan_plain(value: Seq<char>, rest: Seq<char>, current: Seq<char>, inside: bool)
    requires
        forall|i: int| 0 <= i < value.len() ==> !is_special(#[trigger] value[i]),
    ensures
        list_parts(
            value + rest,
            current,
            if inside {
                Some('\'')
            } else {
                None
            },
            false,
        ) == list_parts(
            rest,
            current + value,
            if inside != (apostrophes(value) % 2 == 1) {
                Some('\'')
            } else {
                None
            },
            false,
        ),
    decreases value.len(),
{
    if value.len() == 0 {
        assert(value + rest =~= rest);
        assert(current + value =~= current);
    } else {
        let c = value[0];
        let tail = value.drop_first();
        assert(!is_special(c));
        assert forall|i: int| 0 <= i < tail.len() implies !is_special(#[trigger] tail[i]) by {
            assert(tail[i] == value[i + 1]);
        }
        scan_plain(tail, rest, current.push(c), inside != (c == '\''));
        assert((value + rest).drop_first() =~= tail + rest);
        assert(current.push(c) + tail =~= current + value);
    }
}

/// Reading past one item of a list: what it leaves open, if anything, is a
/// single quote.
proof fn scan_item(value: Seq<char>, rest: Seq<char>, current: Seq<char>)
    ensures
        list_parts(scalar_text(value) + rest, current, None, false) == list_parts(
            rest,
            current + scalar_text(value),
            if closes_quotes(value) {
                None
            } else {
                Some('\'')
            },
            false,
        ),
{
    if needs_quotes(value) {
        let inner = escaped_text(value);
        let whole = scalar_text(value) + rest;
        assert(whole.drop_first() =~= inner + (seq!['"'] + rest));
        scan_escaped(value, seq!['"'] + rest, current.push('"'));
        assert((seq!['"'] + rest).drop_first() =~= rest);
        assert((current.push('"') + inner).push('"') =~= current + scalar_text(value));
    } else {
        assert forall|i: int| 0 <= i < value.len() implies !is_special(#[trigger] value[i]) by {}
        scan_plain(value, rest, current, false);
    }
}

/// Reading past what stands between two items.
proof fn scan_separator(tail: Seq<char>, current: Seq<char>)
    ensures
        list_parts(seq![',', ' '] + tail, current, None, false) == seq![trimmed(current)]
            + list_parts(tail, seq![' '], None, false),
{
    let after = seq![',', ' '] + tail;
    assert(after.drop_first() =~= seq![' '] + tail);
    assert((seq![' '] + tail).drop_first() =~= tail);
    assert(Seq::<char>::empty().push(' ') =~= seq![' ']);
    assert((seq![' '] + tail)[0] == ' ');
    assert(list_parts(seq![' '] + tail, seq![], None, false) == list_parts(
        tail,
        seq![' '],
        None,
        false,
    ));
}

proof fn list_parts_read_back(values: Seq<Seq<char>>, current: Seq<char>)
    requires
        values.len() > 0,
        is_stable_list(values),
        current == Seq::<char>::empty() || current == seq![' '],
    ensures
        list_parts(joined(scalar_texts(values), seq![',', ' ']), current, None, false)
            == scalar_texts(values),
    decreases values.len(),
{
    let written = scalar_texts(values);
    let first = written[0];
    scalar_text_is_tight(values[0]);
    trimmed_of_tight(first);
    trimmed_after_space(first);
    assert(Seq::<char>::empty() + first =~= first);
    assert(trimmed(current + first) == first);
    if values.len() == 1 {
        scan_item(values[0], seq![], current);
        assert(first + Seq::<char>::empty() =~= first);
        assert(written =~= seq![first]);
        assert(joined(written, seq![',', ' ']) == first);
    } else {
        let rest = values.drop_first();
        let tail = joined(scalar_texts(rest), seq![',', ' ']);
        assert(written.drop_first() =~= scalar_texts(rest));
        joined_from_front(written, seq![',', ' ']);
        let after = seq![',', ' '] + tail;
        assert(joined(written, seq![',', ' ']) =~= first + after);
        assert(closes_quotes(values[0]));
        scan_item(values[0], after, current);
        scan_separator(tail, current + first);
        assert forall|i: int| 0 <= i < rest.len() implies (#[trigger] rest[i]).len() > 0 by {
            assert(rest[i] == values[i + 1]);
        }
        assert forall|i: int| 0 <= i < rest.len() - 1 implies closes_quotes(#[trigger] rest[i]) by {
            assert(rest[i] == values[i + 1]);
        }
        list_parts_read_back(rest, seq![' ']);
        assert(written =~= seq![first] + scalar_texts(rest));
    }
}

proof fn list_items_read_back(values: Seq<Seq<char>>)
    requires
        forall|i: int| 0 <= i < values.len() ==> (#[trigger] values[i]).len() > 0,
    ensures
        list_items(scalar_texts(values)) == values,
    decreases values.len(),
{
    let written = scalar_texts(values);
    if values.len() > 0 {
        let rest = values.drop_last();
        assert forall|i: int| 0 <= i < rest.len() implies (#[trigger] rest[i]).len() > 0 by {
            assert(rest[i] == values[i]);
        }
        list_items_read_back(rest);
        assert(written.drop_last() =~= scalar_texts(rest));
        scalar_reads_back(values.last());
        assert(rest.push(values.last()) =~= values);
    } else {
        assert(list_items(written) =~= values);
    }
}

/// A field is read back from its written form: a null and a scalar always, a
/// list where no item is empty and no item but the last leaves a quote open.
pub proof fn field_reads_back(field: Field)
    requires
        is_stable_field(field),
    ensures
        field_of(value_text(field)) == field,
{
    match field {
        Field::Null => {
            reveal_strlit("null");
            assert("null"@.len() == 4);
            assert("null"@[0] == 'n');
        },
        Field::Scalar(value) => {
            scalar_reads_back(value);
        },
        Field::List(values) => {
            let whole = value_text(field);
            let inner = joined(scalar_texts(values), seq![',', ' ']);
            assert(whole.subrange(1, whole.len() - 1) =~= inner);
            reveal_strlit("null");
            assert("null"@[0] == 'n');
            if values.len() > 0 {
                list_parts_read_back(values, seq![]);
                list_items_read_back(values);
            } else {
                assert(inner =~= seq![]);
                assert(list_parts(inner, seq![], None, false) =~= seq![Seq::<char>::empty()]);
                assert(unquoted(Seq::<char>::empty()) =~= seq![]);
                assert(seq![Seq::<char>::empty()].drop_last() =~= seq![]);
                assert(list_items(seq![Seq::<char>::empty()]) =~= values) by {
                    reveal_with_fuel(list_items, 2);
                }
            }
        },
    }
}

// Whole blocks.

/// A key that is read back: not empty, with no white space around it, and with
/// neither a colon nor a line feed in it.
pub open spec fn is_key(key: Seq<char>) -> bool {
    key.len() > 0 && trimmed(key) == key && !key.contains(':') && !key.contains('\n')
}

/// Entries under different keys that are read back.
pub open spec fn are_keyed_entries(entries: Seq<Entry>) -> bool {
    &&& forall|i: int| 0 <= i < entries.len() ==> is_key((#[trigger] entries[i]).0)
    &&& forall|i: int, j: int| 0 <= i < j < entries.len() ==> entries[i].0 != entries[j].0
}

/// The entries that are read back: different keys, and values that survive.
pub open spec fn are_stable_entries(entries: Seq<Entry>) -> bool {
    &&& are_keyed_entries(entries)
    &&& forall|i: int| 0 <= i < entries.len() ==> is_stable_field((#[trigger] entries[i]).1)
}

/// What the entries read as once they are written.
pub open spec fn as_read(entries: Seq<Entry>) -> Seq<Entry> {
    entries.map_values(|entry: Entry| (entry.0, field_of(value_text(entry.1))))
}

/// The known fields with the entries added.
pub open spec fn with_entries(
    known: Map<Seq<char>, Field>,
    entries: Seq<Entry>,
) -> Map<Seq<char>, Field>
    decreases entries.len(),
{
    if entries.len() == 0 {
        known
    } else {
        with_entries(known.insert(entries[0].0, entries[0].1), entries.drop_first())
    }
}

pub open spec fn line_list(entries: Seq<Entry>) -> Seq<Seq<char>> {
    entries.map_values(|entry: Entry| field_line(entry))
}

/// What one line of a block says.
proof fn line_reads_back(entry: Entry)
    requires
        is_key(entry.0),
    ensures
        trimmed(field_line(entry)) == field_line(entry),
        field_line(entry).len() > 0,
        is_line(field_line(entry)),
        field_line(entry) != "---"@,
        split_once_at(field_line(entry), ':') == Some((entry.0, seq![' '] + value_text(entry.1))),
        trimmed(seq![' '] + value_text(entry.1)) == value_text(entry.1),
{
    let value = value_text(entry.1);
    let line = field_line(entry);
    reveal_strlit(": ");
    assert(": "@ =~= seq![':', ' ']);
    reveal_strlit("---");
    value_text_is_tight(entry.1);
    trimmed_is_tight(entry.0);
    assert(line[0] == entry.0[0]);
    assert(line.last() == value.last());
    trimmed_of_tight(line);
    trimmed_of_tight(value);
    trimmed_after_space(value);
    let n = entry.0.len() as int;
    assert(line[n] == ':');
    assert forall|i: int| 0 <= i < n implies line[i] != ':' by {
        assert(entry.0.contains(entry.0[i]));
    }
    lemma_index_of_is(line, ':', n);
    assert(line.take(n) =~= entry.0);
    assert(line.skip(n + 1) =~= seq![' '] + value);
    assert forall|i: int| 0 <= i < line.len() implies line[i] != '\n' by {
        if i < n {
            assert(entry.0.contains(entry.0[i]));
        } else if i >= n + 2 {
            assert(value.contains(value[i - n - 2]));
        }
    }
    assert(value.contains(value.last()));
    if line == "---"@ {
        assert("---"@[n] == ':');
    }
}

proof fn value_text_is_tight(field: Field)
    ensures
        value_text(field).len() > 0,
        !is_space(value_text(field)[0]),
        !is_space(value_text(field).last()),
        !value_text(field).contains('\n'),
        !value_text(field).contains('\r'),
{
    match field {
        Field::Null => {
            reveal_strlit("null");
            assert("null"@ =~= seq!['n', 'u', 'l', 'l']);
        },
        Field::Scalar(value) => {
            scalar_text_is_tight(value);
        },
        Field::List(values) => {
            joined_scalars_hold_no_break(values);
            let inner = joined(scalar_texts(values), seq![',', ' ']);
            let whole = value_text(field);
            assert forall|i: int| 0 <= i < whole.len() implies whole[i] != '\n' && whole[i]
                != '\r' by {
                if 0 < i < whole.len() - 1 {
                    assert(whole[i] == inner[i - 1]);
                    assert(inner.contains(inner[i - 1]));
                }
            }
        },
    }
}

proof fn joined_scalars_hold_no_break(values: Seq<Seq<char>>)
    ensures
        !joined(scalar_texts(values), seq![',', ' ']).contains('\n'),
        !joined(scalar_texts(values), seq![',', ' ']).contains('\r'),
    decreases values.len(),
{
    let written = scalar_texts(values);
    if values.len() == 1 {
        scalar_text_is_tight(values[0]);
    } else if values.len() > 1 {
        joined_scalars_hold_no_break(values.drop_last());
        assert(written.drop_last() =~= scalar_texts(values.drop_last()));
        scalar_text_is_tight(values.last());
        let head = joined(written.drop_last(), seq![',', ' ']);
        let last = written.last();
        let whole = joined(written, seq![',', ' ']);
        assert forall|i: int| 0 <= i < whole.len() implies whole[i] != '\n' && whole[i]
            != '\r' by {
            if i < head.len() {
                assert(head.contains(head[i]));
            } else if i >= head.len() + 2 {
                assert(last.contains(last[i - head.len() - 2]));
            }
        }
    }
}

proof fn lines_read_back(entries: Seq<Entry>, number: nat, known: Map<Seq<char>, Field>)
    requires
        are_keyed_entries(entries),
        forall|i: int| 0 <= i < entries.len() ==> !known.contains_key((#[trigger] entries[i]).0),
    ensures
        fields_of(line_list(entries), number, known) == Ok::<_, Seq<char>>(
            with_entries(known, as_read(entries)),
        ),
    decreases entries.len(),
{
    if entries.len() > 0 {
        let rest = entries.drop_first();
        let first = as_read(entries)[0];
        line_reads_back(entries[0]);
        trimmed_of_key(entries[0].0);
        assert(line_list(entries).drop_first() =~= line_list(rest));
        assert(as_read(entries).drop_first() =~= as_read(rest));
        assert forall|i: int| 0 <= i < rest.len() implies is_key((#[trigger] rest[i]).0)
            && !known.insert(first.0, first.1).contains_key(rest[i].0) by {
            assert(rest[i] == entries[i + 1]);
        }
        assert forall|i: int, j: int| 0 <= i < j < rest.len() implies rest[i].0 != rest[j].0 by {
            assert(rest[i] == entries[i + 1]);
            assert(rest[j] == entries[j + 1]);
        }
        lines_read_back(rest, number + 1, known.insert(first.0, first.1));
    }
}

proof fn trimmed_of_key(key: Seq<char>)
    requires
        is_key(key),
    ensures
        trimmed(key) == key,
{
}

proof fn field_lines_from_front(entries: Seq<Entry>)
    requires
        entries.len() > 0,
    ensures
        field_lines(entries) == field_line(entries[0]) + "\n"@ + field_lines(entries.drop_first()),
    decreases entries.len(),
{
    if entries.len() == 1 {
        assert(entries.drop_last() =~= seq![]);
        assert(entries.drop_first() =~= seq![]);
        assert(field_lines(entries) =~= field_line(entries[0]) + "\n"@ + field_lines(
            entries.drop_first(),
        ));
    } else {
        field_lines_from_front(entries.drop_last());
        assert(entries.drop_last().drop_first() =~= entries.drop_first().drop_last());
        assert(field_lines(entries) =~= field_line(entries[0]) + "\n"@ + field_lines(
            entries.drop_first(),
        ));
    }
}

proof fn block_lines(entries: Seq<Entry>, tail: Seq<char>)
    requires
        are_keyed_entries(entries),
    ensures
        line_seq(field_lines(entries) + tail) == line_list(entries) + line_seq(tail),
    decreases entries.len(),
{
    if entries.len() == 0 {
        assert(field_lines(entries) + tail =~= tail);
        assert(line_list(entries) + line_seq(tail) =~= line_seq(tail));
    } else {
        let rest = entries.drop_first();
        assert forall|i: int| 0 <= i < rest.len() implies is_key((#[trigger] rest[i]).0) by {
            assert(rest[i] == entries[i + 1]);
        }
        assert forall|i: int, j: int| 0 <= i < j < rest.len() implies rest[i].0 != rest[j].0 by {
            assert(rest[i] == entries[i + 1]);
            assert(rest[j] == entries[j + 1]);
        }
        block_lines(rest, tail);
        field_lines_from_front(entries);
        line_reads_back(entries[0]);
        reveal_strlit("\n");
        assert("\n"@ =~= seq!['\n']);
        line_seq_of_line(field_line(entries[0]), field_lines(rest) + tail);
        assert(field_lines(entries) + tail =~= field_line(entries[0]) + seq!['\n'] + (field_lines(
            rest,
        ) + tail));
        assert(line_list(entries) =~= seq![field_line(entries[0])] + line_list(rest));
        assert(line_list(entries) + line_seq(tail) =~= seq![field_line(entries[0])] + (line_list(
            rest,
        ) + line_seq(tail)));
    }
}

proof fn delimiter_after(lines: Seq<Seq<char>>, rest: Seq<Seq<char>>)
    requires
        forall|i: int| 0 <= i < lines.len() ==> #[trigger] lines[i] != "---"@,
    ensures
        delimiter_index(lines + seq!["---"@] + rest) == lines.len(),
    decreases lines.len(),
{
    let whole = lines + seq!["---"@] + rest;
    if lines.len() > 0 {
        let tail = lines.drop_first();
        assert forall|i: int| 0 <= i < tail.len() implies #[trigger] tail[i] != "---"@ by {
            assert(tail[i] == lines[i + 1]);
        }
        delimiter_after(tail, rest);
        assert(whole.drop_first() =~= tail + seq!["---"@] + rest);
        assert(whole[0] == lines[0]);
    } else {
        assert(whole[0] == "---"@);
    }
}

/// A document made of a written block and a body is read field by field: each
/// has its own line, which gives it back as what is written there reads.
pub proof fn fields_read_apart(entries: Seq<Entry>, body: Seq<char>)
    requires
        are_keyed_entries(entries),
    ensures
        document_of(block_text(entries) + body) == Ok::<_, Seq<char>>(
            (with_entries(Map::empty(), as_read(entries)), trimmed(joined(line_seq(body), "\n"@))),
        ),
        forall|i: int|
            0 <= i < entries.len() ==> line_seq(block_text(entries) + body).contains(
                field_line(#[trigger] entries[i]),
            ),
{
    let raw = block_text(entries) + body;
    let lines = line_list(entries);
    reveal_strlit("\n");
    assert("\n"@ =~= seq!['\n']);
    reveal_strlit("---");
    reveal_strlit("---\n");
    assert("---\n"@ =~= "---"@ + seq!['\n']);
    assert(is_line("---"@));
    let inner = field_lines(entries) + ("---"@ + seq!['\n'] + body);
    assert(raw =~= "---"@ + seq!['\n'] + inner);
    line_seq_of_line("---"@, inner);
    line_seq_of_line("---"@, body);
    block_lines(entries, "---"@ + seq!['\n'] + body);
    let rest = lines + (seq!["---"@] + line_seq(body));
    assert(line_seq(raw).drop_first() =~= rest);
    assert forall|i: int| 0 <= i < lines.len() implies #[trigger] lines[i] != "---"@ && is_line(
        lines[i],
    ) && lines[i].len() > 0 by {
        line_reads_back(entries[i]);
    }
    delimiter_after(lines, line_seq(body));
    assert(rest =~= lines + seq!["---"@] + line_seq(body));
    assert(rest.take(lines.len() as int) =~= lines);
    assert(rest.skip(lines.len() as int + 1) =~= line_seq(body));
    joined_lines_read_back(lines);
    lines_read_back(entries, 1, Map::empty());
    assert forall|i: int| 0 <= i < entries.len() implies line_seq(raw).contains(
        field_line(#[trigger] entries[i]),
    ) by {
        assert(line_seq(raw)[i + 1] == line_seq(raw).drop_first()[i]);
        assert(rest[i] == lines[i]);
    }
}

/// A document made of a written block and a body gives back the fields, and the
/// body with its line ends normalised and the white space around it removed.
pub proof fn document_reads_back(entries: Seq<Entry>, body: Seq<char>)
    requires
        are_stable_entries(entries),
    ensures
        document_of(block_text(entries) + body) == Ok::<_, Seq<char>>(
            (with_entries(Map::empty(), entries), trimmed(joined(line_seq(body), "\n"@))),
        ),
{
    fields_read_apart(entries, body);
    assert forall|i: int| 0 <= i < entries.len() implies #[trigger] as_read(entries)[i]
        == entries[i] by {
        field_reads_back(entries[i].1);
    }
    assert(as_read(entries) =~= entries);
}

proof fn lemma_known_stays(known: Map<Seq<char>, Field>, entries: Seq<Entry>, key: Seq<char>)
    requires
        known.contains_key(key),
        forall|i: int| 0 <= i < entries.len() ==> (#[trigger] entries[i]).0 != key,
    ensures
        with_entries(known, entries).contains_key(key),
        with_entries(known, entries)[key] == known[key],
    decreases entries.len(),
{
    if entries.len() > 0 {
        let rest = entries.drop_first();
        assert(entries[0].0 != key);
        assert forall|i: int| 0 <= i < rest.len() implies (#[trigger] rest[i]).0 != key by {
            assert(rest[i] == entries[i + 1]);
        }
        lemma_known_stays(known.insert(entries[0].0, entries[0].1), rest, key);
    }
}

proof fn lemma_entry_is_found(known: Map<Seq<char>, Field>, entries: Seq<Entry>, at: int)
    requires
        0 <= at < entries.len(),
        forall|i: int, j: int| 0 <= i < j < entries.len() ==> entries[i].0 != entries[j].0,
    ensures
        with_entries(known, entries).contains_key(entries[at].0),
        with_entries(known, entries)[entries[at].0] == entries[at].1,
    decreases entries.len(),
{
    let rest = entries.drop_first();
    let next = known.insert(entries[0].0, entries[0].1);
    assert forall|i: int, j: int| 0 <= i < j < rest.len() implies rest[i].0 != rest[j].0 by {
        assert(rest[i] == entries[i + 1] && rest[j] == entries[j + 1]);
    }
    if at == 0 {
        assert forall|i: int| 0 <= i < rest.len() implies (#[trigger] rest[i]).0
            != entries[0].0 by {
            assert(rest[i] == entries[i + 1]);
        }
        lemma_known_stays(next, rest, entries[0].0);
    } else {
        assert(rest[at - 1] == entries[at]);
        lemma_entry_is_found(next, rest, at - 1);
    }
}

/// Under each key of a block its value is found.
pub proof fn entry_is_found(entries: Seq<Entry>, at: int)
    requires
        0 <= at < entries.len(),
        forall|i: int, j: int| 0 <= i < j < entries.len() ==> entries[i].0 != entries[j].0,
    ensures
        with_entries(Map::empty(), entries).contains_key(entries[at].0),
        with_entries(Map::empty(), entries)[entries[at].0] == entries[at].1,
{
    lemma_entry_is_found(Map::empty(), entries, at);
}

proof fn lemma_only_entries(known: Map<Seq<char>, Field>, entries: Seq<Entry>, key: Seq<char>)
    requires
        with_entries(known, entries).contains_key(key),
        !known.contains_key(key),
    ensures
        exists|i: int| 0 <= i < entries.len() && (#[trigger] entries[i]).0 == key,
    decreases entries.len(),
{
    if entries.len() > 0 && entries[0].0 != key {
        let rest = entries.drop_first();
        lemma_only_entries(known.insert(entries[0].0, entries[0].1), rest, key);
        let i = choose|i: int| 0 <= i < rest.len() && (#[trigger] rest[i]).0 == key;
        assert(entries[i + 1].0 == key);
    }
}

/// No other key is found.
pub proof fn only_entries_are_found(entries: Seq<Entry>, key: Seq<char>)
    requires
        with_entries(Map::empty(), entries).contains_key(key),
    ensures
        exists|i: int| 0 <= i < entries.len() && (#[trigger] entries[i]).0 == key,
{
    lemma_only_entries(Map::empty(), entries, key);
}

} // verus!
