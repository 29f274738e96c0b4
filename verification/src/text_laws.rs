//! Facts about trimming, lines, pieces and joining.

use vstd::prelude::*;

use crate::text::{
    index_of, is_space, joined, lemma_index_of, lemma_index_of_is, lemma_trimmed_end,
    lemma_trimmed_start, line_seq, pieces, trimmed, trimmed_start, without_return,
};

verus! {

/// A text with no white space at either end is its own trimmed form.
pub proof fn trimmed_of_tight(text: Seq<char>)
    requires
        text.len() > 0 ==> !is_space(text[0]) && !is_space(text.last()),
    ensures
        trimmed(text) == text,
{
}

/// A trimmed text has no white space at either end.
pub proof fn trimmed_is_tight(text: Seq<char>)
    ensures
        trimmed(text).len() > 0 ==> !is_space(trimmed(text)[0]) && !is_space(trimmed(text).last()),
{
    lemma_trimmed_start(text);
    lemma_trimmed_end(trimmed_start(text));
}

/// Trimming leaves out a space at the start.
pub proof fn trimmed_after_space(text: Seq<char>)
    ensures
        trimmed(seq![' '] + text) == trimmed(text),
{
    assert((seq![' '] + text).drop_first() =~= text);
}

/// A text that holds no line feed and does not end in a carriage return.
pub open spec fn is_line(text: Seq<char>) -> bool {
    !text.contains('\n') && !(text.len() > 0 && text.last() == '\r')
}

/// A line followed by a line feed is the first of the lines.
pub proof fn line_seq_of_line(line: Seq<char>, rest: Seq<char>)
    requires
        is_line(line),
    ensures
        line_seq(line + seq!['\n'] + rest) == seq![line] + line_seq(rest),
{
    let whole = line + seq!['\n'] + rest;
    assert forall|i: int| 0 <= i < line.len() implies whole[i] != '\n' by {
        assert(line.contains(line[i]));
    }
    lemma_index_of_is(whole, '\n', line.len() as int);
    assert(whole.take(line.len() as int) =~= line);
    assert(whole.skip(line.len() as int + 1) =~= rest);
}

/// A line alone is the only line of a text.
pub proof fn line_seq_of_last(line: Seq<char>)
    requires
        !line.contains('\n'),
        line.len() > 0,
    ensures
        line_seq(line) == seq![line],
{
    lemma_index_of(line, '\n');
}

/// Joining from the front.
pub proof fn joined_from_front(parts: Seq<Seq<char>>, separator: Seq<char>)
    requires
        parts.len() >= 2,
    ensures
        joined(parts, separator) == parts[0] + separator + joined(parts.drop_first(), separator),
    decreases parts.len(),
{
    if parts.len() == 2 {
        assert(parts.drop_last() =~= seq![parts[0]]);
        assert(parts.drop_first() =~= seq![parts[1]]);
        assert(joined(seq![parts[0]], separator) == parts[0]);
        assert(joined(seq![parts[1]], separator) == parts[1]);
    } else {
        joined_from_front(parts.drop_last(), separator);
        let inner = parts.drop_last().drop_first();
        assert(parts.drop_first().drop_last() =~= inner);
        assert(parts.drop_last()[0] == parts[0]);
        assert(joined(parts.drop_first(), separator) == joined(inner, separator) + separator
            + parts.last());
        assert(joined(parts, separator) =~= parts[0] + separator + (joined(inner, separator)
            + separator + parts.last()));
    }
}

/// Lines that are joined by line feeds are read back, unless the last is empty.
pub proof fn joined_lines_read_back(lines: Seq<Seq<char>>)
    requires
        forall|i: int| 0 <= i < lines.len() ==> is_line(#[trigger] lines[i]),
        lines.len() > 0 ==> lines.last().len() > 0,
    ensures
        line_seq(joined(lines, seq!['\n'])) == lines,
    decreases lines.len(),
{
    if lines.len() == 1 {
        line_seq_of_last(lines[0]);
        assert(lines =~= seq![lines[0]]);
    } else if lines.len() > 1 {
        let rest = lines.drop_first();
        joined_from_front(lines, seq!['\n']);
        assert forall|i: int| 0 <= i < rest.len() implies is_line(#[trigger] rest[i]) by {
            assert(rest[i] == lines[i + 1]);
        }
        joined_lines_read_back(rest);
        line_seq_of_line(lines[0], joined(rest, seq!['\n']));
        assert(lines =~= seq![lines[0]] + rest);
    } else {
        assert(lines =~= seq![]);
    }
}

/// No line holds a line feed.
pub proof fn lines_hold_no_feed(text: Seq<char>)
    ensures
        forall|i: int| 0 <= i < line_seq(text).len() ==> !(#[trigger] line_seq(text)[i]).contains(
            '\n',
        ),
    decreases text.len(),
{
    lemma_index_of(text, '\n');
    let n = index_of(text, '\n');
    if text.len() > 0 && n < text.len() {
        lines_hold_no_feed(text.skip(n + 1));
        let head = without_return(text.take(n));
        assert forall|i: int| 0 <= i < line_seq(text).len() implies !(#[trigger] line_seq(
            text,
        )[i]).contains('\n') by {
            if i == 0 {
                assert forall|k: int| 0 <= k < head.len() implies head[k] != '\n' by {
                    assert(head[k] == text[k]);
                }
            } else {
                assert(line_seq(text)[i] == line_seq(text.skip(n + 1))[i - 1]);
            }
        }
    }
}

/// White space at the end does not show in what is trimmed.
pub proof fn trimmed_before_space(text: Seq<char>, space: char)
    requires
        is_space(space),
    ensures
        trimmed(text.push(space)) == trimmed(text),
    decreases text.len(),
{
    let longer = text.push(space);
    if text.len() == 0 {
        assert(longer.drop_first() =~= text);
    } else if is_space(text[0]) {
        assert(longer.drop_first() =~= text.drop_first().push(space));
        trimmed_before_space(text.drop_first(), space);
    } else {
        assert(longer.drop_last() =~= text);
    }
}

/// The pieces of two texts with a separator between them are those of both.
pub proof fn pieces_of_both(left: Seq<char>, c: char, right: Seq<char>)
    ensures
        pieces(left + seq![c] + right, c) == pieces(left, c) + pieces(right, c),
    decreases left.len(),
{
    let whole = left + seq![c] + right;
    lemma_index_of(left, c);
    let n = index_of(left, c);
    if n < left.len() {
        lemma_index_of_is(whole, c, n);
        let rest = left.skip(n + 1);
        assert(whole.take(n) =~= left.take(n));
        assert(whole.skip(n + 1) =~= rest + seq![c] + right);
        pieces_of_both(rest, c, right);
        assert(seq![left.take(n)] + (pieces(rest, c) + pieces(right, c)) =~= seq![left.take(n)]
            + pieces(rest, c) + pieces(right, c));
    } else {
        lemma_index_of_is(whole, c, left.len() as int);
        assert(whole.take(left.len() as int) =~= left);
        assert(whole.skip(left.len() as int + 1) =~= right);
    }
}

/// Texts without the separator are the pieces of what they are joined to.
pub proof fn joined_pieces_read_back(parts: Seq<Seq<char>>, c: char)
    requires
        parts.len() > 0,
        forall|i: int| 0 <= i < parts.len() ==> !(#[trigger] parts[i]).contains(c),
    ensures
        pieces(joined(parts, seq![c]), c) == parts,
    decreases parts.len(),
{
    let last = parts.last();
    assert(!parts[parts.len() - 1].contains(c));
    lemma_index_of(last, c);
    assert(pieces(last, c) =~= seq![last]);
    if parts.len() == 1 {
        assert(parts =~= seq![last]);
    } else {
        let rest = parts.drop_last();
        assert forall|i: int| 0 <= i < rest.len() implies !(#[trigger] rest[i]).contains(c) by {
            assert(rest[i] == parts[i]);
        }
        joined_pieces_read_back(rest, c);
        pieces_of_both(joined(rest, seq![c]), c, last);
        assert(rest + seq![last] =~= parts);
    }
}

/// No piece holds the separator.
pub proof fn pieces_hold_no_separator(value: Seq<char>, c: char)
    ensures
        pieces(value, c).len() > 0,
        forall|i: int| 0 <= i < pieces(value, c).len() ==> !(#[trigger] pieces(value, c)[i]).contains(
            c,
        ),
    decreases value.len(),
{
    lemma_index_of(value, c);
    let n = index_of(value, c);
    if n < value.len() {
        let rest = value.skip(n + 1);
        pieces_hold_no_separator(rest, c);
        assert forall|i: int| 0 <= i < pieces(value, c).len() implies !(#[trigger] pieces(
            value,
            c,
        )[i]).contains(c) by {
            if i > 0 {
                assert(pieces(value, c)[i] == pieces(rest, c)[i - 1]);
            } else {
                assert(pieces(value, c)[0] == value.take(n));
            }
        }
    }
}

} // verus!
