//! What white space, letters and words are, and how texts are taken apart and put
//! together.

use vstd::prelude::*;

use crate::text::{
    ascii_lower, ascii_upper, is_space, joined, lemma_index_of, lemma_trimmed_end,
    lemma_trimmed_start, lemma_word_length, occurs, replaced, split_once_at, stripped, stripped_end,
    stripped_start, trimmed, trimmed_end, trimmed_start, word_length, words,
};

verus! {

/// Spaces, tabs and line ends are white space, and so are the wider spaces; what
/// can be seen of ASCII is not, and neither is a control character but those.
pub proof fn white_space_cannot_be_seen(c: char)
    ensures
        is_space(' ') && is_space('\t') && is_space('\n') && is_space('\r'),
        (c as u32) < 128 ==> (is_space(c) <==> c == ' ' || c == '\t' || c == '\n' || c == '\r' || c
            == '\u{B}' || c == '\u{C}'),
        128 <= (c as u32) ==> (is_space(c) <==> c == '\u{85}' || c == '\u{A0}' || c == '\u{1680}'
            || 0x2000 <= (c as u32) <= 0x200A || c == '\u{2028}' || c == '\u{2029}' || c
            == '\u{202F}' || c == '\u{205F}' || c == '\u{3000}'),
{
}

/// Lowering changes the capital letters of ASCII into small ones, raising the other
/// way round, and both leave everything else as it is.
pub proof fn letters_have_two_cases(text: Seq<char>, i: int)
    requires
        0 <= i < text.len(),
    ensures
        ascii_lower(text).len() == text.len(),
        ascii_upper(text).len() == text.len(),
        'A' <= text[i] <= 'Z' ==> ascii_lower(text)[i] as u32 == text[i] as u32 + 32,
        !('A' <= text[i] <= 'Z') ==> ascii_lower(text)[i] == text[i],
        'a' <= text[i] <= 'z' ==> ascii_upper(text)[i] as u32 + 32 == text[i] as u32,
        !('a' <= text[i] <= 'z') ==> ascii_upper(text)[i] == text[i],
{
}

/// What trimming takes away is white space, at both ends, and it leaves none there.
pub proof fn trimming_takes_white_space(text: Seq<char>) -> (cut: (int, int))
    ensures
        0 <= cut.0 <= cut.1 <= text.len(),
        trimmed(text) == text.subrange(cut.0, cut.1),
        forall|i: int| 0 <= i < cut.0 ==> is_space(#[trigger] text[i]),
        forall|i: int| cut.1 <= i < text.len() ==> is_space(#[trigger] text[i]),
        cut.0 < cut.1 ==> !is_space(text[cut.0]) && !is_space(text[cut.1 - 1]),
{
    lemma_trimmed_start(text);
    lemma_start_is_space(text);
    let start = trimmed_start(text);
    lemma_trimmed_end(start);
    lemma_end_is_space(start);
    let from = text.len() - start.len();
    let to = from + trimmed_end(start).len();
    assert(trimmed(text) =~= text.subrange(from, to));
    assert forall|i: int| to <= i < text.len() implies is_space(#[trigger] text[i]) by {
        assert(start[i - from] == text[i]);
    }
    if from < to {
        assert(start[0] == text[from]);
        assert(trimmed_end(start).last() == text[to - 1]);
    }
    (from, to)
}

proof fn lemma_start_is_space(text: Seq<char>)
    ensures
        forall|i: int|
            0 <= i < text.len() - trimmed_start(text).len() ==> is_space(#[trigger] text[i]),
    decreases text.len(),
{
    if text.len() > 0 && is_space(text[0]) {
        let rest = text.drop_first();
        lemma_start_is_space(rest);
        assert forall|i: int| 0 <= i < text.len() - trimmed_start(text).len() implies is_space(
            #[trigger] text[i],
        ) by {
            if i > 0 {
                assert(rest[i - 1] == text[i]);
            }
        }
    }
}

proof fn lemma_end_is_space(text: Seq<char>)
    ensures
        forall|i: int| trimmed_end(text).len() <= i < text.len() ==> is_space(#[trigger] text[i]),
    decreases text.len(),
{
    if text.len() > 0 && is_space(text.last()) {
        let rest = text.drop_last();
        lemma_end_is_space(rest);
        assert forall|i: int| trimmed_end(text).len() <= i < text.len() implies is_space(
            #[trigger] text[i],
        ) by {
            if i < rest.len() {
                assert(rest[i] == text[i]);
            }
        }
    }
}

/// Words hold no white space and are not empty.
pub proof fn words_hold_no_space(text: Seq<char>)
    ensures
        forall|k: int|
            0 <= k < words(text).len() ==> (#[trigger] words(text)[k]).len() > 0 && forall|i: int|
                0 <= i < words(text)[k].len() ==> !is_space(#[trigger] words(text)[k][i]),
    decreases text.len(),
{
    let rest = trimmed_start(text);
    lemma_trimmed_start(text);
    if rest.len() > 0 {
        lemma_word_length(rest);
        let n = word_length(rest);
        let after = rest.skip(n);
        words_hold_no_space(after);
        let all = words(text);
        assert forall|k: int| 0 <= k < all.len() implies (#[trigger] all[k]).len() > 0 && forall|
            i: int,
        |
            0 <= i < all[k].len() ==> !is_space(#[trigger] all[k][i]) by {
            if k == 0 {
                assert(all[0] == rest.take(n));
            } else {
                assert(all[k] == words(after)[k - 1]);
            }
        }
    }
}

/// White space parts words: the words on both sides of it are those of the whole,
/// and a text without white space is one word.
pub proof fn words_are_parted_by_space(left: Seq<char>, space: char, right: Seq<char>)
    requires
        is_space(space),
    ensures
        words(left + seq![space] + right) == words(left) + words(right),
        left.len() > 0 && (forall|i: int| 0 <= i < left.len() ==> !is_space(#[trigger] left[i]))
            ==> words(left) == seq![left],
        words(seq![space] + right) == words(right),
        words(Seq::<char>::empty()) == Seq::<Seq<char>>::empty(),
    decreases left.len(),
{
    let whole = left + seq![space] + right;
    let spaced = seq![space] + right;
    assert(spaced.drop_first() =~= right);
    assert(spaced[0] == space);
    assert(trimmed_start(spaced) == trimmed_start(right));
    assert(words(spaced) == words(right));
    if left.len() == 0 {
        assert(whole =~= spaced);
        assert(words(left) + words(right) =~= words(right));
    } else if is_space(left[0]) {
        let rest = left.drop_first();
        assert(whole.drop_first() =~= rest + seq![space] + right);
        assert(whole[0] == left[0]);
        words_are_parted_by_space(rest, space, right);
        assert(words(whole) == words(whole.drop_first()));
        assert(words(left) == words(rest));
    } else {
        lemma_word_length(left);
        let n = word_length(left);
        assert(n > 0) by {
            assert(word_length(left) == 1 + word_length(left.drop_first()));
            lemma_word_length(left.drop_first());
        }
        lemma_word_length_of(whole, n);
        assert(whole[0] == left[0]);
        assert(trimmed_start(whole) == whole);
        assert(trimmed_start(left) == left);
        assert(whole.take(n) =~= left.take(n));
        let rest = left.skip(n);
        assert(whole.skip(n) =~= rest + seq![space] + right);
        words_are_parted_by_space(rest, space, right);
        assert(words(whole) =~= seq![left.take(n)] + (words(rest) + words(right)));
        assert(words(left) + words(right) =~= words(whole));
        if forall|i: int| 0 <= i < left.len() ==> !is_space(#[trigger] left[i]) {
            assert(n == left.len());
            assert(left.take(n) =~= left);
            assert(rest =~= Seq::<char>::empty());
            assert(words(rest) =~= seq![]);
            assert(words(left) =~= seq![left]);
        }
    }
}

proof fn lemma_word_length_of(text: Seq<char>, n: int)
    requires
        0 <= n < text.len(),
        forall|i: int| 0 <= i < n ==> !is_space(#[trigger] text[i]),
        is_space(text[n]),
    ensures
        word_length(text) == n,
{
    lemma_word_length(text);
    let found = word_length(text);
    if found < n {
        assert(!is_space(text[found]));
    } else if found > n {
        assert(!is_space(text[n]));
    }
}

/// What is stripped of a character has it at neither end, and nothing else was
/// taken away.
pub proof fn stripping_takes_one_character(text: Seq<char>, c: char) -> (cut: (int, int))
    ensures
        0 <= cut.0 <= cut.1 <= text.len(),
        stripped(text, c) == text.subrange(cut.0, cut.1),
        forall|i: int| 0 <= i < cut.0 ==> #[trigger] text[i] == c,
        forall|i: int| cut.1 <= i < text.len() ==> #[trigger] text[i] == c,
        cut.0 < cut.1 ==> text[cut.0] != c && text[cut.1 - 1] != c,
{
    lemma_stripped_start(text, c);
    let start = stripped_start(text, c);
    lemma_stripped_end(start, c);
    let from = text.len() - start.len();
    let to = from + stripped_end(start, c).len();
    assert(stripped(text, c) =~= text.subrange(from, to));
    assert forall|i: int| to <= i < text.len() implies #[trigger] text[i] == c by {
        assert(start[i - from] == text[i]);
    }
    if from < to {
        assert(start[0] == text[from]);
        assert(start[to - from - 1] == text[to - 1]);
    }
    (from, to)
}

proof fn lemma_stripped_start(text: Seq<char>, c: char)
    ensures
        stripped_start(text, c).len() <= text.len(),
        stripped_start(text, c) == text.skip(text.len() - stripped_start(text, c).len()),
        stripped_start(text, c).len() > 0 ==> stripped_start(text, c)[0] != c,
        forall|i: int|
            0 <= i < text.len() - stripped_start(text, c).len() ==> #[trigger] text[i] == c,
    decreases text.len(),
{
    if text.len() > 0 && text[0] == c {
        let rest = text.drop_first();
        lemma_stripped_start(rest, c);
        assert(stripped_start(text, c) =~= text.skip(
            text.len() - stripped_start(text, c).len(),
        ));
        assert forall|i: int| 0 <= i < text.len() - stripped_start(text, c).len() implies
            #[trigger] text[i] == c by {
            if i > 0 {
                assert(rest[i - 1] == text[i]);
            }
        }
    } else {
        assert(text.skip(0) =~= text);
    }
}

proof fn lemma_stripped_end(text: Seq<char>, c: char)
    ensures
        stripped_end(text, c).len() <= text.len(),
        stripped_end(text, c) == text.take(stripped_end(text, c).len() as int),
        stripped_end(text, c).len() > 0 ==> text[stripped_end(text, c).len() - 1] != c,
        forall|i: int| stripped_end(text, c).len() <= i < text.len() ==> #[trigger] text[i] == c,
    decreases text.len(),
{
    if text.len() > 0 && text.last() == c {
        let rest = text.drop_last();
        lemma_stripped_end(rest, c);
        assert(stripped_end(text, c) =~= text.take(stripped_end(text, c).len() as int));
        if stripped_end(text, c).len() > 0 {
            assert(rest[stripped_end(text, c).len() - 1] == text[stripped_end(text, c).len() - 1]);
        }
        assert forall|i: int| stripped_end(text, c).len() <= i < text.len() implies
            #[trigger] text[i] == c by {
            if i < rest.len() {
                assert(rest[i] == text[i]);
            }
        }
    } else {
        assert(text.take(text.len() as int) =~= text);
    }
}

/// A text is split at the first place of a character; where it does not hold it, it
/// is not split.
pub proof fn texts_are_split_at_the_first(before: Seq<char>, c: char, after: Seq<char>)
    requires
        !before.contains(c),
    ensures
        split_once_at(before + seq![c] + after, c) == Some((before, after)),
        split_once_at(before, c) is None,
{
    let whole = before + seq![c] + after;
    crate::text::lemma_index_of_is(whole, c, before.len() as int);
    assert(whole.take(before.len() as int) =~= before);
    assert(whole.skip(before.len() as int + 1) =~= after);
    lemma_index_of(before, c);
}

/// What is joined stands in order, with the separator between any two, and nowhere
/// else.
pub proof fn joining_puts_separators_between(
    parts: Seq<Seq<char>>,
    last: Seq<char>,
    separator: Seq<char>,
)
    ensures
        joined(Seq::empty(), separator) == Seq::<char>::empty(),
        joined(seq![last], separator) == last,
        parts.len() > 0 ==> joined(parts.push(last), separator) == joined(parts, separator)
            + separator + last,
{
    let all = parts.push(last);
    assert(all.drop_last() =~= parts);
}

/// A text occurs in another where it stands at some place of it.
pub proof fn occurring_is_standing_somewhere(text: Seq<char>, wanted: Seq<char>)
    ensures
        occurs(text, wanted) <==> exists|i: int|
            0 <= i && i + wanted.len() <= text.len() && #[trigger] text.subrange(
                i,
                i + wanted.len(),
            ) == wanted,
{
    if occurs(text, wanted) {
        let i = choose|i: int| 0 <= i <= text.len() && #[trigger] wanted.is_prefix_of(text.skip(i));
        assert(text.skip(i).subrange(0, wanted.len() as int) =~= text.subrange(
            i,
            i + wanted.len(),
        ));
        assert(text.subrange(i, i + wanted.len()) == wanted);
    }
    if exists|i: int|
        0 <= i && i + wanted.len() <= text.len() && #[trigger] text.subrange(i, i + wanted.len())
            == wanted {
        let i = choose|i: int|
            0 <= i && i + wanted.len() <= text.len() && #[trigger] text.subrange(
                i,
                i + wanted.len(),
            ) == wanted;
        assert(text.skip(i).subrange(0, wanted.len() as int) =~= wanted);
        assert(wanted.is_prefix_of(text.skip(i)));
    }
}

/// Replacing goes from left to right: where the wanted text stands first it is
/// replaced, and what follows is gone through in the same way; what stands before
/// it stays.
pub proof fn replacing_goes_from_left_to_right(
    before: Seq<char>,
    wanted: Seq<char>,
    after: Seq<char>,
    by: Seq<char>,
)
    requires
        wanted.len() > 0,
        forall|k: int|
            0 <= k < before.len() ==> !(#[trigger] wanted.is_prefix_of(
                (before + wanted + after).skip(k),
            )),
    ensures
        replaced(before + wanted + after, wanted, by) == before + by + replaced(after, wanted, by),
    decreases before.len(),
{
    let whole = before + wanted + after;
    if before.len() == 0 {
        assert(whole =~= wanted + after);
        assert(whole.subrange(0, wanted.len() as int) =~= wanted);
        assert(wanted.is_prefix_of(whole));
        assert(whole.skip(wanted.len() as int) =~= after);
        assert(before + by + replaced(after, wanted, by) =~= by + replaced(after, wanted, by));
    } else {
        let rest = before.drop_first();
        assert(whole.skip(0) =~= whole);
        assert(!wanted.is_prefix_of(whole.skip(0)));
        assert(whole.drop_first() =~= rest + wanted + after);
        assert forall|k: int| 0 <= k < rest.len() implies !(#[trigger] wanted.is_prefix_of(
            (rest + wanted + after).skip(k),
        )) by {
            assert((rest + wanted + after).skip(k) =~= whole.skip(k + 1));
            assert(!wanted.is_prefix_of(whole.skip(k + 1)));
        }
        replacing_goes_from_left_to_right(rest, wanted, after, by);
        assert(whole[0] == before[0]);
        assert(seq![before[0]] + (rest + by + replaced(after, wanted, by)) =~= before + by
            + replaced(after, wanted, by));
    }
}

} // verus!
