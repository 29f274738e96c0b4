//! Text as sequences of characters: the string operations the rest of the
//! library is built from, each with a specification over `Seq<char>`.

use vstd::prelude::*;
use vstd::string::*;

verus! {

/// `String::push` appends one character to the end of the string.
pub assume_specification[ String::push ](string: &mut String, ch: char)
    ensures
        final(string)@ == old(string)@.push(ch),
;

/// The characters of a string, as a vector.
pub fn chars_of(text: &str) -> (chars: Vec<char>)
    ensures
        chars@ == text@,
{
    let mut chars: Vec<char> = Vec::new();
    for c in iter: text.chars()
        invariant
            iter.seq() == text@,
            chars@ == text@.take(iter.index()),
    {
        chars.push(c);
        assert(text@.take(iter.index() + 1) =~= text@.take(iter.index()).push(c));
    }
    assert(text@.take(text@.len() as int) =~= text@);
    chars
}

/// Whether two strings hold the same characters.
pub fn same(left: &str, right: &str) -> (equal: bool)
    ensures
        equal == (left@ == right@),
{
    left.to_owned() == right.to_owned()
}

// White space and trimming.

/// A character of Unicode's `White_Space` property.
pub open spec fn is_space(c: char) -> bool {
    ||| '\u{9}' <= c <= '\u{D}'
    ||| c == ' '
    ||| c == '\u{85}'
    ||| c == '\u{A0}'
    ||| c == '\u{1680}'
    ||| '\u{2000}' <= c <= '\u{200A}'
    ||| c == '\u{2028}'
    ||| c == '\u{2029}'
    ||| c == '\u{202F}'
    ||| c == '\u{205F}'
    ||| c == '\u{3000}'
}

pub fn is_whitespace(c: char) -> (space: bool)
    ensures
        space == is_space(c),
{
    ('\u{9}' <= c && c <= '\u{D}') || c == ' ' || c == '\u{85}' || c == '\u{A0}' || c == '\u{1680}'
        || ('\u{2000}' <= c && c <= '\u{200A}') || c == '\u{2028}' || c == '\u{2029}' || c
        == '\u{202F}' || c == '\u{205F}' || c == '\u{3000}'
}

/// `text` without the white space at its start.
pub open spec fn trimmed_start(text: Seq<char>) -> Seq<char>
    decreases text.len(),
{
    if text.len() > 0 && is_space(text[0]) {
        trimmed_start(text.drop_first())
    } else {
        text
    }
}

/// `text` without the white space at its end.
pub open spec fn trimmed_end(text: Seq<char>) -> Seq<char>
    decreases text.len(),
{
    if text.len() > 0 && is_space(text.last()) {
        trimmed_end(text.drop_last())
    } else {
        text
    }
}

/// `text` without the white space around it.
pub open spec fn trimmed(text: Seq<char>) -> Seq<char> {
    trimmed_end(trimmed_start(text))
}

pub fn trim_start(text: &str) -> (rest: &str)
    ensures
        rest@ == trimmed_start(text@),
{
    let chars = chars_of(text);
    let mut start: usize = 0;
    assert(text@.skip(0) =~= text@);
    while start < chars.len() && is_whitespace(chars[start])
        invariant
            start <= chars.len(),
            chars@ == text@,
            trimmed_start(text@) == trimmed_start(text@.skip(start as int)),
        decreases chars.len() - start,
    {
        assert(text@.skip(start as int).drop_first() =~= text@.skip(start + 1));
        start = start + 1;
    }
    assert(text@.skip(start as int) =~= text@.subrange(start as int, text@.len() as int));
    text.substring_char(start, chars.len())
}

pub fn trim_end(text: &str) -> (rest: &str)
    ensures
        rest@ == trimmed_end(text@),
{
    let chars = chars_of(text);
    let mut end: usize = chars.len();
    assert(text@.take(end as int) =~= text@);
    while end > 0 && is_whitespace(chars[end - 1])
        invariant
            end <= chars.len(),
            chars@ == text@,
            trimmed_end(text@) == trimmed_end(text@.take(end as int)),
        decreases end,
    {
        assert(text@.take(end as int).drop_last() =~= text@.take(end - 1));
        end = end - 1;
    }
    assert(text@.take(end as int) =~= text@.subrange(0, end as int));
    text.substring_char(0, end)
}

pub fn trim(text: &str) -> (inner: &str)
    ensures
        inner@ == trimmed(text@),
{
    trim_end(trim_start(text))
}

// Searching for a character, and splitting.

/// How many characters stand before the first `c`: the length of `text` where
/// it holds none.
pub open spec fn index_of(text: Seq<char>, c: char) -> int
    decreases text.len(),
{
    if text.len() == 0 || text[0] == c {
        0
    } else {
        1 + index_of(text.drop_first(), c)
    }
}

pub proof fn lemma_index_of(text: Seq<char>, c: char)
    ensures
        0 <= index_of(text, c) <= text.len(),
        forall|i: int| 0 <= i < index_of(text, c) ==> text[i] != c,
        index_of(text, c) < text.len() ==> text[index_of(text, c)] == c,
        index_of(text, c) < text.len() <==> text.contains(c),
    decreases text.len(),
{
    if text.len() > 0 && text[0] != c {
        let rest = text.drop_first();
        lemma_index_of(rest, c);
        let n = index_of(rest, c);
        assert forall|i: int| 0 <= i < 1 + n implies text[i] != c by {
            if i > 0 {
                assert(rest[i - 1] == text[i]);
            }
        }
        if n < rest.len() {
            assert(text[n + 1] == rest[n]);
        } else if text.contains(c) {
            let k = choose|k: int| 0 <= k < text.len() && text[k] == c;
            assert(rest[k - 1] == c);
        }
    }
}

/// The first position holding `c` is where the search ends.
pub proof fn lemma_index_of_is(text: Seq<char>, c: char, n: int)
    requires
        0 <= n <= text.len(),
        forall|i: int| 0 <= i < n ==> text[i] != c,
        n < text.len() ==> text[n] == c,
    ensures
        index_of(text, c) == n,
{
    lemma_index_of(text, c);
}

/// The first position at or after `start` that holds `c`.
pub fn find_from(chars: &Vec<char>, c: char, start: usize) -> (found: usize)
    requires
        start <= chars.len(),
    ensures
        start <= found <= chars.len(),
        found == start + index_of(chars@.skip(start as int), c),
{
    let mut found: usize = start;
    while found < chars.len() && chars[found] != c
        invariant
            start <= found <= chars.len(),
            forall|i: int| start <= i < found ==> chars@[i] != c,
        decreases chars.len() - found,
    {
        found = found + 1;
    }
    proof {
        lemma_index_of_is(chars@.skip(start as int), c, found - start);
    }
    found
}

pub fn contains_char(text: &str, c: char) -> (found: bool)
    ensures
        found == text@.contains(c),
{
    let chars = chars_of(text);
    let at = find_from(&chars, c, 0);
    proof {
        assert(text@.skip(0) =~= text@);
        lemma_index_of(text@, c);
    }
    at < chars.len()
}

/// What stands before and after the first `c`.
pub open spec fn split_once_at(text: Seq<char>, c: char) -> Option<(Seq<char>, Seq<char>)> {
    let n = index_of(text, c);
    if n < text.len() {
        Some((text.take(n), text.skip(n + 1)))
    } else {
        None
    }
}

pub fn split_once<'a>(text: &'a str, c: char) -> (parts: Option<(&'a str, &'a str)>)
    ensures
        parts matches Some((before, after)) ==> split_once_at(text@, c) == Some(
            (before@, after@),
        ),
        parts is None ==> split_once_at(text@, c) is None,
{
    let chars = chars_of(text);
    let at = find_from(&chars, c, 0);
    assert(text@.skip(0) =~= text@);
    if at < chars.len() {
        assert(text@.take(at as int) =~= text@.subrange(0, at as int));
        assert(text@.skip(at + 1) =~= text@.subrange(at + 1, text@.len() as int));
        Some((text.substring_char(0, at), text.substring_char(at + 1, chars.len())))
    } else {
        None
    }
}

/// The pieces of `text` between the occurrences of `c`.
pub open spec fn pieces(text: Seq<char>, c: char) -> Seq<Seq<char>>
    decreases text.len(),
{
    let n = index_of(text, c);
    if n < text.len() {
        proof {
            lemma_index_of(text, c);
        }
        seq![text.take(n)] + pieces(text.skip(n + 1), c)
    } else {
        seq![text]
    }
}

pub fn split<'a>(text: &'a str, c: char) -> (parts: Vec<&'a str>)
    ensures
        parts.deep_view() == pieces(text@, c),
{
    let chars = chars_of(text);
    let mut parts: Vec<&'a str> = Vec::new();
    let mut start: usize = 0;
    let mut at: usize = find_from(&chars, c, 0);
    assert(parts.deep_view() + pieces(text@.skip(0), c) =~= pieces(text@, c)) by {
        assert(text@.skip(0) =~= text@);
    }
    while at < chars.len()
        invariant
            chars@ == text@,
            start <= at <= chars.len(),
            at == start + index_of(text@.skip(start as int), c),
            parts.deep_view() + pieces(text@.skip(start as int), c) == pieces(text@, c),
        decreases chars.len() - start,
    {
        let ghost rest = text@.skip(start as int);
        let ghost before = parts.deep_view();
        parts.push(text.substring_char(start, at));
        proof {
            lemma_index_of(rest, c);
            assert(rest.take(at - start) =~= text@.subrange(start as int, at as int));
            assert(rest.skip(at - start + 1) =~= text@.skip(at + 1));
            assert(parts.deep_view() =~= before.push(rest.take(at - start)));
            assert(parts.deep_view() + pieces(text@.skip(at + 1), c) =~= before + (seq![
                rest.take(at - start),
            ] + pieces(text@.skip(at + 1), c)));
        }
        start = at + 1;
        at = find_from(&chars, c, start);
    }
    let ghost before = parts.deep_view();
    parts.push(text.substring_char(start, chars.len()));
    proof {
        let rest = text@.skip(start as int);
        lemma_index_of(rest, c);
        assert(rest =~= text@.subrange(start as int, text@.len() as int));
        assert(parts.deep_view() =~= before + seq![rest]);
    }
    parts
}

/// `line` without one carriage return at its end.
pub open spec fn without_return(line: Seq<char>) -> Seq<char> {
    if line.len() > 0 && line.last() == '\r' {
        line.drop_last()
    } else {
        line
    }
}

/// The lines of `text`. A line ends at a line feed, which may have a carriage
/// return before it; neither belongs to the line.
pub open spec fn line_seq(text: Seq<char>) -> Seq<Seq<char>>
    decreases text.len(),
{
    let n = index_of(text, '\n');
    if text.len() == 0 {
        seq![]
    } else if n < text.len() {
        proof {
            lemma_index_of(text, '\n');
        }
        seq![without_return(text.take(n))] + line_seq(text.skip(n + 1))
    } else {
        seq![text]
    }
}

pub fn lines<'a>(text: &'a str) -> (found: Vec<&'a str>)
    ensures
        found.deep_view() == line_seq(text@),
{
    let chars = chars_of(text);
    let mut found: Vec<&'a str> = Vec::new();
    let mut start: usize = 0;
    assert(found.deep_view() + line_seq(text@.skip(0)) =~= line_seq(text@)) by {
        assert(text@.skip(0) =~= text@);
    }
    while start < chars.len()
        invariant
            chars@ == text@,
            start <= chars.len(),
            found.deep_view() + line_seq(text@.skip(start as int)) == line_seq(text@),
        decreases chars.len() - start,
    {
        let at = find_from(&chars, '\n', start);
        let ghost rest = text@.skip(start as int);
        let ghost before = found.deep_view();
        proof {
            lemma_index_of(rest, '\n');
        }
        if at < chars.len() {
            let mut end: usize = at;
            if start < at && chars[at - 1] == '\r' {
                end = at - 1;
            }
            found.push(text.substring_char(start, end));
            proof {
                let line = rest.take(at - start);
                assert(without_return(line) =~= text@.subrange(start as int, end as int));
                assert(rest.skip(at - start + 1) =~= text@.skip(at + 1));
                assert(found.deep_view() =~= before.push(without_return(line)));
                assert(found.deep_view() + line_seq(text@.skip(at + 1)) =~= before + (seq![
                    without_return(line),
                ] + line_seq(text@.skip(at + 1))));
            }
            start = at + 1;
        } else {
            found.push(text.substring_char(start, chars.len()));
            proof {
                assert(rest =~= text@.subrange(start as int, text@.len() as int));
                assert(found.deep_view() =~= before + seq![rest]);
                assert(text@.skip(text@.len() as int) =~= Seq::<char>::empty());
                assert(found.deep_view() + line_seq(Seq::<char>::empty()) =~= found.deep_view());
            }
            start = chars.len();
        }
    }
    proof {
        assert(text@.skip(text@.len() as int) =~= Seq::<char>::empty());
        assert(found.deep_view() + line_seq(Seq::<char>::empty()) =~= found.deep_view());
    }
    found
}

// Putting texts together.

/// The texts of `parts`, with `separator` between any two of them.
pub open spec fn joined(parts: Seq<Seq<char>>, separator: Seq<char>) -> Seq<char>
    decreases parts.len(),
{
    if parts.len() == 0 {
        seq![]
    } else if parts.len() == 1 {
        parts[0]
    } else {
        joined(parts.drop_last(), separator) + separator + parts.last()
    }
}

pub fn join(parts: &Vec<String>, separator: &str) -> (whole: String)
    ensures
        whole@ == joined(parts.deep_view(), separator@),
{
    let mut whole = String::new();
    let mut i: usize = 0;
    let ghost all = parts.deep_view();
    assert(all.take(0) =~= seq![]);
    while i < parts.len()
        invariant
            i <= parts.len(),
            all == parts.deep_view(),
            whole@ == joined(all.take(i as int), separator@),
        decreases parts.len() - i,
    {
        if i > 0 {
            whole.append(separator);
        }
        whole.append(parts[i].as_str());
        assert(all.take(i + 1).drop_last() =~= all.take(i as int));
        assert(all.take(i + 1).last() == all[i as int]);
        assert(i == 0 ==> whole@ =~= all[0]);
        i = i + 1;
    }
    assert(all.take(parts.len() as int) =~= all);
    whole
}

pub fn join_slices(parts: &Vec<&str>, separator: &str) -> (whole: String)
    ensures
        whole@ == joined(parts.deep_view(), separator@),
{
    let mut whole = String::new();
    let mut i: usize = 0;
    let ghost all = parts.deep_view();
    assert(all.take(0) =~= seq![]);
    while i < parts.len()
        invariant
            i <= parts.len(),
            all == parts.deep_view(),
            whole@ == joined(all.take(i as int), separator@),
        decreases parts.len() - i,
    {
        if i > 0 {
            whole.append(separator);
        }
        whole.append(parts[i]);
        assert(all.take(i + 1).drop_last() =~= all.take(i as int));
        assert(all.take(i + 1).last() == all[i as int]);
        assert(i == 0 ==> whole@ =~= all[0]);
        i = i + 1;
    }
    assert(all.take(parts.len() as int) =~= all);
    whole
}

/// The characters from `start` up to `end`, as a string of its own.
pub fn string_of(chars: &Vec<char>, start: usize, end: usize) -> (text: String)
    requires
        start <= end <= chars.len(),
    ensures
        text@ == chars@.subrange(start as int, end as int),
{
    let mut text = String::new();
    let mut i: usize = start;
    while i < end
        invariant
            start <= i <= end <= chars.len(),
            text@ == chars@.subrange(start as int, i as int),
        decreases end - i,
    {
        text.push(chars[i]);
        assert(chars@.subrange(start as int, i + 1) =~= chars@.subrange(
            start as int,
            i as int,
        ).push(chars@[i as int]));
        i = i + 1;
    }
    text
}

/// `first` followed by `second`.
pub fn concat2(first: &str, second: &str) -> (whole: String)
    ensures
        whole@ == first@ + second@,
{
    first.to_owned().concat(second)
}

/// `first`, `second` and `third`, one after the other.
pub fn concat3(first: &str, second: &str, third: &str) -> (whole: String)
    ensures
        whole@ == first@ + second@ + third@,
{
    first.to_owned().concat(second).concat(third)
}

pub fn concat4(first: &str, second: &str, third: &str, fourth: &str) -> (whole: String)
    ensures
        whole@ == first@ + second@ + third@ + fourth@,
{
    first.to_owned().concat(second).concat(third).concat(fourth)
}

/// A copy of each text.
pub fn clone_texts(texts: &Vec<String>) -> (copies: Vec<String>)
    ensures
        copies.deep_view() == texts.deep_view(),
{
    let copies = texts.clone();
    assert(copies.deep_view() =~= texts.deep_view());
    copies
}

/// A copy of a text that may be missing.
pub fn clone_optional(text: &Option<String>) -> (copy: Option<String>)
    ensures
        copy.deep_view() == text.deep_view(),
{
    match text {
        Some(text) => Some(text.clone()),
        None => None,
    }
}

// Prefixes, suffixes and substrings.

pub fn same_optional(left: &Option<String>, right: &Option<String>) -> (equal: bool)
    ensures
        equal == (left.deep_view() == right.deep_view()),
{
    match (left, right) {
        (None, None) => true,
        (Some(left), Some(right)) => same(left.as_str(), right.as_str()),
        _ => false,
    }
}

pub fn starts_with(text: &str, prefix: &str) -> (found: bool)
    ensures
        found == prefix@.is_prefix_of(text@),
{
    let chars = chars_of(text);
    let wanted = chars_of(prefix);
    matches_at(&chars, 0, &wanted)
}

pub fn ends_with(text: &str, suffix: &str) -> (found: bool)
    ensures
        found == suffix@.is_suffix_of(text@),
{
    let chars = chars_of(text);
    let wanted = chars_of(suffix);
    if wanted.len() > chars.len() {
        return false;
    }
    let start: usize = chars.len() - wanted.len();
    assert(text@.skip(start as int).take(wanted.len() as int) =~= text@.subrange(
        start as int,
        text@.len() as int,
    ));
    matches_at(&chars, start, &wanted)
}

/// Whether `wanted` stands in `chars` at `start`.
pub fn matches_at(chars: &Vec<char>, start: usize, wanted: &Vec<char>) -> (found: bool)
    requires
        start <= chars.len(),
    ensures
        found == wanted@.is_prefix_of(chars@.skip(start as int)),
        found ==> start + wanted.len() <= chars.len(),
{
    if chars.len() - start < wanted.len() {
        return false;
    }
    let mut i: usize = 0;
    let ghost rest = chars@.skip(start as int);
    while i < wanted.len()
        invariant
            i <= wanted.len(),
            wanted.len() <= chars.len() - start,
            start <= chars.len(),
            rest == chars@.skip(start as int),
            forall|k: int| 0 <= k < i ==> wanted@[k] == rest[k],
        decreases wanted.len() - i,
    {
        if chars[start + i] != wanted[i] {
            assert(rest[i as int] == chars@[start + i]);
            assert(rest.subrange(0, wanted.len() as int)[i as int] != wanted@[i as int]);
            return false;
        }
        i = i + 1;
    }
    assert(rest.subrange(0, wanted.len() as int) =~= wanted@);
    true
}

/// What follows `prefix`, where `text` begins with it.
pub fn strip_prefix<'a>(text: &'a str, prefix: &str) -> (rest: Option<&'a str>)
    ensures
        rest is Some <==> prefix@.is_prefix_of(text@),
        rest matches Some(rest) ==> rest@ == text@.skip(prefix@.len() as int),
{
    let chars = chars_of(text);
    let wanted = chars_of(prefix);
    assert(text@.skip(0) =~= text@);
    if matches_at(&chars, 0, &wanted) {
        assert(text@.skip(wanted.len() as int) =~= text@.subrange(
            wanted.len() as int,
            text@.len() as int,
        ));
        Some(text.substring_char(wanted.len(), chars.len()))
    } else {
        None
    }
}

/// Whether `wanted` occurs in `text`.
pub open spec fn occurs(text: Seq<char>, wanted: Seq<char>) -> bool {
    exists|i: int| 0 <= i <= text.len() && #[trigger] wanted.is_prefix_of(text.skip(i))
}

pub fn contains(text: &str, wanted: &str) -> (found: bool)
    ensures
        found == occurs(text@, wanted@),
{
    let chars = chars_of(text);
    let sought = chars_of(wanted);
    let mut i: usize = 0;
    while i <= chars.len()
        invariant
            i <= chars.len() + 1,
            chars@ == text@,
            sought@ == wanted@,
            forall|k: int| 0 <= k < i ==> !(#[trigger] wanted@.is_prefix_of(text@.skip(k))),
        decreases chars.len() + 1 - i,
    {
        if matches_at(&chars, i, &sought) {
            return true;
        }
        if i == chars.len() {
            return false;
        }
        i = i + 1;
    }
    false
}

/// `text` with every occurrence of `wanted`, found from left to right, replaced.
pub open spec fn replaced(text: Seq<char>, wanted: Seq<char>, by: Seq<char>) -> Seq<char>
    decreases text.len(),
{
    if text.len() == 0 || wanted.len() == 0 {
        text
    } else if wanted.is_prefix_of(text) {
        by + replaced(text.skip(wanted.len() as int), wanted, by)
    } else {
        seq![text[0]] + replaced(text.drop_first(), wanted, by)
    }
}

/// Replaces every occurrence of a text that is not empty.
pub fn replace(text: &str, wanted: &str, by: &str) -> (result: String)
    requires
        wanted@.len() > 0,
    ensures
        result@ == replaced(text@, wanted@, by@),
{
    let chars = chars_of(text);
    let sought = chars_of(wanted);
    let mut result = String::new();
    let mut i: usize = 0;
    assert(text@.skip(0) =~= text@);
    assert(result@ + replaced(text@, wanted@, by@) =~= replaced(text@, wanted@, by@));
    while i < chars.len()
        invariant
            i <= chars.len(),
            chars@ == text@,
            sought@ == wanted@,
            wanted@.len() > 0,
            result@ + replaced(text@.skip(i as int), wanted@, by@) == replaced(
                text@,
                wanted@,
                by@,
            ),
        decreases chars.len() - i,
    {
        let ghost rest = text@.skip(i as int);
        let ghost before = result@;
        if matches_at(&chars, i, &sought) {
            result.append(by);
            assert(rest.skip(wanted@.len() as int) =~= text@.skip(i + wanted@.len()));
            assert(before + (by@ + replaced(rest.skip(wanted@.len() as int), wanted@, by@))
                =~= result@ + replaced(rest.skip(wanted@.len() as int), wanted@, by@));
            i = i + sought.len();
        } else {
            result.push(chars[i]);
            assert(rest.drop_first() =~= text@.skip(i + 1));
            assert(before + (seq![rest[0]] + replaced(rest.drop_first(), wanted@, by@))
                =~= result@ + replaced(rest.drop_first(), wanted@, by@));
            i = i + 1;
        }
    }
    assert(result@ + replaced(text@.skip(i as int), wanted@, by@) =~= result@);
    result
}

// ASCII letters.

pub open spec fn lower_char(c: char) -> char {
    if 'A' <= c <= 'Z' {
        (c as u8 + 32) as char
    } else {
        c
    }
}

pub open spec fn upper_char(c: char) -> char {
    if 'a' <= c <= 'z' {
        (c as u8 - 32) as char
    } else {
        c
    }
}

/// `text` with its ASCII letters in lower case.
pub open spec fn ascii_lower(text: Seq<char>) -> Seq<char> {
    text.map_values(|c: char| lower_char(c))
}

/// `text` with its ASCII letters in upper case.
pub open spec fn ascii_upper(text: Seq<char>) -> Seq<char> {
    text.map_values(|c: char| upper_char(c))
}

pub fn to_ascii_lowercase(text: &str) -> (lower: String)
    ensures
        lower@ == ascii_lower(text@),
{
    let chars = chars_of(text);
    let mut lower = String::new();
    let mut i: usize = 0;
    while i < chars.len()
        invariant
            i <= chars.len(),
            chars@ == text@,
            lower@ == ascii_lower(text@).take(i as int),
        decreases chars.len() - i,
    {
        let c = chars[i];
        if 'A' <= c && c <= 'Z' {
            lower.push((c as u8 + 32) as char);
        } else {
            lower.push(c);
        }
        assert(ascii_lower(text@).take(i + 1) =~= ascii_lower(text@).take(i as int).push(
            lower_char(c),
        ));
        i = i + 1;
    }
    assert(ascii_lower(text@).take(i as int) =~= ascii_lower(text@));
    lower
}

pub fn to_ascii_uppercase(text: &str) -> (upper: String)
    ensures
        upper@ == ascii_upper(text@),
{
    let chars = chars_of(text);
    let mut upper = String::new();
    let mut i: usize = 0;
    while i < chars.len()
        invariant
            i <= chars.len(),
            chars@ == text@,
            upper@ == ascii_upper(text@).take(i as int),
        decreases chars.len() - i,
    {
        let c = chars[i];
        if 'a' <= c && c <= 'z' {
            upper.push((c as u8 - 32) as char);
        } else {
            upper.push(c);
        }
        assert(ascii_upper(text@).take(i + 1) =~= ascii_upper(text@).take(i as int).push(
            upper_char(c),
        ));
        i = i + 1;
    }
    assert(ascii_upper(text@).take(i as int) =~= ascii_upper(text@));
    upper
}

// Words.

/// How many characters stand before the first white space.
pub open spec fn word_length(text: Seq<char>) -> int
    decreases text.len(),
{
    if text.len() == 0 || is_space(text[0]) {
        0
    } else {
        1 + word_length(text.drop_first())
    }
}

pub proof fn lemma_word_length(text: Seq<char>)
    ensures
        0 <= word_length(text) <= text.len(),
        forall|i: int| 0 <= i < word_length(text) ==> !is_space(#[trigger] text[i]),
        word_length(text) < text.len() ==> is_space(text[word_length(text)]),
    decreases text.len(),
{
    if text.len() > 0 && !is_space(text[0]) {
        let rest = text.drop_first();
        lemma_word_length(rest);
        assert forall|i: int| 0 <= i < word_length(text) implies !is_space(#[trigger] text[i]) by {
            if i > 0 {
                assert(rest[i - 1] == text[i]);
            }
        }
        if word_length(rest) < rest.len() {
            assert(text[word_length(text)] == rest[word_length(rest)]);
        }
    }
}

pub proof fn lemma_trimmed_start(text: Seq<char>)
    ensures
        trimmed_start(text).len() <= text.len(),
        trimmed_start(text) == text.skip(text.len() - trimmed_start(text).len()),
        trimmed_start(text).len() > 0 ==> !is_space(trimmed_start(text)[0]),
    decreases text.len(),
{
    if text.len() > 0 && is_space(text[0]) {
        lemma_trimmed_start(text.drop_first());
        let rest = trimmed_start(text);
        assert(text.drop_first().skip(text.len() - 1 - rest.len()) =~= text.skip(
            text.len() - rest.len(),
        ));
    } else {
        assert(text.skip(0) =~= text);
    }
}

pub proof fn lemma_trimmed_end(text: Seq<char>)
    ensures
        trimmed_end(text).len() <= text.len(),
        trimmed_end(text) == text.take(trimmed_end(text).len() as int),
        trimmed_end(text).len() > 0 ==> !is_space(trimmed_end(text).last()),
    decreases text.len(),
{
    if text.len() > 0 && is_space(text.last()) {
        lemma_trimmed_end(text.drop_last());
        let rest = trimmed_end(text);
        assert(text.drop_last().take(rest.len() as int) =~= text.take(rest.len() as int));
    } else {
        assert(text.take(text.len() as int) =~= text);
    }
}

/// The words of `text`: what stands between its runs of white space.
pub open spec fn words(text: Seq<char>) -> Seq<Seq<char>>
    decreases text.len(),
{
    let rest = trimmed_start(text);
    if rest.len() == 0 {
        seq![]
    } else {
        proof {
            lemma_trimmed_start(text);
            lemma_word_length(rest);
        }
        seq![rest.take(word_length(rest))] + words(rest.skip(word_length(rest)))
    }
}

pub fn split_whitespace<'a>(text: &'a str) -> (found: Vec<&'a str>)
    ensures
        found.deep_view() == words(text@),
{
    let chars = chars_of(text);
    let mut found: Vec<&'a str> = Vec::new();
    let mut start: usize = 0;
    assert(text@.skip(0) =~= text@);
    assert(found.deep_view() + words(text@) =~= words(text@));
    while start < chars.len()
        invariant
            chars@ == text@,
            start <= chars.len(),
            found.deep_view() + words(text@.skip(start as int)) == words(text@),
        decreases chars.len() - start,
    {
        let ghost rest = text@.skip(start as int);
        if is_whitespace(chars[start]) {
            assert(rest.drop_first() =~= text@.skip(start + 1));
            start = start + 1;
        } else {
            let mut end: usize = start;
            while end < chars.len() && !is_whitespace(chars[end])
                invariant
                    chars@ == text@,
                    start <= end <= chars.len(),
                    rest == text@.skip(start as int),
                    word_length(rest) == (end - start) + word_length(text@.skip(end as int)),
                decreases chars.len() - end,
            {
                assert(text@.skip(end as int).drop_first() =~= text@.skip(end + 1));
                end = end + 1;
            }
            let ghost before = found.deep_view();
            found.push(text.substring_char(start, end));
            proof {
                assert(rest.take(end - start) =~= text@.subrange(start as int, end as int));
                assert(rest.skip(end - start) =~= text@.skip(end as int));
                assert(found.deep_view() =~= before.push(rest.take(end - start)));
                assert(found.deep_view() + words(text@.skip(end as int)) =~= before + (seq![
                    rest.take(end - start),
                ] + words(text@.skip(end as int))));
                assert(!is_space(rest[0]));
                lemma_word_length(rest);
            }
            start = end;
        }
    }
    assert(found.deep_view() + words(text@.skip(start as int)) =~= found.deep_view());
    found
}

/// The words of `text`, with one space between any two of them.
pub open spec fn collapsed(text: Seq<char>) -> Seq<char> {
    joined(words(text), seq![' '])
}

pub fn collapse(text: &str) -> (whole: String)
    ensures
        whole@ == collapsed(text@),
{
    let found = split_whitespace(text);
    proof {
        reveal_strlit(" ");
        assert(" "@ =~= seq![' ']);
    }
    join_slices(&found, " ")
}

// Quoting for messages.

/// How `{:?}` writes a text.
pub uninterp spec fn quoted_form(text: Seq<char>) -> Seq<char>;

/// Writes a text with `{:?}`, the `Debug` format of `str`: in double quotes,
/// with its special characters escaped. What it writes for a given text is only
/// named, not spelled out: it rests on tables of printable characters.
#[verifier::external_body]
pub(crate) fn quoted(text: &str) -> (written: String)
    ensures
        written@ == quoted_form(text@),
{
    format!("{text:?}")
}

// Stripping one character.

/// `text` without the characters `c` it begins with.
pub open spec fn stripped_start(text: Seq<char>, c: char) -> Seq<char>
    decreases text.len(),
{
    if text.len() > 0 && text[0] == c {
        stripped_start(text.drop_first(), c)
    } else {
        text
    }
}

/// `text` without the characters `c` it ends with.
pub open spec fn stripped_end(text: Seq<char>, c: char) -> Seq<char>
    decreases text.len(),
{
    if text.len() > 0 && text.last() == c {
        stripped_end(text.drop_last(), c)
    } else {
        text
    }
}

/// `text` without the characters `c` around it.
pub open spec fn stripped(text: Seq<char>, c: char) -> Seq<char> {
    stripped_end(stripped_start(text, c), c)
}

pub fn trim_start_matches(text: &str, c: char) -> (rest: &str)
    ensures
        rest@ == stripped_start(text@, c),
{
    let chars = chars_of(text);
    let mut start: usize = 0;
    assert(text@.skip(0) =~= text@);
    while start < chars.len() && chars[start] == c
        invariant
            start <= chars.len(),
            chars@ == text@,
            stripped_start(text@, c) == stripped_start(text@.skip(start as int), c),
        decreases chars.len() - start,
    {
        assert(text@.skip(start as int).drop_first() =~= text@.skip(start + 1));
        start = start + 1;
    }
    assert(text@.skip(start as int) =~= text@.subrange(start as int, text@.len() as int));
    text.substring_char(start, chars.len())
}

pub fn trim_end_matches(text: &str, c: char) -> (rest: &str)
    ensures
        rest@ == stripped_end(text@, c),
{
    let chars = chars_of(text);
    let mut end: usize = chars.len();
    assert(text@.take(end as int) =~= text@);
    while end > 0 && chars[end - 1] == c
        invariant
            end <= chars.len(),
            chars@ == text@,
            stripped_end(text@, c) == stripped_end(text@.take(end as int), c),
        decreases end,
    {
        assert(text@.take(end as int).drop_last() =~= text@.take(end - 1));
        end = end - 1;
    }
    assert(text@.take(end as int) =~= text@.subrange(0, end as int));
    text.substring_char(0, end)
}

pub fn trim_matches(text: &str, c: char) -> (inner: &str)
    ensures
        inner@ == stripped(text@, c),
{
    trim_end_matches(trim_start_matches(text, c), c)
}

// Splitting at more than a character.

/// What stands before and after the first occurrence of `separator`.
pub open spec fn split_once_by(text: Seq<char>, separator: Seq<char>) -> Option<
    (Seq<char>, Seq<char>),
>
    decreases text.len(),
{
    if separator.is_prefix_of(text) {
        Some((seq![], text.skip(separator.len() as int)))
    } else if text.len() == 0 {
        None
    } else {
        match split_once_by(text.drop_first(), separator) {
            Some((before, after)) => Some((seq![text[0]] + before, after)),
            None => None,
        }
    }
}

pub proof fn lemma_split_once_by(text: Seq<char>, separator: Seq<char>, n: int)
    requires
        0 <= n <= text.len(),
        forall|k: int| 0 <= k < n ==> !(#[trigger] separator.is_prefix_of(text.skip(k))),
    ensures
        split_once_by(text, separator) == (match split_once_by(text.skip(n), separator) {
            Some((before, after)) => Some((text.take(n) + before, after)),
            None => None,
        }),
    decreases n,
{
    if n == 0 {
        assert(text.skip(0) =~= text);
        assert(forall|before: Seq<char>| text.take(0) + before =~= before);
    } else {
        assert(text.skip(0) =~= text);
        assert(!separator.is_prefix_of(text.skip(0)));
        let rest = text.drop_first();
        assert forall|k: int| 0 <= k < n - 1 implies !(#[trigger] separator.is_prefix_of(
            rest.skip(k),
        )) by {
            assert(rest.skip(k) =~= text.skip(k + 1));
        }
        lemma_split_once_by(rest, separator, n - 1);
        assert(rest.skip(n - 1) =~= text.skip(n));
        assert forall|before: Seq<char>| seq![text[0]] + (rest.take(n - 1) + before) =~= #[trigger] (
        text.take(n) + before) by {}
    }
}

pub fn split_once_str<'a>(text: &'a str, separator: &str) -> (parts: Option<(&'a str, &'a str)>)
    ensures
        parts matches Some((before, after)) ==> split_once_by(text@, separator@) == Some(
            (before@, after@),
        ),
        parts is None ==> split_once_by(text@, separator@) is None,
{
    let chars = chars_of(text);
    let sought = chars_of(separator);
    let mut i: usize = 0;
    while i < chars.len()
        invariant
            i <= chars.len(),
            chars@ == text@,
            sought@ == separator@,
            forall|k: int| 0 <= k < i ==> !(#[trigger] separator@.is_prefix_of(text@.skip(k))),
        decreases chars.len() - i,
    {
        if matches_at(&chars, i, &sought) {
            proof {
                lemma_split_once_by(text@, separator@, i as int);
                assert(text@.take(i as int) + Seq::<char>::empty() =~= text@.subrange(0, i as int));
                assert(text@.skip(i as int).skip(separator@.len() as int) =~= text@.subrange(
                    i + separator@.len(),
                    text@.len() as int,
                ));
            }
            return Some(
                (
                    text.substring_char(0, i),
                    text.substring_char(i + sought.len(), chars.len()),
                ),
            );
        }
        i = i + 1;
    }
    proof {
        lemma_split_once_by(text@, separator@, i as int);
        assert(text@.skip(i as int) =~= seq![]);
    }
    if sought.len() == 0 {
        assert(text@.take(i as int) + Seq::<char>::empty() =~= text@.subrange(0, i as int));
        assert(text@.skip(i as int).skip(0) =~= text@.subrange(i as int, i as int));
        return Some((text.substring_char(0, i), text.substring_char(i, i)));
    }
    None
}

/// What stands behind the last `c`; everything where there is none.
pub open spec fn after_last(text: Seq<char>, c: char) -> Seq<char>
    decreases text.len(),
{
    if text.len() == 0 || text.last() == c {
        seq![]
    } else {
        after_last(text.drop_last(), c).push(text.last())
    }
}

pub fn rsplit_last(text: &str, c: char) -> (rest: &str)
    ensures
        rest@ == after_last(text@, c),
{
    let chars = chars_of(text);
    let mut start: usize = chars.len();
    assert(text@.take(start as int) =~= text@);
    assert(text@.skip(start as int) =~= seq![]);
    assert(after_last(text@, c) + text@.skip(start as int) =~= after_last(text@, c));
    while start > 0 && chars[start - 1] != c
        invariant
            start <= chars.len(),
            chars@ == text@,
            after_last(text@, c) == after_last(text@.take(start as int), c) + text@.skip(
                start as int,
            ),
        decreases start,
    {
        proof {
            let shorter = text@.take(start - 1);
            assert(text@.take(start as int).drop_last() =~= shorter);
            assert(after_last(shorter, c).push(text@[start - 1]) + text@.skip(start as int)
                =~= after_last(shorter, c) + text@.skip(start - 1));
        }
        start = start - 1;
    }
    assert(after_last(text@.take(start as int), c) =~= seq![]);
    assert(text@.skip(start as int) =~= text@.subrange(start as int, text@.len() as int));
    text.substring_char(start, chars.len())
}

/// What stands before the first of several characters.
pub open spec fn before_any(text: Seq<char>, marks: Seq<char>) -> Seq<char>
    decreases text.len(),
{
    if text.len() == 0 || marks.contains(text[0]) {
        seq![]
    } else {
        seq![text[0]] + before_any(text.drop_first(), marks)
    }
}

pub fn split_first<'a>(text: &'a str, marks: &Vec<char>) -> (head: &'a str)
    ensures
        head@ == before_any(text@, marks@),
{
    let chars = chars_of(text);
    let mut end: usize = 0;
    assert(text@.take(0) + before_any(text@.skip(0), marks@) =~= before_any(text@, marks@)) by {
        assert(text@.skip(0) =~= text@);
    }
    while end < chars.len()
        invariant
            end <= chars.len(),
            chars@ == text@,
            before_any(text@, marks@) == text@.take(end as int) + before_any(
                text@.skip(end as int),
                marks@,
            ),
        ensures
            end <= chars.len(),
            before_any(text@, marks@) == text@.take(end as int),
        decreases chars.len() - end,
    {
        let ghost rest = text@.skip(end as int);
        if is_one_of(chars[end], marks) {
            assert(before_any(rest, marks@) =~= seq![]);
            assert(text@.take(end as int) + before_any(rest, marks@) =~= text@.take(end as int));
            break;
        }
        proof {
            assert(rest.drop_first() =~= text@.skip(end + 1));
            assert(text@.take(end as int) + (seq![rest[0]] + before_any(
                rest.drop_first(),
                marks@,
            )) =~= text@.take(end + 1) + before_any(text@.skip(end + 1), marks@));
        }
        end = end + 1;
        assert(end == chars.len() ==> before_any(text@.skip(end as int), marks@) =~= seq![]);
        assert(end == chars.len() ==> text@.take(end as int) + before_any(
            text@.skip(end as int),
            marks@,
        ) =~= text@.take(end as int));
    }
    assert(text@.take(end as int) =~= text@.subrange(0, end as int));
    text.substring_char(0, end)
}

fn is_one_of(c: char, marks: &Vec<char>) -> (found: bool)
    ensures
        found == marks@.contains(c),
{
    let mut i: usize = 0;
    while i < marks.len()
        invariant
            i <= marks.len(),
            forall|k: int| 0 <= k < i ==> marks@[k] != c,
        decreases marks.len() - i,
    {
        if marks[i] == c {
            assert(marks@[i as int] == c);
            return true;
        }
        i = i + 1;
    }
    false
}

} // verus!
