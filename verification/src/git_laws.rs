//! Laws of the ignore file of a vault.

use vstd::prelude::*;

use crate::git::{ignore_line, ignores, with_entries, with_entry};
use crate::text::{
    index_of, lemma_index_of, lemma_index_of_is, line_seq, stripped_end, trimmed, without_return,
};
use crate::text_laws::{is_line, line_seq_of_line, trimmed_before_space, trimmed_of_tight};

verus! {

/// The lines of a text that ends a line, and of what follows, are those of both.
pub proof fn lines_of_both(head: Seq<char>, rest: Seq<char>)
    requires
        head.len() > 0 ==> head.last() == '\n',
    ensures
        line_seq(head + rest) == line_seq(head) + line_seq(rest),
    decreases head.len(),
{
    if head.len() == 0 {
        assert(head + rest =~= rest);
        assert(line_seq(head) + line_seq(rest) =~= line_seq(rest));
    } else {
        lemma_index_of(head, '\n');
        let n = index_of(head, '\n');
        let whole = head + rest;
        assert(n < head.len()) by {
            if n >= head.len() {
                assert(head[head.len() - 1] == '\n');
            }
        }
        assert forall|i: int| 0 <= i < n implies whole[i] != '\n' by {
            assert(whole[i] == head[i]);
        }
        lemma_index_of_is(whole, '\n', n);
        let tail = head.skip(n + 1);
        assert(tail.len() > 0 ==> tail.last() == head.last());
        lines_of_both(tail, rest);
        assert(whole.skip(n + 1) =~= tail + rest);
        assert(whole.take(n) =~= head.take(n));
        assert(line_seq(whole) =~= line_seq(head) + line_seq(rest));
    }
}

proof fn lemma_ending_a_line(raw: Seq<char>, entry: Seq<char>)
    requires
        raw.len() > 0,
        raw.last() != '\n',
        ignores(raw, entry),
    ensures
        ignores(raw.push('\n'), entry),
    decreases raw.len(),
{
    let whole = raw.push('\n');
    let i = choose|i: int|
        0 <= i < line_seq(raw).len() && ignore_line(#[trigger] line_seq(raw)[i]) == stripped_end(
            entry,
            '/',
        );
    lemma_index_of(raw, '\n');
    let n = index_of(raw, '\n');
    if n < raw.len() {
        assert forall|k: int| 0 <= k < n implies whole[k] != '\n' by {
            assert(whole[k] == raw[k]);
        }
        lemma_index_of_is(whole, '\n', n);
        let rest = raw.skip(n + 1);
        assert(whole.skip(n + 1) =~= rest.push('\n'));
        assert(whole.take(n) =~= raw.take(n));
        if i == 0 {
            assert(line_seq(whole)[0] == line_seq(raw)[0]);
        } else {
            assert(line_seq(raw)[i] == line_seq(rest)[i - 1]);
            assert(rest.last() == raw.last());
            lemma_ending_a_line(rest, entry);
            let j = choose|j: int|
                0 <= j < line_seq(rest.push('\n')).len() && ignore_line(
                    #[trigger] line_seq(rest.push('\n'))[j],
                ) == stripped_end(entry, '/');
            assert(line_seq(whole)[j + 1] == line_seq(rest.push('\n'))[j]);
        }
    } else {
        assert forall|k: int| 0 <= k < raw.len() implies whole[k] != '\n' by {
            assert(whole[k] == raw[k]);
        }
        lemma_index_of_is(whole, '\n', raw.len() as int);
        assert(whole.take(raw.len() as int) =~= raw);
        assert(line_seq(whole)[0] == without_return(raw));
        if raw.last() == '\r' {
            trimmed_before_space(raw.drop_last(), '\r');
            assert(raw.drop_last().push('\r') =~= raw);
        }
        assert(ignore_line(line_seq(whole)[0]) == ignore_line(raw));
    }
}

proof fn lemma_appending(head: Seq<char>, rest: Seq<char>, entry: Seq<char>)
    requires
        head.len() > 0 ==> head.last() == '\n',
        ignores(head, entry),
    ensures
        ignores(head + rest, entry),
{
    lines_of_both(head, rest);
    let i = choose|i: int|
        0 <= i < line_seq(head).len() && ignore_line(#[trigger] line_seq(head)[i]) == stripped_end(
            entry,
            '/',
        );
    assert(line_seq(head + rest)[i] == line_seq(head)[i]);
}

/// What stands before an added entry: the file, with its last line ended.
pub open spec fn ended(raw: Seq<char>) -> Seq<char> {
    if raw.len() > 0 && raw.last() != '\n' {
        raw.push('\n')
    } else {
        raw
    }
}

proof fn lemma_with_entry(raw: Seq<char>, entry: Seq<char>)
    ensures
        with_entry(raw, entry) == (if ignores(raw, entry) {
            raw
        } else {
            ended(raw) + (entry + seq!['\n'])
        }),
{
    reveal_strlit("\n");
    assert("\n"@ =~= seq!['\n']);
    assert("\n"@.is_suffix_of(raw) <==> raw.len() > 0 && raw.last() == '\n') by {
        if raw.len() > 0 {
            assert(raw.subrange(raw.len() - 1, raw.len() as int) =~= seq![raw.last()]);
            assert(seq!['\n'][0] == '\n');
        }
    }
    if !ignores(raw, entry) {
        if raw.len() > 0 && raw.last() != '\n' {
            assert(raw + "\n"@ + entry + "\n"@ =~= raw.push('\n') + (entry + seq!['\n']));
        } else {
            assert(raw + entry + "\n"@ =~= raw + (entry + seq!['\n']));
        }
    }
}

/// An entry that is a line without white space around it is there once it was
/// added, and no entry is lost; the file goes on as it was.
pub proof fn adding_an_entry(raw: Seq<char>, entry: Seq<char>, other: Seq<char>)
    requires
        is_line(entry),
        trimmed(entry) == entry,
    ensures
        ignores(with_entry(raw, entry), entry),
        ignores(raw, other) ==> ignores(with_entry(raw, entry), other),
        raw.is_prefix_of(with_entry(raw, entry)),
{
    lemma_with_entry(raw, entry);
    let added = entry + seq!['\n'];
    if ignores(raw, entry) {
        assert(raw.subrange(0, raw.len() as int) =~= raw);
    } else {
        let head = ended(raw);
        let whole = head + added;
        lines_of_both(head, added);
        line_seq_of_line(entry, seq![]);
        assert(entry + seq!['\n'] + Seq::<char>::empty() =~= added);
        assert(line_seq(added) =~= seq![entry]);
        assert(line_seq(whole)[line_seq(head).len() as int] == entry);
        assert(ignore_line(entry) == stripped_end(entry, '/'));
        if ignores(raw, other) {
            if raw.len() > 0 && raw.last() != '\n' {
                lemma_ending_a_line(raw, other);
            }
            lemma_appending(head, added, other);
        }
        assert(whole.subrange(0, raw.len() as int) =~= raw);
    }
}

proof fn lemma_fixed_entries()
    ensures
        is_line(".rem/cache/"@),
        is_line(".rem/tx/"@),
        trimmed(".rem/cache/"@) == ".rem/cache/"@,
        trimmed(".rem/tx/"@) == ".rem/tx/"@,
{
    reveal_strlit(".rem/cache/");
    reveal_strlit(".rem/tx/");
    let cache = ".rem/cache/"@;
    let tx = ".rem/tx/"@;
    assert forall|i: int| 0 <= i < cache.len() implies cache[i] != '\n' by {}
    assert forall|i: int| 0 <= i < tx.len() implies tx[i] != '\n' by {}
    trimmed_of_tight(cache);
    trimmed_of_tight(tx);
}

/// The ignore file that a vault needs leaves out the cache and the transactions,
/// keeps what it had, and needs nothing more.
pub proof fn ignoring_is_settled(raw: Seq<char>, other: Seq<char>)
    ensures
        ignores(with_entries(raw), ".rem/cache/"@),
        ignores(with_entries(raw), ".rem/tx/"@),
        ignores(raw, other) ==> ignores(with_entries(raw), other),
        raw.is_prefix_of(with_entries(raw)),
        with_entries(with_entries(raw)) == with_entries(raw),
{
    lemma_fixed_entries();
    let first = with_entry(raw, ".rem/cache/"@);
    adding_an_entry(raw, ".rem/cache/"@, other);
    adding_an_entry(first, ".rem/tx/"@, other);
    adding_an_entry(first, ".rem/tx/"@, ".rem/cache/"@);
    let both = with_entries(raw);
    assert(both.subrange(0, raw.len() as int) =~= first.subrange(0, raw.len() as int)) by {
        assert(both.subrange(0, first.len() as int) =~= first);
        assert forall|i: int| 0 <= i < raw.len() implies both[i] == first[i] by {
            assert(both.subrange(0, first.len() as int)[i] == first[i]);
        }
    }
}

} // verus!
