//! What a search by text finds.

use vstd::prelude::*;

use crate::memory::{title_of, MemoryView};
use crate::order::{self, text_less, Ranked};
use crate::order_laws::{is_ranking, sorting_puts_in_rank};
use crate::search::{
    grep_score, grepped, lower_form, occurrences, open_terms, quoted_terms, terms_of, terms_query,
    ResultView, SearchResult,
};
use crate::text::{joined, occurs};

verus! {

/// Whether a text stands somewhere in another.
pub open spec fn is_within(part: Seq<char>, whole: Seq<char>) -> bool {
    exists|k: int|
        0 <= k && k + part.len() <= whole.len() && #[trigger] whole.subrange(k, k + part.len())
            == part
}

proof fn lemma_within(part: Seq<char>, whole: Seq<char>)
    ensures
        occurs(whole, part) == is_within(part, whole),
{
    if occurs(whole, part) {
        let k = choose|k: int| 0 <= k <= whole.len() && #[trigger] part.is_prefix_of(whole.skip(k));
        assert(whole.subrange(k, k + part.len()) =~= whole.skip(k).take(part.len() as int));
    }
    if is_within(part, whole) {
        let k = choose|k: int|
            0 <= k && k + part.len() <= whole.len() && #[trigger] whole.subrange(
                k,
                k + part.len(),
            ) == part;
        assert(whole.skip(k).take(part.len() as int) =~= whole.subrange(k, k + part.len()));
        assert(part.is_prefix_of(whole.skip(k)));
    }
}

proof fn lemma_count_within(whole: Seq<char>, part: Seq<char>)
    ensures
        occurrences(whole, part) > 0 <==> is_within(part, whole),
    decreases whole.len(),
{
    if part.len() == 0 {
        assert(whole.subrange(0, 0int + part.len()) =~= part);
    } else if whole.len() > 0 {
        if part.is_prefix_of(whole) {
            assert(whole.subrange(0, 0int + part.len()) =~= part);
        } else {
            let rest = whole.drop_first();
            lemma_count_within(rest, part);
            if is_within(part, rest) {
                let k = choose|k: int|
                    0 <= k && k + part.len() <= rest.len() && #[trigger] rest.subrange(
                        k,
                        k + part.len(),
                    ) == part;
                assert(whole.subrange(k + 1, k + 1 + part.len()) =~= part);
            }
            if is_within(part, whole) {
                let k = choose|k: int|
                    0 <= k && k + part.len() <= whole.len() && #[trigger] whole.subrange(
                        k,
                        k + part.len(),
                    ) == part;
                if k == 0 {
                    assert(whole.take(part.len() as int) =~= part);
                    assert(part.is_prefix_of(whole));
                }
                assert(rest.subrange(k - 1, k - 1 + part.len()) =~= part);
            }
        }
    }
}

/// Whether a memory, or the file that it was read from, holds what is looked
/// for, whatever the case of the letters: in its title, its body or its tags.
pub open spec fn holds_query(memory: MemoryView, raw: Seq<char>, query: Seq<char>) -> bool {
    is_within(
        lower_form(query),
        lower_form(
            title_of(memory) + "\n"@ + memory.body + "\n"@ + joined(memory.metadata.tags, " "@),
        ),
    ) || is_within(lower_form(query), lower_form(raw))
}

proof fn lemma_scored(memory: MemoryView, raw: Seq<char>, query: Seq<char>)
    ensures
        grep_score(memory, raw, query) > 0 <==> holds_query(memory, raw, query),
{
    let haystack = title_of(memory) + "\n"@ + memory.body + "\n"@ + joined(
        memory.metadata.tags,
        " "@,
    );
    lemma_count_within(lower_form(haystack), lower_form(query));
    lemma_within(lower_form(query), lower_form(raw));
}

/// What is listed about a memory that was found.
pub open spec fn hit_of(file: (MemoryView, Seq<char>), query: Seq<char>) -> ResultView {
    ResultView {
        id: file.0.metadata.id,
        memory_type: file.0.metadata.memory_type.name(),
        title: title_of(file.0),
        path: match file.0.path {
            Some(path) => path,
            None => "<memory:"@ + file.0.metadata.id + ">"@,
        },
        source: "grep"@,
        score: grep_score(file.0, file.1, query) as u128,
    }
}

proof fn lemma_grepped(files: Seq<(MemoryView, Seq<char>)>, query: Seq<char>, hit: ResultView)
    ensures
        grepped(files, query).contains(hit) <==> exists|i: int|
            0 <= i < files.len() && holds_query(files[i].0, files[i].1, query) && hit_of(
                #[trigger] files[i],
                query,
            ) == hit,
    decreases files.len(),
{
    let all = grepped(files, query);
    if files.len() > 0 {
        let rest = files.drop_last();
        let last = files.last();
        let before = grepped(rest, query);
        lemma_grepped(rest, query, hit);
        lemma_scored(last.0, last.1, query);
        assert(files[files.len() - 1] == last);
        if all.contains(hit) {
            if before.contains(hit) {
                let i = choose|i: int|
                    0 <= i < rest.len() && holds_query(rest[i].0, rest[i].1, query) && hit_of(
                        #[trigger] rest[i],
                        query,
                    ) == hit;
                assert(files[i] == rest[i]);
            } else {
                let k = choose|k: int| 0 <= k < all.len() && all[k] == hit;
                if k < before.len() {
                    assert(before[k] == hit);
                }
                assert(hit_of(files[files.len() - 1], query) == hit);
            }
        }
        if exists|i: int|
            0 <= i < files.len() && holds_query(files[i].0, files[i].1, query) && hit_of(
                #[trigger] files[i],
                query,
            ) == hit {
            let i = choose|i: int|
                0 <= i < files.len() && holds_query(files[i].0, files[i].1, query) && hit_of(
                    #[trigger] files[i],
                    query,
                ) == hit;
            if i < rest.len() {
                assert(rest[i] == files[i]);
                let k = choose|k: int| 0 <= k < before.len() && before[k] == hit;
                assert(all[k] == hit);
            } else {
                assert(all[before.len() as int] == hit);
            }
        }
    }
}

/// How many of the files hold what is looked for.
pub open spec fn hit_count(files: Seq<(MemoryView, Seq<char>)>, query: Seq<char>) -> nat
    decreases files.len(),
{
    if files.len() == 0 {
        0
    } else {
        hit_count(files.drop_last(), query) + if holds_query(
            files.last().0,
            files.last().1,
            query,
        ) {
            1nat
        } else {
            0nat
        }
    }
}

proof fn lemma_hit_count(files: Seq<(MemoryView, Seq<char>)>, query: Seq<char>)
    ensures
        grepped(files, query).len() == hit_count(files, query),
    decreases files.len(),
{
    if files.len() > 0 {
        lemma_hit_count(files.drop_last(), query);
        lemma_scored(files.last().0, files.last().1, query);
    }
}

proof fn lemma_ranks()
    ensures
        is_ranking(|left: ResultView, right: ResultView| SearchResult::ranks_before(left, right)),
{
    let before = |left: ResultView, right: ResultView| SearchResult::ranks_before(left, right);
    assert forall|a: ResultView, b: ResultView| #[trigger] before(a, b) implies !before(b, a) by {
        order::text_less_is_total(a.id, b.id);
    }
    assert forall|a: ResultView, b: ResultView, c: ResultView|
        !(#[trigger] before(b, a)) && !(#[trigger] before(c, b)) implies !before(c, a) by {
        order::text_less_is_total(b.id, a.id);
        order::text_less_is_total(c.id, b.id);
        if text_less(c.id, a.id) && a.id != b.id && text_less(a.id, b.id) {
            order::text_less_is_transitive(c.id, a.id, b.id);
        }
    }
}

/// What a search by text lists.
pub open spec fn listed_hits(files: Seq<(MemoryView, Seq<char>)>, query: Seq<char>) -> Seq<
    ResultView,
> {
    order::ranked::<SearchResult>(grepped(files, query))
}

/// A search by text lists exactly the memories that hold what is looked for.
pub proof fn search_finds_what_holds_the_query(
    files: Seq<(MemoryView, Seq<char>)>,
    query: Seq<char>,
    hit: ResultView,
)
    ensures
        listed_hits(files, query).contains(hit) <==> exists|i: int|
            0 <= i < files.len() && holds_query(files[i].0, files[i].1, query) && hit_of(
                #[trigger] files[i],
                query,
            ) == hit,
        listed_hits(files, query).len() == hit_count(files, query),
{
    let before = |left: ResultView, right: ResultView| SearchResult::ranks_before(left, right);
    let all = grepped(files, query);
    lemma_grepped(files, query, hit);
    lemma_hit_count(files, query);
    lemma_ranks();
    sorting_puts_in_rank(all, before);
    order::lemma_sorted_members(all, before);
    assert(listed_hits(files, query).contains(hit) <==> all.contains(hit));
}

/// The better a result, the earlier it stands; among equals the ids decide.
pub proof fn best_results_come_first(results: Seq<ResultView>, i: int, j: int)
    requires
        0 <= i < j < order::ranked::<SearchResult>(results).len(),
    ensures
        ({
            let ranked = order::ranked::<SearchResult>(results);
            &&& ranked[i].score >= ranked[j].score
            &&& ranked[i].score == ranked[j].score ==> !text_less(ranked[j].id, ranked[i].id)
        }),
{
    let before = |left: ResultView, right: ResultView| SearchResult::ranks_before(left, right);
    lemma_ranks();
    sorting_puts_in_rank(results, before);
    let ranked = order::ranked::<SearchResult>(results);
    assert(!before(ranked[j], ranked[i]));
}

/// A text that is looked for counts once where it stands first, and goes on to
/// count behind that; where it does not stand at all it does not count.
pub proof fn occurrences_are_counted_one_by_one(whole: Seq<char>, part: Seq<char>, first: int)
    requires
        part.len() > 0,
        0 <= first <= whole.len(),
        forall|k: int|
            0 <= k < first && k + part.len() <= whole.len() ==> #[trigger] whole.subrange(
                k,
                k + part.len(),
            ) != part,
    ensures
        first + part.len() <= whole.len() && whole.subrange(first, first + part.len()) == part
            ==> occurrences(whole, part) == 1 + occurrences(
            whole.skip(first + part.len()),
            part,
        ),
        first == whole.len() ==> occurrences(whole, part) == 0,
    decreases first,
{
    if first == 0 {
        if part.len() <= whole.len() && whole.subrange(0, 0int + part.len()) == part {
            assert(whole.take(part.len() as int) =~= part);
            assert(part.is_prefix_of(whole));
        }
    } else {
        let rest = whole.drop_first();
        assert(!part.is_prefix_of(whole)) by {
            if part.is_prefix_of(whole) {
                assert(whole.subrange(0, 0int + part.len()) =~= part);
            }
        }
        assert forall|k: int|
            0 <= k < first - 1 && k + part.len() <= rest.len() implies #[trigger] rest.subrange(
            k,
            k + part.len(),
        ) != part by {
            assert(rest.subrange(k, k + part.len()) =~= whole.subrange(k + 1, k + 1 + part.len()));
        }
        occurrences_are_counted_one_by_one(rest, part, first - 1);
        if first + part.len() <= whole.len() {
            assert(rest.subrange(first - 1, first - 1 + part.len()) =~= whole.subrange(
                first,
                first + part.len(),
            ));
            assert(rest.skip(first - 1 + part.len()) =~= whole.skip(first + part.len()));
        }
    }
}

/// What a memory says counts as often as it is said; what stands in its file
/// only counts once.
pub proof fn scores_count_what_is_said(memory: MemoryView, raw: Seq<char>, query: Seq<char>)
    ensures
        ({
            let said = lower_form(
                title_of(memory) + "\n"@ + memory.body + "\n"@ + joined(memory.metadata.tags, " "@),
            );
            let wanted = lower_form(query);
            grep_score(memory, raw, query) == if is_within(wanted, said) {
                occurrences(said, wanted)
            } else if is_within(wanted, lower_form(raw)) {
                1
            } else {
                0
            }
        }),
{
    let said = lower_form(
        title_of(memory) + "\n"@ + memory.body + "\n"@ + joined(memory.metadata.tags, " "@),
    );
    lemma_count_within(said, lower_form(query));
    lemma_within(lower_form(query), lower_form(raw));
}

// Terms.

proof fn lemma_open_terms(left: Seq<char>, right: Seq<char>, flags: Seq<bool>, rest: Seq<bool>)
    requires
        flags.len() == left.len() + 1,
        rest.len() == right.len(),
        !flags.last(),
    ensures
        forall|c: char|
            open_terms(#[trigger] left.push(c) + right, flags + rest) == (
                terms_of(left, flags) + open_terms(right, rest).0,
                open_terms(right, rest).1,
            ),
    decreases right.len(),
{
    assert forall|c: char|
        open_terms(#[trigger] left.push(c) + right, flags + rest) == (
            terms_of(left, flags) + open_terms(right, rest).0,
            open_terms(right, rest).1,
        ) by {
        let whole = left.push(c) + right;
        if right.len() == 0 {
            assert(whole =~= left.push(c));
            assert(left.push(c).drop_last() =~= left);
            assert(flags + rest =~= flags);
            lemma_flags(left, flags, flags + rest);
            assert(terms_of(left, flags) + Seq::<Seq<char>>::empty() =~= terms_of(left, flags));
        } else {
            let head = right.drop_last();
            lemma_open_terms(left, head, flags, rest.drop_last());
            assert(whole.drop_last() =~= left.push(c) + head);
            lemma_flags(left.push(c) + head, flags + rest.drop_last(), flags + rest);
            lemma_flags(head, rest.drop_last(), rest);
            let (done, open) = open_terms(head, rest);
            assert((flags + rest)[whole.len() - 1] == rest[right.len() - 1]);
            assert(terms_of(left, flags) + done.push(open) =~= (terms_of(left, flags) + done).push(
                open,
            ));
        }
    }
}

/// Only the flags of the characters at hand count.
proof fn lemma_flags(query: Seq<char>, flags: Seq<bool>, more: Seq<bool>)
    requires
        query.len() <= flags.len() <= more.len(),
        forall|i: int| 0 <= i < query.len() ==> flags[i] == more[i],
    ensures
        open_terms(query, flags) == open_terms(query, more),
        terms_of(query, flags) == terms_of(query, more),
    decreases query.len(),
{
    if query.len() > 0 {
        lemma_flags(query.drop_last(), flags, more);
    }
}

/// What stands between terms parts them: the terms on both sides of it are the
/// terms of the whole.
pub proof fn terms_are_parted(
    left: Seq<char>,
    between: char,
    right: Seq<char>,
    flags: Seq<bool>,
    rest: Seq<bool>,
)
    requires
        flags.len() == left.len() + 1,
        rest.len() == right.len(),
        !flags.last(),
    ensures
        terms_of(left.push(between) + right, flags + rest) == terms_of(left, flags) + terms_of(
            right,
            rest,
        ),
{
    lemma_open_terms(left, right, flags, rest);
    let (done, open) = open_terms(right, rest);
    assert(open_terms(left.push(between) + right, flags + rest) == (
        terms_of(left, flags) + done,
        open,
    ));
    assert(terms_of(left, flags) + done.push(open) =~= (terms_of(left, flags) + done).push(open));
}

/// A text of which every character belongs to a term is one term.
pub proof fn words_are_terms(query: Seq<char>, flags: Seq<bool>)
    requires
        flags.len() == query.len(),
        forall|i: int| 0 <= i < query.len() ==> flags[i],
    ensures
        query.len() > 0 ==> terms_of(query, flags) == seq![query],
        query.len() == 0 ==> terms_of(query, flags) == Seq::<Seq<char>>::empty(),
{
    lemma_whole_term(query, flags);
    if query.len() > 0 {
        assert(Seq::<Seq<char>>::empty().push(query) =~= seq![query]);
    }
}

proof fn lemma_whole_term(query: Seq<char>, flags: Seq<bool>)
    requires
        query.len() <= flags.len(),
        forall|i: int| 0 <= i < query.len() ==> flags[i],
    ensures
        open_terms(query, flags) == (Seq::<Seq<char>>::empty(), query),
    decreases query.len(),
{
    if query.len() > 0 {
        lemma_whole_term(query.drop_last(), flags);
        assert(query.drop_last().push(query.last()) =~= query);
    } else {
        assert(query =~= seq![]);
    }
}

/// The index is asked for all terms, each in quotes; without terms it is not
/// asked at all.
pub proof fn all_terms_are_asked_for(terms: Seq<Seq<char>>, term: Seq<char>)
    ensures
        terms_query(Seq::empty()) is None,
        terms_query(terms.push(term)) == Some(
            match terms_query(terms) {
                Some(query) => query + " AND "@,
                None => seq![],
            } + ("\""@ + term + "\""@),
        ),
{
    let all = quoted_terms(terms.push(term));
    assert(all.drop_last() =~= quoted_terms(terms));
    assert(all.last() == "\""@ + term + "\""@);
    if terms.len() == 0 {
        assert(all =~= seq!["\""@ + term + "\""@]);
        assert(Seq::<char>::empty() + ("\""@ + term + "\""@) =~= "\""@ + term + "\""@);
    }
}

} // verus!
