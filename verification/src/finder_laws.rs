//! What a finder finds, and where a selection goes.

use vstd::prelude::*;

use crate::finder::{
    is_subsequence_of, lowered_words, matched, path_matches, selected_in, shown_from, shown_paths,
    FinderView,
};
use crate::picker::{
    beside, enabled_index, search_choices, starting_at, storage_choices, value_index, Motion,
    OptionView,
};
use crate::search::lower_form;
use crate::text::{occurs, words};

verus! {

// Matching.

/// Whether the characters of a text stand at some places of another, in order.
pub open spec fn stands_at(haystack: Seq<char>, needle: Seq<char>, places: Seq<int>) -> bool {
    &&& places.len() == needle.len()
    &&& forall|k: int|
        0 <= k < places.len() ==> 0 <= #[trigger] places[k] < haystack.len() && haystack[places[k]]
            == needle[k]
    &&& forall|k: int, l: int|
        0 <= k < l < places.len() ==> #[trigger] places[k] < #[trigger] places[l]
}

/// The places, each moved by one.
spec fn moved(places: Seq<int>, by: int) -> Seq<int> {
    places.map_values(|place: int| place + by)
}

/// Characters that are found stand at places of the text, in order.
pub proof fn found_characters_stand_in_order(haystack: Seq<char>, needle: Seq<char>) -> (places: Seq<
    int,
>)
    requires
        is_subsequence_of(haystack, needle),
    ensures
        stands_at(haystack, needle, places),
    decreases haystack.len(),
{
    if needle.len() == 0 {
        Seq::<int>::empty()
    } else {
        let rest = haystack.drop_first();
        if haystack[0] == needle[0] {
            let tail = found_characters_stand_in_order(rest, needle.drop_first());
            let places = seq![0int] + moved(tail, 1);
            assert forall|k: int| 0 <= k < places.len() implies 0 <= #[trigger] places[k]
                < haystack.len() && haystack[places[k]] == needle[k] by {
                if k > 0 {
                    assert(places[k] == tail[k - 1] + 1);
                    assert(rest[tail[k - 1]] == needle.drop_first()[k - 1]);
                }
            }
            assert forall|k: int, l: int| 0 <= k < l < places.len() implies #[trigger] places[k]
                < #[trigger] places[l] by {
                assert(places[l] == tail[l - 1] + 1);
                assert(0 <= tail[l - 1]);
                if k > 0 {
                    assert(places[k] == tail[k - 1] + 1);
                    assert(tail[k - 1] < tail[l - 1]);
                }
            }
            places
        } else {
            let tail = found_characters_stand_in_order(rest, needle);
            let places = moved(tail, 1);
            assert forall|k: int| 0 <= k < places.len() implies 0 <= #[trigger] places[k]
                < haystack.len() && haystack[places[k]] == needle[k] by {
                assert(places[k] == tail[k] + 1);
                assert(rest[tail[k]] == needle[k]);
            }
            assert forall|k: int, l: int| 0 <= k < l < places.len() implies #[trigger] places[k]
                < #[trigger] places[l] by {
                assert(places[k] == tail[k] + 1 && places[l] == tail[l] + 1);
                assert(tail[k] < tail[l]);
            }
            places
        }
    }
}

/// Characters that stand in a text, in order, are found.
pub proof fn characters_in_order_are_found(
    haystack: Seq<char>,
    needle: Seq<char>,
    places: Seq<int>,
)
    requires
        stands_at(haystack, needle, places),
    ensures
        is_subsequence_of(haystack, needle),
    decreases haystack.len(),
{
    if needle.len() > 0 {
        assert(0 <= places[0] < haystack.len());
        let rest = haystack.drop_first();
        let later = moved(places, -1);
        if haystack[0] == needle[0] {
            let tail = later.drop_first();
            let left = needle.drop_first();
            assert forall|k: int| 0 <= k < tail.len() implies 0 <= #[trigger] tail[k] < rest.len()
                && rest[tail[k]] == left[k] by {
                assert(tail[k] == places[k + 1] - 1);
                assert(places[0] < places[k + 1]);
                assert(haystack[places[k + 1]] == needle[k + 1]);
            }
            assert forall|k: int, l: int| 0 <= k < l < tail.len() implies #[trigger] tail[k]
                < #[trigger] tail[l] by {
                assert(tail[k] == places[k + 1] - 1 && tail[l] == places[l + 1] - 1);
                assert(places[k + 1] < places[l + 1]);
            }
            characters_in_order_are_found(rest, left, tail);
        } else {
            assert forall|k: int| 0 <= k < later.len() implies 0 <= #[trigger] later[k]
                < rest.len() && rest[later[k]] == needle[k] by {
                assert(later[k] == places[k] - 1);
                assert(haystack[places[0]] == needle[0]);
                if k > 0 {
                    assert(places[0] < places[k]);
                }
                assert(haystack[places[k]] == needle[k]);
            }
            assert forall|k: int, l: int| 0 <= k < l < later.len() implies #[trigger] later[k]
                < #[trigger] later[l] by {
                assert(later[k] == places[k] - 1 && later[l] == places[l] - 1);
                assert(places[k] < places[l]);
            }
            characters_in_order_are_found(rest, needle, later);
        }
    }
}

/// A path matches what is typed where it does so word for word, whatever the case:
/// each word stands in it, or its characters do, in order.
pub proof fn paths_match_every_word(path: Seq<char>, query: Seq<char>)
    ensures
        path_matches(path, query) <==> forall|i: int|
            0 <= i < words(query).len() ==> occurs(
                lower_form(path),
                lower_form(#[trigger] words(query)[i]),
            ) || is_subsequence_of(lower_form(path), lower_form(words(query)[i])),
{
    let all = lowered_words(query);
    assert forall|i: int| 0 <= i < all.len() implies #[trigger] all[i] == lower_form(
        words(query)[i],
    ) by {}
    if path_matches(path, query) {
        assert forall|i: int| 0 <= i < words(query).len() implies occurs(
            lower_form(path),
            lower_form(#[trigger] words(query)[i]),
        ) || is_subsequence_of(lower_form(path), lower_form(words(query)[i])) by {
            assert(all[i] == lower_form(words(query)[i]));
        }
    }
}

/// The matches among candidates are exactly those that match, in their order.
pub proof fn matches_are_those_that_match(
    candidates: Seq<Seq<char>>,
    query: Seq<char>,
    end: int,
    at: usize,
)
    requires
        0 <= end <= candidates.len() <= usize::MAX,
    ensures
        matched(seq![], candidates, query, 0, end).contains(at) <==> at < end && path_matches(
            candidates[at as int],
            query,
        ),
        forall|k: int, l: int|
            0 <= k < l < matched(seq![], candidates, query, 0, end).len() ==> #[trigger] matched(
                seq![],
                candidates,
                query,
                0,
                end,
            )[k] < #[trigger] matched(seq![], candidates, query, 0, end)[l],
        forall|k: int|
            0 <= k < matched(seq![], candidates, query, 0, end).len() ==> #[trigger] matched(
                seq![],
                candidates,
                query,
                0,
                end,
            )[k] < end,
    decreases end,
{
    let none = Seq::<usize>::empty();
    let all = matched(none, candidates, query, 0, end);
    if end > 0 {
        let before = matched(none, candidates, query, 0, end - 1);
        matches_are_those_that_match(candidates, query, end - 1, at);
        if all.contains(at) {
            let k = choose|k: int| 0 <= k < all.len() && all[k] == at;
            if k < before.len() {
                assert(before[k] == at);
                assert(before.contains(at));
            }
        }
        if before.contains(at) {
            let k = choose|k: int| 0 <= k < before.len() && before[k] == at;
            assert(all[k] == at);
        }
        if at == end - 1 && path_matches(candidates[at as int], query) {
            assert(all[before.len() as int] == at);
        }
        assert forall|k: int, l: int| 0 <= k < l < all.len() implies #[trigger] all[k]
            < #[trigger] all[l] by {
            if l < before.len() {
                assert(before[k] == all[k] && before[l] == all[l]);
            } else {
                assert(before[k] == all[k]);
            }
        }
        assert forall|k: int| 0 <= k < all.len() implies #[trigger] all[k] < end by {
            if k < before.len() {
                assert(before[k] == all[k]);
            }
        }
    }
}

/// What is selected is the candidate that the selected match stands for, and it is
/// among the paths that are shown, of which there are few.
pub proof fn selected_paths_are_shown(finder: FinderView)
    requires
        finder.well_formed(),
    ensures
        selected_in(finder) is Some <==> finder.matches.len() > 0,
        selected_in(finder) matches Some(path) ==> path
            == finder.candidates[finder.matches[finder.selected as int] as int] && shown_paths(
            finder,
        ).contains(path),
        shown_paths(finder).len() <= 200,
{
    if finder.matches.len() > 0 {
        crate::finder::selection_is_shown(finder);
        let shown = shown_paths(finder);
        let at = finder.selected - shown_from(finder);
        assert(shown[at] == finder.candidates[finder.matches[finder.selected as int] as int]);
    }
}

// Moving.

/// A selection goes round and round: it stays among the options, and one step back
/// undoes one step forth.
pub proof fn selections_go_round(at: int, length: int)
    requires
        0 <= at < length,
    ensures
        0 <= beside(at, length, Motion::Next) < length,
        0 <= beside(at, length, Motion::Previous) < length,
        beside(beside(at, length, Motion::Next), length, Motion::Previous) == at,
        beside(beside(at, length, Motion::Previous), length, Motion::Next) == at,
        at + 1 < length ==> beside(at, length, Motion::Next) == at + 1,
{
}

proof fn lemma_value_index(options: Seq<OptionView>, value: Seq<char>)
    ensures
        0 <= value_index(options, value) <= options.len(),
        value_index(options, value) < options.len() ==> options[value_index(options, value)].value
            == value,
        value_index(options, value) == options.len() ==> forall|i: int|
            0 <= i < options.len() ==> (#[trigger] options[i]).value != value,
    decreases options.len(),
{
    if options.len() > 0 && options[0].value != value {
        let rest = options.drop_first();
        lemma_value_index(rest, value);
        if value_index(options, value) == options.len() {
            assert forall|i: int| 0 <= i < options.len() implies (#[trigger] options[i]).value
                != value by {
                if i > 0 {
                    assert(rest[i - 1] == options[i]);
                }
            }
        }
    }
}

proof fn lemma_enabled_index(options: Seq<OptionView>)
    ensures
        0 <= enabled_index(options) <= options.len(),
        enabled_index(options) < options.len() ==> options[enabled_index(options)].enabled,
        forall|i: int|
            0 <= i < enabled_index(options) ==> !(#[trigger] options[i]).enabled,
    decreases options.len(),
{
    if options.len() > 0 && !options[0].enabled {
        let rest = options.drop_first();
        lemma_enabled_index(rest);
        assert forall|i: int| 0 <= i < enabled_index(options) implies !(
        #[trigger] options[i]).enabled by {
            if i > 0 {
                assert(rest[i - 1] == options[i]);
            }
        }
    }
}

/// A picker starts at the value that there is, else at the first option that can be
/// chosen.
pub proof fn pickers_start_at_the_value(options: Seq<OptionView>, current: Seq<char>)
    requires
        options.len() > 0,
    ensures
        0 <= starting_at(options, current) < options.len(),
        (exists|i: int| 0 <= i < options.len() && (#[trigger] options[i]).value == current)
            ==> options[starting_at(options, current)].value == current,
        (forall|i: int| 0 <= i < options.len() ==> (#[trigger] options[i]).value != current) && (
        exists|i: int| 0 <= i < options.len() && (#[trigger] options[i]).enabled)
            ==> options[starting_at(options, current)].enabled && forall|i: int|
            0 <= i < starting_at(options, current) ==> !(#[trigger] options[i]).enabled,
{
    lemma_value_index(options, current);
    lemma_enabled_index(options);
}

/// A vault can be kept in three ways. Memories can be searched in five, of which
/// the one by meaning cannot be chosen.
pub proof fn options_are_what_can_be_chosen(i: int)
    ensures
        storage_choices().len() == 3,
        0 <= i < 3 ==> storage_choices()[i].enabled && storage_choices()[i].value == seq![
            "local"@,
            "obsidian"@,
            "git"@,
        ][i],
        search_choices().len() == 5,
        0 <= i < 5 ==> search_choices()[i].enabled == (i != 3) && search_choices()[i].value == seq![
            "auto"@,
            "grep"@,
            "bm25"@,
            "vector"@,
            "all"@,
        ][i],
{
}

} // verus!
