//! Finding a directory by typing parts of its path.

use vstd::prelude::*;
use vstd::string::*;

use crate::picker::{beside, step_beside, Motion};
use crate::search::{lower_form, lowercase};
use crate::text;

verus! {

/// How many candidates are filtered at a time.
pub const FILTER_BATCH_SIZE: usize = 1024;

/// How many paths are shown at a time.
pub const RENDER_LIMIT: usize = 200;

// Matching.

/// Whether the characters of a text stand in another, in order.
pub open spec fn is_subsequence_of(haystack: Seq<char>, needle: Seq<char>) -> bool
    decreases haystack.len(),
{
    if needle.len() == 0 {
        true
    } else if haystack.len() == 0 {
        false
    } else if haystack[0] == needle[0] {
        is_subsequence_of(haystack.drop_first(), needle.drop_first())
    } else {
        is_subsequence_of(haystack.drop_first(), needle)
    }
}

pub fn is_subsequence(haystack: &str, needle: &str) -> (found: bool)
    ensures
        found == is_subsequence_of(haystack@, needle@),
{
    let chars = text::chars_of(haystack);
    let wanted = text::chars_of(needle);
    let mut i: usize = 0;
    let mut k: usize = 0;
    assert(haystack@.skip(0) =~= haystack@);
    assert(needle@.skip(0) =~= needle@);
    while i < chars.len() && k < wanted.len()
        invariant
            i <= chars.len(),
            k <= wanted.len(),
            chars@ == haystack@,
            wanted@ == needle@,
            is_subsequence_of(haystack@, needle@) == is_subsequence_of(
                haystack@.skip(i as int),
                needle@.skip(k as int),
            ),
        decreases chars.len() - i,
    {
        assert(haystack@.skip(i as int).drop_first() =~= haystack@.skip(i + 1));
        assert(needle@.skip(k as int).drop_first() =~= needle@.skip(k + 1));
        if chars[i] == wanted[k] {
            k = k + 1;
        }
        i = i + 1;
    }
    k >= wanted.len()
}

/// Whether each of the terms stands in a path, or its characters do in order.
pub open spec fn terms_match(haystack: Seq<char>, terms: Seq<Seq<char>>) -> bool {
    forall|i: int|
        0 <= i < terms.len() ==> (text::occurs(haystack, #[trigger] terms[i]) || is_subsequence_of(
            haystack,
            terms[i],
        ))
}

pub fn do_terms_match(haystack: &str, terms: &Vec<String>) -> (matching: bool)
    ensures
        matching == terms_match(haystack@, terms.deep_view()),
{
    let ghost all = terms.deep_view();
    let mut i: usize = 0;
    while i < terms.len()
        invariant
            i <= terms.len(),
            all == terms.deep_view(),
            forall|k: int|
                0 <= k < i ==> (text::occurs(haystack@, #[trigger] all[k]) || is_subsequence_of(
                    haystack@,
                    all[k],
                )),
        decreases terms.len() - i,
    {
        assert(all[i as int] == terms[i as int]@);
        if !text::contains(haystack, terms[i].as_str()) && !is_subsequence(
            haystack,
            terms[i].as_str(),
        ) {
            return false;
        }
        i = i + 1;
    }
    true
}

pub open spec fn lowered_words(query: Seq<char>) -> Seq<Seq<char>> {
    text::words(query).map_values(|word: Seq<char>| lower_form(word))
}

/// Whether a path matches what was typed, whatever its case.
pub open spec fn path_matches(path: Seq<char>, query: Seq<char>) -> bool {
    terms_match(lower_form(path), lowered_words(query))
}

pub fn fuzzy_path_matches(path: &str, query: &str) -> (matching: bool)
    ensures
        matching == path_matches(path@, query@),
{
    let words = text::split_whitespace(query);
    let ghost all = words.deep_view();
    let ghost wanted = lowered_words(query@);
    let mut terms: Vec<String> = Vec::new();
    let mut i: usize = 0;
    while i < words.len()
        invariant
            i <= words.len(),
            all == words.deep_view(),
            wanted == all.map_values(|word: Seq<char>| lower_form(word)),
            terms.deep_view() == wanted.take(i as int),
        decreases words.len() - i,
    {
        assert(all[i as int] == words[i as int]@);
        let term = lowercase(words[i]);
        let ghost before = terms.deep_view();
        let ghost model = term@;
        terms.push(term);
        assert(terms.deep_view() =~= before.push(model));
        assert(wanted.take(i + 1) =~= wanted.take(i as int).push(wanted[i as int]));
        i = i + 1;
    }
    assert(wanted.take(i as int) =~= wanted);
    do_terms_match(lowercase(path).as_str(), &terms)
}

// The finder.

/// Where typing goes.
#[derive(Clone, Copy, Debug, PartialEq, Eq, Structural)]
pub enum RootFinderFocus {
    Filter,
    Paths,
}

/// Directories below a root, and those that match what was typed. Where there is
/// a cursor, the candidates from there on have not been looked at yet.
#[derive(Debug)]
pub struct RootFinder {
    pub search_root: String,
    pub query: String,
    pub candidates: Vec<String>,
    pub matches: Vec<usize>,
    pub selected: usize,
    pub focus: RootFinderFocus,
    pub scanning: bool,
    pub refilter_cursor: Option<usize>,
}

#[verifier::ext_equal]
pub struct FinderView {
    pub search_root: Seq<char>,
    pub query: Seq<char>,
    pub candidates: Seq<Seq<char>>,
    pub matches: Seq<usize>,
    pub selected: usize,
    pub focus: RootFinderFocus,
    pub scanning: bool,
    pub refilter_cursor: Option<usize>,
}

impl View for RootFinder {
    type V = FinderView;

    open spec fn view(&self) -> FinderView {
        FinderView {
            search_root: self.search_root@,
            query: self.query@,
            candidates: self.candidates.deep_view(),
            matches: self.matches@,
            selected: self.selected,
            focus: self.focus,
            scanning: self.scanning,
            refilter_cursor: self.refilter_cursor,
        }
    }
}

impl DeepView for RootFinder {
    type V = FinderView;

    open spec fn deep_view(&self) -> FinderView {
        self@
    }
}

impl FinderView {
    /// Every match is a candidate, and the selection is one of the matches, if
    /// there are any.
    pub open spec fn well_formed(self) -> bool {
        &&& forall|i: int|
            0 <= i < self.matches.len() ==> (#[trigger] self.matches[i]) < self.candidates.len()
        &&& self.selected == 0 || self.selected < self.matches.len()
        &&& self.refilter_cursor matches Some(cursor) ==> cursor <= self.candidates.len()
        &&& self.candidates.len() <= usize::MAX
        &&& self.matches.len() <= usize::MAX
    }

    /// How many candidates have been looked at.
    pub open spec fn filtered(self) -> int {
        match self.refilter_cursor {
            Some(cursor) => cursor as int,
            None => self.candidates.len() as int,
        }
    }
}

/// A finder that starts at a directory, with its path typed already.
pub open spec fn opened(search_root: Seq<char>) -> FinderView {
    FinderView {
        search_root,
        query: search_root,
        candidates: seq![search_root],
        matches: seq![0usize],
        selected: 0,
        focus: RootFinderFocus::Filter,
        scanning: true,
        refilter_cursor: None,
    }
}

/// A finder that looks at its candidates anew.
pub open spec fn unfiltered(finder: FinderView, query: Seq<char>) -> FinderView {
    FinderView {
        query,
        matches: seq![],
        selected: 0,
        focus: RootFinderFocus::Filter,
        refilter_cursor: Some(0),
        ..finder
    }
}

/// A finder with one more candidate, which counts at once unless it has to wait
/// for its turn.
pub open spec fn with_candidate(finder: FinderView, path: Seq<char>) -> FinderView {
    FinderView {
        candidates: finder.candidates.push(path),
        matches: if finder.refilter_cursor is None && path_matches(path, finder.query) {
            finder.matches.push(finder.candidates.len() as usize)
        } else {
            finder.matches
        },
        ..finder
    }
}

pub open spec fn with_candidates(finder: FinderView, found: Seq<Seq<char>>) -> FinderView
    decreases found.len(),
{
    if found.len() == 0 {
        finder
    } else {
        with_candidate(with_candidates(finder, found.drop_last()), found.last())
    }
}

/// The matches with those among the candidates from one place up to another.
pub open spec fn matched(
    matches: Seq<usize>,
    candidates: Seq<Seq<char>>,
    query: Seq<char>,
    start: int,
    end: int,
) -> Seq<usize>
    decreases end - start,
{
    if start >= end {
        matches
    } else {
        let before = matched(matches, candidates, query, start, end - 1);
        if path_matches(candidates[end - 1], query) {
            before.push((end - 1) as usize)
        } else {
            before
        }
    }
}

/// The end of the next batch.
pub open spec fn batch_end(cursor: int, length: int) -> int {
    if cursor + FILTER_BATCH_SIZE < length {
        cursor + FILTER_BATCH_SIZE
    } else {
        length
    }
}

/// A finder after the next batch of candidates was looked at.
pub open spec fn refiltered(finder: FinderView) -> FinderView {
    match finder.refilter_cursor {
        None => finder,
        Some(cursor) => {
            let length = finder.candidates.len() as int;
            let end = batch_end(cursor as int, length);
            FinderView {
                matches: matched(finder.matches, finder.candidates, finder.query, cursor as int, end),
                refilter_cursor: if end < length {
                    Some(end as usize)
                } else {
                    None
                },
                ..finder
            }
        },
    }
}

/// A finder after directories were found, and perhaps the last of them.
pub open spec fn polled(finder: FinderView, found: Seq<Seq<char>>, finished: bool) -> FinderView {
    let grown = with_candidates(finder, found);
    refiltered(FinderView { scanning: grown.scanning && !finished, ..grown })
}

/// The place of the first shown match.
pub open spec fn shown_from(finder: FinderView) -> int {
    let half = RENDER_LIMIT / 2;
    let wanted = if finder.selected > half {
        finder.selected - half
    } else {
        0
    };
    let latest = if finder.matches.len() > RENDER_LIMIT {
        finder.matches.len() - RENDER_LIMIT
    } else {
        0
    };
    if wanted < latest {
        wanted
    } else {
        latest
    }
}

/// The place behind the last shown match.
pub open spec fn shown_to(finder: FinderView) -> int {
    if shown_from(finder) + RENDER_LIMIT < finder.matches.len() {
        shown_from(finder) + RENDER_LIMIT
    } else {
        finder.matches.len() as int
    }
}

pub open spec fn shown_paths(finder: FinderView) -> Seq<Seq<char>> {
    Seq::new(
        (shown_to(finder) - shown_from(finder)) as nat,
        |i: int| finder.candidates[finder.matches[shown_from(finder) + i] as int],
    )
}

/// The path that is selected, if any matches.
pub open spec fn selected_in(finder: FinderView) -> Option<Seq<char>> {
    if finder.selected < finder.matches.len() {
        Some(finder.candidates[finder.matches[finder.selected as int] as int])
    } else {
        None
    }
}

impl RootFinder {
    pub fn new(search_root: &str) -> (finder: RootFinder)
        ensures
            finder@ == opened(search_root@),
            finder@.well_formed(),
    {
        let mut candidates: Vec<String> = Vec::new();
        candidates.push(search_root.to_owned());
        let mut matches: Vec<usize> = Vec::new();
        matches.push(0);
        assert(candidates.deep_view() =~= seq![search_root@]);
        RootFinder {
            search_root: search_root.to_owned(),
            query: search_root.to_owned(),
            candidates,
            matches,
            selected: 0,
            focus: RootFinderFocus::Filter,
            scanning: true,
            refilter_cursor: None,
        }
    }

    fn push_candidate(&mut self, path: &str)
        requires
            old(self)@.well_formed(),
        ensures
            final(self)@ == with_candidate(old(self)@, path@),
            final(self)@.well_formed(),
    {
        let index = self.candidates.len();
        let ghost before = self.candidates.deep_view();
        self.candidates.push(path.to_owned());
        assert(self.candidates.deep_view() =~= before.push(path@));
        if self.refilter_cursor.is_none() && fuzzy_path_matches(path, self.query.as_str()) {
            self.matches.push(index);
        }
        assert(self.candidates.deep_view().len() == self.candidates.len());
        assert(self.matches@.len() == self.matches.len());
    }

    fn refilter(&mut self)
        requires
            old(self)@.well_formed(),
        ensures
            final(self)@ == refiltered(old(self)@),
            final(self)@.well_formed(),
    {
        let ghost start = self@;
        let cursor = match self.refilter_cursor {
            Some(cursor) => cursor,
            None => {
                return ;
            },
        };
        let length = self.candidates.len();
        assert(self.candidates.deep_view().len() == length);
        let end: usize = if length - cursor > FILTER_BATCH_SIZE {
            cursor + FILTER_BATCH_SIZE
        } else {
            length
        };
        let mut i: usize = cursor;
        while i < end
            invariant
                cursor <= i <= end <= length,
                length == self.candidates.len(),
                self@.candidates.len() == length,
                start.well_formed(),
                start.refilter_cursor == Some(cursor),
                self@ == (FinderView {
                    matches: matched(
                        start.matches,
                        start.candidates,
                        start.query,
                        cursor as int,
                        i as int,
                    ),
                    ..start
                }),
                self@.well_formed(),
            decreases end - i,
        {
            assert(self.candidates.deep_view()[i as int] == self.candidates[i as int]@);
            if fuzzy_path_matches(self.candidates[i].as_str(), self.query.as_str()) {
                self.matches.push(i);
                assert(self.matches@.len() == self.matches.len());
            }
            i = i + 1;
        }
        self.refilter_cursor =
        if end < length {
            Some(end)
        } else {
            None
        };
    }

    /// Takes in directories that were found, and looks at the next candidates.
    pub fn poll(&mut self, found: &Vec<String>, finished: bool)
        requires
            old(self)@.well_formed(),
        ensures
            final(self)@ == polled(old(self)@, found.deep_view(), finished),
            final(self)@.well_formed(),
    {
        let ghost start = self@;
        let ghost all = found.deep_view();
        let mut i: usize = 0;
        while i < found.len()
            invariant
                i <= found.len(),
                all == found.deep_view(),
                self@ == with_candidates(start, all.take(i as int)),
                self@.well_formed(),
            decreases found.len() - i,
        {
            assert(all.take(i + 1).drop_last() =~= all.take(i as int));
            assert(all.take(i + 1).last() == found[i as int]@);
            self.push_candidate(found[i].as_str());
            i = i + 1;
        }
        assert(all.take(i as int) =~= all);
        if finished {
            self.scanning = false;
        }
        self.refilter();
    }

    /// The first shown match, and the paths from there on.
    pub fn visible_matching_paths(&self) -> (shown: (usize, Vec<String>))
        requires
            self@.well_formed(),
        ensures
            shown.0 == shown_from(self@),
            shown.1.deep_view() == shown_paths(self@),
    {
        let length = self.matches.len();
        assert(self@.matches.len() == length);
        let half: usize = RENDER_LIMIT / 2;
        let wanted: usize = if self.selected > half {
            self.selected - half
        } else {
            0
        };
        let latest: usize = if length > RENDER_LIMIT {
            length - RENDER_LIMIT
        } else {
            0
        };
        let start: usize = if wanted < latest {
            wanted
        } else {
            latest
        };
        let end: usize = if length - start > RENDER_LIMIT {
            start + RENDER_LIMIT
        } else {
            length
        };
        assert(start == shown_from(self@));
        assert(end == shown_to(self@));
        let ghost all = shown_paths(self@);
        let mut paths: Vec<String> = Vec::new();
        let mut i: usize = start;
        while i < end
            invariant
                start <= i <= end <= self.matches.len(),
                start == shown_from(self@),
                end == shown_to(self@),
                self@.well_formed(),
                all == shown_paths(self@),
                paths.deep_view() == all.take(i - start),
            decreases end - i,
        {
            let index = self.matches[i];
            assert(self@.matches[i as int] == index);
            assert(self@.candidates[index as int] == self.candidates[index as int]@);
            let ghost before = paths.deep_view();
            paths.push(self.candidates[index].clone());
            assert(paths.deep_view() =~= before.push(self.candidates[index as int]@));
            assert(all.take(i - start + 1) =~= all.take(i - start).push(all[i - start]));
            i = i + 1;
        }
        assert(all.take(i - start) =~= all);
        (start, paths)
    }

    pub fn selected_path(&self) -> (path: Option<&str>)
        requires
            self@.well_formed(),
        ensures
            path.deep_view() == selected_in(self@),
    {
        if self.selected < self.matches.len() {
            let index = self.matches[self.selected];
            assert(self@.matches[self.selected as int] == index);
            assert(self@.candidates[index as int] == self.candidates[index as int]@);
            Some(self.candidates[index].as_str())
        } else {
            None
        }
    }

    pub fn move_selection(&mut self, motion: Motion)
        requires
            old(self)@.well_formed(),
        ensures
            final(self)@ == (if old(self)@.matches.len() > 0 {
                FinderView {
                    selected: beside(
                        old(self)@.selected as int,
                        old(self)@.matches.len() as int,
                        motion,
                    ) as usize,
                    ..old(self)@
                }
            } else {
                old(self)@
            }),
            final(self)@.well_formed(),
    {
        let length = self.matches.len();
        if length > 0 {
            self.selected = step_beside(self.selected, length, motion);
        }
    }

    pub fn toggle_focus(&mut self) -> (focus: RootFinderFocus)
        requires
            old(self)@.well_formed(),
        ensures
            focus == (match old(self)@.focus {
                RootFinderFocus::Filter => RootFinderFocus::Paths,
                RootFinderFocus::Paths => RootFinderFocus::Filter,
            }),
            final(self)@ == (FinderView { focus, ..old(self)@ }),
            final(self)@.well_formed(),
    {
        self.focus =
        match self.focus {
            RootFinderFocus::Filter => RootFinderFocus::Paths,
            RootFinderFocus::Paths => RootFinderFocus::Filter,
        };
        self.focus
    }

    fn set_query(&mut self, query: String)
        requires
            old(self)@.well_formed(),
        ensures
            final(self)@ == unfiltered(old(self)@, query@),
            final(self)@.well_formed(),
    {
        self.focus = RootFinderFocus::Filter;
        self.query = query;
        self.matches = Vec::new();
        self.selected = 0;
        self.refilter_cursor = Some(0);
        assert(self.matches@ =~= seq![]);
    }

    pub fn push_query(&mut self, value: &str)
        requires
            old(self)@.well_formed(),
        ensures
            final(self)@ == unfiltered(old(self)@, old(self)@.query + value@),
            final(self)@.well_formed(),
    {
        let query = text::concat2(self.query.as_str(), value);
        self.set_query(query);
    }

    pub fn pop_query(&mut self)
        requires
            old(self)@.well_formed(),
        ensures
            final(self)@ == unfiltered(old(self)@, without_last(old(self)@.query)),
            final(self)@.well_formed(),
    {
        let query = pop_char(self.query.as_str());
        self.set_query(query);
    }

    pub fn clear_query(&mut self)
        requires
            old(self)@.well_formed(),
        ensures
            final(self)@ == unfiltered(old(self)@, seq![]),
            final(self)@.well_formed(),
    {
        let query = String::new();
        assert(query@ =~= seq![]);
        self.set_query(query);
    }
}

/// A text without its last character.
pub open spec fn without_last(value: Seq<char>) -> Seq<char> {
    if value.len() == 0 {
        value
    } else {
        value.drop_last()
    }
}

pub fn pop_char(value: &str) -> (shorter: String)
    ensures
        shorter@ == without_last(value@),
{
    let chars = text::chars_of(value);
    if chars.len() == 0 {
        return value.to_owned();
    }
    assert(value@.subrange(0, chars.len() - 1) =~= value@.drop_last());
    text::string_of(&chars, 0, chars.len() - 1)
}

// Laws.

/// Whether a finder shows those of the candidates it has looked at that match,
/// in order, and no others.
pub open spec fn shows_what_matches(finder: FinderView) -> bool {
    finder.matches == matched(seq![], finder.candidates, finder.query, 0, finder.filtered())
}

proof fn lemma_matched_grows(
    candidates: Seq<Seq<char>>,
    more: Seq<Seq<char>>,
    query: Seq<char>,
    end: int,
)
    requires
        0 <= end <= candidates.len() <= more.len(),
        more.take(candidates.len() as int) == candidates,
    ensures
        matched(seq![], more, query, 0, end) == matched(seq![], candidates, query, 0, end),
    decreases end,
{
    if end > 0 {
        lemma_matched_grows(candidates, more, query, end - 1);
        assert(more[end - 1] == more.take(candidates.len() as int)[end - 1]);
    }
}

proof fn lemma_matched_joins(
    candidates: Seq<Seq<char>>,
    query: Seq<char>,
    start: int,
    end: int,
)
    requires
        0 <= start <= end,
    ensures
        matched(
            matched(seq![], candidates, query, 0, start),
            candidates,
            query,
            start,
            end,
        ) == matched(seq![], candidates, query, 0, end),
    decreases end - start,
{
    if start < end {
        lemma_matched_joins(candidates, query, start, end - 1);
    }
}

proof fn lemma_with_candidates(finder: FinderView, found: Seq<Seq<char>>)
    requires
        shows_what_matches(finder),
        finder.well_formed(),
        finder.candidates.len() + found.len() <= usize::MAX,
    ensures
        shows_what_matches(with_candidates(finder, found)),
        with_candidates(finder, found).candidates == finder.candidates + found,
        with_candidates(finder, found).query == finder.query,
        with_candidates(finder, found).refilter_cursor == finder.refilter_cursor,
    decreases found.len(),
{
    if found.len() == 0 {
        assert(finder.candidates + found =~= finder.candidates);
    } else {
        let rest = found.drop_last();
        lemma_with_candidates(finder, rest);
        let before = with_candidates(finder, rest);
        let after = with_candidates(finder, found);
        assert(after.candidates =~= finder.candidates + found);
        assert(after.candidates.take(before.candidates.len() as int) =~= before.candidates);
        lemma_matched_grows(
            before.candidates,
            after.candidates,
            finder.query,
            before.filtered(),
        );
        if finder.refilter_cursor is None {
            assert(after.filtered() == before.filtered() + 1);
            assert(after.candidates[after.filtered() - 1] == found.last());
        } else {
            assert(after.filtered() == before.filtered());
        }
    }
}

/// A finder whose query was changed shows, after any number of polls, exactly
/// those of the candidates it has looked at that match.
pub proof fn finder_shows_what_matches(
    finder: FinderView,
    query: Seq<char>,
    found: Seq<Seq<char>>,
    finished: bool,
)
    requires
        finder.well_formed(),
        finder.candidates.len() + found.len() <= usize::MAX,
    ensures
        shows_what_matches(unfiltered(finder, query)),
        shows_what_matches(finder) ==> shows_what_matches(polled(finder, found, finished)),
{
    let fresh = unfiltered(finder, query);
    assert(matched(seq![], fresh.candidates, query, 0, 0) =~= seq![]);
    if shows_what_matches(finder) {
        lemma_with_candidates(finder, found);
        let grown = with_candidates(finder, found);
        match grown.refilter_cursor {
            None => {},
            Some(cursor) => {
                let length = grown.candidates.len() as int;
                lemma_matched_joins(
                    grown.candidates,
                    grown.query,
                    cursor as int,
                    batch_end(cursor as int, length),
                );
            },
        }
    }
}

/// The selected match is among those that are shown.
pub proof fn selection_is_shown(finder: FinderView)
    requires
        finder.well_formed(),
        finder.matches.len() > 0,
    ensures
        shown_from(finder) <= finder.selected < shown_to(finder),
{
}

} // verus!
