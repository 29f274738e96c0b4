//! Searching memories.

use vstd::prelude::*;
use vstd::string::*;

use crate::conflict::{memory_path_label, path_label_of};
use crate::error::Error;
use crate::memory::{self, title_of, Memory, MemoryView};
use crate::order::{self, text_less, Ranked};
use crate::text;

verus! {

/// How to search.
#[derive(Clone, Copy, Debug, PartialEq, Eq, Structural)]
pub enum SearchMode {
    Auto,
    Grep,
    Bm25,
    Vector,
    All,
}

impl SearchMode {
    pub open spec fn name(self) -> Seq<char> {
        match self {
            SearchMode::Auto => "auto"@,
            SearchMode::Grep => "grep"@,
            SearchMode::Bm25 => "bm25"@,
            SearchMode::Vector => "vector"@,
            SearchMode::All => "all"@,
        }
    }

    pub fn label(self) -> (label: &'static str)
        ensures
            label@ == self.name(),
    {
        match self {
            SearchMode::Auto => "auto",
            SearchMode::Grep => "grep",
            SearchMode::Bm25 => "bm25",
            SearchMode::Vector => "vector",
            SearchMode::All => "all",
        }
    }

    pub open spec fn of_name(value: Seq<char>) -> Result<SearchMode, Seq<char>> {
        let value = text::trimmed(value);
        if value == "auto"@ {
            Ok(SearchMode::Auto)
        } else if value == "grep"@ {
            Ok(SearchMode::Grep)
        } else if value == "bm25"@ {
            Ok(SearchMode::Bm25)
        } else if value == "vector"@ {
            Ok(SearchMode::Vector)
        } else if value == "all"@ {
            Ok(SearchMode::All)
        } else {
            Err(
                "invalid search mode "@ + text::quoted_form(value)
                    + "; expected auto, grep, bm25, vector, or all"@,
            )
        }
    }

    pub fn parse_config_value(value: &str) -> (mode: Result<SearchMode, Error>)
        ensures
            match mode {
                Ok(mode) => SearchMode::of_name(value@) == Ok::<_, Seq<char>>(mode),
                Err(error) => SearchMode::of_name(value@) == Err::<SearchMode, _>(error@),
            },
    {
        let value = text::trim(value);
        if text::same(value, "auto") {
            Ok(SearchMode::Auto)
        } else if text::same(value, "grep") {
            Ok(SearchMode::Grep)
        } else if text::same(value, "bm25") {
            Ok(SearchMode::Bm25)
        } else if text::same(value, "vector") {
            Ok(SearchMode::Vector)
        } else if text::same(value, "all") {
            Ok(SearchMode::All)
        } else {
            Err(
                Error::new(
                    text::concat3(
                        "invalid search mode ",
                        text::quoted(value).as_str(),
                        "; expected auto, grep, bm25, vector, or all",
                    ),
                ),
            )
        }
    }
}

/// A label is read back.
pub proof fn search_mode_reads_back(value: SearchMode)
    ensures
        SearchMode::of_name(value.name()) == Ok::<_, Seq<char>>(value),
{
    reveal_strlit("auto");
    reveal_strlit("grep");
    reveal_strlit("bm25");
    reveal_strlit("vector");
    reveal_strlit("all");
    crate::text_laws::trimmed_of_tight(value.name());
    assert("auto"@[0] != "grep"@[0]);
    assert("auto"@[0] != "bm25"@[0]);
    assert("auto"@[0] != "vector"@[0]);
    assert("grep"@[0] != "bm25"@[0]);
    assert("auto"@.len() != "all"@.len());
    assert("grep"@.len() != "all"@.len());
    assert("bm25"@.len() != "all"@.len());
    assert("vector"@.len() != "all"@.len());
    assert("vector"@.len() != "grep"@.len());
    assert("vector"@.len() != "bm25"@.len());
}

/// Where to look.
#[derive(Clone, Copy, Debug, PartialEq, Eq, Structural)]
pub enum SearchPlan {
    Grep,
    Bm25,
    Both,
}

/// Where a mode looks for a query.
pub open spec fn plan_of(query: Seq<char>, mode: SearchMode) -> Result<SearchPlan, Seq<char>> {
    if text::trimmed(query).len() == 0 {
        Err("search query cannot be empty"@)
    } else {
        match mode {
            SearchMode::Grep => Ok(SearchPlan::Grep),
            SearchMode::Bm25 => Ok(SearchPlan::Bm25),
            SearchMode::Auto | SearchMode::All => Ok(SearchPlan::Both),
            SearchMode::Vector => Err("vector search is not configured in v1"@),
        }
    }
}

pub fn search(query: &str, mode: SearchMode) -> (plan: Result<SearchPlan, Error>)
    ensures
        match plan {
            Ok(plan) => plan_of(query@, mode) == Ok::<_, Seq<char>>(plan),
            Err(error) => plan_of(query@, mode) == Err::<SearchPlan, _>(error@),
        },
{
    if text::trim(query).is_empty() {
        return Err(Error::of("search query cannot be empty"));
    }
    match mode {
        SearchMode::Grep => Ok(SearchPlan::Grep),
        SearchMode::Bm25 => Ok(SearchPlan::Bm25),
        SearchMode::Auto | SearchMode::All => Ok(SearchPlan::Both),
        SearchMode::Vector => Err(Error::of("vector search is not configured in v1")),
    }
}

// Results.

/// A memory that was found. The higher its score, the better; scores are whole
/// numbers that stand in the order of what was measured.
#[derive(Debug)]
pub struct SearchResult {
    pub id: String,
    pub memory_type: String,
    pub title: String,
    pub path: String,
    pub source: String,
    pub score: u128,
}

#[verifier::ext_equal]
pub struct ResultView {
    pub id: Seq<char>,
    pub memory_type: Seq<char>,
    pub title: Seq<char>,
    pub path: Seq<char>,
    pub source: Seq<char>,
    pub score: u128,
}

impl View for SearchResult {
    type V = ResultView;

    open spec fn view(&self) -> ResultView {
        ResultView {
            id: self.id@,
            memory_type: self.memory_type@,
            title: self.title@,
            path: self.path@,
            source: self.source@,
            score: self.score,
        }
    }
}

impl DeepView for SearchResult {
    type V = ResultView;

    open spec fn deep_view(&self) -> ResultView {
        self@
    }
}

impl Clone for SearchResult {
    fn clone(&self) -> (copy: Self)
        ensures
            copy@ == self@,
    {
        SearchResult {
            id: self.id.clone(),
            memory_type: self.memory_type.clone(),
            title: self.title.clone(),
            path: self.path.clone(),
            source: self.source.clone(),
            score: self.score,
        }
    }
}

impl Ranked for SearchResult {
    open spec fn ranks_before(left: ResultView, right: ResultView) -> bool {
        if left.score != right.score {
            left.score > right.score
        } else {
            text_less(left.id, right.id)
        }
    }

    fn is_before(&self, other: &Self) -> (before: bool) {
        if self.score != other.score {
            self.score > other.score
        } else {
            order::is_less(self.id.as_str(), other.id.as_str())
        }
    }
}

/// Sorts what was found: the best first, and by id among equals.
pub fn rank(results: Vec<SearchResult>) -> (ranked: Vec<SearchResult>)
    ensures
        ranked.deep_view() == order::ranked::<SearchResult>(results.deep_view()),
{
    order::sort(results)
}

// Text search.

/// A text in lower case.
pub uninterp spec fn lower_form(value: Seq<char>) -> Seq<char>;

/// `str::to_lowercase`. An ASCII text is taken to have its letters replaced by
/// small ones; for others the result is only given a name.
#[verifier::external_body]
pub(crate) fn lowercase(value: &str) -> (lower: String)
    ensures
        lower@ == lower_form(value@),
        (forall|i: int| 0 <= i < value@.len() ==> (#[trigger] value@[i]) as u32 <= 0x7f) ==> lower@
            == text::ascii_lower(value@),
{
    value.to_lowercase()
}

/// How often a text occurs in another, without overlaps. The empty text occurs
/// at every end of a character.
pub open spec fn occurrences(haystack: Seq<char>, needle: Seq<char>) -> nat
    decreases haystack.len(),
{
    if needle.len() == 0 {
        haystack.len() + 1
    } else if haystack.len() == 0 {
        0
    } else if needle.is_prefix_of(haystack) {
        1 + occurrences(haystack.skip(needle.len() as int), needle)
    } else {
        occurrences(haystack.drop_first(), needle)
    }
}

fn count_occurrences(haystack: &str, needle: &str) -> (count: u128)
    ensures
        count == occurrences(haystack@, needle@),
{
    let chars = text::chars_of(haystack);
    let sought = text::chars_of(needle);
    if sought.len() == 0 {
        return chars.len() as u128 + 1;
    }
    let mut count: u128 = 0;
    let mut i: usize = 0;
    assert(haystack@.skip(0) =~= haystack@);
    while i < chars.len()
        invariant
            i <= chars.len(),
            count <= i,
            chars@ == haystack@,
            sought@ == needle@,
            needle@.len() > 0,
            occurrences(haystack@, needle@) == count + occurrences(
                haystack@.skip(i as int),
                needle@,
            ),
        decreases chars.len() - i,
    {
        let ghost rest = haystack@.skip(i as int);
        if text::matches_at(&chars, i, &sought) {
            assert(rest.skip(needle@.len() as int) =~= haystack@.skip(i + needle@.len()));
            count = count + 1;
            i = i + sought.len();
        } else {
            assert(rest.drop_first() =~= haystack@.skip(i + 1));
            i = i + 1;
        }
    }
    count
}

/// How well lowered texts match: by how often the query occurs in what a memory
/// says, or once where it occurs in its file only.
pub open spec fn match_score(haystack: Seq<char>, raw: Seq<char>, needle: Seq<char>) -> nat {
    if occurrences(haystack, needle) > 0 {
        occurrences(haystack, needle)
    } else if text::occurs(raw, needle) {
        1
    } else {
        0
    }
}

pub fn score_match(haystack: &str, raw: &str, needle: &str) -> (score: u128)
    ensures
        score == match_score(haystack@, raw@, needle@),
{
    let count = count_occurrences(haystack, needle);
    if count > 0 {
        count
    } else if text::contains(raw, needle) {
        1
    } else {
        0
    }
}

/// What a memory says: its title, its body and its tags.
pub open spec fn haystack_of(memory: MemoryView) -> Seq<char> {
    title_of(memory) + "\n"@ + memory.body + "\n"@ + text::joined(memory.metadata.tags, " "@)
}

/// How well a memory, and the file it was read from, match a query.
pub open spec fn grep_score(memory: MemoryView, raw: Seq<char>, query: Seq<char>) -> nat {
    match_score(lower_form(haystack_of(memory)), lower_form(raw), lower_form(query))
}

pub open spec fn grep_result(memory: MemoryView, score: nat) -> ResultView {
    ResultView {
        id: memory.metadata.id,
        memory_type: memory.metadata.memory_type.name(),
        title: title_of(memory),
        path: path_label_of(memory),
        source: "grep"@,
        score: score as u128,
    }
}

/// A memory, and the text of the file it was read from.
#[derive(Debug)]
pub struct GrepFile {
    pub memory: Memory,
    pub raw: String,
}

pub open spec fn grep_views(files: Seq<GrepFile>) -> Seq<(MemoryView, Seq<char>)> {
    files.map_values(|file: GrepFile| (file.memory@, file.raw@))
}

/// The memories that match a query.
pub open spec fn grepped(files: Seq<(MemoryView, Seq<char>)>, query: Seq<char>) -> Seq<ResultView>
    decreases files.len(),
{
    if files.len() == 0 {
        seq![]
    } else {
        let before = grepped(files.drop_last(), query);
        let score = grep_score(files.last().0, files.last().1, query);
        if score > 0 {
            before.push(grep_result(files.last().0, score))
        } else {
            before
        }
    }
}

/// Looks for a text in memories, whatever its case.
pub fn grep(files: &Vec<GrepFile>, query: &str) -> (results: Vec<SearchResult>)
    ensures
        results.deep_view() == order::ranked::<SearchResult>(grepped(grep_views(files@), query@)),
{
    let ghost all = grep_views(files@);
    let needle = lowercase(query);
    let mut results: Vec<SearchResult> = Vec::new();
    let mut i: usize = 0;
    assert(results.deep_view() =~= seq![]);
    while i < files.len()
        invariant
            i <= files.len(),
            all == grep_views(files@),
            needle@ == lower_form(query@),
            results.deep_view() == grepped(all.take(i as int), query@),
        decreases files.len() - i,
    {
        let memory = &files[i].memory;
        assert(all.take(i + 1).drop_last() =~= all.take(i as int));
        assert(all.take(i + 1).last() == (memory@, files[i as int].raw@));
        let mut haystack = text::concat4(memory.title().as_str(), "\n", memory.body.as_str(), "\n");
        haystack.append(text::join(&memory.metadata.tags, " ").as_str());
        let score = score_match(
            lowercase(haystack.as_str()).as_str(),
            lowercase(files[i].raw.as_str()).as_str(),
            needle.as_str(),
        );
        if score > 0 {
            let result = SearchResult {
                id: memory.metadata.id.clone(),
                memory_type: memory.metadata.memory_type.label().to_owned(),
                title: memory.title(),
                path: memory_path_label(memory),
                source: "grep".to_owned(),
                score,
            };
            let ghost before = results.deep_view();
            let ghost model = result@;
            results.push(result);
            assert(results.deep_view() =~= before.push(model));
        }
        i = i + 1;
    }
    assert(all.take(i as int) =~= all);
    order::sort(results)
}

// Queries for the index.

/// A letter or a digit of any script.
pub uninterp spec fn is_alphanumeric_char(c: char) -> bool;

/// `char::is_alphanumeric`. Of ASCII characters the letters and the digits are
/// taken to be alphanumeric, and no others; beyond ASCII the result is only
/// given a name.
#[verifier::external_body]
fn is_alphanumeric(c: char) -> (alphanumeric: bool)
    ensures
        alphanumeric == is_alphanumeric_char(c),
        c as u32 <= 0x7f ==> alphanumeric == (('a' <= c && c <= 'z') || ('A' <= c && c <= 'Z') || (
        '0' <= c && c <= '9')),
{
    c.is_alphanumeric()
}

/// Whether a character is part of a term.
pub open spec fn in_term(c: char) -> bool {
    is_alphanumeric_char(c) || c == '_'
}

pub open spec fn term_flags(query: Seq<char>) -> Seq<bool> {
    query.map_values(|c: char| in_term(c))
}

/// The terms that are closed, and the one that is open, where flags say which
/// characters are part of one.
pub open spec fn open_terms(query: Seq<char>, flags: Seq<bool>) -> (Seq<Seq<char>>, Seq<char>)
    decreases query.len(),
{
    if query.len() == 0 {
        (seq![], seq![])
    } else {
        let (done, open) = open_terms(query.drop_last(), flags);
        if flags[query.len() - 1] {
            (done, open.push(query.last()))
        } else if open.len() > 0 {
            (done.push(open), seq![])
        } else {
            (done, seq![])
        }
    }
}

/// The runs of flagged characters.
pub open spec fn terms_of(query: Seq<char>, flags: Seq<bool>) -> Seq<Seq<char>> {
    let (done, open) = open_terms(query, flags);
    if open.len() > 0 {
        done.push(open)
    } else {
        done
    }
}

pub open spec fn quoted_terms(terms: Seq<Seq<char>>) -> Seq<Seq<char>> {
    terms.map_values(|term: Seq<char>| "\""@ + term + "\""@)
}

/// A query for all of the terms; none where there are none.
pub open spec fn terms_query(terms: Seq<Seq<char>>) -> Option<Seq<char>> {
    if terms.len() == 0 {
        None
    } else {
        Some(text::joined(quoted_terms(terms), " AND "@))
    }
}

/// Makes a query for all runs of flagged characters.
pub fn query_terms(query: &str, flags: &Vec<bool>) -> (result: Option<String>)
    requires
        flags.len() == query@.len(),
    ensures
        result.deep_view() == terms_query(terms_of(query@, flags@)),
{
    let chars = text::chars_of(query);
    let mut terms: Vec<String> = Vec::new();
    let mut open = String::new();
    let ghost wrapped = |term: Seq<char>| "\""@ + term + "\""@;
    let mut i: usize = 0;
    assert(query@.take(0) =~= seq![]);
    assert(open@ =~= seq![]);
    assert(terms.deep_view() =~= open_terms(query@.take(0), flags@).0.map_values(wrapped));
    while i < chars.len()
        invariant
            i <= chars.len(),
            chars@ == query@,
            flags.len() == query@.len(),
            wrapped == (|term: Seq<char>| "\""@ + term + "\""@),
            terms.deep_view() == open_terms(query@.take(i as int), flags@).0.map_values(wrapped),
            open@ == open_terms(query@.take(i as int), flags@).1,
        decreases chars.len() - i,
    {
        let ghost (done, term) = open_terms(query@.take(i as int), flags@);
        assert(query@.take(i + 1).drop_last() =~= query@.take(i as int));
        if flags[i] {
            open.push(chars[i]);
        } else {
            if !open.as_str().is_empty() {
                let quoted = text::concat3("\"", open.as_str(), "\"");
                let ghost before = terms.deep_view();
                let ghost model = quoted@;
                terms.push(quoted);
                assert(terms.deep_view() =~= before.push(model));
                assert(done.push(term).map_values(wrapped) =~= before.push(model));
            }
            open = String::new();
            assert(open@ =~= seq![]);
        }
        i = i + 1;
    }
    assert(query@.take(i as int) =~= query@);
    let ghost (done, term) = open_terms(query@, flags@);
    if !open.as_str().is_empty() {
        let quoted = text::concat3("\"", open.as_str(), "\"");
        let ghost before = terms.deep_view();
        let ghost model = quoted@;
        terms.push(quoted);
        assert(terms.deep_view() =~= before.push(model));
        assert(done.push(term).map_values(wrapped) =~= before.push(model));
    }
    assert(terms.deep_view() == quoted_terms(terms_of(query@, flags@)));
    assert(terms.deep_view().len() == terms.len());
    if terms.len() == 0 {
        None
    } else {
        Some(text::join(&terms, " AND "))
    }
}

/// The query that the index is asked: all words of what was typed, whatever
/// stands between them.
pub fn sanitize_fts_query(query: &str) -> (result: Option<String>)
    ensures
        result.deep_view() == terms_query(terms_of(query@, term_flags(query@))),
{
    let chars = text::chars_of(query);
    let mut flags: Vec<bool> = Vec::new();
    let mut i: usize = 0;
    while i < chars.len()
        invariant
            i <= chars.len(),
            chars@ == query@,
            flags@ == term_flags(query@).take(i as int),
        decreases chars.len() - i,
    {
        flags.push(is_alphanumeric(chars[i]) || chars[i] == '_');
        assert(term_flags(query@).take(i + 1) =~= term_flags(query@).take(i as int).push(
            term_flags(query@)[i as int],
        ));
        i = i + 1;
    }
    assert(term_flags(query@).take(i as int) =~= term_flags(query@));
    query_terms(query, &flags)
}

/// Refuses a ranked search without an index.
pub fn ensure_indexed(exists: bool) -> (indexed: Result<(), Error>)
    ensures
        match indexed {
            Ok(_) => exists,
            Err(error) => !exists && error@
                == "search index does not exist; run `rem rebuild` before BM25 search"@,
        },
{
    if exists {
        Ok(())
    } else {
        Err(Error::of("search index does not exist; run `rem rebuild` before BM25 search"))
    }
}

/// What is said where a ranked search fails and its results are left out.
pub fn index_warning(path: &str, message: &str) -> (warning: String)
    ensures
        warning@ == "warn\t"@ + path@ + ": "@ + message@ + "; run `rem rebuild`"@,
{
    let mut warning = text::concat4("warn\t", path, ": ", message);
    warning.append("; run `rem rebuild`");
    warning
}

/// What a search by both means has from the ranked one. Without an index, and
/// where the index cannot be searched, it goes on without ranked results; of an
/// index that cannot be searched a warning is given.
pub fn ranked_or_none(
    exists: bool,
    path: &str,
    outcome: Result<Vec<SearchResult>, Error>,
) -> (ranked: (Vec<SearchResult>, Option<String>))
    ensures
        !exists ==> ranked.0.deep_view() == Seq::<ResultView>::empty() && ranked.1 is None,
        exists ==> match outcome {
            Ok(results) => ranked.0 == results && ranked.1 is None,
            Err(error) => {
                &&& ranked.0.deep_view() == Seq::<ResultView>::empty()
                &&& ranked.1.deep_view() == Some(
                    "warn\t"@ + path@ + ": "@ + error@ + "; run `rem rebuild`"@,
                )
            },
        },
{
    let none: Vec<SearchResult> = Vec::new();
    assert(none.deep_view() =~= Seq::<ResultView>::empty());
    if !exists {
        return (none, None);
    }
    match outcome {
        Ok(results) => (results, None),
        Err(error) => (none, Some(index_warning(path, error.message()))),
    }
}

/// Refuses to look for facts without an index of them.
pub fn facts(exists: bool) -> (indexed: Result<(), Error>)
    ensures
        match indexed {
            Ok(_) => exists,
            Err(error) => !exists && error@ == "semantic index does not exist; run `rem rebuild`"@,
        },
{
    if exists {
        Ok(())
    } else {
        Err(Error::of("semantic index does not exist; run `rem rebuild`"))
    }
}

// Merging.

/// A memory that was found in one or both places: by which of the results, in
/// the order in which they came.
#[derive(Debug)]
pub struct MergedResult {
    pub result: SearchResult,
    pub parts: Vec<usize>,
}

#[verifier::ext_equal]
pub struct MergedView {
    pub result: ResultView,
    pub parts: Seq<usize>,
}

impl View for MergedResult {
    type V = MergedView;

    open spec fn view(&self) -> MergedView {
        MergedView { result: self.result@, parts: self.parts@ }
    }
}

impl DeepView for MergedResult {
    type V = MergedView;

    open spec fn deep_view(&self) -> MergedView {
        self@
    }
}

impl Ranked for MergedResult {
    open spec fn ranks_before(left: MergedView, right: MergedView) -> bool {
        text_less(left.result.id, right.result.id)
    }

    fn is_before(&self, other: &Self) -> (before: bool) {
        order::is_less(self.result.id.as_str(), other.result.id.as_str())
    }
}

pub open spec fn merged_before() -> spec_fn(MergedView, MergedView) -> bool {
    |left: MergedView, right: MergedView| MergedResult::ranks_before(left, right)
}

/// Where the memory with that id stands; the number of results if there is none.
pub open spec fn merged_index(merged: Seq<MergedView>, id: Seq<char>) -> int
    decreases merged.len(),
{
    if merged.len() == 0 || merged[0].result.id == id {
        0
    } else {
        1 + merged_index(merged.drop_first(), id)
    }
}

/// The merged results with one more: a memory that was found before names both
/// sources.
pub open spec fn merged_with(merged: Seq<MergedView>, result: ResultView, part: usize) -> Seq<
    MergedView,
> {
    let at = merged_index(merged, result.id);
    if at < merged.len() {
        let held = merged[at];
        merged.update(
            at,
            MergedView {
                result: ResultView {
                    source: held.result.source + ","@ + result.source,
                    ..held.result
                },
                parts: held.parts.push(part),
            },
        )
    } else {
        order::inserted(merged, MergedView { result, parts: seq![part] }, merged_before())
    }
}

/// The results by their ids, each once.
pub open spec fn merged(results: Seq<ResultView>) -> Seq<MergedView>
    decreases results.len(),
{
    if results.len() == 0 {
        seq![]
    } else {
        merged_with(
            merged(results.drop_last()),
            results.last(),
            (results.len() - 1) as usize,
        )
    }
}

fn find_merged(merged: &Vec<MergedResult>, id: &str) -> (at: usize)
    ensures
        at == merged_index(merged.deep_view(), id@),
        at <= merged.len(),
{
    let ghost all = merged.deep_view();
    let mut i: usize = 0;
    assert(all.skip(0) =~= all);
    while i < merged.len()
        invariant
            i <= merged.len(),
            all == merged.deep_view(),
            merged_index(all, id@) == i + merged_index(all.skip(i as int), id@),
        decreases merged.len() - i,
    {
        assert(all.skip(i as int)[0] == merged[i as int]@);
        if text::same(merged[i].result.id.as_str(), id) {
            return i;
        }
        assert(all.skip(i as int).drop_first() =~= all.skip(i + 1));
        i = i + 1;
    }
    i
}

/// Merges results, of one place behind those of the other.
pub fn merge(results: &Vec<SearchResult>) -> (combined: Vec<MergedResult>)
    ensures
        combined.deep_view() == merged(results.deep_view()),
{
    let ghost all = results.deep_view();
    let mut combined: Vec<MergedResult> = Vec::new();
    let mut i: usize = 0;
    assert(combined.deep_view() =~= seq![]);
    while i < results.len()
        invariant
            i <= results.len(),
            all == results.deep_view(),
            combined.deep_view() == merged(all.take(i as int)),
        decreases results.len() - i,
    {
        let result = &results[i];
        let ghost before = combined.deep_view();
        assert(all.take(i + 1).drop_last() =~= all.take(i as int));
        assert(all.take(i + 1).last() == result@);
        let at = find_merged(&combined, result.id.as_str());
        if at < combined.len() {
            assert(before[at as int] == combined[at as int]@);
            let source = text::concat3(
                combined[at].result.source.as_str(),
                ",",
                result.source.as_str(),
            );
            let mut parts = combined[at].parts.clone();
            assert(parts@ =~= combined[at as int].parts@);
            parts.push(i);
            let mut held = combined[at].result.clone();
            held.source = source;
            let next = MergedResult { result: held, parts };
            let ghost model = next@;
            combined.set(at, next);
            assert(combined.deep_view() =~= before.update(at as int, model));
        } else {
            let mut parts: Vec<usize> = Vec::new();
            parts.push(i);
            let next = MergedResult { result: result.clone(), parts };
            assert(next@ == (MergedView { result: result@, parts: seq![i] }));
            order::insert_ranked(&mut combined, next);
        }
        i = i + 1;
    }
    assert(all.take(i as int) =~= all);
    combined
}

// Laws.

proof fn lemma_merged_index(merged: Seq<MergedView>, id: Seq<char>)
    ensures
        0 <= merged_index(merged, id) <= merged.len(),
        merged_index(merged, id) < merged.len() ==> merged[merged_index(merged, id)].result.id
            == id,
        forall|i: int|
            0 <= i < merged_index(merged, id) ==> (#[trigger] merged[i]).result.id != id,
    decreases merged.len(),
{
    if merged.len() > 0 && merged[0].result.id != id {
        lemma_merged_index(merged.drop_first(), id);
        let n = merged_index(merged, id);
        assert forall|i: int| 0 <= i < n implies (#[trigger] merged[i]).result.id != id by {
            if i > 0 {
                assert(merged[i] == merged.drop_first()[i - 1]);
            }
        }
    }
}

pub open spec fn has_merged(all: Seq<MergedView>, id: Seq<char>) -> bool {
    exists|i: int| 0 <= i < all.len() && (#[trigger] all[i]).result.id == id
}

pub open spec fn distinct_merged(all: Seq<MergedView>) -> bool {
    forall|i: int, j: int|
        0 <= i < j < all.len() ==> (#[trigger] all[i]).result.id != (#[trigger] all[j]).result.id
}

proof fn lemma_inserted_merged(all: Seq<MergedView>, next: MergedView)
    requires
        distinct_merged(all),
        !has_merged(all, next.result.id),
    ensures
        distinct_merged(order::inserted(all, next, merged_before())),
        forall|id: Seq<char>|
            #[trigger] has_merged(order::inserted(all, next, merged_before()), id) <==> (
            has_merged(all, id) || id == next.result.id),
    decreases all.len(),
{
    let result = order::inserted(all, next, merged_before());
    if all.len() > 0 && merged_before()(next, all.last()) {
        let rest = all.drop_last();
        let last = all.last();
        assert(all[all.len() - 1] == last);
        assert forall|i: int, j: int| 0 <= i < j < rest.len() implies (
        #[trigger] rest[i]).result.id != (#[trigger] rest[j]).result.id by {
            assert(rest[i] == all[i] && rest[j] == all[j]);
        }
        assert(!has_merged(rest, next.result.id)) by {
            if has_merged(rest, next.result.id) {
                let k = choose|k: int|
                    0 <= k < rest.len() && (#[trigger] rest[k]).result.id == next.result.id;
                assert(all[k] == rest[k]);
            }
        }
        lemma_inserted_merged(rest, next);
        let inner = order::inserted(rest, next, merged_before());
        assert(result == inner.push(last));
        assert(!has_merged(inner, last.result.id)) by {
            if has_merged(inner, last.result.id) {
                if has_merged(rest, last.result.id) {
                    let k = choose|k: int|
                        0 <= k < rest.len() && (#[trigger] rest[k]).result.id == last.result.id;
                    assert(all[k] == rest[k]);
                } else {
                    assert(has_merged(all, next.result.id));
                }
            }
        }
        assert forall|i: int, j: int| 0 <= i < j < result.len() implies (
        #[trigger] result[i]).result.id != (#[trigger] result[j]).result.id by {
            assert(result[i] == inner[i]);
            if j < inner.len() {
                assert(result[j] == inner[j]);
            } else {
                assert(has_merged(inner, inner[i].result.id));
            }
        }
        assert forall|id: Seq<char>| #[trigger] has_merged(result, id) <==> (has_merged(all, id)
            || id == next.result.id) by {
            lemma_has_push(inner, last, id);
            lemma_has_push(rest, last, id);
            assert(rest.push(last) =~= all);
        }
    } else {
        assert(result == all.push(next));
        assert forall|i: int, j: int| 0 <= i < j < result.len() implies (
        #[trigger] result[i]).result.id != (#[trigger] result[j]).result.id by {
            assert(result[i] == all[i]);
            if j < all.len() {
                assert(result[j] == all[j]);
            } else {
                assert(has_merged(all, all[i].result.id));
            }
        }
        assert forall|id: Seq<char>| #[trigger] has_merged(result, id) <==> (has_merged(all, id)
            || id == next.result.id) by {
            lemma_has_push(all, next, id);
        }
    }
}

proof fn lemma_has_push(all: Seq<MergedView>, next: MergedView, id: Seq<char>)
    ensures
        has_merged(all.push(next), id) <==> has_merged(all, id) || id == next.result.id,
{
    let result = all.push(next);
    if has_merged(all, id) {
        let k = choose|k: int| 0 <= k < all.len() && (#[trigger] all[k]).result.id == id;
        assert(result[k] == all[k]);
    }
    if id == next.result.id {
        assert(result[all.len() as int].result.id == id);
    }
    if has_merged(result, id) {
        let k = choose|k: int| 0 <= k < result.len() && (#[trigger] result[k]).result.id == id;
        if k < all.len() {
            assert(all[k] == result[k]);
        }
    }
}

/// Merging finds each memory once, and loses none.
pub proof fn merging_keeps_each_once(results: Seq<ResultView>)
    ensures
        distinct_merged(merged(results)),
        forall|id: Seq<char>|
            #[trigger] has_merged(merged(results), id) <==> exists|i: int|
                0 <= i < results.len() && (#[trigger] results[i]).id == id,
    decreases results.len(),
{
    if results.len() > 0 {
        let rest = results.drop_last();
        merging_keeps_each_once(rest);
        let before = merged(rest);
        let result = results.last();
        assert(results[results.len() - 1] == result);
        let after = merged(results);
        lemma_merged_index(before, result.id);
        let at = merged_index(before, result.id);
        if at < before.len() {
            assert(has_merged(before, result.id));
            assert forall|i: int| 0 <= i < before.len() implies (#[trigger] after[i]).result.id
                == before[i].result.id by {}
            assert forall|i: int, j: int| 0 <= i < j < after.len() implies (
            #[trigger] after[i]).result.id != (#[trigger] after[j]).result.id by {
                assert(before[i].result.id != before[j].result.id);
            }
            assert forall|id: Seq<char>| #[trigger] has_merged(after, id) <==> has_merged(
                before,
                id,
            ) by {
                if has_merged(after, id) {
                    let k = choose|k: int|
                        0 <= k < after.len() && (#[trigger] after[k]).result.id == id;
                    assert(before[k].result.id == id);
                }
                if has_merged(before, id) {
                    let k = choose|k: int|
                        0 <= k < before.len() && (#[trigger] before[k]).result.id == id;
                    assert(after[k].result.id == id);
                }
            }
        } else {
            assert(!has_merged(before, result.id));
            lemma_inserted_merged(
                before,
                MergedView { result, parts: seq![(results.len() - 1) as usize] },
            );
        }
        assert forall|id: Seq<char>| #[trigger] has_merged(after, id) <==> exists|i: int|
            0 <= i < results.len() && (#[trigger] results[i]).id == id by {
            if has_merged(after, id) && id != result.id {
                assert(has_merged(before, id));
                let k = choose|k: int| 0 <= k < rest.len() && (#[trigger] rest[k]).id == id;
                assert(results[k] == rest[k]);
            }
            if exists|i: int| 0 <= i < results.len() && (#[trigger] results[i]).id == id {
                let k = choose|k: int| 0 <= k < results.len() && (#[trigger] results[k]).id == id;
                if k < rest.len() {
                    assert(rest[k].id == id);
                    assert(has_merged(before, id));
                }
            }
        }
    } else {
        assert forall|id: Seq<char>| !(#[trigger] has_merged(merged(results), id)) by {}
    }
}

} // verus!
