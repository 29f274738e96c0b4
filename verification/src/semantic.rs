//! Facts, entities and episodes that memories are the source of.

use vstd::prelude::*;
use vstd::string::*;

use crate::clock;
use crate::digest;
use crate::directive::{self, ConfidenceTable, DirectiveView, FactDirective, Reading};
use crate::error::Error;
use crate::memory::{Memory, MemoryView, MetadataView};
use crate::numeral::{decimal, decimal_usize};
use crate::order::{self, Ranked};
use crate::text;

pub use crate::clock::TimeKind;

verus! {

// Relations.

/// A relation that facts can have.
#[derive(Debug, Eq, PartialEq)]
pub struct RelationSpec {
    pub name: &'static str,
    pub label: &'static str,
    pub object_kind: &'static str,
    pub cardinality: &'static str,
    pub invalidation_policy: &'static str,
    pub description: &'static str,
}

pub struct RelationView {
    pub name: Seq<char>,
    pub label: Seq<char>,
    pub object_kind: Seq<char>,
    pub cardinality: Seq<char>,
    pub invalidation_policy: Seq<char>,
    pub description: Seq<char>,
}

impl View for RelationSpec {
    type V = RelationView;

    open spec fn view(&self) -> RelationView {
        RelationView {
            name: self.name@,
            label: self.label@,
            object_kind: self.object_kind@,
            cardinality: self.cardinality@,
            invalidation_policy: self.invalidation_policy@,
            description: self.description@,
        }
    }
}

impl DeepView for RelationSpec {
    type V = RelationView;

    open spec fn deep_view(&self) -> RelationView {
        self@
    }
}

/// The relations there are.
pub open spec fn relation_table() -> Seq<RelationView> {
    seq![
        RelationView {
            name: "PREFERS"@,
            label: "prefers"@,
            object_kind: "preference"@,
            cardinality: "exclusive-current"@,
            invalidation_policy: "review-close-previous"@,
            description: "A current or historical preference for an entity or value."@,
        },
        RelationView {
            name: "DISLIKES"@,
            label: "dislikes"@,
            object_kind: "preference"@,
            cardinality: "multi-current"@,
            invalidation_policy: "review"@,
            description: "A current or historical negative preference."@,
        },
        RelationView {
            name: "USES"@,
            label: "uses"@,
            object_kind: "tool"@,
            cardinality: "multi-current"@,
            invalidation_policy: "none"@,
            description: "A tool, product, service, or system being used."@,
        },
        RelationView {
            name: "WORKS_AT"@,
            label: "works at"@,
            object_kind: "organization"@,
            cardinality: "usually-exclusive-current"@,
            invalidation_policy: "review-close-previous"@,
            description: "An employment or organizational affiliation."@,
        },
        RelationView {
            name: "HAS_PROJECT"@,
            label: "has project"@,
            object_kind: "project"@,
            cardinality: "multi-current"@,
            invalidation_policy: "none"@,
            description: "A project associated with the subject."@,
        },
        RelationView {
            name: "PART_OF"@,
            label: "part of"@,
            object_kind: "entity"@,
            cardinality: "multi-current"@,
            invalidation_policy: "none"@,
            description: "A containment or membership relationship."@,
        },
        RelationView {
            name: "SUPERSEDES"@,
            label: "supersedes"@,
            object_kind: "entity"@,
            cardinality: "multi-current"@,
            invalidation_policy: "none"@,
            description: "A version or fact explicitly supersedes another one."@,
        },
        RelationView {
            name: "MENTIONS"@,
            label: "mentions"@,
            object_kind: "entity"@,
            cardinality: "multi-current"@,
            invalidation_policy: "none"@,
            description: "A weak source-grounded mention without invalidation behavior."@,
        },
    ]
}

/// The relations there are.
pub fn relation_specs() -> (specs: &'static [RelationSpec])
    ensures
        specs.deep_view() == relation_table(),
{
    let specs: &'static [RelationSpec] = &[
        RelationSpec {
            name: "PREFERS",
            label: "prefers",
            object_kind: "preference",
            cardinality: "exclusive-current",
            invalidation_policy: "review-close-previous",
            description: "A current or historical preference for an entity or value.",
        },
        RelationSpec {
            name: "DISLIKES",
            label: "dislikes",
            object_kind: "preference",
            cardinality: "multi-current",
            invalidation_policy: "review",
            description: "A current or historical negative preference.",
        },
        RelationSpec {
            name: "USES",
            label: "uses",
            object_kind: "tool",
            cardinality: "multi-current",
            invalidation_policy: "none",
            description: "A tool, product, service, or system being used.",
        },
        RelationSpec {
            name: "WORKS_AT",
            label: "works at",
            object_kind: "organization",
            cardinality: "usually-exclusive-current",
            invalidation_policy: "review-close-previous",
            description: "An employment or organizational affiliation.",
        },
        RelationSpec {
            name: "HAS_PROJECT",
            label: "has project",
            object_kind: "project",
            cardinality: "multi-current",
            invalidation_policy: "none",
            description: "A project associated with the subject.",
        },
        RelationSpec {
            name: "PART_OF",
            label: "part of",
            object_kind: "entity",
            cardinality: "multi-current",
            invalidation_policy: "none",
            description: "A containment or membership relationship.",
        },
        RelationSpec {
            name: "SUPERSEDES",
            label: "supersedes",
            object_kind: "entity",
            cardinality: "multi-current",
            invalidation_policy: "none",
            description: "A version or fact explicitly supersedes another one.",
        },
        RelationSpec {
            name: "MENTIONS",
            label: "mentions",
            object_kind: "entity",
            cardinality: "multi-current",
            invalidation_policy: "none",
            description: "A weak source-grounded mention without invalidation behavior.",
        },
    ];
    assert(specs.deep_view() =~= relation_table());
    specs
}

/// The position of the relation of that name; the number of relations if there
/// is none.
pub open spec fn relation_index(table: Seq<RelationView>, name: Seq<char>) -> int
    decreases table.len(),
{
    if table.len() == 0 || table[0].name == name {
        0
    } else {
        1 + relation_index(table.drop_first(), name)
    }
}

/// The relation of that name.
pub open spec fn relation_named(name: Seq<char>) -> Option<RelationView> {
    let at = relation_index(relation_table(), name);
    if at < relation_table().len() {
        Some(relation_table()[at])
    } else {
        None
    }
}

fn find_relation(specs: &[RelationSpec], name: &str) -> (at: usize)
    ensures
        at == relation_index(specs.deep_view(), name@),
        at <= specs.len(),
{
    let ghost all = specs.deep_view();
    let mut i: usize = 0;
    assert(all.skip(0) =~= all);
    while i < specs.len()
        invariant
            i <= specs.len(),
            all == specs.deep_view(),
            relation_index(all, name@) == i + relation_index(all.skip(i as int), name@),
        decreases specs.len() - i,
    {
        assert(all.skip(i as int)[0] == specs[i as int]@);
        if text::same(specs[i].name, name) {
            return i;
        }
        assert(all.skip(i as int).drop_first() =~= all.skip(i + 1));
        i = i + 1;
    }
    i
}

/// The relation of that name.
pub fn relation_spec(name: &str) -> (spec: Option<&'static RelationSpec>)
    ensures
        spec.deep_view() == relation_named(name@),
{
    let specs = relation_specs();
    let at = find_relation(specs, name);
    if at < specs.len() {
        assert(specs.deep_view()[at as int] == specs[at as int]@);
        Some(&specs[at])
    } else {
        None
    }
}

/// How a relation is written in facts.
pub open spec fn relation_key(value: Seq<char>) -> Seq<char> {
    text::ascii_upper(
        directive::with_char(directive::with_char(text::trimmed(value), ' ', '_'), '-', '_'),
    )
}

pub open spec fn relation_names(table: Seq<RelationView>) -> Seq<Seq<char>> {
    table.map_values(|spec: RelationView| spec.name)
}

/// The relation that a text names, however it is written.
pub open spec fn normal_relation(value: Seq<char>) -> Result<Seq<char>, Seq<char>> {
    match relation_named(relation_key(value)) {
        Some(spec) => Ok(spec.name),
        None => Err(
            "unsupported semantic relation "@ + text::quoted_form(value)
                + "; expected one of: "@ + text::joined(relation_names(relation_table()), ", "@),
        ),
    }
}

pub fn normalize_relation(value: &str) -> (name: Result<&'static str, Error>)
    ensures
        match name {
            Ok(name) => normal_relation(value@) == Ok::<_, Seq<char>>(name@),
            Err(error) => normal_relation(value@) == Err::<Seq<char>, _>(error@),
        },
{
    let spaced = directive::replace_char(text::trim(value), ' ', '_');
    let key = text::to_ascii_uppercase(
        directive::replace_char(spaced.as_str(), '-', '_').as_str(),
    );
    match relation_spec(key.as_str()) {
        Some(spec) => Ok(spec.name),
        None => {
            let specs = relation_specs();
            let mut names: Vec<&str> = Vec::new();
            let ghost all = relation_names(relation_table());
            let mut i: usize = 0;
            while i < specs.len()
                invariant
                    i <= specs.len(),
                    specs.deep_view() == relation_table(),
                    all == relation_names(relation_table()),
                    names.deep_view() == all.take(i as int),
                decreases specs.len() - i,
            {
                let ghost before = names.deep_view();
                names.push(specs[i].name);
                assert(names.deep_view() =~= before.push(specs[i as int].name@));
                assert(specs.deep_view()[i as int] == specs[i as int]@);
                assert(all.take(i + 1) =~= all.take(i as int).push(all[i as int]));
                i = i + 1;
            }
            assert(all.take(i as int) =~= all);
            Err(
                Error::new(
                    text::concat4(
                        "unsupported semantic relation ",
                        text::quoted(value).as_str(),
                        "; expected one of: ",
                        text::join_slices(&names, ", ").as_str(),
                    ),
                ),
            )
        },
    }
}

/// Whether a subject has one object of the relation at a time.
pub open spec fn is_exclusive(relation: Seq<char>) -> bool {
    match relation_named(relation) {
        Some(spec) => spec.cardinality == "exclusive-current"@ || spec.cardinality
            == "usually-exclusive-current"@,
        None => false,
    }
}

pub fn relation_is_exclusive_current(relation: &str) -> (exclusive: bool)
    ensures
        exclusive == is_exclusive(relation@),
{
    match relation_spec(relation) {
        Some(spec) => text::same(spec.cardinality, "exclusive-current") || text::same(
            spec.cardinality,
            "usually-exclusive-current",
        ),
        None => false,
    }
}

// Identifiers and excerpts.

/// A name as it is told apart from others: in lower case, with single spaces.
pub open spec fn normal_name(name: Seq<char>) -> Seq<char> {
    text::ascii_lower(text::collapsed(name))
}

pub fn normalize_entity_name(name: &str) -> (normal: String)
    ensures
        normal@ == normal_name(name@),
{
    text::to_ascii_lowercase(text::collapse(name).as_str())
}

pub open spec fn is_ascii_alphanumeric(c: char) -> bool {
    ('a' <= c <= 'z') || ('A' <= c <= 'Z') || ('0' <= c <= '9')
}

/// What a slug keeps of a text: letters and digits of ASCII, and a hyphen for
/// every space, hyphen and underscore.
pub open spec fn slug_chars(value: Seq<char>) -> Seq<char>
    decreases value.len(),
{
    if value.len() == 0 {
        seq![]
    } else {
        let before = slug_chars(value.drop_last());
        let c = value.last();
        if is_ascii_alphanumeric(c) {
            before.push(c)
        } else if text::is_space(c) || c == '-' || c == '_' {
            before.push('-')
        } else {
            before
        }
    }
}

/// At most that many of the first characters.
pub open spec fn first_chars(value: Seq<char>, count: int) -> Seq<char> {
    if value.len() <= count {
        value
    } else {
        value.take(count)
    }
}

pub open spec fn slug_of(value: Seq<char>) -> Seq<char> {
    let slug = first_chars(text::stripped(slug_chars(value), '-'), 24);
    if slug.len() == 0 {
        "entity"@
    } else {
        slug
    }
}

pub fn take_chars(value: &str, count: usize) -> (result: String)
    ensures
        result@ == first_chars(value@, count as int),
{
    let length: usize = value.unicode_len();
    if length <= count {
        value.to_owned()
    } else {
        assert(value@.take(count as int) =~= value@.subrange(0, count as int));
        value.substring_char(0, count).to_owned()
    }
}

fn short_slug(value: &str) -> (slug: String)
    ensures
        slug@ == slug_of(value@),
{
    let chars = text::chars_of(value);
    let mut kept = String::new();
    let mut i: usize = 0;
    assert(value@.take(0) =~= seq![]);
    assert(kept@ =~= seq![]);
    while i < chars.len()
        invariant
            i <= chars.len(),
            chars@ == value@,
            kept@ == slug_chars(value@.take(i as int)),
        decreases chars.len() - i,
    {
        let c = chars[i];
        assert(value@.take(i + 1).drop_last() =~= value@.take(i as int));
        if ('a' <= c && c <= 'z') || ('A' <= c && c <= 'Z') || ('0' <= c && c <= '9') {
            kept.push(c);
        } else if text::is_whitespace(c) || c == '-' || c == '_' {
            kept.push('-');
        }
        i = i + 1;
    }
    assert(value@.take(i as int) =~= value@);
    let slug = take_chars(text::trim_matches(kept.as_str(), '-'), 24);
    if slug.as_str().is_empty() {
        "entity".to_owned()
    } else {
        slug
    }
}

/// The identifier of an entity.
pub open spec fn entity_key(name: Seq<char>) -> Seq<char> {
    "ent-"@ + slug_of(normal_name(name)) + "-"@ + digest::hash_of(normal_name(name))
}

pub fn entity_id(name: &str) -> (id: String)
    ensures
        id@ == entity_key(name@),
{
    let normal = normalize_entity_name(name);
    text::concat4(
        "ent-",
        short_slug(normal.as_str()).as_str(),
        "-",
        digest::stable_hash(normal.as_str()).as_str(),
    )
}

pub open spec fn or_empty(value: Option<Seq<char>>) -> Seq<char> {
    match value {
        Some(value) => value,
        None => seq![],
    }
}

pub fn text_or_empty(value: &Option<String>) -> (result: &str)
    ensures
        result@ == or_empty(value.deep_view()),
{
    match value {
        Some(value) => value.as_str(),
        None => {
            proof {
                reveal_strlit("");
                assert(""@ =~= seq![]);
            }
            ""
        },
    }
}

pub fn as_slice(value: &Option<String>) -> (slice: Option<&str>)
    ensures
        slice.deep_view() == value.deep_view(),
{
    match value {
        Some(value) => Some(value.as_str()),
        None => None,
    }
}

/// What the identifier of a fact is made from.
pub open spec fn fact_evidence(
    memory_id: Seq<char>,
    line_number: nat,
    directive: DirectiveView,
    relation: Seq<char>,
) -> Seq<char> {
    memory_id + "\n"@ + decimal(line_number) + "\n"@ + normal_name(directive.subject) + "\n"@
        + relation + "\n"@ + normal_name(directive.object) + "\n"@ + or_empty(
        directive.valid_from,
    ) + "\n"@ + or_empty(directive.valid_to)
}

/// The identifier of a fact.
pub open spec fn fact_key(
    memory_id: Seq<char>,
    line_number: nat,
    directive: DirectiveView,
    relation: Seq<char>,
) -> Seq<char> {
    digest::id_of("fact"@, fact_evidence(memory_id, line_number, directive, relation))
}

fn fact_id(memory_id: &str, line_number: usize, directive: &FactDirective, relation: &str) -> (
    id: String)
    ensures
        id@ == fact_key(memory_id@, line_number as nat, directive@, relation@),
{
    let mut evidence = memory_id.to_owned();
    evidence.append("\n");
    evidence.append(decimal_usize(line_number).as_str());
    evidence.append("\n");
    evidence.append(normalize_entity_name(directive.subject.as_str()).as_str());
    evidence.append("\n");
    evidence.append(relation);
    evidence.append("\n");
    evidence.append(normalize_entity_name(directive.object.as_str()).as_str());
    evidence.append("\n");
    evidence.append(text_or_empty(&directive.valid_from));
    evidence.append("\n");
    evidence.append(text_or_empty(&directive.valid_to));
    digest::stable_id("fact", evidence.as_str())
}

/// The lines of a body that an excerpt shows: trimmed, without empty ones and
/// directives.
pub open spec fn excerpt_lines(lines: Seq<Seq<char>>) -> Seq<Seq<char>>
    decreases lines.len(),
{
    if lines.len() == 0 {
        seq![]
    } else {
        let before = excerpt_lines(lines.drop_last());
        let line = lines.last();
        if "@fact "@.is_prefix_of(text::trimmed_start(line)) || text::trimmed(line).len() == 0 {
            before
        } else {
            before.push(text::trimmed(line))
        }
    }
}

pub open spec fn first_lines(lines: Seq<Seq<char>>, count: int) -> Seq<Seq<char>> {
    if lines.len() <= count {
        lines
    } else {
        lines.take(count)
    }
}

/// The start of a body, in one line.
pub open spec fn excerpt_of(body: Seq<char>) -> Seq<char> {
    first_chars(
        text::joined(first_lines(excerpt_lines(text::line_seq(body)), 3), seq![' ']),
        240,
    )
}

pub fn excerpt(body: &str) -> (result: String)
    ensures
        result@ == excerpt_of(body@),
{
    let lines = text::lines(body);
    let ghost all = lines.deep_view();
    let mut shown: Vec<&str> = Vec::new();
    let mut i: usize = 0;
    assert(all.take(0) =~= seq![]);
    assert(shown.deep_view() =~= seq![]);
    assert(first_lines(seq![], 3) =~= Seq::<Seq<char>>::empty());
    while i < lines.len()
        invariant
            i <= lines.len(),
            all == lines.deep_view(),
            shown.deep_view() == first_lines(excerpt_lines(all.take(i as int)), 3),
            shown.len() <= 3,
        decreases lines.len() - i,
    {
        let line = lines[i];
        let trimmed = text::trim(line);
        let ghost so_far = excerpt_lines(all.take(i as int));
        assert(all.take(i + 1).drop_last() =~= all.take(i as int));
        assert(all.take(i + 1).last() == line@);
        if !text::starts_with(text::trim_start(line), "@fact ") && !trimmed.is_empty() {
            if shown.len() < 3 {
                let ghost before = shown.deep_view();
                shown.push(trimmed);
                assert(shown.deep_view() =~= before.push(trimmed@));
                assert(before == so_far);
            } else {
                assert(so_far.len() >= 3);
                assert(so_far.push(trimmed@).take(3) =~= first_lines(so_far, 3));
            }
        }
        i = i + 1;
    }
    assert(all.take(i as int) =~= all);
    proof {
        reveal_strlit(" ");
        assert(" "@ =~= seq![' ']);
    }
    take_chars(text::join_slices(&shown, " ").as_str(), 240)
}

// Where directives count.

/// A fence of a code block: its character, and how many of it.
#[derive(Clone, Copy, Debug, PartialEq, Eq, Structural)]
pub struct Fence {
    pub marker: char,
    pub width: usize,
}

/// How many times `c` stands at the start.
pub open spec fn run_length(value: Seq<char>, c: char) -> int
    decreases value.len(),
{
    if value.len() > 0 && value[0] == c {
        1 + run_length(value.drop_first(), c)
    } else {
        0
    }
}

pub proof fn lemma_run_length(value: Seq<char>, c: char)
    ensures
        0 <= run_length(value, c) <= value.len(),
    decreases value.len(),
{
    if value.len() > 0 && value[0] == c {
        lemma_run_length(value.drop_first(), c);
    }
}

fn count_run(chars: &Vec<char>, start: usize, c: char) -> (count: usize)
    requires
        start <= chars.len(),
    ensures
        count == run_length(chars@.skip(start as int), c),
        start + count <= chars.len(),
{
    let mut end: usize = start;
    while end < chars.len() && chars[end] == c
        invariant
            start <= end <= chars.len(),
            run_length(chars@.skip(start as int), c) == (end - start) + run_length(
                chars@.skip(end as int),
                c,
            ),
        decreases chars.len() - end,
    {
        assert(chars@.skip(end as int).drop_first() =~= chars@.skip(end + 1));
        end = end + 1;
    }
    end - start
}

/// The fence that a line begins with, after at most three spaces, and what
/// follows it.
pub open spec fn fence_of(line: Seq<char>) -> Option<(char, int, Seq<char>)> {
    let indent = run_length(line, ' ');
    let rest = line.skip(indent);
    if indent > 3 || rest.len() == 0 || (rest[0] != '`' && rest[0] != '~') {
        None
    } else {
        let width = run_length(rest, rest[0]);
        Some((rest[0], width, rest.skip(width)))
    }
}

/// Whether a line opens a code block.
pub open spec fn opened_fence(line: Seq<char>) -> Option<(char, int)> {
    match fence_of(line) {
        Some((marker, width, _)) => if width >= 3 {
            Some((marker, width))
        } else {
            None
        },
        None => None,
    }
}

/// Whether a line closes the code block that a fence opened.
pub open spec fn is_closed_by(fence: (char, int), line: Seq<char>) -> bool {
    match fence_of(line) {
        Some((marker, width, tail)) => marker == fence.0 && width >= fence.1 && text::trimmed(
            tail,
        ).len() == 0,
        None => false,
    }
}

fn fence_parts<'a>(line: &'a str) -> (parts: Option<(char, usize, &'a str)>)
    ensures
        match parts {
            Some((marker, width, tail)) => fence_of(line@) == Some((marker, width as int, tail@)),
            None => fence_of(line@) is None,
        },
{
    let chars = text::chars_of(line);
    assert(line@.skip(0) =~= line@);
    let indent = count_run(&chars, 0, ' ');
    if indent > 3 || indent == chars.len() {
        return None;
    }
    let marker = chars[indent];
    if marker != '`' && marker != '~' {
        return None;
    }
    let width = count_run(&chars, indent, marker);
    let ghost rest = line@.skip(indent as int);
    assert(rest.skip(width as int) =~= line@.subrange(indent + width, line@.len() as int));
    Some((marker, width, line.substring_char(indent + width, chars.len())))
}

fn opening_fence(line: &str) -> (fence: Option<Fence>)
    ensures
        match fence {
            Some(fence) => opened_fence(line@) == Some((fence.marker, fence.width as int)),
            None => opened_fence(line@) is None,
        },
{
    match fence_parts(line) {
        Some((marker, width, _)) => {
            if width >= 3 {
                Some(Fence { marker, width })
            } else {
                None
            }
        },
        None => None,
    }
}

fn closes_fence(line: &str, fence: Fence) -> (closes: bool)
    ensures
        closes == is_closed_by((fence.marker, fence.width as int), line@),
{
    match fence_parts(line) {
        Some((marker, width, tail)) => marker == fence.marker && width >= fence.width && text::trim(
            tail,
        ).is_empty(),
        None => false,
    }
}

/// Where in a body one is: in a code block, in a comment, or in neither.
pub struct ScanState {
    pub fence: Option<(char, int)>,
    pub in_comment: bool,
}

/// Where one is after a line, and the directive on it, if it counts.
pub open spec fn scan_line(state: ScanState, line: Seq<char>) -> (ScanState, Option<Seq<char>>) {
    if state.fence is Some {
        (
            ScanState {
                fence: if is_closed_by(state.fence->Some_0, line) {
                    None
                } else {
                    state.fence
                },
                in_comment: state.in_comment,
            },
            None,
        )
    } else if state.in_comment {
        (ScanState { fence: None, in_comment: !text::occurs(line, "-->"@) }, None)
    } else if opened_fence(line) is Some {
        (ScanState { fence: opened_fence(line), in_comment: false }, None)
    } else if text::occurs(line, "<!--"@) {
        (ScanState { fence: None, in_comment: !text::occurs(line, "-->"@) }, None)
    } else if "@fact "@.is_prefix_of(line) {
        (state, Some(line.skip(6)))
    } else {
        (state, None)
    }
}

/// Where one is after some lines.
pub open spec fn scan_state(lines: Seq<Seq<char>>) -> ScanState
    decreases lines.len(),
{
    if lines.len() == 0 {
        ScanState { fence: None, in_comment: false }
    } else {
        scan_line(scan_state(lines.drop_last()), lines.last()).0
    }
}

/// The directives that count, each with the number of its line.
pub open spec fn fact_lines(lines: Seq<Seq<char>>) -> Seq<(nat, Seq<char>)>
    decreases lines.len(),
{
    if lines.len() == 0 {
        seq![]
    } else {
        let before = fact_lines(lines.drop_last());
        match scan_line(scan_state(lines.drop_last()), lines.last()).1 {
            Some(raw) => before.push((lines.len(), raw)),
            None => before,
        }
    }
}

pub open spec fn line_views(found: Seq<(usize, &str)>) -> Seq<(nat, Seq<char>)> {
    found.map_values(|entry: (usize, &str)| (entry.0 as nat, entry.1@))
}

fn find_fact_lines<'a>(body: &'a str) -> (found: Vec<(usize, &'a str)>)
    ensures
        line_views(found@) == fact_lines(text::line_seq(body@)),
{
    let lines = text::lines(body);
    let ghost all = lines.deep_view();
    let mut found: Vec<(usize, &'a str)> = Vec::new();
    let mut fence: Option<Fence> = None;
    let mut in_comment = false;
    let mut i: usize = 0;
    proof {
        reveal_strlit("@fact ");
        assert("@fact "@.len() == 6);
        assert(all.take(0) =~= seq![]);
        assert(line_views(found@) =~= seq![]);
    }
    while i < lines.len()
        invariant
            i <= lines.len(),
            "@fact "@.len() == 6,
            all == lines.deep_view(),
            line_views(found@) == fact_lines(all.take(i as int)),
            scan_state(all.take(i as int)).in_comment == in_comment,
            match fence {
                Some(fence) => scan_state(all.take(i as int)).fence == Some(
                    (fence.marker, fence.width as int),
                ),
                None => scan_state(all.take(i as int)).fence is None,
            },
        decreases lines.len() - i,
    {
        let line = lines[i];
        assert(all.take(i + 1).drop_last() =~= all.take(i as int));
        assert(all.take(i + 1).last() == line@);
        i = i + 1;
        if let Some(active) = fence {
            if closes_fence(line, active) {
                fence = None;
            }
        } else if in_comment {
            if text::contains(line, "-->") {
                in_comment = false;
            }
        } else if let Some(opened) = opening_fence(line) {
            fence = Some(opened);
        } else if text::contains(line, "<!--") {
            in_comment = !text::contains(line, "-->");
        } else if let Some(raw) = text::strip_prefix(line, "@fact ") {
            let ghost before = line_views(found@);
            found.push((i, raw));
            assert(line_views(found@) =~= before.push((i as nat, raw@)));
        }
    }
    assert(all.take(i as int) =~= all);
    found
}

// Extraction.

/// Someone or something that facts are about.
#[derive(Debug)]
pub struct SemanticEntity {
    pub id: String,
    pub canonical_name: String,
    pub kind: String,
    pub summary: String,
    pub created_at: String,
    pub updated_at: String,
}

#[verifier::ext_equal]
pub struct EntityView {
    pub id: Seq<char>,
    pub canonical_name: Seq<char>,
    pub kind: Seq<char>,
    pub summary: Seq<char>,
    pub created_at: Seq<char>,
    pub updated_at: Seq<char>,
}

impl View for SemanticEntity {
    type V = EntityView;

    open spec fn view(&self) -> EntityView {
        EntityView {
            id: self.id@,
            canonical_name: self.canonical_name@,
            kind: self.kind@,
            summary: self.summary@,
            created_at: self.created_at@,
            updated_at: self.updated_at@,
        }
    }
}

impl DeepView for SemanticEntity {
    type V = EntityView;

    open spec fn deep_view(&self) -> EntityView {
        self@
    }
}

impl Clone for SemanticEntity {
    fn clone(&self) -> (copy: Self)
        ensures
            copy@ == self@,
    {
        SemanticEntity {
            id: self.id.clone(),
            canonical_name: self.canonical_name.clone(),
            kind: self.kind.clone(),
            summary: self.summary.clone(),
            created_at: self.created_at.clone(),
            updated_at: self.updated_at.clone(),
        }
    }
}

/// A memory as the source of facts.
#[derive(Debug)]
pub struct SemanticEpisode {
    pub id: String,
    pub source_memory_id: String,
    pub kind: String,
    pub created_at: String,
    pub text_hash: String,
    pub excerpt: String,
}

#[verifier::ext_equal]
pub struct EpisodeView {
    pub id: Seq<char>,
    pub source_memory_id: Seq<char>,
    pub kind: Seq<char>,
    pub created_at: Seq<char>,
    pub text_hash: Seq<char>,
    pub excerpt: Seq<char>,
}

impl View for SemanticEpisode {
    type V = EpisodeView;

    open spec fn view(&self) -> EpisodeView {
        EpisodeView {
            id: self.id@,
            source_memory_id: self.source_memory_id@,
            kind: self.kind@,
            created_at: self.created_at@,
            text_hash: self.text_hash@,
            excerpt: self.excerpt@,
        }
    }
}

impl DeepView for SemanticEpisode {
    type V = EpisodeView;

    open spec fn deep_view(&self) -> EpisodeView {
        self@
    }
}

impl Clone for SemanticEpisode {
    fn clone(&self) -> (copy: Self)
        ensures
            copy@ == self@,
    {
        SemanticEpisode {
            id: self.id.clone(),
            source_memory_id: self.source_memory_id.clone(),
            kind: self.kind.clone(),
            created_at: self.created_at.clone(),
            text_hash: self.text_hash.clone(),
            excerpt: self.excerpt.clone(),
        }
    }
}

/// A fact that a memory states.
#[derive(Debug)]
pub struct SemanticFact {
    pub id: String,
    pub subject_id: String,
    pub relation: String,
    pub object_id: Option<String>,
    pub object_value: String,
    pub valid_from: Option<String>,
    pub valid_to: Option<String>,
    pub learned_at: String,
    pub expired_at: Option<String>,
    pub time_kind: TimeKind,
    pub source_memory_id: String,
    pub confidence: Option<String>,
    pub episode_id: String,
    pub line_number: usize,
}

#[verifier::ext_equal]
pub struct FactView {
    pub id: Seq<char>,
    pub subject_id: Seq<char>,
    pub relation: Seq<char>,
    pub object_id: Option<Seq<char>>,
    pub object_value: Seq<char>,
    pub valid_from: Option<Seq<char>>,
    pub valid_to: Option<Seq<char>>,
    pub learned_at: Seq<char>,
    pub expired_at: Option<Seq<char>>,
    pub time_kind: TimeKind,
    pub source_memory_id: Seq<char>,
    pub confidence: Option<Seq<char>>,
    pub episode_id: Seq<char>,
    pub line_number: nat,
}

impl View for SemanticFact {
    type V = FactView;

    open spec fn view(&self) -> FactView {
        FactView {
            id: self.id@,
            subject_id: self.subject_id@,
            relation: self.relation@,
            object_id: self.object_id.deep_view(),
            object_value: self.object_value@,
            valid_from: self.valid_from.deep_view(),
            valid_to: self.valid_to.deep_view(),
            learned_at: self.learned_at@,
            expired_at: self.expired_at.deep_view(),
            time_kind: self.time_kind,
            source_memory_id: self.source_memory_id@,
            confidence: self.confidence.deep_view(),
            episode_id: self.episode_id@,
            line_number: self.line_number as nat,
        }
    }
}

impl DeepView for SemanticFact {
    type V = FactView;

    open spec fn deep_view(&self) -> FactView {
        self@
    }
}

impl Clone for SemanticFact {
    fn clone(&self) -> (copy: Self)
        ensures
            copy@ == self@,
    {
        SemanticFact {
            id: self.id.clone(),
            subject_id: self.subject_id.clone(),
            relation: self.relation.clone(),
            object_id: text::clone_optional(&self.object_id),
            object_value: self.object_value.clone(),
            valid_from: text::clone_optional(&self.valid_from),
            valid_to: text::clone_optional(&self.valid_to),
            learned_at: self.learned_at.clone(),
            expired_at: text::clone_optional(&self.expired_at),
            time_kind: self.time_kind,
            source_memory_id: self.source_memory_id.clone(),
            confidence: text::clone_optional(&self.confidence),
            episode_id: self.episode_id.clone(),
            line_number: self.line_number,
        }
    }
}

/// What a memory says.
#[derive(Debug)]
pub struct SemanticExtraction {
    pub entities: Vec<SemanticEntity>,
    pub episode: SemanticEpisode,
    pub facts: Vec<SemanticFact>,
}

#[verifier::ext_equal]
pub struct ExtractionView {
    pub entities: Seq<EntityView>,
    pub episode: EpisodeView,
    pub facts: Seq<FactView>,
}

impl View for SemanticExtraction {
    type V = ExtractionView;

    open spec fn view(&self) -> ExtractionView {
        ExtractionView {
            entities: self.entities.deep_view(),
            episode: self.episode@,
            facts: self.facts.deep_view(),
        }
    }
}

impl DeepView for SemanticExtraction {
    type V = ExtractionView;

    open spec fn deep_view(&self) -> ExtractionView {
        self@
    }
}

impl Ranked for SemanticEntity {
    open spec fn ranks_before(left: EntityView, right: EntityView) -> bool {
        order::text_less(left.id, right.id)
    }

    fn is_before(&self, other: &Self) -> (before: bool) {
        order::is_less(self.id.as_str(), other.id.as_str())
    }
}

/// A directive that has been read, and the fact it states.
pub struct ReadFact {
    pub directive: DirectiveView,
    pub fact: FactView,
}

pub open spec fn on_line(line_number: nat, message: Seq<char>) -> Seq<char> {
    "semantic fact line "@ + decimal(line_number) + ": "@ + message
}

pub open spec fn episode_key(memory_id: Seq<char>) -> Seq<char> {
    "episode-"@ + memory_id
}

/// The fact that a directive on a line of a memory states.
pub open spec fn read_fact(
    metadata: MetadataView,
    line_number: nat,
    raw: Seq<char>,
    table: Map<Seq<char>, Reading>,
) -> Result<ReadFact, Seq<char>> {
    match directive::directive_of(raw, table) {
        Err(message) => Err(on_line(line_number, message)),
        Ok(directive) => match normal_relation(directive.relation) {
            Err(message) => Err(message),
            Ok(relation) => {
                let learned_at = match directive.learned_at {
                    Some(learned_at) => learned_at,
                    None => metadata.updated_at,
                };
                match clock::fact_time_kind(
                    directive.valid_from,
                    directive.valid_to,
                    directive.expired_at,
                    learned_at,
                ) {
                    Err(message) => Err(on_line(line_number, message)),
                    Ok(time_kind) => {
                        let confidence = match directive.confidence {
                            Some(confidence) => Ok(Some(confidence)),
                            None => directive::optional_confidence(table, metadata.confidence),
                        };
                        match confidence {
                            Err(message) => Err(on_line(line_number, message)),
                            Ok(confidence) => Ok(
                                ReadFact {
                                    directive,
                                    fact: FactView {
                                        id: fact_key(
                                            metadata.id,
                                            line_number,
                                            directive,
                                            relation,
                                        ),
                                        subject_id: entity_key(directive.subject),
                                        relation,
                                        object_id: if directive.object_is_entity {
                                            Some(entity_key(directive.object))
                                        } else {
                                            None
                                        },
                                        object_value: directive.object,
                                        valid_from: directive.valid_from,
                                        valid_to: directive.valid_to,
                                        learned_at,
                                        expired_at: directive.expired_at,
                                        time_kind,
                                        source_memory_id: metadata.id,
                                        confidence,
                                        episode_id: episode_key(metadata.id),
                                        line_number,
                                    },
                                },
                            ),
                        }
                    },
                }
            },
        },
    }
}

/// The facts that the directives of a memory state; the first that cannot be
/// read is the problem of all.
pub open spec fn read_facts(
    metadata: MetadataView,
    lines: Seq<(nat, Seq<char>)>,
    table: Map<Seq<char>, Reading>,
) -> Result<Seq<ReadFact>, Seq<char>>
    decreases lines.len(),
{
    if lines.len() == 0 {
        Ok(seq![])
    } else {
        match read_facts(metadata, lines.drop_last(), table) {
            Err(message) => Err(message),
            Ok(facts) => match read_fact(metadata, lines.last().0, lines.last().1, table) {
                Err(message) => Err(message),
                Ok(fact) => Ok(facts.push(fact)),
            },
        }
    }
}

pub open spec fn entity_of(
    metadata: MetadataView,
    id: Seq<char>,
    name: Seq<char>,
    kind: Seq<char>,
) -> EntityView {
    EntityView {
        id,
        canonical_name: text::trimmed(name),
        kind,
        summary: "Derived from memory "@ + metadata.id,
        created_at: metadata.created_at,
        updated_at: metadata.updated_at,
    }
}

pub open spec fn has_entity(entities: Seq<EntityView>, id: Seq<char>) -> bool {
    exists|i: int| 0 <= i < entities.len() && (#[trigger] entities[i]).id == id
}

/// The entities with one more, unless it is there already.
pub open spec fn with_entity(entities: Seq<EntityView>, entity: EntityView) -> Seq<EntityView> {
    if has_entity(entities, entity.id) {
        entities
    } else {
        entities.push(entity)
    }
}

/// The kind of the objects of a relation.
pub open spec fn object_kind_of(relation: Seq<char>) -> Seq<char> {
    match relation_named(relation) {
        Some(spec) => spec.object_kind,
        None => "entity"@,
    }
}

/// The entities that the facts mention, in the order in which they come up.
pub open spec fn mentioned(metadata: MetadataView, facts: Seq<ReadFact>) -> Seq<EntityView>
    decreases facts.len(),
{
    if facts.len() == 0 {
        seq![]
    } else {
        let before = mentioned(metadata, facts.drop_last());
        let last = facts.last();
        let with_subject = with_entity(
            before,
            entity_of(metadata, last.fact.subject_id, last.directive.subject, "entity"@),
        );
        match last.fact.object_id {
            Some(id) => with_entity(
                with_subject,
                entity_of(metadata, id, last.directive.object, object_kind_of(last.fact.relation)),
            ),
            None => with_subject,
        }
    }
}

pub open spec fn fact_views(facts: Seq<ReadFact>) -> Seq<FactView> {
    facts.map_values(|read: ReadFact| read.fact)
}

pub open spec fn episode_of(memory: MemoryView) -> EpisodeView {
    EpisodeView {
        id: episode_key(memory.metadata.id),
        source_memory_id: memory.metadata.id,
        kind: memory.metadata.kind.name(),
        created_at: memory.metadata.created_at,
        text_hash: digest::id_of("text"@, memory.body),
        excerpt: excerpt_of(memory.body),
    }
}

/// What a memory says, given what its confidences read as.
pub open spec fn extraction_of(memory: MemoryView, table: Map<Seq<char>, Reading>) -> Result<
    ExtractionView,
    Seq<char>,
> {
    match read_facts(memory.metadata, fact_lines(text::line_seq(memory.body)), table) {
        Err(message) => Err(message),
        Ok(facts) => Ok(
            ExtractionView {
                entities: order::ranked::<SemanticEntity>(mentioned(memory.metadata, facts)),
                episode: episode_of(memory),
                facts: fact_views(facts),
            },
        ),
    }
}

fn on_line_error(line_number: usize, error: Error) -> (wrapped: Error)
    ensures
        wrapped@ == on_line(line_number as nat, error@),
{
    Error::new(
        text::concat4(
            "semantic fact line ",
            decimal_usize(line_number).as_str(),
            ": ",
            error.message.as_str(),
        ),
    )
}

fn read_directive(memory: &Memory, line_number: usize, raw: &str, table: &ConfidenceTable) -> (
    read: Result<(FactDirective, SemanticFact), Error>)
    ensures
        match read {
            Ok((directive, fact)) => read_fact(
                memory@.metadata,
                line_number as nat,
                raw@,
                table@,
            ) == Ok::<_, Seq<char>>(ReadFact { directive: directive@, fact: fact@ }),
            Err(error) => read_fact(memory@.metadata, line_number as nat, raw@, table@) == Err::<
                ReadFact,
                _,
            >(error@),
        },
{
    let directive = match directive::parse_fact_directive(raw, table) {
        Ok(directive) => directive,
        Err(error) => {
            return Err(on_line_error(line_number, error));
        },
    };
    let relation = normalize_relation(directive.relation.as_str())?;
    let learned_at = match &directive.learned_at {
        Some(learned_at) => learned_at.clone(),
        None => memory.metadata.updated_at.clone(),
    };
    let time_kind = match clock::validate_fact_times(
        as_slice(&directive.valid_from),
        as_slice(&directive.valid_to),
        as_slice(&directive.expired_at),
        learned_at.as_str(),
    ) {
        Ok(kind) => kind,
        Err(error) => {
            return Err(on_line_error(line_number, error));
        },
    };
    let confidence = match &directive.confidence {
        Some(confidence) => Some(confidence.clone()),
        None => match directive::parse_confidence(as_slice(&memory.metadata.confidence), table) {
            Ok(confidence) => confidence,
            Err(error) => {
                return Err(on_line_error(line_number, error));
            },
        },
    };
    let object_id = if directive.object_is_entity {
        Some(entity_id(directive.object.as_str()))
    } else {
        None
    };
    let fact = SemanticFact {
        id: fact_id(memory.metadata.id.as_str(), line_number, &directive, relation),
        subject_id: entity_id(directive.subject.as_str()),
        relation: relation.to_owned(),
        object_id,
        object_value: directive.object.clone(),
        valid_from: text::clone_optional(&directive.valid_from),
        valid_to: text::clone_optional(&directive.valid_to),
        learned_at,
        expired_at: text::clone_optional(&directive.expired_at),
        time_kind,
        source_memory_id: memory.metadata.id.clone(),
        confidence,
        episode_id: text::concat2("episode-", memory.metadata.id.as_str()),
        line_number,
    };
    Ok((directive, fact))
}

fn upsert_entity(
    entities: &mut Vec<SemanticEntity>,
    id: &str,
    name: &str,
    kind: &str,
    memory: &Memory,
)
    ensures
        final(entities).deep_view() == with_entity(
            old(entities).deep_view(),
            entity_of(memory@.metadata, id@, name@, kind@),
        ),
{
    let ghost all = entities.deep_view();
    let mut i: usize = 0;
    while i < entities.len()
        invariant
            i <= entities.len(),
            all == entities.deep_view(),
            forall|k: int| 0 <= k < i ==> (#[trigger] all[k]).id != id@,
        ensures
            i == entities.len() || (i < entities.len() && all[i as int].id == id@),
        decreases entities.len() - i,
    {
        assert(all[i as int] == entities[i as int]@);
        if text::same(entities[i].id.as_str(), id) {
            break;
        }
        i = i + 1;
    }
    if i < entities.len() {
        assert(has_entity(all, id@));
        return;
    }
    entities.push(
        SemanticEntity {
            id: id.to_owned(),
            canonical_name: text::trim(name).to_owned(),
            kind: kind.to_owned(),
            summary: text::concat2("Derived from memory ", memory.metadata.id.as_str()),
            created_at: memory.metadata.created_at.clone(),
            updated_at: memory.metadata.updated_at.clone(),
        },
    );
    assert(entities.deep_view() =~= all.push(entity_of(memory@.metadata, id@, name@, kind@)));
}

proof fn lemma_read_facts_prefix(
    metadata: MetadataView,
    lines: Seq<(nat, Seq<char>)>,
    table: Map<Seq<char>, Reading>,
    n: int,
)
    requires
        0 <= n <= lines.len(),
    ensures
        read_facts(metadata, lines.take(n), table) is Err ==> read_facts(metadata, lines, table)
            == read_facts(metadata, lines.take(n), table),
    decreases lines.len(),
{
    if n == lines.len() {
        assert(lines.take(n) =~= lines);
    } else {
        lemma_read_facts_prefix(metadata, lines.drop_last(), table, n);
        assert(lines.drop_last().take(n) =~= lines.take(n));
    }
}

/// Reads the facts, entities and the episode of a memory.
pub fn extract(memory: &Memory, table: &ConfidenceTable) -> (extraction: Result<
    SemanticExtraction,
    Error,
>)
    ensures
        crate::error::agrees(extraction, extraction_of(memory@, table@)),
{
    let found = find_fact_lines(memory.body.as_str());
    let ghost lines = line_views(found@);
    let ghost mut read: Seq<ReadFact> = seq![];
    let mut facts: Vec<SemanticFact> = Vec::new();
    let mut entities: Vec<SemanticEntity> = Vec::new();
    let mut i: usize = 0;
    proof {
        assert(lines.take(0) =~= seq![]);
        assert(facts.deep_view() =~= fact_views(read));
        assert(entities.deep_view() =~= mentioned(memory@.metadata, read));
    }
    while i < found.len()
        invariant
            i <= found.len(),
            lines == line_views(found@),
            lines == fact_lines(text::line_seq(memory@.body)),
            read_facts(memory@.metadata, lines.take(i as int), table@) == Ok::<_, Seq<char>>(read),
            facts.deep_view() == fact_views(read),
            entities.deep_view() == mentioned(memory@.metadata, read),
        decreases found.len() - i,
    {
        let (line_number, raw) = found[i];
        proof {
            assert(lines.take(i + 1).drop_last() =~= lines.take(i as int));
            assert(lines.take(i + 1).last() == (line_number as nat, raw@));
            lemma_read_facts_prefix(memory@.metadata, lines, table@, i + 1);
        }
        let (directive, fact) = read_directive(memory, line_number, raw, table)?;
        let ghost last = ReadFact { directive: directive@, fact: fact@ };
        upsert_entity(
            &mut entities,
            fact.subject_id.as_str(),
            directive.subject.as_str(),
            "entity",
            memory,
        );
        if let Some(object_id) = &fact.object_id {
            let kind: &str = match relation_spec(fact.relation.as_str()) {
                Some(spec) => spec.object_kind,
                None => "entity",
            };
            upsert_entity(
                &mut entities,
                object_id.as_str(),
                directive.object.as_str(),
                kind,
                memory,
            );
        }
        let ghost before = facts.deep_view();
        facts.push(fact);
        proof {
            assert(read.push(last).drop_last() =~= read);
            assert(facts.deep_view() =~= before.push(last.fact));
            assert(fact_views(read.push(last)) =~= fact_views(read).push(last.fact));
            read = read.push(last);
        }
        i = i + 1;
    }
    assert(lines.take(i as int) =~= lines);
    let episode = SemanticEpisode {
        id: text::concat2("episode-", memory.metadata.id.as_str()),
        source_memory_id: memory.metadata.id.clone(),
        kind: memory.metadata.kind.label().to_owned(),
        created_at: memory.metadata.created_at.clone(),
        text_hash: digest::stable_id("text", memory.body.as_str()),
        excerpt: excerpt(memory.body.as_str()),
    };
    Ok(SemanticExtraction { entities: order::sort(entities), episode, facts })
}

// Objects and validity.

/// Whether two objects are the same: the same entity, or values that differ in
/// spacing and case at most.
pub open spec fn same_object(
    left_id: Option<Seq<char>>,
    left_value: Seq<char>,
    right_id: Option<Seq<char>>,
    right_value: Seq<char>,
) -> bool {
    match (left_id, right_id) {
        (Some(left), Some(right)) => left == right,
        (None, None) => normal_name(left_value) == normal_name(right_value),
        _ => false,
    }
}

pub open spec fn same_fact_object(left: FactView, right: FactView) -> bool {
    same_object(left.object_id, left.object_value, right.object_id, right.object_value)
}

pub fn semantic_object_parts_match(
    left_id: Option<&str>,
    left_value: &str,
    right_id: Option<&str>,
    right_value: &str,
) -> (same: bool)
    ensures
        same == same_object(left_id.deep_view(), left_value@, right_id.deep_view(), right_value@),
{
    match (left_id, right_id) {
        (Some(left), Some(right)) => text::same(left, right),
        (None, None) => normalize_entity_name(left_value) == normalize_entity_name(right_value),
        _ => false,
    }
}

pub fn semantic_objects_match(left: &SemanticFact, right: &SemanticFact) -> (same: bool)
    ensures
        same == same_fact_object(left@, right@),
{
    semantic_object_parts_match(
        as_slice(&left.object_id),
        left.object_value.as_str(),
        as_slice(&right.object_id),
        right.object_value.as_str(),
    )
}

/// Whether a fact holds at a time.
pub open spec fn fact_holds(fact: FactView, at: int) -> Result<bool, Seq<char>> {
    clock::holds_at(fact.valid_from, fact.valid_to, fact.expired_at, fact.time_kind, at)
}

pub fn semantic_fact_is_valid_at(fact: &SemanticFact, at: i64) -> (valid: Result<bool, Error>)
    ensures
        clock::same_answer(valid, fact_holds(fact@, at as int)),
{
    clock::times_hold_at(
        as_slice(&fact.valid_from),
        as_slice(&fact.valid_to),
        as_slice(&fact.expired_at),
        fact.time_kind,
        at,
    )
}

// Confidence texts.

/// The confidences that the segments of a directive give.
pub open spec fn segment_confidences(segments: Seq<Seq<char>>) -> Seq<Seq<char>>
    decreases segments.len(),
{
    if segments.len() == 0 {
        seq![]
    } else {
        let before = segment_confidences(segments.drop_last());
        match directive::option_of(segments.last()) {
            Ok((key, value)) => if key == "confidence"@ {
                before.push(value)
            } else {
                before
            },
            Err(_) => before,
        }
    }
}

/// The confidences that the directives give.
pub open spec fn line_confidences(lines: Seq<(nat, Seq<char>)>) -> Seq<Seq<char>>
    decreases lines.len(),
{
    if lines.len() == 0 {
        seq![]
    } else {
        line_confidences(lines.drop_last()) + segment_confidences(
            directive::segments_of(lines.last().1),
        )
    }
}

/// The texts that are read as confidences when a memory is extracted.
pub open spec fn confidence_texts_of(memory: MemoryView) -> Seq<Seq<char>> {
    line_confidences(fact_lines(text::line_seq(memory.body))) + clock::optional_seq(
        memory.metadata.confidence,
    )
}

/// The texts that a confidence table has to cover for a memory.
pub fn confidence_texts(memory: &Memory) -> (texts: Vec<String>)
    ensures
        texts.deep_view() == confidence_texts_of(memory@),
{
    let found = find_fact_lines(memory.body.as_str());
    let ghost lines = line_views(found@);
    let mut texts: Vec<String> = Vec::new();
    let mut i: usize = 0;
    assert(lines.take(0) =~= seq![]);
    assert(texts.deep_view() =~= seq![]);
    while i < found.len()
        invariant
            i <= found.len(),
            lines == line_views(found@),
            texts.deep_view() == line_confidences(lines.take(i as int)),
        decreases found.len() - i,
    {
        let (number, raw) = found[i];
        assert(lines.take(i + 1).drop_last() =~= lines.take(i as int));
        assert(lines.take(i + 1).last() == (number as nat, raw@));
        let parts = text::split(raw, '|');
        let ghost segments = directive::segments_of(raw@);
        let ghost base = texts.deep_view();
        let mut k: usize = 0;
        assert(segments.take(0) =~= seq![]);
        assert(base + segment_confidences(segments.take(0)) =~= base);
        while k < parts.len()
            invariant
                k <= parts.len(),
                segments == directive::segments_of(raw@),
                parts.deep_view() == text::pieces(raw@, '|'),
                texts.deep_view() == base + segment_confidences(segments.take(k as int)),
            decreases parts.len() - k,
        {
            let part = text::trim(parts[k]);
            assert(parts.deep_view()[k as int] == parts[k as int]@);
            assert(segments.take(k + 1).drop_last() =~= segments.take(k as int));
            assert(segments.take(k + 1).last() == part@);
            if let Ok((key, value)) = directive::parse_option(part) {
                if text::same(key.as_str(), "confidence") {
                    let ghost before = texts.deep_view();
                    let ghost added = value@;
                    texts.push(value);
                    assert(texts.deep_view() =~= before.push(added));
                    assert(texts.deep_view() =~= base + segment_confidences(
                        segments.take(k + 1),
                    ));
                }
            }
            k = k + 1;
        }
        assert(segments.take(k as int) =~= segments);
        i = i + 1;
    }
    assert(lines.take(i as int) =~= lines);
    let ghost base = texts.deep_view();
    if let Some(confidence) = &memory.metadata.confidence {
        texts.push(confidence.clone());
        assert(texts.deep_view() =~= base + seq![confidence@]);
    } else {
        assert(base + Seq::<Seq<char>>::empty() =~= base);
    }
    texts
}

/// Two tables that agree on the confidence texts of a memory lead to the same
/// extraction.
pub proof fn extraction_reads_only_its_confidences(
    memory: MemoryView,
    left: Map<Seq<char>, Reading>,
    right: Map<Seq<char>, Reading>,
)
    requires
        forall|i: int|
            0 <= i < confidence_texts_of(memory).len() ==> directive::reading_of(
                left,
                #[trigger] confidence_texts_of(memory)[i],
            ) == directive::reading_of(right, confidence_texts_of(memory)[i]),
    ensures
        extraction_of(memory, left) == extraction_of(memory, right),
{
    let lines = fact_lines(text::line_seq(memory.body));
    let texts = confidence_texts_of(memory);
    let written = line_confidences(lines);
    assert forall|t: Seq<char>| written.contains(t) implies directive::reading_of(left, t)
        == directive::reading_of(right, t) by {
        let i = choose|i: int| 0 <= i < written.len() && written[i] == t;
        assert(texts[i] == t);
    }
    if let Some(confidence) = memory.metadata.confidence {
        assert(texts.last() == confidence);
        assert(texts[texts.len() - 1] == confidence);
    }
    lemma_read_facts_agree(memory.metadata, lines, left, right);
}

proof fn lemma_read_facts_agree(
    metadata: MetadataView,
    lines: Seq<(nat, Seq<char>)>,
    left: Map<Seq<char>, Reading>,
    right: Map<Seq<char>, Reading>,
)
    requires
        forall|t: Seq<char>|
            line_confidences(lines).contains(t) ==> directive::reading_of(left, t)
                == directive::reading_of(right, t),
        metadata.confidence matches Some(t) ==> directive::reading_of(left, t)
            == directive::reading_of(right, t),
    ensures
        read_facts(metadata, lines, left) == read_facts(metadata, lines, right),
    decreases lines.len(),
{
    if lines.len() > 0 {
        let before = line_confidences(lines.drop_last());
        let segments = directive::segments_of(lines.last().1);
        let last = segment_confidences(segments);
        assert forall|t: Seq<char>| before.contains(t) implies directive::reading_of(left, t)
            == directive::reading_of(right, t) by {
            let i = choose|i: int| 0 <= i < before.len() && before[i] == t;
            assert((before + last)[i] == t);
            assert(line_confidences(lines).contains(t));
        }
        lemma_read_facts_agree(metadata, lines.drop_last(), left, right);
        assert forall|t: Seq<char>| last.contains(t) implies directive::reading_of(left, t)
            == directive::reading_of(right, t) by {
            let i = choose|i: int| 0 <= i < last.len() && last[i] == t;
            assert((before + last)[before.len() + i] == t);
            assert(line_confidences(lines).contains(t));
        }
        lemma_directives_agree(lines.last().1, left, right);
    }
}

proof fn lemma_directives_agree(
    raw: Seq<char>,
    left: Map<Seq<char>, Reading>,
    right: Map<Seq<char>, Reading>,
)
    requires
        forall|t: Seq<char>|
            segment_confidences(directive::segments_of(raw)).contains(t) ==> directive::reading_of(
                left,
                t,
            ) == directive::reading_of(right, t),
    ensures
        directive::directive_of(raw, left) == directive::directive_of(raw, right),
{
    let segments = directive::segments_of(raw);
    if segments.len() >= 3 {
        let parts = segments.skip(3);
        if let Ok(options) = directive::options_of(parts) {
            if let Some(t) = directive::option_named(options, "confidence"@) {
                lemma_option_is_segment(parts, t);
                lemma_segment_confidences_suffix(segments, 3, t);
            }
        }
    }
}

proof fn lemma_option_is_segment(parts: Seq<Seq<char>>, value: Seq<char>)
    requires
        directive::options_of(parts) is Ok,
        directive::option_named(directive::options_of(parts)->Ok_0, "confidence"@) == Some(value),
    ensures
        segment_confidences(parts).contains(value),
    decreases parts.len(),
{
    if parts.len() > 0 {
        let before = directive::options_of(parts.drop_last())->Ok_0;
        let options = directive::options_of(parts)->Ok_0;
        let entry = directive::option_of(parts.last())->Ok_0;
        let rest = segment_confidences(parts.drop_last());
        assert(options.drop_last() =~= before);
        if entry.0 == "confidence"@ {
            assert(segment_confidences(parts)[rest.len() as int] == value);
        } else {
            lemma_option_is_segment(parts.drop_last(), value);
        }
    }
}

proof fn lemma_segment_confidences_suffix(segments: Seq<Seq<char>>, n: int, value: Seq<char>)
    requires
        0 <= n <= segments.len(),
        segment_confidences(segments.skip(n)).contains(value),
    ensures
        segment_confidences(segments).contains(value),
    decreases segments.len(),
{
    if n < segments.len() {
        let tail = segments.skip(n);
        let rest = segments.drop_last();
        assert(tail.drop_last() =~= rest.skip(n));
        assert(tail.last() == segments.last());
        let inner = segment_confidences(tail.drop_last());
        let all = segment_confidences(tail);
        let k = choose|k: int| 0 <= k < all.len() && all[k] == value;
        let base = segment_confidences(rest);
        if k < inner.len() {
            assert(inner[k] == value);
            assert(inner.contains(value));
            lemma_segment_confidences_suffix(rest, n, value);
            let j = choose|j: int| 0 <= j < base.len() && base[j] == value;
            assert(segment_confidences(segments)[j] == value);
        } else {
            assert(segment_confidences(segments)[base.len() as int] == value);
        }
    } else {
        assert(segments.skip(n) =~= seq![]);
    }
}

// Queries.

/// Which facts are asked for.
#[derive(Debug)]
pub struct FactQuery {
    pub entity: Option<String>,
    pub relation: Option<String>,
    pub at: Option<String>,
    pub include_expired: bool,
}

/// A fact as it is shown.
#[derive(Debug)]
pub struct FactRow {
    pub id: String,
    pub subject: String,
    pub relation: String,
    pub object: String,
    pub valid_from: Option<String>,
    pub valid_to: Option<String>,
    pub expired_at: Option<String>,
    pub learned_at: String,
    pub source_memory_id: String,
    pub source_path: String,
    pub episode_id: String,
    pub excerpt: String,
    pub confidence: Option<String>,
}

#[verifier::ext_equal]
pub struct FactRowView {
    pub id: Seq<char>,
    pub subject: Seq<char>,
    pub relation: Seq<char>,
    pub object: Seq<char>,
    pub valid_from: Option<Seq<char>>,
    pub valid_to: Option<Seq<char>>,
    pub expired_at: Option<Seq<char>>,
    pub learned_at: Seq<char>,
    pub source_memory_id: Seq<char>,
    pub source_path: Seq<char>,
    pub episode_id: Seq<char>,
    pub excerpt: Seq<char>,
    pub confidence: Option<Seq<char>>,
}

impl View for FactRow {
    type V = FactRowView;

    open spec fn view(&self) -> FactRowView {
        FactRowView {
            id: self.id@,
            subject: self.subject@,
            relation: self.relation@,
            object: self.object@,
            valid_from: self.valid_from.deep_view(),
            valid_to: self.valid_to.deep_view(),
            expired_at: self.expired_at.deep_view(),
            learned_at: self.learned_at@,
            source_memory_id: self.source_memory_id@,
            source_path: self.source_path@,
            episode_id: self.episode_id@,
            excerpt: self.excerpt@,
            confidence: self.confidence.deep_view(),
        }
    }
}

impl DeepView for FactRow {
    type V = FactRowView;

    open spec fn deep_view(&self) -> FactRowView {
        self@
    }
}

impl Clone for FactRow {
    fn clone(&self) -> (copy: Self)
        ensures
            copy@ == self@,
    {
        FactRow {
            id: self.id.clone(),
            subject: self.subject.clone(),
            relation: self.relation.clone(),
            object: self.object.clone(),
            valid_from: text::clone_optional(&self.valid_from),
            valid_to: text::clone_optional(&self.valid_to),
            expired_at: text::clone_optional(&self.expired_at),
            learned_at: self.learned_at.clone(),
            source_memory_id: self.source_memory_id.clone(),
            source_path: self.source_path.clone(),
            episode_id: self.episode_id.clone(),
            excerpt: self.excerpt.clone(),
            confidence: text::clone_optional(&self.confidence),
        }
    }
}

/// A fact as the index keeps it.
#[derive(Debug)]
pub struct StoredFact {
    pub row: FactRow,
    pub time_kind: String,
    pub source_is_active: bool,
}

#[verifier::ext_equal]
pub struct StoredView {
    pub row: FactRowView,
    pub time_kind: Seq<char>,
    pub source_is_active: bool,
}

impl View for StoredFact {
    type V = StoredView;

    open spec fn view(&self) -> StoredView {
        StoredView {
            row: self.row@,
            time_kind: self.time_kind@,
            source_is_active: self.source_is_active,
        }
    }
}

impl DeepView for StoredFact {
    type V = StoredView;

    open spec fn deep_view(&self) -> StoredView {
        self@
    }
}

/// A fact with the time it is sorted by.
#[derive(Debug)]
pub struct FactCandidate {
    pub row: FactRow,
    pub sort_time: i64,
}

#[verifier::ext_equal]
pub struct CandidateView {
    pub row: FactRowView,
    pub sort_time: int,
}

impl View for FactCandidate {
    type V = CandidateView;

    open spec fn view(&self) -> CandidateView {
        CandidateView { row: self.row@, sort_time: self.sort_time as int }
    }
}

impl DeepView for FactCandidate {
    type V = CandidateView;

    open spec fn deep_view(&self) -> CandidateView {
        self@
    }
}

impl Ranked for FactCandidate {
    open spec fn ranks_before(left: CandidateView, right: CandidateView) -> bool {
        left.sort_time > right.sort_time || (left.sort_time == right.sort_time
            && order::text_less(left.row.id, right.row.id))
    }

    fn is_before(&self, other: &Self) -> (before: bool) {
        self.sort_time > other.sort_time || (self.sort_time == other.sort_time && order::is_less(
            self.row.id.as_str(),
            other.row.id.as_str(),
        ))
    }
}

/// What a query asks for, once it has been read.
pub struct QueryPlan {
    pub relation: Option<Seq<char>>,
    pub at: Option<int>,
}

/// What a query asks for. With no time given, current facts are meant, unless
/// expired ones are wanted too.
pub open spec fn plan_of(query: &FactQuery, now: int) -> Result<QueryPlan, Seq<char>> {
    let relation = match query.relation {
        Some(relation) => match normal_relation(relation@) {
            Ok(name) => Ok(Some(name)),
            Err(message) => Err(message),
        },
        None => Ok(None),
    };
    let at = match query.at {
        Some(at) => match clock::instant_of(at@) {
            Ok(seconds) => Ok(Some(seconds)),
            Err(message) => Err(message),
        },
        None => Ok(
            if query.include_expired {
                None
            } else {
                Some(now)
            },
        ),
    };
    if relation is Err {
        Err(relation->Err_0)
    } else if at is Err {
        Err(at->Err_0)
    } else {
        Ok(QueryPlan { relation: relation->Ok_0, at: at->Ok_0 })
    }
}

/// Whether a stored fact is about the entity and of the relation asked for, and
/// its source is active.
pub open spec fn is_asked_for(
    stored: StoredView,
    entity: Option<Seq<char>>,
    relation: Option<Seq<char>>,
) -> bool {
    &&& stored.source_is_active
    &&& entity matches Some(entity) ==> text::ascii_lower(stored.row.subject) == text::ascii_lower(
        entity,
    ) || text::ascii_lower(stored.row.object) == text::ascii_lower(entity)
    &&& relation matches Some(relation) ==> stored.row.relation == relation
}

/// The time that a fact is sorted by: its start, or when it was learned.
pub open spec fn sort_time_of(row: FactRowView, kind: TimeKind) -> Result<int, Seq<char>> {
    match row.valid_from {
        Some(value) => clock::seconds_of(value, kind),
        None => clock::instant_of(row.learned_at),
    }
}

/// What a stored fact that is asked for comes to: a candidate, or nothing where
/// it does not hold at the time.
pub open spec fn candidate_of(stored: StoredView, at: Option<int>) -> Result<
    Option<CandidateView>,
    Seq<char>,
> {
    match TimeKind::of_name(stored.time_kind) {
        Err(message) => Err(message),
        Ok(kind) => {
            let holds = match at {
                Some(at) => clock::holds_at(
                    stored.row.valid_from,
                    stored.row.valid_to,
                    stored.row.expired_at,
                    kind,
                    at,
                ),
                None => Ok(true),
            };
            match holds {
                Err(message) => Err(message),
                Ok(false) => Ok(None),
                Ok(true) => match sort_time_of(stored.row, kind) {
                    Err(message) => Err(message),
                    Ok(sort_time) => Ok(Some(CandidateView { row: stored.row, sort_time })),
                },
            }
        },
    }
}

/// The candidates among the stored facts; the first problem is that of all.
pub open spec fn candidates_of(
    stored: Seq<StoredView>,
    entity: Option<Seq<char>>,
    plan: QueryPlan,
) -> Result<Seq<CandidateView>, Seq<char>>
    decreases stored.len(),
{
    if stored.len() == 0 {
        Ok(seq![])
    } else {
        match candidates_of(stored.drop_last(), entity, plan) {
            Err(message) => Err(message),
            Ok(found) => if !is_asked_for(stored.last(), entity, plan.relation) {
                Ok(found)
            } else {
                match candidate_of(stored.last(), plan.at) {
                    Err(message) => Err(message),
                    Ok(None) => Ok(found),
                    Ok(Some(candidate)) => Ok(found.push(candidate)),
                }
            },
        }
    }
}

pub open spec fn row_views(candidates: Seq<CandidateView>) -> Seq<FactRowView> {
    candidates.map_values(|candidate: CandidateView| candidate.row)
}

/// The facts that a query finds: the latest first, then by their ids.
pub open spec fn found_facts(stored: Seq<StoredView>, query: &FactQuery, now: int) -> Result<
    Seq<FactRowView>,
    Seq<char>,
> {
    match plan_of(query, now) {
        Err(message) => Err(message),
        Ok(plan) => match candidates_of(stored, query.entity.deep_view(), plan) {
            Err(message) => Err(message),
            Ok(found) => Ok(row_views(order::ranked::<FactCandidate>(found))),
        },
    }
}

fn optional_matches(value: &str, wanted: &Option<String>) -> (matches: bool)
    ensures
        matches == (wanted.deep_view() matches Some(wanted) ==> text::ascii_lower(value@)
            == text::ascii_lower(wanted)),
{
    match wanted {
        Some(wanted) => text::to_ascii_lowercase(value) == text::to_ascii_lowercase(
            wanted.as_str(),
        ),
        None => true,
    }
}

fn sort_time(row: &FactRow, kind: TimeKind) -> (time: Result<i64, Error>)
    ensures
        clock::same_seconds(time, sort_time_of(row@, kind)),
{
    match &row.valid_from {
        Some(value) => clock::temporal_value_to_unix_seconds(value.as_str(), kind),
        None => clock::temporal_unix_seconds(row.learned_at.as_str()),
    }
}

proof fn lemma_candidates_prefix(
    stored: Seq<StoredView>,
    entity: Option<Seq<char>>,
    plan: QueryPlan,
    n: int,
)
    requires
        0 <= n <= stored.len(),
    ensures
        candidates_of(stored.take(n), entity, plan) is Err ==> candidates_of(stored, entity, plan)
            == candidates_of(stored.take(n), entity, plan),
    decreases stored.len(),
{
    if n == stored.len() {
        assert(stored.take(n) =~= stored);
    } else {
        lemma_candidates_prefix(stored.drop_last(), entity, plan, n);
        assert(stored.drop_last().take(n) =~= stored.take(n));
    }
}

/// Finds the facts that a query asks for.
#[verifier::loop_isolation(false)]
pub fn query_facts(stored: &Vec<StoredFact>, query: &FactQuery, now: i64) -> (facts: Result<
    Vec<FactRow>,
    Error,
>)
    ensures
        match facts {
            Ok(facts) => found_facts(stored.deep_view(), query, now as int) == Ok::<_, Seq<char>>(
                facts.deep_view(),
            ),
            Err(error) => found_facts(stored.deep_view(), query, now as int) == Err::<
                Seq<FactRowView>,
                _,
            >(error@),
        },
{
    let relation: Option<&str> = match &query.relation {
        Some(relation) => Some(normalize_relation(relation.as_str())?),
        None => None,
    };
    let at: Option<i64> = match &query.at {
        Some(at) => Some(clock::temporal_unix_seconds(at.as_str())?),
        None => {
            if query.include_expired {
                None
            } else {
                Some(now)
            }
        },
    };
    let ghost plan = plan_of(query, now as int)->Ok_0;
    let ghost entity = query.entity.deep_view();
    let ghost all = stored.deep_view();
    assert(plan.relation == relation.deep_view());
    let mut candidates: Vec<FactCandidate> = Vec::new();
    let mut i: usize = 0;
    assert(all.take(0) =~= seq![]);
    assert(candidates.deep_view() =~= seq![]);
    while i < stored.len()
        invariant
            i <= stored.len(),
            candidates_of(all.take(i as int), entity, plan) == Ok::<_, Seq<char>>(
                candidates.deep_view(),
            ),
        decreases stored.len() - i,
    {
        let fact = &stored[i];
        proof {
            assert(all.take(i + 1).drop_last() =~= all.take(i as int));
            assert(all.take(i + 1).last() == fact@);
            lemma_candidates_prefix(all, entity, plan, i + 1);
        }
        i = i + 1;
        let about = optional_matches(fact.row.subject.as_str(), &query.entity) || optional_matches(
            fact.row.object.as_str(),
            &query.entity,
        );
        let related = match relation {
            Some(relation) => text::same(fact.row.relation.as_str(), relation),
            None => true,
        };
        if !fact.source_is_active || !about || !related {
            continue;
        }
        let kind = TimeKind::from_storage(fact.time_kind.as_str())?;
        if let Some(at) = at {
            if !clock::times_hold_at(
                as_slice(&fact.row.valid_from),
                as_slice(&fact.row.valid_to),
                as_slice(&fact.row.expired_at),
                kind,
                at,
            )? {
                continue;
            }
        }
        let sort_time = sort_time(&fact.row, kind)?;
        let ghost before = candidates.deep_view();
        candidates.push(FactCandidate { row: fact.row.clone(), sort_time });
        assert(candidates.deep_view() =~= before.push(
            CandidateView { row: fact@.row, sort_time: sort_time as int },
        ));
    }
    assert(all.take(i as int) =~= all);
    let sorted = order::sort(candidates);
    let ghost ranked = sorted.deep_view();
    let mut facts: Vec<FactRow> = Vec::new();
    let mut k: usize = 0;
    while k < sorted.len()
        invariant
            k <= sorted.len(),
            ranked == sorted.deep_view(),
            facts.deep_view() == row_views(ranked).take(k as int),
        decreases sorted.len() - k,
    {
        let ghost before = facts.deep_view();
        facts.push(sorted[k].row.clone());
        assert(ranked[k as int] == sorted[k as int]@);
        assert(facts.deep_view() =~= before.push(sorted[k as int].row@));
        assert(row_views(ranked).take(k + 1) =~= row_views(ranked).take(k as int).push(
            row_views(ranked)[k as int],
        ));
        k = k + 1;
    }
    assert(row_views(ranked).take(k as int) =~= row_views(ranked));
    Ok(facts)
}

/// Whether every fact has an identifier of its own.
pub fn validate_no_duplicate_fact_ids(ids: &Vec<String>) -> (valid: Result<(), Error>)
    ensures
        match valid {
            Ok(_) => forall|i: int, j: int|
                0 <= i < j < ids.len() ==> ids.deep_view()[i] != ids.deep_view()[j],
            Err(error) => exists|j: int|
                0 <= j < ids.len() && ids.deep_view().take(j).contains(
                    #[trigger] ids.deep_view()[j],
                ) && (forall|a: int, b: int|
                    0 <= a < b < j ==> ids.deep_view()[a] != ids.deep_view()[b]) && error@
                    == "duplicate semantic fact id "@ + ids.deep_view()[j],
        },
{
    let ghost all = ids.deep_view();
    let mut j: usize = 0;
    while j < ids.len()
        invariant
            j <= ids.len(),
            all == ids.deep_view(),
            forall|a: int, b: int| 0 <= a < b < j ==> all[a] != all[b],
        decreases ids.len() - j,
    {
        let mut i: usize = 0;
        while i < j
            invariant
                i <= j < ids.len(),
                all == ids.deep_view(),
                forall|a: int, b: int| 0 <= a < b < j ==> all[a] != all[b],
                forall|a: int| 0 <= a < i ==> all[a] != all[j as int],
            decreases j - i,
        {
            assert(all[i as int] == ids[i as int]@ && all[j as int] == ids[j as int]@);
            if ids[i] == ids[j] {
                assert(all.take(j as int)[i as int] == all[j as int]);
                return Err(
                    Error::new(text::concat2("duplicate semantic fact id ", ids[j].as_str())),
                );
            }
            i = i + 1;
        }
        j = j + 1;
    }
    Ok(())
}

} // verus!
