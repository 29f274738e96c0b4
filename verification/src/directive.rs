//! The `@fact` directive: `subject | RELATION | object | key=value ...`.

use vstd::prelude::*;

use crate::error::Error;
use crate::order;
use crate::text;

verus! {

// Confidences.

/// How a text reads as a floating-point number between 0 and 1. A number in
/// that range is kept in its shortest decimal form.
#[derive(Debug)]
pub enum ConfidenceReading {
    NotANumber,
    OutOfRange,
    InRange(String),
}

pub enum Reading {
    NotANumber,
    OutOfRange,
    InRange(Seq<char>),
}

impl View for ConfidenceReading {
    type V = Reading;

    open spec fn view(&self) -> Reading {
        match self {
            ConfidenceReading::NotANumber => Reading::NotANumber,
            ConfidenceReading::OutOfRange => Reading::OutOfRange,
            ConfidenceReading::InRange(value) => Reading::InRange(value@),
        }
    }
}

/// What confidence texts read as. A text that is not listed is no number.
#[derive(Debug)]
pub struct ConfidenceTable {
    entries: Vec<(String, ConfidenceReading)>,
}

pub closed spec fn table_map(entries: Seq<(String, ConfidenceReading)>) -> Map<Seq<char>, Reading>
    decreases entries.len(),
{
    if entries.len() == 0 {
        Map::empty()
    } else {
        table_map(entries.drop_last()).insert(entries.last().0@, entries.last().1@)
    }
}

impl View for ConfidenceTable {
    type V = Map<Seq<char>, Reading>;

    closed spec fn view(&self) -> Map<Seq<char>, Reading> {
        table_map(self.entries@)
    }
}

pub open spec fn reading_of(table: Map<Seq<char>, Reading>, value: Seq<char>) -> Reading {
    if table.contains_key(value) {
        table[value]
    } else {
        Reading::NotANumber
    }
}

/// The confidence that a text stands for.
pub open spec fn confidence_of(table: Map<Seq<char>, Reading>, value: Seq<char>) -> Result<
    Seq<char>,
    Seq<char>,
> {
    match reading_of(table, value) {
        Reading::NotANumber => Err("confidence must be a number"@),
        Reading::OutOfRange => Err("confidence must be between 0.0 and 1.0"@),
        Reading::InRange(number) => Ok(number),
    }
}

/// The confidence of a text that may be missing.
pub open spec fn optional_confidence(
    table: Map<Seq<char>, Reading>,
    value: Option<Seq<char>>,
) -> Result<Option<Seq<char>>, Seq<char>> {
    match value {
        None => Ok(None),
        Some(value) => match confidence_of(table, value) {
            Ok(number) => Ok(Some(number)),
            Err(message) => Err(message),
        },
    }
}

impl ConfidenceTable {
    pub fn new() -> (table: ConfidenceTable)
        ensures
            table@ == Map::<Seq<char>, Reading>::empty(),
    {
        ConfidenceTable { entries: Vec::new() }
    }

    pub fn insert(&mut self, value: String, reading: ConfidenceReading)
        ensures
            final(self)@ == old(self)@.insert(value@, reading@),
    {
        self.entries.push((value, reading));
        assert(self.entries@.drop_last() =~= old(self).entries@);
    }

    fn read(&self, value: &str) -> (number: Result<String, Error>)
        ensures
            crate::error::agrees(number, confidence_of(self@, value@)),
    {
        let mut i: usize = self.entries.len();
        assert(self.entries@.take(i as int) =~= self.entries@);
        while i > 0
            invariant
                i <= self.entries.len(),
                self@.contains_key(value@) == table_map(
                    self.entries@.take(i as int),
                ).contains_key(value@),
                self@.contains_key(value@) ==> self@[value@] == table_map(
                    self.entries@.take(i as int),
                )[value@],
            decreases i,
        {
            assert(self.entries@.take(i as int).drop_last() =~= self.entries@.take(i - 1));
            if text::same(self.entries[i - 1].0.as_str(), value) {
                return match &self.entries[i - 1].1 {
                    ConfidenceReading::NotANumber => Err(Error::of("confidence must be a number")),
                    ConfidenceReading::OutOfRange => Err(
                        Error::of("confidence must be between 0.0 and 1.0"),
                    ),
                    ConfidenceReading::InRange(number) => Ok(number.clone()),
                };
            }
            i = i - 1;
        }
        Err(Error::of("confidence must be a number"))
    }
}

/// Reads a confidence that may be missing.
pub fn parse_confidence(value: Option<&str>, table: &ConfidenceTable) -> (confidence: Result<
    Option<String>,
    Error,
>)
    ensures
        match confidence {
            Ok(confidence) => optional_confidence(table@, value.deep_view()) == Ok::<_, Seq<char>>(
                confidence.deep_view(),
            ),
            Err(error) => optional_confidence(table@, value.deep_view()) == Err::<
                Option<Seq<char>>,
                _,
            >(error@),
        },
{
    match value {
        None => Ok(None),
        Some(value) => {
            let number = table.read(value)?;
            Ok(Some(number))
        },
    }
}

// Options.

/// `value` with every `from` replaced by `to`.
pub open spec fn with_char(value: Seq<char>, from: char, to: char) -> Seq<char> {
    value.map_values(
        |c: char|
            if c == from {
                to
            } else {
                c
            },
    )
}

pub fn replace_char(value: &str, from: char, to: char) -> (result: String)
    ensures
        result@ == with_char(value@, from, to),
{
    let chars = text::chars_of(value);
    let mut result = String::new();
    let ghost all = with_char(value@, from, to);
    let mut i: usize = 0;
    while i < chars.len()
        invariant
            i <= chars.len(),
            chars@ == value@,
            all == with_char(value@, from, to),
            result@ == all.take(i as int),
        decreases chars.len() - i,
    {
        if chars[i] == from {
            result.push(to);
        } else {
            result.push(chars[i]);
        }
        assert(all.take(i + 1) =~= all.take(i as int).push(all[i as int]));
        i = i + 1;
    }
    assert(all.take(i as int) =~= all);
    result
}

pub type OptionEntry = (Seq<char>, Seq<char>);

pub open spec fn option_key(written: Seq<char>) -> Seq<char> {
    text::ascii_lower(with_char(text::trimmed(written), '-', '_'))
}

pub open spec fn option_value(written: Seq<char>) -> Seq<char> {
    text::stripped(text::stripped(text::trimmed(written), '"'), '\'')
}

/// One option.
pub open spec fn option_of(part: Seq<char>) -> Result<OptionEntry, Seq<char>> {
    match text::split_once_at(part, '=') {
        None => Err("invalid option "@ + text::quoted_form(part) + "; expected key=value"@),
        Some((before, after)) => {
            let key = option_key(before);
            let value = option_value(after);
            if key.len() == 0 || value.len() == 0 {
                Err(
                    "invalid option "@ + text::quoted_form(part)
                        + "; key and value are required"@,
                )
            } else {
                Ok((key, value))
            }
        },
    }
}

/// The value of an option, if it was given.
pub open spec fn option_named(options: Seq<OptionEntry>, key: Seq<char>) -> Option<Seq<char>>
    decreases options.len(),
{
    if options.len() == 0 {
        None
    } else if options.last().0 == key {
        Some(options.last().1)
    } else {
        option_named(options.drop_last(), key)
    }
}

/// The options of a directive, none of them given twice.
pub open spec fn options_of(parts: Seq<Seq<char>>) -> Result<Seq<OptionEntry>, Seq<char>>
    decreases parts.len(),
{
    if parts.len() == 0 {
        Ok(seq![])
    } else {
        match options_of(parts.drop_last()) {
            Err(message) => Err(message),
            Ok(options) => match option_of(parts.last()) {
                Err(message) => Err(message),
                Ok(entry) => if option_named(options, entry.0) is Some {
                    Err("duplicate semantic fact option "@ + text::quoted_form(entry.0))
                } else {
                    Ok(options.push(entry))
                },
            },
        }
    }
}

/// The options that mean something.
pub open spec fn is_known_option(key: Seq<char>) -> bool {
    ||| key == "object_kind"@
    ||| key == "confidence"@
    ||| key == "valid_from"@
    ||| key == "valid_to"@
    ||| key == "learned_at"@
    ||| key == "expired_at"@
}

pub open spec fn option_keys(options: Seq<OptionEntry>) -> Seq<Seq<char>> {
    options.map_values(|entry: OptionEntry| entry.0)
}

pub open spec fn unknown_keys(options: Seq<OptionEntry>) -> Seq<Seq<char>> {
    order::ranked::<String>(
        option_keys(options).filter(|key: Seq<char>| !is_known_option(key)),
    )
}

/// Whether the object is an entity, as the option says; it is one by default.
pub open spec fn object_is_entity(options: Seq<OptionEntry>) -> Result<bool, Seq<char>> {
    match option_named(options, "object_kind"@) {
        None => Ok(true),
        Some(value) => {
            let kind = text::ascii_lower(value);
            if kind == "entity"@ {
                Ok(true)
            } else if kind == "value"@ {
                Ok(false)
            } else {
                Err("object_kind must be either entity or value"@)
            }
        },
    }
}

// Directives.

/// What a directive says.
#[derive(Debug)]
pub struct FactDirective {
    pub subject: String,
    pub relation: String,
    pub object: String,
    pub valid_from: Option<String>,
    pub valid_to: Option<String>,
    pub learned_at: Option<String>,
    pub expired_at: Option<String>,
    pub confidence: Option<String>,
    pub object_is_entity: bool,
}

#[verifier::ext_equal]
pub struct DirectiveView {
    pub subject: Seq<char>,
    pub relation: Seq<char>,
    pub object: Seq<char>,
    pub valid_from: Option<Seq<char>>,
    pub valid_to: Option<Seq<char>>,
    pub learned_at: Option<Seq<char>>,
    pub expired_at: Option<Seq<char>>,
    pub confidence: Option<Seq<char>>,
    pub object_is_entity: bool,
}

impl View for FactDirective {
    type V = DirectiveView;

    open spec fn view(&self) -> DirectiveView {
        DirectiveView {
            subject: self.subject@,
            relation: self.relation@,
            object: self.object@,
            valid_from: self.valid_from.deep_view(),
            valid_to: self.valid_to.deep_view(),
            learned_at: self.learned_at.deep_view(),
            expired_at: self.expired_at.deep_view(),
            confidence: self.confidence.deep_view(),
            object_is_entity: self.object_is_entity,
        }
    }
}

/// The segments of a directive, trimmed.
pub open spec fn segments_of(raw: Seq<char>) -> Seq<Seq<char>> {
    text::pieces(raw, '|').map_values(|part: Seq<char>| text::trimmed(part))
}

/// What a directive says, given what its confidence reads as.
pub open spec fn directive_of(raw: Seq<char>, table: Map<Seq<char>, Reading>) -> Result<
    DirectiveView,
    Seq<char>,
> {
    let parts = segments_of(raw);
    if parts.len() < 3 {
        Err("expected `@fact subject | RELATION | object | key=value ...`"@)
    } else if parts[0].len() == 0 || parts[1].len() == 0 || parts[2].len() == 0 {
        Err("subject, relation, and object are required"@)
    } else {
        match options_of(parts.skip(3)) {
            Err(message) => Err(message),
            Ok(options) => {
                let entity = object_is_entity(options);
                let confidence = optional_confidence(
                    table,
                    option_named(options, "confidence"@),
                );
                let unknown = unknown_keys(options);
                if entity is Err {
                    Err(entity->Err_0)
                } else if confidence is Err {
                    Err(confidence->Err_0)
                } else if unknown.len() > 0 {
                    Err("unknown semantic fact option(s): "@ + text::joined(unknown, ", "@))
                } else {
                    Ok(
                        DirectiveView {
                            subject: parts[0],
                            relation: parts[1],
                            object: parts[2],
                            valid_from: option_named(options, "valid_from"@),
                            valid_to: option_named(options, "valid_to"@),
                            learned_at: option_named(options, "learned_at"@),
                            expired_at: option_named(options, "expired_at"@),
                            confidence: confidence->Ok_0,
                            object_is_entity: entity->Ok_0,
                        },
                    )
                }
            },
        }
    }
}

pub open spec fn entry_views(options: Seq<(String, String)>) -> Seq<OptionEntry> {
    options.map_values(|entry: (String, String)| (entry.0@, entry.1@))
}

fn lookup(options: &Vec<(String, String)>, key: &str) -> (value: Option<String>)
    ensures
        value.deep_view() == option_named(entry_views(options@), key@),
{
    let ghost all = entry_views(options@);
    let mut i: usize = options.len();
    assert(all.take(i as int) =~= all);
    while i > 0
        invariant
            i <= options.len(),
            all == entry_views(options@),
            option_named(all, key@) == option_named(all.take(i as int), key@),
        decreases i,
    {
        assert(all.take(i as int).last() == (options[i - 1].0@, options[i - 1].1@));
        assert(all.take(i as int).drop_last() =~= all.take(i - 1));
        if text::same(options[i - 1].0.as_str(), key) {
            return Some(options[i - 1].1.clone());
        }
        i = i - 1;
    }
    None
}

pub fn parse_option(part: &str) -> (entry: Result<(String, String), Error>)
    ensures
        match entry {
            Ok(entry) => option_of(part@) == Ok::<_, Seq<char>>((entry.0@, entry.1@)),
            Err(error) => option_of(part@) == Err::<OptionEntry, _>(error@),
        },
{
    match text::split_once(part, '=') {
        None => Err(
            Error::new(
                text::concat3(
                    "invalid option ",
                    text::quoted(part).as_str(),
                    "; expected key=value",
                ),
            ),
        ),
        Some((before, after)) => {
            let key = text::to_ascii_lowercase(
                replace_char(text::trim(before), '-', '_').as_str(),
            );
            let value = text::trim_matches(text::trim_matches(text::trim(after), '"'), '\'').to_owned();
            if key.as_str().is_empty() || value.as_str().is_empty() {
                return Err(
                    Error::new(
                        text::concat3(
                            "invalid option ",
                            text::quoted(part).as_str(),
                            "; key and value are required",
                        ),
                    ),
                );
            }
            Ok((key, value))
        },
    }
}

fn parse_options(parts: &Vec<&str>, start: usize) -> (options: Result<
    Vec<(String, String)>,
    Error,
>)
    requires
        start <= parts.len(),
    ensures
        match options {
            Ok(options) => options_of(segment_views(parts.deep_view()).skip(start as int)) == Ok::<
                _,
                Seq<char>,
            >(entry_views(options@)),
            Err(error) => options_of(segment_views(parts.deep_view()).skip(start as int)) == Err::<
                Seq<OptionEntry>,
                _,
            >(error@),
        },
{
    let ghost all = segment_views(parts.deep_view()).skip(start as int);
    let mut options: Vec<(String, String)> = Vec::new();
    let mut i: usize = start;
    assert(all.take(0) =~= seq![]);
    assert(entry_views(options@) =~= seq![]);
    while i < parts.len()
        invariant
            start <= i <= parts.len(),
            all == segment_views(parts.deep_view()).skip(start as int),
            options_of(all.take(i - start)) == Ok::<_, Seq<char>>(entry_views(options@)),
        decreases parts.len() - i,
    {
        let part = text::trim(parts[i]);
        assert(all.take(i + 1 - start).drop_last() =~= all.take(i - start));
        assert(all.take(i + 1 - start).last() == part@);
        proof {
            lemma_options_prefix(all, i + 1 - start);
        }
        let entry = parse_option(part)?;
        if lookup(&options, entry.0.as_str()).is_some() {
            return Err(
                Error::new(
                    text::concat2(
                        "duplicate semantic fact option ",
                        text::quoted(entry.0.as_str()).as_str(),
                    ),
                ),
            );
        }
        let ghost before = entry_views(options@);
        let ghost added = (entry.0@, entry.1@);
        options.push(entry);
        assert(entry_views(options@) =~= before.push(added));
        i = i + 1;
    }
    assert(all.take(all.len() as int) =~= all);
    Ok(options)
}

/// A problem among the first options is the problem of all of them.
proof fn lemma_options_prefix(parts: Seq<Seq<char>>, n: int)
    requires
        0 <= n <= parts.len(),
    ensures
        options_of(parts.take(n)) is Err ==> options_of(parts) == options_of(parts.take(n)),
    decreases parts.len(),
{
    if n == parts.len() {
        assert(parts.take(n) =~= parts);
    } else {
        lemma_options_prefix(parts.drop_last(), n);
        assert(parts.drop_last().take(n) =~= parts.take(n));
    }
}

pub open spec fn segment_views(parts: Seq<Seq<char>>) -> Seq<Seq<char>> {
    parts.map_values(|part: Seq<char>| text::trimmed(part))
}

fn is_known(key: &str) -> (known: bool)
    ensures
        known == is_known_option(key@),
{
    text::same(key, "object_kind") || text::same(key, "confidence") || text::same(key, "valid_from")
        || text::same(key, "valid_to") || text::same(key, "learned_at") || text::same(
        key,
        "expired_at",
    )
}

fn unknown_options(options: &Vec<(String, String)>) -> (unknown: Vec<String>)
    ensures
        unknown.deep_view() == unknown_keys(entry_views(options@)),
{
    let mut unknown: Vec<String> = Vec::new();
    let ghost all = option_keys(entry_views(options@));
    let ghost strange = |key: Seq<char>| !is_known_option(key);
    let mut i: usize = 0;
    proof {
        reveal(Seq::filter);
        assert(all.take(0) =~= seq![]);
        assert(unknown.deep_view() =~= seq![]);
        assert(all.take(0).filter(strange) =~= seq![]);
    }
    while i < options.len()
        invariant
            i <= options.len(),
            all == option_keys(entry_views(options@)),
            strange == (|key: Seq<char>| !is_known_option(key)),
            unknown.deep_view() == all.take(i as int).filter(strange),
        decreases options.len() - i,
    {
        proof {
            reveal(Seq::filter);
            assert(all.take(i + 1).drop_last() =~= all.take(i as int));
            assert(all.take(i + 1).last() == options[i as int].0@);
        }
        if !is_known(options[i].0.as_str()) {
            let ghost before = unknown.deep_view();
            unknown.push(options[i].0.clone());
            assert(unknown.deep_view() =~= before.push(options[i as int].0@));
        }
        i = i + 1;
    }
    assert(all.take(i as int) =~= all);
    order::sort(unknown)
}

/// Reads what follows `@fact ` on a line.
pub fn parse_fact_directive(raw: &str, table: &ConfidenceTable) -> (directive: Result<
    FactDirective,
    Error,
>)
    ensures
        crate::error::agrees(directive, directive_of(raw@, table@)),
{
    let parts = text::split(raw, '|');
    let ghost all = segments_of(raw@);
    assert(all =~= segment_views(parts.deep_view()));
    if parts.len() < 3 {
        return Err(Error::of("expected `@fact subject | RELATION | object | key=value ...`"));
    }
    let subject = text::trim(parts[0]);
    let relation = text::trim(parts[1]);
    let object = text::trim(parts[2]);
    assert(all[0] == subject@ && all[1] == relation@ && all[2] == object@);
    if subject.is_empty() || relation.is_empty() || object.is_empty() {
        return Err(Error::of("subject, relation, and object are required"));
    }
    let options = parse_options(&parts, 3)?;
    let object_is_entity = match lookup(&options, "object_kind") {
        None => true,
        Some(value) => {
            let kind = text::to_ascii_lowercase(value.as_str());
            if text::same(kind.as_str(), "entity") {
                true
            } else if text::same(kind.as_str(), "value") {
                false
            } else {
                return Err(Error::of("object_kind must be either entity or value"));
            }
        },
    };
    let confidence = match lookup(&options, "confidence") {
        None => None,
        Some(value) => {
            let number = table.read(value.as_str())?;
            Some(number)
        },
    };
    let unknown = unknown_options(&options);
    if unknown.len() > 0 {
        return Err(
            Error::new(
                text::concat2(
                    "unknown semantic fact option(s): ",
                    text::join(&unknown, ", ").as_str(),
                ),
            ),
        );
    }
    Ok(
        FactDirective {
            subject: subject.to_owned(),
            relation: relation.to_owned(),
            object: object.to_owned(),
            valid_from: lookup(&options, "valid_from"),
            valid_to: lookup(&options, "valid_to"),
            learned_at: lookup(&options, "learned_at"),
            expired_at: lookup(&options, "expired_at"),
            confidence,
            object_is_entity,
        },
    )
}

} // verus!
