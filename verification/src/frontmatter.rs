//! Front matter: the block of `key: value` lines between `---` delimiters that
//! opens a document.

use vstd::prelude::*;
use vstd::string::*;

use crate::error::Error;
use crate::numeral::decimal_usize;
use crate::order;
use crate::text;

verus! {

/// The value of a field.
#[derive(Debug, Eq, PartialEq)]
pub enum FieldValue {
    Null,
    Scalar(String),
    List(Vec<String>),
}

/// The value of a field, as contracts speak of it.
pub enum Field {
    Null,
    Scalar(Seq<char>),
    List(Seq<Seq<char>>),
}

impl View for FieldValue {
    type V = Field;

    open spec fn view(&self) -> Field {
        match self {
            FieldValue::Null => Field::Null,
            FieldValue::Scalar(value) => Field::Scalar(value@),
            FieldValue::List(values) => Field::List(values.deep_view()),
        }
    }
}

/// The fields of a front matter block, by their keys.
#[derive(Debug)]
pub struct Frontmatter {
    entries: Vec<(String, FieldValue)>,
}

/// The map that a list of entries makes up.
pub closed spec fn entry_map(entries: Seq<(String, FieldValue)>) -> Map<Seq<char>, Field>
    decreases entries.len(),
{
    if entries.len() == 0 {
        Map::empty()
    } else {
        entry_map(entries.drop_last()).insert(entries.last().0@, entries.last().1@)
    }
}

impl View for Frontmatter {
    type V = Map<Seq<char>, Field>;

    closed spec fn view(&self) -> Map<Seq<char>, Field> {
        entry_map(self.entries@)
    }
}

/// Whether a key of the fields is the first, in order, that is not among those
/// allowed.
pub open spec fn is_first_except(
    fields: Map<Seq<char>, Field>,
    allowed: Seq<Seq<char>>,
    key: Seq<char>,
) -> bool {
    &&& fields.contains_key(key)
    &&& !allowed.contains(key)
    &&& forall|other: Seq<char>|
        fields.contains_key(other) && !allowed.contains(other) ==> !#[trigger] order::text_less(
            other,
            key,
        )
}

fn is_listed(texts: &[&str], wanted: &str) -> (found: bool)
    ensures
        found == texts.deep_view().contains(wanted@),
{
    let ghost all = texts.deep_view();
    let mut i: usize = 0;
    while i < texts.len()
        invariant
            i <= texts.len(),
            all == texts.deep_view(),
            forall|k: int| 0 <= k < i ==> all[k] != wanted@,
        decreases texts.len() - i,
    {
        assert(all[i as int] == texts[i as int]@);
        if text::same(texts[i], wanted) {
            return true;
        }
        i = i + 1;
    }
    false
}

impl Frontmatter {
    pub fn new() -> (fields: Frontmatter)
        ensures
            fields@ == Map::<Seq<char>, Field>::empty(),
    {
        Frontmatter { entries: Vec::new() }
    }

    pub fn get(&self, key: &str) -> (value: Option<&FieldValue>)
        ensures
            value is Some <==> self@.contains_key(key@),
            value matches Some(value) ==> self@[key@] == value@,
    {
        let mut i: usize = self.entries.len();
        assert(self.entries@.take(i as int) =~= self.entries@);
        while i > 0
            invariant
                i <= self.entries.len(),
                self@.contains_key(key@) == entry_map(self.entries@.take(i as int)).contains_key(
                    key@,
                ),
                self@.contains_key(key@) ==> self@[key@] == entry_map(
                    self.entries@.take(i as int),
                )[key@],
            decreases i,
        {
            assert(self.entries@.take(i as int).drop_last() =~= self.entries@.take(i - 1));
            if text::same(self.entries[i - 1].0.as_str(), key) {
                return Some(&self.entries[i - 1].1);
            }
            i = i - 1;
        }
        None
    }

    /// The first key, in order, that is not among those allowed.
    pub fn first_key_except(&self, allowed: &[&str]) -> (key: Option<&str>)
        ensures
            match key {
                Some(key) => is_first_except(self@, allowed.deep_view(), key@),
                None => forall|key: Seq<char>|
                    self@.contains_key(key) ==> #[trigger] allowed.deep_view().contains(key),
            },
    {
        let mut first: Option<&str> = None;
        let mut i: usize = 0;
        let ghost keys = allowed.deep_view();
        assert(self.entries@.take(0) =~= seq![]);
        while i < self.entries.len()
            invariant
                i <= self.entries.len(),
                keys == allowed.deep_view(),
                match first {
                    Some(key) => is_first_except(
                        entry_map(self.entries@.take(i as int)),
                        keys,
                        key@,
                    ),
                    None => forall|key: Seq<char>|
                        entry_map(self.entries@.take(i as int)).contains_key(key)
                            ==> #[trigger] keys.contains(key),
                },
            decreases self.entries.len() - i,
        {
            let key = self.entries[i].0.as_str();
            let ghost before = entry_map(self.entries@.take(i as int));
            let ghost after = entry_map(self.entries@.take(i + 1));
            assert(self.entries@.take(i + 1).drop_last() =~= self.entries@.take(i as int));
            assert(after == before.insert(key@, self.entries[i as int].1@));
            if !is_listed(allowed, key) {
                match first {
                    Some(least) => {
                        proof {
                            order::text_less_is_total(key@, least@);
                        }
                        if order::is_less(key, least) {
                            proof {
                                assert forall|other: Seq<char>|
                                    after.contains_key(other) && !keys.contains(
                                        other,
                                    ) implies !order::text_less(other, key@) by {
                                    order::text_less_is_irreflexive(key@);
                                    if other != key@ && order::text_less(other, key@) {
                                        order::text_less_is_transitive(other, key@, least@);
                                    }
                                }
                            }
                            first = Some(key);
                        }
                    },
                    None => {
                        proof {
                            order::text_less_is_irreflexive(key@);
                        }
                        first = Some(key);
                    },
                }
            }
            i = i + 1;
        }
        assert(self.entries@.take(i as int) =~= self.entries@);
        first
    }

    pub fn insert(&mut self, key: String, value: FieldValue)
        ensures
            final(self)@ == old(self)@.insert(key@, value@),
    {
        self.entries.push((key, value));
        assert(self.entries@.drop_last() =~= old(self).entries@);
    }
}

// Reading.

/// Whether a value stands in quotes of either kind.
pub open spec fn in_quotes(value: Seq<char>) -> bool {
    value.len() >= 2 && ((value[0] == '"' && value.last() == '"') || (value[0] == '\'' && value.last()
        == '\''))
}

/// Whether a value stands in square brackets.
pub open spec fn in_brackets(value: Seq<char>) -> bool {
    value.len() >= 1 && value[0] == '[' && value.last() == ']'
}

/// The character that a backslash escape stands for, if it is a known one.
pub open spec fn unescaped(c: char) -> Option<char> {
    if c == '"' {
        Some('"')
    } else if c == '\\' {
        Some('\\')
    } else if c == 'n' {
        Some('\n')
    } else if c == 'r' {
        Some('\r')
    } else if c == 't' {
        Some('\t')
    } else {
        None
    }
}

/// The inside of double quotes with its escapes resolved. An unknown escape, and
/// a backslash at the end, stand for themselves.
pub open spec fn decoded(value: Seq<char>) -> Seq<char>
    decreases value.len(),
{
    if value.len() == 0 {
        seq![]
    } else if value[0] != '\\' {
        seq![value[0]] + decoded(value.drop_first())
    } else if value.len() == 1 {
        seq!['\\']
    } else {
        match unescaped(value[1]) {
            Some(c) => seq![c] + decoded(value.skip(2)),
            None => seq!['\\', value[1]] + decoded(value.skip(2)),
        }
    }
}

/// `value` without its quotes.
pub open spec fn unquoted(value: Seq<char>) -> Seq<char> {
    let inner = text::trimmed(value);
    if inner.len() >= 2 && inner[0] == '"' && inner.last() == '"' {
        decoded(inner.subrange(1, inner.len() - 1))
    } else if inner.len() >= 2 && inner[0] == '\'' && inner.last() == '\'' {
        text::replaced(inner.subrange(1, inner.len() - 1), seq!['\'', '\''], seq!['\''])
    } else {
        inner
    }
}

/// The items of a list: what stands between commas outside quotes. `current` is
/// what has been read of the item at hand, `quote` the quote it is in, `escaped`
/// whether a backslash stands just before.
pub open spec fn list_parts(
    value: Seq<char>,
    current: Seq<char>,
    quote: Option<char>,
    escaped: bool,
) -> Seq<Seq<char>>
    decreases value.len(),
{
    if value.len() == 0 {
        seq![text::trimmed(current)]
    } else {
        let c = value[0];
        let rest = value.drop_first();
        if escaped {
            list_parts(rest, current.push(c), quote, false)
        } else if quote == Some('"') && c == '\\' {
            list_parts(rest, current.push(c), quote, true)
        } else if quote is Some {
            list_parts(
                rest,
                current.push(c),
                if quote == Some(c) {
                    None
                } else {
                    quote
                },
                false,
            )
        } else if c == '"' || c == '\'' {
            list_parts(rest, current.push(c), Some(c), false)
        } else if c == ',' {
            seq![text::trimmed(current)] + list_parts(rest, seq![], None, false)
        } else {
            list_parts(rest, current.push(c), None, false)
        }
    }
}

/// The parts without their quotes, the empty ones left out.
pub open spec fn list_items(parts: Seq<Seq<char>>) -> Seq<Seq<char>>
    decreases parts.len(),
{
    if parts.len() == 0 {
        seq![]
    } else {
        let before = list_items(parts.drop_last());
        let item = unquoted(parts.last());
        if item.len() == 0 {
            before
        } else {
            before.push(item)
        }
    }
}

/// The field that a trimmed value stands for.
pub open spec fn field_of(value: Seq<char>) -> Field {
    if in_quotes(value) {
        Field::Scalar(unquoted(value))
    } else if value == "null"@ {
        Field::Null
    } else if in_brackets(value) {
        Field::List(
            list_items(list_parts(value.subrange(1, value.len() - 1), seq![], None, false)),
        )
    } else {
        Field::Scalar(unquoted(value))
    }
}

/// The fields that the lines give, on top of those already known; `number` is
/// the number of the first line.
pub open spec fn fields_of(
    lines: Seq<Seq<char>>,
    number: nat,
    known: Map<Seq<char>, Field>,
) -> Result<Map<Seq<char>, Field>, Seq<char>>
    decreases lines.len(),
{
    if lines.len() == 0 {
        Ok(known)
    } else {
        let line = text::trimmed(lines[0]);
        if line.len() == 0 {
            fields_of(lines.drop_first(), number + 1, known)
        } else {
            match text::split_once_at(line, ':') {
                None => Err(
                    "invalid frontmatter line "@ + crate::numeral::decimal(number) + ": "@ + line,
                ),
                Some((before, after)) => {
                    let key = text::trimmed(before);
                    if key.len() == 0 {
                        Err("empty frontmatter key on line "@ + crate::numeral::decimal(number))
                    } else if known.contains_key(key) {
                        Err(
                            "duplicate frontmatter key "@ + text::quoted_form(key) + " on line "@
                                + crate::numeral::decimal(number),
                        )
                    } else {
                        fields_of(
                            lines.drop_first(),
                            number + 1,
                            known.insert(key, field_of(text::trimmed(after))),
                        )
                    }
                },
            }
        }
    }
}

/// What a front matter text says.
pub open spec fn frontmatter_of(raw: Seq<char>) -> Result<Map<Seq<char>, Field>, Seq<char>> {
    fields_of(text::line_seq(raw), 1, Map::empty())
}

/// How many lines stand before the first `---`.
pub open spec fn delimiter_index(lines: Seq<Seq<char>>) -> int
    decreases lines.len(),
{
    if lines.len() == 0 || lines[0] == "---"@ {
        0
    } else {
        1 + delimiter_index(lines.drop_first())
    }
}

/// The fields and the body of a document.
pub open spec fn document_of(raw: Seq<char>) -> Result<
    (Map<Seq<char>, Field>, Seq<char>),
    Seq<char>,
> {
    let lines = text::line_seq(raw);
    if lines.len() == 0 || lines[0] != "---"@ {
        Err("missing opening frontmatter delimiter"@)
    } else {
        let rest = lines.drop_first();
        let close = delimiter_index(rest);
        if close == rest.len() {
            Err("missing closing frontmatter delimiter"@)
        } else {
            match frontmatter_of(text::joined(rest.take(close), "\n"@)) {
                Ok(fields) => Ok(
                    (fields, text::trimmed(text::joined(rest.skip(close + 1), "\n"@))),
                ),
                Err(message) => Err(message),
            }
        }
    }
}

fn is_quoted(value: &str) -> (quoted: bool)
    ensures
        quoted == in_quotes(value@),
{
    let chars = text::chars_of(value);
    chars.len() >= 2 && ((chars[0] == '"' && chars[chars.len() - 1] == '"') || (chars[0] == '\''
        && chars[chars.len() - 1] == '\''))
}

fn decode_double_quoted(value: &str) -> (result: String)
    ensures
        result@ == decoded(value@),
{
    let chars = text::chars_of(value);
    let mut result = String::new();
    let mut i: usize = 0;
    assert(value@.skip(0) =~= value@);
    assert(result@ + decoded(value@) =~= decoded(value@));
    while i < chars.len()
        invariant
            i <= chars.len(),
            chars@ == value@,
            result@ + decoded(value@.skip(i as int)) == decoded(value@),
        decreases chars.len() - i,
    {
        let ghost rest = value@.skip(i as int);
        let ghost before = result@;
        assert(rest.drop_first() =~= value@.skip(i + 1));
        if chars[i] != '\\' {
            result.push(chars[i]);
            assert(before + (seq![rest[0]] + decoded(rest.drop_first())) =~= result@ + decoded(
                rest.drop_first(),
            ));
            i = i + 1;
        } else if i + 1 == chars.len() {
            result.push('\\');
            assert(before + seq!['\\'] =~= result@);
            i = i + 1;
            assert(result@ + decoded(value@.skip(i as int)) =~= result@);
        } else {
            let next = chars[i + 1];
            if next == '"' || next == '\\' {
                result.push(next);
            } else if next == 'n' {
                result.push('\n');
            } else if next == 'r' {
                result.push('\r');
            } else if next == 't' {
                result.push('\t');
            } else {
                result.push('\\');
                result.push(next);
            }
            assert(rest.skip(2) =~= value@.skip(i + 2));
            assert(rest[1] == next);
            let ghost step = match unescaped(next) {
                Some(c) => seq![c],
                None => seq!['\\', next],
            };
            assert(result@ =~= before + step);
            assert(before + (step + decoded(rest.skip(2))) =~= result@ + decoded(rest.skip(2)));
            i = i + 2;
        }
    }
    assert(result@ + decoded(value@.skip(i as int)) =~= result@);
    result
}

fn unquote(value: &str) -> (result: String)
    ensures
        result@ == unquoted(value@),
{
    let inner = text::trim(value);
    let chars = text::chars_of(inner);
    if chars.len() >= 2 && chars[0] == '"' && chars[chars.len() - 1] == '"' {
        decode_double_quoted(inner.substring_char(1, chars.len() - 1))
    } else if chars.len() >= 2 && chars[0] == '\'' && chars[chars.len() - 1] == '\'' {
        proof {
            reveal_strlit("''");
            reveal_strlit("'");
            assert("''"@ =~= seq!['\'', '\'']);
            assert("'"@ =~= seq!['\'']);
        }
        text::replace(inner.substring_char(1, chars.len() - 1), "''", "'")
    } else {
        inner.to_owned()
    }
}

fn split_list(value: &str) -> (parts: Vec<String>)
    ensures
        parts.deep_view() == list_parts(value@, seq![], None, false),
{
    let chars = text::chars_of(value);
    let mut parts: Vec<String> = Vec::new();
    let mut current = String::new();
    let mut quote: Option<char> = None;
    let mut escaped = false;
    let mut i: usize = 0;
    let ghost whole = list_parts(value@, seq![], None, false);
    assert(value@.skip(0) =~= value@);
    assert(current@ =~= seq![]);
    assert(parts.deep_view() + whole =~= whole);
    while i < chars.len()
        invariant
            i <= chars.len(),
            chars@ == value@,
            parts.deep_view() + list_parts(value@.skip(i as int), current@, quote, escaped)
                == whole,
        decreases chars.len() - i,
    {
        let c = chars[i];
        let ghost rest = value@.skip(i as int);
        assert(rest.drop_first() =~= value@.skip(i + 1));
        i = i + 1;
        if escaped {
            current.push(c);
            escaped = false;
        } else if quote == Some('"') && c == '\\' {
            current.push(c);
            escaped = true;
        } else if let Some(active) = quote {
            current.push(c);
            if c == active {
                quote = None;
            }
        } else if c == '"' || c == '\'' {
            quote = Some(c);
            current.push(c);
        } else if c == ',' {
            let ghost before = parts.deep_view();
            let ghost item = text::trimmed(current@);
            parts.push(text::trim(current.as_str()).to_owned());
            current = String::new();
            proof {
                assert(parts.deep_view() =~= before.push(item));
                let tail = list_parts(rest.drop_first(), seq![], None, false);
                assert(before + (seq![item] + tail) =~= parts.deep_view() + tail);
                assert(current@ =~= seq![]);
            }
        } else {
            current.push(c);
        }
    }
    let ghost before = parts.deep_view();
    parts.push(text::trim(current.as_str()).to_owned());
    assert(parts.deep_view() =~= before + seq![text::trimmed(current@)]);
    parts
}

fn list_values(parts: &Vec<String>) -> (items: Vec<String>)
    ensures
        items.deep_view() == list_items(parts.deep_view()),
{
    let mut items: Vec<String> = Vec::new();
    let ghost all = parts.deep_view();
    let mut i: usize = 0;
    assert(all.take(0) =~= seq![]);
    assert(items.deep_view() =~= seq![]);
    while i < parts.len()
        invariant
            i <= parts.len(),
            all == parts.deep_view(),
            items.deep_view() == list_items(all.take(i as int)),
        decreases parts.len() - i,
    {
        let item = unquote(parts[i].as_str());
        assert(all.take(i + 1).drop_last() =~= all.take(i as int));
        assert(all.take(i + 1).last() == parts[i as int]@);
        if !item.as_str().is_empty() {
            let ghost before = items.deep_view();
            let ghost value = item@;
            items.push(item);
            assert(items.deep_view() =~= before.push(value));
        }
        i = i + 1;
    }
    assert(all.take(i as int) =~= all);
    items
}

fn parse_value(value: &str) -> (field: FieldValue)
    ensures
        field@ == field_of(value@),
{
    if is_quoted(value) {
        FieldValue::Scalar(unquote(value))
    } else if text::same(value, "null") {
        FieldValue::Null
    } else {
        let chars = text::chars_of(value);
        if chars.len() >= 1 && chars[0] == '[' && chars[chars.len() - 1] == ']' {
            let parts = split_list(value.substring_char(1, chars.len() - 1));
            FieldValue::List(list_values(&parts))
        } else {
            FieldValue::Scalar(unquote(value))
        }
    }
}

/// Reads the lines of a front matter block.
pub fn parse_frontmatter(raw: &str) -> (parsed: Result<Frontmatter, Error>)
    ensures
        crate::error::agrees(parsed, frontmatter_of(raw@)),
{
    let lines = text::lines(raw);
    let ghost all = lines.deep_view();
    let mut map = Frontmatter::new();
    let mut i: usize = 0;
    assert(all.skip(0) =~= all);
    while i < lines.len()
        invariant
            i <= lines.len(),
            all == lines.deep_view(),
            fields_of(all.skip(i as int), (i + 1) as nat, map@) == frontmatter_of(raw@),
        decreases lines.len() - i,
    {
        let line = text::trim(lines[i]);
        let ghost rest = all.skip(i as int);
        assert(rest[0] == lines[i as int]@);
        assert(rest.drop_first() =~= all.skip(i + 1));
        i = i + 1;
        if line.is_empty() {
            continue;
        }
        let number = decimal_usize(i);
        match text::split_once(line, ':') {
            None => {
                return Err(
                    Error::new(
                        text::concat4("invalid frontmatter line ", number.as_str(), ": ", line),
                    ),
                );
            },
            Some((before, after)) => {
                let key = text::trim(before);
                if key.is_empty() {
                    return Err(
                        Error::new(text::concat2("empty frontmatter key on line ", number.as_str())),
                    );
                }
                if map.get(key).is_some() {
                    return Err(
                        Error::new(
                            text::concat4(
                                "duplicate frontmatter key ",
                                text::quoted(key).as_str(),
                                " on line ",
                                number.as_str(),
                            ),
                        ),
                    );
                }
                map.insert(key.to_owned(), parse_value(text::trim(after)));
            },
        }
    }
    Ok(map)
}

/// Splits a document into its fields and its body.
pub fn split_document(raw: &str) -> (parsed: Result<(Frontmatter, String), Error>)
    ensures
        match parsed {
            Ok((fields, body)) => document_of(raw@) == Ok::<_, Seq<char>>((fields@, body@)),
            Err(error) => document_of(raw@) == Err::<(Map<Seq<char>, Field>, Seq<char>), _>(
                error@,
            ),
        },
{
    let lines = text::lines(raw);
    let ghost all = lines.deep_view();
    if lines.len() == 0 || !text::same(lines[0], "---") {
        return Err(Error::of("missing opening frontmatter delimiter"));
    }
    let ghost rest = all.drop_first();
    let mut frontmatter_lines: Vec<&str> = Vec::new();
    let mut i: usize = 1;
    assert(rest.skip(0) =~= rest);
    while i < lines.len() && !text::same(lines[i], "---")
        invariant
            1 <= i <= lines.len(),
            all == lines.deep_view(),
            rest == all.drop_first(),
            frontmatter_lines.deep_view() == rest.take(i - 1),
            delimiter_index(rest) == (i - 1) + delimiter_index(rest.skip(i - 1)),
        decreases lines.len() - i,
    {
        let ghost before = frontmatter_lines.deep_view();
        frontmatter_lines.push(lines[i]);
        assert(frontmatter_lines.deep_view() =~= before.push(lines[i as int]@));
        assert(rest.skip(i - 1)[0] == lines[i as int]@);
        assert(rest.skip(i - 1).drop_first() =~= rest.skip(i as int));
        assert(frontmatter_lines.deep_view() =~= rest.take(i as int));
        i = i + 1;
    }
    if i == lines.len() {
        return Err(Error::of("missing closing frontmatter delimiter"));
    }
    assert(rest.skip(i - 1)[0] == lines[i as int]@);
    let ghost close = i - 1;
    let mut body_lines: Vec<&str> = Vec::new();
    i = i + 1;
    while i < lines.len()
        invariant
            0 <= close,
            close + 2 <= i <= lines.len(),
            all == lines.deep_view(),
            rest == all.drop_first(),
            body_lines.deep_view() == rest.subrange(close + 1, i - 1),
        decreases lines.len() - i,
    {
        let ghost before = body_lines.deep_view();
        body_lines.push(lines[i]);
        assert(body_lines.deep_view() =~= before.push(lines[i as int]@));
        assert(body_lines.deep_view() =~= rest.subrange(close + 1, i as int));
        i = i + 1;
    }
    assert(rest.subrange(close + 1, i - 1) =~= rest.skip(close + 1));
    let head = text::join_slices(&frontmatter_lines, "\n");
    match parse_frontmatter(head.as_str()) {
        Ok(fields) => {
            let body = text::join_slices(&body_lines, "\n");
            Ok((fields, text::trim(body.as_str()).to_owned()))
        },
        Err(error) => Err(error),
    }
}

// Writing.

/// How a character is written inside double quotes.
pub open spec fn escape_char(c: char) -> Seq<char> {
    if c == '"' {
        seq!['\\', '"']
    } else if c == '\\' {
        seq!['\\', '\\']
    } else if c == '\n' {
        seq!['\\', 'n']
    } else if c == '\r' {
        seq!['\\', 'r']
    } else if c == '\t' {
        seq!['\\', 't']
    } else {
        seq![c]
    }
}

/// How a text is written inside double quotes.
pub open spec fn escaped_text(value: Seq<char>) -> Seq<char>
    decreases value.len(),
{
    if value.len() == 0 {
        seq![]
    } else {
        escaped_text(value.drop_last()) + escape_char(value.last())
    }
}

/// A character that a scalar can hold only in quotes.
pub open spec fn is_special(c: char) -> bool {
    c == '"' || c == '\\' || c == ',' || c == '\n' || c == '\r' || c == '\t'
}

/// Whether a scalar has to stand in quotes to be read back.
pub open spec fn needs_quotes(value: Seq<char>) -> bool {
    ||| value.len() == 0
    ||| value == "null"@
    ||| text::trimmed(value) != value
    ||| in_brackets(value)
    ||| exists|i: int| 0 <= i < value.len() && is_special(#[trigger] value[i])
    ||| value[0] == '\'' && value.last() == '\''
}

/// How a scalar is written.
pub open spec fn scalar_text(value: Seq<char>) -> Seq<char> {
    if needs_quotes(value) {
        seq!['"'] + escaped_text(value) + seq!['"']
    } else {
        value
    }
}

/// How a value is written.
pub open spec fn value_text(value: Field) -> Seq<char> {
    match value {
        Field::Null => "null"@,
        Field::Scalar(value) => scalar_text(value),
        Field::List(values) => seq!['['] + text::joined(scalar_texts(values), seq![',', ' '])
            + seq![']'],
    }
}

pub open spec fn scalar_texts(values: Seq<Seq<char>>) -> Seq<Seq<char>> {
    values.map_values(|value: Seq<char>| scalar_text(value))
}

/// A field and its value.
pub type Entry = (Seq<char>, Field);

/// The line of a field.
pub open spec fn field_line(entry: Entry) -> Seq<char> {
    entry.0 + ": "@ + value_text(entry.1)
}

/// The lines of the fields, each with a line feed.
pub open spec fn field_lines(entries: Seq<Entry>) -> Seq<char>
    decreases entries.len(),
{
    if entries.len() == 0 {
        seq![]
    } else {
        field_lines(entries.drop_last()) + field_line(entries.last()) + "\n"@
    }
}

/// The front matter block of the fields.
pub open spec fn block_text(entries: Seq<Entry>) -> Seq<char> {
    "---\n"@ + field_lines(entries) + "---\n"@
}

/// The entries behind a slice of fields.
pub open spec fn entry_seq(fields: Seq<(&str, FieldValue)>) -> Seq<Entry> {
    fields.map_values(|field: (&str, FieldValue)| (field.0@, field.1@))
}

fn render_scalar(value: &str) -> (rendered: String)
    ensures
        rendered@ == scalar_text(value@),
{
    let chars = text::chars_of(value);
    let mut special = false;
    let mut i: usize = 0;
    while i < chars.len()
        invariant
            i <= chars.len(),
            chars@ == value@,
            special == (exists|k: int| 0 <= k < i && is_special(#[trigger] value@[k])),
        decreases chars.len() - i,
    {
        let c = chars[i];
        if c == '"' || c == '\\' || c == ',' || c == '\n' || c == '\r' || c == '\t' {
            assert(is_special(value@[i as int]));
            special = true;
        }
        i = i + 1;
    }
    if !(value.is_empty() || text::same(value, "null") || !text::same(text::trim(value), value) || (
    chars[0] == '[' && chars[chars.len() - 1] == ']') || special || (chars[0] == '\''
        && chars[chars.len() - 1] == '\'')) {
        return value.to_owned();
    }
    let mut rendered = String::new();
    rendered.push('"');
    i = 0;
    assert(value@.take(0) =~= seq![]);
    assert(rendered@ =~= seq!['"'] + escaped_text(value@.take(0)));
    while i < chars.len()
        invariant
            i <= chars.len(),
            chars@ == value@,
            rendered@ == seq!['"'] + escaped_text(value@.take(i as int)),
        decreases chars.len() - i,
    {
        let c = chars[i];
        let ghost before = rendered@;
        if c == '"' {
            rendered.push('\\');
            rendered.push('"');
        } else if c == '\\' {
            rendered.push('\\');
            rendered.push('\\');
        } else if c == '\n' {
            rendered.push('\\');
            rendered.push('n');
        } else if c == '\r' {
            rendered.push('\\');
            rendered.push('r');
        } else if c == '\t' {
            rendered.push('\\');
            rendered.push('t');
        } else {
            rendered.push(c);
        }
        assert(rendered@ =~= before + escape_char(c));
        assert(value@.take(i + 1).drop_last() =~= value@.take(i as int));
        assert(rendered@ =~= seq!['"'] + escaped_text(value@.take(i + 1)));
        i = i + 1;
    }
    assert(value@.take(i as int) =~= value@);
    rendered.push('"');
    assert(rendered@ =~= seq!['"'] + escaped_text(value@) + seq!['"']);
    rendered
}

fn render_value(value: &FieldValue) -> (rendered: String)
    ensures
        rendered@ == value_text(value@),
{
    match value {
        FieldValue::Null => "null".to_owned(),
        FieldValue::Scalar(value) => render_scalar(value.as_str()),
        FieldValue::List(values) => {
            let mut scalars: Vec<String> = Vec::new();
            let mut i: usize = 0;
            let ghost all = scalar_texts(values.deep_view());
            while i < values.len()
                invariant
                    i <= values.len(),
                    all == scalar_texts(values.deep_view()),
                    scalars.deep_view() == all.take(i as int),
                decreases values.len() - i,
            {
                let ghost before = scalars.deep_view();
                scalars.push(render_scalar(values[i].as_str()));
                assert(scalars.deep_view() =~= before.push(scalar_text(values[i as int]@)));
                assert(all.take(i + 1) =~= all.take(i as int).push(all[i as int]));
                i = i + 1;
            }
            assert(all.take(i as int) =~= all);
            let mut rendered = String::new();
            rendered.push('[');
            proof {
                reveal_strlit(", ");
                assert(", "@ =~= seq![',', ' ']);
            }
            rendered.append(text::join(&scalars, ", ").as_str());
            rendered.push(']');
            assert(rendered@ =~= value_text(value@));
            rendered
        },
    }
}

/// Writes the front matter block of the fields.
pub fn render_frontmatter(fields: &[(&str, FieldValue)]) -> (output: String)
    ensures
        output@ == block_text(entry_seq(fields@)),
{
    let mut output = String::new();
    output.append("---\n");
    let mut i: usize = 0;
    let ghost all = entry_seq(fields@);
    assert(all.take(0) =~= seq![]);
    assert(output@ =~= "---\n"@ + field_lines(all.take(0)));
    while i < fields.len()
        invariant
            i <= fields.len(),
            all == entry_seq(fields@),
            output@ == "---\n"@ + field_lines(all.take(i as int)),
        decreases fields.len() - i,
    {
        output.append(fields[i].0);
        output.append(": ");
        output.append(render_value(&fields[i].1).as_str());
        output.append("\n");
        assert(all.take(i + 1).drop_last() =~= all.take(i as int));
        assert(all.take(i + 1).last() == all[i as int]);
        assert(output@ =~= "---\n"@ + field_lines(all.take(i + 1)));
        i = i + 1;
    }
    assert(all.take(i as int) =~= all);
    output.append("---\n");
    output
}

// Access.

/// The scalar under `key`, if there is one.
pub open spec fn scalar_field(fields: Map<Seq<char>, Field>, key: Seq<char>) -> Result<
    Option<Seq<char>>,
    Seq<char>,
> {
    if !fields.contains_key(key) {
        Ok(None)
    } else {
        match fields[key] {
            Field::Null => Ok(None),
            Field::Scalar(value) => Ok(Some(value)),
            Field::List(_) => Err(
                "frontmatter field "@ + text::quoted_form(key) + " must be a scalar"@,
            ),
        }
    }
}

/// The list under `key`; a scalar is a list of one item.
pub open spec fn list_field(fields: Map<Seq<char>, Field>, key: Seq<char>) -> Seq<Seq<char>> {
    if !fields.contains_key(key) {
        seq![]
    } else {
        match fields[key] {
            Field::Null => seq![],
            Field::Scalar(value) => seq![value],
            Field::List(values) => values,
        }
    }
}

pub fn get_optional_scalar(map: &Frontmatter, key: &str) -> (value: Result<Option<String>, Error>)
    ensures
        match value {
            Ok(value) => scalar_field(map@, key@) == Ok::<_, Seq<char>>(value.deep_view()),
            Err(error) => scalar_field(map@, key@) == Err::<Option<Seq<char>>, _>(error@),
        },
{
    match map.get(key) {
        None => Ok(None),
        Some(FieldValue::Null) => Ok(None),
        Some(FieldValue::Scalar(value)) => Ok(Some(value.clone())),
        Some(FieldValue::List(_)) => Err(
            Error::new(
                text::concat3("frontmatter field ", text::quoted(key).as_str(), " must be a scalar"),
            ),
        ),
    }
}

pub fn get_list(map: &Frontmatter, key: &str) -> (values: Vec<String>)
    ensures
        values.deep_view() == list_field(map@, key@),
{
    match map.get(key) {
        Some(FieldValue::List(values)) => text::clone_texts(values),
        Some(FieldValue::Scalar(value)) => {
            let mut values: Vec<String> = Vec::new();
            values.push(value.clone());
            assert(values.deep_view() =~= seq![value@]);
            values
        },
        Some(FieldValue::Null) => {
            let values: Vec<String> = Vec::new();
            assert(values.deep_view() =~= seq![]);
            values
        },
        None => {
            let values: Vec<String> = Vec::new();
            assert(values.deep_view() =~= seq![]);
            values
        },
    }
}

} // verus!
