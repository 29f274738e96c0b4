//! How facts are stated: which lines of a memory state one, and what they say.

use vstd::prelude::*;

use crate::directive::{
    directive_of, object_is_entity, option_keys, option_named, option_of, options_of, segments_of,
    unknown_keys, DirectiveView, OptionEntry, Reading,
};
use crate::memory::MetadataView;
use crate::order::{self, Ranked};
use crate::order_laws::filtering_keeps_what_is_wanted;
use crate::semantic::{
    entity_key, excerpt_lines, excerpt_of, fact_lines, first_chars, first_lines, normal_name,
    read_fact, read_facts, run_length, scan_line, scan_state, slug_chars, slug_of, ReadFact,
    ScanState,
};
use crate::text::{
    ascii_lower, index_of, joined, line_seq, occurs, pieces, stripped, trimmed, trimmed_start,
};

verus! {

// Directives.

/// Whether an option is written in a segment: a key, with underscores and in lower
/// case, and behind the first equals sign a value, without quotes around it.
pub open spec fn writes(segment: Seq<char>, key: Seq<char>, value: Seq<char>) -> bool {
    let n = index_of(segment, '=');
    &&& n < segment.len()
    &&& key.len() > 0
    &&& value.len() > 0
    &&& key == trimmed(segment.take(n)).map_values(
        |c: char|
            if c == '-' {
                '_'
            } else if 'A' <= c <= 'Z' {
                (c as u8 + 32) as char
            } else {
                c
            },
    )
    &&& value == stripped(stripped(trimmed(segment.skip(n + 1)), '"'), '\'')
}

proof fn lemma_writes(segment: Seq<char>)
    ensures
        forall|key: Seq<char>, value: Seq<char>| #[trigger]
            writes(segment, key, value) <==> option_of(segment) == Ok::<_, Seq<char>>((key, value)),
{
    assert forall|key: Seq<char>, value: Seq<char>| #[trigger]
        writes(segment, key, value) <==> option_of(segment) == Ok::<_, Seq<char>>((key, value)) by {
        let n = index_of(segment, '=');
        let before = segment.take(n);
        assert(crate::directive::option_key(before) =~= trimmed(before).map_values(
            |c: char|
                if c == '-' {
                    '_'
                } else if 'A' <= c <= 'Z' {
                    (c as u8 + 32) as char
                } else {
                    c
                },
        ));
    }
}

proof fn lemma_options(parts: Seq<Seq<char>>)
    ensures
        options_of(parts) is Ok <==> {
            &&& forall|i: int| 0 <= i < parts.len() ==> option_of(#[trigger] parts[i]) is Ok
            &&& forall|i: int, j: int|
                0 <= i < j < parts.len() ==> option_of(#[trigger] parts[i])->Ok_0.0 != option_of(
                    #[trigger] parts[j],
                )->Ok_0.0
        },
        options_of(parts) matches Ok(options) ==> options.len() == parts.len() && forall|i: int|
            0 <= i < parts.len() ==> options[i] == option_of(#[trigger] parts[i])->Ok_0,
    decreases parts.len(),
{
    if parts.len() > 0 {
        let rest = parts.drop_last();
        lemma_options(rest);
        let last = parts.len() - 1;
        assert(parts[last] == parts.last());
        assert forall|i: int| 0 <= i < rest.len() implies rest[i] == #[trigger] parts[i] by {}
        if options_of(rest) is Ok {
            let options = options_of(rest)->Ok_0;
            if option_of(parts.last()) is Ok {
                lemma_named(options, option_of(parts.last())->Ok_0.0);
            }
            if options_of(parts) is Ok {
                assert forall|i: int| 0 <= i < parts.len() implies option_of(
                    #[trigger] parts[i],
                ) is Ok by {
                    if i < last {
                        assert(option_of(rest[i]) is Ok);
                    }
                }
                assert forall|i: int, j: int| 0 <= i < j < parts.len() implies option_of(
                    #[trigger] parts[i],
                )->Ok_0.0 != option_of(#[trigger] parts[j])->Ok_0.0 by {
                    if j < last {
                        assert(rest[i] == parts[i] && rest[j] == parts[j]);
                    } else {
                        assert(rest[i] == parts[i]);
                        assert(options[i].0 == option_of(rest[i])->Ok_0.0);
                    }
                }
                assert forall|i: int| 0 <= i < parts.len() implies options_of(parts)->Ok_0[i]
                    == option_of(#[trigger] parts[i])->Ok_0 by {
                    if i < last {
                        assert(rest[i] == parts[i]);
                    }
                }
            } else if option_of(parts.last()) is Ok {
                let key = option_of(parts.last())->Ok_0.0;
                let i = choose|i: int| 0 <= i < options.len() && (#[trigger] options[i]).0 == key;
                assert(rest[i] == parts[i]);
                assert(option_of(parts[i])->Ok_0.0 == option_of(parts[last])->Ok_0.0);
            } else {
                assert(option_of(parts[last]) is Err);
            }
        } else {
            if forall|i: int| 0 <= i < parts.len() ==> option_of(#[trigger] parts[i]) is Ok {
                assert forall|i: int| 0 <= i < rest.len() implies option_of(
                    #[trigger] rest[i],
                ) is Ok by {
                    assert(rest[i] == parts[i]);
                }
                let (i, j) = choose|i: int, j: int|
                    0 <= i < j < rest.len() && option_of(#[trigger] rest[i])->Ok_0.0 == option_of(
                        #[trigger] rest[j],
                    )->Ok_0.0;
                assert(rest[i] == parts[i] && rest[j] == parts[j]);
            }
        }
    }
}

proof fn lemma_named(options: Seq<OptionEntry>, key: Seq<char>)
    ensures
        option_named(options, key) is Some <==> exists|i: int|
            0 <= i < options.len() && (#[trigger] options[i]).0 == key,
        option_named(options, key) matches Some(value) ==> exists|i: int|
            0 <= i < options.len() && #[trigger] options[i] == (key, value),
    decreases options.len(),
{
    if options.len() > 0 {
        let rest = options.drop_last();
        lemma_named(rest, key);
        assert(options[options.len() - 1] == options.last());
        if options.last().0 != key {
            if exists|i: int| 0 <= i < options.len() && (#[trigger] options[i]).0 == key {
                let i = choose|i: int| 0 <= i < options.len() && (#[trigger] options[i]).0 == key;
                assert(rest[i] == options[i]);
            }
            if let Some(value) = option_named(rest, key) {
                let i = choose|i: int| 0 <= i < rest.len() && #[trigger] rest[i] == (key, value);
                assert(options[i] == rest[i]);
            }
        } else {
            assert(options[options.len() - 1] == (key, options.last().1));
        }
    }
}

/// Whether an option is given in one of the segments behind the third.
pub open spec fn gives(raw: Seq<char>, key: Seq<char>, value: Seq<char>) -> bool {
    exists|i: int|
        3 <= i < pieces(raw, '|').len() && writes(
            trimmed(#[trigger] pieces(raw, '|')[i]),
            key,
            value,
        )
}

/// Whether a field is what the option of that name gives, and missing where it is
/// not given.
pub open spec fn is_given(raw: Seq<char>, key: Seq<char>, field: Option<Seq<char>>) -> bool {
    match field {
        Some(value) => gives(raw, key, value),
        None => forall|value: Seq<char>| !(#[trigger] gives(raw, key, value)),
    }
}

proof fn lemma_given(raw: Seq<char>, options: Seq<OptionEntry>, key: Seq<char>)
    requires
        segments_of(raw).len() >= 3,
        options_of(segments_of(raw).skip(3)) == Ok::<_, Seq<char>>(options),
    ensures
        is_given(raw, key, option_named(options, key)),
{
    let parts = segments_of(raw).skip(3);
    lemma_options(parts);
    lemma_named(options, key);
    match option_named(options, key) {
        Some(value) => {
            let i = choose|i: int| 0 <= i < options.len() && #[trigger] options[i] == (key, value);
            assert(option_of(parts[i]) == Ok::<_, Seq<char>>((key, value)));
            lemma_writes(parts[i]);
            assert(parts[i] == trimmed(pieces(raw, '|')[i + 3]));
            assert(writes(parts[i], key, value));
        },
        None => {
            assert forall|value: Seq<char>| !(#[trigger] gives(raw, key, value)) by {
                if gives(raw, key, value) {
                    let i = choose|i: int|
                        3 <= i < pieces(raw, '|').len() && writes(
                            trimmed(#[trigger] pieces(raw, '|')[i]),
                            key,
                            value,
                        );
                    assert(parts[i - 3] == trimmed(pieces(raw, '|')[i]));
                    lemma_writes(parts[i - 3]);
                    assert(options[i - 3] == option_of(parts[i - 3])->Ok_0);
                }
            }
        },
    }
}

/// A directive that is read names a subject, a relation and an object between
/// bars, none of them blank; every option of it is given where it is written, and
/// an object is an entity unless it is said to be a value.
pub proof fn directives_say_what_is_written(raw: Seq<char>, table: Map<Seq<char>, Reading>)
    requires
        directive_of(raw, table) is Ok,
    ensures
        ({
            let said = directive_of(raw, table)->Ok_0;
            let parts = pieces(raw, '|');
            &&& parts.len() >= 3
            &&& said.subject == trimmed(parts[0]) && said.subject.len() > 0
            &&& said.relation == trimmed(parts[1]) && said.relation.len() > 0
            &&& said.object == trimmed(parts[2]) && said.object.len() > 0
            &&& is_given(raw, "valid_from"@, said.valid_from)
            &&& is_given(raw, "valid_to"@, said.valid_to)
            &&& is_given(raw, "learned_at"@, said.learned_at)
            &&& is_given(raw, "expired_at"@, said.expired_at)
            &&& said.object_is_entity <==> forall|value: Seq<char>|
                !((#[trigger] gives(raw, "object_kind"@, value)) && ascii_lower(value) == "value"@)
            &&& match said.confidence {
                Some(number) => exists|value: Seq<char>| #[trigger]
                    gives(raw, "confidence"@, value) && table.contains_key(value) && table[value]
                        == Reading::InRange(number),
                None => is_given(raw, "confidence"@, None),
            }
        }),
{
    let parts = segments_of(raw);
    let options = options_of(parts.skip(3))->Ok_0;
    lemma_given(raw, options, "valid_from"@);
    lemma_given(raw, options, "valid_to"@);
    lemma_given(raw, options, "learned_at"@);
    lemma_given(raw, options, "expired_at"@);
    lemma_given(raw, options, "object_kind"@);
    lemma_given(raw, options, "confidence"@);
    reveal_strlit("entity");
    reveal_strlit("value");
    assert("entity"@.len() == 6);
    assert("value"@.len() == 5);
    lemma_one_value(raw, options, "object_kind"@);
}

proof fn lemma_one_value(raw: Seq<char>, options: Seq<OptionEntry>, key: Seq<char>)
    requires
        segments_of(raw).len() >= 3,
        options_of(segments_of(raw).skip(3)) == Ok::<_, Seq<char>>(options),
    ensures
        forall|value: Seq<char>| #[trigger]
            gives(raw, key, value) ==> option_named(options, key) == Some(value),
{
    let parts = segments_of(raw).skip(3);
    lemma_options(parts);
    lemma_named(options, key);
    assert forall|value: Seq<char>| #[trigger] gives(raw, key, value) implies option_named(
        options,
        key,
    ) == Some(value) by {
        let i = choose|i: int|
            3 <= i < pieces(raw, '|').len() && writes(
                trimmed(#[trigger] pieces(raw, '|')[i]),
                key,
                value,
            );
        assert(parts[i - 3] == trimmed(pieces(raw, '|')[i]));
        lemma_writes(parts[i - 3]);
        assert(options[i - 3] == (key, value));
        let said = option_named(options, key)->Some_0;
        let j = choose|j: int| 0 <= j < options.len() && #[trigger] options[j] == (key, said);
        if i - 3 < j {
            assert(option_of(parts[i - 3])->Ok_0.0 != option_of(parts[j])->Ok_0.0);
        } else if j < i - 3 {
            assert(option_of(parts[j])->Ok_0.0 != option_of(parts[i - 3])->Ok_0.0);
        }
    }
}

/// Whether a key is that of an option.
pub open spec fn is_option(key: Seq<char>) -> bool {
    seq![
        "object_kind"@,
        "confidence"@,
        "valid_from"@,
        "valid_to"@,
        "learned_at"@,
        "expired_at"@,
    ].contains(key)
}

proof fn lemma_is_option(key: Seq<char>)
    ensures
        is_option(key) == crate::directive::is_known_option(key),
{
    let keys = seq![
        "object_kind"@,
        "confidence"@,
        "valid_from"@,
        "valid_to"@,
        "learned_at"@,
        "expired_at"@,
    ];
    assert(keys[0] == "object_kind"@ && keys[1] == "confidence"@ && keys[2] == "valid_from"@
        && keys[3] == "valid_to"@ && keys[4] == "learned_at"@ && keys[5] == "expired_at"@);
}

/// Whether a segment writes no option.
pub open spec fn is_no_option(segment: Seq<char>) -> bool {
    forall|key: Seq<char>, value: Seq<char>|
        is_option(key) ==> !(#[trigger] writes(segment, key, value))
}

/// A directive is refused that leaves out its subject, its relation or its object,
/// holds a segment that is no option, or one that means nothing, or gives an option
/// twice.
pub proof fn broken_directives_are_refused(raw: Seq<char>, table: Map<Seq<char>, Reading>)
    requires
        ({
            let parts = pieces(raw, '|');
            ||| parts.len() < 3
            ||| trimmed(parts[0]).len() == 0
            ||| trimmed(parts[1]).len() == 0
            ||| trimmed(parts[2]).len() == 0
            ||| exists|i: int| 3 <= i < parts.len() && is_no_option(trimmed(#[trigger] parts[i]))
            ||| exists|i: int, j: int, key: Seq<char>, left: Seq<char>, right: Seq<char>|
                3 <= i < j < parts.len() && #[trigger] writes(trimmed(parts[i]), key, left)
                    && #[trigger] writes(trimmed(parts[j]), key, right)
        }),
    ensures
        directive_of(raw, table) is Err,
{
    let parts = pieces(raw, '|');
    let segments = segments_of(raw);
    if directive_of(raw, table) is Ok {
        let tail = segments.skip(3);
        let options = options_of(tail)->Ok_0;
        lemma_options(tail);
        if exists|i: int| 3 <= i < parts.len() && is_no_option(trimmed(#[trigger] parts[i])) {
            let i = choose|i: int|
                3 <= i < parts.len() && is_no_option(trimmed(#[trigger] parts[i]));
            assert(tail[i - 3] == trimmed(parts[i]));
            let entry = option_of(tail[i - 3])->Ok_0;
            lemma_writes(tail[i - 3]);
            assert(writes(trimmed(parts[i]), entry.0, entry.1));
            lemma_is_option(entry.0);
            let unknown = |key: Seq<char>| !crate::directive::is_known_option(key);
            let keys = option_keys(options);
            assert(keys[i - 3] == entry.0);
            filtering_keeps_what_is_wanted(keys, unknown);
            assert(keys.contains(entry.0));
            assert(keys.filter(unknown).contains(entry.0));
            order::lemma_sorted_members(
                keys.filter(unknown),
                |left: Seq<char>, right: Seq<char>| String::ranks_before(left, right),
            );
            assert(unknown_keys(options).contains(entry.0));
        } else {
            let (i, j, key, left, right) = choose|
                i: int,
                j: int,
                key: Seq<char>,
                left: Seq<char>,
                right: Seq<char>,
            |
                3 <= i < j < parts.len() && #[trigger] writes(trimmed(parts[i]), key, left)
                    && #[trigger] writes(trimmed(parts[j]), key, right);
            assert(tail[i - 3] == trimmed(parts[i]));
            assert(tail[j - 3] == trimmed(parts[j]));
            lemma_writes(tail[i - 3]);
            lemma_writes(tail[j - 3]);
            assert(option_of(tail[i - 3])->Ok_0.0 == option_of(tail[j - 3])->Ok_0.0);
        }
    }
}

/// A directive of three parts that are not blank, and nothing else, is read.
pub proof fn plain_directives_are_read(raw: Seq<char>, table: Map<Seq<char>, Reading>)
    requires
        pieces(raw, '|').len() == 3,
        trimmed(pieces(raw, '|')[0]).len() > 0,
        trimmed(pieces(raw, '|')[1]).len() > 0,
        trimmed(pieces(raw, '|')[2]).len() > 0,
    ensures
        directive_of(raw, table) == Ok::<_, Seq<char>>(
            DirectiveView {
                subject: trimmed(pieces(raw, '|')[0]),
                relation: trimmed(pieces(raw, '|')[1]),
                object: trimmed(pieces(raw, '|')[2]),
                valid_from: None,
                valid_to: None,
                learned_at: None,
                expired_at: None,
                confidence: None,
                object_is_entity: true,
            },
        ),
{
    let tail = segments_of(raw).skip(3);
    assert(tail =~= seq![]);
    let options = options_of(tail)->Ok_0;
    assert(options =~= seq![]);
    assert(option_keys(options) =~= seq![]);
    let unknown = |key: Seq<char>| !crate::directive::is_known_option(key);
    reveal(Seq::filter);
    order::lemma_sorted_members(
        option_keys(options).filter(unknown),
        |left: Seq<char>, right: Seq<char>| String::ranks_before(left, right),
    );
}

// The lines that count.

/// That many times the same character.
pub open spec fn run(c: char, count: nat) -> Seq<char> {
    Seq::new(count, |i: int| c)
}

proof fn lemma_run(c: char, count: nat, tail: Seq<char>)
    requires
        tail.len() > 0 ==> tail[0] != c,
    ensures
        run_length(run(c, count) + tail, c) == count,
        (run(c, count) + tail).skip(count as int) == tail,
    decreases count,
{
    let all = run(c, count) + tail;
    assert(all.skip(count as int) =~= tail);
    if count > 0 {
        assert(all.drop_first() =~= run(c, (count - 1) as nat) + tail);
        lemma_run(c, (count - 1) as nat, tail);
    } else {
        assert(all =~= tail);
    }
}

/// Outside a code block and a comment, three or more backticks or tildes in a row,
/// behind three spaces at most, open a code block. It is closed by at least as many
/// of the same, again behind three spaces at most, with nothing but white space
/// behind them; until then nothing in it states a fact.
pub proof fn fences_hold_code(
    indent: nat,
    mark: char,
    width: nat,
    tail: Seq<char>,
    opened: (char, int),
)
    requires
        mark == '`' || mark == '~',
        width > 0,
        tail.len() > 0 ==> tail[0] != mark,
    ensures
        ({
            let line = run(' ', indent) + (run(mark, width) + tail);
            let outside = ScanState { fence: None, in_comment: false };
            let inside = ScanState { fence: Some(opened), in_comment: false };
            &&& scan_line(outside, line).0.fence is Some <==> indent <= 3 && width >= 3
            &&& indent <= 3 && width >= 3 ==> scan_line(outside, line) == (
                ScanState { fence: Some((mark, width as int)), in_comment: false },
                None::<Seq<char>>,
            )
            &&& scan_line(inside, line).1 is None
            &&& scan_line(inside, line).0 == if indent <= 3 && mark == opened.0 && width
                >= opened.1 && trimmed(tail).len() == 0 {
                outside
            } else {
                inside
            }
        }),
{
    let marked = run(mark, width) + tail;
    assert(marked[0] == mark);
    lemma_run(' ', indent, marked);
    lemma_run(mark, width, tail);
}

/// A line that does not begin with backticks or tildes, behind spaces, leaves a
/// code block as it is.
pub proof fn code_goes_on(indent: nat, rest: Seq<char>, opened: (char, int))
    requires
        rest.len() > 0 ==> rest[0] != ' ' && rest[0] != '`' && rest[0] != '~',
    ensures
        ({
            let line = run(' ', indent) + rest;
            let inside = ScanState { fence: Some(opened), in_comment: false };
            scan_line(inside, line) == (inside, None::<Seq<char>>)
        }),
{
    lemma_run(' ', indent, rest);
}

/// A line that begins a comment, or goes on with one, states nothing; the comment
/// ends with the line that holds its end.
pub proof fn comments_state_nothing(line: Seq<char>)
    requires
        line.len() > 0 ==> line[0] != ' ' && line[0] != '`' && line[0] != '~',
    ensures
        ({
            let outside = ScanState { fence: None, in_comment: false };
            let inside = ScanState { fence: None, in_comment: true };
            &&& scan_line(inside, line) == (
                if occurs(line, "-->"@) {
                    outside
                } else {
                    inside
                },
                None::<Seq<char>>,
            )
            &&& occurs(line, "<!--"@) ==> scan_line(outside, line) == scan_line(inside, line)
        }),
{
    assert(run(' ', 0) + line =~= line);
    lemma_run(' ', 0, line);
}

/// Whether a line can neither begin a code block nor a comment.
pub open spec fn is_prose(line: Seq<char>) -> bool {
    &&& line.len() > 0 ==> line[0] != ' ' && line[0] != '`' && line[0] != '~'
    &&& !occurs(line, "<!--"@)
}

proof fn lemma_prose(state: ScanState, line: Seq<char>)
    requires
        is_prose(line),
        state == (ScanState { fence: None, in_comment: false }),
    ensures
        scan_line(state, line) == (
            state,
            if "@fact "@.is_prefix_of(line) {
                Some(line.skip(6))
            } else {
                None
            },
        ),
{
    assert(run(' ', 0) + line =~= line);
    lemma_run(' ', 0, line);
}

proof fn lemma_prose_state(lines: Seq<Seq<char>>)
    requires
        forall|i: int| 0 <= i < lines.len() ==> is_prose(#[trigger] lines[i]),
    ensures
        scan_state(lines) == (ScanState { fence: None, in_comment: false }),
    decreases lines.len(),
{
    if lines.len() > 0 {
        let rest = lines.drop_last();
        assert(lines[lines.len() - 1] == lines.last());
        assert forall|i: int| 0 <= i < rest.len() implies is_prose(#[trigger] rest[i]) by {
            assert(rest[i] == lines[i]);
        }
        lemma_prose_state(rest);
        lemma_prose(scan_state(rest), lines.last());
    }
}

/// What is found is a line that begins with the directive's mark, under its number;
/// and where there are neither code blocks nor comments every such line is found.
pub proof fn marked_lines_state_facts(lines: Seq<Seq<char>>, number: nat, raw: Seq<char>)
    ensures
        fact_lines(lines).contains((number, raw)) ==> 1 <= number <= lines.len() && lines[number
            - 1] == "@fact "@ + raw,
        (forall|i: int| 0 <= i < lines.len() ==> is_prose(#[trigger] lines[i])) && 1 <= number
            <= lines.len() && lines[number - 1] == "@fact "@ + raw ==> fact_lines(lines).contains(
            (number, raw),
        ),
    decreases lines.len(),
{
    reveal_strlit("@fact ");
    let all = fact_lines(lines);
    if lines.len() > 0 {
        let rest = lines.drop_last();
        let before = fact_lines(rest);
        let line = lines.last();
        assert(lines[lines.len() - 1] == line);
        marked_lines_state_facts(rest, number, raw);
        if all.contains((number, raw)) {
            let k = choose|k: int| 0 <= k < all.len() && all[k] == (number, raw);
            if k < before.len() {
                assert(before[k] == (number, raw));
                assert(before.contains((number, raw)));
                assert(rest[number - 1] == lines[number - 1]);
            } else {
                assert(line =~= "@fact "@ + raw);
            }
        }
        if (forall|i: int| 0 <= i < lines.len() ==> is_prose(#[trigger] lines[i])) && 1 <= number
            <= lines.len() && lines[number - 1] == "@fact "@ + raw {
            assert forall|i: int| 0 <= i < rest.len() implies is_prose(#[trigger] rest[i]) by {
                assert(rest[i] == lines[i]);
            }
            if number < lines.len() {
                assert(rest[number - 1] == lines[number - 1]);
                let k = choose|k: int| 0 <= k < before.len() && before[k] == (number, raw);
                assert(all[k] == (number, raw));
            } else {
                lemma_prose_state(rest);
                lemma_prose(scan_state(rest), line);
                assert("@fact "@.is_prefix_of(line)) by {
                    assert(line.subrange(0, 6) =~= "@fact "@);
                }
                assert(line.skip(6) =~= raw);
                assert(all[before.len() as int] == (number, raw));
            }
        }
    }
}

// What they say.

/// A fact says what its directive says, of the memory that it stands in: its
/// subject is an entity, its object one too unless it is a value; what is not said
/// of when it was learned or how sure it is, the memory says.
pub proof fn facts_say_what_was_written(
    metadata: MetadataView,
    line_number: nat,
    raw: Seq<char>,
    table: Map<Seq<char>, Reading>,
)
    requires
        read_fact(metadata, line_number, raw, table) is Ok,
    ensures
        directive_of(raw, table) is Ok,
        ({
            let fact = read_fact(metadata, line_number, raw, table)->Ok_0.fact;
            let said = directive_of(raw, table)->Ok_0;
            &&& fact.subject_id == entity_key(said.subject)
            &&& said.object_is_entity ==> fact.object_id == Some(entity_key(said.object))
            &&& !said.object_is_entity ==> fact.object_id is None
            &&& fact.object_value == said.object
            &&& fact.valid_from == said.valid_from
            &&& fact.valid_to == said.valid_to
            &&& fact.expired_at == said.expired_at
            &&& said.learned_at is Some ==> said.learned_at == Some(fact.learned_at)
            &&& said.learned_at is None ==> fact.learned_at == metadata.updated_at
            &&& said.confidence is Some ==> fact.confidence == said.confidence
            &&& said.confidence is None && metadata.confidence is None ==> fact.confidence is None
            &&& said.confidence is None && metadata.confidence is Some ==> fact.confidence is Some
                && table.contains_key(metadata.confidence->Some_0)
                && table[metadata.confidence->Some_0] == Reading::InRange(fact.confidence->Some_0)
            &&& fact.source_memory_id == metadata.id
            &&& fact.episode_id == "episode-"@ + metadata.id
            &&& fact.line_number == line_number
        }),
{
}

/// Every line that states a fact gives one, in their order; one that cannot be read
/// leaves all of them unread.
pub proof fn each_line_gives_a_fact(
    metadata: MetadataView,
    lines: Seq<(nat, Seq<char>)>,
    table: Map<Seq<char>, Reading>,
)
    ensures
        read_facts(metadata, lines, table) is Ok <==> forall|i: int|
            0 <= i < lines.len() ==> read_fact(
                metadata,
                (#[trigger] lines[i]).0,
                lines[i].1,
                table,
            ) is Ok,
        read_facts(metadata, lines, table) matches Ok(facts) ==> facts.len() == lines.len()
            && forall|i: int|
            0 <= i < lines.len() ==> Ok::<ReadFact, Seq<char>>(facts[i]) == read_fact(
                metadata,
                (#[trigger] lines[i]).0,
                lines[i].1,
                table,
            ),
    decreases lines.len(),
{
    if lines.len() > 0 {
        let rest = lines.drop_last();
        each_line_gives_a_fact(metadata, rest, table);
        assert(lines[lines.len() - 1] == lines.last());
        assert forall|i: int| 0 <= i < rest.len() implies rest[i] == #[trigger] lines[i] by {}
        if read_facts(metadata, lines, table) is Ok {
            assert forall|i: int| 0 <= i < lines.len() implies Ok::<ReadFact, Seq<char>>(
                read_facts(metadata, lines, table)->Ok_0[i],
            ) == read_fact(metadata, (#[trigger] lines[i]).0, lines[i].1, table) by {
                if i < rest.len() {
                    assert(rest[i] == lines[i]);
                }
            }
        } else if read_facts(metadata, rest, table) is Err {
            let i = choose|i: int|
                0 <= i < rest.len() && read_fact(metadata, (#[trigger] rest[i]).0, rest[i].1, table)
                    is Err;
            assert(lines[i] == rest[i]);
        } else {
            assert(read_fact(metadata, lines.last().0, lines.last().1, table) is Err);
        }
    }
}

/// An entity goes by its name, whatever the case and the spacing: names of the same
/// words make the same entity.
pub proof fn entities_go_by_their_words(left: Seq<char>, right: Seq<char>)
    requires
        ascii_lower(joined(crate::text::words(left), seq![' '])) == ascii_lower(
            joined(crate::text::words(right), seq![' ']),
        ),
    ensures
        normal_name(left) == normal_name(right),
        entity_key(left) == entity_key(right),
        "ent-"@.is_prefix_of(entity_key(left)),
{
    let key = entity_key(left);
    assert(key.subrange(0, "ent-"@.len() as int) =~= "ent-"@);
}

// Excerpts.

proof fn lemma_excerpt_lines(lines: Seq<Seq<char>>, shown: Seq<char>)
    ensures
        excerpt_lines(lines).contains(shown) <==> shown.len() > 0 && exists|i: int|
            0 <= i < lines.len() && trimmed(#[trigger] lines[i]) == shown
                && !"@fact "@.is_prefix_of(trimmed_start(lines[i])),
    decreases lines.len(),
{
    let all = excerpt_lines(lines);
    if lines.len() > 0 {
        let rest = lines.drop_last();
        let before = excerpt_lines(rest);
        lemma_excerpt_lines(rest, shown);
        assert(lines[lines.len() - 1] == lines.last());
        if all.contains(shown) {
            let k = choose|k: int| 0 <= k < all.len() && all[k] == shown;
            if k < before.len() {
                assert(before[k] == shown);
                assert(before.contains(shown));
                let i = choose|i: int|
                    0 <= i < rest.len() && trimmed(#[trigger] rest[i]) == shown
                        && !"@fact "@.is_prefix_of(trimmed_start(rest[i]));
                assert(lines[i] == rest[i]);
            }
        }
        if shown.len() > 0 && exists|i: int|
            0 <= i < lines.len() && trimmed(#[trigger] lines[i]) == shown
                && !"@fact "@.is_prefix_of(trimmed_start(lines[i])) {
            let i = choose|i: int|
                0 <= i < lines.len() && trimmed(#[trigger] lines[i]) == shown
                    && !"@fact "@.is_prefix_of(trimmed_start(lines[i]));
            if i < rest.len() {
                assert(rest[i] == lines[i]);
                let k = choose|k: int| 0 <= k < before.len() && before[k] == shown;
                assert(all[k] == shown);
            } else {
                assert(all[before.len() as int] == shown);
            }
        }
    }
}

/// An excerpt is short, and shows at most three lines of a body, without the white
/// space around them; blank lines and directives are not shown.
pub proof fn excerpts_show_what_is_said(body: Seq<char>) -> (shown: Seq<Seq<char>>)
    ensures
        excerpt_of(body).len() <= 240,
        excerpt_of(body).is_prefix_of(joined(shown, seq![' '])),
        joined(shown, seq![' ']).len() <= 240 ==> excerpt_of(body) == joined(shown, seq![' ']),
        shown.len() <= 3,
        forall|k: int|
            0 <= k < shown.len() ==> (#[trigger] shown[k]).len() > 0 && exists|i: int|
                0 <= i < line_seq(body).len() && trimmed(#[trigger] line_seq(body)[i]) == shown[k]
                    && !"@fact "@.is_prefix_of(trimmed_start(line_seq(body)[i])),
        forall|i: int|
            0 <= i < line_seq(body).len() && trimmed(#[trigger] line_seq(body)[i]).len() > 0
                && !"@fact "@.is_prefix_of(trimmed_start(line_seq(body)[i])) ==> shown.len() == 3
                || shown.contains(trimmed(line_seq(body)[i])),
{
    let lines = line_seq(body);
    let all = excerpt_lines(lines);
    let shown = first_lines(all, 3);
    let whole = joined(shown, seq![' ']);
    assert(whole.take(whole.len() as int) =~= whole);
    assert(excerpt_of(body) == first_chars(whole, 240));
    assert(excerpt_of(body).is_prefix_of(whole)) by {
        let n = excerpt_of(body).len() as int;
        assert(whole.subrange(0, n) =~= excerpt_of(body));
    }
    assert forall|k: int| 0 <= k < shown.len() implies (#[trigger] shown[k]).len() > 0 && exists|
        i: int,
    |
        0 <= i < lines.len() && trimmed(#[trigger] lines[i]) == shown[k]
            && !"@fact "@.is_prefix_of(trimmed_start(lines[i])) by {
        assert(all[k] == shown[k]);
        assert(all.contains(shown[k]));
        lemma_excerpt_lines(lines, shown[k]);
    }
    assert forall|i: int|
        0 <= i < lines.len() && trimmed(#[trigger] lines[i]).len() > 0 && !"@fact "@.is_prefix_of(
            trimmed_start(lines[i]),
        ) implies shown.len() == 3 || shown.contains(trimmed(lines[i])) by {
        lemma_excerpt_lines(lines, trimmed(lines[i]));
        if all.len() <= 3 {
            assert(shown == all);
        }
    }
    shown
}

/// A fact is read from a line exactly where the directive can be read, its relation
/// is one of those there are, its times fit together, and it is clear how sure it is.
pub proof fn facts_are_read_where_they_can_be(
    metadata: MetadataView,
    line_number: nat,
    raw: Seq<char>,
    table: Map<Seq<char>, Reading>,
)
    ensures
        read_fact(metadata, line_number, raw, table) is Ok <==> {
            let said = directive_of(raw, table);
            &&& said is Ok
            &&& crate::semantic::normal_relation(said->Ok_0.relation) is Ok
            &&& crate::clock::fact_time_kind(
                said->Ok_0.valid_from,
                said->Ok_0.valid_to,
                said->Ok_0.expired_at,
                match said->Ok_0.learned_at {
                    Some(learned_at) => learned_at,
                    None => metadata.updated_at,
                },
            ) is Ok
            &&& said->Ok_0.confidence is Some || metadata.confidence is None || (
            table.contains_key(metadata.confidence->Some_0)
                && table[metadata.confidence->Some_0] is InRange)
        },
{
}

/// A directive is read that names its subject, its relation and its object, gives
/// every option once and in its form, and says of its object and of how sure it is
/// what can be said.
pub proof fn sound_directives_are_read(raw: Seq<char>, table: Map<Seq<char>, Reading>)
    requires
        ({
            let parts = pieces(raw, '|');
            &&& parts.len() >= 3
            &&& trimmed(parts[0]).len() > 0
            &&& trimmed(parts[1]).len() > 0
            &&& trimmed(parts[2]).len() > 0
            &&& forall|i: int| 3 <= i < parts.len() ==> !is_no_option(trimmed(#[trigger] parts[i]))
            &&& forall|i: int, j: int, key: Seq<char>, left: Seq<char>, right: Seq<char>|
                3 <= i < j < parts.len() && #[trigger] writes(trimmed(parts[i]), key, left)
                    ==> !(#[trigger] writes(trimmed(parts[j]), key, right))
            &&& forall|value: Seq<char>| #[trigger]
                gives(raw, "object_kind"@, value) ==> ascii_lower(value) == "entity"@
                    || ascii_lower(value) == "value"@
            &&& forall|value: Seq<char>| #[trigger]
                gives(raw, "confidence"@, value) ==> table.contains_key(value) && table[value]
                    is InRange
        }),
    ensures
        directive_of(raw, table) is Ok,
{
    let parts = pieces(raw, '|');
    let tail = segments_of(raw).skip(3);
    lemma_options(tail);
    assert forall|i: int| 0 <= i < tail.len() implies option_of(#[trigger] tail[i]) is Ok by {
        assert(tail[i] == trimmed(parts[i + 3]));
        assert(!is_no_option(trimmed(parts[i + 3])));
        let (key, value) = choose|key: Seq<char>, value: Seq<char>|
            is_option(key) && #[trigger] writes(tail[i], key, value);
        lemma_writes(tail[i]);
        assert(writes(tail[i], key, value));
    }
    assert forall|i: int, j: int| 0 <= i < j < tail.len() implies option_of(
        #[trigger] tail[i],
    )->Ok_0.0 != option_of(#[trigger] tail[j])->Ok_0.0 by {
        assert(tail[i] == trimmed(parts[i + 3]) && tail[j] == trimmed(parts[j + 3]));
        lemma_writes(tail[i]);
        lemma_writes(tail[j]);
        let left = option_of(tail[i])->Ok_0;
        let right = option_of(tail[j])->Ok_0;
        assert(writes(trimmed(parts[i + 3]), left.0, left.1));
        assert(writes(trimmed(parts[j + 3]), right.0, right.1));
    }
    let options = options_of(tail)->Ok_0;
    lemma_given(raw, options, "object_kind"@);
    lemma_given(raw, options, "confidence"@);
    let unknown = |key: Seq<char>| !crate::directive::is_known_option(key);
    let keys = option_keys(options);
    let less = |left: Seq<char>, right: Seq<char>| String::ranks_before(left, right);
    filtering_keeps_what_is_wanted(keys, unknown);
    order::lemma_sorted_members(keys.filter(unknown), less);
    if unknown_keys(options).len() > 0 {
        let key = unknown_keys(options)[0];
        assert(unknown_keys(options).contains(key));
        assert(keys.filter(unknown).contains(key));
        let i = choose|i: int| 0 <= i < keys.len() && keys[i] == key;
        assert(options[i].0 == key);
        assert(tail[i] == trimmed(parts[i + 3]));
        assert(!is_no_option(trimmed(parts[i + 3])));
        let (known, value) = choose|known: Seq<char>, value: Seq<char>|
            is_option(known) && #[trigger] writes(tail[i], known, value);
        lemma_writes(tail[i]);
        assert(writes(tail[i], known, value));
        assert(option_of(tail[i]) == Ok::<_, Seq<char>>((known, value)));
        lemma_is_option(known);
    }
}

// Entities.

/// A character that a slug is made of.
pub open spec fn is_slug_char(c: char) -> bool {
    'a' <= c <= 'z' || 'A' <= c <= 'Z' || '0' <= c <= '9' || c == '-'
}

proof fn lemma_slug_chars(value: Seq<char>)
    ensures
        forall|i: int|
            0 <= i < slug_chars(value).len() ==> is_slug_char(#[trigger] slug_chars(value)[i]),
    decreases value.len(),
{
    if value.len() > 0 {
        let before = slug_chars(value.drop_last());
        let all = slug_chars(value);
        lemma_slug_chars(value.drop_last());
        assert forall|i: int| 0 <= i < all.len() implies is_slug_char(#[trigger] all[i]) by {
            if i < before.len() {
                assert(all[i] == before[i]);
            }
        }
    }
}

/// The slug of a name is short and not empty, is made of letters, digits and hyphens,
/// and does not begin with a hyphen.
pub proof fn slugs_are_short_and_plain(value: Seq<char>)
    ensures
        0 < slug_of(value).len() <= 24,
        forall|i: int|
            0 <= i < slug_of(value).len() ==> is_slug_char(#[trigger] slug_of(value)[i]),
        slug_of(value)[0] != '-',
{
    reveal_strlit("entity");
    let chars = slug_chars(value);
    lemma_slug_chars(value);
    let (from, to) = crate::letter_laws::stripping_takes_one_character(chars, '-');
    let inner = stripped(chars, '-');
    let slug = first_chars(inner, 24);
    if slug.len() > 0 {
        assert(slug[0] == inner[0]);
        assert(inner[0] == chars[from]);
        assert forall|i: int| 0 <= i < slug.len() implies is_slug_char(#[trigger] slug[i]) by {
            assert(slug[i] == inner[i]);
            assert(inner[i] == chars[from + i]);
        }
    }
}

/// A name of letters and digits, with single spaces between its words, makes a slug
/// that says it, with hyphens in place of the spaces.
pub proof fn slugs_say_the_name(value: Seq<char>)
    ensures
        (forall|i: int|
            0 <= i < value.len() ==> 'a' <= #[trigger] value[i] <= 'z' || '0' <= value[i] <= '9'
                || value[i] == ' ') ==> slug_chars(value) == value.map_values(
            |c: char|
                if c == ' ' {
                    '-'
                } else {
                    c
                },
        ),
    decreases value.len(),
{
    let dashed = |c: char|
        if c == ' ' {
            '-'
        } else {
            c
        };
    if forall|i: int|
        0 <= i < value.len() ==> 'a' <= #[trigger] value[i] <= 'z' || '0' <= value[i] <= '9'
            || value[i] == ' ' {
        if value.len() > 0 {
            let rest = value.drop_last();
            assert forall|i: int| 0 <= i < rest.len() implies 'a' <= #[trigger] rest[i] <= 'z' || '0'
                <= rest[i] <= '9' || rest[i] == ' ' by {
                assert(rest[i] == value[i]);
            }
            slugs_say_the_name(rest);
            assert(value[value.len() - 1] == value.last());
            assert(slug_chars(value) =~= value.map_values(dashed));
        } else {
            assert(slug_chars(value) =~= value.map_values(dashed));
        }
    }
}

} // verus!
