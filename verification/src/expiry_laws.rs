//! A directive that is ended says the same as before, and when it ended.

use vstd::prelude::*;

use crate::clock::{has_iso_shape, TimeKind};
use crate::directive::{
    self, directive_of, option_key, option_keys, option_named, option_of, option_value, options_of,
    segments_of, unknown_keys, DirectiveView, OptionEntry, Reading,
};
use crate::expiry::{expired_directive, is_stamp, without_expiration};
use crate::numeral::{decimal, is_digit, signed_decimal_reads_back};
use crate::order::{self, Ranked};
use crate::semantic::{fact_holds, FactView};
use crate::text::{
    index_of, is_space, joined, lemma_index_of, lemma_index_of_is, pieces, split_once_at, trimmed,
    trimmed_end,
};
use crate::text_laws::{
    joined_pieces_read_back, pieces_hold_no_separator, pieces_of_both, trimmed_after_space,
    trimmed_before_space, trimmed_of_tight,
};

verus! {

// Pieces.

proof fn lemma_pieces_push(value: Seq<char>, c: char, added: char)
    requires
        added != c,
    ensures
        pieces(value, c).len() > 0,
        pieces(value.push(added), c) == pieces(value, c).drop_last().push(
            pieces(value, c).last().push(added),
        ),
    decreases value.len(),
{
    let longer = value.push(added);
    lemma_index_of(value, c);
    let n = index_of(value, c);
    if n < value.len() {
        lemma_index_of_is(longer, c, n);
        let rest = value.skip(n + 1);
        assert(longer.take(n) =~= value.take(n));
        assert(longer.skip(n + 1) =~= rest.push(added));
        lemma_pieces_push(rest, c, added);
        let first = seq![value.take(n)];
        assert(pieces(value, c) == first + pieces(rest, c));
        assert((first + pieces(rest, c)).drop_last() =~= first + pieces(rest, c).drop_last());
        assert(first + pieces(rest, c).drop_last().push(pieces(rest, c).last().push(added))
            =~= (first + pieces(rest, c).drop_last()).push(pieces(rest, c).last().push(added)));
    } else {
        lemma_index_of_is(longer, c, longer.len() as int);
        assert(seq![value].drop_last().push(value.push(added)) =~= seq![longer]);
    }
}

/// White space at the end does not show in the segments.
proof fn lemma_segments_push(value: Seq<char>, space: char)
    requires
        is_space(space),
    ensures
        segments_of(value.push(space)) == segments_of(value),
{
    lemma_pieces_push(value, '|', space);
    let parts = pieces(value, '|');
    trimmed_before_space(parts.last(), space);
    assert(segments_of(value.push(space)) =~= segments_of(value));
}

proof fn lemma_segments_of_trimmed(value: Seq<char>)
    ensures
        segments_of(trimmed_end(value)) == segments_of(value),
    decreases value.len(),
{
    if value.len() > 0 && is_space(value.last()) {
        lemma_segments_of_trimmed(value.drop_last());
        lemma_segments_push(value.drop_last(), value.last());
        assert(value.drop_last().push(value.last()) =~= value);
    }
}

// Stamps.

/// Whether a text stands for itself as the value of an option: something,
/// without white space, bars and quotes.
pub open spec fn is_plain(stamp: Seq<char>) -> bool {
    &&& stamp.len() > 0
    &&& forall|i: int|
        0 <= i < stamp.len() ==> !is_space(#[trigger] stamp[i]) && stamp[i] != '|' && stamp[i]
            != '"' && stamp[i] != '\''
}

proof fn lemma_decimal_is_plain(number: nat)
    ensures
        is_plain(decimal(number)),
    decreases number,
{
    if number >= 10 {
        lemma_decimal_is_plain(number / 10);
        let before = decimal(number / 10);
        assert forall|i: int| 0 <= i < decimal(number).len() implies !is_space(
            #[trigger] decimal(number)[i],
        ) && decimal(number)[i] != '|' && decimal(number)[i] != '"' && decimal(number)[i] != '\'' by {
            if i < before.len() {
                assert(decimal(number)[i] == before[i]);
            }
        }
    }
}

/// The stamps that are written are plain.
pub proof fn stamps_are_plain(stamp: Seq<char>, kind: TimeKind, expiration: int)
    requires
        is_stamp(stamp, kind, expiration),
    ensures
        is_plain(stamp),
{
    match kind {
        TimeKind::Unix => {
            if expiration < 0 {
                let digits = decimal((-expiration) as nat);
                lemma_decimal_is_plain((-expiration) as nat);
                assert forall|i: int| 0 <= i < stamp.len() implies !is_space(#[trigger] stamp[i])
                    && stamp[i] != '|' && stamp[i] != '"' && stamp[i] != '\'' by {
                    if i > 0 {
                        assert(stamp[i] == digits[i - 1]);
                    }
                }
            } else {
                lemma_decimal_is_plain(expiration as nat);
            }
        },
        TimeKind::IsoDate => {
            assert(has_iso_shape(stamp));
            assert forall|i: int| 0 <= i < stamp.len() implies !is_space(#[trigger] stamp[i])
                && stamp[i] != '|' && stamp[i] != '"' && stamp[i] != '\'' by {
                if i < 4 {
                    assert(is_digit(stamp.subrange(0, 4)[i]));
                } else if 5 <= i < 7 {
                    assert(is_digit(stamp.subrange(5, 7)[i - 5]));
                } else if 8 <= i < 10 {
                    assert(is_digit(stamp.subrange(8, 10)[i - 8]));
                } else if 11 <= i < 13 {
                    assert(is_digit(stamp.subrange(11, 13)[i - 11]));
                } else if 14 <= i < 16 {
                    assert(is_digit(stamp.subrange(14, 16)[i - 14]));
                } else if 17 <= i < 19 {
                    assert(is_digit(stamp.subrange(17, 19)[i - 17]));
                }
            }
        },
    }
}

proof fn lemma_expiration_option(stamp: Seq<char>)
    requires
        is_plain(stamp),
    ensures
        option_of("expired_at="@ + stamp) == Ok::<_, Seq<char>>(("expired_at"@, stamp)),
        trimmed("expired_at="@ + stamp) == "expired_at="@ + stamp,
        !("expired_at="@ + stamp).contains('|'),
{
    reveal_strlit("expired_at=");
    reveal_strlit("expired_at");
    let part = "expired_at="@ + stamp;
    assert(stamp.last() == stamp[stamp.len() - 1]);
    assert(part[0] == 'e');
    assert(part.last() == stamp.last());
    trimmed_of_tight(part);
    lemma_index_of_is(part, '=', 10);
    let before = part.take(10);
    let after = part.skip(11);
    assert(before =~= "expired_at"@);
    assert(after =~= stamp);
    assert(split_once_at(part, '=') == Some((before, after)));
    trimmed_of_tight(before);
    assert(option_key(before) =~= "expired_at"@);
    trimmed_of_tight(stamp);
    assert(option_value(after) == stamp);
    assert forall|i: int| 0 <= i < part.len() implies part[i] != '|' by {
        if i >= 11 {
            assert(part[i] == stamp[i - 11]);
        }
    }
}

// Options.

/// The options but one.
pub open spec fn without_key(options: Seq<OptionEntry>, key: Seq<char>) -> Seq<OptionEntry>
    decreases options.len(),
{
    if options.len() == 0 {
        seq![]
    } else {
        let before = without_key(options.drop_last(), key);
        if options.last().0 == key {
            before
        } else {
            before.push(options.last())
        }
    }
}

proof fn lemma_without_key(options: Seq<OptionEntry>, key: Seq<char>, other: Seq<char>)
    ensures
        option_named(without_key(options, key), key) is None,
        other != key ==> option_named(without_key(options, key), other) == option_named(
            options,
            other,
        ),
    decreases options.len(),
{
    if options.len() > 0 {
        lemma_without_key(options.drop_last(), key, other);
        if options.last().0 != key {
            assert(without_key(options, key).drop_last() =~= without_key(options.drop_last(), key));
        }
    }
}

proof fn lemma_without_key_members(options: Seq<OptionEntry>, key: Seq<char>)
    ensures
        forall|i: int|
            0 <= i < without_key(options, key).len() ==> options.contains(
                #[trigger] without_key(options, key)[i],
            ),
    decreases options.len(),
{
    if options.len() > 0 {
        let rest = options.drop_last();
        lemma_without_key_members(rest, key);
        let kept = without_key(options, key);
        let before = without_key(rest, key);
        assert forall|i: int| 0 <= i < kept.len() implies options.contains(#[trigger] kept[i]) by {
            if i < before.len() {
                assert(kept[i] == before[i]);
                let k = choose|k: int| 0 <= k < rest.len() && rest[k] == before[i];
                assert(options[k] == kept[i]);
            } else {
                assert(options[options.len() - 1] == kept[i]);
            }
        }
    }
}

proof fn lemma_none_chosen(keys: Seq<Seq<char>>, chosen: spec_fn(Seq<char>) -> bool)
    requires
        forall|i: int| 0 <= i < keys.len() ==> !chosen(#[trigger] keys[i]),
    ensures
        keys.filter(chosen).len() == 0,
    decreases keys.len(),
{
    reveal(Seq::filter);
    if keys.len() > 0 {
        let rest = keys.drop_last();
        assert forall|i: int| 0 <= i < rest.len() implies !chosen(#[trigger] rest[i]) by {
            assert(rest[i] == keys[i]);
        }
        lemma_none_chosen(rest, chosen);
        assert(!chosen(keys[keys.len() - 1]));
    }
}

proof fn lemma_all_known(options: Seq<OptionEntry>)
    ensures
        unknown_keys(options).len() == 0 <==> forall|i: int|
            0 <= i < options.len() ==> directive::is_known_option((#[trigger] options[i]).0),
{
    let strange = |key: Seq<char>| !directive::is_known_option(key);
    let less = |left: Seq<char>, right: Seq<char>| String::ranks_before(left, right);
    let keys = option_keys(options);
    let unknown = keys.filter(strange);
    order::lemma_sorted_members(unknown, less);
    assert(order::ranked::<String>(unknown) == order::sorted_by(unknown, less));
    assert(unknown_keys(options).len() == unknown.len());
    if unknown.len() == 0 {
        assert forall|i: int| 0 <= i < options.len() implies directive::is_known_option(
            (#[trigger] options[i]).0,
        ) by {
            assert(keys[i] == options[i].0);
            if strange(keys[i]) {
                keys.lemma_filter_contains(strange, i);
            }
        }
    }
    if forall|i: int|
        0 <= i < options.len() ==> directive::is_known_option((#[trigger] options[i]).0) {
        assert forall|i: int| 0 <= i < keys.len() implies !strange(#[trigger] keys[i]) by {
            assert(keys[i] == options[i].0);
        }
        lemma_none_chosen(keys, strange);
    }
}

// Directives.

pub open spec fn trimmed_all(parts: Seq<Seq<char>>) -> Seq<Seq<char>> {
    parts.map_values(|part: Seq<char>| trimmed(part))
}

/// Leaving out the expiration leaves out its option.
proof fn lemma_kept_options(parts: Seq<Seq<char>>)
    requires
        parts.len() >= 3,
        options_of(trimmed_all(parts).skip(3)) is Ok,
    ensures
        without_expiration(parts).len() >= 3,
        without_expiration(parts).take(3) == parts.take(3),
        options_of(trimmed_all(without_expiration(parts)).skip(3)) == Ok::<_, Seq<char>>(
            without_key(options_of(trimmed_all(parts).skip(3))->Ok_0, "expired_at"@),
        ),
        forall|i: int|
            0 <= i < without_expiration(parts).len() ==> parts.contains(
                #[trigger] without_expiration(parts)[i],
            ),
    decreases parts.len(),
{
    let kept = without_expiration(parts);
    if parts.len() == 3 {
        reveal_with_fuel(without_expiration, 4);
        assert(kept =~= parts);
        assert(trimmed_all(parts).skip(3) =~= seq![]);
        assert forall|i: int| 0 <= i < kept.len() implies parts.contains(#[trigger] kept[i]) by {
            assert(parts[i] == kept[i]);
        }
    } else {
        let rest = parts.drop_last();
        let last = parts.last();
        let all = trimmed_all(parts).skip(3);
        assert(all.drop_last() =~= trimmed_all(rest).skip(3));
        assert(all.last() == trimmed(last));
        lemma_kept_options(rest);
        let before = without_expiration(rest);
        let options = options_of(trimmed_all(rest).skip(3))->Ok_0;
        let entry = option_of(trimmed(last))->Ok_0;
        assert(options_of(all) == Ok::<_, Seq<char>>(options.push(entry)));
        assert(options.push(entry).drop_last() =~= options);
        lemma_without_key(options, "expired_at"@, entry.0);
        assert(rest.take(3) =~= parts.take(3));
        if entry.0 != "expired_at"@ {
            assert(kept == before.push(last));
            assert(kept.take(3) =~= before.take(3));
            let after = trimmed_all(kept).skip(3);
            assert(after.drop_last() =~= trimmed_all(before).skip(3));
            assert(after.last() == trimmed(last));
        }
        assert forall|i: int| 0 <= i < kept.len() implies parts.contains(#[trigger] kept[i]) by {
            if i < before.len() {
                assert(kept[i] == before[i]);
                let k = choose|k: int| 0 <= k < rest.len() && rest[k] == before[i];
                assert(parts[k] == kept[i]);
            } else {
                assert(parts[parts.len() - 1] == kept[i]);
            }
        }
    }
}

/// The segments of a directive that is ended: those it had but for an
/// expiration, and the expiration.
proof fn lemma_ended_segments(raw: Seq<char>, stamp: Seq<char>)
    requires
        pieces(raw, '|').len() >= 3,
        options_of(segments_of(raw).skip(3)) is Ok,
        is_plain(stamp),
    ensures
        segments_of(expired_directive(raw, stamp)) == trimmed_all(
            without_expiration(pieces(raw, '|')),
        ).push("expired_at="@ + stamp),
{
    reveal_strlit("|");
    reveal_strlit(" | expired_at=");
    reveal_strlit("expired_at=");
    assert("|"@ =~= seq!['|']);
    let parts = pieces(raw, '|');
    let kept = without_expiration(parts);
    pieces_hold_no_separator(raw, '|');
    assert(segments_of(raw) =~= trimmed_all(parts));
    lemma_kept_options(parts);
    assert forall|i: int| 0 <= i < kept.len() implies !(#[trigger] kept[i]).contains('|') by {
        let k = choose|k: int| 0 <= k < parts.len() && parts[k] == kept[i];
        assert(!parts[k].contains('|'));
    }
    joined_pieces_read_back(kept, '|');
    let whole = joined(kept, "|"@);
    lemma_segments_of_trimmed(whole);
    let front = trimmed_end(whole);
    lemma_segments_push(front, ' ');
    let option = "expired_at="@ + stamp;
    let back = seq![' '] + option;
    assert(expired_directive(raw, stamp) =~= front.push(' ') + seq!['|'] + back);
    pieces_of_both(front.push(' '), '|', back);
    lemma_expiration_option(stamp);
    assert forall|i: int| 0 <= i < back.len() implies back[i] != '|' by {
        if i > 0 {
            assert(back[i] == option[i - 1]);
            assert(option.contains(option[i - 1]));
        }
    }
    lemma_index_of(back, '|');
    assert(pieces(back, '|') =~= seq![back]);
    trimmed_after_space(option);
    assert(segments_of(whole) =~= trimmed_all(kept));
    assert(segments_of(expired_directive(raw, stamp)) =~= segments_of(front.push(' ')).push(
        trimmed(back),
    ));
}

/// A directive that is ended says what it said before, and that it is expired
/// as of the stamp.
pub proof fn ended_directive_reads_back(
    raw: Seq<char>,
    stamp: Seq<char>,
    table: Map<Seq<char>, Reading>,
)
    requires
        directive_of(raw, table) is Ok,
        is_plain(stamp),
    ensures
        directive_of(expired_directive(raw, stamp), table) == Ok::<_, Seq<char>>(
            DirectiveView { expired_at: Some(stamp), ..directive_of(raw, table)->Ok_0 },
        ),
{
    let parts = pieces(raw, '|');
    let segments = segments_of(raw);
    assert(segments =~= trimmed_all(parts));
    lemma_ended_segments(raw, stamp);
    lemma_kept_options(parts);
    lemma_expiration_option(stamp);
    let kept = without_expiration(parts);
    let option = "expired_at="@ + stamp;
    let ended = trimmed_all(kept).push(option);
    let options = options_of(segments.skip(3))->Ok_0;
    let remaining = without_key(options, "expired_at"@);
    let result = remaining.push(("expired_at"@, stamp));
    assert(ended.skip(3).drop_last() =~= trimmed_all(kept).skip(3));
    assert(ended.skip(3).last() == option);
    lemma_without_key(options, "expired_at"@, "expired_at"@);
    assert(options_of(ended.skip(3)) == Ok::<_, Seq<char>>(result));
    assert(result.drop_last() =~= remaining);
    reveal_strlit("expired_at");
    reveal_strlit("object_kind");
    reveal_strlit("confidence");
    reveal_strlit("valid_from");
    reveal_strlit("valid_to");
    reveal_strlit("learned_at");
    assert("confidence"@[0] != "expired_at"@[0]);
    assert("valid_from"@[0] != "expired_at"@[0]);
    assert("learned_at"@[0] != "expired_at"@[0]);
    lemma_without_key(options, "expired_at"@, "object_kind"@);
    lemma_without_key(options, "expired_at"@, "confidence"@);
    lemma_without_key(options, "expired_at"@, "valid_from"@);
    lemma_without_key(options, "expired_at"@, "valid_to"@);
    lemma_without_key(options, "expired_at"@, "learned_at"@);
    lemma_all_known(options);
    lemma_all_known(result);
    lemma_without_key_members(options, "expired_at"@);
    assert forall|i: int| 0 <= i < result.len() implies directive::is_known_option(
        (#[trigger] result[i]).0,
    ) by {
        if i < remaining.len() {
            assert(result[i] == remaining[i]);
            let k = choose|k: int| 0 <= k < options.len() && options[k] == remaining[i];
            assert(directive::is_known_option(options[k].0));
        }
    }
    assert(kept.take(3) == parts.take(3));
    assert(ended[0] == trimmed(kept.take(3)[0]) && segments[0] == trimmed(parts.take(3)[0]));
    assert(ended[1] == trimmed(kept.take(3)[1]) && segments[1] == trimmed(parts.take(3)[1]));
    assert(ended[2] == trimmed(kept.take(3)[2]) && segments[2] == trimmed(parts.take(3)[2]));
}

/// A fact that was ended does not hold from then on.
pub proof fn ended_facts_do_not_hold(fact: FactView, expiration: i64, at: int)
    requires
        fact.expired_at is Some,
        is_stamp(fact.expired_at->Some_0, fact.time_kind, expiration as int),
        expiration <= at,
    ensures
        fact_holds(fact, at) != Ok::<bool, Seq<char>>(true),
{
    signed_decimal_reads_back(expiration);
}

} // verus!
