//! What times stand for: the calendar, the clock, and when times fit together.

use vstd::prelude::*;

use crate::clock::{
    common_kind, days_before_month, epoch_days, fact_time_kind, instant_of, is_unix_literal,
    iso_problem, iso_seconds, lemma_common_kind, month_length, number_at, present_times,
    time_kind_of, TimeKind,
};
use crate::numeral::{is_digit, signed_decimal, signed_decimal_reads_back};

verus! {

/// Months have their lengths, and February has another day in every fourth year,
/// but for the hundreds that four hundred does not divide.
pub proof fn months_have_their_lengths(year: int, month: int)
    ensures
        month == 4 || month == 6 || month == 9 || month == 11 ==> month_length(year, month) == 30,
        month == 1 || month == 3 || month == 5 || month == 7 || month == 8 || month == 10 || month
            == 12 ==> month_length(year, month) == 31,
        year % 4 != 0 ==> month_length(year, 2) == 28,
        year % 4 == 0 && year % 100 != 0 ==> month_length(year, 2) == 29,
        year % 100 == 0 && year % 400 != 0 ==> month_length(year, 2) == 28,
        year % 400 == 0 ==> month_length(year, 2) == 29,
        month < 1 || month > 12 ==> month_length(year, month) == 0,
{
}

/// Days are counted from the first of January 1970.
pub proof fn days_are_counted_from_the_epoch()
    ensures
        epoch_days(1970, 1, 1) == 0,
        epoch_days(1970, 1, 2) == 1,
        epoch_days(1969, 12, 31) == -1,
{
    crate::clock::days_are_consecutive(1970, 1, 1);
    crate::clock::days_are_consecutive(1969, 12, 31);
    assert(days_before_month(1970, 1) == 0);
}

/// Whether a text is a date, or a date and a time of day in UTC, in digits.
pub open spec fn is_written_time(value: Seq<char>) -> bool {
    let digit = |i: int| '0' <= value[i] <= '9';
    &&& value.len() == 10 || value.len() == 20
    &&& digit(0) && digit(1) && digit(2) && digit(3)
    &&& value[4] == '-' && digit(5) && digit(6)
    &&& value[7] == '-' && digit(8) && digit(9)
    &&& value.len() == 20 ==> {
        &&& value[10] == 'T' && digit(11) && digit(12)
        &&& value[13] == ':' && digit(14) && digit(15)
        &&& value[16] == ':' && digit(17) && digit(18)
        &&& value[19] == 'Z'
    }
}

/// The number that two digits stand for.
pub open spec fn two_digits(value: Seq<char>, i: int) -> int {
    10 * (value[i] as int - '0' as int) + (value[i + 1] as int - '0' as int)
}

/// The number that four digits stand for.
pub open spec fn four_digits(value: Seq<char>, i: int) -> int {
    100 * two_digits(value, i) + two_digits(value, i + 2)
}

proof fn lemma_two_digits(value: Seq<char>, i: int)
    requires
        0 <= i,
        i + 2 <= value.len(),
        '0' <= value[i] <= '9',
        '0' <= value[i + 1] <= '9',
    ensures
        number_at(value, i, i + 2) == two_digits(value, i),
        crate::numeral::all_digits(value.subrange(i, i + 2)),
{
    let part = value.subrange(i, i + 2);
    assert(part[0] == value[i] && part[1] == value[i + 1]);
    let one = part.drop_last();
    assert(one.last() == value[i]);
    assert(one.drop_last() =~= Seq::<char>::empty());
    reveal_with_fuel(crate::numeral::number_of, 3);
}

proof fn lemma_four_digits(value: Seq<char>, i: int)
    requires
        0 <= i,
        i + 4 <= value.len(),
        '0' <= value[i] <= '9',
        '0' <= value[i + 1] <= '9',
        '0' <= value[i + 2] <= '9',
        '0' <= value[i + 3] <= '9',
    ensures
        number_at(value, i, i + 4) == four_digits(value, i),
        crate::numeral::all_digits(value.subrange(i, i + 4)),
{
    let part = value.subrange(i, i + 4);
    assert(part[0] == value[i] && part[1] == value[i + 1] && part[2] == value[i + 2] && part[3]
        == value[i + 3]);
    let three = part.drop_last();
    let two = three.drop_last();
    let one = two.drop_last();
    assert(three.last() == value[i + 2]);
    assert(two.last() == value[i + 1]);
    assert(one.last() == value[i]);
    assert(one.drop_last() =~= Seq::<char>::empty());
    reveal_with_fuel(crate::numeral::number_of, 5);
}

/// A time is written as a date, or a date and a time of day, of which each part is
/// in its range; nothing else is one. It stands for the seconds since the epoch.
pub proof fn times_are_read_as_written(value: Seq<char>)
    ensures
        ({
            let year = four_digits(value, 0);
            let month = two_digits(value, 5);
            let day = two_digits(value, 8);
            let hour = two_digits(value, 11);
            let minute = two_digits(value, 14);
            let second = two_digits(value, 17);
            &&& iso_problem(value) is None <==> {
                &&& is_written_time(value)
                &&& year >= 1
                &&& 1 <= month <= 12
                &&& 1 <= day <= month_length(year, month)
                &&& value.len() == 20 ==> hour < 24 && minute < 60 && second < 60
            }
            &&& iso_problem(value) is None && value.len() == 10 ==> iso_seconds(value) == 86_400
                * epoch_days(year, month, day)
            &&& iso_problem(value) is None && value.len() == 20 ==> iso_seconds(value) == 86_400
                * epoch_days(year, month, day) + 3_600 * hour + 60 * minute + second
        }),
{
    lemma_written(value);
    if is_written_time(value) {
        lemma_four_digits(value, 0);
        lemma_two_digits(value, 5);
        lemma_two_digits(value, 8);
        if value.len() == 20 {
            lemma_two_digits(value, 11);
            lemma_two_digits(value, 14);
            lemma_two_digits(value, 17);
        }
    }
}

proof fn lemma_written(value: Seq<char>)
    ensures
        crate::clock::has_iso_shape(value) <==> is_written_time(value),
{
    if crate::clock::has_iso_shape(value) {
        let year = value.subrange(0, 4);
        assert(is_digit(year[0]) && is_digit(year[1]) && is_digit(year[2]) && is_digit(year[3]));
        let month = value.subrange(5, 7);
        assert(is_digit(month[0]) && is_digit(month[1]));
        let day = value.subrange(8, 10);
        assert(is_digit(day[0]) && is_digit(day[1]));
        if value.len() == 20 {
            let hour = value.subrange(11, 13);
            assert(is_digit(hour[0]) && is_digit(hour[1]));
            let minute = value.subrange(14, 16);
            assert(is_digit(minute[0]) && is_digit(minute[1]));
            let second = value.subrange(17, 19);
            assert(is_digit(second[0]) && is_digit(second[1]));
        }
    }
    if is_written_time(value) {
        lemma_four_digits(value, 0);
        lemma_two_digits(value, 5);
        lemma_two_digits(value, 8);
        if value.len() == 20 {
            lemma_two_digits(value, 11);
            lemma_two_digits(value, 14);
            lemma_two_digits(value, 17);
        }
    }
}

/// Seconds since the epoch stand for themselves.
pub proof fn seconds_stand_for_themselves(seconds: i64)
    ensures
        time_kind_of(signed_decimal(seconds as int)) == Ok::<_, Seq<char>>(TimeKind::Unix),
        instant_of(signed_decimal(seconds as int)) == Ok::<_, Seq<char>>(seconds as int),
{
    signed_decimal_reads_back(seconds);
    lemma_literal(seconds as int);
}

proof fn lemma_literal(number: int)
    ensures
        is_unix_literal(signed_decimal(number)),
        signed_decimal(number).len() > 0,
{
    if number < 0 {
        crate::numeral::decimal_reads_back((-number) as nat);
        let value = signed_decimal(number);
        assert(value.skip(1) =~= crate::numeral::decimal((-number) as nat));
    } else {
        crate::numeral::decimal_reads_back(number as nat);
        let digits = crate::numeral::decimal(number as nat);
        assert(is_digit(digits[0]));
    }
}

/// The kind of a time that may be missing: whether it is of a kind.
pub open spec fn is_of_kind(value: Option<Seq<char>>, kind: TimeKind) -> bool {
    value matches Some(value) ==> time_kind_of(value) == Ok::<_, Seq<char>>(kind)
}

proof fn lemma_present(
    valid_from: Option<Seq<char>>,
    valid_to: Option<Seq<char>>,
    expired_at: Option<Seq<char>>,
    kind: TimeKind,
)
    ensures
        common_kind(present_times(valid_from, valid_to, expired_at), kind) is Ok <==> is_of_kind(
            valid_from,
            kind,
        ) && is_of_kind(valid_to, kind) && is_of_kind(expired_at, kind),
        present_times(valid_from, valid_to, expired_at).len() == 0 <==> valid_from is None
            && valid_to is None && expired_at is None,
{
    let values = present_times(valid_from, valid_to, expired_at);
    lemma_all_of_kind(values, kind);
    let from = crate::clock::optional_seq(valid_from);
    let to = crate::clock::optional_seq(valid_to);
    let end = crate::clock::optional_seq(expired_at);
    assert(values =~= from + to + end);
    if valid_from is Some {
        assert(values[0] == valid_from->Some_0);
    }
    if valid_to is Some {
        assert(values[from.len() as int] == valid_to->Some_0);
    }
    if expired_at is Some {
        assert(values[(from.len() + to.len()) as int] == expired_at->Some_0);
    }
    assert forall|i: int| 0 <= i < values.len() implies Some(#[trigger] values[i]) == valid_from
        || Some(values[i]) == valid_to || Some(values[i]) == expired_at by {
        if i < from.len() {
            assert(values[i] == from[i]);
        } else if i < from.len() + to.len() {
            assert(values[i] == to[i - from.len()]);
        } else {
            assert(values[i] == end[i - from.len() - to.len()]);
        }
    }
}

proof fn lemma_all_of_kind(values: Seq<Seq<char>>, kind: TimeKind)
    ensures
        common_kind(values, kind) is Ok <==> forall|i: int|
            0 <= i < values.len() ==> time_kind_of(#[trigger] values[i]) == Ok::<_, Seq<char>>(kind),
    decreases values.len(),
{
    if values.len() > 0 {
        let rest = values.drop_first();
        lemma_all_of_kind(rest, kind);
        if common_kind(values, kind) is Ok {
            assert forall|i: int| 0 <= i < values.len() implies time_kind_of(#[trigger] values[i])
                == Ok::<_, Seq<char>>(kind) by {
                if i > 0 {
                    assert(rest[i - 1] == values[i]);
                }
            }
        }
        if forall|i: int|
            0 <= i < values.len() ==> time_kind_of(#[trigger] values[i]) == Ok::<_, Seq<char>>(kind) {
            assert(time_kind_of(values[0]) == Ok::<_, Seq<char>>(kind));
            assert forall|i: int| 0 <= i < rest.len() implies time_kind_of(#[trigger] rest[i])
                == Ok::<_, Seq<char>>(kind) by {
                assert(rest[i] == values[i + 1]);
            }
        }
    }
}

/// The times of a fact fit together where all of them are times, those of its
/// validity and its expiration are of one kind, and both ends lie behind the start.
pub proof fn times_fit_together(
    valid_from: Option<Seq<char>>,
    valid_to: Option<Seq<char>>,
    expired_at: Option<Seq<char>>,
    learned_at: Seq<char>,
)
    ensures
        fact_time_kind(valid_from, valid_to, expired_at, learned_at) matches Ok(kind) ==> {
            &&& time_kind_of(learned_at) is Ok
            &&& is_of_kind(valid_from, kind) && is_of_kind(valid_to, kind) && is_of_kind(
                expired_at,
                kind,
            )
            &&& valid_from is None && valid_to is None && expired_at is None ==> time_kind_of(
                learned_at,
            ) == Ok::<_, Seq<char>>(kind)
            &&& valid_from is Some && valid_to is Some ==> instant_of(
                valid_from->Some_0,
            )->Ok_0 < instant_of(valid_to->Some_0)->Ok_0
            &&& valid_from is Some && expired_at is Some ==> instant_of(
                valid_from->Some_0,
            )->Ok_0 < instant_of(expired_at->Some_0)->Ok_0
        },
        fact_time_kind(valid_from, valid_to, expired_at, learned_at) is Err ==> {
            ||| time_kind_of(learned_at) is Err
            ||| forall|kind: TimeKind|
                !((#[trigger] is_of_kind(valid_from, kind)) && is_of_kind(valid_to, kind)
                    && is_of_kind(expired_at, kind))
            ||| valid_from is Some && valid_to is Some && instant_of(valid_from->Some_0)->Ok_0
                >= instant_of(valid_to->Some_0)->Ok_0
            ||| valid_from is Some && expired_at is Some && instant_of(valid_from->Some_0)->Ok_0
                >= instant_of(expired_at->Some_0)->Ok_0
        },
{
    let values = present_times(valid_from, valid_to, expired_at);
    lemma_present(valid_from, valid_to, expired_at, TimeKind::Unix);
    lemma_present(valid_from, valid_to, expired_at, TimeKind::IsoDate);
    if values.len() > 0 {
        match time_kind_of(values[0]) {
            Ok(kind) => {
                assert(common_kind(values, kind) == common_kind(values.drop_first(), kind));
                if common_kind(values, kind) is Ok {
                    lemma_common_kind(values, kind);
                }
            },
            Err(_) => {},
        }
    }
}

} // verus!
