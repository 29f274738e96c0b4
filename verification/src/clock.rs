//! Points in time: unix seconds, and ISO 8601 dates and timestamps in UTC.

use vstd::prelude::*;

use crate::error::Error;
use crate::numeral::{all_digits, digits_from, i64_of, is_digit, number_of, parse_i64};
use crate::text;

verus! {

/// How the times of a fact are written.
#[derive(Clone, Copy, Debug, PartialEq, Eq, Structural)]
pub enum TimeKind {
    Unix,
    IsoDate,
}

impl TimeKind {
    /// The name of the kind.
    pub open spec fn name(self) -> Seq<char> {
        match self {
            TimeKind::Unix => "unix"@,
            TimeKind::IsoDate => "iso-date"@,
        }
    }

    pub fn label(self) -> (label: &'static str)
        ensures
            label@ == self.name(),
    {
        match self {
            TimeKind::Unix => "unix",
            TimeKind::IsoDate => "iso-date",
        }
    }

    /// The kind of a stored name.
    pub open spec fn of_name(value: Seq<char>) -> Result<TimeKind, Seq<char>> {
        if value == "unix"@ {
            Ok(TimeKind::Unix)
        } else if value == "iso-date"@ {
            Ok(TimeKind::IsoDate)
        } else {
            Err("unknown semantic time kind "@ + text::quoted_form(value))
        }
    }

    pub fn from_storage(value: &str) -> (kind: Result<TimeKind, Error>)
        ensures
            match kind {
                Ok(kind) => TimeKind::of_name(value@) == Ok::<_, Seq<char>>(kind),
                Err(error) => TimeKind::of_name(value@) == Err::<TimeKind, _>(error@),
            },
    {
        if text::same(value, "unix") {
            Ok(TimeKind::Unix)
        } else if text::same(value, "iso-date") {
            Ok(TimeKind::IsoDate)
        } else {
            Err(
                Error::new(
                    text::concat2("unknown semantic time kind ", text::quoted(value).as_str()),
                ),
            )
        }
    }
}

/// A stored kind is read back.
pub proof fn time_kind_reads_back(kind: TimeKind)
    ensures
        TimeKind::of_name(kind.name()) == Ok::<_, Seq<char>>(kind),
{
    reveal_strlit("unix");
    reveal_strlit("iso-date");
    assert("unix"@.len() != "iso-date"@.len());
}

// Calendar.

pub open spec fn leap_year(year: int) -> bool {
    (year % 4 == 0 && year % 100 != 0) || year % 400 == 0
}

/// How many days a month has; none, if there is no such month.
pub open spec fn month_length(year: int, month: int) -> int {
    if month == 1 || month == 3 || month == 5 || month == 7 || month == 8 || month == 10 || month
        == 12 {
        31
    } else if month == 4 || month == 6 || month == 9 || month == 11 {
        30
    } else if month == 2 {
        if leap_year(year) {
            29
        } else {
            28
        }
    } else {
        0
    }
}

/// The days of a year before a month of it.
pub open spec fn days_before_month(year: int, month: int) -> int
    decreases month,
{
    if month <= 1 {
        0
    } else {
        days_before_month(year, month - 1) + month_length(year, month - 1)
    }
}

/// The days from the first of January of the year 1 to that of `year`.
pub open spec fn days_before_year(year: int) -> int {
    365 * (year - 1) + (year - 1) / 4 - (year - 1) / 100 + (year - 1) / 400
}

/// The days from the first of January 1970 to a date of the Gregorian calendar.
pub open spec fn epoch_days(year: int, month: int, day: int) -> int {
    days_before_year(year) + days_before_month(year, month) + (day - 1) - days_before_year(1970)
}

pub fn is_leap_year(year: u32) -> (leap: bool)
    ensures
        leap == leap_year(year as int),
{
    (year % 4 == 0 && year % 100 != 0) || year % 400 == 0
}

pub fn days_in_month(year: u32, month: u32) -> (days: u32)
    ensures
        days == month_length(year as int, month as int),
{
    if month == 1 || month == 3 || month == 5 || month == 7 || month == 8 || month == 10 || month
        == 12 {
        31
    } else if month == 4 || month == 6 || month == 9 || month == 11 {
        30
    } else if month == 2 {
        if is_leap_year(year) {
            29
        } else {
            28
        }
    } else {
        0
    }
}

proof fn lemma_era(year: int, era: int, year_of_era: int)
    requires
        year == era * 400 + year_of_era,
        0 <= year_of_era < 400,
    ensures
        year / 4 == era * 100 + year_of_era / 4,
        year / 100 == era * 4 + year_of_era / 100,
        year / 400 == era,
{
}

pub proof fn lemma_leap_step(year: int)
    ensures
        days_before_year(year + 1) - days_before_year(year) == 365 + (if leap_year(year) {
            1int
        } else {
            0int
        }),
{
    lemma_step(year, 4);
    lemma_step(year, 100);
    lemma_step(year, 400);
}

proof fn lemma_step(year: int, period: int)
    requires
        period == 4 || period == 100 || period == 400,
    ensures
        year / period - (year - 1) / period == if year % period == 0 {
            1int
        } else {
            0int
        },
{
}

proof fn lemma_month_days(year: int, month: int)
    requires
        1 <= month <= 12,
    ensures
        month <= 2 ==> days_before_month(year, month) == (153 * (month + 9) + 2) / 5 - 306,
        month > 2 ==> days_before_month(year, month) == (153 * (month - 3) + 2) / 5 + 59 + (
        if leap_year(year) {
            1int
        } else {
            0int
        }),
{
    reveal_with_fuel(days_before_month, 13);
}

/// The days from the first of January 1970 to a date.
pub fn days_from_civil(year: i32, month: u32, day: u32) -> (days: i64)
    requires
        1 <= month <= 12,
    ensures
        days == epoch_days(year as int, month as int, day as int),
{
    let shifted: i64 = if month <= 2 {
        year as i64 - 1
    } else {
        year as i64
    };
    let month: i64 = month as i64;
    let era: i64 = (if shifted >= 0 {
        shifted
    } else {
        shifted - 399
    }) / 400;
    let year_of_era: i64 = shifted - era * 400;
    assert(0 <= year_of_era < 400);
    let month_prime: i64 = if month > 2 {
        month - 3
    } else {
        month + 9
    };
    let day_of_year: i64 = (153 * month_prime + 2) / 5 + day as i64 - 1;
    let day_of_era: i64 = year_of_era * 365 + year_of_era / 4 - year_of_era / 100 + day_of_year;
    proof {
        lemma_era(shifted as int, era as int, year_of_era as int);
        lemma_leap_step(year as int);
        lemma_month_days(year as int, month as int);
    }
    era * 146_097 + day_of_era - 719_468
}

// Reading.

/// A minus sign or none, then decimal digits.
pub open spec fn is_unix_literal(value: Seq<char>) -> bool {
    let digits = if value.len() > 0 && value[0] == '-' {
        value.skip(1)
    } else {
        value
    };
    digits.len() > 0 && all_digits(digits)
}

/// The number at some places of a text.
pub open spec fn number_at(value: Seq<char>, start: int, end: int) -> int {
    number_of(value.subrange(start, end))
}

/// `YYYY-MM-DD`, where each letter stands for a digit.
pub open spec fn has_date_shape(value: Seq<char>) -> bool {
    &&& all_digits(value.subrange(0, 4))
    &&& value[4] == '-'
    &&& all_digits(value.subrange(5, 7))
    &&& value[7] == '-'
    &&& all_digits(value.subrange(8, 10))
}

/// `THH:MM:SSZ` behind a date.
pub open spec fn has_clock_shape(value: Seq<char>) -> bool {
    &&& value[10] == 'T'
    &&& all_digits(value.subrange(11, 13))
    &&& value[13] == ':'
    &&& all_digits(value.subrange(14, 16))
    &&& value[16] == ':'
    &&& all_digits(value.subrange(17, 19))
    &&& value[19] == 'Z'
}

pub open spec fn has_iso_shape(value: Seq<char>) -> bool {
    &&& value.len() == 10 || value.len() == 20
    &&& has_date_shape(value)
    &&& value.len() == 20 ==> has_clock_shape(value)
}

/// A day of the calendar, from the year 1 on.
pub open spec fn is_date(year: int, month: int, day: int) -> bool {
    year != 0 && 1 <= month <= 12 && 1 <= day <= month_length(year, month)
}

pub open spec fn is_clock_time(hour: int, minute: int, second: int) -> bool {
    hour <= 23 && minute <= 59 && second <= 59
}

/// Why a text is no ISO date or timestamp, if it is none.
pub open spec fn iso_problem(value: Seq<char>) -> Option<Seq<char>> {
    if !has_iso_shape(value) {
        Some(
            "time value "@ + text::quoted_form(value)
                + " must be unix seconds, zero-padded YYYY-MM-DD, or YYYY-MM-DDTHH:MM:SSZ"@,
        )
    } else if !is_date(number_at(value, 0, 4), number_at(value, 5, 7), number_at(value, 8, 10)) {
        Some("invalid calendar date "@ + text::quoted_form(value))
    } else if value.len() == 20 && !is_clock_time(
        number_at(value, 11, 13),
        number_at(value, 14, 16),
        number_at(value, 17, 19),
    ) {
        Some("invalid time of day "@ + text::quoted_form(value))
    } else {
        None
    }
}

/// The unix seconds of an ISO date, at midnight, or timestamp.
pub open spec fn iso_seconds(value: Seq<char>) -> int {
    86_400 * epoch_days(number_at(value, 0, 4), number_at(value, 5, 7), number_at(value, 8, 10))
        + if value.len() == 20 {
        3_600 * number_at(value, 11, 13) + 60 * number_at(value, 14, 16) + number_at(value, 17, 19)
    } else {
        0
    }
}

/// The kind of a time.
pub open spec fn time_kind_of(value: Seq<char>) -> Result<TimeKind, Seq<char>> {
    if value.len() == 0 {
        Err("time value cannot be empty"@)
    } else if is_unix_literal(value) {
        match i64_of(value) {
            Some(_) => Ok(TimeKind::Unix),
            None => Err(unix_problem(value)),
        }
    } else {
        match iso_problem(value) {
            Some(message) => Err(message),
            None => Ok(TimeKind::IsoDate),
        }
    }
}

pub open spec fn unix_problem(value: Seq<char>) -> Seq<char> {
    "time value "@ + text::quoted_form(value) + " must be signed 64-bit unix seconds"@
}

/// The unix seconds of a time of a given kind.
pub open spec fn seconds_of(value: Seq<char>, kind: TimeKind) -> Result<int, Seq<char>> {
    match kind {
        TimeKind::Unix => match i64_of(value) {
            Some(seconds) => Ok(seconds as int),
            None => Err(unix_problem(value)),
        },
        TimeKind::IsoDate => match iso_problem(value) {
            Some(message) => Err(message),
            None => Ok(iso_seconds(value)),
        },
    }
}

/// The unix seconds of a time of either kind.
pub open spec fn instant_of(value: Seq<char>) -> Result<int, Seq<char>> {
    match time_kind_of(value) {
        Ok(kind) => seconds_of(value, kind),
        Err(message) => Err(message),
    }
}

/// Whether an outcome in seconds is the one expected.
pub open spec fn same_seconds(
    outcome: Result<i64, Error>,
    expected: Result<int, Seq<char>>,
) -> bool {
    match outcome {
        Ok(seconds) => expected == Ok::<_, Seq<char>>(seconds as int),
        Err(error) => expected == Err::<int, _>(error@),
    }
}

pub open spec fn same_kind(
    outcome: Result<TimeKind, Error>,
    expected: Result<TimeKind, Seq<char>>,
) -> bool {
    match outcome {
        Ok(kind) => expected == Ok::<_, Seq<char>>(kind),
        Err(error) => expected == Err::<TimeKind, _>(error@),
    }
}

fn digits_between(chars: &Vec<char>, start: usize, end: usize) -> (digits: bool)
    requires
        start <= end <= chars.len(),
    ensures
        digits == all_digits(chars@.subrange(start as int, end as int)),
{
    let mut i: usize = start;
    let ghost range = chars@.subrange(start as int, end as int);
    while i < end
        invariant
            start <= i <= end <= chars.len(),
            range == chars@.subrange(start as int, end as int),
            forall|k: int| 0 <= k < i - start ==> is_digit(#[trigger] range[k]),
        decreases end - i,
    {
        if !('0' <= chars[i] && chars[i] <= '9') {
            assert(!is_digit(range[i - start]));
            return false;
        }
        assert(range[i - start] == chars@[i as int]);
        i = i + 1;
    }
    true
}

fn small_number(chars: &Vec<char>, start: usize, end: usize) -> (number: u32)
    requires
        start <= end <= chars.len(),
        end - start <= 4,
        all_digits(chars@.subrange(start as int, end as int)),
    ensures
        number == number_at(chars@, start as int, end as int),
        number <= 9999,
        end - start <= 2 ==> number <= 99,
{
    let ghost range = chars@.subrange(start as int, end as int);
    let mut number: u32 = 0;
    let mut i: usize = start;
    assert(range.take(0) =~= seq![]);
    while i < end
        invariant
            start <= i <= end <= chars.len(),
            end - start <= 4,
            range == chars@.subrange(start as int, end as int),
            all_digits(range),
            number == number_of(range.take(i - start)),
            i - start == 0 ==> number == 0,
            i - start == 1 ==> number <= 9,
            i - start == 2 ==> number <= 99,
            i - start == 3 ==> number <= 999,
            i - start == 4 ==> number <= 9999,
        decreases end - i,
    {
        assert(is_digit(range[i - start]));
        assert(range.take(i + 1 - start).drop_last() =~= range.take(i - start));
        number = number * 10 + (chars[i] as u32 - '0' as u32);
        i = i + 1;
    }
    assert(range.take(range.len() as int) =~= range);
    number
}

pub fn is_unix_seconds_literal(value: &str) -> (literal: bool)
    ensures
        literal == is_unix_literal(value@),
{
    let chars = text::chars_of(value);
    let start: usize = if chars.len() > 0 && chars[0] == '-' {
        1
    } else {
        0
    };
    assert(value@.skip(0) =~= value@);
    start < chars.len() && digits_from(&chars, start)
}

pub fn parse_unix_seconds(value: &str) -> (seconds: Result<i64, Error>)
    ensures
        same_seconds(seconds, seconds_of(value@, TimeKind::Unix)),
{
    match parse_i64(value) {
        Some(seconds) => Ok(seconds),
        None => Err(
            Error::new(
                text::concat3(
                    "time value ",
                    text::quoted(value).as_str(),
                    " must be signed 64-bit unix seconds",
                ),
            ),
        ),
    }
}

/// Accepts a date `YYYY-MM-DD` or a timestamp `YYYY-MM-DDTHH:MM:SSZ`.
pub fn validate_iso_date(value: &str) -> (valid: Result<(), Error>)
    ensures
        match valid {
            Ok(_) => iso_problem(value@) is None,
            Err(error) => iso_problem(value@) == Some(error@),
        },
{
    let chars = text::chars_of(value);
    let shaped = (chars.len() == 10 || chars.len() == 20) && digits_between(&chars, 0, 4)
        && chars[4] == '-' && digits_between(&chars, 5, 7) && chars[7] == '-' && digits_between(
        &chars,
        8,
        10,
    ) && (chars.len() != 20 || (chars[10] == 'T' && digits_between(&chars, 11, 13) && chars[13]
        == ':' && digits_between(&chars, 14, 16) && chars[16] == ':' && digits_between(
        &chars,
        17,
        19,
    ) && chars[19] == 'Z'));
    if !shaped {
        return Err(
            Error::new(
                text::concat3(
                    "time value ",
                    text::quoted(value).as_str(),
                    " must be unix seconds, zero-padded YYYY-MM-DD, or YYYY-MM-DDTHH:MM:SSZ",
                ),
            ),
        );
    }
    let year = small_number(&chars, 0, 4);
    let month = small_number(&chars, 5, 7);
    let day = small_number(&chars, 8, 10);
    if year == 0 || !(1 <= month && month <= 12) || !(1 <= day && day <= days_in_month(year, month)) {
        return Err(
            Error::new(text::concat2("invalid calendar date ", text::quoted(value).as_str())),
        );
    }
    if chars.len() == 20 {
        let hour = small_number(&chars, 11, 13);
        let minute = small_number(&chars, 14, 16);
        let second = small_number(&chars, 17, 19);
        if hour > 23 || minute > 59 || second > 59 {
            return Err(
                Error::new(text::concat2("invalid time of day ", text::quoted(value).as_str())),
            );
        }
    }
    Ok(())
}

pub proof fn lemma_epoch_days_bound(year: int, month: int, day: int)
    requires
        0 <= year <= 9999,
        1 <= month <= 12,
        0 <= day <= 99,
    ensures
        -1_000_000 <= epoch_days(year, month, day) <= 4_000_000,
{
    reveal_with_fuel(days_before_month, 13);
}

pub fn iso_to_unix_seconds(value: &str) -> (seconds: Result<i64, Error>)
    ensures
        same_seconds(seconds, seconds_of(value@, TimeKind::IsoDate)),
{
    match validate_iso_date(value) {
        Err(error) => Err(error),
        Ok(_) => {
            let chars = text::chars_of(value);
            let year = small_number(&chars, 0, 4);
            let month = small_number(&chars, 5, 7);
            let day = small_number(&chars, 8, 10);
            let days = days_from_civil(year as i32, month, day);
            proof {
                lemma_epoch_days_bound(year as int, month as int, day as int);
            }
            let mut seconds: i64 = days * 86_400;
            if chars.len() == 20 {
                let hour = small_number(&chars, 11, 13);
                let minute = small_number(&chars, 14, 16);
                let second = small_number(&chars, 17, 19);
                seconds = seconds + (hour as i64 * 3_600 + minute as i64 * 60 + second as i64);
            }
            Ok(seconds)
        },
    }
}

pub fn parse_time_kind(value: &str) -> (kind: Result<TimeKind, Error>)
    ensures
        same_kind(kind, time_kind_of(value@)),
{
    if value.is_empty() {
        return Err(Error::of("time value cannot be empty"));
    }
    if is_unix_seconds_literal(value) {
        return match parse_unix_seconds(value) {
            Ok(_) => Ok(TimeKind::Unix),
            Err(error) => Err(error),
        };
    }
    match validate_iso_date(value) {
        Ok(_) => Ok(TimeKind::IsoDate),
        Err(error) => Err(error),
    }
}

pub fn temporal_value_to_unix_seconds(value: &str, kind: TimeKind) -> (seconds: Result<i64, Error>)
    ensures
        same_seconds(seconds, seconds_of(value@, kind)),
{
    match kind {
        TimeKind::Unix => parse_unix_seconds(value),
        TimeKind::IsoDate => iso_to_unix_seconds(value),
    }
}

/// The unix seconds of a time of either kind.
pub fn temporal_unix_seconds(value: &str) -> (seconds: Result<i64, Error>)
    ensures
        same_seconds(seconds, instant_of(value@)),
{
    match parse_time_kind(value) {
        Ok(kind) => temporal_value_to_unix_seconds(value, kind),
        Err(error) => Err(error),
    }
}

// The times of a fact.

/// The times that are there, in order.
pub open spec fn present_times(
    valid_from: Option<Seq<char>>,
    valid_to: Option<Seq<char>>,
    expired_at: Option<Seq<char>>,
) -> Seq<Seq<char>> {
    optional_seq(valid_from) + optional_seq(valid_to) + optional_seq(expired_at)
}

pub open spec fn optional_seq(value: Option<Seq<char>>) -> Seq<Seq<char>> {
    match value {
        Some(value) => seq![value],
        None => seq![],
    }
}

/// The one kind of all the values, the first of them being of `kind`.
pub open spec fn common_kind(values: Seq<Seq<char>>, kind: TimeKind) -> Result<
    TimeKind,
    Seq<char>,
>
    decreases values.len(),
{
    if values.len() == 0 {
        Ok(kind)
    } else {
        match time_kind_of(values[0]) {
            Err(message) => Err(message),
            Ok(other) => if other != kind {
                Err("valid_from, valid_to, and expired_at must use the same time format"@)
            } else {
                common_kind(values.drop_first(), kind)
            },
        }
    }
}

/// Whether both times are there and the first is not before the second.
pub open spec fn not_before(
    first: Option<Seq<char>>,
    second: Option<Seq<char>>,
    kind: TimeKind,
) -> bool {
    match (first, second) {
        (Some(first), Some(second)) => seconds_of(first, kind)->Ok_0 >= seconds_of(
            second,
            kind,
        )->Ok_0,
        _ => false,
    }
}

/// The kind of the times of a fact, if they fit together: its validity and
/// expiration are of one kind, and begin before they end.
pub open spec fn fact_time_kind(
    valid_from: Option<Seq<char>>,
    valid_to: Option<Seq<char>>,
    expired_at: Option<Seq<char>>,
    learned_at: Seq<char>,
) -> Result<TimeKind, Seq<char>> {
    match time_kind_of(learned_at) {
        Err(message) => Err(message),
        Ok(learned_kind) => {
            let values = present_times(valid_from, valid_to, expired_at);
            if values.len() == 0 {
                Ok(learned_kind)
            } else {
                match time_kind_of(values[0]) {
                    Err(message) => Err(message),
                    Ok(first_kind) => match common_kind(values.drop_first(), first_kind) {
                        Err(message) => Err(message),
                        Ok(kind) => if not_before(valid_from, valid_to, kind) {
                            Err("valid_to must be later than valid_from"@)
                        } else if not_before(valid_from, expired_at, kind) {
                            Err("expired_at must be later than valid_from"@)
                        } else {
                            Ok(kind)
                        },
                    },
                }
            }
        },
    }
}

/// Whether the first time is before the second, both being of `kind`.
fn comes_before(left: &str, right: &str, kind: TimeKind) -> (before: Result<bool, Error>)
    ensures
        match before {
            Ok(before) => seconds_of(left@, kind) is Ok && seconds_of(right@, kind) is Ok && before
                == (seconds_of(left@, kind)->Ok_0 < seconds_of(right@, kind)->Ok_0),
            Err(error) => seconds_of(left@, kind) == Err::<int, _>(error@) || (seconds_of(
                left@,
                kind,
            ) is Ok && seconds_of(right@, kind) == Err::<int, _>(error@)),
        },
{
    match temporal_value_to_unix_seconds(left, kind) {
        Err(error) => Err(error),
        Ok(first) => match temporal_value_to_unix_seconds(right, kind) {
            Err(error) => Err(error),
            Ok(second) => Ok(first < second),
        },
    }
}

proof fn lemma_kind_has_seconds(value: Seq<char>)
    ensures
        time_kind_of(value) matches Ok(kind) ==> seconds_of(value, kind) is Ok,
{
}

#[verifier::loop_isolation(false)]
pub fn validate_fact_times(
    valid_from: Option<&str>,
    valid_to: Option<&str>,
    expired_at: Option<&str>,
    learned_at: &str,
) -> (kind: Result<TimeKind, Error>)
    ensures
        same_kind(
            kind,
            fact_time_kind(
                valid_from.deep_view(),
                valid_to.deep_view(),
                expired_at.deep_view(),
                learned_at@,
            ),
        ),
{
    let learned_kind = match parse_time_kind(learned_at) {
        Ok(kind) => kind,
        Err(error) => {
            return Err(error);
        },
    };
    let mut values: Vec<&str> = Vec::new();
    if let Some(value) = valid_from {
        values.push(value);
    }
    if let Some(value) = valid_to {
        values.push(value);
    }
    if let Some(value) = expired_at {
        values.push(value);
    }
    let ghost all = present_times(
        valid_from.deep_view(),
        valid_to.deep_view(),
        expired_at.deep_view(),
    );
    assert(values.deep_view() =~= all);
    if values.len() == 0 {
        return Ok(learned_kind);
    }
    assert(all[0] == values[0]@);
    let kind = match parse_time_kind(values[0]) {
        Ok(kind) => kind,
        Err(error) => {
            return Err(error);
        },
    };
    let ghost rest = all.drop_first();
    let mut i: usize = 1;
    assert(rest.skip(0) =~= rest);
    while i < values.len()
        invariant
            1 <= i <= values.len(),
            values.deep_view() == all,
            rest == all.drop_first(),
            common_kind(rest, kind) == common_kind(rest.skip(i - 1), kind),
            forall|k: int| 0 <= k < i ==> time_kind_of(#[trigger] all[k]) == Ok::<_, Seq<char>>(kind),
        decreases values.len() - i,
    {
        assert(rest.skip(i - 1)[0] == values[i as int]@);
        assert(all[i as int] == values[i as int]@);
        assert(rest.skip(i - 1).drop_first() =~= rest.skip(i as int));
        match parse_time_kind(values[i]) {
            Ok(other) => {
                if other != kind {
                    return Err(
                        Error::of("valid_from, valid_to, and expired_at must use the same time format"),
                    );
                }
            },
            Err(error) => {
                return Err(error);
            },
        }
        i = i + 1;
    }
    assert(common_kind(rest, kind) == Ok::<_, Seq<char>>(kind));
    if let (Some(from), Some(to)) = (valid_from, valid_to) {
        proof {
            assert(all[0] == from@);
            assert(all[1] == to@);
            lemma_kind_has_seconds(from@);
            lemma_kind_has_seconds(to@);
        }
        match comes_before(from, to, kind) {
            Ok(before) => {
                if !before {
                    return Err(Error::of("valid_to must be later than valid_from"));
                }
            },
            Err(error) => {
                return Err(error);
            },
        }
    }
    if let (Some(from), Some(expired)) = (valid_from, expired_at) {
        proof {
            assert(all[0] == from@);
            assert(all.last() == expired@);
            lemma_kind_has_seconds(from@);
            lemma_kind_has_seconds(expired@);
        }
        match comes_before(from, expired, kind) {
            Ok(before) => {
                if !before {
                    return Err(Error::of("expired_at must be later than valid_from"));
                }
            },
            Err(error) => {
                return Err(error);
            },
        }
    }
    Ok(kind)
}

/// Whether a fact holds at a time: from its start on, up to its end and its
/// expiration. A later time is read only where an earlier one does not decide.
pub open spec fn holds_at(
    valid_from: Option<Seq<char>>,
    valid_to: Option<Seq<char>>,
    expired_at: Option<Seq<char>>,
    kind: TimeKind,
    at: int,
) -> Result<bool, Seq<char>> {
    match starts_after(valid_from, kind, at) {
        Err(message) => Err(message),
        Ok(true) => Ok(false),
        Ok(false) => match ends_by(valid_to, kind, at) {
            Err(message) => Err(message),
            Ok(true) => Ok(false),
            Ok(false) => match ends_by(expired_at, kind, at) {
                Err(message) => Err(message),
                Ok(ended) => Ok(!ended),
            },
        },
    }
}

pub open spec fn starts_after(value: Option<Seq<char>>, kind: TimeKind, at: int) -> Result<
    bool,
    Seq<char>,
> {
    match value {
        None => Ok(false),
        Some(value) => match seconds_of(value, kind) {
            Ok(seconds) => Ok(seconds > at),
            Err(message) => Err(message),
        },
    }
}

pub open spec fn ends_by(value: Option<Seq<char>>, kind: TimeKind, at: int) -> Result<
    bool,
    Seq<char>,
> {
    match value {
        None => Ok(false),
        Some(value) => match seconds_of(value, kind) {
            Ok(seconds) => Ok(seconds <= at),
            Err(message) => Err(message),
        },
    }
}

pub open spec fn same_answer(
    outcome: Result<bool, Error>,
    expected: Result<bool, Seq<char>>,
) -> bool {
    match outcome {
        Ok(answer) => expected == Ok::<_, Seq<char>>(answer),
        Err(error) => expected == Err::<bool, _>(error@),
    }
}

/// Whether the times of a fact hold at `at`.
pub fn times_hold_at(
    valid_from: Option<&str>,
    valid_to: Option<&str>,
    expired_at: Option<&str>,
    kind: TimeKind,
    at: i64,
) -> (holds: Result<bool, Error>)
    ensures
        same_answer(
            holds,
            holds_at(
                valid_from.deep_view(),
                valid_to.deep_view(),
                expired_at.deep_view(),
                kind,
                at as int,
            ),
        ),
{
    if let Some(value) = valid_from {
        match temporal_value_to_unix_seconds(value, kind) {
            Ok(seconds) => {
                if seconds > at {
                    return Ok(false);
                }
            },
            Err(error) => {
                return Err(error);
            },
        }
    }
    if let Some(value) = valid_to {
        match temporal_value_to_unix_seconds(value, kind) {
            Ok(seconds) => {
                if seconds <= at {
                    return Ok(false);
                }
            },
            Err(error) => {
                return Err(error);
            },
        }
    }
    if let Some(value) = expired_at {
        match temporal_value_to_unix_seconds(value, kind) {
            Ok(seconds) => {
                if seconds <= at {
                    return Ok(false);
                }
            },
            Err(error) => {
                return Err(error);
            },
        }
    }
    Ok(true)
}

// Laws.

/// The day after a date, in the same month, the next month or the next year, is
/// the next number.
pub proof fn days_are_consecutive(year: int, month: int, day: int)
    requires
        1 <= month <= 12,
    ensures
        epoch_days(year, month, day + 1) == epoch_days(year, month, day) + 1,
        month < 12 && day == month_length(year, month) ==> epoch_days(year, month + 1, 1)
            == epoch_days(year, month, day) + 1,
        month == 12 && day == 31 ==> epoch_days(year + 1, 1, 1) == epoch_days(year, month, day) + 1,
{
    reveal_with_fuel(days_before_month, 13);
    lemma_leap_step(year);
}

proof fn lemma_months_add_up(year: int, first: int, second: int)
    requires
        1 <= first < second <= 13,
    ensures
        days_before_month(year, first) + month_length(year, first) <= days_before_month(
            year,
            second,
        ),
    decreases second,
{
    if first + 1 < second {
        lemma_months_add_up(year, first, second - 1);
    }
}

proof fn lemma_years_add_up(first: int, second: int)
    requires
        first < second,
    ensures
        days_before_year(first) + days_before_month(first, 13) <= days_before_year(second),
    decreases second - first,
{
    reveal_with_fuel(days_before_month, 13);
    lemma_leap_step(second - 1);
    if first + 1 < second {
        lemma_years_add_up(first, second - 1);
    }
}

/// A later date has a higher number.
pub proof fn later_dates_have_higher_days(
    year: int,
    month: int,
    day: int,
    later_year: int,
    later_month: int,
    later_day: int,
)
    requires
        is_date(year, month, day),
        is_date(later_year, later_month, later_day),
        year < later_year || (year == later_year && (month < later_month || (month == later_month
            && day < later_day))),
    ensures
        epoch_days(year, month, day) < epoch_days(later_year, later_month, later_day),
{
    if year < later_year {
        lemma_years_add_up(year, later_year);
        lemma_months_add_up(year, month, 13);
        if later_month > 1 {
            lemma_months_add_up(later_year, 1, later_month);
        }
    } else if month < later_month {
        lemma_months_add_up(year, month, later_month);
    }
}

/// A date and the midnight that begins it are the same instant.
pub proof fn date_is_its_midnight(date: Seq<char>)
    requires
        date.len() == 10,
        iso_problem(date) is None,
    ensures
        iso_problem(date + "T00:00:00Z"@) is None,
        iso_seconds(date + "T00:00:00Z"@) == iso_seconds(date),
{
    let stamp = date + "T00:00:00Z"@;
    reveal_strlit("T00:00:00Z");
    assert(stamp.subrange(0, 4) =~= date.subrange(0, 4));
    assert(stamp.subrange(5, 7) =~= date.subrange(5, 7));
    assert(stamp.subrange(8, 10) =~= date.subrange(8, 10));
    assert(stamp.subrange(11, 13) =~= seq!['0', '0']);
    assert(stamp.subrange(14, 16) =~= seq!['0', '0']);
    assert(stamp.subrange(17, 19) =~= seq!['0', '0']);
    assert(number_of(seq!['0', '0']) == 0) by {
        reveal_with_fuel(number_of, 3);
    }
}

/// Times that fit together always say whether the fact holds, and it holds from
/// its start, included, to the earlier of its end and its expiration, excluded.
pub proof fn validity_is_half_open(
    valid_from: Option<Seq<char>>,
    valid_to: Option<Seq<char>>,
    expired_at: Option<Seq<char>>,
    learned_at: Seq<char>,
    at: int,
)
    requires
        fact_time_kind(valid_from, valid_to, expired_at, learned_at) is Ok,
    ensures
        ({
            let kind = fact_time_kind(valid_from, valid_to, expired_at, learned_at)->Ok_0;
            &&& valid_from matches Some(value) ==> seconds_of(value, kind) is Ok
            &&& valid_to matches Some(value) ==> seconds_of(value, kind) is Ok
            &&& expired_at matches Some(value) ==> seconds_of(value, kind) is Ok
            &&& holds_at(valid_from, valid_to, expired_at, kind, at) == Ok::<_, Seq<char>>(
                (valid_from matches Some(value) ==> seconds_of(value, kind)->Ok_0 <= at) && (
                valid_to matches Some(value) ==> at < seconds_of(value, kind)->Ok_0) && (
                expired_at matches Some(value) ==> at < seconds_of(value, kind)->Ok_0),
            )
        }),
{
    let values = present_times(valid_from, valid_to, expired_at);
    if values.len() > 0 {
        let kind = time_kind_of(values[0])->Ok_0;
        lemma_common_kind(values.drop_first(), kind);
        assert forall|i: int| 0 <= i < values.len() implies time_kind_of(#[trigger] values[i])
            == Ok::<_, Seq<char>>(kind) by {
            if i > 0 {
                assert(values.drop_first()[i - 1] == values[i]);
            }
        }
        if let Some(value) = valid_from {
            assert(values[0] == value);
        }
        if let Some(value) = valid_to {
            assert(values[optional_seq(valid_from).len() as int] == value);
        }
        if let Some(value) = expired_at {
            assert(values.last() == value);
        }
    }
}

pub proof fn lemma_common_kind(values: Seq<Seq<char>>, kind: TimeKind)
    requires
        common_kind(values, kind) is Ok,
    ensures
        common_kind(values, kind) == Ok::<_, Seq<char>>(kind),
        forall|i: int|
            0 <= i < values.len() ==> time_kind_of(#[trigger] values[i]) == Ok::<_, Seq<char>>(kind),
    decreases values.len(),
{
    if values.len() > 0 {
        lemma_common_kind(values.drop_first(), kind);
        assert forall|i: int| 0 <= i < values.len() implies time_kind_of(#[trigger] values[i])
            == Ok::<_, Seq<char>>(kind) by {
            if i > 0 {
                assert(values.drop_first()[i - 1] == values[i]);
            }
        }
    }
}

/// A fact whose times fit together holds at its own start.
pub proof fn fact_holds_at_its_start(
    valid_from: Seq<char>,
    valid_to: Option<Seq<char>>,
    expired_at: Option<Seq<char>>,
    learned_at: Seq<char>,
)
    requires
        fact_time_kind(Some(valid_from), valid_to, expired_at, learned_at) is Ok,
    ensures
        ({
            let kind = fact_time_kind(Some(valid_from), valid_to, expired_at, learned_at)->Ok_0;
            holds_at(
                Some(valid_from),
                valid_to,
                expired_at,
                kind,
                seconds_of(valid_from, kind)->Ok_0,
            ) == Ok::<_, Seq<char>>(true)
        }),
{
    let kind = fact_time_kind(Some(valid_from), valid_to, expired_at, learned_at)->Ok_0;
    validity_is_half_open(
        Some(valid_from),
        valid_to,
        expired_at,
        learned_at,
        seconds_of(valid_from, kind)->Ok_0,
    );
}

} // verus!
