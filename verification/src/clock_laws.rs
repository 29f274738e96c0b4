//! ISO times stand in the order of their instants.

use vstd::prelude::*;

use crate::clock::{
    date_is_its_midnight, epoch_days, instant_of, is_unix_literal, iso_problem, iso_seconds,
    later_dates_have_higher_days, number_at,
};
use crate::numeral::{all_digits, digit_value, is_digit, number_of};
use crate::order::{text_less, text_less_is_irreflexive, text_less_is_total};

verus! {

/// Where two texts of one length differ first.
proof fn lemma_first_difference(left: Seq<char>, right: Seq<char>) -> (n: int)
    requires
        left.len() == right.len(),
        text_less(left, right),
    ensures
        0 <= n < left.len(),
        left[n] < right[n],
        forall|i: int| 0 <= i < n ==> left[i] == right[i],
    decreases left.len(),
{
    if left[0] != right[0] {
        0
    } else {
        let rest = left.drop_first();
        let other = right.drop_first();
        let n = lemma_first_difference(rest, other);
        assert forall|i: int| 0 <= i < n + 1 implies left[i] == right[i] by {
            if i > 0 {
                assert(rest[i - 1] == other[i - 1]);
            }
        }
        assert(left[n + 1] == rest[n] && right[n + 1] == other[n]);
        n + 1
    }
}

proof fn lemma_two_digits(value: Seq<char>, start: int)
    requires
        0 <= start <= value.len() - 2,
        all_digits(value.subrange(start, start + 2)),
    ensures
        is_digit(value[start]) && is_digit(value[start + 1]),
        number_at(value, start, start + 2) == 10 * digit_value(value[start]) + digit_value(
            value[start + 1],
        ),
{
    reveal_with_fuel(number_of, 3);
    let digits = value.subrange(start, start + 2);
    assert(digits[0] == value[start] && digits[1] == value[start + 1]);
    assert(digits.drop_last().drop_last() =~= seq![]);
}

proof fn lemma_four_digits(value: Seq<char>)
    requires
        value.len() >= 4,
        all_digits(value.subrange(0, 4)),
    ensures
        forall|i: int| 0 <= i < 4 ==> is_digit(#[trigger] value[i]),
        number_at(value, 0, 4) == 1000 * digit_value(value[0]) + 100 * digit_value(value[1]) + 10
            * digit_value(value[2]) + digit_value(value[3]),
{
    reveal_with_fuel(number_of, 5);
    let digits = value.subrange(0, 4);
    assert forall|i: int| 0 <= i < 4 implies digits[i] == value[i] by {}
    assert forall|i: int| 0 <= i < 4 implies is_digit(#[trigger] value[i]) by {
        assert(is_digit(digits[i]));
    }
    assert(digits.drop_last().drop_last().drop_last().drop_last() =~= seq![]);
}

proof fn lemma_date_order(left: Seq<char>, right: Seq<char>, n: int)
    requires
        iso_problem(left) is None,
        iso_problem(right) is None,
        0 <= n < 10,
        left[n] < right[n],
        forall|i: int| 0 <= i < n ==> left[i] == right[i],
    ensures
        epoch_days(number_at(left, 0, 4), number_at(left, 5, 7), number_at(left, 8, 10))
            < epoch_days(number_at(right, 0, 4), number_at(right, 5, 7), number_at(right, 8, 10)),
{
    lemma_four_digits(left);
    lemma_four_digits(right);
    lemma_two_digits(left, 5);
    lemma_two_digits(right, 5);
    lemma_two_digits(left, 8);
    lemma_two_digits(right, 8);
    later_dates_have_higher_days(
        number_at(left, 0, 4),
        number_at(left, 5, 7),
        number_at(left, 8, 10),
        number_at(right, 0, 4),
        number_at(right, 5, 7),
        number_at(right, 8, 10),
    );
}

/// The seconds from midnight to the time of a timestamp.
spec fn clock_seconds(value: Seq<char>) -> int {
    3_600 * number_at(value, 11, 13) + 60 * number_at(value, 14, 16) + number_at(value, 17, 19)
}

proof fn lemma_clock_range(value: Seq<char>)
    requires
        iso_problem(value) is None,
        value.len() == 20,
    ensures
        0 <= clock_seconds(value) < 86_400,
{
    lemma_two_digits(value, 11);
    lemma_two_digits(value, 14);
    lemma_two_digits(value, 17);
}

proof fn lemma_clock_order(left: Seq<char>, right: Seq<char>, n: int)
    requires
        iso_problem(left) is None,
        iso_problem(right) is None,
        left.len() == 20,
        right.len() == 20,
        10 <= n < 20,
        left[n] < right[n],
        forall|i: int| 0 <= i < n ==> left[i] == right[i],
    ensures
        clock_seconds(left) < clock_seconds(right),
        left.take(10) == right.take(10),
{
    lemma_two_digits(left, 11);
    lemma_two_digits(right, 11);
    lemma_two_digits(left, 14);
    lemma_two_digits(right, 14);
    lemma_two_digits(left, 17);
    lemma_two_digits(right, 17);
    assert(left.take(10) =~= right.take(10));
}

proof fn lemma_order(left: Seq<char>, right: Seq<char>)
    requires
        iso_problem(left) is None,
        iso_problem(right) is None,
        left.len() == right.len(),
        text_less(left, right),
    ensures
        iso_seconds(left) < iso_seconds(right),
{
    let n = lemma_first_difference(left, right);
    if left.len() == 20 {
        lemma_clock_range(left);
        lemma_clock_range(right);
    }
    if n < 10 {
        lemma_date_order(left, right, n);
    } else {
        lemma_clock_order(left, right, n);
        assert(left.subrange(0, 4) =~= right.subrange(0, 4)) by {
            assert(left.subrange(0, 4) =~= left.take(10).subrange(0, 4));
            assert(right.subrange(0, 4) =~= right.take(10).subrange(0, 4));
        }
        assert(left.subrange(5, 7) =~= right.subrange(5, 7)) by {
            assert(left.subrange(5, 7) =~= left.take(10).subrange(5, 7));
            assert(right.subrange(5, 7) =~= right.take(10).subrange(5, 7));
        }
        assert(left.subrange(8, 10) =~= right.subrange(8, 10)) by {
            assert(left.subrange(8, 10) =~= left.take(10).subrange(8, 10));
            assert(right.subrange(8, 10) =~= right.take(10).subrange(8, 10));
        }
    }
}

/// An ISO time is no unix time, so its instant is the one that it names.
proof fn lemma_instant(value: Seq<char>)
    requires
        iso_problem(value) is None,
    ensures
        instant_of(value) == Ok::<_, Seq<char>>(iso_seconds(value)),
{
    assert(!is_unix_literal(value)) by {
        if is_unix_literal(value) {
            if value[0] == '-' {
                assert(value.skip(1)[3] == value[4]);
            } else {
                assert(is_digit(value[4]));
            }
        }
    }
}

/// Two times of one form, both dates or both timestamps, stand in the order of
/// their instants: one is before the other if and only if its text is.
pub proof fn texts_stand_in_order(left: Seq<char>, right: Seq<char>)
    requires
        iso_problem(left) is None,
        iso_problem(right) is None,
        left.len() == right.len(),
    ensures
        instant_of(left) == Ok::<_, Seq<char>>(iso_seconds(left)),
        instant_of(right) == Ok::<_, Seq<char>>(iso_seconds(right)),
        iso_seconds(left) < iso_seconds(right) <==> text_less(left, right),
        iso_seconds(left) == iso_seconds(right) <==> left == right,
{
    lemma_instant(left);
    lemma_instant(right);
    text_less_is_total(left, right);
    text_less_is_irreflexive(left);
    if text_less(left, right) {
        lemma_order(left, right);
    }
    if text_less(right, left) {
        lemma_order(right, left);
    }
}

proof fn lemma_whole_days(date: Seq<char>)
    requires
        date.len() == 10,
    ensures
        iso_seconds(date) % 86_400 == 0,
{
    let days = epoch_days(number_at(date, 0, 4), number_at(date, 5, 7), number_at(date, 8, 10));
    assert(iso_seconds(date) == 86_400 * days);
    assert((86_400 * days) % 86_400 == 0);
}

/// A date is the midnight that begins it, a whole number of days from the first
/// of January 1970.
#[verifier::spinoff_prover]
pub proof fn dates_are_whole_days(date: Seq<char>)
    requires
        date.len() == 10,
        iso_problem(date) is None,
    ensures
        instant_of(date) == Ok::<_, Seq<char>>(iso_seconds(date)),
        instant_of(date + "T00:00:00Z"@) == instant_of(date),
        iso_seconds(date) % 86_400 == 0,
{
    let stamp = date + "T00:00:00Z"@;
    assert(iso_problem(stamp) is None && iso_seconds(stamp) == iso_seconds(date)) by {
        date_is_its_midnight(date);
    }
    lemma_instant(date);
    lemma_instant(stamp);
    lemma_whole_days(date);
}

} // verus!
