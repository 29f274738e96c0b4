//! Ending facts: rewriting the directives of a memory so that they expire.

use vstd::prelude::*;
use vstd::string::*;

use crate::clock::{
    self, days_before_month, days_before_year, epoch_days, is_date, iso_problem, iso_seconds,
    leap_year, month_length, TimeKind,
};
use crate::directive;
use crate::error::Error;
use crate::memory::{contains_text, Memory, MemoryView};
use crate::numeral::{all_digits, decimal_i64, digit_char, is_digit, number_of, signed_decimal};
use crate::semantic::{FactView, SemanticFact};
use crate::text;

verus! {

// Timestamps.

/// The date of a day, for the years that a timestamp can hold.
fn civil_from_days(days: i64) -> (date: Option<(u32, u32, u32)>)
    ensures
        match date {
            Some((year, month, day)) => {
                &&& 1 <= year <= 9999
                &&& is_date(year as int, month as int, day as int)
                &&& epoch_days(year as int, month as int, day as int) == days
            },
            None => days < epoch_days(1, 1, 1) || days >= epoch_days(10000, 1, 1),
        },
{
    if days < -719_162 || days >= 2_932_897 {
        assert(epoch_days(1, 1, 1) == -719_162);
        assert(epoch_days(10000, 1, 1) == 2_932_897);
        return None;
    }
    let mut rest: i64 = days + 719_162;
    let mut year: u32 = 1;
    assert(days_before_year(10000) == 2_932_897 + 719_162);
    loop
        invariant
            1 <= year <= 9999,
            0 <= rest,
            rest + days_before_year(year as int) == days + 719_162,
            days + 719_162 < days_before_year(10000),
        ensures
            1 <= year <= 9999,
            0 <= rest,
            rest + days_before_year(year as int) == days + 719_162,
            rest < 365 + (if leap_year(year as int) {
                1int
            } else {
                0int
            }),
        decreases 9999 - year,
    {
        let length: i64 = if clock::is_leap_year(year) {
            366
        } else {
            365
        };
        proof {
            clock::lemma_leap_step(year as int);
        }
        if rest < length {
            break;
        }
        assert(year < 9999) by {
            if year == 9999 {
                assert(days_before_year(10000) <= days + 719_162);
            }
        }
        rest = rest - length;
        year = year + 1;
    }
    let ghost day_of_year = rest;
    let mut month: u32 = 1;
    proof {
        reveal_with_fuel(days_before_month, 13);
    }
    loop
        invariant
            1 <= year <= 9999,
            1 <= month <= 12,
            0 <= rest,
            rest + days_before_month(year as int, month as int) == day_of_year,
            day_of_year < 365 + (if leap_year(year as int) {
                1int
            } else {
                0int
            }),
        ensures
            1 <= month <= 12,
            0 <= rest < month_length(year as int, month as int),
            rest + days_before_month(year as int, month as int) == day_of_year,
        decreases 12 - month,
    {
        let length: i64 = clock::days_in_month(year, month) as i64;
        if rest < length {
            break;
        }
        proof {
            reveal_with_fuel(days_before_month, 13);
        }
        assert(month < 12);
        rest = rest - length;
        month = month + 1;
    }
    Some((year, month, rest as u32 + 1))
}

fn push_two(stamp: &mut String, value: u32)
    requires
        value <= 99,
    ensures
        final(stamp)@ == old(stamp)@ + two_digits(value as int),
        two_digits(value as int).len() == 2,
{
    proof {
        reveal(two_digits);
    }
    stamp.push((48 + (value / 10) as u8) as char);
    stamp.push((48 + (value % 10) as u8) as char);
    assert(stamp@ =~= old(stamp)@ + two_digits(value as int));
}

#[verifier::opaque]
spec fn two_digits(value: int) -> Seq<char> {
    seq![digit_char(value / 10), digit_char(value % 10)]
}

proof fn lemma_two_digits(value: int)
    requires
        0 <= value <= 99,
    ensures
        all_digits(two_digits(value)),
        number_of(two_digits(value)) == value,
{
    reveal(two_digits);
    reveal_with_fuel(number_of, 3);
    assert(two_digits(value).drop_last() =~= seq![digit_char(value / 10)]);
    assert(seq![digit_char(value / 10)].drop_last() =~= seq![]);
}

proof fn lemma_four_digits(high: int, low: int)
    requires
        0 <= high <= 99,
        0 <= low <= 99,
    ensures
        all_digits(two_digits(high) + two_digits(low)),
        number_of(two_digits(high) + two_digits(low)) == 100 * high + low,
{
    reveal(two_digits);
    let all = two_digits(high) + two_digits(low);
    lemma_two_digits(high);
    lemma_two_digits(low);
    assert(all.drop_last().drop_last() =~= two_digits(high));
    reveal_with_fuel(number_of, 5);
    assert(two_digits(low).drop_last() =~= seq![digit_char(low / 10)]);
}

/// The timestamp of some unix seconds, where the calendar has one: the text that
/// is read back as those seconds.
pub fn iso_timestamp(seconds: i64) -> (stamp: Option<String>)
    ensures
        match stamp {
            Some(stamp) => {
                &&& stamp@.len() == 20
                &&& iso_problem(stamp@) is None
                &&& iso_seconds(stamp@) == seconds
            },
            None => seconds < 86_400 * epoch_days(1, 1, 1) || seconds >= 86_400 * epoch_days(
                10000,
                1,
                1,
            ),
        },
{
    let mut days: i64 = seconds / 86_400;
    let mut rest: i64 = seconds % 86_400;
    if rest < 0 {
        days = days - 1;
        rest = rest + 86_400;
    }
    assert(seconds == 86_400 * days + rest && 0 <= rest < 86_400);
    let (year, month, day) = match civil_from_days(days) {
        Some(date) => date,
        None => {
            return None;
        },
    };
    let hour: u32 = (rest / 3_600) as u32;
    let minute: u32 = (rest % 3_600 / 60) as u32;
    let second: u32 = (rest % 60) as u32;
    assert(rest == 3_600 * hour + 60 * minute + second && hour <= 23 && minute <= 59 && second
        <= 59);
    Some(write_stamp(year, month, day, hour, minute, second))
}

fn write_stamp(year: u32, month: u32, day: u32, hour: u32, minute: u32, second: u32) -> (
    stamp: String)
    requires
        1 <= year <= 9999,
        is_date(year as int, month as int, day as int),
        clock::is_clock_time(hour as int, minute as int, second as int),
    ensures
        stamp@.len() == 20,
        iso_problem(stamp@) is None,
        iso_seconds(stamp@) == 86_400 * epoch_days(year as int, month as int, day as int) + 3_600
            * hour + 60 * minute + second,
{
    let mut stamp = String::new();
    push_two(&mut stamp, year / 100);
    push_two(&mut stamp, year % 100);
    stamp.push('-');
    push_two(&mut stamp, month);
    stamp.push('-');
    push_two(&mut stamp, day);
    stamp.push('T');
    push_two(&mut stamp, hour);
    stamp.push(':');
    push_two(&mut stamp, minute);
    stamp.push(':');
    push_two(&mut stamp, second);
    stamp.push('Z');
    proof {
        let s = stamp@;
        let high = year as int / 100;
        let low = year as int % 100;
        assert(s.subrange(0, 4) =~= two_digits(high) + two_digits(low));
        assert(s.subrange(5, 7) =~= two_digits(month as int));
        assert(s.subrange(8, 10) =~= two_digits(day as int));
        assert(s.subrange(11, 13) =~= two_digits(hour as int));
        assert(s.subrange(14, 16) =~= two_digits(minute as int));
        assert(s.subrange(17, 19) =~= two_digits(second as int));
        lemma_four_digits(high, low);
        lemma_two_digits(month as int);
        lemma_two_digits(day as int);
        lemma_two_digits(hour as int);
        lemma_two_digits(minute as int);
        lemma_two_digits(second as int);
    }
    stamp
}

/// What a timestamp says lies in the years that it can hold.
proof fn lemma_stamp_has_date(stamp: Seq<char>, seconds: int)
    requires
        is_stamp(stamp, TimeKind::IsoDate, seconds),
    ensures
        has_date(seconds),
{
    let year = clock::number_at(stamp, 0, 4);
    let month = clock::number_at(stamp, 5, 7);
    let day = clock::number_at(stamp, 8, 10);
    lemma_number_bound(stamp.subrange(0, 4));
    lemma_number_bound(stamp.subrange(11, 13));
    lemma_number_bound(stamp.subrange(14, 16));
    lemma_number_bound(stamp.subrange(17, 19));
    if !(year == 1 && month == 1 && day == 1) {
        clock::later_dates_have_higher_days(1, 1, 1, year, month, day);
    }
    clock::later_dates_have_higher_days(year, month, day, 10000, 1, 1);
}

proof fn lemma_number_bound(digits: Seq<char>)
    requires
        all_digits(digits),
        digits.len() <= 4,
    ensures
        0 <= number_of(digits) <= 9999,
{
    reveal_with_fuel(number_of, 5);
    let n = digits.len();
    assert(n > 0 ==> is_digit(digits[n - 1]));
    assert(n > 1 ==> is_digit(digits[n - 2]));
    assert(n > 2 ==> is_digit(digits[n - 3]));
    assert(n > 3 ==> is_digit(digits[n - 4]));
}

// Directives.

/// Whether a segment of a directive is its expiration.
pub open spec fn is_expiration(segment: Seq<char>) -> bool {
    match directive::option_of(text::trimmed(segment)) {
        Ok((key, _)) => key == "expired_at"@,
        Err(_) => false,
    }
}

/// The segments without an expiration; the first three are no options.
pub open spec fn without_expiration(segments: Seq<Seq<char>>) -> Seq<Seq<char>>
    decreases segments.len(),
{
    if segments.len() == 0 {
        seq![]
    } else {
        let before = without_expiration(segments.drop_last());
        if segments.len() > 3 && is_expiration(segments.last()) {
            before
        } else {
            before.push(segments.last())
        }
    }
}

/// A directive that expires at a time.
pub open spec fn expired_directive(raw: Seq<char>, stamp: Seq<char>) -> Seq<char> {
    text::trimmed_end(text::joined(without_expiration(text::pieces(raw, '|')), "|"@))
        + " | expired_at="@ + stamp
}

fn expire_directive(raw: &str, stamp: &str) -> (result: String)
    ensures
        result@ == expired_directive(raw@, stamp@),
{
    let segments = text::split(raw, '|');
    let ghost all = segments.deep_view();
    let mut kept: Vec<&str> = Vec::new();
    let mut i: usize = 0;
    assert(all.take(0) =~= seq![]);
    assert(kept.deep_view() =~= seq![]);
    while i < segments.len()
        invariant
            i <= segments.len(),
            all == segments.deep_view(),
            kept.deep_view() == without_expiration(all.take(i as int)),
        decreases segments.len() - i,
    {
        assert(all.take(i + 1).drop_last() =~= all.take(i as int));
        assert(all.take(i + 1).last() == segments[i as int]@);
        let expiration = match directive::parse_option(text::trim(segments[i])) {
            Ok((key, _)) => text::same(key.as_str(), "expired_at"),
            Err(_) => false,
        };
        if !(i >= 3 && expiration) {
            let ghost before = kept.deep_view();
            kept.push(segments[i]);
            assert(kept.deep_view() =~= before.push(segments[i as int]@));
        }
        i = i + 1;
    }
    assert(all.take(i as int) =~= all);
    let joined = text::join_slices(&kept, "|");
    text::concat3(text::trim_end(joined.as_str()), " | expired_at=", stamp)
}

/// The position of the fact on a line, among those to be ended; the number of
/// facts if there is none.
pub open spec fn ended_fact(facts: Seq<FactView>, ids: Seq<Seq<char>>, line_number: nat) -> int
    decreases facts.len(),
{
    if facts.len() == 0 || (facts[0].line_number == line_number && ids.contains(facts[0].id)) {
        0
    } else {
        1 + ended_fact(facts.drop_first(), ids, line_number)
    }
}

fn find_ended(facts: &Vec<SemanticFact>, ids: &Vec<String>, line_number: usize) -> (at: usize)
    ensures
        at == ended_fact(facts.deep_view(), ids.deep_view(), line_number as nat),
        at <= facts.len(),
{
    let ghost all = facts.deep_view();
    let mut i: usize = 0;
    assert(all.skip(0) =~= all);
    while i < facts.len()
        invariant
            i <= facts.len(),
            all == facts.deep_view(),
            ended_fact(all, ids.deep_view(), line_number as nat) == i + ended_fact(
                all.skip(i as int),
                ids.deep_view(),
                line_number as nat,
            ),
        decreases facts.len() - i,
    {
        assert(all.skip(i as int)[0] == facts[i as int]@);
        if facts[i].line_number == line_number && contains_text(ids, facts[i].id.as_str()) {
            return i;
        }
        assert(all.skip(i as int).drop_first() =~= all.skip(i + 1));
        i = i + 1;
    }
    i
}

/// Whether a text gives the expiration in the way that a fact writes times.
pub open spec fn is_stamp(stamp: Seq<char>, kind: TimeKind, expiration: int) -> bool {
    match kind {
        TimeKind::Unix => stamp == signed_decimal(expiration),
        TimeKind::IsoDate => stamp.len() == 20 && iso_problem(stamp) is None && iso_seconds(stamp)
            == expiration,
    }
}

/// Whether a line of the new body is what the line of the old body comes to.
pub open spec fn is_expired_line(
    line: Seq<char>,
    old_line: Seq<char>,
    line_number: nat,
    facts: Seq<FactView>,
    ids: Seq<Seq<char>>,
    expiration: int,
) -> bool {
    let at = ended_fact(facts, ids, line_number);
    if at < facts.len() && "@fact "@.is_prefix_of(old_line) {
        exists|stamp: Seq<char>| #[trigger]
            is_stamp(stamp, facts[at].time_kind, expiration) && line == "@fact "@
                + expired_directive(old_line.skip(6), stamp)
    } else {
        line == old_line
    }
}

/// Whether some fact has that identifier.
pub open spec fn is_known(facts: Seq<FactView>, id: Seq<char>) -> bool {
    exists|k: int| 0 <= k < facts.len() && (#[trigger] facts[k]).id == id
}

/// How many of the first identifiers belong to facts.
pub open spec fn known_ids(facts: Seq<FactView>, ids: Seq<Seq<char>>) -> int
    decreases ids.len(),
{
    if ids.len() == 0 || !is_known(facts, ids[0]) {
        0
    } else {
        1 + known_ids(facts, ids.drop_first())
    }
}

/// Whether a line states a fact that is to be ended and writes its times as
/// dates.
pub open spec fn needs_date(
    line: Seq<char>,
    line_number: nat,
    facts: Seq<FactView>,
    ids: Seq<Seq<char>>,
) -> bool {
    let at = ended_fact(facts, ids, line_number);
    at < facts.len() && "@fact "@.is_prefix_of(line) && facts[at].time_kind == TimeKind::IsoDate
}

/// Whether some line needs a date.
pub open spec fn some_need_date(
    lines: Seq<Seq<char>>,
    facts: Seq<FactView>,
    ids: Seq<Seq<char>>,
) -> bool {
    exists|i: int|
        0 <= i < lines.len() && needs_date(#[trigger] lines[i], (i + 1) as nat, facts, ids)
}

/// Whether the calendar has a date for the time.
pub open spec fn has_date(seconds: int) -> bool {
    86_400 * epoch_days(1, 1, 1) <= seconds < 86_400 * epoch_days(10000, 1, 1)
}

fn has_fact(facts: &Vec<SemanticFact>, id: &str) -> (found: bool)
    ensures
        found == is_known(facts.deep_view(), id@),
{
    let ghost all = facts.deep_view();
    let mut i: usize = 0;
    while i < facts.len()
        invariant
            i <= facts.len(),
            all == facts.deep_view(),
            forall|k: int| 0 <= k < i ==> (#[trigger] all[k]).id != id@,
        decreases facts.len() - i,
    {
        assert(all[i as int] == facts[i as int]@);
        if text::same(facts[i].id.as_str(), id) {
            return true;
        }
        i = i + 1;
    }
    false
}

/// Whether that is the body of a memory with some of its facts ended at a time;
/// or what is said where a fact is not stated by the memory, or where the time
/// has no date and one is needed.
pub open spec fn is_expired_body(
    memory: MemoryView,
    facts: Seq<FactView>,
    ids: Seq<Seq<char>>,
    expiration: int,
    body: Result<Seq<char>, Seq<char>>,
) -> bool {
    let old_lines = text::line_seq(memory.body);
    let known = known_ids(facts, ids);
    match body {
        Ok(body) => {
            &&& known == ids.len()
            &&& exists|lines: Seq<Seq<char>>|
                {
                    &&& body == #[trigger] text::joined(lines, "\n"@)
                    &&& lines.len() == old_lines.len()
                    &&& forall|i: int|
                        0 <= i < lines.len() ==> is_expired_line(
                            #[trigger] lines[i],
                            old_lines[i],
                            (i + 1) as nat,
                            facts,
                            ids,
                            expiration,
                        )
                }
            &&& has_date(expiration) || !some_need_date(old_lines, facts, ids)
        },
        Err(message) => if known < ids.len() {
            message == "semantic fact "@ + ids[known] + " is not stated by memory "@
                + memory.metadata.id
        } else {
            &&& !has_date(expiration)
            &&& some_need_date(old_lines, facts, ids)
            &&& message == "conflict expiration time "@ + signed_decimal(expiration)
                + " has no calendar date"@
        },
    }
}

/// The body of a memory with some of its facts ended at a time. The lines of the
/// other facts, and everything else, stay as they are.
#[verifier::loop_isolation(false)]
pub fn expire_facts(memory: &Memory, facts: &Vec<SemanticFact>, ids: &Vec<String>, expiration: i64) -> (
    body: Result<String, Error>)
    ensures
        is_expired_body(
            memory@,
            facts.deep_view(),
            ids.deep_view(),
            expiration as int,
            match body {
                Ok(body) => Ok(body@),
                Err(error) => Err(error@),
            },
        ),
{
    let ghost all = facts.deep_view();
    let ghost wanted = ids.deep_view();
    let mut k: usize = 0;
    assert(wanted.skip(0) =~= wanted);
    while k < ids.len()
        invariant
            k <= ids.len(),
            known_ids(all, wanted) == k + known_ids(all, wanted.skip(k as int)),
        decreases ids.len() - k,
    {
        assert(wanted.skip(k as int)[0] == ids[k as int]@);
        if !has_fact(facts, ids[k].as_str()) {
            return Err(
                Error::new(
                    text::concat4(
                        "semantic fact ",
                        ids[k].as_str(),
                        " is not stated by memory ",
                        memory.metadata.id.as_str(),
                    ),
                ),
            );
        }
        assert(wanted.skip(k as int).drop_first() =~= wanted.skip(k + 1));
        k = k + 1;
    }
    assert(wanted.skip(k as int) =~= seq![]);
    assert(known_ids(all, wanted) == wanted.len());
    let lines = text::lines(memory.body.as_str());
    let ghost old_lines = lines.deep_view();
    let mut new_lines: Vec<String> = Vec::new();
    let mut i: usize = 0;
    proof {
        reveal_strlit("@fact ");
        assert("@fact "@.len() == 6);
    }
    while i < lines.len()
        invariant
            i <= lines.len(),
            new_lines.len() == i,
            has_date(expiration as int) || forall|n: int|
                0 <= n < i ==> !needs_date(#[trigger] old_lines[n], (n + 1) as nat, all, wanted),
            forall|n: int|
                0 <= n < i ==> is_expired_line(
                    #[trigger] new_lines.deep_view()[n],
                    old_lines[n],
                    (n + 1) as nat,
                    facts.deep_view(),
                    ids.deep_view(),
                    expiration as int,
                ),
        decreases lines.len() - i,
    {
        let line = lines[i];
        assert(old_lines[i as int] == line@);
        let at = find_ended(facts, ids, i + 1);
        let mut new_line = line.to_owned();
        if at < facts.len() {
            if let Some(raw) = text::strip_prefix(line, "@fact ") {
                let kind = facts[at].time_kind;
                assert(facts.deep_view()[at as int] == facts[at as int]@);
                let stamp = match kind {
                    TimeKind::Unix => decimal_i64(expiration),
                    TimeKind::IsoDate => match iso_timestamp(expiration) {
                        Some(stamp) => stamp,
                        None => {
                            let message = text::concat3(
                                "conflict expiration time ",
                                decimal_i64(expiration).as_str(),
                                " has no calendar date",
                            );
                            assert(!has_date(expiration as int));
                            assert(needs_date(old_lines[i as int], (i + 1) as nat, all, wanted));
                            assert(some_need_date(old_lines, all, wanted));
                            return Err(Error::new(message));
                        },
                    },
                };
                assert(is_stamp(stamp@, kind, expiration as int));
                proof {
                    if kind == TimeKind::IsoDate {
                        lemma_stamp_has_date(stamp@, expiration as int);
                    }
                }
                new_line =
                text::concat2("@fact ", expire_directive(raw, stamp.as_str()).as_str());
            }
        }
        let ghost before = new_lines.deep_view();
        let ghost added = new_line@;
        assert(is_expired_line(
            added,
            old_lines[i as int],
            (i + 1) as nat,
            facts.deep_view(),
            ids.deep_view(),
            expiration as int,
        ));
        new_lines.push(new_line);
        assert(new_lines.deep_view() =~= before.push(added));
        i = i + 1;
    }
    let body = text::join(&new_lines, "\n");
    assert(body@ == text::joined(new_lines.deep_view(), "\n"@));
    Ok(body)
}

} // verus!
