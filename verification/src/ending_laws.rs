//! Ending facts in a memory ends these facts, and changes no other.

use vstd::prelude::*;

use crate::clock::{
    fact_time_kind, has_iso_shape, is_unix_literal, lemma_common_kind, present_times, time_kind_of,
    TimeKind,
};
use crate::directive::Reading;
use crate::expiry::{
    ended_fact, expired_directive, is_expired_body, is_expired_line, is_stamp, without_expiration,
};
use crate::expiry_laws::{ended_directive_reads_back, is_plain, stamps_are_plain};
use crate::memory::{MemoryView, MetadataView};
use crate::numeral::{decimal, decimal_reads_back, is_digit, signed_decimal_reads_back};
use crate::semantic::{
    extraction_of, fact_lines, fence_of, opened_fence, read_fact, read_facts, run_length,
    scan_line, scan_state, FactView, ScanState,
};
use crate::text::{
    index_of, is_space, joined, lemma_index_of, line_seq, occurs, pieces, trimmed_end,
};
use crate::text_laws::{is_line, joined_lines_read_back};

verus! {

// What a directive does not gain by being ended: the start of a comment, or a
// line feed.

spec fn is_mark(text: Seq<char>, i: int) -> bool {
    &&& 0 <= i && i + 4 <= text.len()
    &&& text[i] == '<' && text[i + 1] == '!' && text[i + 2] == '-' && text[i + 3] == '-'
}

spec fn has_mark(text: Seq<char>) -> bool {
    exists|i: int| is_mark(text, i)
}

proof fn lemma_mark_occurs(text: Seq<char>)
    ensures
        occurs(text, "<!--"@) == has_mark(text),
{
    reveal_strlit("<!--");
    let mark = "<!--"@;
    if occurs(text, mark) {
        let i = choose|i: int| 0 <= i <= text.len() && #[trigger] mark.is_prefix_of(text.skip(i));
        assert(text.skip(i).len() >= 4);
        assert(text.skip(i)[0] == mark[0] && text.skip(i)[1] == mark[1]);
        assert(text.skip(i)[2] == mark[2] && text.skip(i)[3] == mark[3]);
        assert(is_mark(text, i));
    }
    if has_mark(text) {
        let i = choose|i: int| is_mark(text, i);
        assert(mark =~= text.skip(i).take(4));
        assert(mark.is_prefix_of(text.skip(i)));
    }
}

proof fn lemma_mark_beside_bar(left: Seq<char>, right: Seq<char>)
    requires
        has_mark(left + seq!['|'] + right),
    ensures
        has_mark(left) || has_mark(right),
{
    let whole = left + seq!['|'] + right;
    let i = choose|i: int| is_mark(whole, i);
    let n = left.len() as int;
    assert(whole[n] == '|');
    if i + 4 <= n {
        assert(is_mark(left, i));
    } else if i > n {
        assert(is_mark(right, i - n - 1));
    } else {
        assert(i <= n < i + 4);
    }
}

/// Whether some of the parts has a mark or holds a character.
spec fn some_part(parts: Seq<Seq<char>>, c: char) -> bool {
    exists|j: int| 0 <= j < parts.len() && (has_mark(#[trigger] parts[j]) || parts[j].contains(c))
}

/// What is in joined parts is in one of them.
proof fn lemma_in_joined(parts: Seq<Seq<char>>, c: char)
    requires
        has_mark(joined(parts, seq!['|'])) || joined(parts, seq!['|']).contains(c),
        c != '|',
    ensures
        some_part(parts, c),
    decreases parts.len(),
{
    let whole = joined(parts, seq!['|']);
    if parts.len() == 1 {
        assert(parts[0] == whole);
    } else if parts.len() > 1 {
        let rest = parts.drop_last();
        let head = joined(rest, seq!['|']);
        let last = parts.last();
        assert(parts[parts.len() - 1] == last);
        if has_mark(whole) {
            lemma_mark_beside_bar(head, last);
        } else {
            let k = choose|k: int| 0 <= k < whole.len() && whole[k] == c;
            if k < head.len() {
                assert(head[k] == c);
            } else {
                assert(k > head.len());
                assert(last[k - head.len() - 1] == c);
            }
        }
        if has_mark(head) || head.contains(c) {
            lemma_in_joined(rest, c);
            let j = choose|j: int|
                0 <= j < rest.len() && (has_mark(#[trigger] rest[j]) || rest[j].contains(c));
            assert(parts[j] == rest[j]);
        }
    } else {
        assert(whole =~= seq![]);
    }
}

/// What is in one of the pieces is in the whole.
proof fn lemma_in_pieces(value: Seq<char>, c: char)
    requires
        some_part(pieces(value, '|'), c),
    ensures
        has_mark(value) || value.contains(c),
    decreases value.len(),
{
    let parts = pieces(value, '|');
    lemma_index_of(value, '|');
    let n = index_of(value, '|');
    let j = choose|j: int|
        0 <= j < parts.len() && (has_mark(#[trigger] parts[j]) || parts[j].contains(c));
    if n < value.len() {
        let rest = value.skip(n + 1);
        if j == 0 {
            let head = value.take(n);
            assert(parts[0] == head);
            if has_mark(head) {
                let i = choose|i: int| is_mark(head, i);
                assert(is_mark(value, i));
            } else {
                let k = choose|k: int| 0 <= k < head.len() && head[k] == c;
                assert(value[k] == c);
            }
        } else {
            assert(pieces(rest, '|')[j - 1] == parts[j]);
            lemma_in_pieces(rest, c);
            if has_mark(rest) {
                let i = choose|i: int| is_mark(rest, i);
                assert(is_mark(value, i + n + 1));
            } else {
                let k = choose|k: int| 0 <= k < rest.len() && rest[k] == c;
                assert(value[k + n + 1] == c);
            }
        }
    } else {
        assert(parts[0] == value);
    }
}

proof fn lemma_kept_are_segments(segments: Seq<Seq<char>>)
    ensures
        forall|j: int|
            0 <= j < without_expiration(segments).len() ==> segments.contains(
                #[trigger] without_expiration(segments)[j],
            ),
    decreases segments.len(),
{
    if segments.len() > 0 {
        let rest = segments.drop_last();
        lemma_kept_are_segments(rest);
        let kept = without_expiration(segments);
        let before = without_expiration(rest);
        assert forall|j: int| 0 <= j < kept.len() implies segments.contains(#[trigger] kept[j]) by {
            if j < before.len() {
                assert(kept[j] == before[j]);
                assert(rest.contains(before[j]));
                let k = choose|k: int| 0 <= k < rest.len() && rest[k] == before[j];
                assert(segments[k] == kept[j]);
            } else {
                assert(segments[segments.len() - 1] == kept[j]);
            }
        }
    }
}

proof fn lemma_trimmed_end_is_prefix(value: Seq<char>)
    ensures
        trimmed_end(value).len() <= value.len(),
        trimmed_end(value) == value.take(trimmed_end(value).len() as int),
    decreases value.len(),
{
    if value.len() > 0 && is_space(value.last()) {
        let rest = value.drop_last();
        lemma_trimmed_end_is_prefix(rest);
        assert(rest.take(trimmed_end(rest).len() as int) =~= value.take(
            trimmed_end(rest).len() as int,
        ));
    } else {
        assert(value.take(value.len() as int) =~= value);
    }
}

/// A stamp cannot begin a comment.
proof fn lemma_stamp_has_no_angle(stamp: Seq<char>, kind: TimeKind, expiration: int)
    requires
        is_stamp(stamp, kind, expiration),
    ensures
        !stamp.contains('<'),
{
    if stamp.contains('<') {
        let i = choose|i: int| 0 <= i < stamp.len() && stamp[i] == '<';
        match kind {
            TimeKind::Unix => {
                if expiration < 0 {
                    let digits = decimal((-expiration) as nat);
                    decimal_reads_back((-expiration) as nat);
                    assert(i > 0);
                    assert(stamp[i] == digits[i - 1]);
                    assert(is_digit(digits[i - 1]));
                } else {
                    decimal_reads_back(expiration as nat);
                    assert(is_digit(stamp[i]));
                }
            },
            TimeKind::IsoDate => {
                assert(has_iso_shape(stamp));
                if i < 4 {
                    assert(is_digit(stamp.subrange(0, 4)[i]));
                } else if 5 <= i < 7 {
                    assert(is_digit(stamp.subrange(5, 7)[i - 5]));
                } else if 8 <= i < 10 {
                    assert(is_digit(stamp.subrange(8, 10)[i - 8]));
                } else if 11 <= i < 13 {
                    assert(is_digit(stamp.subrange(11, 13)[i - 11]));
                } else if 14 <= i < 16 {
                    assert(is_digit(stamp.subrange(14, 16)[i - 14]));
                } else if 17 <= i < 19 {
                    assert(is_digit(stamp.subrange(17, 19)[i - 17]));
                }
            },
        }
    }
}

/// The line of an ended directive is a line, and begins no comment.
proof fn lemma_ended_line(raw: Seq<char>, stamp: Seq<char>)
    requires
        !has_mark(raw),
        !raw.contains('\n'),
        is_plain(stamp),
        !stamp.contains('<'),
    ensures
        is_line("@fact "@ + expired_directive(raw, stamp)),
        !has_mark("@fact "@ + expired_directive(raw, stamp)),
        ("@fact "@ + expired_directive(raw, stamp)).len() > 0,
{
    reveal_strlit("@fact ");
    reveal_strlit(" | expired_at=");
    reveal_strlit("|");
    assert("|"@ =~= seq!['|']);
    let parts = pieces(raw, '|');
    let kept = without_expiration(parts);
    let whole = joined(kept, seq!['|']);
    let inner = trimmed_end(whole);
    let end = " | expired_at="@ + stamp;
    let line = "@fact "@ + expired_directive(raw, stamp);
    assert(line =~= "@fact "@ + inner + end);
    lemma_trimmed_end_is_prefix(whole);
    lemma_kept_are_segments(parts);
    if has_mark(whole) || whole.contains('\n') {
        lemma_in_joined(kept, '\n');
        let j = choose|j: int|
            0 <= j < kept.len() && (has_mark(#[trigger] kept[j]) || kept[j].contains('\n'));
        assert(parts.contains(kept[j]));
        let k = choose|k: int| 0 <= k < parts.len() && parts[k] == kept[j];
        assert(some_part(parts, '\n'));
        lemma_in_pieces(raw, '\n');
    }
    let n = 6 + inner.len() as int;
    assert forall|i: int| n <= i < line.len() implies line[i] != '<' && line[i] != '\n' by {
        if i < n + 14 {
            assert(line[i] == " | expired_at="@[i - n]);
        } else {
            assert(line[i] == stamp[i - n - 14]);
            assert(stamp.contains(stamp[i - n - 14]));
            assert(!is_space(stamp[i - n - 14]));
        }
    }
    assert(line[n] == ' ');
    if has_mark(line) {
        let i = choose|i: int| is_mark(line, i);
        assert(i >= 6);
        assert(i < n);
        if i + 4 <= n {
            assert(inner[i - 6] == whole[i - 6] && inner[i - 5] == whole[i - 5]);
            assert(inner[i - 4] == whole[i - 4] && inner[i - 3] == whole[i - 3]);
            assert(is_mark(whole, i - 6));
        } else {
            assert(i < n < i + 4);
        }
    }
    if line.contains('\n') {
        let k = choose|k: int| 0 <= k < line.len() && line[k] == '\n';
        assert(6 <= k < n);
        assert(whole[k - 6] == '\n');
        assert(whole.contains('\n'));
    }
    assert(line.last() == stamp[stamp.len() - 1]);
    assert(!is_space(stamp[stamp.len() - 1]));
}

// Scanning.

/// Where a directive counts, another in its place counts too.
proof fn lemma_scan_ended(state: ScanState, line: Seq<char>, raw: Seq<char>)
    requires
        scan_line(state, line).1 is Some,
        !has_mark("@fact "@ + raw),
    ensures
        scan_line(state, line).0 == state,
        scan_line(state, "@fact "@ + raw) == (state, Some(raw)),
{
    reveal_strlit("@fact ");
    let new = "@fact "@ + raw;
    lemma_mark_occurs(new);
    assert(new[0] == '@');
    assert(run_length(new, ' ') == 0);
    assert(new.skip(0) =~= new);
    assert(fence_of(new) is None);
    assert(opened_fence(new) is None);
    assert("@fact "@ =~= new.take(6));
    assert(new.skip(6) =~= raw);
}

/// The directives that count stand on different lines, and which lines they are
/// the scan says.
proof fn lemma_fact_lines(lines: Seq<Seq<char>>)
    ensures
        forall|k: int|
            0 <= k < fact_lines(lines).len() ==> 1 <= (#[trigger] fact_lines(lines)[k]).0
                <= lines.len() && scan_line(
                scan_state(lines.take(fact_lines(lines)[k].0 - 1)),
                lines[fact_lines(lines)[k].0 - 1],
            ).1 == Some(fact_lines(lines)[k].1),
        forall|j: int, k: int|
            0 <= j < k < fact_lines(lines).len() ==> (#[trigger] fact_lines(lines)[j]).0 < (
            #[trigger] fact_lines(lines)[k]).0,
    decreases lines.len(),
{
    if lines.len() > 0 {
        let rest = lines.drop_last();
        lemma_fact_lines(rest);
        let before = fact_lines(rest);
        let all = fact_lines(lines);
        assert forall|k: int| 0 <= k < all.len() implies 1 <= (#[trigger] all[k]).0 <= lines.len()
            && scan_line(scan_state(lines.take(all[k].0 - 1)), lines[all[k].0 - 1]).1 == Some(
            all[k].1,
        ) by {
            if k < before.len() {
                assert(all[k] == before[k]);
                let n = before[k].0;
                assert(rest.take(n - 1) =~= lines.take(n - 1));
                assert(rest[n - 1] == lines[n - 1]);
            } else {
                assert(lines.take(lines.len() - 1) =~= rest);
            }
        }
        assert forall|j: int, k: int| 0 <= j < k < all.len() implies (#[trigger] all[j]).0 < (
        #[trigger] all[k]).0 by {
            assert(all[j] == before[j]);
            if k < before.len() {
                assert(all[k] == before[k]);
            }
        }
    }
}

/// What a directive comes to when some facts are ended.
spec fn is_ended_raw(
    raw: Seq<char>,
    old_raw: Seq<char>,
    line_number: nat,
    facts: Seq<FactView>,
    ids: Seq<Seq<char>>,
    expiration: int,
) -> bool {
    let at = ended_fact(facts, ids, line_number);
    if at < facts.len() {
        exists|stamp: Seq<char>| #[trigger]
            is_stamp(stamp, facts[at].time_kind, expiration) && raw == expired_directive(
                old_raw,
                stamp,
            )
    } else {
        raw == old_raw
    }
}

proof fn lemma_ended_fact(facts: Seq<FactView>, ids: Seq<Seq<char>>, line_number: nat)
    ensures
        0 <= ended_fact(facts, ids, line_number) <= facts.len(),
        ended_fact(facts, ids, line_number) < facts.len() ==> facts[ended_fact(
            facts,
            ids,
            line_number,
        )].line_number == line_number && ids.contains(
            facts[ended_fact(facts, ids, line_number)].id,
        ),
        forall|k: int|
            0 <= k < facts.len() && (#[trigger] facts[k]).line_number == line_number
                && ids.contains(facts[k].id) ==> ended_fact(facts, ids, line_number)
                < facts.len(),
    decreases facts.len(),
{
    if facts.len() > 0 && !(facts[0].line_number == line_number && ids.contains(facts[0].id)) {
        let rest = facts.drop_first();
        lemma_ended_fact(rest, ids, line_number);
        let at = ended_fact(rest, ids, line_number);
        if at < rest.len() {
            assert(facts[at + 1] == rest[at]);
        }
        assert forall|k: int|
            0 <= k < facts.len() && (#[trigger] facts[k]).line_number == line_number
                && ids.contains(facts[k].id) implies ended_fact(facts, ids, line_number)
            < facts.len() by {
            assert(k > 0);
            assert(rest[k - 1] == facts[k]);
        }
    }
}

/// Whether the facts stand on the lines of the directives that count.
spec fn stand_on(facts: Seq<FactView>, found: Seq<(nat, Seq<char>)>) -> bool {
    &&& facts.len() == found.len()
    &&& forall|k: int|
        0 <= k < facts.len() ==> (#[trigger] facts[k]).line_number == found[k].0
}

/// Whether new lines are what old ones come to.
spec fn are_ended_lines(
    lines: Seq<Seq<char>>,
    old_lines: Seq<Seq<char>>,
    facts: Seq<FactView>,
    ids: Seq<Seq<char>>,
    expiration: int,
) -> bool {
    &&& lines.len() == old_lines.len()
    &&& forall|i: int|
        0 <= i < lines.len() ==> is_expired_line(
            #[trigger] lines[i],
            old_lines[i],
            (i + 1) as nat,
            facts,
            ids,
            expiration,
        )
}

/// How one line of the new body relates to that of the old one.
proof fn lemma_one_line(
    lines: Seq<Seq<char>>,
    old_lines: Seq<Seq<char>>,
    facts: Seq<FactView>,
    ids: Seq<Seq<char>>,
    expiration: int,
    i: int,
)
    requires
        are_ended_lines(lines, old_lines, facts, ids, expiration),
        stand_on(facts, fact_lines(old_lines)),
        0 <= i < lines.len(),
        is_line(old_lines[i]),
    ensures
        ({
            let state = scan_state(old_lines.take(i));
            let (old_next, old_raw) = scan_line(state, old_lines[i]);
            let (next, raw) = scan_line(state, lines[i]);
            &&& next == old_next
            &&& raw is Some <==> old_raw is Some
            &&& raw is Some ==> is_ended_raw(
                raw->Some_0,
                old_raw->Some_0,
                (i + 1) as nat,
                facts,
                ids,
                expiration,
            )
            &&& is_line(lines[i])
            &&& lines[i].len() > 0 || old_lines[i].len() == 0
        }),
{
    let n = (i + 1) as nat;
    let state = scan_state(old_lines.take(i));
    let found = fact_lines(old_lines);
    let at = ended_fact(facts, ids, n);
    assert(is_expired_line(lines[i], old_lines[i], n, facts, ids, expiration));
    lemma_ended_fact(facts, ids, n);
    lemma_fact_lines(old_lines);
    if at < facts.len() {
        assert(facts[at].line_number == found[at].0);
        assert(found[at].0 == n);
        let old_raw = found[at].1;
        assert(scan_line(state, old_lines[i]).1 == Some(old_raw));
        reveal_strlit("@fact ");
        let stamp = choose|stamp: Seq<char>| #[trigger]
            is_stamp(stamp, facts[at].time_kind, expiration) && lines[i] == "@fact "@
                + expired_directive(old_lines[i].skip(6), stamp);
        assert(old_lines[i].skip(6) == old_raw);
        lemma_mark_occurs(old_lines[i]);
        if has_mark(old_raw) {
            let k = choose|k: int| is_mark(old_raw, k);
            assert(is_mark(old_lines[i], k + 6));
        }
        if old_raw.contains('\n') {
            let k = choose|k: int| 0 <= k < old_raw.len() && old_raw[k] == '\n';
            assert(old_lines[i][k + 6] == '\n');
        }
        stamps_are_plain(stamp, facts[at].time_kind, expiration);
        lemma_stamp_has_no_angle(stamp, facts[at].time_kind, expiration);
        lemma_ended_line(old_raw, stamp);
        lemma_scan_ended(state, old_lines[i], expired_directive(old_raw, stamp));
    }
}

/// The new lines hold the directives of the old ones, those of the facts to be
/// ended with their ends.
proof fn lemma_same_scan(
    lines: Seq<Seq<char>>,
    old_lines: Seq<Seq<char>>,
    facts: Seq<FactView>,
    ids: Seq<Seq<char>>,
    expiration: int,
    n: int,
)
    requires
        are_ended_lines(lines, old_lines, facts, ids, expiration),
        stand_on(facts, fact_lines(old_lines)),
        forall|i: int| 0 <= i < old_lines.len() ==> is_line(#[trigger] old_lines[i]),
        0 <= n <= lines.len(),
    ensures
        ({
            let found = fact_lines(lines.take(n));
            let old_found = fact_lines(old_lines.take(n));
            &&& scan_state(lines.take(n)) == scan_state(old_lines.take(n))
            &&& found.len() == old_found.len()
            &&& forall|k: int|
                0 <= k < found.len() ==> (#[trigger] found[k]).0 == old_found[k].0 && is_ended_raw(
                    found[k].1,
                    old_found[k].1,
                    found[k].0,
                    facts,
                    ids,
                    expiration,
                )
        }),
    decreases n,
{
    if n > 0 {
        lemma_same_scan(lines, old_lines, facts, ids, expiration, n - 1);
        lemma_one_line(lines, old_lines, facts, ids, expiration, n - 1);
        assert(lines.take(n).drop_last() =~= lines.take(n - 1));
        assert(old_lines.take(n).drop_last() =~= old_lines.take(n - 1));
        assert(lines.take(n).last() == lines[n - 1]);
        assert(old_lines.take(n).last() == old_lines[n - 1]);
        let before = fact_lines(lines.take(n - 1));
        let old_before = fact_lines(old_lines.take(n - 1));
        let found = fact_lines(lines.take(n));
        let old_found = fact_lines(old_lines.take(n));
        assert forall|k: int| 0 <= k < found.len() implies (#[trigger] found[k]).0
            == old_found[k].0 && is_ended_raw(
            found[k].1,
            old_found[k].1,
            found[k].0,
            facts,
            ids,
            expiration,
        ) by {
            if k < before.len() {
                assert(found[k] == before[k] && old_found[k] == old_before[k]);
            }
        }
    }
}

// Reading.

/// A stamp is of the kind that it is written in.
proof fn lemma_stamp_kind(stamp: Seq<char>, kind: TimeKind, expiration: i64)
    requires
        is_stamp(stamp, kind, expiration as int),
    ensures
        time_kind_of(stamp) == Ok::<_, Seq<char>>(kind),
{
    match kind {
        TimeKind::Unix => {
            signed_decimal_reads_back(expiration);
            if expiration < 0 {
                let digits = decimal((-expiration) as nat);
                decimal_reads_back((-expiration) as nat);
                assert(stamp.skip(1) =~= digits);
            } else {
                decimal_reads_back(expiration as nat);
                assert(is_digit(stamp[0]));
            }
            assert(is_unix_literal(stamp));
        },
        TimeKind::IsoDate => {
            assert(has_iso_shape(stamp));
            assert(is_digit(stamp.subrange(0, 4)[0]));
            assert(stamp[0] != '-');
            assert(!is_digit(stamp[4]));
            assert(!is_unix_literal(stamp));
        },
    }
}

/// The kind of times with an end is that of the end.
proof fn lemma_kind_of_ended(
    valid_from: Option<Seq<char>>,
    valid_to: Option<Seq<char>>,
    stamp: Seq<char>,
    learned_at: Seq<char>,
)
    requires
        fact_time_kind(valid_from, valid_to, Some(stamp), learned_at) is Ok,
    ensures
        time_kind_of(stamp) == fact_time_kind(valid_from, valid_to, Some(stamp), learned_at),
{
    let values = present_times(valid_from, valid_to, Some(stamp));
    assert(values.last() == stamp);
    assert(values[values.len() - 1] == stamp);
    let first = time_kind_of(values[0])->Ok_0;
    lemma_common_kind(values.drop_first(), first);
    if values.len() > 1 {
        assert(values.drop_first()[values.len() - 2] == stamp);
    }
}

/// A directive that is ended states the fact with its end.
proof fn lemma_read_ended(
    metadata: MetadataView,
    line_number: nat,
    raw: Seq<char>,
    stamp: Seq<char>,
    table: Map<Seq<char>, Reading>,
    expiration: i64,
)
    requires
        read_fact(metadata, line_number, raw, table) is Ok,
        read_fact(metadata, line_number, expired_directive(raw, stamp), table) is Ok,
        is_stamp(
            stamp,
            read_fact(metadata, line_number, raw, table)->Ok_0.fact.time_kind,
            expiration as int,
        ),
    ensures
        read_fact(metadata, line_number, expired_directive(raw, stamp), table)->Ok_0.fact == (
        FactView {
            expired_at: Some(stamp),
            ..read_fact(metadata, line_number, raw, table)->Ok_0.fact
        }),
{
    let old = read_fact(metadata, line_number, raw, table)->Ok_0;
    let new = read_fact(metadata, line_number, expired_directive(raw, stamp), table)->Ok_0;
    stamps_are_plain(stamp, old.fact.time_kind, expiration as int);
    ended_directive_reads_back(raw, stamp, table);
    lemma_stamp_kind(stamp, old.fact.time_kind, expiration);
    lemma_kind_of_ended(
        old.directive.valid_from,
        old.directive.valid_to,
        stamp,
        old.fact.learned_at,
    );
    assert(new.fact =~= FactView { expired_at: Some(stamp), ..old.fact });
}

proof fn lemma_read_each(
    metadata: MetadataView,
    lines: Seq<(nat, Seq<char>)>,
    table: Map<Seq<char>, Reading>,
)
    requires
        read_facts(metadata, lines, table) is Ok,
    ensures
        read_facts(metadata, lines, table)->Ok_0.len() == lines.len(),
        forall|k: int|
            0 <= k < lines.len() ==> read_fact(
                metadata,
                (#[trigger] lines[k]).0,
                lines[k].1,
                table,
            ) == Ok::<_, Seq<char>>(read_facts(metadata, lines, table)->Ok_0[k]),
    decreases lines.len(),
{
    if lines.len() > 0 {
        let rest = lines.drop_last();
        lemma_read_each(metadata, rest, table);
        let before = read_facts(metadata, rest, table)->Ok_0;
        let all = read_facts(metadata, lines, table)->Ok_0;
        assert forall|k: int| 0 <= k < lines.len() implies read_fact(
            metadata,
            (#[trigger] lines[k]).0,
            lines[k].1,
            table,
        ) == Ok::<_, Seq<char>>(all[k]) by {
            if k < rest.len() {
                assert(rest[k] == lines[k]);
                assert(all[k] == before[k]);
            }
        }
    }
}

// The law.

/// Whether the lines of a body come out again when they are joined: none ends in
/// a carriage return, and the last is not empty.
pub open spec fn has_plain_lines(body: Seq<char>) -> bool {
    &&& forall|i: int| 0 <= i < line_seq(body).len() ==> is_line(#[trigger] line_seq(body)[i])
    &&& line_seq(body).len() > 0 ==> line_seq(body).last().len() > 0
}

/// What becomes of a fact when some are ended.
pub open spec fn is_ended_as(
    fact: FactView,
    old_fact: FactView,
    ids: Seq<Seq<char>>,
    expiration: int,
) -> bool {
    if ids.contains(old_fact.id) {
        exists|stamp: Seq<char>| #[trigger]
            is_stamp(stamp, old_fact.time_kind, expiration) && fact == (FactView {
                expired_at: Some(stamp),
                ..old_fact
            })
    } else {
        fact == old_fact
    }
}

/// Ending facts of a memory ends exactly these facts: what the new body says is
/// what the old one said, with the end where it was asked for. A body whose times
/// no longer fit together cannot be read at all.
pub proof fn ending_facts_ends_them(
    memory: MemoryView,
    table: Map<Seq<char>, Reading>,
    ids: Seq<Seq<char>>,
    expiration: i64,
    body: Seq<char>,
)
    requires
        extraction_of(memory, table) is Ok,
        has_plain_lines(memory.body),
        is_expired_body(
            memory,
            extraction_of(memory, table)->Ok_0.facts,
            ids,
            expiration as int,
            Ok::<_, Seq<char>>(body),
        ),
        extraction_of(MemoryView { body, ..memory }, table) is Ok,
    ensures
        ({
            let old_facts = extraction_of(memory, table)->Ok_0.facts;
            let facts = extraction_of(MemoryView { body, ..memory }, table)->Ok_0.facts;
            &&& facts.len() == old_facts.len()
            &&& forall|k: int|
                0 <= k < facts.len() ==> is_ended_as(
                    #[trigger] facts[k],
                    old_facts[k],
                    ids,
                    expiration as int,
                )
        }),
{
    let metadata = memory.metadata;
    let old_lines = line_seq(memory.body);
    let old_found = fact_lines(old_lines);
    let old_read = read_facts(metadata, old_found, table)->Ok_0;
    let old_facts = extraction_of(memory, table)->Ok_0.facts;
    lemma_read_each(metadata, old_found, table);
    assert(stand_on(old_facts, old_found)) by {
        assert forall|k: int| 0 <= k < old_facts.len() implies (#[trigger] old_facts[k]).line_number
            == old_found[k].0 by {
            assert(read_fact(metadata, old_found[k].0, old_found[k].1, table) == Ok::<_, Seq<char>>(
                old_read[k],
            ));
        }
    }
    reveal_strlit("\n");
    assert("\n"@ =~= seq!['\n']);
    let lines = choose|lines: Seq<Seq<char>>|
        {
            &&& body == #[trigger] joined(lines, "\n"@)
            &&& lines.len() == old_lines.len()
            &&& forall|i: int|
                0 <= i < lines.len() ==> is_expired_line(
                    #[trigger] lines[i],
                    old_lines[i],
                    (i + 1) as nat,
                    old_facts,
                    ids,
                    expiration as int,
                )
        };
    assert(are_ended_lines(lines, old_lines, old_facts, ids, expiration as int));
    assert forall|i: int| 0 <= i < lines.len() implies is_line(#[trigger] lines[i]) by {
        assert(is_line(old_lines[i]));
        lemma_one_line(lines, old_lines, old_facts, ids, expiration as int, i);
    }
    if lines.len() > 0 {
        assert(is_line(old_lines[lines.len() - 1]));
        lemma_one_line(lines, old_lines, old_facts, ids, expiration as int, lines.len() - 1);
    }
    joined_lines_read_back(lines);
    assert(line_seq(body) == lines);
    lemma_same_scan(lines, old_lines, old_facts, ids, expiration as int, lines.len() as int);
    assert(lines.take(lines.len() as int) =~= lines);
    assert(old_lines.take(lines.len() as int) =~= old_lines);
    let found = fact_lines(lines);
    let read = read_facts(metadata, found, table)->Ok_0;
    let facts = extraction_of(MemoryView { body, ..memory }, table)->Ok_0.facts;
    lemma_read_each(metadata, found, table);
    lemma_fact_lines(old_lines);
    assert forall|k: int| 0 <= k < facts.len() implies is_ended_as(
        #[trigger] facts[k],
        old_facts[k],
        ids,
        expiration as int,
    ) by {
        let n = found[k].0;
        let at = ended_fact(old_facts, ids, n);
        lemma_ended_fact(old_facts, ids, n);
        assert(facts[k] == read[k].fact && old_facts[k] == old_read[k].fact);
        assert(old_found[k].0 == n);
        assert(old_facts[k].line_number == n);
        assert(read_fact(metadata, found[k].0, found[k].1, table) == Ok::<_, Seq<char>>(read[k]));
        assert(read_fact(metadata, old_found[k].0, old_found[k].1, table) == Ok::<_, Seq<char>>(
            old_read[k],
        ));
        if at < old_facts.len() {
            assert(old_found[at].0 == n);
            assert(at == k);
            let stamp = choose|stamp: Seq<char>| #[trigger]
                is_stamp(stamp, old_facts[at].time_kind, expiration as int) && found[k].1
                    == expired_directive(old_found[k].1, stamp);
            lemma_read_ended(metadata, n, old_found[k].1, stamp, table, expiration);
        } else {
            assert(!ids.contains(old_facts[k].id));
        }
    }
}

} // verus!
