//! Properties that span the operations of the library.
use vstd::prelude::*;
use crate::database::update_events_from;
use crate::history::{
    bucket, events_seconds, holds_exactly, lemma_month_at, lemma_year_at, list_seconds,
    or_empty, records, year_seconds_in, DatedEvent, DowntimeEvent, History, lemma_sum_bounds,
    month_index, month_keys, year_index, MonthRecord, month_seconds, YearRecord, year_seconds,
    sum_of,
};
use crate::database::{downtime_event, following_boot, pair_events};
use crate::session::{Session, SessionEnd};
use crate::parser::{
    clock_field, journal_reading, journal_token, month_number, offset_reading, parse_reboot_line,
    parse_reboot_lines, parse_reboot_output, u16_or, u8_or, zone_reading, JournalStamp,
    LocalDateTime, Reading,
};
use crate::text::{starts_with, words, is_boundary};
use crate::text::{boundary_at, byte_len, byte_slice, char_index, char_width, lemma_boundary_unique, split_on};

verus! {

/// Every session of the list that ended at a known moment ended no later than `t`.
pub open spec fn all_ended_by(s: Seq<Session>, t: i64) -> bool {
    forall|i: int|
        0 <= i < s.len() ==> match #[trigger] s[i].session_end {
            SessionEnd::Shutdown(e) => e.timestamp <= t,
            SessionEnd::Recovered(e) => e.timestamp <= t,
            _ => true,
        }
}

proof fn lemma_update_from_ended(s: Seq<Session>, t: i64, i: int)
    requires
        all_ended_by(s, t),
    ensures
        update_events_from(s, t, i) == Seq::<crate::history::DatedEvent>::empty(),
    decreases s.len() - i,
{
    if 0 <= i < s.len() {
        lemma_update_from_ended(s, t, i + 1);
    }
}

/// Updating twice with the same boot list counts each downtime once: after an update the
/// newest boot is the last recorded one, and where every session of the list ended before
/// it, as sessions before the newest boot do, an update from there takes in no event, so
/// (by the contract of `update_database`) it leaves the history as it was.
pub proof fn update_twice_counts_once(s: Seq<Session>)
    requires
        s.len() > 0,
        all_ended_by(s, s[0].boot_start.timestamp),
    ensures
        update_events_from(s, s[0].boot_start.timestamp, 0).len() == 0,
{
    lemma_update_from_ended(s, s[0].boot_start.timestamp, 0);
}

/// In a well formed history, the downtime of a month is at most that of its year, which is
/// at most that of all time.
pub proof fn downtime_sums_nest(h: History, y: u16, m: u8)
    requires
        h.wf(),
    ensures
        0 <= h.month_sum(y, m) <= h.year_sum(y) <= h.total(),
{
    let ys = h.years@;
    lemma_sum_bounds(ys, |r: YearRecord| year_seconds(r));
    match year_index(ys, y) {
        Some(i) => {
            assert(0 <= i < ys.len());
            let yr = ys[i];
            assert(yr.wf());
            lemma_sum_bounds(yr.months@, |r: MonthRecord| month_seconds(r));
            match month_index(yr.months@, m) {
                Some(j) => {
                    assert(0 <= j < yr.months@.len());
                    assert(month_seconds(yr.months@[j]) <= sum_of(yr.months@, |r: MonthRecord| month_seconds(r)));
                },
                None => {},
            }
            assert(year_seconds(ys[i]) <= sum_of(ys, |r: YearRecord| year_seconds(r)));
        },
        None => {},
    }
}


proof fn lemma_byte_len_same_widths(a: Seq<char>, b: Seq<char>, k: int)
    requires
        a.len() == b.len(),
        forall|i: int| 0 <= i < a.len() ==> char_width(#[trigger] a[i]) == char_width(b[i]),
        0 <= k <= a.len(),
    ensures
        byte_len(a.take(k)) == byte_len(b.take(k)),
    decreases k,
{
    if k > 0 {
        lemma_byte_len_same_widths(a, b, k - 1);
        assert(a.take(k).drop_last() =~= a.take(k - 1));
        assert(b.take(k).drop_last() =~= b.take(k - 1));
    }
}

proof fn lemma_slice_after_first(a: Seq<char>, b: Seq<char>, x: int, y: int)
    requires
        a.len() == b.len(),
        a.len() > 0,
        forall|i: int| 0 <= i < a.len() ==> char_width(#[trigger] a[i]) == char_width(b[i]),
        forall|i: int| 1 <= i < a.len() ==> a[i] == b[i],
        1 <= x,
    ensures
        byte_slice(a, x, y) == byte_slice(b, x, y),
{
    assert forall|k: int| 0 <= k <= a.len() implies byte_len(a.take(k)) == byte_len(b.take(k)) by {
        lemma_byte_len_same_widths(a, b, k);
    }
    assert forall|v: int, k: int| boundary_at(a, v, k) == boundary_at(b, v, k) by {
        if 0 <= k <= a.len() {
            lemma_byte_len_same_widths(a, b, k);
        }
    }
    if byte_slice(a, x, y) is Some {
        let i = char_index(a, x);
        let j = char_index(a, y);
        let ib = char_index(b, x);
        let jb = char_index(b, y);
        lemma_boundary_unique(b, x, i, ib);
        lemma_boundary_unique(b, y, j, jb);
        assert(i >= 1) by {
            assert(a.take(0) =~= Seq::<char>::empty());
        }
        if j < i {
            crate::text::lemma_byte_len_prefix_grows(a, j, i);
        }
        assert forall|t: int| 0 <= t < j - i implies #[trigger] a.subrange(i, j)[t] == b.subrange(i, j)[t] by {
            assert(a[i + t] == b[i + t]);
        }
        assert(a.subrange(i, j) =~= b.subrange(i, j));
    } else if byte_slice(b, x, y) is Some {
        let ib = char_index(b, x);
        let jb = char_index(b, y);
        assert(boundary_at(a, x, ib));
        assert(boundary_at(a, y, jb));
    }
}

/// A zone written with `-` lies as far west of UTC as the same zone written with `+` lies east.
#[verifier::rlimit(40)]
pub proof fn offset_sign_flips(rest: Seq<char>)
    requires
        offset_reading(seq!['+'] + rest) is Some,
    ensures
        offset_reading(seq!['-'] + rest) == Some(-offset_reading(seq!['+'] + rest)->0),
{
    let a = seq!['+'] + rest;
    let b = seq!['-'] + rest;
    assert forall|i: int| 0 <= i < a.len() implies char_width(#[trigger] a[i]) == char_width(b[i]) by {
        if i > 0 {
            assert(a[i] == rest[i - 1] && b[i] == rest[i - 1]);
        }
    }
    assert forall|i: int| 1 <= i < a.len() implies a[i] == b[i] by {
        assert(a[i] == rest[i - 1] && b[i] == rest[i - 1]);
    }
    lemma_byte_len_same_widths(a, b, a.len() as int);
    assert(a.take(a.len() as int) =~= a);
    assert(b.take(b.len() as int) =~= b);
    lemma_slice_after_first(a, b, 1, 3);
    lemma_slice_after_first(a, b, 4, 6);
    assert(byte_len(a) == byte_len(b));
    assert(a[0] == '+' && b[0] == '-');
}

/// Splitting the text after a separator starts afresh: the pieces of `a + b`, where `a` ends
/// with the separator, are those of `a` without its last (empty) piece, then those of `b`.
proof fn lemma_split_on_concat(a: Seq<char>, b: Seq<char>, sep: char)
    requires
        a.len() > 0,
        a.last() == sep,
    ensures
        split_on(a + b, sep) == split_on(a, sep).drop_last() + split_on(b, sep),
    decreases b.len(),
{
    if b.len() == 0 {
        assert(a + b =~= a);
        assert(split_on(a, sep).drop_last() + seq![seq![]] =~= split_on(a, sep)) by {
            assert(a.drop_last() + seq![] =~= a.drop_last());
        }
    } else {
        lemma_split_on_concat(a, b.drop_last(), sep);
        assert((a + b).drop_last() =~= a + b.drop_last());
        crate::text::lemma_split_on_nonempty(b.drop_last(), sep);
        let p = split_on(a, sep).drop_last();
        let q = split_on(b.drop_last(), sep);
        if b.last() == sep {
            assert((p + q).push(seq![]) =~= p + q.push(seq![]));
        } else {
            assert((p + q).update((p + q).len() - 1, (p + q).last().push(b.last())) =~= p + q.update(
                q.len() - 1,
                q.last().push(b.last()),
            ));
        }
    }
}

proof fn lemma_parse_lines_concat(x: Seq<Seq<char>>, y: Seq<Seq<char>>)
    ensures
        parse_reboot_lines(x + y) == parse_reboot_lines(x) + parse_reboot_lines(y),
    decreases y.len(),
{
    if y.len() == 0 {
        assert(x + y =~= x);
        assert(parse_reboot_lines(x) + seq![] =~= parse_reboot_lines(x));
    } else {
        lemma_parse_lines_concat(x, y.drop_last());
        assert((x + y).drop_last() =~= x + y.drop_last());
        let r = parse_reboot_lines(x);
        let t = parse_reboot_lines(y.drop_last());
        match parse_reboot_line(y.last()) {
            Some(v) => {
                assert((r + t).push(v) =~= r + t.push(v));
            },
            None => {},
        }
    }
}

/// Each line of `last reboot -F` is read on its own: the records of two outputs, the first
/// ending its last line, are those of the first, then those of the second.
pub proof fn reboot_output_reads_line_by_line(a: Seq<char>, b: Seq<char>)
    requires
        a.len() > 0,
        a.last() == '\n',
    ensures
        parse_reboot_output(a + b) == parse_reboot_output(a) + parse_reboot_output(b),
{
    lemma_split_on_concat(a, b, '\n');
    crate::text::lemma_split_on_nonempty(a, '\n');
    let pa = split_on(a, '\n');
    lemma_parse_lines_concat(pa.drop_last(), split_on(b, '\n'));
    // The last piece of `a` is empty and holds no record.
    assert(pa.last() =~= Seq::<char>::empty()) by {
        crate::text::lemma_split_on_nonempty(a.drop_last(), '\n');
    }
    assert(crate::text::words(Seq::<char>::empty()) =~= Seq::<Seq<char>>::empty());
    assert(pa.drop_last().push(pa.last()) =~= pa);
}


/// Two histories that hold exactly the same list of events agree in every record: the same
/// years in the same order, each with the same sum and the same months in the same order,
/// each month with the same events and the same sum.
pub proof fn history_fixed_by_events(h1: History, h2: History, list: Seq<DatedEvent>)
    requires
        holds_exactly(h1, list),
        holds_exactly(h2, list),
    ensures
        h1.years@.len() == h2.years@.len(),
        forall|i: int|
            0 <= i < h1.years@.len() ==> {
                let a = #[trigger] h1.years@[i];
                let b = h2.years@[i];
                &&& a.year == b.year
                &&& a.sum_seconds == b.sum_seconds
                &&& a.months@.len() == b.months@.len()
                &&& forall|j: int|
                    0 <= j < a.months@.len() ==> {
                        &&& (#[trigger] a.months@[j]).month == b.months@[j].month
                        &&& a.months@[j].events@ == b.months@[j].events@
                        &&& a.months@[j].sum_seconds == b.months@[j].sum_seconds
                    }
            },
{
    let k1 = h1.year_keys();
    let k2 = h2.year_keys();
    assert(k1 == k2);
    assert(k1.len() == h1.years@.len() && k2.len() == h2.years@.len());
    assert forall|i: int| 0 <= i < h1.years@.len() implies {
        let a = #[trigger] h1.years@[i];
        let b = h2.years@[i];
        &&& a.year == b.year
        &&& a.sum_seconds == b.sum_seconds
        &&& a.months@.len() == b.months@.len()
        &&& forall|j: int|
            0 <= j < a.months@.len() ==> {
                &&& (#[trigger] a.months@[j]).month == b.months@[j].month
                &&& a.months@[j].events@ == b.months@[j].events@
                &&& a.months@[j].sum_seconds == b.months@[j].sum_seconds
            }
    } by {
        let a = h1.years@[i];
        let b = h2.years@[i];
        assert(k1[i] == a.year && k2[i] == b.year);
        let y = a.year;
        lemma_year_at(h1.years@, i);
        lemma_year_at(h2.years@, i);
        assert(h1.year_sum(y) == h2.year_sum(y));
        assert(h1.months_of(y) == h2.months_of(y));
        let m1 = month_keys(a);
        let m2 = month_keys(b);
        assert(m1.len() == a.months@.len() && m2.len() == b.months@.len());
        assert forall|j: int| 0 <= j < a.months@.len() implies {
            &&& (#[trigger] a.months@[j]).month == b.months@[j].month
            &&& a.months@[j].events@ == b.months@[j].events@
            &&& a.months@[j].sum_seconds == b.months@[j].sum_seconds
        } by {
            assert(m1[j] == a.months@[j].month && m2[j] == b.months@[j].month);
            let m = a.months@[j].month;
            assert(a.wf() && b.wf());
            lemma_month_at(a.months@, j);
            lemma_month_at(b.months@, j);
            assert(h1.events_in(y, m) == Some(a.months@[j].events@));
            assert(h2.events_in(y, m) == Some(b.months@[j].events@));
            assert(or_empty(h1.events_in(y, m)) == bucket(list, y, m));
            assert(or_empty(h2.events_in(y, m)) == bucket(list, y, m));
            assert(h1.month_sum(y, m) == h2.month_sum(y, m));
        }
    }
}


proof fn lemma_bucket_concat(a: Seq<DatedEvent>, b: Seq<DatedEvent>, y: u16, m: u8)
    ensures
        bucket(a + b, y, m) == bucket(a, y, m) + bucket(b, y, m),
    decreases b.len(),
{
    if b.len() == 0 {
        assert(a + b =~= a);
        assert(bucket(a, y, m) + bucket(b, y, m) =~= bucket(a, y, m));
    } else {
        lemma_bucket_concat(a, b.drop_last(), y, m);
        assert((a + b).drop_last() =~= a + b.drop_last());
        let d = b.last();
        if d.year == y && d.month == m {
            assert((bucket(a, y, m) + bucket(b.drop_last(), y, m)).push(d.event) =~= bucket(a, y, m)
                + bucket(b.drop_last(), y, m).push(d.event));
        }
    }
}

proof fn lemma_year_seconds_concat(a: Seq<DatedEvent>, b: Seq<DatedEvent>, y: u16)
    ensures
        year_seconds_in(a + b, y) == year_seconds_in(a, y) + year_seconds_in(b, y),
    decreases b.len(),
{
    if b.len() == 0 {
        assert(a + b =~= a);
    } else {
        lemma_year_seconds_concat(a, b.drop_last(), y);
        assert((a + b).drop_last() =~= a + b.drop_last());
    }
}

proof fn lemma_list_seconds_concat(a: Seq<DatedEvent>, b: Seq<DatedEvent>)
    ensures
        list_seconds(a + b) == list_seconds(a) + list_seconds(b),
    decreases b.len(),
{
    if b.len() == 0 {
        assert(a + b =~= a);
    } else {
        lemma_list_seconds_concat(a, b.drop_last());
        assert((a + b).drop_last() =~= a + b.drop_last());
    }
}

proof fn lemma_events_seconds_concat(a: Seq<DowntimeEvent>, b: Seq<DowntimeEvent>)
    ensures
        events_seconds(a + b) == events_seconds(a) + events_seconds(b),
    decreases b.len(),
{
    if b.len() == 0 {
        assert(a + b =~= a);
    } else {
        lemma_events_seconds_concat(a, b.drop_last());
        assert((a + b).drop_last() =~= a + b.drop_last());
    }
}

/// The session ended at a known moment after `t`.
pub open spec fn ended_after(e: SessionEnd, t: i64) -> bool {
    match e {
        SessionEnd::Shutdown(x) => x.timestamp > t,
        SessionEnd::Recovered(x) => x.timestamp > t,
        _ => false,
    }
}

/// The session ended at a known moment no later than `t`.
pub open spec fn ended_by(e: SessionEnd, t: i64) -> bool {
    match e {
        SessionEnd::Shutdown(x) => x.timestamp <= t,
        SessionEnd::Recovered(x) => x.timestamp <= t,
        _ => false,
    }
}

/// The sessions `1..=k` of a newest first list ended after `last`, and session `k + 1`,
/// where there is one, ended by it.
pub open spec fn new_boots_before(l2: Seq<Session>, k: int, last: i64) -> bool {
    &&& 1 <= k < l2.len()
    &&& forall|i: int| 1 <= i <= k ==> ended_after(#[trigger] l2[i].session_end, last)
    &&& k + 1 < l2.len() ==> ended_by(l2[k + 1].session_end, last)
}

proof fn lemma_update_is_new_pairs(l2: Seq<Session>, k: int, last: i64, i: int)
    requires
        new_boots_before(l2, k, last),
        1 <= i <= k + 1,
    ensures
        update_events_from(l2, last, i) == pair_events(l2).subrange(i - 1, k),
    decreases k + 1 - i,
{
    if i == k + 1 {
        assert(pair_events(l2).subrange(k, k) =~= Seq::<DatedEvent>::empty());
    } else {
        lemma_update_is_new_pairs(l2, k, last, i + 1);
        assert(ended_after(l2[i].session_end, last));
        assert(following_boot(l2, i) == l2[i - 1].boot_start);
        assert(pair_events(l2)[i - 1] == downtime_event(l2[i - 1].boot_start, l2[i].session_end));
        assert(seq![pair_events(l2)[i - 1]] + pair_events(l2).subrange(i, k) =~= pair_events(l2).subrange(
            i - 1,
            k,
        ));
    }
}

/// Updating a database gives the same downtime as building it afresh. A database built from
/// the boot list `old_list` (newest first) is updated with a later list `l2` whose first `k`
/// sessions are newer boots and whose rest are the sessions of `old_list`, the newest of them
/// now ended after its boot. Every year and month then holds the same events, in some order,
/// and the same sums as the history that the whole of `l2` builds.
pub proof fn update_matches_rebuild(
    l2: Seq<Session>,
    k: int,
    old_list: Seq<Session>,
    before: History,
    after: History,
    full: History,
)
    requires
        l2[0].session_end is StillRunning,
        old_list.len() == l2.len() - k,
        old_list.len() > 0,
        forall|i: int| 0 <= i < old_list.len() ==> (#[trigger] old_list[i]).boot_start == l2[k + i].boot_start,
        forall|i: int| 1 <= i < old_list.len() ==> (#[trigger] old_list[i]).session_end == l2[k + i].session_end,
        new_boots_before(l2, k, old_list[0].boot_start.timestamp),
        holds_exactly(before, pair_events(old_list)),
        records(after, before, update_events_from(l2, old_list[0].boot_start.timestamp, 0)),
        holds_exactly(full, pair_events(l2)),
    ensures
        after.total() == full.total(),
        forall|y: u16| #[trigger] after.year_sum(y) == full.year_sum(y),
        forall|y: u16, m: u8| #[trigger] after.month_sum(y, m) == full.month_sum(y, m),
        forall|y: u16, m: u8|
            (#[trigger] after.events_in(y, m) is Some) == (full.events_in(y, m) is Some),
        forall|y: u16, m: u8|
            (#[trigger] or_empty(after.events_in(y, m))).to_multiset() == or_empty(
                full.events_in(y, m),
            ).to_multiset(),
{
    let last = old_list[0].boot_start.timestamp;
    let p = pair_events(l2);
    let fresh = p.take(k);
    let rest = pair_events(old_list);
    assert(rest =~= p.subrange(k, p.len() as int)) by {
        assert forall|i: int| 0 <= i < rest.len() implies rest[i] == p[k + i] by {
            assert(old_list[i].boot_start == l2[k + i].boot_start);
            assert(old_list[i + 1].session_end == l2[k + i + 1].session_end);
        }
    }
    assert(p =~= fresh + rest);
    lemma_update_is_new_pairs(l2, k, last, 1);
    assert(update_events_from(l2, last, 0) == update_events_from(l2, last, 1));
    assert(p.subrange(0, k) =~= fresh);
    let upd = update_events_from(l2, last, 0);
    assert(upd == fresh);
    lemma_list_seconds_concat(fresh, rest);
    assert forall|y: u16| #[trigger] after.year_sum(y) == full.year_sum(y) by {
        lemma_year_seconds_concat(fresh, rest, y);
    }
    assert forall|y: u16, m: u8| #[trigger] after.month_sum(y, m) == full.month_sum(y, m) by {
        lemma_bucket_concat(fresh, rest, y, m);
        lemma_events_seconds_concat(bucket(fresh, y, m), bucket(rest, y, m));
        lemma_events_seconds_concat(bucket(rest, y, m), bucket(fresh, y, m));
    }
    assert forall|y: u16, m: u8|
        (#[trigger] after.events_in(y, m) is Some) == (full.events_in(y, m) is Some) by {
        lemma_bucket_concat(fresh, rest, y, m);
    }
    assert forall|y: u16, m: u8|
        (#[trigger] or_empty(after.events_in(y, m))).to_multiset() == or_empty(
            full.events_in(y, m),
        ).to_multiset() by {
        lemma_bucket_concat(fresh, rest, y, m);
        let a = bucket(rest, y, m);
        let b = bucket(fresh, y, m);
        vstd::seq_lib::lemma_multiset_commutative(a, b);
        vstd::seq_lib::lemma_multiset_commutative(b, a);
        assert(a.to_multiset().add(b.to_multiset()) =~= b.to_multiset().add(a.to_multiset()));
    }
}


/// A line that does not begin with `wtmp begins` and has at least ten words gives exactly one
/// record, whose boot time is read from words 5 to 8: month, day, `hh:mm:ss` and year.
pub proof fn long_line_gives_its_boot(line: Seq<char>)
    requires
        !starts_with(line, "wtmp begins"@),
        words(line).len() >= 10,
    ensures
        parse_reboot_line(line) is Some,
        ({
            let w = words(line);
            parse_reboot_line(line)->0.boot_start == LocalDateTime {
                year: u16_or(w[8], 1970),
                month: month_number(w[5]),
                day: u8_or(w[6], 1),
                hour: clock_field(w[7], 0),
                minute: clock_field(w[7], 1),
                second: clock_field(w[7], 2),
            }
        }),
{
}

/// A line with fewer than ten words gives no record.
pub proof fn short_line_gives_nothing(line: Seq<char>)
    requires
        words(line).len() < 10,
    ensures
        parse_reboot_line(line) is None,
{
}

/// An output of one line, with or without its line end, that has at least ten words and does
/// not begin with `wtmp begins` gives exactly one record: that of the line.
pub proof fn one_boot_line_gives_one_record(line: Seq<char>)
    requires
        !line.contains('\n'),
        !starts_with(line, "wtmp begins"@),
        words(line).len() >= 10,
    ensures
        parse_reboot_output(line).len() == 1,
        parse_reboot_output(line.push('\n')).len() == 1,
        parse_reboot_output(line)[0] == parse_reboot_line(line)->0,
        parse_reboot_output(line.push('\n'))[0] == parse_reboot_line(line)->0,
{
    lemma_split_no_sep(line, '\n');
    long_line_gives_its_boot(line);
    assert(split_on(line.push('\n'), '\n') == split_on(line, '\n').push(seq![])) by {
        assert(line.push('\n').drop_last() =~= line);
    }
    let one = seq![line];
    let two = seq![line].push(Seq::<char>::empty());
    assert(words(Seq::<char>::empty()) =~= Seq::<Seq<char>>::empty());
    assert(parse_reboot_line(Seq::<char>::empty()) is None);
    assert(one.drop_last() =~= Seq::<Seq<char>>::empty());
    assert(one.last() == line);
    assert(parse_reboot_lines(Seq::<Seq<char>>::empty()) == Seq::<crate::parser::RebootRecord>::empty());
    assert(parse_reboot_lines(one) =~= Seq::<crate::parser::RebootRecord>::empty().push(
        parse_reboot_line(line)->0,
    ));
    assert(parse_reboot_lines(one) =~= seq![parse_reboot_line(line)->0]);
    assert(two.drop_last() =~= one);
    assert(two.last() == Seq::<char>::empty());
    assert(parse_reboot_lines(two) == parse_reboot_lines(one));
}

proof fn lemma_split_no_sep(s: Seq<char>, sep: char)
    requires
        !s.contains(sep),
    ensures
        split_on(s, sep) == seq![s],
    decreases s.len(),
{
    if s.len() == 0 {
        assert(s =~= Seq::<char>::empty());
    } else {
        let t = s.drop_last();
        assert(!t.contains(sep)) by {
            if t.contains(sep) {
                let i = choose|i: int| 0 <= i < t.len() && t[i] == sep;
                assert(s[i] == sep);
            }
        }
        lemma_split_no_sep(t, sep);
        assert(s.last() != sep) by {
            assert(s[s.len() - 1] == s.last());
        }
        assert(t.push(s.last()) =~= s);
        assert(seq![t].update(0, t.push(s.last())) =~= seq![s]);
    }
}

/// The first `n` characters of `s` are ASCII.
pub open spec fn ascii_prefix(s: Seq<char>, n: int) -> bool {
    0 <= n <= s.len() && forall|i: int| 0 <= i < n ==> (#[trigger] s[i] as u32) < 0x80
}

proof fn lemma_ascii_prefix_bytes(s: Seq<char>, n: int, k: int)
    requires
        ascii_prefix(s, n),
        0 <= k <= n,
    ensures
        byte_len(s.take(k)) == k,
    decreases k,
{
    if k > 0 {
        lemma_ascii_prefix_bytes(s, n, k - 1);
        assert(s.take(k).drop_last() =~= s.take(k - 1));
        assert(s.take(k).last() == s[k - 1]);
    } else {
        assert(s.take(0) =~= Seq::<char>::empty());
    }
}

/// Within an ASCII prefix, bytes are characters: slicing by bytes takes those characters.
proof fn lemma_ascii_slice(s: Seq<char>, n: int, a: int, b: int)
    requires
        ascii_prefix(s, n),
        0 <= a <= b <= n,
    ensures
        byte_slice(s, a, b) == Some(s.subrange(a, b)),
{
    lemma_ascii_prefix_bytes(s, n, a);
    lemma_ascii_prefix_bytes(s, n, b);
    assert(boundary_at(s, a, a));
    assert(boundary_at(s, b, b));
    lemma_boundary_unique(s, a, char_index(s, a), a);
    lemma_boundary_unique(s, b, char_index(s, b), b);
}

/// The digit characters' value.
pub open spec fn digit(c: char) -> int {
    c as u32 - '0' as u32
}

/// A zone written `+HH:MM` (whatever follows it) lies `HH` hours and `MM` minutes east of UTC,
/// and the same zone written `-HH:MM` as far west.
pub proof fn zone_hours_and_minutes(h1: char, h0: char, m1: char, m0: char, rest: Seq<char>)
    requires
        '0' <= h1 <= '9',
        '0' <= h0 <= '9',
        '0' <= m1 <= '9',
        '0' <= m0 <= '9',
    ensures
        offset_reading(seq!['+', h1, h0, ':', m1, m0] + rest) == Some(
            (10 * digit(h1) + digit(h0)) * 3600 + (10 * digit(m1) + digit(m0)) * 60,
        ),
        offset_reading(seq!['-', h1, h0, ':', m1, m0] + rest) == Some(
            -((10 * digit(h1) + digit(h0)) * 3600 + (10 * digit(m1) + digit(m0)) * 60),
        ),
{
    let p = seq!['+', h1, h0, ':', m1, m0] + rest;
    let q = seq!['-', h1, h0, ':', m1, m0] + rest;
    assert(ascii_prefix(p, 6));
    assert(ascii_prefix(q, 6));
    lemma_ascii_slice(p, 6, 1, 3);
    lemma_ascii_slice(p, 6, 4, 6);
    lemma_ascii_slice(q, 6, 1, 3);
    lemma_ascii_slice(q, 6, 4, 6);
    lemma_ascii_prefix_bytes(p, 6, 6);
    lemma_ascii_prefix_bytes(q, 6, 6);
    lemma_byte_len_take_le(p, 6);
    lemma_byte_len_take_le(q, 6);
    assert(p.subrange(1, 3) =~= seq![h1, h0]);
    assert(p.subrange(4, 6) =~= seq![m1, m0]);
    assert(q.subrange(1, 3) =~= seq![h1, h0]);
    assert(q.subrange(4, 6) =~= seq![m1, m0]);
}

proof fn lemma_byte_len_take_le(s: Seq<char>, k: int)
    requires
        0 <= k <= s.len(),
    ensures
        byte_len(s.take(k)) <= byte_len(s),
{
    if k < s.len() {
        crate::text::lemma_byte_len_prefix_grows(s, k, s.len() as int);
    }
    assert(s.take(s.len() as int) =~= s);
}

proof fn lemma_tenths_range(t: Seq<char>)
    ensures
        crate::parser::tenths_of(t) matches Some(v) ==> -90 <= v <= 990,
{
}

/// A zone reading lies within a few days of UTC.
proof fn lemma_offset_range(s: Seq<char>)
    ensures
        offset_reading(s) matches Some(v) ==> -400000 <= v <= 400000,
{
    if byte_len(s) >= 6 {
        if let (Some(h), Some(m)) = (byte_slice(s, 1, 3), byte_slice(s, 4, 6)) {
            lemma_tenths_range(h);
            lemma_tenths_range(m);
        }
    }
}

/// The journal time stamp's offset is the zone that follows its first 19 bytes, read as
/// `Parser::parse_offset_string` reads a zone.
pub proof fn journal_offset_is_its_zone(s: Seq<char>)
    requires
        journal_reading(s) is Value,
    ensures
        ({
            let iso = journal_token(s)->Ok_0;
            let zone = byte_slice(iso, 19, byte_len(iso) as int);
            &&& zone is Some
            &&& offset_reading(zone->0) is Some
            &&& (journal_reading(s)->Value_0).offset_seconds as int == offset_reading(zone->0)->0
        }),
{
    let iso = journal_token(s)->Ok_0;
    let zone = byte_slice(iso, 19, byte_len(iso) as int);
    if let Some(z) = zone {
        lemma_offset_range(z);
    }
}

/// The zone of a journal time stamp `YYYY-MM-DDThh:mm:ss` followed by `-hh:mm` lies as far
/// west of UTC as the same stamp followed by `+hh:mm` lies east.
pub proof fn journal_zone_sign(date: Seq<char>, zone: Seq<char>)
    requires
        ascii_prefix(date, 19),
        date.len() == 19,
        offset_reading(seq!['+'] + zone) is Some,
    ensures
        zone_reading(date + (seq!['+'] + zone)) == offset_reading(seq!['+'] + zone),
        zone_reading(date + (seq!['-'] + zone)) == Some(-offset_reading(seq!['+'] + zone)->0),
{
    offset_sign_flips(zone);
    lemma_zone_after_date(date, seq!['+'] + zone);
    lemma_zone_after_date(date, seq!['-'] + zone);
}

proof fn lemma_zone_after_date(date: Seq<char>, z: Seq<char>)
    requires
        ascii_prefix(date, 19),
        date.len() == 19,
    ensures
        byte_slice(date + z, 19, byte_len(date + z) as int) == Some(z),
{
    let iso = date + z;
    assert(ascii_prefix(iso, 19)) by {
        assert forall|i: int| 0 <= i < 19 implies (#[trigger] iso[i] as u32) < 0x80 by {
            assert(iso[i] == date[i]);
        }
    }
    lemma_ascii_prefix_bytes(iso, 19, 19);
    assert(boundary_at(iso, 19, 19));
    lemma_boundary_unique(iso, 19, char_index(iso, 19), 19);
    assert(iso.take(iso.len() as int) =~= iso);
    assert(boundary_at(iso, byte_len(iso) as int, iso.len() as int));
    lemma_boundary_unique(iso, byte_len(iso) as int, char_index(iso, byte_len(iso) as int), iso.len() as int);
    lemma_byte_len_take_le(iso, 19);
    assert(iso.subrange(19, iso.len() as int) =~= z);
}


/// The seconds from the end `e` of a session to the boot `u` that follows it: the time between
/// them where the end is known and the boot comes later, else none.
pub open spec fn time_down(u: i64, e: SessionEnd) -> int {
    match e {
        SessionEnd::Shutdown(t) => if u > t.timestamp {
            u - t.timestamp
        } else {
            0
        },
        SessionEnd::Recovered(t) => if u > t.timestamp {
            u - t.timestamp
        } else {
            0
        },
        _ => 0,
    }
}

/// The time down between all consecutive sessions of a newest first boot list.
pub open spec fn total_time_down(s: Seq<Session>) -> int
    decreases s.len(),
{
    if s.len() < 2 {
        0
    } else {
        total_time_down(s.drop_last()) + time_down(
            s[s.len() - 2].boot_start.timestamp,
            s.last().session_end,
        )
    }
}

/// Between a session that ended at a known moment `t` and the boot `u` after it, the machine
/// was down for `u - t` seconds (none where the boot is not later), dated at `t`; a crash with
/// no known end counts no downtime and is dated at the boot.
pub proof fn downtime_is_time_between(s: Seq<Session>, i: int)
    requires
        0 <= i < s.len() - 1,
    ensures
        pair_events(s)[i].event.down_seconds as int == time_down(s[i].boot_start.timestamp, s[i + 1].session_end),
        pair_events(s)[i].event.up_at == s[i].boot_start.timestamp,
        match s[i + 1].session_end {
            SessionEnd::Shutdown(t) => pair_events(s)[i].event.down_at == t.timestamp
                && pair_events(s)[i].year == t.year && pair_events(s)[i].month == t.month,
            SessionEnd::Recovered(t) => pair_events(s)[i].event.down_at == t.timestamp
                && pair_events(s)[i].year == t.year && pair_events(s)[i].month == t.month,
            _ => pair_events(s)[i].event.down_at == s[i].boot_start.timestamp
                && pair_events(s)[i].year == s[i].boot_start.year && pair_events(s)[i].month
                == s[i].boot_start.month,
        },
{
}

proof fn lemma_pair_seconds(s: Seq<Session>)
    ensures
        list_seconds(pair_events(s)) == total_time_down(s),
    decreases s.len(),
{
    if s.len() < 2 {
        assert(pair_events(s) =~= Seq::<DatedEvent>::empty());
    } else {
        let t = s.drop_last();
        lemma_pair_seconds(t);
        assert(pair_events(t) =~= pair_events(s).drop_last());
        downtime_is_time_between(s, s.len() - 2);
    }
}

/// A history built from a boot list holds, in all, the time down between each two consecutive
/// sessions; so does every rebuild of it.
pub proof fn built_history_holds_all_time_down(h: History, s: Seq<Session>)
    requires
        holds_exactly(h, pair_events(s)),
    ensures
        h.total() == total_time_down(s),
{
    lemma_pair_seconds(s);
}

/// The statistics count, for the current month, the downtime of the events recorded in that
/// month of the current year and of no other; it is at most the current year's downtime,
/// which is at most that of all time.
pub proof fn current_month_is_its_own_events(db: crate::database::Database, clock: crate::stats::Clock)
    requires
        db.history.wf(),
    ensures
        ({
            let st = crate::stats::statistics_at(db, clock);
            &&& st.current_month.total_downtime_seconds as int == events_seconds(
                or_empty(db.history.events_in(clock.now.year, clock.now.month)),
            )
            &&& st.current_month.total_downtime_seconds <= st.current_year.total_downtime_seconds
            &&& st.current_year.total_downtime_seconds as int <= db.history.total()
        }),
{
    let h = db.history;
    let y = clock.now.year;
    let m = clock.now.month;
    downtime_sums_nest(h, y, m);
    match year_index(h.years@, y) {
        Some(i) => {
            let yr = h.years@[i];
            assert(yr.wf());
            match month_index(yr.months@, m) {
                Some(j) => {
                    assert(yr.months@[j].wf());
                },
                None => {},
            }
        },
        None => {},
    }
    assert(events_seconds(Seq::<DowntimeEvent>::empty()) == 0);
}

} // verus!
