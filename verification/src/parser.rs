//! Reading the boot history that `last reboot -F` prints.
use vstd::prelude::*;
use crate::error::LasaError;
use crate::text::{
    byte_len, byte_length, byte_slice, chars_of, contains, digit_value, has_prefix,
    has_substring, int_error_message, int_error_text, parse_unsigned, parse_unsigned_text,
    same_text, slice_bytes, slice_bytes_from, split_on, split_text, split_words, starts_with, views, words,
    IntErrorKind,
};
use vstd::string::StringExecFns;

verus! {

/// A calendar date and a wall clock time as a log writes them, before any time zone applies.
#[derive(Debug, Clone, Copy, PartialEq, Eq)]
pub struct LocalDateTime {
    pub year: u16,
    pub month: u8,
    pub day: u8,
    pub hour: u8,
    pub minute: u8,
    pub second: u8,
}

/// How a boot session ended, as the log line tells it.
#[derive(Debug, Clone, Copy, PartialEq, Eq)]
pub enum RecordEnd {
    /// The session is the one that is running now.
    StillRunning,
    /// The session ended without a shutdown.
    Crash,
    /// The session was shut down at the given time.
    Shutdown(LocalDateTime),
}

/// One line of `last reboot -F`: when a boot session began and how it ended.
#[derive(Debug, Clone, Copy, PartialEq, Eq)]
pub struct RebootRecord {
    pub boot_start: LocalDateTime,
    pub end: RecordEnd,
}

/// Reads the text that the system's log tools print.
pub struct Parser;

/// The number of a month from its English three letter abbreviation; 1 for anything else.
pub open spec fn month_number(m: Seq<char>) -> u8 {
    if m == "Jan"@ {
        1
    } else if m == "Feb"@ {
        2
    } else if m == "Mar"@ {
        3
    } else if m == "Apr"@ {
        4
    } else if m == "May"@ {
        5
    } else if m == "Jun"@ {
        6
    } else if m == "Jul"@ {
        7
    } else if m == "Aug"@ {
        8
    } else if m == "Sep"@ {
        9
    } else if m == "Oct"@ {
        10
    } else if m == "Nov"@ {
        11
    } else if m == "Dec"@ {
        12
    } else {
        1
    }
}

/// A `u8` read from `s`, or `default` where `s` is none.
pub open spec fn u8_or(s: Seq<char>, default: u8) -> u8 {
    match parse_unsigned(s, 255) {
        Ok(v) => v as u8,
        Err(_) => default,
    }
}

/// A `u16` read from `s`, or `default` where `s` is none.
pub open spec fn u16_or(s: Seq<char>, default: u16) -> u16 {
    match parse_unsigned(s, 0xFFFF) {
        Ok(v) => v as u16,
        Err(_) => default,
    }
}

/// The `i`-th colon separated field of a clock time read as a `u8`, 0 where it is missing or no number.
pub open spec fn clock_field(t: Seq<char>, i: int) -> u8 {
    let f = split_on(t, ':');
    if i < f.len() {
        u8_or(f[i], 0)
    } else {
        0
    }
}

/// The date and time that the words `p[m]`, `p[m + 1]`, `p[m + 2]`, `p[m + 3]` give:
/// month abbreviation, day, `hh:mm:ss` and year.
pub open spec fn date_time_at(p: Seq<Seq<char>>, m: int) -> LocalDateTime {
    LocalDateTime {
        year: u16_or(p[m + 3], 1970),
        month: month_number(p[m]),
        day: u8_or(p[m + 1], 1),
        hour: clock_field(p[m + 2], 0),
        minute: clock_field(p[m + 2], 1),
        second: clock_field(p[m + 2], 2),
    }
}

/// The index of the first word `-`, if there is one.
pub open spec fn first_dash(p: Seq<Seq<char>>) -> Option<int> {
    if exists|i: int| is_first_dash(p, i) {
        Some(choose|i: int| is_first_dash(p, i))
    } else {
        None
    }
}

/// Word `i` is `-`, and no word before it is.
pub open spec fn is_first_dash(p: Seq<Seq<char>>, i: int) -> bool {
    0 <= i < p.len() && p[i] == "-"@ && forall|j: int| 0 <= j < i ==> p[j] != "-"@
}

/// How the session of a line ended: still running or crashed where the line says so,
/// else shut down at the date and time after the `-` word; a crash where that is missing.
pub open spec fn line_end(line: Seq<char>) -> RecordEnd {
    let p = words(line);
    if contains(line, "still running"@) {
        RecordEnd::StillRunning
    } else if contains(line, "crash"@) {
        RecordEnd::Crash
    } else {
        match first_dash(p) {
            Some(d) => if p.len() > d + 5 {
                RecordEnd::Shutdown(date_time_at(p, d + 2))
            } else {
                RecordEnd::Crash
            },
            None => RecordEnd::Crash,
        }
    }
}

/// The record of one line: none for a line that begins with `wtmp begins` or has fewer
/// than ten words (blank lines among them); else the boot time from words 5 to 8
/// and the end that `line_end` reads.
pub open spec fn parse_reboot_line(line: Seq<char>) -> Option<RebootRecord> {
    if starts_with(line, "wtmp begins"@) || words(line).len() < 10 {
        None
    } else {
        Some(RebootRecord { boot_start: date_time_at(words(line), 5), end: line_end(line) })
    }
}

/// The records of the lines, in order.
pub open spec fn parse_reboot_lines(lines: Seq<Seq<char>>) -> Seq<RebootRecord>
    decreases lines.len(),
{
    if lines.len() == 0 {
        seq![]
    } else {
        let r = parse_reboot_lines(lines.drop_last());
        match parse_reboot_line(lines.last()) {
            Some(x) => r.push(x),
            None => r,
        }
    }
}

/// The records of the output of `last reboot -F`: one for each line that holds one,
/// in the order of the lines.
pub open spec fn parse_reboot_output(s: Seq<char>) -> Seq<RebootRecord> {
    parse_reboot_lines(split_on(s, '\n'))
}

/// A time that the journal printed: the wall clock time and the offset from UTC that
/// came with it, in seconds east of UTC.
#[derive(Debug, Clone, Copy, PartialEq, Eq)]
pub struct JournalStamp {
    pub local: LocalDateTime,
    pub offset_seconds: i32,
}

/// What reading a text gives: a value, an error with its message, or a panic of the
/// byte slicing that the reading does.
pub enum Reading<T> {
    Value(T),
    Failed(Seq<char>),
    Panics,
}

/// The value, in tenths, of a two byte text read as a floating point number, as
/// `f64::from_str` reads it; `None` where that fails. Two bytes hold two ASCII characters
/// or one character that is no digit, so the forms are `dd`, `+d`, `-d`, `.d` and `d.`.
pub open spec fn tenths_of(t: Seq<char>) -> Option<int> {
    if t.len() == 2 {
        let a = t[0];
        let b = t[1];
        match (digit_value(a), digit_value(b)) {
            (Some(x), Some(y)) => Some((100 * x + 10 * y) as int),
            (None, Some(y)) => if a == '+' {
                Some((10 * y) as int)
            } else if a == '-' {
                Some(-10 * y)
            } else if a == '.' {
                Some(y as int)
            } else {
                None
            },
            (Some(x), None) => if b == '.' {
                Some((10 * x) as int)
            } else {
                None
            },
            (None, None) => None,
        }
    } else {
        None
    }
}

/// The offset from UTC, in seconds, of a text such as `+01:00`: none (`None`) where
/// the byte slicing panics. A text of fewer than six bytes gives 0. Bytes 1 to 3 give
/// the hours and bytes 4 to 6 the minutes, each 0 where it is no number, and a leading
/// `-` makes the sum negative.
pub open spec fn offset_reading(s: Seq<char>) -> Option<int> {
    if byte_len(s) < 6 {
        Some(0)
    } else {
        match (byte_slice(s, 1, 3), byte_slice(s, 4, 6)) {
            (Some(h), Some(m)) => {
                let ht = match tenths_of(h) {
                    Some(v) => v,
                    None => 0,
                };
                let mt = match tenths_of(m) {
                    Some(v) => v,
                    None => 0,
                };
                if s.len() > 0 && s[0] == '-' {
                    Some(-(ht * 360 + mt * 6))
                } else {
                    Some(ht * 360 + mt * 6)
                }
            },
            _ => None,
        }
    }
}

/// The first word of the first line of the journal's output: the time stamp.
pub open spec fn journal_token(s: Seq<char>) -> Result<Seq<char>, Seq<char>> {
    if s.len() == 0 {
        Err("Empty journal output"@)
    } else {
        let w = words(split_on(s, '\n')[0]);
        if w.len() == 0 {
            Err("Invalid journal format"@)
        } else {
            Ok(w[0])
        }
    }
}

/// The number between byte offsets `a` and `b` of `iso`, no greater than `max`.
pub open spec fn field_reading(iso: Seq<char>, a: int, b: int, max: nat) -> Reading<nat> {
    match byte_slice(iso, a, b) {
        None => Reading::Panics,
        Some(t) => match parse_unsigned(t, max) {
            Ok(v) => Reading::Value(v),
            Err(k) => Reading::Failed(int_error_message(k)),
        },
    }
}

/// The offset that follows byte 19 of the time stamp.
pub open spec fn zone_reading(iso: Seq<char>) -> Option<int> {
    match byte_slice(iso, 19, byte_len(iso) as int) {
        None => None,
        Some(rest) => offset_reading(rest),
    }
}

/// Where the `k`-th field of the time stamp lies, in bytes, and the greatest value it
/// may take: year, month, day, hour, minute, second of `YYYY-MM-DDThh:mm:ss`.
pub open spec fn field_place(k: int) -> (int, int, nat) {
    if k == 0 {
        (0, 4, 0xFFFF)
    } else if k == 1 {
        (5, 7, 255)
    } else if k == 2 {
        (8, 10, 255)
    } else if k == 3 {
        (11, 13, 255)
    } else if k == 4 {
        (14, 16, 255)
    } else {
        (17, 19, 255)
    }
}

/// Reads the fields of the time stamp from the `k`-th on, after the values `got`; the first
/// field that is no number ends the reading with its error.
pub open spec fn read_fields(iso: Seq<char>, k: nat, got: Seq<nat>) -> Reading<Seq<nat>>
    decreases 6 - k,
{
    if k >= 6 {
        Reading::Value(got)
    } else {
        let (a, b, max) = field_place(k as int);
        match field_reading(iso, a, b, max) {
            Reading::Panics => Reading::Panics,
            Reading::Failed(m) => Reading::Failed(m),
            Reading::Value(v) => read_fields(iso, k + 1, got.push(v)),
        }
    }
}

/// The stamp that six fields and a zone offset make.
pub open spec fn stamp_of(f: Seq<nat>, offset: int) -> JournalStamp {
    JournalStamp {
        local: LocalDateTime {
            year: f[0] as u16,
            month: f[1] as u8,
            day: f[2] as u8,
            hour: f[3] as u8,
            minute: f[4] as u8,
            second: f[5] as u8,
        },
        offset_seconds: offset as i32,
    }
}

/// The time stamp `YYYY-MM-DDThh:mm:ss+hh:mm` at the head of the journal's output,
/// read field by field in this order, each by its byte offsets, and then the zone
/// after byte 19.
pub open spec fn journal_reading(s: Seq<char>) -> Reading<JournalStamp> {
    match journal_token(s) {
        Err(m) => Reading::Failed(m),
        Ok(iso) => match read_fields(iso, 0, seq![]) {
            Reading::Panics => Reading::Panics,
            Reading::Failed(m) => Reading::Failed(m),
            Reading::Value(f) => match zone_reading(iso) {
                None => Reading::Panics,
                Some(o) => Reading::Value(stamp_of(f, o)),
            },
        },
    }
}

/// The reading is no panic.
pub open spec fn journal_in_bounds(s: Seq<char>) -> bool {
    !(journal_reading(s) is Panics)
}

/// A `u8` read from `s`, or `default`.
fn u8_or_default(s: &Vec<char>, default: u8) -> (r: u8)
    ensures
        r == u8_or(s@, default),
{
    match parse_unsigned_text(s, 255) {
        Ok(v) => v as u8,
        Err(_) => default,
    }
}

/// A `u16` read from `s`, or `default`.
fn u16_or_default(s: &Vec<char>, default: u16) -> (r: u16)
    ensures
        r == u16_or(s@, default),
{
    match parse_unsigned_text(s, 0xFFFF) {
        Ok(v) => v as u16,
        Err(_) => default,
    }
}

/// The number of the month that `m` abbreviates.
fn month_of(m: &Vec<char>) -> (r: u8)
    ensures
        r == month_number(m@),
{
    if same_text(m, &chars_of("Jan")) {
        1
    } else if same_text(m, &chars_of("Feb")) {
        2
    } else if same_text(m, &chars_of("Mar")) {
        3
    } else if same_text(m, &chars_of("Apr")) {
        4
    } else if same_text(m, &chars_of("May")) {
        5
    } else if same_text(m, &chars_of("Jun")) {
        6
    } else if same_text(m, &chars_of("Jul")) {
        7
    } else if same_text(m, &chars_of("Aug")) {
        8
    } else if same_text(m, &chars_of("Sep")) {
        9
    } else if same_text(m, &chars_of("Oct")) {
        10
    } else if same_text(m, &chars_of("Nov")) {
        11
    } else if same_text(m, &chars_of("Dec")) {
        12
    } else {
        1
    }
}

/// The date and time of the words from `m` on.
fn date_time_of(p: &Vec<Vec<char>>, m: usize) -> (r: LocalDateTime)
    requires
        m + 3 < p.len(),
    ensures
        r == date_time_at(views(p@), m as int),
{
    let clock = split_text(&p[m + 2], ':');
    let hour = if clock.len() > 0 { u8_or_default(&clock[0], 0) } else { 0 };
    let minute = if clock.len() > 1 { u8_or_default(&clock[1], 0) } else { 0 };
    let second = if clock.len() > 2 { u8_or_default(&clock[2], 0) } else { 0 };
    LocalDateTime {
        year: u16_or_default(&p[m + 3], 1970),
        month: month_of(&p[m]),
        day: u8_or_default(&p[m + 1], 1),
        hour,
        minute,
        second,
    }
}

/// The index of the first word `-`.
fn find_dash(p: &Vec<Vec<char>>) -> (r: Option<usize>)
    ensures
        match r {
            Some(i) => first_dash(views(p@)) == Some(i as int),
            None => first_dash(views(p@)) is None,
        },
{
    let dash = chars_of("-");
    let n = p.len();
    let mut i: usize = 0;
    while i < n
        invariant
            n == p.len(),
            0 <= i <= n,
            dash@ == "-"@,
            forall|j: int| 0 <= j < i ==> views(p@)[j] != "-"@,
        decreases n - i,
    {
        if same_text(&p[i], &dash) {
            proof {
                let q = views(p@);
                assert(is_first_dash(q, i as int));
                let c = choose|k: int| is_first_dash(q, k);
                if c < i {
                    assert(q[c] != "-"@);
                } else if c > i {
                    assert(q[i as int] == "-"@);
                }
            }
            return Some(i);
        }
        i = i + 1;
    }
    None
}

/// The record of one line.
fn reboot_line(line: &Vec<char>) -> (r: Option<RebootRecord>)
    ensures
        r == parse_reboot_line(line@),
{
    let p = split_words(line);
    if has_prefix(line, &chars_of("wtmp begins")) || p.len() < 10 {
        return None;
    }
    let boot_start = date_time_of(&p, 5);
    let end = if has_substring(line, &chars_of("still running")) {
        RecordEnd::StillRunning
    } else if has_substring(line, &chars_of("crash")) {
        RecordEnd::Crash
    } else {
        match find_dash(&p) {
            Some(d) => {
                if p.len() - d > 5 {
                    RecordEnd::Shutdown(date_time_of(&p, d + 2))
                } else {
                    RecordEnd::Crash
                }
            },
            None => RecordEnd::Crash,
        }
    };
    Some(RebootRecord { boot_start, end })
}

/// The tenths that a two byte text gives.
fn tenths_text(t: &Vec<char>) -> (r: Option<i32>)
    ensures
        match r {
            Some(v) => tenths_of(t@) == Some(v as int),
            None => tenths_of(t@) is None,
        },
{
    if t.len() != 2 {
        return None;
    }
    let a = t[0];
    let b = t[1];
    let da = '0' <= a && a <= '9';
    let db = '0' <= b && b <= '9';
    if da && db {
        Some(100 * (a as u32 - '0' as u32) as i32 + 10 * (b as u32 - '0' as u32) as i32)
    } else if db {
        let y = (b as u32 - '0' as u32) as i32;
        if a == '+' {
            Some(10 * y)
        } else if a == '-' {
            Some(-10 * y)
        } else if a == '.' {
            Some(y)
        } else {
            None
        }
    } else if da && b == '.' {
        Some(10 * (a as u32 - '0' as u32) as i32)
    } else {
        None
    }
}

/// The offset of a zone text in seconds; `None` where slicing it panics.
fn offset_text(s: &Vec<char>) -> (r: Option<i32>)
    ensures
        match r {
            Some(v) => offset_reading(s@) == Some(v as int),
            None => offset_reading(s@) is None,
        },
{
    if byte_length(s) < 6 {
        return Some(0);
    }
    let negative = s.len() > 0 && s[0] == '-';
    match (slice_bytes(s, 1, 3), slice_bytes(s, 4, 6)) {
        (Some(h), Some(m)) => {
            let ht = match tenths_text(&h) {
                Some(v) => v,
                None => 0,
            };
            let mt = match tenths_text(&m) {
                Some(v) => v,
                None => 0,
            };
            let total = ht * 360 + mt * 6;
            if negative {
                Some(-total)
            } else {
                Some(total)
            }
        },
        _ => None,
    }
}

/// The number between byte offsets `a` and `b`; `None` where slicing panics.
fn field_text(iso: &Vec<char>, a: usize, b: usize, max: u32) -> (r: Option<Result<u32, LasaError>>)
    requires
        max <= 0xFFFF,
    ensures
        match r {
            None => field_reading(iso@, a as int, b as int, max as nat) is Panics,
            Some(Ok(v)) => field_reading(iso@, a as int, b as int, max as nat) == Reading::<nat>::Value(v as nat) && v <= max,
            Some(Err(e)) => exists|m: String|
                e == LasaError::Parsing(m) && field_reading(iso@, a as int, b as int, max as nat)
                    == Reading::<nat>::Failed(m@),
        },
{
    match slice_bytes(iso, a, b) {
        None => None,
        Some(t) => match parse_unsigned_text(&t, max) {
            Ok(v) => Some(Ok(v)),
            Err(k) => {
                let m = int_error_text(k);
                Some(Err(LasaError::Parsing(m)))
            },
        },
    }
}

/// The journal's time stamp; `None` where slicing it panics.
fn journal_text(output: &str) -> (r: Option<Result<JournalStamp, LasaError>>)
    ensures
        match r {
            None => journal_reading(output@) is Panics,
            Some(Ok(v)) => journal_reading(output@) == Reading::Value(v),
            Some(Err(e)) => exists|m: String|
                e == LasaError::Parsing(m) && journal_reading(output@) == Reading::<
                    JournalStamp,
                >::Failed(m@),
        },
{
    let s = chars_of(output);
    if s.len() == 0 {
        let m = String::from_str("Empty journal output");
        return Some(Err(LasaError::Parsing(m)));
    }
    let lines = split_text(&s, '\n');
    proof {
        crate::text::lemma_split_on_nonempty(s@, '\n');
    }
    let w = split_words(&lines[0]);
    if w.len() == 0 {
        let m = String::from_str("Invalid journal format");
        return Some(Err(LasaError::Parsing(m)));
    }
    let iso = &w[0];
    assert(journal_token(output@) == Ok::<Seq<char>, Seq<char>>(iso@));
    let mut got: Vec<u32> = Vec::new();
    let mut k: usize = 0;
    assert(got@.map_values(|x: u32| x as nat) =~= seq![]);
    while k < 6
        invariant
            journal_token(output@) == Ok::<Seq<char>, Seq<char>>(iso@),
            0 <= k <= 6,
            got@.len() == k,
            forall|t: int| 0 <= t < k ==> got@[t] <= field_place(t).2,
            read_fields(iso@, 0, seq![]) == read_fields(
                iso@,
                k as nat,
                got@.map_values(|x: u32| x as nat),
            ),
        decreases 6 - k,
    {
        let (a, b, max): (usize, usize, u32) = if k == 0 {
            (0, 4, 0xFFFF)
        } else if k == 1 {
            (5, 7, 255)
        } else if k == 2 {
            (8, 10, 255)
        } else if k == 3 {
            (11, 13, 255)
        } else if k == 4 {
            (14, 16, 255)
        } else {
            (17, 19, 255)
        };
        let ghost prev = got@;
        assert(field_place(k as int) == (a as int, b as int, max as nat));
        match field_text(iso, a, b, max) {
            None => return None,
            Some(Err(e)) => return Some(Err(e)),
            Some(Ok(v)) => {
                got.push(v);
                assert(got@.map_values(|x: u32| x as nat) =~= prev.map_values(|x: u32| x as nat).push(
                    v as nat,
                ));
            },
        }
        k = k + 1;
    }
    let ghost f = got@.map_values(|x: u32| x as nat);
    assert(read_fields(iso@, 0, seq![]) == Reading::Value(f));
    let offset = match slice_bytes_from(iso, 19) {
        None => return None,
        Some(rest) => match offset_text(&rest) {
            None => return None,
            Some(o) => o,
        },
    };
    Some(
        Ok(
            JournalStamp {
                local: LocalDateTime {
                    year: got[0] as u16,
                    month: got[1] as u8,
                    day: got[2] as u8,
                    hour: got[3] as u8,
                    minute: got[4] as u8,
                    second: got[5] as u8,
                },
                offset_seconds: offset,
            },
        ),
    )
}

impl Parser {
    /// Whether reading the journal's output `output` stays within its text: the reading
    /// slices the time stamp by byte offsets, which panics where a field is cut short.
    pub fn journal_output_in_bounds(output: &str) -> (b: bool)
        ensures
            b == journal_in_bounds(output@),
    {
        journal_text(output).is_some()
    }

    /// Reads the time stamp at the head of the output of
    /// `journalctl -n 1 --output=short-iso`, such as `2026-03-12T07:52:10+01:00 host ...`.
    /// Empty output and output with no word in its first line are parse errors, and so is
    /// a field that is no number, with the message of the integer parse.
    pub fn parse_journal_output(output: &str) -> (r: Result<JournalStamp, LasaError>)
        requires
            journal_in_bounds(output@),
        ensures
            match r {
                Ok(v) => journal_reading(output@) == Reading::Value(v),
                Err(e) => exists|m: String|
                    e == LasaError::Parsing(m) && journal_reading(output@) == Reading::<
                        JournalStamp,
                    >::Failed(m@),
            },
    {
        match journal_text(output) {
            Some(r) => r,
            None => Err(LasaError::JournalProbeFailed),
        }
    }

    /// The offset from UTC of an ISO 8601 zone text such as `+01:00`, in seconds east of
    /// UTC (3600 for `+01:00`); 0 for a text of fewer than six bytes.
    pub fn parse_offset_string(offset_str: &str) -> (r: i32)
        requires
            offset_reading(offset_str@) is Some,
        ensures
            offset_reading(offset_str@) == Some(r as int),
    {
        match offset_text(&chars_of(offset_str)) {
            Some(v) => v,
            None => 0,
        }
    }

    /// Reads the output of `last reboot -F`: one record for each line that holds a boot,
    /// newest first as the tool prints them. Lines that begin with `wtmp begins`, blank
    /// lines and lines of fewer than ten words are passed over. Fields that are no number
    /// read as a default: day 1, year 1970, hour, minute and second 0; a month that is no
    /// English abbreviation reads as 1.
    pub fn parse_last_reboot(output: &str) -> (r: Vec<RebootRecord>)
        ensures
            r@ == parse_reboot_output(output@),
    {
        let s = chars_of(output);
        let n = s.len();
        let mut records: Vec<RebootRecord> = Vec::new();
        let mut line: Vec<char> = Vec::new();
        let mut i: usize = 0;
        proof {
            crate::text::lemma_split_on_nonempty(s@, '\n');
        }
        while i < n
            invariant
                n == s.len(),
                0 <= i <= n,
                split_on(s@.take(i as int), '\n').len() >= 1,
                split_on(s@.take(i as int), '\n').last() == line@,
                records@ == parse_reboot_lines(split_on(s@.take(i as int), '\n').drop_last()),
            decreases n - i,
        {
            let c = s[i];
            let ghost before = split_on(s@.take(i as int), '\n');
            assert(s@.take(i + 1).drop_last() == s@.take(i as int));
            if c == '\n' {
                match reboot_line(&line) {
                    Some(rec) => records.push(rec),
                    None => {},
                }
                line = Vec::new();
                assert(split_on(s@.take(i + 1), '\n').drop_last() == before);
                assert(before.drop_last().push(before.last()) == before);
            } else {
                line.push(c);
                assert(split_on(s@.take(i + 1), '\n').drop_last() =~= before.drop_last());
            }
            i = i + 1;
        }
        assert(s@.take(n as int) == s@);
        let ghost all = split_on(s@, '\n');
        assert(all.drop_last().push(all.last()) == all);
        match reboot_line(&line) {
            Some(rec) => records.push(rec),
            None => {},
        }
        records
    }

    /// The number of the month that `month` abbreviates in English (`Jan` is 1,
    /// `Dec` is 12); 1 for anything else.
    pub fn month_to_u8(month: &str) -> (r: u8)
        ensures
            r == month_number(month@),
    {
        month_of(&chars_of(month))
    }
}

} // verus!
