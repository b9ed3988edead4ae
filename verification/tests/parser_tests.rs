use lasa::error::LasaError;
use lasa::parser::{JournalStamp, LocalDateTime, Parser, RebootRecord, RecordEnd};

const SAMPLE: &str = "reboot   system boot  6.12.73+deb13-am Fri Mar  6 21:00:14 2026 - still running
reboot   system boot  6.12.73+deb13-am Fri Feb 20 05:57:35 2026 - Fri Mar  6 20:59:20 2026 (14+15:01)
reboot   system boot  6.12.73+deb13-am Fri Feb 20 02:00:52 2026 - Fri Feb 20 05:56:42 2026  (03:55)
reboot   system boot  6.12.63+deb13-am Tue Jan 20 16:11:25 2026 - crash (00:07)

wtmpdb begins Tue Jan 20 16:03:52 2026
";

fn dt(year: u16, month: u8, day: u8, hour: u8, minute: u8, second: u8) -> LocalDateTime {
    LocalDateTime { year, month, day, hour, minute, second }
}

#[test]
fn parses_last_reboot_sample() {
    let records = Parser::parse_last_reboot(SAMPLE);
    assert_eq!(records.len(), 4);
    assert_eq!(
        records[0],
        RebootRecord { boot_start: dt(2026, 3, 6, 21, 0, 14), end: RecordEnd::StillRunning }
    );
    assert_eq!(
        records[1],
        RebootRecord {
            boot_start: dt(2026, 2, 20, 5, 57, 35),
            end: RecordEnd::Shutdown(dt(2026, 3, 6, 20, 59, 20)),
        }
    );
    assert_eq!(
        records[2],
        RebootRecord {
            boot_start: dt(2026, 2, 20, 2, 0, 52),
            end: RecordEnd::Shutdown(dt(2026, 2, 20, 5, 56, 42)),
        }
    );
    assert_eq!(
        records[3],
        RebootRecord { boot_start: dt(2026, 1, 20, 16, 11, 25), end: RecordEnd::Crash }
    );
}

#[test]
fn skips_short_and_wtmp_lines() {
    let text = "wtmp begins Tue Jan 20 16:03:52 2026 a b c d e f\n\n   \nonly a few words here\n";
    assert!(Parser::parse_last_reboot(text).is_empty());
    assert!(Parser::parse_last_reboot("").is_empty());
}

#[test]
fn handles_crlf_and_missing_final_newline() {
    let text = "reboot system boot 6.1 Tue Jan 20 16:11:25 2026 - still running\r\nreboot system boot 6.1 Mon Jan 19 01:02:03 2025 - crash (00:07)";
    let records = Parser::parse_last_reboot(text);
    assert_eq!(records.len(), 2);
    assert_eq!(records[0].end, RecordEnd::StillRunning);
    assert_eq!(records[1].boot_start, dt(2025, 1, 19, 1, 2, 3));
    assert_eq!(records[1].end, RecordEnd::Crash);
}

#[test]
fn defaults_for_fields_that_are_no_numbers() {
    let text = "reboot system boot 6.1 Tue Foo x 1:2 year - Abc y d z:9:+7:8 yr";
    let records = Parser::parse_last_reboot(text);
    assert_eq!(records.len(), 1);
    assert_eq!(records[0].boot_start, dt(1970, 1, 1, 1, 2, 0));
    assert_eq!(records[0].end, RecordEnd::Shutdown(dt(1970, 1, 1, 0, 9, 7)));
}

#[test]
fn end_without_enough_words_is_a_crash() {
    let text = "reboot system boot 6.1 Tue Jan 20 16:11:25 2026 - Tue Jan 20";
    let records = Parser::parse_last_reboot(text);
    assert_eq!(records[0].end, RecordEnd::Crash);
    let no_dash = "reboot system boot 6.1 Tue Jan 20 16:11:25 2026 a b c d e f";
    assert_eq!(Parser::parse_last_reboot(no_dash)[0].end, RecordEnd::Crash);
}

#[test]
fn unicode_white_space_separates_words() {
    let text = "reboot\u{3000}system boot 6.1 Tue Dec\u{00A0}31 23:59:59 1999 - still running";
    let records = Parser::parse_last_reboot(text);
    assert_eq!(records.len(), 1);
    assert_eq!(records[0].boot_start, dt(1999, 12, 31, 23, 59, 59));
}

#[test]
fn numbers_that_overflow_read_as_defaults() {
    let text = "reboot system boot 6.1 Tue Jan 256 16:11:300 70000 - still running";
    let r = Parser::parse_last_reboot(text);
    assert_eq!(r[0].boot_start, dt(1970, 1, 1, 16, 11, 0));
    let plus = "reboot system boot 6.1 Tue Jan +7 +1:+2:+3 +2024 - still running";
    assert_eq!(Parser::parse_last_reboot(plus)[0].boot_start, dt(2024, 1, 7, 1, 2, 3));
}

#[test]
fn month_abbreviations() {
    let names = ["Jan", "Feb", "Mar", "Apr", "May", "Jun", "Jul", "Aug", "Sep", "Oct", "Nov", "Dec"];
    for (i, name) in names.iter().enumerate() {
        assert_eq!(Parser::month_to_u8(name), (i + 1) as u8);
    }
    assert_eq!(Parser::month_to_u8("jan"), 1);
    assert_eq!(Parser::month_to_u8("December"), 1);
    assert_eq!(Parser::month_to_u8(""), 1);
}

#[test]
fn offset_strings() {
    assert_eq!(Parser::parse_offset_string("+01:00"), 3600);
    assert_eq!(Parser::parse_offset_string("-05:30"), -19800);
    assert_eq!(Parser::parse_offset_string("+05:45"), 20700);
    assert_eq!(Parser::parse_offset_string("Z"), 0);
    assert_eq!(Parser::parse_offset_string("+01:0"), 0);
    assert_eq!(Parser::parse_offset_string("+ab:cd"), 0);
    assert_eq!(Parser::parse_offset_string("+.5:00"), 1800);
    assert_eq!(Parser::parse_offset_string("+1.:.5"), 3630);
    assert_eq!(Parser::parse_offset_string("-+1:-3"), -3420);
    assert_eq!(Parser::parse_offset_string("x02:00"), 7200);
}

#[test]
fn offset_sign_is_symmetric() {
    assert_eq!(
        Parser::parse_offset_string("-03:15"),
        -Parser::parse_offset_string("+03:15")
    );
}

#[test]
fn journal_output() {
    let out = "2026-03-12T07:52:10+01:00 host kernel: something\nnext line\n";
    assert!(Parser::journal_output_in_bounds(out));
    assert_eq!(
        Parser::parse_journal_output(out),
        Ok(JournalStamp { local: dt(2026, 3, 12, 7, 52, 10), offset_seconds: 3600 })
    );
    let utc = "  2025-12-31T23:59:59Z host";
    assert_eq!(
        Parser::parse_journal_output(utc),
        Ok(JournalStamp { local: dt(2025, 12, 31, 23, 59, 59), offset_seconds: 0 })
    );
}

#[test]
fn journal_errors() {
    assert_eq!(
        Parser::parse_journal_output(""),
        Err(LasaError::Parsing("Empty journal output".to_string()))
    );
    assert_eq!(
        Parser::parse_journal_output("\nsecond line"),
        Err(LasaError::Parsing("Invalid journal format".to_string()))
    );
    assert_eq!(
        Parser::parse_journal_output("20x6-03-12T07:52:10+01:00"),
        Err(LasaError::Parsing("invalid digit found in string".to_string()))
    );
    assert_eq!(
        Parser::parse_journal_output("2026-0x-12"),
        Err(LasaError::Parsing("invalid digit found in string".to_string()))
    );
}

#[test]
fn journal_output_out_of_bounds() {
    assert!(!Parser::journal_output_in_bounds("--"));
    assert!(!Parser::journal_output_in_bounds("2026-03-12T07"));
    assert!(!Parser::journal_output_in_bounds("2026-03-12T07:52:10+1é:00"));
    assert!(Parser::journal_output_in_bounds("2026-03-12T07:52:10+é1:00"));
    assert!(Parser::journal_output_in_bounds("2026-03-12T07:52:10"));
    assert!(!Parser::journal_output_in_bounds("-- No entries --"));
}

#[test]
fn each_line_is_read_on_its_own() {
    let a = "reboot system boot 6.1 Tue Jan 20 16:11:25 2026 - still running\n";
    let b = "reboot system boot 6.1 Mon Jan 19 01:02:03 2026 - crash (00:07)\nwtmp begins x\n";
    let mut joined = Parser::parse_last_reboot(a);
    joined.extend(Parser::parse_last_reboot(b));
    let whole = format!("{}{}", a, b);
    assert_eq!(Parser::parse_last_reboot(&whole), joined);
    assert_eq!(joined.len(), 2);
}
