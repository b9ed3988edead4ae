use lasa::database::{
    construct_full_database, downtime_events, downtime_fits, make_history_object, new_statistics,
    update_database, update_events, update_meets_unrecovered_crash, update_metadata, Database,
    Metadata, PeriodStats, Statistics,
};
use lasa::history::{new_month, new_year, DatedEvent, DowntimeEvent, EventKind, History};
use lasa::session::{Instant, Session, SessionEnd};
use lasa::stats::{calculate_statistics, construct_all_time_sum, get_first_boot, get_sums, Clock};

fn at(timestamp: i64, year: u16, month: u8) -> Instant {
    Instant { timestamp, year, month }
}

fn session(boot: Instant, end: SessionEnd) -> Session {
    Session { boot_start: boot, session_end: end }
}

fn event(down_at: i64, up_at: i64, down_seconds: u64, kind: EventKind) -> DowntimeEvent {
    DowntimeEvent { down_at, up_at, down_seconds, kind }
}

/// Newest first: the running boot, a session ended by a shutdown, one recovered from a crash
/// in the year before, one crashed with no known end, and the oldest.
fn sample_sessions() -> Vec<Session> {
    vec![
        session(at(10_000, 2026, 3), SessionEnd::StillRunning),
        session(at(8_000, 2026, 2), SessionEnd::Shutdown(at(9_000, 2026, 3))),
        session(at(5_000, 2025, 12), SessionEnd::Recovered(at(7_000, 2025, 12))),
        session(at(3_000, 2025, 12), SessionEnd::Crash),
        session(at(1_000, 2025, 11), SessionEnd::Shutdown(at(2_000, 2025, 11))),
    ]
}

#[test]
fn downtime_between_consecutive_sessions() {
    let events = downtime_events(&sample_sessions());
    assert_eq!(
        events,
        vec![
            DatedEvent { year: 2026, month: 3, event: event(9_000, 10_000, 1_000, EventKind::Reboot) },
            DatedEvent { year: 2025, month: 12, event: event(7_000, 8_000, 1_000, EventKind::Crash) },
            DatedEvent { year: 2025, month: 12, event: event(5_000, 5_000, 0, EventKind::Crash) },
            DatedEvent { year: 2025, month: 11, event: event(2_000, 3_000, 1_000, EventKind::Reboot) },
        ]
    );
}

#[test]
fn downtime_is_never_negative() {
    let sessions = vec![
        session(at(100, 2026, 1), SessionEnd::StillRunning),
        session(at(50, 2026, 1), SessionEnd::Shutdown(at(150, 2026, 1))),
    ];
    let events = downtime_events(&sessions);
    assert_eq!(events[0].event.down_seconds, 0);
}

#[test]
fn builds_the_full_database() {
    let db = construct_full_database(&sample_sessions());
    assert_eq!(db.metadata, Metadata { first_recorded_boot: 1_000, last_recorded_boot: 10_000 });
    assert_eq!(db.statistics, new_statistics());
    let h = &db.history;
    assert_eq!(h.years.len(), 2);
    assert_eq!(h.years[0].year, 2026);
    assert_eq!(h.years[0].sum_seconds, 1_000);
    assert_eq!(h.years[1].year, 2025);
    assert_eq!(h.years[1].sum_seconds, 2_000);
    assert_eq!(h.years[1].months.len(), 2);
    assert_eq!(h.years[1].months[0].month, 12);
    assert_eq!(h.years[1].months[0].events.len(), 2);
    assert_eq!(h.years[1].months[0].sum_seconds, 1_000);
    assert_eq!(h.years[1].months[1].month, 11);
    assert_eq!(h.years[1].months[1].sum_seconds, 1_000);
    assert_eq!(h.total_seconds(), 3_000);
    assert_eq!(h.year_sum_of(2025), 2_000);
    assert_eq!(h.month_sum_of(2025, 12), 1_000);
    assert_eq!(h.month_sum_of(2024, 12), 0);
}

#[test]
fn a_single_session_has_no_downtime() {
    let sessions = vec![session(at(500, 2026, 1), SessionEnd::StillRunning)];
    let db = construct_full_database(&sessions);
    assert_eq!(db.metadata, Metadata { first_recorded_boot: 500, last_recorded_boot: 500 });
    assert!(db.history.years.is_empty());
    assert!(make_history_object(&sessions).years.is_empty());
}

#[test]
fn records_events_under_their_month() {
    let mut h = History::new();
    h.record_event(2026, 3, event(1, 2, 1, EventKind::Reboot));
    h.record_event(2026, 4, event(3, 7, 4, EventKind::Crash));
    h.record_event(2026, 3, event(10, 20, 10, EventKind::Reboot));
    h.record_event(2025, 3, event(0, 100, 100, EventKind::Reboot));
    assert_eq!(h.years.len(), 2);
    assert_eq!(h.years[0].sum_seconds, 15);
    assert_eq!(h.years[0].months[0].events.len(), 2);
    assert_eq!(h.years[0].months[0].sum_seconds, 11);
    assert_eq!(h.years[0].months[1].sum_seconds, 4);
    assert_eq!(h.years[1].sum_seconds, 100);
    assert_eq!(h.total_seconds(), 115);
}

#[test]
fn new_year_and_month_are_empty() {
    let y = new_year(2026);
    assert_eq!((y.year, y.months.len(), y.sum_seconds), (2026, 0, 0));
    let m = new_month(7);
    assert_eq!((m.month, m.events.len(), m.sum_seconds), (7, 0, 0));
}

#[test]
fn update_takes_in_only_new_sessions() {
    let old = vec![
        session(at(5_000, 2025, 12), SessionEnd::StillRunning),
        session(at(1_000, 2025, 11), SessionEnd::Shutdown(at(2_000, 2025, 11))),
    ];
    let mut db = construct_full_database(&old);
    assert_eq!(db.history.total_seconds(), 3_000);
    let new = vec![
        session(at(10_000, 2026, 3), SessionEnd::StillRunning),
        session(at(8_000, 2026, 2), SessionEnd::Shutdown(at(9_000, 2026, 3))),
        session(at(5_000, 2025, 12), SessionEnd::Recovered(at(7_000, 2025, 12))),
        session(at(1_000, 2025, 11), SessionEnd::Shutdown(at(2_000, 2025, 11))),
    ];
    assert!(!update_meets_unrecovered_crash(&new, 5_000));
    update_database(&mut db, &new);
    assert_eq!(db.metadata, Metadata { first_recorded_boot: 1_000, last_recorded_boot: 10_000 });
    assert_eq!(db.history.total_seconds(), 5_000);
    assert_eq!(db.history.month_sum_of(2026, 3), 1_000);
    assert_eq!(db.history.month_sum_of(2025, 12), 1_000);
    assert_eq!(db.history.month_sum_of(2025, 11), 3_000);
}

#[test]
fn update_twice_counts_once() {
    let sessions = sample_sessions();
    let mut db = construct_full_database(&sessions);
    let before = db.history.clone();
    assert!(update_events(&sessions, db.metadata.last_recorded_boot).is_empty());
    // The crash with no known end lies behind the newest boot's cut.
    assert!(!update_meets_unrecovered_crash(&sessions, db.metadata.last_recorded_boot));
    update_database(&mut db, &sessions);
    assert_eq!(db.history, before);
}

#[test]
fn update_events_for_the_newest_session() {
    let sessions = vec![session(at(100, 2026, 1), SessionEnd::Shutdown(at(400, 2026, 1)))];
    let events = update_events(&sessions, 0);
    assert_eq!(events, vec![DatedEvent { year: 2026, month: 1, event: event(400, 100, 0, EventKind::Reboot) }]);
}

#[test]
fn update_meets_an_unrecovered_crash() {
    let sessions = vec![
        session(at(10_000, 2026, 3), SessionEnd::StillRunning),
        session(at(8_000, 2026, 2), SessionEnd::Crash),
    ];
    assert!(update_meets_unrecovered_crash(&sessions, 0));
    let cut = vec![
        session(at(10_000, 2026, 3), SessionEnd::StillRunning),
        session(at(8_000, 2026, 2), SessionEnd::Shutdown(at(9_000, 2026, 3))),
        session(at(5_000, 2026, 2), SessionEnd::Crash),
    ];
    assert!(update_meets_unrecovered_crash(&cut, 0));
    assert!(!update_meets_unrecovered_crash(&cut, 9_000));
}

#[test]
fn update_metadata_returns_the_previous_boot() {
    let mut db = construct_full_database(&sample_sessions());
    let newest = session(at(20_000, 2026, 4), SessionEnd::StillRunning);
    assert_eq!(update_metadata(&mut db, &newest), 10_000);
    assert_eq!(db.metadata.last_recorded_boot, 20_000);
    assert_eq!(db.metadata.first_recorded_boot, 1_000);
}

#[test]
fn downtime_that_overflows_does_not_fit() {
    let h = History::new();
    let big = DatedEvent { year: 2026, month: 1, event: event(0, 0, u64::MAX, EventKind::Reboot) };
    assert!(downtime_fits(&h, &vec![big]));
    assert!(!downtime_fits(&h, &vec![big, big]));
}

#[test]
fn statistics_of_the_current_periods() {
    let mut db = construct_full_database(&sample_sessions());
    let clock = Clock { now: at(12_000, 2025, 12), year_start: 4_000, month_start: 6_000 };
    calculate_statistics(&mut db, &clock);
    assert_eq!(
        db.statistics,
        Statistics {
            all_time: PeriodStats { total_downtime_seconds: 3_000, elapsed_seconds: 11_000 },
            year: 2025,
            current_year: PeriodStats { total_downtime_seconds: 2_000, elapsed_seconds: 8_000 },
            month: 12,
            current_month: PeriodStats { total_downtime_seconds: 1_000, elapsed_seconds: 6_000 },
        }
    );
    assert_eq!(get_first_boot(&db), 1_000);
    assert_eq!(get_sums(&db.history, 2026, 3), (3_000, 1_000, 1_000));
    assert_eq!(get_sums(&db.history, 2024, 1), (3_000, 0, 0));
    assert_eq!(construct_all_time_sum(&db.history), 3_000);
}

#[test]
fn sums_nest() {
    let db: Database = construct_full_database(&sample_sessions());
    let h = &db.history;
    for (y, m) in [(2025u16, 12u8), (2025, 11), (2026, 3), (2026, 1)] {
        assert!(h.month_sum_of(y, m) <= h.year_sum_of(y));
        assert!(h.year_sum_of(y) as u128 <= h.total_seconds());
    }
}

#[test]
fn sample_history_names_only_its_year() {
    let sessions = vec![
        session(at(1_772_827_214, 2026, 3), SessionEnd::StillRunning),
        session(at(1_771_567_055, 2026, 2), SessionEnd::Shutdown(at(1_772_827_160, 2026, 3))),
        session(at(1_771_552_852, 2026, 2), SessionEnd::Shutdown(at(1_771_567_002, 2026, 2))),
    ];
    let h = make_history_object(&sessions);
    assert_eq!(h.years.len(), 1);
    assert_eq!(h.years[0].year, 2026);
    assert_eq!(h.years[0].sum_seconds, 107);
    assert_eq!(h.years[0].months[0].month, 3);
    assert_eq!(h.years[0].months[0].sum_seconds, 54);
    assert_eq!(h.years[0].months[1].month, 2);
    assert_eq!(h.years[0].months[1].sum_seconds, 53);
    assert!(make_history_object(&Vec::new()).years.is_empty());
}

#[test]
fn update_matches_a_rebuild() {
    let old = vec![
        session(at(5_000, 2025, 12), SessionEnd::StillRunning),
        session(at(1_000, 2025, 11), SessionEnd::Shutdown(at(2_000, 2025, 11))),
    ];
    let new = vec![
        session(at(10_000, 2026, 3), SessionEnd::StillRunning),
        session(at(8_000, 2026, 2), SessionEnd::Shutdown(at(9_000, 2026, 3))),
        session(at(5_000, 2025, 12), SessionEnd::Recovered(at(7_000, 2025, 12))),
        session(at(1_000, 2025, 11), SessionEnd::Shutdown(at(2_000, 2025, 11))),
    ];
    let mut updated = construct_full_database(&old);
    update_database(&mut updated, &new);
    let rebuilt = construct_full_database(&new);
    assert_eq!(updated.history.total_seconds(), rebuilt.history.total_seconds());
    for (y, m) in [(2026u16, 3u8), (2025, 12), (2025, 11)] {
        assert_eq!(updated.history.month_sum_of(y, m), rebuilt.history.month_sum_of(y, m));
        assert_eq!(updated.history.year_sum_of(y), rebuilt.history.year_sum_of(y));
    }
}

#[test]
fn a_year_without_events_is_not_well_formed() {
    let h = History { years: vec![new_year(1999)] };
    assert!(!h.is_well_formed());
    assert!(construct_full_database(&sample_sessions()).history.is_well_formed());
}
