use lasa::error::LasaError;
use lasa::session::{
    apply_journal_probe, crashed_sessions, journal_boot_offset, require_sessions, Instant, Session,
    SessionEnd,
};

fn at(timestamp: i64) -> Instant {
    Instant { timestamp, year: 2026, month: 3 }
}

#[test]
fn no_sessions_is_an_error() {
    assert_eq!(
        require_sessions(Vec::new()),
        Err(LasaError::NoData("last reboot output is empty".to_string()))
    );
    let one = vec![Session { boot_start: at(1), session_end: SessionEnd::StillRunning }];
    assert_eq!(require_sessions(one.clone()), Ok(one));
}

#[test]
fn crashed_sessions_in_order() {
    let sessions = vec![
        Session { boot_start: at(9), session_end: SessionEnd::StillRunning },
        Session { boot_start: at(7), session_end: SessionEnd::Crash },
        Session { boot_start: at(5), session_end: SessionEnd::Shutdown(at(6)) },
        Session { boot_start: at(3), session_end: SessionEnd::Crash },
    ];
    assert_eq!(crashed_sessions(&sessions), vec![1, 3]);
    assert_eq!(journal_boot_offset(1), -1);
    assert_eq!(journal_boot_offset(3), -3);
    assert_eq!(journal_boot_offset(0), 0);
}

#[test]
fn journal_probe_recovers_a_crash() {
    let mut sessions = vec![
        Session { boot_start: at(9), session_end: SessionEnd::StillRunning },
        Session { boot_start: at(7), session_end: SessionEnd::Crash },
    ];
    apply_journal_probe(&mut sessions, 1, None);
    assert_eq!(sessions[1].session_end, SessionEnd::Crash);
    apply_journal_probe(&mut sessions, 0, Some(at(8)));
    assert_eq!(sessions[0].session_end, SessionEnd::StillRunning);
    apply_journal_probe(&mut sessions, 1, Some(at(8)));
    assert_eq!(sessions[1], Session { boot_start: at(7), session_end: SessionEnd::Recovered(at(8)) });
}
