//! Boot sessions: when each began and how it ended.
use vstd::prelude::*;
use crate::error::LasaError;
use vstd::string::StringExecFns;

verus! {

/// A moment in time: seconds since the Unix epoch, and the calendar year and month
/// that the moment falls in.
#[derive(Debug, Clone, Copy, PartialEq, Eq)]
pub struct Instant {
    pub timestamp: i64,
    pub year: u16,
    pub month: u8,
}

/// How a boot session ended.
#[derive(Debug, Clone, Copy, PartialEq, Eq)]
pub enum SessionEnd {
    /// The session is the one that is running now.
    StillRunning,
    /// The session ended without a shutdown, and the journal did not tell when.
    Crash,
    /// The session was shut down at the given moment.
    Shutdown(Instant),
    /// The session crashed; the journal's last entry of it was written at the given moment.
    Recovered(Instant),
}

/// One boot session of the machine.
#[derive(Debug, Clone, Copy, PartialEq, Eq)]
pub struct Session {
    pub boot_start: Instant,
    pub session_end: SessionEnd,
}

/// The sessions, or the error that there are none: everything after needs one at least.
pub fn require_sessions(sessions: Vec<Session>) -> (r: Result<Vec<Session>, LasaError>)
    ensures
        sessions@.len() > 0 ==> r == Ok::<Vec<Session>, LasaError>(sessions),
        sessions@.len() == 0 ==> exists|m: String|
            r == Err::<Vec<Session>, LasaError>(LasaError::NoData(m)) && m@
                == "last reboot output is empty"@,
{
    if sessions.len() == 0 {
        Err(LasaError::NoData(String::from_str("last reboot output is empty")))
    } else {
        Ok(sessions)
    }
}

/// The positions of the sessions that crashed with no time of their end, in increasing order:
/// those for which the journal is to be asked.
pub fn crashed_sessions(sessions: &Vec<Session>) -> (r: Vec<usize>)
    ensures
        forall|t: int| 0 <= t < r@.len() ==> r@[t] < sessions@.len() && sessions@[r@[t] as int].session_end is Crash,
        forall|t: int, u: int| 0 <= t < u < r@.len() ==> r@[t] < r@[u],
        forall|i: int| 0 <= i < sessions@.len() && sessions@[i].session_end is Crash ==> r@.contains(i as usize),
{
    let mut r: Vec<usize> = Vec::new();
    let n = sessions.len();
    let mut i: usize = 0;
    while i < n
        invariant
            n == sessions@.len(),
            0 <= i <= n,
            forall|t: int| 0 <= t < r@.len() ==> r@[t] < i && sessions@[r@[t] as int].session_end is Crash,
            forall|t: int, u: int| 0 <= t < u < r@.len() ==> r@[t] < r@[u],
            forall|k: int| 0 <= k < i && sessions@[k].session_end is Crash ==> r@.contains(k as usize),
        decreases n - i,
    {
        let ghost prev = r@;
        if let SessionEnd::Crash = sessions[i].session_end {
            r.push(i);
            assert(r@[r@.len() - 1] == i);
        }
        assert forall|k: int| 0 <= k < i + 1 && sessions@[k].session_end is Crash implies r@.contains(k as usize) by {
            if k < i {
                assert(prev.contains(k as usize));
                let t = choose|t: int| 0 <= t < prev.len() && prev[t] == k as usize;
                assert(r@[t] == k as usize);
            } else {
                assert(r@[r@.len() - 1] == i);
            }
        }
        i = i + 1;
    }
    r
}

/// The boot offset by which the journal names the session at position `index` of a newest
/// first boot list: 0 for the running session, -1 for the session before it, -2 for the one
/// before that.
pub fn journal_boot_offset(index: usize) -> (r: i32)
    requires
        index <= 0x7FFF_FFFF,
    ensures
        r == -(index as int),
{
    -(index as i32)
}

/// Records what the journal told of the session at `index`: where it crashed and the journal
/// gave the time of its last entry, the session ends there; otherwise it stays as it was.
pub fn apply_journal_probe(sessions: &mut Vec<Session>, index: usize, last_entry: Option<Instant>)
    requires
        index < old(sessions)@.len(),
    ensures
        (old(sessions)@[index as int].session_end is Crash && last_entry is Some) ==> final(sessions)@
            == old(sessions)@.update(
            index as int,
            Session {
                boot_start: old(sessions)@[index as int].boot_start,
                session_end: SessionEnd::Recovered(last_entry->0),
            },
        ),
        !(old(sessions)@[index as int].session_end is Crash && last_entry is Some) ==> final(sessions)@
            == old(sessions)@,
{
    if let SessionEnd::Crash = sessions[index].session_end {
        if let Some(t) = last_entry {
            let boot_start = sessions[index].boot_start;
            sessions.set(index, Session { boot_start, session_end: SessionEnd::Recovered(t) });
        }
    }
}

} // verus!
