//! The database of boots and downtime: building it from the boot list, and updating it.
use vstd::prelude::*;
use crate::history::{
    holds_exactly, list_seconds, years_after, YearRecord, records, DatedEvent, DowntimeEvent, EventKind, History, lemma_list_seconds_nonneg,
};
use crate::session::{Instant, Session, SessionEnd};

verus! {

/// When the history begins and which boot it has taken in last, in seconds since the Unix epoch.
#[derive(Debug, Clone, Copy, PartialEq, Eq)]
pub struct Metadata {
    pub first_recorded_boot: i64,
    pub last_recorded_boot: i64,
}

/// The downtime of a period and the time that has passed in it, in seconds.
#[derive(Debug, Clone, Copy, PartialEq, Eq)]
pub struct PeriodStats {
    pub total_downtime_seconds: u128,
    pub elapsed_seconds: i128,
}

/// Downtime over all time, in the current year and in the current month.
#[derive(Debug, Clone, Copy, PartialEq, Eq)]
pub struct Statistics {
    pub all_time: PeriodStats,
    pub year: u16,
    pub current_year: PeriodStats,
    pub month: u8,
    pub current_month: PeriodStats,
}

/// Everything Lasa keeps between runs.
#[derive(Debug, Clone, PartialEq, Eq)]
pub struct Database {
    pub metadata: Metadata,
    pub history: History,
    pub statistics: Statistics,
}

/// The seconds from `earlier` to `later`; 0 where `later` is not after `earlier`.
pub open spec fn gap_seconds(later: i64, earlier: i64) -> int {
    if later > earlier {
        later - earlier
    } else {
        0
    }
}

/// The event that a session's end and the boot `up` that follows it make. A crash with no
/// known end counts no downtime and is dated at the boot; a shutdown or a crash whose last
/// journal entry is known is dated at that moment and lasts until the boot.
pub open spec fn downtime_event(up: Instant, end: SessionEnd) -> DatedEvent {
    match end {
        SessionEnd::Shutdown(t) => DatedEvent {
            year: t.year,
            month: t.month,
            event: DowntimeEvent {
                down_at: t.timestamp,
                up_at: up.timestamp,
                down_seconds: gap_seconds(up.timestamp, t.timestamp) as u64,
                kind: EventKind::Reboot,
            },
        },
        SessionEnd::Recovered(t) => DatedEvent {
            year: t.year,
            month: t.month,
            event: DowntimeEvent {
                down_at: t.timestamp,
                up_at: up.timestamp,
                down_seconds: gap_seconds(up.timestamp, t.timestamp) as u64,
                kind: EventKind::Crash,
            },
        },
        _ => DatedEvent {
            year: up.year,
            month: up.month,
            event: DowntimeEvent {
                down_at: up.timestamp,
                up_at: up.timestamp,
                down_seconds: 0,
                kind: EventKind::Crash,
            },
        },
    }
}

/// The downtime between each two consecutive sessions of a boot list that is newest first:
/// the end of the older one and the boot of the newer one, newest first.
pub open spec fn pair_events(s: Seq<Session>) -> Seq<DatedEvent> {
    Seq::new(
        if s.len() == 0 {
            0
        } else {
            (s.len() - 1) as nat
        },
        |i: int| downtime_event(s[i].boot_start, s[i + 1].session_end),
    )
}

/// Only the newest session of the list can still be running.
pub open spec fn only_newest_running(s: Seq<Session>) -> bool {
    forall|i: int| 1 <= i < s.len() ==> !(#[trigger] s[i].session_end is StillRunning)
}

/// The boot that follows session `i` of a newest first list: that of session `i - 1`;
/// for the newest session, its own.
pub open spec fn following_boot(s: Seq<Session>, i: int) -> Instant {
    if i == 0 {
        s[0].boot_start
    } else {
        s[i - 1].boot_start
    }
}

/// The events that an update takes in from the sessions, from the `i`-th on: running sessions
/// are passed over, and the first session that ended at or before `last` (a boot that the
/// history already holds) ends the update.
pub open spec fn update_events_from(s: Seq<Session>, last: i64, i: int) -> Seq<DatedEvent>
    decreases s.len() - i,
{
    if i < 0 || i >= s.len() {
        seq![]
    } else {
        match s[i].session_end {
            SessionEnd::StillRunning => update_events_from(s, last, i + 1),
            SessionEnd::Crash => seq![],
            SessionEnd::Shutdown(t) => if t.timestamp <= last {
                seq![]
            } else {
                seq![downtime_event(following_boot(s, i), s[i].session_end)] + update_events_from(
                    s,
                    last,
                    i + 1,
                )
            },
            SessionEnd::Recovered(t) => if t.timestamp <= last {
                seq![]
            } else {
                seq![downtime_event(following_boot(s, i), s[i].session_end)] + update_events_from(
                    s,
                    last,
                    i + 1,
                )
            },
        }
    }
}

/// The update, from the `i`-th session on, comes upon a session that crashed with no known
/// end before anything ends it: a case it does not handle.
pub open spec fn update_meets_crash(s: Seq<Session>, last: i64, i: int) -> bool
    decreases s.len() - i,
{
    if i < 0 || i >= s.len() {
        false
    } else {
        match s[i].session_end {
            SessionEnd::StillRunning => update_meets_crash(s, last, i + 1),
            SessionEnd::Crash => true,
            SessionEnd::Shutdown(t) => t.timestamp > last && update_meets_crash(s, last, i + 1),
            SessionEnd::Recovered(t) => t.timestamp > last && update_meets_crash(s, last, i + 1),
        }
    }
}

/// Statistics with every figure 0.
pub open spec fn zero_statistics() -> Statistics {
    Statistics {
        all_time: PeriodStats { total_downtime_seconds: 0, elapsed_seconds: 0 },
        year: 0,
        current_year: PeriodStats { total_downtime_seconds: 0, elapsed_seconds: 0 },
        month: 0,
        current_month: PeriodStats { total_downtime_seconds: 0, elapsed_seconds: 0 },
    }
}

/// The seconds from `earlier` to `later`, 0 where `later` is not after `earlier`.
fn gap(later: i64, earlier: i64) -> (r: u64)
    ensures
        r == gap_seconds(later, earlier),
{
    if later > earlier {
        ((later as i128) - (earlier as i128)) as u64
    } else {
        0
    }
}

/// The event that a session's end and the boot that follows it make.
fn event_of(up: Instant, end: SessionEnd) -> (r: DatedEvent)
    ensures
        r == downtime_event(up, end),
{
    match end {
        SessionEnd::Shutdown(t) => DatedEvent {
            year: t.year,
            month: t.month,
            event: DowntimeEvent {
                down_at: t.timestamp,
                up_at: up.timestamp,
                down_seconds: gap(up.timestamp, t.timestamp),
                kind: EventKind::Reboot,
            },
        },
        SessionEnd::Recovered(t) => DatedEvent {
            year: t.year,
            month: t.month,
            event: DowntimeEvent {
                down_at: t.timestamp,
                up_at: up.timestamp,
                down_seconds: gap(up.timestamp, t.timestamp),
                kind: EventKind::Crash,
            },
        },
        _ => DatedEvent {
            year: up.year,
            month: up.month,
            event: DowntimeEvent {
                down_at: up.timestamp,
                up_at: up.timestamp,
                down_seconds: 0,
                kind: EventKind::Crash,
            },
        },
    }
}

/// The downtime between each two consecutive sessions of a newest first boot list.
pub fn downtime_events(sessions: &Vec<Session>) -> (r: Vec<DatedEvent>)
    requires
        only_newest_running(sessions@),
    ensures
        r@ == pair_events(sessions@),
{
    let mut r: Vec<DatedEvent> = Vec::new();
    let n = sessions.len();
    if n == 0 {
        assert(r@ =~= pair_events(sessions@));
        return r;
    }
    let mut i: usize = 0;
    while i + 1 < n
        invariant
            n == sessions@.len(),
            n > 0,
            0 <= i < n,
            r@ =~= pair_events(sessions@).take(i as int),
        decreases n - i,
    {
        let e = event_of(sessions[i].boot_start, sessions[i + 1].session_end);
        r.push(e);
        i = i + 1;
    }
    assert(pair_events(sessions@).take(i as int) =~= pair_events(sessions@));
    r
}

/// The events that an update takes in from `sessions` when the history already holds the
/// boots up to `last`.
pub fn update_events(sessions: &Vec<Session>, last: i64) -> (r: Vec<DatedEvent>)
    requires
        !update_meets_crash(sessions@, last, 0),
    ensures
        r@ == update_events_from(sessions@, last, 0),
{
    let mut r: Vec<DatedEvent> = Vec::new();
    let n = sessions.len();
    let mut i: usize = 0;
    while i < n
        invariant_except_break
            !update_meets_crash(sessions@, last, i as int),
        invariant
            n == sessions@.len(),
            0 <= i <= n,
            r@ + update_events_from(sessions@, last, i as int) == update_events_from(
                sessions@,
                last,
                0,
            ),
        ensures
            r@ == update_events_from(sessions@, last, 0),
        decreases n - i,
    {
        let s = sessions[i];
        let up = if i == 0 { sessions[0].boot_start } else { sessions[i - 1].boot_start };
        match s.session_end {
            SessionEnd::StillRunning => {},
            SessionEnd::Crash => {
                assert(r@ + seq![] =~= r@);
                break;
            },
            SessionEnd::Shutdown(t) => {
                if t.timestamp <= last {
                    assert(r@ + seq![] =~= r@);
                    break;
                }
                let ghost rest = update_events_from(sessions@, last, i + 1);
                r.push(event_of(up, s.session_end));
                assert(r@ + rest =~= r@.drop_last() + (seq![r@.last()] + rest));
            },
            SessionEnd::Recovered(t) => {
                if t.timestamp <= last {
                    assert(r@ + seq![] =~= r@);
                    break;
                }
                let ghost rest = update_events_from(sessions@, last, i + 1);
                r.push(event_of(up, s.session_end));
                assert(r@ + rest =~= r@.drop_last() + (seq![r@.last()] + rest));
            },
        }
        i = i + 1;
    }
    proof {
        if i >= n {
            assert(r@ + seq![] =~= r@);
        }
    }
    r
}


/// Whether an update of a history that holds the boots up to `last` would come upon a
/// session that crashed with no known end: a case that an update does not handle.
pub fn update_meets_unrecovered_crash(sessions: &Vec<Session>, last: i64) -> (b: bool)
    ensures
        b == update_meets_crash(sessions@, last, 0),
{
    let n = sessions.len();
    let mut i: usize = 0;
    while i < n
        invariant
            n == sessions@.len(),
            0 <= i <= n,
            update_meets_crash(sessions@, last, 0) == update_meets_crash(sessions@, last, i as int),
        decreases n - i,
    {
        match sessions[i].session_end {
            SessionEnd::StillRunning => {},
            SessionEnd::Crash => return true,
            SessionEnd::Shutdown(t) => {
                if t.timestamp <= last {
                    return false;
                }
            },
            SessionEnd::Recovered(t) => {
                if t.timestamp <= last {
                    return false;
                }
            },
        }
        i = i + 1;
    }
    false
}

/// Whether no session of the list but the newest is still running, as a newest first boot
/// list has it.
pub fn only_newest_is_running(sessions: &Vec<Session>) -> (b: bool)
    ensures
        b == only_newest_running(sessions@),
{
    let n = sessions.len();
    let mut i: usize = 1;
    while i < n
        invariant
            n == sessions@.len(),
            1 <= i,
            i <= n || n == 0,
            forall|k: int| 1 <= k < i && k < n ==> !(#[trigger] sessions@[k].session_end is StillRunning),
        decreases n - i,
    {
        if let SessionEnd::StillRunning = sessions[i].session_end {
            return false;
        }
        i = i + 1;
    }
    true
}

/// Whether `history` can take in the events of `list` with its sums still fitting in 64 bits.
pub fn downtime_fits(history: &History, list: &Vec<DatedEvent>) -> (b: bool)
    requires
        history.wf(),
    ensures
        b == (history.total() + list_seconds(list@) <= u64::MAX),
{
    let base = history.total_seconds();
    proof {
        lemma_list_seconds_nonneg(list@);
    }
    if base > u64::MAX as u128 {
        return false;
    }
    let n = list.len();
    let mut acc: u128 = base;
    let mut i: usize = 0;
    proof {
        assert(list@.take(0) =~= seq![]);
    }
    while i < n
        invariant
            n == list@.len(),
            0 <= i <= n,
            acc == history.total() + list_seconds(list@.take(i as int)),
            acc <= u64::MAX,
        decreases n - i,
    {
        assert(list@.take(i + 1).drop_last() =~= list@.take(i as int));
        acc = acc + list[i].event.down_seconds as u128;
        if acc > u64::MAX as u128 {
            proof {
                crate::history::lemma_list_prefix_seconds(list@, i + 1);
            }
            return false;
        }
        i = i + 1;
    }
    assert(list@.take(n as int) =~= list@);
    true
}

/// Statistics with every figure 0, as a new database holds them until they are first computed.
pub fn new_statistics() -> (r: Statistics)
    ensures
        r == zero_statistics(),
{
    Statistics {
        all_time: PeriodStats { total_downtime_seconds: 0, elapsed_seconds: 0 },
        year: 0,
        current_year: PeriodStats { total_downtime_seconds: 0, elapsed_seconds: 0 },
        month: 0,
        current_month: PeriodStats { total_downtime_seconds: 0, elapsed_seconds: 0 },
    }
}

/// The history of a boot list that is newest first: the downtime between each two
/// consecutive sessions, recorded newest first under the year and month it began in.
pub fn make_history_object(sessions: &Vec<Session>) -> (r: History)
    requires
        only_newest_running(sessions@),
        list_seconds(pair_events(sessions@)) <= u64::MAX,
    ensures
        holds_exactly(r, pair_events(sessions@)),
        sessions@.len() < 2 ==> r.years@.len() == 0,
{
    let events = downtime_events(sessions);
    let mut h = History::new();
    let ghost h0 = h;
    h.record_all(&events);
    proof {
        crate::history::lemma_records_onto_empty(h, h0, events@);
        if sessions@.len() < 2 {
            assert(years_after(seq![], events@) =~= Seq::<u16>::empty());
            assert(h.years@.map_values(|r: YearRecord| r.year).len() == 0);
        }
    }
    h
}

/// A new database, built from the whole boot list (newest first): the history begins at the
/// oldest boot, has taken in the newest, and holds the downtime between every two sessions.
pub fn construct_full_database(sessions: &Vec<Session>) -> (r: Database)
    requires
        sessions@.len() > 0,
        only_newest_running(sessions@),
        list_seconds(pair_events(sessions@)) <= u64::MAX,
    ensures
        r.metadata.first_recorded_boot == sessions@.last().boot_start.timestamp,
        r.metadata.last_recorded_boot == sessions@[0].boot_start.timestamp,
        holds_exactly(r.history, pair_events(sessions@)),
        sessions@.len() < 2 ==> r.history.years@.len() == 0,
        r.statistics == zero_statistics(),
{
    let n = sessions.len();
    let metadata = Metadata {
        first_recorded_boot: sessions[n - 1].boot_start.timestamp,
        last_recorded_boot: sessions[0].boot_start.timestamp,
    };
    let history = make_history_object(sessions);
    Database { metadata, history, statistics: new_statistics() }
}

/// Takes in the newest boot: it becomes the last recorded one. Returns the one recorded before.
pub fn update_metadata(db: &mut Database, first_session: &Session) -> (r: i64)
    ensures
        r == old(db).metadata.last_recorded_boot,
        final(db).metadata.last_recorded_boot == first_session.boot_start.timestamp,
        final(db).metadata.first_recorded_boot == old(db).metadata.first_recorded_boot,
        final(db).history == old(db).history,
        final(db).statistics == old(db).statistics,
{
    let old_last = db.metadata.last_recorded_boot;
    db.metadata.last_recorded_boot = first_session.boot_start.timestamp;
    old_last
}

/// Brings a database up to date with the boot list (newest first): the newest boot becomes
/// the last recorded one, and the downtime of every session that ended after the boot that was
/// recorded last before is added to the history.
pub fn update_database(db: &mut Database, sessions: &Vec<Session>)
    requires
        sessions@.len() > 0,
        old(db).history.wf(),
        !update_meets_crash(sessions@, old(db).metadata.last_recorded_boot, 0),
        old(db).history.total() + list_seconds(
            update_events_from(sessions@, old(db).metadata.last_recorded_boot, 0),
        ) <= u64::MAX,
    ensures
        final(db).metadata.last_recorded_boot == sessions@[0].boot_start.timestamp,
        final(db).metadata.first_recorded_boot == old(db).metadata.first_recorded_boot,
        records(
            final(db).history,
            old(db).history,
            update_events_from(sessions@, old(db).metadata.last_recorded_boot, 0),
        ),
        update_events_from(sessions@, old(db).metadata.last_recorded_boot, 0).len() == 0
            ==> final(db).history == old(db).history,
        final(db).statistics == old(db).statistics,
{
    let old_last = update_metadata(db, &sessions[0]);
    let events = update_events(sessions, old_last);
    db.history.record_all(&events);
}

} // verus!
