//! Downtime statistics: over all time, in the current year and in the current month.
use vstd::prelude::*;
use crate::database::{Database, PeriodStats, Statistics};
use crate::history::History;
use crate::session::Instant;

verus! {

/// What the clock says at a run: the moment now, and the moments at which the current year
/// and the current month began, in seconds since the Unix epoch.
#[derive(Debug, Clone, Copy, PartialEq, Eq)]
pub struct Clock {
    pub now: Instant,
    pub year_start: i64,
    pub month_start: i64,
}

/// The statistics of a database at the moment the clock gives: the downtime of all its years
/// since the first recorded boot, that of the current year since it began and that of the
/// current month since it began. A year or month with no record counts no downtime.
pub open spec fn statistics_at(db: Database, clock: Clock) -> Statistics {
    Statistics {
        all_time: PeriodStats {
            total_downtime_seconds: db.history.total() as u128,
            elapsed_seconds: (clock.now.timestamp - db.metadata.first_recorded_boot) as i128,
        },
        year: clock.now.year,
        current_year: PeriodStats {
            total_downtime_seconds: db.history.year_sum(clock.now.year) as u128,
            elapsed_seconds: (clock.now.timestamp - clock.year_start) as i128,
        },
        month: clock.now.month,
        current_month: PeriodStats {
            total_downtime_seconds: db.history.month_sum(clock.now.year, clock.now.month) as u128,
            elapsed_seconds: (clock.now.timestamp - clock.month_start) as i128,
        },
    }
}

/// The downtime of all years of the history, in seconds.
pub fn construct_all_time_sum(history: &History) -> (r: u128)
    ensures
        r == history.total(),
{
    history.total_seconds()
}

/// The first recorded boot of the database.
pub fn get_first_boot(db: &Database) -> (r: i64)
    ensures
        r == db.metadata.first_recorded_boot,
{
    db.metadata.first_recorded_boot
}

/// The downtime of all time, of year `year` and of month `month` of that year.
pub fn get_sums(history: &History, year: u16, month: u8) -> (r: (u128, u64, u64))
    ensures
        r.0 == history.total(),
        r.1 == history.year_sum(year),
        r.2 == history.month_sum(year, month),
{
    (construct_all_time_sum(history), history.year_sum_of(year), history.month_sum_of(year, month))
}

/// Computes the statistics of the database at the moment the clock gives, and keeps them in it.
pub fn calculate_statistics(db: &mut Database, clock: &Clock)
    ensures
        final(db).statistics == statistics_at(*old(db), *clock),
        final(db).metadata == old(db).metadata,
        final(db).history == old(db).history,
{
    let first_recorded_boot = get_first_boot(db);
    let (all_time_sum, yearly_sum, monthly_sum) = get_sums(&db.history, clock.now.year, clock.now.month);
    let now = clock.now.timestamp as i128;
    db.statistics = Statistics {
        all_time: PeriodStats {
            total_downtime_seconds: all_time_sum,
            elapsed_seconds: now - first_recorded_boot as i128,
        },
        year: clock.now.year,
        current_year: PeriodStats {
            total_downtime_seconds: yearly_sum as u128,
            elapsed_seconds: now - clock.year_start as i128,
        },
        month: clock.now.month,
        current_month: PeriodStats {
            total_downtime_seconds: monthly_sum as u128,
            elapsed_seconds: now - clock.month_start as i128,
        },
    };
}

} // verus!
