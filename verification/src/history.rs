//! The downtime history: events grouped by year and month, with the sums of each.
use vstd::prelude::*;

verus! {

/// Why the machine was down.
#[derive(Debug, Clone, Copy, PartialEq, Eq)]
pub enum EventKind {
    /// A shutdown and the boot after it.
    Reboot,
    /// A crash and the boot after it.
    Crash,
}

/// A stretch of downtime: the machine went down at `down_at` and came up at `up_at`
/// (seconds since the Unix epoch), and was down for `down_seconds`.
#[derive(Debug, Clone, Copy, PartialEq, Eq)]
pub struct DowntimeEvent {
    pub down_at: i64,
    pub up_at: i64,
    pub down_seconds: u64,
    pub kind: EventKind,
}

/// The events of one month and the sum of their downtime.
#[derive(Debug, Clone, PartialEq, Eq)]
pub struct MonthRecord {
    pub month: u8,
    pub events: Vec<DowntimeEvent>,
    pub sum_seconds: u64,
}

/// The months of one year and the sum of their downtime.
#[derive(Debug, Clone, PartialEq, Eq)]
pub struct YearRecord {
    pub year: u16,
    pub months: Vec<MonthRecord>,
    pub sum_seconds: u64,
}

/// The whole downtime history, year by year.
#[derive(Debug, Clone, PartialEq, Eq)]
pub struct History {
    pub years: Vec<YearRecord>,
}

/// An event together with the year and month it belongs to: those of the moment the machine
/// went down.
#[derive(Debug, Clone, Copy, PartialEq, Eq)]
pub struct DatedEvent {
    pub year: u16,
    pub month: u8,
    pub event: DowntimeEvent,
}

/// The events of `list` that belong to month `m` of year `y`, in order.
pub open spec fn bucket(list: Seq<DatedEvent>, y: u16, m: u8) -> Seq<DowntimeEvent>
    decreases list.len(),
{
    if list.len() == 0 {
        seq![]
    } else {
        let rest = bucket(list.drop_last(), y, m);
        let d = list.last();
        if d.year == y && d.month == m {
            rest.push(d.event)
        } else {
            rest
        }
    }
}

/// The downtime of the events of `list` that belong to year `y`, in seconds.
pub open spec fn year_seconds_in(list: Seq<DatedEvent>, y: u16) -> int
    decreases list.len(),
{
    if list.len() == 0 {
        0
    } else {
        let rest = year_seconds_in(list.drop_last(), y);
        if list.last().year == y {
            rest + list.last().event.down_seconds
        } else {
            rest
        }
    }
}

/// The downtime of all events of `list`, in seconds.
pub open spec fn list_seconds(list: Seq<DatedEvent>) -> int
    decreases list.len(),
{
    if list.len() == 0 {
        0
    } else {
        list_seconds(list.drop_last()) + list.last().event.down_seconds
    }
}

/// The sum of `f` over the elements of `s`.
pub open spec fn sum_of<T>(s: Seq<T>, f: spec_fn(T) -> int) -> int
    decreases s.len(),
{
    if s.len() == 0 {
        0
    } else {
        sum_of(s.drop_last(), f) + f(s.last())
    }
}

pub proof fn lemma_sum_push<T>(s: Seq<T>, x: T, f: spec_fn(T) -> int)
    ensures
        sum_of(s.push(x), f) == sum_of(s, f) + f(x),
{
    assert(s.push(x).drop_last() =~= s);
}

pub proof fn lemma_sum_update<T>(s: Seq<T>, i: int, x: T, f: spec_fn(T) -> int)
    requires
        0 <= i < s.len(),
    ensures
        sum_of(s.update(i, x), f) == sum_of(s, f) - f(s[i]) + f(x),
    decreases s.len(),
{
    if i == s.len() - 1 {
        assert(s.update(i, x).drop_last() =~= s.drop_last());
    } else {
        assert(s.update(i, x).drop_last() =~= s.drop_last().update(i, x));
        lemma_sum_update(s.drop_last(), i, x, f);
    }
}

pub proof fn lemma_sum_bounds<T>(s: Seq<T>, f: spec_fn(T) -> int)
    requires
        forall|k: int| 0 <= k < s.len() ==> f(#[trigger] s[k]) >= 0,
    ensures
        sum_of(s, f) >= 0,
        forall|k: int| 0 <= k < s.len() ==> f(#[trigger] s[k]) <= sum_of(s, f),
    decreases s.len(),
{
    if s.len() > 0 {
        let t = s.drop_last();
        assert forall|k: int| 0 <= k < t.len() implies f(#[trigger] t[k]) >= 0 by {
            assert(t[k] == s[k]);
        }
        lemma_sum_bounds(t, f);
        assert forall|k: int| 0 <= k < s.len() implies f(#[trigger] s[k]) <= sum_of(s, f) by {
            if k < s.len() - 1 {
                assert(t[k] == s[k]);
            }
        }
    }
}

/// The downtime of an event, in seconds.
pub open spec fn event_seconds(e: DowntimeEvent) -> int {
    e.down_seconds as int
}

/// The recorded sum of a month.
pub open spec fn month_seconds(m: MonthRecord) -> int {
    m.sum_seconds as int
}

/// The recorded sum of a year.
pub open spec fn year_seconds(y: YearRecord) -> int {
    y.sum_seconds as int
}

/// The index of the first element of `s` that satisfies `p`.
pub open spec fn first_index<T>(s: Seq<T>, p: spec_fn(T) -> bool) -> Option<int> {
    if exists|i: int| is_first(s, p, i) {
        Some(choose|i: int| is_first(s, p, i))
    } else {
        None
    }
}

/// Element `i` of `s` is the first that satisfies `p`.
pub open spec fn is_first<T>(s: Seq<T>, p: spec_fn(T) -> bool, i: int) -> bool {
    0 <= i < s.len() && p(s[i]) && forall|j: int| 0 <= j < i ==> !p(#[trigger] s[j])
}

pub proof fn lemma_first_is<T>(s: Seq<T>, p: spec_fn(T) -> bool, i: int)
    requires
        is_first(s, p, i),
    ensures
        first_index(s, p) == Some(i),
{
    let c = choose|k: int| is_first(s, p, k);
    if c < i {
        assert(!p(s[c]));
    } else if c > i {
        assert(!p(s[i]));
    }
}

pub proof fn lemma_first_none<T>(s: Seq<T>, p: spec_fn(T) -> bool)
    requires
        forall|j: int| 0 <= j < s.len() ==> !p(#[trigger] s[j]),
    ensures
        first_index(s, p) is None,
{
}

/// Where the record of year `y` stands.
pub open spec fn year_index(ys: Seq<YearRecord>, y: u16) -> Option<int> {
    first_index(ys, |r: YearRecord| r.year == y)
}

/// Where the record of month `m` stands.
pub open spec fn month_index(ms: Seq<MonthRecord>, m: u8) -> Option<int> {
    first_index(ms, |r: MonthRecord| r.month == m)
}

/// No two records name the same month.
pub open spec fn unique_months(s: Seq<MonthRecord>) -> bool {
    forall|i: int, j: int| 0 <= i < j < s.len() ==> s[i].month != s[j].month
}

/// No two records name the same year.
pub open spec fn unique_years(s: Seq<YearRecord>) -> bool {
    forall|i: int, j: int| 0 <= i < j < s.len() ==> s[i].year != s[j].year
}

pub proof fn lemma_month_at(s: Seq<MonthRecord>, k: int)
    requires
        0 <= k < s.len(),
        unique_months(s),
    ensures
        month_index(s, s[k].month) == Some(k),
{
    let m = s[k].month;
    assert forall|j: int| 0 <= j < k implies !(|r: MonthRecord| r.month == m)(#[trigger] s[j]) by {}
    lemma_first_is(s, |r: MonthRecord| r.month == m, k);
}

pub proof fn lemma_month_absent(s: Seq<MonthRecord>, m: u8)
    requires
        forall|j: int| 0 <= j < s.len() ==> s[j].month != m,
    ensures
        month_index(s, m) is None,
{
    lemma_first_none(s, |r: MonthRecord| r.month == m);
}

pub proof fn lemma_year_at(s: Seq<YearRecord>, k: int)
    requires
        0 <= k < s.len(),
        unique_years(s),
    ensures
        year_index(s, s[k].year) == Some(k),
{
    let y = s[k].year;
    assert forall|j: int| 0 <= j < k implies !(|r: YearRecord| r.year == y)(#[trigger] s[j]) by {}
    lemma_first_is(s, |r: YearRecord| r.year == y, k);
}

pub proof fn lemma_year_absent(s: Seq<YearRecord>, y: u16)
    requires
        forall|j: int| 0 <= j < s.len() ==> s[j].year != y,
    ensures
        year_index(s, y) is None,
{
    lemma_first_none(s, |r: YearRecord| r.year == y);
}

impl MonthRecord {
    /// The month's sum is the sum of its events.
    pub open spec fn wf(&self) -> bool {
        self.sum_seconds == sum_of(self.events@, |e: DowntimeEvent| event_seconds(e))
    }
}

impl YearRecord {
    /// Each month is well formed and named once, and the year's sum is the sum of its months.
    pub open spec fn wf(&self) -> bool {
        &&& forall|i: int| 0 <= i < self.months@.len() ==> (#[trigger] self.months@[i]).wf()
        &&& unique_months(self.months@)
        &&& self.sum_seconds == sum_of(self.months@, |m: MonthRecord| month_seconds(m))
    }

    /// The events of month `m`; none where the month has no record.
    pub open spec fn events_of(&self, m: u8) -> Option<Seq<DowntimeEvent>> {
        match month_index(self.months@, m) {
            Some(j) => Some(self.months@[j].events@),
            None => None,
        }
    }

    /// The recorded downtime of month `m`; 0 where the month has no record.
    pub open spec fn sum_of_month(&self, m: u8) -> int {
        match month_index(self.months@, m) {
            Some(j) => self.months@[j].sum_seconds as int,
            None => 0,
        }
    }
}

/// Every month of the list holds an event.
pub open spec fn months_hold_events(ms: Seq<MonthRecord>) -> bool {
    forall|j: int| 0 <= j < ms.len() ==> (#[trigger] ms[j]).events@.len() > 0
}

/// A year holds a month, and each of its months holds an event: records are made for events.
pub open spec fn year_holds_events(y: YearRecord) -> bool {
    y.months@.len() > 0 && months_hold_events(y.months@)
}

/// The months named in a year, in order.
pub open spec fn month_keys(y: YearRecord) -> Seq<u8> {
    y.months@.map_values(|r: MonthRecord| r.month)
}

/// `keys` with `k` at the end where it is not in it yet.
pub open spec fn add_key<K>(keys: Seq<K>, k: K) -> Seq<K> {
    if keys.contains(k) {
        keys
    } else {
        keys.push(k)
    }
}

impl History {
    /// Each year is well formed, named once and holds events.
    pub open spec fn wf(&self) -> bool {
        &&& forall|i: int| 0 <= i < self.years@.len() ==> (#[trigger] self.years@[i]).wf()
        &&& unique_years(self.years@)
        &&& forall|i: int| 0 <= i < self.years@.len() ==> year_holds_events(#[trigger] self.years@[i])
    }

    /// The years named in the history, in order.
    pub open spec fn year_keys(&self) -> Seq<u16> {
        self.years@.map_values(|r: YearRecord| r.year)
    }

    /// The months named in year `y`, in order; none for a year with no record.
    pub open spec fn months_of(&self, y: u16) -> Seq<u8> {
        match year_index(self.years@, y) {
            Some(i) => month_keys(self.years@[i]),
            None => seq![],
        }
    }

    /// The downtime of all years, in seconds.
    pub open spec fn total(&self) -> int {
        sum_of(self.years@, |y: YearRecord| year_seconds(y))
    }

    /// The recorded downtime of year `y`; 0 for a year with no record.
    pub open spec fn year_sum(&self, y: u16) -> int {
        match year_index(self.years@, y) {
            Some(i) => self.years@[i].sum_seconds as int,
            None => 0,
        }
    }

    /// The recorded downtime of month `m` of year `y`; 0 where there is no record.
    pub open spec fn month_sum(&self, y: u16, m: u8) -> int {
        match year_index(self.years@, y) {
            Some(i) => self.years@[i].sum_of_month(m),
            None => 0,
        }
    }

    /// The events of month `m` of year `y`; none where there is no record.
    pub open spec fn events_in(&self, y: u16, m: u8) -> Option<Seq<DowntimeEvent>> {
        match year_index(self.years@, y) {
            Some(i) => self.years@[i].events_of(m),
            None => None,
        }
    }
}


/// A year with no months yet.
pub fn new_year(year: u16) -> (r: YearRecord)
    ensures
        r.year == year,
        r.months@.len() == 0,
        r.sum_seconds == 0,
        r.wf(),
{
    YearRecord { year, months: Vec::new(), sum_seconds: 0 }
}

/// A month with no events yet.
pub fn new_month(month: u8) -> (r: MonthRecord)
    ensures
        r.month == month,
        r.events@.len() == 0,
        r.sum_seconds == 0,
        r.wf(),
{
    MonthRecord { month, events: Vec::new(), sum_seconds: 0 }
}

impl MonthRecord {
    /// Whether the month's sum is the sum of its events.
    pub fn is_well_formed(&self) -> (b: bool)
        ensures
            b == self.wf(),
    {
        let n = self.events.len();
        let mut acc: u128 = 0;
        let mut i: usize = 0;
        while i < n
            invariant
                n == self.events@.len(),
                0 <= i <= n,
                acc == sum_of(self.events@.take(i as int), |e: DowntimeEvent| event_seconds(e)),
                acc <= i * 0xFFFF_FFFF_FFFF_FFFF,
            decreases n - i,
        {
            assert(self.events@.take(i + 1).drop_last() =~= self.events@.take(i as int));
            acc = acc + self.events[i].down_seconds as u128;
            i = i + 1;
        }
        assert(self.events@.take(n as int) =~= self.events@);
        acc == self.sum_seconds as u128
    }
}

impl YearRecord {
    /// Whether each month is well formed and named once, and the year's sum is theirs.
    pub fn is_well_formed(&self) -> (b: bool)
        ensures
            b == self.wf(),
    {
        let n = self.months.len();
        let mut acc: u128 = 0;
        let mut i: usize = 0;
        while i < n
            invariant
                n == self.months@.len(),
                0 <= i <= n,
                acc == sum_of(self.months@.take(i as int), |m: MonthRecord| month_seconds(m)),
                acc <= i * 0xFFFF_FFFF_FFFF_FFFF,
                forall|k: int| 0 <= k < i ==> (#[trigger] self.months@[k]).wf(),
                forall|k: int, j: int| 0 <= k < j < i ==> self.months@[k].month != self.months@[j].month,
            decreases n - i,
        {
            if !self.months[i].is_well_formed() {
                return false;
            }
            let mut j: usize = 0;
            while j < i
                invariant
                    n == self.months@.len(),
                    0 <= j <= i < n,
                    forall|k: int| 0 <= k < j ==> self.months@[k].month != self.months@[i as int].month,
                decreases i - j,
            {
                if self.months[j].month == self.months[i].month {
                    return false;
                }
                j = j + 1;
            }
            assert(self.months@.take(i + 1).drop_last() =~= self.months@.take(i as int));
            acc = acc + self.months[i].sum_seconds as u128;
            i = i + 1;
        }
        assert(self.months@.take(n as int) =~= self.months@);
        acc == self.sum_seconds as u128
    }
}

impl YearRecord {
    /// Whether the year holds a month and each of its months holds an event.
    pub fn holds_events(&self) -> (b: bool)
        ensures
            b == year_holds_events(*self),
    {
        let n = self.months.len();
        if n == 0 {
            return false;
        }
        let mut j: usize = 0;
        while j < n
            invariant
                n == self.months@.len(),
                0 <= j <= n,
                forall|k: int| 0 <= k < j ==> (#[trigger] self.months@[k]).events@.len() > 0,
            decreases n - j,
        {
            if self.months[j].events.len() == 0 {
                return false;
            }
            j = j + 1;
        }
        true
    }
}

impl History {
    /// Whether each year is well formed, named once and holds events.
    pub fn is_well_formed(&self) -> (b: bool)
        ensures
            b == self.wf(),
    {
        let n = self.years.len();
        let mut i: usize = 0;
        while i < n
            invariant
                n == self.years@.len(),
                0 <= i <= n,
                forall|k: int| 0 <= k < i ==> (#[trigger] self.years@[k]).wf(),
                forall|k: int| 0 <= k < i ==> year_holds_events(#[trigger] self.years@[k]),
                forall|k: int, j: int| 0 <= k < j < i ==> self.years@[k].year != self.years@[j].year,
            decreases n - i,
        {
            if !self.years[i].is_well_formed() || !self.years[i].holds_events() {
                return false;
            }
            let mut j: usize = 0;
            while j < i
                invariant
                    n == self.years@.len(),
                    0 <= j <= i < n,
                    forall|k: int| 0 <= k < j ==> self.years@[k].year != self.years@[i as int].year,
                decreases i - j,
            {
                if self.years[j].year == self.years[i].year {
                    return false;
                }
                j = j + 1;
            }
            i = i + 1;
        }
        true
    }
}

/// Where the record of year `y` stands.
fn find_year(ys: &Vec<YearRecord>, y: u16) -> (r: Option<usize>)
    ensures
        match r {
            Some(i) => year_index(ys@, y) == Some(i as int) && i < ys@.len() && ys@[i as int].year == y,
            None => year_index(ys@, y) is None && forall|j: int| 0 <= j < ys@.len() ==> ys@[j].year != y,
        },
{
    let n = ys.len();
    let mut i: usize = 0;
    while i < n
        invariant
            n == ys@.len(),
            0 <= i <= n,
            forall|j: int| 0 <= j < i ==> ys@[j].year != y,
        decreases n - i,
    {
        if ys[i].year == y {
            proof {
                lemma_first_is(ys@, |r: YearRecord| r.year == y, i as int);
            }
            return Some(i);
        }
        i = i + 1;
    }
    proof {
        lemma_first_none(ys@, |r: YearRecord| r.year == y);
    }
    None
}

/// Where the record of month `m` stands.
fn find_month(ms: &Vec<MonthRecord>, m: u8) -> (r: Option<usize>)
    ensures
        match r {
            Some(i) => month_index(ms@, m) == Some(i as int) && i < ms@.len() && ms@[i as int].month == m,
            None => month_index(ms@, m) is None && forall|j: int| 0 <= j < ms@.len() ==> ms@[j].month != m,
        },
{
    let n = ms.len();
    let mut i: usize = 0;
    while i < n
        invariant
            n == ms@.len(),
            0 <= i <= n,
            forall|j: int| 0 <= j < i ==> ms@[j].month != m,
        decreases n - i,
    {
        if ms[i].month == m {
            proof {
                lemma_first_is(ms@, |r: MonthRecord| r.month == m, i as int);
            }
            return Some(i);
        }
        i = i + 1;
    }
    proof {
        lemma_first_none(ms@, |r: MonthRecord| r.month == m);
    }
    None
}

impl MonthRecord {
    /// Adds an event to the month.
    pub fn add_event(&mut self, e: DowntimeEvent)
        requires
            old(self).wf(),
            old(self).sum_seconds + e.down_seconds <= u64::MAX,
        ensures
            final(self).wf(),
            final(self).month == old(self).month,
            final(self).events@ == old(self).events@.push(e),
            final(self).sum_seconds == old(self).sum_seconds + e.down_seconds,
    {
        proof {
            lemma_sum_push(self.events@, e, |e: DowntimeEvent| event_seconds(e));
        }
        self.events.push(e);
        self.sum_seconds = self.sum_seconds + e.down_seconds;
    }
}


/// The events of a bucket, or none.
pub open spec fn or_empty(s: Option<Seq<DowntimeEvent>>) -> Seq<DowntimeEvent> {
    match s {
        Some(v) => v,
        None => seq![],
    }
}

impl YearRecord {
    /// Adds an event to month `m` of the year, making a record for the month where it has none.
    pub fn add_event(&mut self, m: u8, e: DowntimeEvent)
        requires
            old(self).wf(),
            old(self).sum_seconds + e.down_seconds <= u64::MAX,
        ensures
            final(self).wf(),
            final(self).year == old(self).year,
            final(self).sum_seconds == old(self).sum_seconds + e.down_seconds,
            final(self).events_of(m) == Some(or_empty(old(self).events_of(m)).push(e)),
            final(self).sum_of_month(m) == old(self).sum_of_month(m) + e.down_seconds,
            forall|m2: u8|
                m2 != m ==> final(self).events_of(m2) == old(self).events_of(m2)
                    && final(self).sum_of_month(m2) == old(self).sum_of_month(m2),
            month_keys(*final(self)) == add_key(month_keys(*old(self)), m),
            months_hold_events(old(self).months@) ==> year_holds_events(*final(self)),
    {
        let ghost old_year = *self;
        let ghost ms = self.months@;
        let ghost f = |r: MonthRecord| month_seconds(r);
        match find_month(&self.months, m) {
            Some(j) => {
                proof {
                    lemma_sum_bounds(ms, f);
                    assert(f(ms[j as int]) <= sum_of(ms, f));
                }
                self.months[j].add_event(e);
                proof {
                    lemma_sum_update(ms, j as int, self.months@[j as int], f);
                }
                self.sum_seconds = self.sum_seconds + e.down_seconds;
                proof {
                    let fs = self.months@;
                    assert(fs == ms.update(j as int, fs[j as int]));
                    assert(unique_months(fs));
                    lemma_month_at(fs, j as int);
                    assert(month_keys(old_year)[j as int] == m);
                    assert(month_keys(old_year).contains(m));
                    assert(month_keys(*self) =~= month_keys(old_year));
                    assert forall|m2: u8| m2 != m implies self.events_of(m2) == old_year.events_of(m2)
                        && self.sum_of_month(m2) == old_year.sum_of_month(m2) by {
                        if exists|k: int| 0 <= k < ms.len() && ms[k].month == m2 {
                            let k = choose|k: int| 0 <= k < ms.len() && ms[k].month == m2;
                            lemma_month_at(ms, k);
                            lemma_month_at(fs, k);
                        } else {
                            lemma_month_absent(ms, m2);
                            lemma_month_absent(fs, m2);
                        }
                    }
                }
            },
            None => {
                let mut mr = new_month(m);
                mr.add_event(e);
                self.months.push(mr);
                proof {
                    lemma_sum_push(ms, mr, f);
                }
                self.sum_seconds = self.sum_seconds + e.down_seconds;
                proof {
                    let fs = self.months@;
                    assert(fs == ms.push(mr));
                    assert(mr.events@ =~= seq![].push(e));
                    assert(unique_months(fs));
                    lemma_month_at(fs, ms.len() as int);
                    assert(!month_keys(old_year).contains(m));
                    assert(month_keys(*self) =~= month_keys(old_year).push(m));
                    assert forall|m2: u8| m2 != m implies self.events_of(m2) == old_year.events_of(m2)
                        && self.sum_of_month(m2) == old_year.sum_of_month(m2) by {
                        if exists|k: int| 0 <= k < ms.len() && ms[k].month == m2 {
                            let k = choose|k: int| 0 <= k < ms.len() && ms[k].month == m2;
                            lemma_month_at(ms, k);
                            lemma_month_at(fs, k);
                        } else {
                            lemma_month_absent(ms, m2);
                            lemma_month_absent(fs, m2);
                        }
                    }
                }
            },
        }
    }
}


impl History {
    /// A history with no years.
    pub fn new() -> (r: History)
        ensures
            r.wf(),
            r.years@.len() == 0,
            r.total() == 0,
    {
        History { years: Vec::new() }
    }

    /// The recorded downtime of year `y`; 0 for a year with no record.
    pub fn year_sum_of(&self, y: u16) -> (r: u64)
        ensures
            r == self.year_sum(y),
    {
        match find_year(&self.years, y) {
            Some(i) => self.years[i].sum_seconds,
            None => 0,
        }
    }

    /// The recorded downtime of month `m` of year `y`; 0 where there is no record.
    pub fn month_sum_of(&self, y: u16, m: u8) -> (r: u64)
        ensures
            r == self.month_sum(y, m),
    {
        match find_year(&self.years, y) {
            Some(i) => match find_month(&self.years[i].months, m) {
                Some(j) => self.years[i].months[j].sum_seconds,
                None => 0,
            },
            None => 0,
        }
    }

    /// The downtime of all years, in seconds.
    pub fn total_seconds(&self) -> (r: u128)
        ensures
            r == self.total(),
    {
        let n = self.years.len();
        let mut acc: u128 = 0;
        let mut i: usize = 0;
        while i < n
            invariant
                n == self.years@.len(),
                0 <= i <= n,
                acc == sum_of(self.years@.take(i as int), |y: YearRecord| year_seconds(y)),
                acc <= i * 0xFFFF_FFFF_FFFF_FFFF,
            decreases n - i,
        {
            assert(self.years@.take(i + 1).drop_last() =~= self.years@.take(i as int));
            acc = acc + self.years[i].sum_seconds as u128;
            i = i + 1;
        }
        assert(self.years@.take(n as int) =~= self.years@);
        acc
    }

    /// Records an event under month `m` of year `y`, making records for the year and the
    /// month where they have none. Only that month's events change: the event joins them
    /// at the end, and the month's, the year's and the whole history's sums grow by its
    /// downtime.
    pub fn record_event(&mut self, y: u16, m: u8, e: DowntimeEvent)
        requires
            old(self).wf(),
            old(self).total() + e.down_seconds <= u64::MAX,
        ensures
            final(self).wf(),
            final(self).total() == old(self).total() + e.down_seconds,
            final(self).events_in(y, m) == Some(or_empty(old(self).events_in(y, m)).push(e)),
            final(self).month_sum(y, m) == old(self).month_sum(y, m) + e.down_seconds,
            final(self).year_sum(y) == old(self).year_sum(y) + e.down_seconds,
            forall|y2: u16, m2: u8|
                (y2 != y || m2 != m) ==> final(self).events_in(y2, m2) == old(self).events_in(y2, m2)
                    && final(self).month_sum(y2, m2) == old(self).month_sum(y2, m2),
            forall|y2: u16| y2 != y ==> final(self).year_sum(y2) == old(self).year_sum(y2),
            final(self).year_keys() == add_key(old(self).year_keys(), y),
            final(self).months_of(y) == add_key(old(self).months_of(y), m),
            forall|y2: u16| y2 != y ==> final(self).months_of(y2) == old(self).months_of(y2),
    {
        let ghost old_h = *self;
        let ghost ys = self.years@;
        let ghost f = |r: YearRecord| year_seconds(r);
        match find_year(&self.years, y) {
            Some(i) => {
                proof {
                    lemma_sum_bounds(ys, f);
                    assert(f(ys[i as int]) <= sum_of(ys, f));
                }
                self.years[i].add_event(m, e);
                proof {
                    let fs = self.years@;
                    lemma_sum_update(ys, i as int, fs[i as int], f);
                    assert(fs == ys.update(i as int, fs[i as int]));
                    assert(unique_years(fs));
                    lemma_year_at(fs, i as int);
                    lemma_year_at(ys, i as int);
                    assert(old_h.year_keys()[i as int] == y);
                    assert(old_h.year_keys().contains(y));
                    assert(self.year_keys() =~= old_h.year_keys());
                    assert forall|y2: u16, m2: u8| (y2 != y || m2 != m) implies self.events_in(y2, m2)
                        == old_h.events_in(y2, m2) && self.month_sum(y2, m2) == old_h.month_sum(
                        y2,
                        m2,
                    ) by {
                        if y2 != y {
                            if exists|k: int| 0 <= k < ys.len() && ys[k].year == y2 {
                                let k = choose|k: int| 0 <= k < ys.len() && ys[k].year == y2;
                                lemma_year_at(ys, k);
                                lemma_year_at(fs, k);
                            } else {
                                lemma_year_absent(ys, y2);
                                lemma_year_absent(fs, y2);
                            }
                        }
                    }
                    assert forall|y2: u16| y2 != y implies self.year_sum(y2) == old_h.year_sum(y2)
                        && self.months_of(y2) == old_h.months_of(y2) by {
                        if exists|k: int| 0 <= k < ys.len() && ys[k].year == y2 {
                            let k = choose|k: int| 0 <= k < ys.len() && ys[k].year == y2;
                            lemma_year_at(ys, k);
                            lemma_year_at(fs, k);
                        } else {
                            lemma_year_absent(ys, y2);
                            lemma_year_absent(fs, y2);
                        }
                    }
                }
            },
            None => {
                let mut yr = new_year(y);
                let ghost empty_year = yr;
                proof {
                    lemma_month_absent(empty_year.months@, m);
                    assert forall|m2: u8| empty_year.events_of(m2) is None && empty_year.sum_of_month(m2) == 0 by {
                        lemma_month_absent(empty_year.months@, m2);
                    }
                }
                yr.add_event(m, e);
                self.years.push(yr);
                proof {
                    let fs = self.years@;
                    lemma_sum_push(ys, yr, f);
                    assert(fs == ys.push(yr));
                    assert(unique_years(fs));
                    lemma_year_at(fs, ys.len() as int);
                    lemma_year_absent(ys, y);
                    assert(!old_h.year_keys().contains(y));
                    assert(self.year_keys() =~= old_h.year_keys().push(y));
                    assert(month_keys(empty_year) =~= Seq::<u8>::empty());
                    assert forall|y2: u16, m2: u8| (y2 != y || m2 != m) implies self.events_in(y2, m2)
                        == old_h.events_in(y2, m2) && self.month_sum(y2, m2) == old_h.month_sum(
                        y2,
                        m2,
                    ) by {
                        if y2 != y {
                            if exists|k: int| 0 <= k < ys.len() && ys[k].year == y2 {
                                let k = choose|k: int| 0 <= k < ys.len() && ys[k].year == y2;
                                lemma_year_at(ys, k);
                                lemma_year_at(fs, k);
                            } else {
                                lemma_year_absent(ys, y2);
                                lemma_year_absent(fs, y2);
                            }
                        }
                    }
                    assert forall|y2: u16| y2 != y implies self.year_sum(y2) == old_h.year_sum(y2)
                        && self.months_of(y2) == old_h.months_of(y2) by {
                        if exists|k: int| 0 <= k < ys.len() && ys[k].year == y2 {
                            let k = choose|k: int| 0 <= k < ys.len() && ys[k].year == y2;
                            lemma_year_at(ys, k);
                            lemma_year_at(fs, k);
                        } else {
                            lemma_year_absent(ys, y2);
                            lemma_year_absent(fs, y2);
                        }
                    }
                }
            },
        }
    }
}


/// The downtime of a sequence of events, in seconds.
pub open spec fn events_seconds(s: Seq<DowntimeEvent>) -> int {
    sum_of(s, |e: DowntimeEvent| event_seconds(e))
}

/// `after` is `before` with the events of `list` recorded, in order, each under its year and
/// month: every month gains exactly the events of `list` that belong to it, at its end, and
/// every sum grows by their downtime.
/// The years named after those of `keys` take in the events of `list`, in order: a year comes
/// at the end the first time an event of it comes.
pub open spec fn years_after(keys: Seq<u16>, list: Seq<DatedEvent>) -> Seq<u16>
    decreases list.len(),
{
    if list.len() == 0 {
        keys
    } else {
        add_key(years_after(keys, list.drop_last()), list.last().year)
    }
}

/// The months named in year `y` after those of `keys` take in the events of `list`, in order.
pub open spec fn months_after(keys: Seq<u8>, list: Seq<DatedEvent>, y: u16) -> Seq<u8>
    decreases list.len(),
{
    if list.len() == 0 {
        keys
    } else {
        let r = months_after(keys, list.drop_last(), y);
        if list.last().year == y {
            add_key(r, list.last().month)
        } else {
            r
        }
    }
}

pub open spec fn records(after: History, before: History, list: Seq<DatedEvent>) -> bool {
    &&& after.wf()
    &&& after.total() == before.total() + list_seconds(list)
    &&& forall|y: u16, m: u8|
        or_empty(#[trigger] after.events_in(y, m)) == or_empty(before.events_in(y, m)) + bucket(
            list,
            y,
            m,
        )
    &&& forall|y: u16, m: u8|
        (#[trigger] after.events_in(y, m) is Some) <==> (before.events_in(y, m) is Some || bucket(
            list,
            y,
            m,
        ).len() > 0)
    &&& forall|y: u16, m: u8|
        #[trigger] after.month_sum(y, m) == before.month_sum(y, m) + events_seconds(bucket(list, y, m))
    &&& forall|y: u16| #[trigger] after.year_sum(y) == before.year_sum(y) + year_seconds_in(list, y)
    &&& after.year_keys() == years_after(before.year_keys(), list)
    &&& forall|y: u16| #[trigger] after.months_of(y) == months_after(before.months_of(y), list, y)
}

/// `h` holds exactly the events of `list`, in order, each under its year and month, and its
/// sums are theirs; years and months come in the order in which their first events come.
pub open spec fn holds_exactly(h: History, list: Seq<DatedEvent>) -> bool {
    &&& h.wf()
    &&& h.total() == list_seconds(list)
    &&& forall|y: u16, m: u8| or_empty(#[trigger] h.events_in(y, m)) == bucket(list, y, m)
    &&& forall|y: u16, m: u8| (#[trigger] h.events_in(y, m) is Some) <==> bucket(list, y, m).len() > 0
    &&& forall|y: u16, m: u8| #[trigger] h.month_sum(y, m) == events_seconds(bucket(list, y, m))
    &&& forall|y: u16| #[trigger] h.year_sum(y) == year_seconds_in(list, y)
    &&& h.year_keys() == years_after(seq![], list)
    &&& forall|y: u16| #[trigger] h.months_of(y) == months_after(seq![], list, y)
}

/// Recording a list onto a history with no years makes a history that holds exactly the list.
pub proof fn lemma_records_onto_empty(after: History, before: History, list: Seq<DatedEvent>)
    requires
        before.years@.len() == 0,
        records(after, before, list),
    ensures
        holds_exactly(after, list),
{
    assert forall|y: u16| year_index(before.years@, y) is None by {
        lemma_year_absent(before.years@, y);
    }
    assert(before.year_keys() =~= Seq::<u16>::empty());
    assert forall|y: u16, m: u8| or_empty(#[trigger] after.events_in(y, m)) == bucket(list, y, m) by {
        assert(or_empty(before.events_in(y, m)) + bucket(list, y, m) =~= bucket(list, y, m));
    }
}

pub proof fn lemma_list_seconds_nonneg(list: Seq<DatedEvent>)
    ensures
        list_seconds(list) >= 0,
    decreases list.len(),
{
    if list.len() > 0 {
        lemma_list_seconds_nonneg(list.drop_last());
    }
}

impl History {
    /// Records the events of `list`, in order.
    pub fn record_all(&mut self, list: &Vec<DatedEvent>)
        requires
            old(self).wf(),
            old(self).total() + list_seconds(list@) <= u64::MAX,
        ensures
            records(*final(self), *old(self), list@),
            list@.len() == 0 ==> *final(self) == *old(self),
    {
        let ghost start = *self;
        let n = list.len();
        let mut i: usize = 0;
        proof {
            assert(list@.take(0) =~= seq![]);
            lemma_list_seconds_nonneg(list@);
        }
        while i < n
            invariant
                n == list@.len(),
                0 <= i <= n,
                start.wf(),
                start.total() + list_seconds(list@) <= u64::MAX,
                records(*self, start, list@.take(i as int)),
                i == 0 ==> *self == start,
            decreases n - i,
        {
            let d = list[i];
            let ghost before = *self;
            let ghost pre = list@.take(i as int);
            let ghost post = list@.take(i + 1);
            assert(post.drop_last() == pre);
            assert(post.last() == d);
            proof {
                lemma_list_prefix_seconds(list@, i as int + 1);
            }
            self.record_event(d.year, d.month, d.event);
            assert forall|y: u16, m: u8|
                or_empty(#[trigger] self.events_in(y, m)) == or_empty(start.events_in(y, m)) + bucket(
                    post,
                    y,
                    m,
                ) by {
                if y == d.year && m == d.month {
                    assert(or_empty(before.events_in(y, m)).push(d.event) =~= or_empty(
                        start.events_in(y, m),
                    ) + bucket(pre, y, m).push(d.event));
                }
            }
            assert forall|y: u16| #[trigger] self.months_of(y) == months_after(start.months_of(y), post, y) by {
            }
            assert forall|y: u16, m: u8| #[trigger] self.month_sum(y, m) == start.month_sum(y, m)
                + events_seconds(bucket(post, y, m)) by {
                if y == d.year && m == d.month {
                    lemma_sum_push(bucket(pre, y, m), d.event, |e: DowntimeEvent| event_seconds(e));
                }
            }
            i = i + 1;
        }
        assert(list@.take(n as int) =~= list@);
    }
}

/// A prefix of a list has no more downtime than the list.
pub proof fn lemma_list_prefix_seconds(list: Seq<DatedEvent>, k: int)
    requires
        0 <= k <= list.len(),
    ensures
        list_seconds(list.take(k)) <= list_seconds(list),
    decreases list.len() - k,
{
    if k < list.len() {
        lemma_list_prefix_seconds(list, k + 1);
        assert(list.take(k + 1).drop_last() =~= list.take(k));
    } else {
        assert(list.take(k) =~= list);
    }
}

} // verus!
