//! The seasonal calendar of the weather system: day of year, the month and
//! season it falls in, climate pattern, and heatwave countdown.
use vstd::prelude::*;

verus! {

/// Climate pattern types affecting weather.
#[derive(Debug, Clone, Copy, PartialEq, Eq, Structural)]
pub enum ClimatePattern {
    /// Normal atmospheric conditions.
    Neutral,
    /// El Niño Southern Oscillation warm phase (hotter, drier).
    ElNino,
    /// El Niño Southern Oscillation cool phase (cooler, wetter).
    LaNina,
}

/// Southern-hemisphere season of a day of the year, in 91-day blocks from
/// 1 January.
#[derive(Debug, Clone, Copy, PartialEq, Eq, Structural)]
pub enum Season {
    /// Days 1 to 91.
    Summer,
    /// Days 92 to 182.
    Autumn,
    /// Days 183 to 273.
    Winter,
    /// Day 274 onwards.
    Spring,
}

/// Month (0 = January … 11 = December) used for a day of the year: 30-day
/// blocks from 1 January, with everything from day 331 on in December.
pub open spec fn month_of(day: int) -> int {
    if (day - 1) / 30 < 11 {
        (day - 1) / 30
    } else {
        11
    }
}

/// Season of a day of the year.
pub open spec fn season_of(day: int) -> Season {
    if (day - 1) / 91 == 0 {
        Season::Summer
    } else if (day - 1) / 91 == 1 {
        Season::Autumn
    } else if (day - 1) / 91 == 2 {
        Season::Winter
    } else {
        Season::Spring
    }
}

/// Month index of a day of the year (`day_of_year` counts from 1).
pub fn month_index(day_of_year: u16) -> (m: usize)
    requires
        day_of_year >= 1,
    ensures
        m == month_of(day_of_year as int),
        m < 12,
{
    let m = (day_of_year - 1) / 30;
    if m < 11 {
        m as usize
    } else {
        11
    }
}

/// Season of a day of the year (`day_of_year` counts from 1).
pub fn season_of_day(day_of_year: u16) -> (s: Season)
    requires
        day_of_year >= 1,
    ensures
        s == season_of(day_of_year as int),
{
    match (day_of_year - 1) / 91 {
        0 => Season::Summer,
        1 => Season::Autumn,
        2 => Season::Winter,
        _ => Season::Spring,
    }
}

/// Fuel curing percentage assumed for a season when no regional preset
/// gives one.
pub open spec fn fallback_curing(s: Season) -> u8 {
    match s {
        Season::Summer => 95,
        Season::Autumn => 80,
        Season::Winter => 50,
        Season::Spring => 70,
    }
}

/// Fuel curing percentage (dryness) assumed for a day of the year when no
/// regional preset gives one: higher in summer, lower in winter.
pub fn fallback_curing_percent(day_of_year: u16) -> (p: u8)
    requires
        day_of_year >= 1,
    ensures
        p == fallback_curing(season_of(day_of_year as int)),
{
    match season_of_day(day_of_year) {
        Season::Summer => 95,
        Season::Autumn => 80,
        Season::Winter => 50,
        Season::Spring => 70,
    }
}

/// Abstract calendar state.
pub struct CalendarView {
    /// Day of the year.
    pub day: int,
    /// Whether a heatwave is occurring.
    pub heatwave: bool,
    /// Days remaining in the heatwave.
    pub remaining: int,
}

/// Day that follows `day`: day 365 (or any later day) is followed by day 1.
pub open spec fn next_day(day: int) -> int {
    if day + 1 > 365 {
        1
    } else {
        day + 1
    }
}

/// State after one day passes: the day advances, a running heatwave
/// countdown loses a day, and the heatwave is over once no day of it is
/// left.
pub open spec fn next_calendar(v: CalendarView) -> CalendarView {
    CalendarView {
        day: next_day(v.day),
        heatwave: v.heatwave && v.remaining > 1,
        remaining: if v.remaining > 0 {
            v.remaining - 1
        } else {
            v.remaining
        },
    }
}

/// State after `n` days pass.
pub open spec fn calendar_after(v: CalendarView, n: nat) -> CalendarView
    decreases n,
{
    if n == 0 {
        v
    } else {
        next_calendar(calendar_after(v, (n - 1) as nat))
    }
}

/// Calendar part of the weather state.
#[derive(Debug, Clone, Copy)]
pub struct CalendarState {
    day_of_year: u16,
    is_heatwave: bool,
    heatwave_days_remaining: u8,
}

impl View for CalendarState {
    type V = CalendarView;

    closed spec fn view(&self) -> CalendarView {
        CalendarView {
            day: self.day_of_year as int,
            heatwave: self.is_heatwave,
            remaining: self.heatwave_days_remaining as int,
        }
    }
}

impl CalendarState {
    /// Calendar of a freshly created weather system: day 180, no heatwave.
    pub fn new() -> (c: Self)
        ensures
            c@ == (CalendarView { day: 180, heatwave: false, remaining: 0 }),
    {
        CalendarState { day_of_year: 180, is_heatwave: false, heatwave_days_remaining: 0 }
    }

    /// Calendar starting on `day_of_year`, with no heatwave.
    pub fn starting_on(day_of_year: u16) -> (c: Self)
        requires
            day_of_year >= 1,
        ensures
            c@ == (CalendarView { day: day_of_year as int, heatwave: false, remaining: 0 }),
    {
        CalendarState { day_of_year, is_heatwave: false, heatwave_days_remaining: 0 }
    }

    /// Current day of year.
    pub fn day_of_year(&self) -> (d: u16)
        ensures
            d == self@.day,
    {
        self.day_of_year
    }

    /// Check if currently in a heatwave.
    pub fn is_heatwave(&self) -> (h: bool)
        ensures
            h == self@.heatwave,
    {
        self.is_heatwave
    }

    /// Days remaining in the heatwave.
    pub fn heatwave_days_remaining(&self) -> (r: u8)
        ensures
            r == self@.remaining,
    {
        self.heatwave_days_remaining
    }

    /// Month index of the current day.
    pub fn month(&self) -> (m: usize)
        requires
            self@.day >= 1,
        ensures
            m == month_of(self@.day),
    {
        month_index(self.day_of_year)
    }

    /// Season of the current day.
    pub fn season(&self) -> (s: Season)
        requires
            self@.day >= 1,
        ensures
            s == season_of(self@.day),
    {
        season_of_day(self.day_of_year)
    }

    /// Set day of year (1-365).
    pub fn set_day_of_year(&mut self, day: u16)
        requires
            1 <= day <= 365,
        ensures
            final(self)@ == (CalendarView { day: day as int, ..old(self)@ }),
    {
        self.day_of_year = day;
    }

    /// Trigger a heatwave event that lasts for `days` days; a heatwave of
    /// no days does not start.
    pub fn trigger_heatwave(&mut self, days: u8)
        ensures
            final(self)@ == (CalendarView {
                day: old(self)@.day,
                heatwave: days > 0,
                remaining: days as int,
            }),
    {
        self.is_heatwave = days > 0;
        self.heatwave_days_remaining = days;
    }

    /// Pass midnight: move to the next day and count down a running heatwave.
    pub fn advance_day(&mut self)
        requires
            old(self)@.day < u16::MAX,
        ensures
            final(self)@ == next_calendar(old(self)@),
    {
        self.day_of_year = self.day_of_year + 1;
        if self.day_of_year > 365 {
            self.day_of_year = 1;
        }
        if self.heatwave_days_remaining > 0 {
            self.heatwave_days_remaining = self.heatwave_days_remaining - 1;
        }
        if self.heatwave_days_remaining == 0 {
            self.is_heatwave = false;
        }
    }
}

/// A day of the year stays within 1..=365 as days pass, and after `n` days
/// it is `n` days further on, counted modulo 365.
pub proof fn lemma_days_cycle(v: CalendarView, n: nat)
    requires
        1 <= v.day <= 365,
    ensures
        1 <= calendar_after(v, n).day <= 365,
        calendar_after(v, n).day == (v.day - 1 + n) % 365 + 1,
    decreases n,
{
    if n > 0 {
        lemma_days_cycle(v, (n - 1) as nat);
    }
}

/// After a full year of days the calendar is back on the same day.
pub proof fn lemma_year_returns_to_same_day(v: CalendarView)
    requires
        1 <= v.day <= 365,
    ensures
        calendar_after(v, 365).day == v.day,
{
    lemma_days_cycle(v, 365);
}

/// A heatwave of `d` days, as `trigger_heatwave` starts it, runs for
/// exactly the first `d` days: after `k` days it is on exactly when
/// `k < d`, with `d - k` days left (none once it is over). A heatwave of
/// no days is never on.
pub proof fn lemma_heatwave_lasts(v: CalendarView, k: nat)
    requires
        v.remaining >= 0,
        v.heatwave == (v.remaining > 0),
    ensures
        calendar_after(v, k).remaining == if k < v.remaining {
            v.remaining - k
        } else {
            0
        },
        calendar_after(v, k).heatwave == (k < v.remaining),
    decreases k,
{
    if k > 0 {
        lemma_heatwave_lasts(v, (k - 1) as nat);
    }
}

/// With no heatwave running, passing days never starts one.
pub proof fn lemma_no_spontaneous_heatwave(v: CalendarView, n: nat)
    requires
        !v.heatwave,
        v.remaining >= 0,
    ensures
        !calendar_after(v, n).heatwave,
        calendar_after(v, n).remaining >= 0,
    decreases n,
{
    if n > 0 {
        lemma_no_spontaneous_heatwave(v, (n - 1) as nat);
    }
}

} // verus!
