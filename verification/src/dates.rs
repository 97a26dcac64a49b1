//! Days, times of day and the clock, with the parsing and formatting that chrono does.
use chrono::Datelike;
use chrono::Timelike;
use vstd::prelude::*;

verus! {

/// How the booking server writes a day.
pub const DATE_FORMAT: &'static str = "%Y-%m-%d";

/// How the booking server writes a start time.
pub const TIME_FORMAT: &'static str = "%H:%M";

/// How a notification writes a day: day of the month, then month.
pub const DAY_MONTH_FORMAT: &'static str = "%d/%m";

/// The first day that chrono can hold (January 1, 262144 BCE), counted as `Date` counts.
pub const MIN_DAY: i32 = -95746129;

/// The last day that chrono can hold (December 31, 262142 CE), counted as `Date` counts.
pub const MAX_DAY: i32 = 95745399;

/// A day of the proleptic Gregorian calendar, counted from January 1 of year 1, which is
/// day 1.
#[derive(Clone, Copy, PartialEq, Eq, Structural, Debug)]
pub struct Date {
    pub days_from_ce: i32,
}

/// A time of day: seconds since midnight, and nanoseconds within the second (from
/// 1,000,000,000 on during a leap second).
#[derive(Clone, Copy, PartialEq, Eq, Structural, Debug)]
pub struct TimeOfDay {
    pub secs: u32,
    pub nanos: u32,
}

/// A local date and time, as the clock of the machine reads it.
#[derive(Clone, Copy, PartialEq, Eq, Structural, Debug)]
pub struct LocalDateTime {
    pub date: Date,
    pub time: TimeOfDay,
}

/// A day of the week.
#[derive(Clone, Copy, PartialEq, Eq, Structural, Debug)]
pub enum Weekday {
    Mon,
    Tue,
    Wed,
    Thu,
    Fri,
    Sat,
    Sun,
}

/// A month of the year.
#[derive(Clone, Copy, PartialEq, Eq, Structural, Debug)]
pub enum Month {
    January,
    February,
    March,
    April,
    May,
    June,
    July,
    August,
    September,
    October,
    November,
    December,
}

// ---------------------------------------------------------------- chrono

/// What chrono's `NaiveDate::parse_from_str(s, "%Y-%m-%d")` gives, as a day number.
pub uninterp spec fn parsed_date(s: Seq<char>) -> Option<i32>;

/// What chrono's `NaiveTime::parse_from_str(s, "%H:%M")` gives, as seconds since midnight
/// and nanoseconds.
pub uninterp spec fn parsed_time(s: Seq<char>) -> Option<(u32, u32)>;

/// What chrono's `NaiveDate::format(fmt).to_string()` gives for the day `d`, nothing when chrono
/// cannot hold that day.
pub uninterp spec fn formatted_date(d: i32, fmt: Seq<char>) -> Option<Seq<char>>;

/// Calls chrono's `NaiveDate::parse_from_str` with `DATE_FORMAT` and reads the day number of
/// the result (`Datelike::num_days_from_ce`). Claims: the result is `parsed_date(s@)`, and a
/// day that chrono holds lies between `MIN_DAY` and `MAX_DAY` (chrono's `NaiveDate::MIN` and
/// `NaiveDate::MAX`).
#[verifier::external_body]
pub(crate) fn parse_date(s: &str) -> (r: Option<i32>)
    ensures
        r == parsed_date(s@),
        r matches Some(d) ==> MIN_DAY <= d <= MAX_DAY,
{
    match chrono::NaiveDate::parse_from_str(s, DATE_FORMAT) {
        Ok(date) => Some(date.num_days_from_ce()),
        Err(_) => None,
    }
}

/// Calls chrono's `NaiveTime::parse_from_str` with `TIME_FORMAT` and reads the seconds since
/// midnight and the nanoseconds of the result. Claims: the result is `parsed_time(s@)`; the
/// seconds are below 86,400 and the nanoseconds below 2,000,000,000 (chrono's `Timelike`
/// documentation).
#[verifier::external_body]
pub(crate) fn parse_time(s: &str) -> (r: Option<(u32, u32)>)
    ensures
        r == parsed_time(s@),
        r matches Some((secs, nanos)) ==> secs < 86400 && nanos < 2_000_000_000,
{
    match chrono::NaiveTime::parse_from_str(s, TIME_FORMAT) {
        Ok(t) => Some((t.num_seconds_from_midnight(), t.nanosecond())),
        Err(_) => None,
    }
}

/// Calls chrono's `NaiveDate::from_num_days_from_ce_opt` and then formats the day with `fmt`.
/// Claims: the text is `formatted_date(d, fmt@)`, and there is one for every day from
/// `MIN_DAY` to `MAX_DAY` (chrono's range of `NaiveDate`). `fmt` is one of the library's formats,
/// on which chrono's formatting does not fail. With `DATE_FORMAT`, the text reads back as the
/// same day (`parsed_date`): chrono writes the year with four digits, or with its sign and all
/// its digits outside 0 to 9999, the month and the day with two, and its parser takes a signed
/// year of any length back.
#[verifier::external_body]
pub(crate) fn format_date(d: i32, fmt: &str) -> (r: Option<String>)
    requires
        fmt@ == DATE_FORMAT@ || fmt@ == DAY_MONTH_FORMAT@,
    ensures
        match r {
            Some(s) => formatted_date(d, fmt@) == Some(s@),
            None => formatted_date(d, fmt@) is None,
        },
        MIN_DAY <= d <= MAX_DAY ==> r is Some,
        fmt@ == DATE_FORMAT@ && r is Some ==> parsed_date(r->0@) == Some(d),
{
    match chrono::NaiveDate::from_num_days_from_ce_opt(d) {
        Some(date) => Some(date.format(fmt).to_string()),
        None => None,
    }
}

/// Calls chrono's `NaiveDate::checked_add_days` on the day `d`. Claims, as chrono's source
/// shows: the day `n` days later when chrono can hold it, and nothing otherwise.
#[verifier::external_body]
pub(crate) fn add_days(d: i32, n: u64) -> (r: Option<i32>)
    requires
        MIN_DAY <= d <= MAX_DAY,
    ensures
        r == if d + n <= MAX_DAY {
            Some((d + n) as i32)
        } else {
            None::<i32>
        },
{
    match chrono::NaiveDate::from_num_days_from_ce_opt(d) {
        Some(date) => match date.checked_add_days(chrono::Days::new(n)) {
            Some(later) => Some(later.num_days_from_ce()),
            None => None,
        },
        None => None,
    }
}

/// Reads the machine's local clock (chrono's `Local::now().naive_local()`). Claims only what
/// holds of every reading: a day that chrono holds, and a time of day in range.
#[verifier::external_body]
pub(crate) fn local_now() -> (r: LocalDateTime)
    ensures
        MIN_DAY <= r.date.days_from_ce <= MAX_DAY,
        r.time.secs < 86400,
        r.time.nanos < 2_000_000_000,
{
    let now = chrono::Local::now().naive_local();
    LocalDateTime {
        date: Date { days_from_ce: now.date().num_days_from_ce() },
        time: TimeOfDay {
            secs: now.time().num_seconds_from_midnight(),
            nanos: now.time().nanosecond(),
        },
    }
}

/// A time of day that chrono holds: seconds below 86,400, and nanoseconds below
/// 1,000,000,000 but in the last second of a minute (a leap second), where they go below
/// 2,000,000,000.
pub open spec fn valid_time(t: TimeOfDay) -> bool {
    &&& t.secs < 86400
    &&& t.nanos < 2_000_000_000
    &&& (t.nanos < 1_000_000_000 || t.secs % 60 == 59)
}

/// The digit of `n`, from 0 to 9.
pub open spec fn digit(n: int) -> char {
    ('0' as int + n) as char
}

/// The last `width` decimal digits of `n`, zeros in front.
pub open spec fn padded(n: int, width: nat) -> Seq<char>
    decreases width,
{
    if width == 0 {
        Seq::empty()
    } else {
        padded(n / 10, (width - 1) as nat) + seq![digit(n % 10)]
    }
}

/// The fraction of a second chrono writes after the seconds: nothing for none; otherwise a
/// dot and the milliseconds, microseconds or nanoseconds, the shortest that holds it exactly.
pub open spec fn displayed_fraction(nano: int) -> Seq<char> {
    if nano == 0 {
        Seq::empty()
    } else if nano % 1_000_000 == 0 {
        seq!['.'] + padded(nano / 1_000_000, 3)
    } else if nano % 1_000 == 0 {
        seq!['.'] + padded(nano / 1_000, 6)
    } else {
        seq!['.'] + padded(nano, 9)
    }
}

/// What chrono's `Display` of `NaiveTime` writes for the time of day `t`: "HH:MM:SS", two
/// digits each, a leap second counted as second 60, then the fraction of the second (see
/// `displayed_fraction`).
pub open spec fn displayed_time(t: TimeOfDay) -> Seq<char> {
    let leap = t.nanos >= 1_000_000_000;
    let sec = t.secs % 60 + if leap { 1int } else { 0int };
    let nano = if leap { t.nanos - 1_000_000_000 } else { t.nanos as int };
    padded((t.secs / 3600) as int, 2) + seq![':'] + padded((t.secs / 60 % 60) as int, 2) + seq![':'] + padded(sec, 2)
        + displayed_fraction(nano)
}

/// Calls chrono's `NaiveTime::from_num_seconds_from_midnight_opt` and writes the time with
/// `to_string`. Claims: the text is `displayed_time(t)`, as chrono's `Debug` (which its
/// `Display` calls) writes it; chrono holds every time that `valid_time` admits (its source
/// checks exactly that).
#[verifier::external_body]
pub(crate) fn time_text(t: TimeOfDay) -> (r: String)
    requires
        valid_time(t),
    ensures
        r@ == displayed_time(t),
{
    match chrono::NaiveTime::from_num_seconds_from_midnight_opt(t.secs, t.nanos) {
        Some(time) => time.to_string(),
        None => String::new(),
    }
}

/// Calls chrono's `NaiveDate::checked_sub_days` on the day `d`. Claims, as chrono's source
/// shows: the day `n` days earlier when chrono can hold it, and nothing otherwise.
#[verifier::external_body]
pub(crate) fn sub_days(d: i32, n: u64) -> (r: Option<i32>)
    requires
        MIN_DAY <= d <= MAX_DAY,
    ensures
        r == if d - n >= MIN_DAY {
            Some((d - n) as i32)
        } else {
            None::<i32>
        },
{
    match chrono::NaiveDate::from_num_days_from_ce_opt(d) {
        Some(date) => match date.checked_sub_days(chrono::Days::new(n)) {
            Some(earlier) => Some(earlier.num_days_from_ce()),
            None => None,
        },
        None => None,
    }
}

// ---------------------------------------------------------------- days

/// The day of the week of the day `d`, counted from Monday: January 1 of year 1 (day 1)
/// was a Monday in the proleptic Gregorian calendar.
pub open spec fn weekday_index(d: int) -> int {
    (d - 1) % 7
}

pub open spec fn weekday_from_index(i: int) -> Weekday {
    if i == 0 {
        Weekday::Mon
    } else if i == 1 {
        Weekday::Tue
    } else if i == 2 {
        Weekday::Wed
    } else if i == 3 {
        Weekday::Thu
    } else if i == 4 {
        Weekday::Fri
    } else if i == 5 {
        Weekday::Sat
    } else {
        Weekday::Sun
    }
}

pub open spec fn weekday_of(d: int) -> Weekday {
    weekday_from_index(weekday_index(d))
}

impl Weekday {
    /// The position of the day in the week, Monday being 0.
    pub open spec fn index(self) -> int {
        match self {
            Weekday::Mon => 0,
            Weekday::Tue => 1,
            Weekday::Wed => 2,
            Weekday::Thu => 3,
            Weekday::Fri => 4,
            Weekday::Sat => 5,
            Weekday::Sun => 6,
        }
    }

    /// The day at position `i` of the week, Monday being 0.
    pub fn from_monday_index(i: u32) -> (r: Weekday)
        requires
            i < 7,
        ensures
            r == weekday_from_index(i as int),
            r.index() == i,
    {
        if i == 0 {
            Weekday::Mon
        } else if i == 1 {
            Weekday::Tue
        } else if i == 2 {
            Weekday::Wed
        } else if i == 3 {
            Weekday::Thu
        } else if i == 4 {
            Weekday::Fri
        } else if i == 5 {
            Weekday::Sat
        } else {
            Weekday::Sun
        }
    }

    /// The position of the day in the week, Monday being 0.
    pub fn num_days_from_monday(&self) -> (r: u32)
        ensures
            r == self.index(),
    {
        match self {
            Weekday::Mon => 0,
            Weekday::Tue => 1,
            Weekday::Wed => 2,
            Weekday::Thu => 3,
            Weekday::Fri => 4,
            Weekday::Sat => 5,
            Weekday::Sun => 6,
        }
    }

    /// The English abbreviation of the day ("Mon", "Tue", ...), as chrono writes it.
    pub fn name(&self) -> (r: &'static str)
        ensures
            r@ == weekday_name(*self),
    {
        match self {
            Weekday::Mon => "Mon",
            Weekday::Tue => "Tue",
            Weekday::Wed => "Wed",
            Weekday::Thu => "Thu",
            Weekday::Fri => "Fri",
            Weekday::Sat => "Sat",
            Weekday::Sun => "Sun",
        }
    }
}

/// The English abbreviation of a day of the week.
pub open spec fn weekday_name(w: Weekday) -> Seq<char> {
    match w {
        Weekday::Mon => "Mon"@,
        Weekday::Tue => "Tue"@,
        Weekday::Wed => "Wed"@,
        Weekday::Thu => "Thu"@,
        Weekday::Fri => "Fri"@,
        Weekday::Sat => "Sat"@,
        Weekday::Sun => "Sun"@,
    }
}

/// The French abbreviation of a day of the week.
pub open spec fn weekday_french(w: Weekday) -> Seq<char> {
    match w {
        Weekday::Mon => "Lun"@,
        Weekday::Tue => "Mar"@,
        Weekday::Wed => "Mer"@,
        Weekday::Thu => "Jeu"@,
        Weekday::Fri => "Ven"@,
        Weekday::Sat => "Sam"@,
        Weekday::Sun => "Dim"@,
    }
}

/// The French abbreviation of a day of the week.
pub fn weekday_to_french(weekday: Weekday) -> (r: &'static str)
    ensures
        r@ == weekday_french(weekday),
{
    match weekday {
        Weekday::Mon => "Lun",
        Weekday::Tue => "Mar",
        Weekday::Wed => "Mer",
        Weekday::Thu => "Jeu",
        Weekday::Fri => "Ven",
        Weekday::Sat => "Sam",
        Weekday::Sun => "Dim",
    }
}

/// The French abbreviation of a month.
pub open spec fn month_french(m: Month) -> Seq<char> {
    match m {
        Month::January => "Jan"@,
        Month::February => "Fév"@,
        Month::March => "Mars"@,
        Month::April => "Avr"@,
        Month::May => "Mai"@,
        Month::June => "Juin"@,
        Month::July => "Juil"@,
        Month::August => "Août"@,
        Month::September => "Sept"@,
        Month::October => "Oct"@,
        Month::November => "Nov"@,
        Month::December => "Déc"@,
    }
}

/// The French abbreviation of a month.
pub fn months_to_french(month: Month) -> (r: &'static str)
    ensures
        r@ == month_french(month),
{
    match month {
        Month::January => "Jan",
        Month::February => "Fév",
        Month::March => "Mars",
        Month::April => "Avr",
        Month::May => "Mai",
        Month::June => "Juin",
        Month::July => "Juil",
        Month::August => "Août",
        Month::September => "Sept",
        Month::October => "Oct",
        Month::November => "Nov",
        Month::December => "Déc",
    }
}

impl Date {
    /// The day of the week of this day.
    pub fn weekday(&self) -> (r: Weekday)
        ensures
            r == weekday_of(self.days_from_ce as int),
            r.index() == weekday_index(self.days_from_ce as int),
    {
        // 2,170,000,000 is a multiple of 7 that makes the dividend positive.
        let x: i64 = self.days_from_ce as i64 - 1 + 2_170_000_000;
        let ghost d = self.days_from_ce as int;
        assert(x % 7 == (d - 1) % 7) by (nonlinear_arith)
            requires
                x == d - 1 + 7 * 310_000_000,
                x >= 0,
        {
            vstd::arithmetic::div_mod::lemma_mod_add_multiples_vanish(d - 1, 7);
            assert((7 * 310_000_000 + (d - 1)) % 7 == (d - 1) % 7) by {
                vstd::arithmetic::div_mod::lemma_mod_multiples_vanish(310_000_000, d - 1, 7);
            }
        }
        let i: u32 = (x % 7) as u32;
        Weekday::from_monday_index(i)
    }
}

// ---------------------------------------------------------------- times

/// `a` comes strictly before `b` in the day (chrono's order of `NaiveTime`).
pub open spec fn time_lt(a: TimeOfDay, b: TimeOfDay) -> bool {
    a.secs < b.secs || (a.secs == b.secs && a.nanos < b.nanos)
}

impl TimeOfDay {
    /// The time at `h`:`m`:`s`.
    pub fn from_hms(h: u32, m: u32, s: u32) -> (r: TimeOfDay)
        requires
            h < 24,
            m < 60,
            s < 60,
        ensures
            r.secs == h * 3600 + m * 60 + s,
            r.nanos == 0,
    {
        TimeOfDay { secs: h * 3600 + m * 60 + s, nanos: 0 }
    }

    /// `self` comes strictly before `other` in the day.
    pub fn is_before(&self, other: &TimeOfDay) -> (r: bool)
        ensures
            r == time_lt(*self, *other),
    {
        self.secs < other.secs || (self.secs == other.secs && self.nanos < other.nanos)
    }
}

/// The moment `a` comes strictly before the moment `b`: an earlier day, or the same day at an
/// earlier time.
pub open spec fn moment_lt(a: LocalDateTime, b: LocalDateTime) -> bool {
    a.date.days_from_ce < b.date.days_from_ce || (a.date.days_from_ce == b.date.days_from_ce
        && time_lt(a.time, b.time))
}

impl LocalDateTime {
    /// `self` comes strictly before `other` (see `moment_lt`).
    pub fn is_before(&self, other: &LocalDateTime) -> (r: bool)
        ensures
            r == moment_lt(*self, *other),
    {
        self.date.days_from_ce < other.date.days_from_ce || (self.date.days_from_ce
            == other.date.days_from_ce && self.time.is_before(&other.time))
    }
}

/// The nanoseconds from `now` to `day` at `time`, as chrono's
/// `NaiveDateTime::signed_duration_since` counts them (a leap second of either side counts).
pub open spec fn nanos_until(now: LocalDateTime, day: int, time: TimeOfDay) -> int {
    let adj = if time.secs > now.time.secs && now.time.nanos >= 1_000_000_000 {
        1int
    } else if time.secs < now.time.secs && time.nanos >= 1_000_000_000 {
        -1int
    } else {
        0int
    };
    ((day - now.date.days_from_ce) * 86400 + time.secs - now.time.secs + adj) * 1_000_000_000
        + time.nanos - now.time.nanos
}

/// `day` at `time` is less than `threshold_min` minutes after `now`, or before it.
pub open spec fn starts_within(
    now: LocalDateTime,
    day: int,
    time: TimeOfDay,
    threshold_min: int,
) -> bool {
    nanos_until(now, day, time) < threshold_min * 60 * 1_000_000_000
}

/// Whether `day` at `time` is less than `threshold_min` minutes after `now`, or before it.
pub fn starts_within_minutes(
    now: &LocalDateTime,
    day: i32,
    time: &TimeOfDay,
    threshold_min: i64,
) -> (r: bool)
    ensures
        r == starts_within(*now, day as int, *time, threshold_min as int),
{
    let adj: i128 = if time.secs > now.time.secs && now.time.nanos >= 1_000_000_000 {
        1
    } else if time.secs < now.time.secs && time.nanos >= 1_000_000_000 {
        -1
    } else {
        0
    };
    let whole_secs: i128 = (day as i128 - now.date.days_from_ce as i128) * 86400
        + time.secs as i128 - now.time.secs as i128 + adj;
    let delta: i128 = whole_secs * 1_000_000_000 + time.nanos as i128 - now.time.nanos as i128;
    delta < threshold_min as i128 * 60 * 1_000_000_000
}

} // verus!
