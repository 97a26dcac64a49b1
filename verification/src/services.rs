//! The booking server as the polling server sees it: the days it asks for, where it asks
//! for them, a stand-in that replays recorded availabilities, and when to poll.
use crate::availabilities::Availabilities;
use crate::dates::{add_days, format_date, formatted_date, local_now, Date, DATE_FORMAT, MAX_DAY, MIN_DAY};
use crate::legarden::DayPlanningResponse;
use crate::strmap::lookup;
use crate::text::concat;
use core::ops::Range;
use core::time::Duration;
use vstd::prelude::*;

verus! {

/// How many days the server asks the booking server for, from today on.
pub const NB_DAYS_IN_BATCH: u64 = 90;

/// The plannings of the booking server.
pub const BASE_URL: &'static str = "https://api-v3.doinsport.club/clubs/playgrounds";

/// The club whose plannings are asked for.
pub const CLUB_ID: &'static str = "club.id=a126b4d4-a2ee-4f30-bee3-6596368368fb";

/// The activity whose plannings are asked for: padel.
pub const PADEL_ID: &'static str = "activities.id=ce8c306e-224a-4f24-aa9d-6500580924dc";

/// The first hour of a planning asked for.
pub const OPENING_HOUR: &'static str = "08:00";

/// The last hour of a planning asked for.
pub const CLOSING_HOUR: &'static str = "23:00";

/// How many times the server asks for the availabilities before it gives up until the next
/// poll.
pub const MAX_RETRIES: u32 = 3;

/// How many seconds the server waits before asking again.
pub const RETRY_DELAY_SECS: u64 = 5;

/// The address of the planning of the day `date` ("YYYY-MM-DD").
pub open spec fn planning_url(date: Seq<char>) -> Seq<char> {
    BASE_URL@ + "/plannings/"@ + date + "?"@ + CLUB_ID@ + "&from="@ + OPENING_HOUR@ + "&to="@
        + CLOSING_HOUR@ + "&"@ + PADEL_ID@ + "&bookingType=Unique"@
}

/// The address of the planning of the day `date` at the booking server.
pub fn day_planning_url(date: &str) -> (r: String)
    ensures
        r@ == planning_url(date@),
{
    let a = concat(BASE_URL, "/plannings/");
    let b = concat(a.as_str(), date);
    let c = concat(b.as_str(), "?");
    let d = concat(c.as_str(), CLUB_ID);
    let e = concat(d.as_str(), "&from=");
    let f = concat(e.as_str(), OPENING_HOUR);
    let g = concat(f.as_str(), "&to=");
    let h = concat(g.as_str(), CLOSING_HOUR);
    let i = concat(h.as_str(), "&");
    let j = concat(i.as_str(), PADEL_ID);
    concat(j.as_str(), "&bookingType=Unique")
}

/// The `nb_days` days from `from` on, in order.
pub fn batch_dates(from: Date, nb_days: u64) -> (r: Vec<Date>)
    requires
        MIN_DAY <= from.days_from_ce,
        from.days_from_ce + nb_days <= MAX_DAY + 1,
    ensures
        r@.len() == nb_days,
        forall|i: int| 0 <= i < nb_days ==> (#[trigger] r@[i]).days_from_ce == from.days_from_ce + i,
{
    let mut out: Vec<Date> = Vec::new();
    let mut i: u64 = 0;
    while i < nb_days
        invariant
            i <= nb_days,
            MIN_DAY <= from.days_from_ce,
            from.days_from_ce + nb_days <= MAX_DAY + 1,
            out@.len() == i,
            forall|k: int| 0 <= k < i ==> (#[trigger] out@[k]).days_from_ce == from.days_from_ce + k,
        decreases nb_days - i,
    {
        let d = match add_days(from.days_from_ce, i) {
            Some(d) => d,
            None => from.days_from_ce,
        };
        out.push(Date { days_from_ce: d });
        i = i + 1;
    }
    out
}

/// The texts ("YYYY-MM-DD") of the `nb_days` days from `from` on, in order.
pub open spec fn batch_texts_from(from: int, nb_days: nat) -> Seq<Seq<char>> {
    Seq::new(nb_days, |i: int| formatted_date((from + i) as i32, DATE_FORMAT@).unwrap())
}

/// The texts ("YYYY-MM-DD") of the `nb_days` days from `from` on, in order: the days whose
/// plannings are asked for.
pub fn planning_dates(from: Date, nb_days: u64) -> (r: Vec<String>)
    requires
        MIN_DAY <= from.days_from_ce,
        from.days_from_ce + nb_days <= MAX_DAY + 1,
    ensures
        r@.len() == nb_days,
        forall|i: int| 0 <= i < nb_days ==> (#[trigger] r@[i])@ == batch_texts_from(from.days_from_ce as int, nb_days as nat)[i],
{
    let days = batch_dates(from, nb_days);
    let mut out: Vec<String> = Vec::new();
    let mut i: usize = 0;
    while i < days.len()
        invariant
            i <= days@.len(),
            days@.len() == nb_days,
            forall|k: int| 0 <= k < nb_days ==> (#[trigger] days@[k]).days_from_ce == from.days_from_ce + k,
            MIN_DAY <= from.days_from_ce,
            from.days_from_ce + nb_days <= MAX_DAY + 1,
            out@.len() == i,
            forall|k: int| 0 <= k < i ==> (#[trigger] out@[k])@ == batch_texts_from(from.days_from_ce as int, nb_days as nat)[k],
        decreases days@.len() - i,
    {
        assert(days@[i as int].days_from_ce == from.days_from_ce + i);
        let text = match format_date(days[i].days_from_ce, DATE_FORMAT) {
            Some(t) => t,
            None => String::new(),
        };
        out.push(text);
        i = i + 1;
    }
    out
}

/// The availabilities that give the planning `day` to each of the `nb_days` days from
/// `from` on.
pub fn simple_availabilities_from(from: Date, nb_days: u64, day: &DayPlanningResponse) -> (r:
    Availabilities)
    requires
        MIN_DAY <= from.days_from_ce,
        from.days_from_ce + nb_days <= MAX_DAY + 1,
    ensures
        r.wf(),
        forall|q: Seq<char>|
            #![trigger lookup(r@, q)]
            lookup(r@, q) == if batch_texts_from(from.days_from_ce as int, nb_days as nat).contains(q) {
                Some(day@)
            } else {
                None
            },
{
    let ghost texts = batch_texts_from(from.days_from_ce as int, nb_days as nat);
    let dates = planning_dates(from, nb_days);
    let mut r = Availabilities::new();
    let mut i: usize = 0;
    while i < dates.len()
        invariant
            i <= dates@.len(),
            dates@.len() == nb_days,
            texts.len() == nb_days,
            forall|k: int| 0 <= k < nb_days ==> (#[trigger] dates@[k])@ == texts[k],
            r.wf(),
            forall|q: Seq<char>|
                #![trigger lookup(r@, q)]
                lookup(r@, q) == if texts.take(i as int).contains(q) {
                    Some(day@)
                } else {
                    None
                },
        decreases dates@.len() - i,
    {
        let ghost before = r@;
        r.insert(dates[i].clone(), day.clone());
        assert forall|q: Seq<char>| #[trigger] lookup(r@, q) == if texts.take(i + 1).contains(q) {
            Some(day@)
        } else {
            None
        } by {
            assert(texts.take(i + 1) =~= texts.take(i as int).push(texts[i as int]));
            if q == texts[i as int] {
                assert(texts.take(i + 1)[i as int] == q);
            } else {
                assert(lookup(before, q) == if texts.take(i as int).contains(q) {
                    Some(day@)
                } else {
                    None
                });
                if texts.take(i + 1).contains(q) {
                    let k = choose|k: int| 0 <= k < i + 1 && #[trigger] texts.take(i + 1)[k] == q;
                    assert(texts.take(i as int)[k] == q);
                }
            }
        }
        i = i + 1;
    }
    assert(texts.take(nb_days as int) =~= texts);
    r
}

/// The `nb_days` days from the day `from` on are days that chrono holds (from a day it
/// holds).
pub open spec fn batch_fits(from: int, nb_days: nat) -> bool {
    from + nb_days <= MAX_DAY + 1
}

/// The availabilities that give the planning `day` to each of the `nb_days` days from `from`
/// on (see `simple_availabilities_from`); nothing when those days go beyond the days that
/// chrono holds.
pub fn try_simple_availabilities_from(from: Date, nb_days: u64, day: &DayPlanningResponse) -> (r:
    Option<Availabilities>)
    requires
        MIN_DAY <= from.days_from_ce <= MAX_DAY,
    ensures
        r is None <==> !batch_fits(from.days_from_ce as int, nb_days as nat),
        r matches Some(a) ==> a.wf() && forall|q: Seq<char>|
            #![trigger lookup(a@, q)]
            lookup(a@, q) == if batch_texts_from(from.days_from_ce as int, nb_days as nat).contains(
                q,
            ) {
                Some(day@)
            } else {
                None
            },
{
    if from.days_from_ce as i128 + nb_days as i128 > MAX_DAY as i128 + 1 {
        return None;
    }
    Some(simple_availabilities_from(from, nb_days, day))
}

/// The availabilities that give the planning `day` to each of the `nb_days` days from today
/// on, by the machine's clock (see `try_simple_availabilities_from`): for the day the clock
/// gave, nothing exactly when those days go beyond the days that chrono holds.
pub fn simple_availabilities(nb_days: u64, day: &DayPlanningResponse) -> (r: Option<
    Availabilities,
>)
    ensures
        exists|from: int|
            MIN_DAY <= from <= MAX_DAY && (r is None <==> !#[trigger] batch_fits(
                from,
                nb_days as nat,
            )) && (r matches Some(a) ==> a.wf() && forall|q: Seq<char>|
                #![trigger lookup(a@, q)]
                lookup(a@, q) == if batch_texts_from(from, nb_days as nat).contains(q) {
                    Some(day@)
                } else {
                    None
                }),
{
    let today = local_now().date;
    let r = try_simple_availabilities_from(today, nb_days, day);
    assert(batch_fits(today.days_from_ce as int, nb_days as nat) || !batch_fits(
        today.days_from_ce as int,
        nb_days as nat,
    ));
    r
}

// ---------------------------------------------------------------- the booking server

/// The booking server itself, asked over the network.
pub struct LeGardenServer;

impl LeGardenServer {
    /// The days ("YYYY-MM-DD") whose plannings a poll on the day `today` asks for: the
    /// `NB_DAYS_IN_BATCH` days from `today` on.
    pub fn dates_to_poll(today: Date) -> (r: Vec<String>)
        requires
            MIN_DAY <= today.days_from_ce,
            today.days_from_ce + NB_DAYS_IN_BATCH <= MAX_DAY + 1,
        ensures
            r@.len() == NB_DAYS_IN_BATCH,
            forall|i: int| 0 <= i < NB_DAYS_IN_BATCH ==> (#[trigger] r@[i])@ == batch_texts_from(today.days_from_ce as int, NB_DAYS_IN_BATCH as nat)[i],
    {
        planning_dates(today, NB_DAYS_IN_BATCH)
    }
}

/// A stand-in for the booking server that gives, poll after poll, the availabilities it was
/// given, in turn and over again.
pub struct MockLeGardenService {
    pub availabilities: Vec<Availabilities>,
    /// How many polls it has answered, wrapping around.
    pub index: usize,
    pub poll_interval: Duration,
}

impl MockLeGardenService {
    /// A stand-in that answers with `availabilities` in turn, to be polled every
    /// `poll_interval`.
    pub fn new(availabilities: Vec<Availabilities>, poll_interval: Duration) -> (r: Self)
        ensures
            r.availabilities@ == availabilities@,
            r.index == 0,
            r.poll_interval == poll_interval,
    {
        MockLeGardenService { availabilities, index: 0, poll_interval }
    }

    /// The availabilities of this poll: the `index`-th of those given, counted round; the
    /// count of polls goes up by one, wrapping around.
    pub fn get_calendar(&mut self) -> (r: Availabilities)
        requires
            old(self).availabilities@.len() > 0,
        ensures
            r@ == old(self).availabilities@[old(self).index as int % old(self).availabilities@.len() as int]@,
            final(self).availabilities@ == old(self).availabilities@,
            final(self).poll_interval == old(self).poll_interval,
            final(self).index == if old(self).index == usize::MAX {
                0
            } else {
                (old(self).index + 1) as usize
            },
    {
        let i = self.index;
        self.index = if i == usize::MAX {
            0
        } else {
            i + 1
        };
        let n = self.availabilities.len();
        self.availabilities[i % n].clone()
    }

    /// The hours of the day at which it may be polled: all of them.
    pub fn polling_time(&self) -> (r: Range<u32>)
        ensures
            r.start == 0,
            r.end == 25,
    {
        0..25
    }

    /// How long to wait between two polls.
    pub fn polling_interval(&self) -> (r: Duration)
        ensures
            r == self.poll_interval,
    {
        self.poll_interval
    }
}

// ---------------------------------------------------------------- when to poll

/// Whether the server polls at the hour `hour`: within the polling hours, or whenever it has
/// no availabilities yet.
pub fn should_poll(hour: u32, polling_time: &Range<u32>, calendar_is_empty: bool) -> (r: bool)
    ensures
        r == ((polling_time.start <= hour && hour < polling_time.end) || calendar_is_empty),
{
    (polling_time.start <= hour && hour < polling_time.end) || calendar_is_empty
}

/// What the server does after its `attempt`-th request (counted from 1) for the
/// availabilities.
#[derive(Debug, PartialEq, Eq, Structural, Clone, Copy)]
pub enum PollStep {
    /// The availabilities came: the poll is done.
    Done,
    /// Wait this many seconds and ask again.
    RetryAfter(u64),
    /// Give up until the next poll.
    GiveUp,
}

/// What the server does after its `attempt`-th request, which brought the availabilities or
/// failed: done when it brought them; after a failure, ask again `RETRY_DELAY_SECS` seconds
/// later while fewer than `MAX_RETRIES` requests were made, else give up.
pub fn next_poll_step(attempt: u32, fetched: bool) -> (r: PollStep)
    ensures
        r == if fetched {
            PollStep::Done
        } else if attempt < MAX_RETRIES {
            PollStep::RetryAfter(RETRY_DELAY_SECS)
        } else {
            PollStep::GiveUp
        },
{
    if fetched {
        PollStep::Done
    } else if attempt < MAX_RETRIES {
        PollStep::RetryAfter(RETRY_DELAY_SECS)
    } else {
        PollStep::GiveUp
    }
}

/// The availabilities the server holds, with the time (seconds since the epoch) at which
/// they came.
pub struct Calendar {
    pub timestamp: i64,
    pub availabilities: Availabilities,
}

impl Calendar {
    /// No availabilities, at time 0.
    pub fn new() -> (r: Self)
        ensures
            r.timestamp == 0,
            r.availabilities@ == Seq::<(Seq<char>, crate::legarden::DayModel)>::empty(),
            r.availabilities.wf(),
    {
        Calendar { timestamp: 0, availabilities: Availabilities::new() }
    }

    /// Replaces the availabilities by those that came at `timestamp`; gives back the ones
    /// held before.
    pub fn update(&mut self, availabilities: Availabilities, timestamp: i64) -> (r: Availabilities)
        ensures
            r@ == old(self).availabilities@,
            final(self).availabilities@ == availabilities@,
            final(self).timestamp == timestamp,
    {
        let mut previous = availabilities;
        core::mem::swap(&mut previous, &mut self.availabilities);
        self.timestamp = timestamp;
        previous
    }
}

} // verus!
