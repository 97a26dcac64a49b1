//! Users' alarms, and the availabilities that match one.
use crate::availabilities::{
    concat_map, court_all, court_items, day_all, day_items, items, lemma_concat_map_forall,
    lemma_items_forall, slot_all, slot_items, Availabilities, ItemModel,
};
use crate::freed::{
    lemma_filter_map_forall, lemma_filter_map_identity, lemma_filter_map_none, opt_holds,
};
use crate::dates::{
    add_days, local_now, parse_date, parse_time, parsed_date, parsed_time, time_lt, weekday_of,
    Date, TimeOfDay, Weekday, MAX_DAY, MIN_DAY,
};
use crate::legarden::{
    court_slots, court_with_slots, courts_model, day_with_courts, prices_model, slot_with_prices,
    slots_model, ActivityModel, Court, CourtModel, DayModel, Price, PriceModel, Slot, SlotModel,
};
use crate::text::seq_lt;
use vstd::prelude::*;

verus! {

/// Which courts an alarm watches.
#[derive(Clone, Copy, PartialEq, Eq, Structural, Debug)]
pub enum CourtType {
    Indoor,
    Outdoor,
    Both,
}

/// What a user wants to be told about: the days of the week, the range of start times, the
/// kind of court, how many weeks ahead, and the durations of booking.
pub struct Alarm {
    pub name: String,
    pub days_of_the_week: Vec<Weekday>,
    pub time_range: (TimeOfDay, TimeOfDay),
    pub court_type: CourtType,
    pub weeks_ahead: u32,
    pub is_active: bool,
    pub slot_durations: Vec<usize>,
}

/// What an alarm is: its fields, the lists by their elements.
pub struct AlarmModel {
    pub name: Seq<char>,
    pub days_of_the_week: Seq<Weekday>,
    pub time_range: (TimeOfDay, TimeOfDay),
    pub court_type: CourtType,
    pub weeks_ahead: u32,
    pub is_active: bool,
    pub slot_durations: Seq<usize>,
}

impl View for Alarm {
    type V = AlarmModel;

    open spec fn view(&self) -> AlarmModel {
        AlarmModel {
            name: self.name@,
            days_of_the_week: self.days_of_the_week@,
            time_range: self.time_range,
            court_type: self.court_type,
            weeks_ahead: self.weeks_ahead,
            is_active: self.is_active,
            slot_durations: self.slot_durations@,
        }
    }
}

impl Clone for Alarm {
    fn clone(&self) -> (r: Self)
        ensures
            r.name@ == self.name@,
            r.days_of_the_week@ == self.days_of_the_week@,
            r.time_range == self.time_range,
            r.court_type == self.court_type,
            r.weeks_ahead == self.weeks_ahead,
            r.is_active == self.is_active,
            r.slot_durations@ == self.slot_durations@,
            r@ == self@,
    {
        let days = self.days_of_the_week.clone();
        assert(days@ =~= self.days_of_the_week@);
        let durations = self.slot_durations.clone();
        assert(durations@ =~= self.slot_durations@);
        Alarm {
            name: self.name.clone(),
            days_of_the_week: days,
            time_range: self.time_range,
            court_type: self.court_type,
            weeks_ahead: self.weeks_ahead,
            is_active: self.is_active,
            slot_durations: durations,
        }
    }
}

impl Default for Alarm {
    /// Every day of the week, all day long, any court, one week ahead, active, bookings of
    /// one hour, an hour and a half and two hours.
    fn default() -> (r: Self)
        ensures
            r.name@ == "Default Alarm"@,
            r.days_of_the_week@ == seq![
                Weekday::Mon,
                Weekday::Tue,
                Weekday::Wed,
                Weekday::Thu,
                Weekday::Fri,
                Weekday::Sat,
                Weekday::Sun,
            ],
            r.time_range == (TimeOfDay { secs: 0, nanos: 0 }, TimeOfDay { secs: 86399, nanos: 0 }),
            r.court_type == CourtType::Both,
            r.weeks_ahead == 1,
            r.is_active,
            r.slot_durations@ == seq![3600usize, 5400usize, 7200usize],
    {
        let r = Alarm {
            name: String::from_str("Default Alarm"),
            days_of_the_week: vec![
                Weekday::Mon,
                Weekday::Tue,
                Weekday::Wed,
                Weekday::Thu,
                Weekday::Fri,
                Weekday::Sat,
                Weekday::Sun,
            ],
            time_range: (TimeOfDay::from_hms(0, 0, 0), TimeOfDay::from_hms(23, 59, 59)),
            court_type: CourtType::Both,
            weeks_ahead: 1,
            is_active: true,
            slot_durations: vec![3600, 5400, 7200],
        };
        assert(r.days_of_the_week@ =~= seq![
            Weekday::Mon,
            Weekday::Tue,
            Weekday::Wed,
            Weekday::Thu,
            Weekday::Fri,
            Weekday::Sat,
            Weekday::Sun,
        ]);
        assert(r.slot_durations@ =~= seq![3600usize, 5400usize, 7200usize]);
        r
    }
}

// ---------------------------------------------------------------- what an alarm wants

/// A court of this kind of being indoor matches the kind the alarm watches.
pub open spec fn court_type_matches(t: CourtType, indoor: bool) -> bool {
    match t {
        CourtType::Indoor => indoor,
        CourtType::Outdoor => !indoor,
        CourtType::Both => true,
    }
}

/// A price option the alarm wants: bookable, and of one of its durations.
pub open spec fn price_wanted(a: AlarmModel, p: PriceModel) -> bool {
    p.bookable && a.slot_durations.contains(p.duration)
}

pub open spec fn price_pick(a: AlarmModel) -> spec_fn(PriceModel) -> Option<PriceModel> {
    |p: PriceModel|
        if price_wanted(a, p) {
            Some(p)
        } else {
            None
        }
}

/// The time `t` lies in the alarm's range of start times (start included, end excluded).
pub open spec fn in_time_range(a: AlarmModel, t: TimeOfDay) -> bool {
    !time_lt(t, a.time_range.0) && time_lt(t, a.time_range.1)
}

/// The start time of a slot, as chrono reads it.
pub open spec fn slot_start(s: SlotModel) -> TimeOfDay {
    TimeOfDay { secs: parsed_time(s.start_at).unwrap().0, nanos: parsed_time(s.start_at).unwrap().1 }
}

/// A slot the alarm wants: one that starts in its range of times and has price options it
/// wants; kept with only those options.
pub open spec fn target_slot(a: AlarmModel, s: SlotModel) -> Option<SlotModel> {
    let prices = s.prices.filter_map(price_pick(a));
    if in_time_range(a, slot_start(s)) && prices.len() > 0 {
        Some(slot_with_prices(s, prices))
    } else {
        None
    }
}

pub open spec fn slot_pick(a: AlarmModel) -> spec_fn(SlotModel) -> Option<SlotModel> {
    |s: SlotModel| target_slot(a, s)
}

/// A court the alarm wants: of the kind it watches, with slots it wants; kept with only
/// those slots.
pub open spec fn target_court(a: AlarmModel, c: CourtModel) -> Option<CourtModel> {
    if court_type_matches(a.court_type, c.indoor) {
        let slots = court_slots(c).filter_map(slot_pick(a));
        if slots.len() > 0 {
            Some(court_with_slots(c, slots))
        } else {
            None
        }
    } else {
        None
    }
}

pub open spec fn court_pick(a: AlarmModel) -> spec_fn(CourtModel) -> Option<CourtModel> {
    |c: CourtModel| target_court(a, c)
}

/// A day the alarm wants: its date reads, lies from `today` to `max_day`, falls on one of
/// the alarm's days of the week, and has courts the alarm wants; kept with only those courts.
pub open spec fn target_day(a: AlarmModel, today: int, max_day: int, e: (Seq<char>, DayModel)) -> Option<
    (Seq<char>, DayModel),
> {
    match parsed_date(e.0) {
        Some(d) => if today <= d <= max_day && a.days_of_the_week.contains(weekday_of(d as int)) {
            let courts = e.1.courts.filter_map(court_pick(a));
            if courts.len() > 0 {
                Some((e.0, day_with_courts(e.1, courts)))
            } else {
                None
            }
        } else {
            None
        },
        None => None,
    }
}

pub open spec fn day_pick(a: AlarmModel, today: int, max_day: int) -> spec_fn(
    (Seq<char>, DayModel),
) -> Option<(Seq<char>, DayModel)> {
    |e: (Seq<char>, DayModel)| target_day(a, today, max_day, e)
}

/// The last day an alarm looks at, `weeks_ahead` weeks after `today`.
pub open spec fn max_day_of(a: AlarmModel, today: int) -> int {
    today + 7 * a.weeks_ahead
}

/// What the alarm wants of the availabilities `avail` on the day `today`, in date order.
pub open spec fn target_days(a: AlarmModel, today: int, avail: Seq<(Seq<char>, DayModel)>) -> Seq<
    (Seq<char>, DayModel),
> {
    avail.filter_map(day_pick(a, today, max_day_of(a, today)))
}

// ---------------------------------------------------------------- what can be read

/// The slots of a court that the alarm looks at have start times that can be read.
pub open spec fn court_checkable(a: AlarmModel, c: CourtModel) -> bool {
    court_type_matches(a.court_type, c.indoor) ==> {
        &&& c.activities.len() > 0
        &&& forall|k: int|
            0 <= k < court_slots(c).len() ==> (#[trigger] parsed_time(court_slots(c)[k].start_at)) is Some
    }
}

/// The courts that the alarm looks at have slots whose start times can be read.
pub open spec fn target_checkable(a: AlarmModel, today: int, avail: Seq<(Seq<char>, DayModel)>) -> bool {
    forall|i: int, j: int|
        #![trigger avail[i], avail[i].1.courts[j]]
        0 <= i < avail.len() && 0 <= j < avail[i].1.courts.len() ==> match parsed_date(avail[i].0) {
            Some(d) => today <= d <= max_day_of(a, today) && a.days_of_the_week.contains(
                weekday_of(d as int),
            ) ==> court_checkable(a, avail[i].1.courts[j]),
            None => true,
        }
}

// ---------------------------------------------------------------- code

fn contains_weekday(days: &Vec<Weekday>, w: Weekday) -> (r: bool)
    ensures
        r == days@.contains(w),
{
    let mut i: usize = 0;
    while i < days.len()
        invariant
            i <= days@.len(),
            forall|j: int| 0 <= j < i ==> days@[j] != w,
        decreases days@.len() - i,
    {
        if days[i] == w {
            return true;
        }
        i = i + 1;
    }
    false
}

fn contains_usize(v: &Vec<usize>, x: usize) -> (r: bool)
    ensures
        r == v@.contains(x),
{
    let mut i: usize = 0;
    while i < v.len()
        invariant
            i <= v@.len(),
            forall|j: int| 0 <= j < i ==> v@[j] != x,
        decreases v@.len() - i,
    {
        if v[i] == x {
            return true;
        }
        i = i + 1;
    }
    false
}

impl Alarm {
    fn wanted_prices(&self, prices: &Vec<Price>) -> (r: Vec<Price>)
        ensures
            prices_model(r@) == prices_model(prices@).filter_map(price_pick(self@)),
    {
        let ghost pm = prices_model(prices@);
        let mut r: Vec<Price> = Vec::new();
        let mut i: usize = 0;
        while i < prices.len()
            invariant
                i <= prices@.len(),
                pm == prices_model(prices@),
                prices_model(r@) == pm.take(i as int).filter_map(price_pick(self@)),
            decreases prices@.len() - i,
        {
            let ghost before = r@;
            assert(pm.take(i + 1).drop_last() =~= pm.take(i as int));
            let p = &prices[i];
            if p.bookable() && contains_usize(&self.slot_durations, p.duration()) {
                r.push(p.clone());
                assert(prices_model(r@) =~= prices_model(before).push(pm[i as int]));
            }
            i = i + 1;
        }
        assert(pm.take(prices@.len() as int) =~= pm);
        r
    }

    fn wanted_slots(&self, slots: &Vec<Slot>) -> (r: Vec<Slot>)
        requires
            forall|k: int|
                0 <= k < slots@.len() ==> (#[trigger] parsed_time(slots@[k].start_at@)) is Some,
        ensures
            slots_model(r@) == slots_model(slots@).filter_map(slot_pick(self@)),
    {
        let ghost sm = slots_model(slots@);
        let mut r: Vec<Slot> = Vec::new();
        let mut i: usize = 0;
        while i < slots.len()
            invariant
                i <= slots@.len(),
                sm == slots_model(slots@),
                forall|k: int|
                    0 <= k < slots@.len() ==> (#[trigger] parsed_time(slots@[k].start_at@)) is Some,
                slots_model(r@) == sm.take(i as int).filter_map(slot_pick(self@)),
            decreases slots@.len() - i,
        {
            let ghost before = r@;
            assert(sm.take(i + 1).drop_last() =~= sm.take(i as int));
            let s = &slots[i];
            assert(parsed_time(slots@[i as int].start_at@) is Some);
            let start = match parse_time(s.start_at()) {
                Some((secs, nanos)) => TimeOfDay { secs, nanos },
                None => TimeOfDay { secs: 0, nanos: 0 },
            };
            let within = !start.is_before(&self.time_range.0) && start.is_before(
                &self.time_range.1,
            );
            let prices = self.wanted_prices(s.prices());
            if within && prices.len() > 0 {
                assert(prices_model(prices@).len() > 0);
                r.push(s.clone_with_prices(prices));
                assert(slots_model(r@) =~= slots_model(before).push(
                    slot_with_prices(sm[i as int], prices_model(prices@)),
                ));
            } else {
                assert(!within || prices_model(prices@).len() == 0);
            }
            i = i + 1;
        }
        assert(sm.take(slots@.len() as int) =~= sm);
        r
    }

    fn wanted_courts(&self, courts: &Vec<Court>) -> (r: Vec<Court>)
        requires
            forall|j: int|
                0 <= j < courts@.len() ==> court_checkable(self@, #[trigger] courts_model(courts@)[j]),
        ensures
            courts_model(r@) == courts_model(courts@).filter_map(court_pick(self@)),
    {
        let ghost cm = courts_model(courts@);
        let mut r: Vec<Court> = Vec::new();
        let mut i: usize = 0;
        while i < courts.len()
            invariant
                i <= courts@.len(),
                cm == courts_model(courts@),
                forall|j: int| 0 <= j < courts@.len() ==> court_checkable(self@, #[trigger] cm[j]),
                courts_model(r@) == cm.take(i as int).filter_map(court_pick(self@)),
            decreases courts@.len() - i,
        {
            let ghost before = r@;
            assert(cm.take(i + 1).drop_last() =~= cm.take(i as int));
            let c = &courts[i];
            let ghost cv = cm[i as int];
            assert(court_checkable(self@, cv));
            let matches = match self.court_type {
                CourtType::Indoor => c.is_indoor(),
                CourtType::Outdoor => !c.is_indoor(),
                CourtType::Both => true,
            };
            if matches {
                assert(c.activities@.len() == cv.activities.len());
                let slots = c.slots();
                assert(c@ == cv);
                assert(slots_model(slots@) == court_slots(cv));
                assert forall|k: int| 0 <= k < slots@.len() implies (#[trigger] parsed_time(
                    slots@[k].start_at@,
                )) is Some by {
                    assert(slots_model(slots@)[k] == slots@[k]@);
                    assert(court_slots(cv)[k].start_at == slots@[k].start_at@);
                    assert(parsed_time(court_slots(cv)[k].start_at) is Some);
                }
                let kept = self.wanted_slots(slots);
                if kept.len() > 0 {
                    assert(slots_model(kept@).len() > 0);
                    r.push(c.clone_with(kept));
                    assert(courts_model(r@) =~= courts_model(before).push(
                        court_with_slots(cv, slots_model(kept@)),
                    ));
                } else {
                    assert(slots_model(kept@).len() == 0);
                }
            }
            i = i + 1;
        }
        assert(cm.take(courts@.len() as int) =~= cm);
        r
    }

    /// What this alarm wants of `avail` on the day `today`: the days whose date reads, lies
    /// from `today` to `weeks_ahead` weeks later and falls on one of the alarm's days of the
    /// week; of those, the courts of the kind it watches; of those, the slots starting in its
    /// range of times; of those, the bookable options of its durations. Days, courts and slots
    /// left with nothing are dropped.
    pub fn target_availabilities_on(&self, avail: &Availabilities, today: Date) -> (r:
        Availabilities)
        requires
            avail.wf(),
            MIN_DAY <= today.days_from_ce,
            today.days_from_ce + 7 * self.weeks_ahead <= MAX_DAY,
            target_checkable(self@, today.days_from_ce as int, avail@),
        ensures
            r.wf(),
            r@ == target_days(self@, today.days_from_ce as int, avail@),
    {
        let ghost t = today.days_from_ce as int;
        let ghost pick = day_pick(self@, t, max_day_of(self@, t));
        let max_day = match add_days(today.days_from_ce, 7 * self.weeks_ahead as u64) {
            Some(d) => d,
            None => today.days_from_ce,
        };
        assert(max_day == max_day_of(self@, t));
        let mut r = Availabilities::new();
        let n = avail.len();
        let mut i: usize = 0;
        let ghost mut last: int = -1;
        while i < n
            invariant
                i <= n,
                n == avail@.len(),
                avail.wf(),
                max_day == max_day_of(self@, t),
                t == today.days_from_ce,
                pick == day_pick(self@, t, max_day_of(self@, t)),
                target_checkable(self@, t, avail@),
                r.wf(),
                r@ == avail@.take(i as int).filter_map(pick),
                -1 <= last < i,
                r@.len() > 0 ==> 0 <= last && r@.last().0 == avail@[last].0,
            decreases n - i,
        {
            let ghost before = r@;
            assert(avail@.take(i + 1).drop_last() =~= avail@.take(i as int));
            let key = avail.date_at(i);
            let day = avail.day_at(i);
            let ghost e = avail@[i as int];
            match parse_date(key.as_str()) {
                Some(d) => {
                    if today.days_from_ce <= d && d <= max_day && contains_weekday(
                        &self.days_of_the_week,
                        Date { days_from_ce: d }.weekday(),
                    ) {
                        let ghost cm = courts_model(day.courts@);
                        assert forall|j: int| 0 <= j < day.courts@.len() implies court_checkable(
                            self@,
                            #[trigger] cm[j],
                        ) by {
                            assert(avail@[i as int].1.courts[j] == cm[j]);
                        }
                        let courts = self.wanted_courts(day.courts());
                        if courts.len() > 0 {
                            assert(courts_model(courts@).len() > 0);
                            proof {
                                if before.len() > 0 {
                                    assert(seq_lt(avail@[last].0, avail@[i as int].0));
                                }
                            }
                            r.push(key.clone(), day.new_with(courts));
                            proof {
                                last = i as int;
                            }
                        } else {
                            assert(courts_model(courts@).len() == 0);
                        }
                    }
                },
                None => {},
            }
            i = i + 1;
        }
        assert(avail@.take(n as int) =~= avail@);
        r
    }
}


impl Alarm {
    fn court_checkable_of(&self, c: &Court) -> (r: bool)
        ensures
            r == court_checkable(self@, c@),
    {
        let matches = match self.court_type {
            CourtType::Indoor => c.is_indoor(),
            CourtType::Outdoor => !c.is_indoor(),
            CourtType::Both => true,
        };
        if !matches {
            return true;
        }
        if c.activities.len() == 0 {
            return false;
        }
        let slots = c.slots();
        let ghost sm = court_slots(c@);
        let mut k: usize = 0;
        while k < slots.len()
            invariant
                k <= slots@.len(),
                slots_model(slots@) == sm,
                sm == court_slots(c@),
                court_type_matches(self.court_type, c@.indoor),
                c@.activities.len() > 0,
                forall|m: int| 0 <= m < k ==> (#[trigger] parsed_time(sm[m].start_at)) is Some,
            decreases slots@.len() - k,
        {
            assert(sm[k as int] == slots@[k as int]@);
            if parse_time(slots[k].start_at()).is_none() {
                assert(parsed_time(sm[k as int].start_at) is None);
                return false;
            }
            k = k + 1;
        }
        true
    }

    fn courts_checkable_of(&self, courts: &Vec<Court>) -> (r: bool)
        ensures
            r == forall|m: int|
                0 <= m < courts@.len() ==> court_checkable(self@, #[trigger] courts_model(courts@)[m]),
    {
        let mut j: usize = 0;
        while j < courts.len()
            invariant
                j <= courts@.len(),
                forall|m: int|
                    0 <= m < j ==> court_checkable(self@, #[trigger] courts_model(courts@)[m]),
            decreases courts@.len() - j,
        {
            assert(courts_model(courts@)[j as int] == courts@[j as int]@);
            if !self.court_checkable_of(&courts[j]) {
                return false;
            }
            j = j + 1;
        }
        true
    }

    /// Whether the start times that `target_availabilities_on` reads can be read.
    pub fn target_inputs_checkable(&self, avail: &Availabilities, today: Date) -> (r: bool)
        requires
            avail.wf(),
            MIN_DAY <= today.days_from_ce,
            today.days_from_ce + 7 * self.weeks_ahead <= MAX_DAY,
        ensures
            r == target_checkable(self@, today.days_from_ce as int, avail@),
    {
        let ghost t = today.days_from_ce as int;
        let max_day = match add_days(today.days_from_ce, 7 * self.weeks_ahead as u64) {
            Some(d) => d,
            None => today.days_from_ce,
        };
        let n = avail.len();
        let mut i: usize = 0;
        while i < n
            invariant
                i <= n,
                n == avail@.len(),
                max_day == max_day_of(self@, t),
                t == today.days_from_ce,
                forall|a: int, j: int|
                    #![trigger avail@[a], avail@[a].1.courts[j]]
                    0 <= a < i && 0 <= j < avail@[a].1.courts.len() ==> match parsed_date(
                        avail@[a].0,
                    ) {
                        Some(d) => t <= d <= max_day_of(self@, t) && self.days_of_the_week@.contains(
                            weekday_of(d as int),
                        ) ==> court_checkable(self@, avail@[a].1.courts[j]),
                        None => true,
                    },
            decreases n - i,
        {
            let key = avail.date_at(i);
            let day = avail.day_at(i);
            if let Some(d) = parse_date(key.as_str()) {
                if today.days_from_ce <= d && d <= max_day && contains_weekday(
                    &self.days_of_the_week,
                    Date { days_from_ce: d }.weekday(),
                ) {
                    if !self.courts_checkable_of(day.courts()) {
                        assert(!court_checkable(
                            self@,
                            avail@[i as int].1.courts[choose|m: int|
                                0 <= m < avail@[i as int].1.courts.len() && !court_checkable(
                                    self@,
                                    #[trigger] avail@[i as int].1.courts[m],
                                )],
                        ));
                        return false;
                    }
                }
            }
            i = i + 1;
        }
        true
    }

    /// What this alarm wants of `avail` today, by the machine's clock (see
    /// `target_availabilities_on`); nothing when a start time it reads cannot be read or when
    /// its last day lies beyond the days chrono can hold.
    pub fn target_availabilities(&self, avail: Availabilities) -> (r: Option<Availabilities>)
        requires
            avail.wf(),
        ensures
            exists|today: int|
                MIN_DAY <= today <= MAX_DAY && (r is None <==> (#[trigger] max_day_of(self@, today)
                    > MAX_DAY || !target_checkable(self@, today, avail@))) && (r matches Some(a)
                    ==> a.wf() && a@ == target_days(self@, today, avail@)),
    {
        let today = local_now().date;
        let ghost t = today.days_from_ce as int;
        if today.days_from_ce as i64 + 7 * self.weeks_ahead as i64 > MAX_DAY as i64 {
            assert(max_day_of(self@, t) > MAX_DAY);
            return None;
        }
        assert(max_day_of(self@, t) <= MAX_DAY);
        if self.target_inputs_checkable(&avail, today) {
            Some(self.target_availabilities_on(&avail, today))
        } else {
            None
        }
    }
}

// ---------------------------------------------------------------- laws

/// Whether the day `e` is one the alarm reads on the day `today`: its date reads, lies from
/// `today` to `weeks_ahead` weeks later and falls on one of the alarm's days of the week.
pub open spec fn day_read(a: AlarmModel, today: int, e: (Seq<char>, DayModel)) -> bool {
    date_read(a, today, e.0)
}

/// Whether the date `k` is one the alarm reads on the day `today`: it reads, lies from
/// `today` to `weeks_ahead` weeks later and falls on one of the alarm's days of the week.
pub open spec fn date_read(a: AlarmModel, today: int, k: Seq<char>) -> bool {
    &&& parsed_date(k) is Some
    &&& today <= parsed_date(k).unwrap() <= max_day_of(a, today)
    &&& a.days_of_the_week.contains(weekday_of(parsed_date(k).unwrap() as int))
}

/// A price option of the slot of the court of the day `it` is one the alarm wants on the day
/// `today`: its date reads and lies from `today` to `weeks_ahead` weeks later on one of the
/// alarm's days of the week; the court is of the kind the alarm watches; the slot starts in
/// its range of times; the option is bookable and of one of its durations.
pub open spec fn item_wanted(a: AlarmModel, today: int, it: ItemModel) -> bool {
    let d = parsed_date(it.0).unwrap() as int;
    let (secs, nanos) = parsed_time(it.2.start_at).unwrap();
    let (from, until) = a.time_range;
    &&& parsed_date(it.0) is Some
    &&& today <= d && d <= today + 7 * a.weeks_ahead
    &&& a.days_of_the_week.contains(weekday_of(d))
    &&& match a.court_type {
        CourtType::Indoor => it.1.indoor,
        CourtType::Outdoor => !it.1.indoor,
        CourtType::Both => true,
    }
    &&& (from.secs < secs || (from.secs == secs && from.nanos <= nanos))
    &&& (secs < until.secs || (secs == until.secs && nanos < until.nanos))
    &&& it.3.bookable
    &&& a.slot_durations.contains(it.3.duration)
}

pub open spec fn wanted_price(a: AlarmModel) -> spec_fn(PriceModel) -> bool {
    |p: PriceModel| price_wanted(a, p)
}

pub open spec fn wanted_slot(a: AlarmModel) -> spec_fn(SlotModel) -> bool {
    |s: SlotModel|
        in_time_range(a, slot_start(s)) && forall|m: int|
            0 <= m < s.prices.len() ==> price_wanted(a, #[trigger] s.prices[m])
}

pub open spec fn wanted_court(a: AlarmModel) -> spec_fn(CourtModel) -> bool {
    |c: CourtModel|
        court_type_matches(a.court_type, c.indoor) && forall|x: int|
            0 <= x < court_slots(c).len() ==> wanted_slot(a)(#[trigger] court_slots(c)[x])
}

proof fn lemma_target_court_wanted(a: AlarmModel, c: CourtModel)
    requires
        court_type_matches(a.court_type, c.indoor) ==> c.activities.len() > 0,
    ensures
        opt_holds(target_court(a, c), wanted_court(a)),
{
    let cs = court_slots(c);
    assert forall|i: int| 0 <= i < cs.len() implies opt_holds(
        #[trigger] slot_pick(a)(cs[i]),
        wanted_slot(a),
    ) by {
        let sl = cs[i];
        assert forall|m: int| 0 <= m < sl.prices.len() implies opt_holds(
            #[trigger] price_pick(a)(sl.prices[m]),
            wanted_price(a),
        ) by {}
        lemma_filter_map_forall(sl.prices, price_pick(a), wanted_price(a));
        let ps = sl.prices.filter_map(price_pick(a));
        assert forall|m: int| 0 <= m < ps.len() implies price_wanted(a, #[trigger] ps[m]) by {
            assert(wanted_price(a)(ps[m]));
        }
    }
    lemma_filter_map_forall(cs, slot_pick(a), wanted_slot(a));
    if court_type_matches(a.court_type, c.indoor) {
        let ss = cs.filter_map(slot_pick(a));
        if ss.len() > 0 {
            let t = court_with_slots(c, ss);
            assert(court_slots(t) == ss);
            assert forall|x: int| 0 <= x < court_slots(t).len() implies wanted_slot(a)(
                #[trigger] court_slots(t)[x],
            ) by {
                assert(wanted_slot(a)(ss[x]));
            }
        }
    }
}

/// Whatever an alarm targets (see `target_days`) is what it wants: every price option of
/// every slot of every court of every day of it passes each of the alarm's criteria (see
/// `item_wanted`).
pub proof fn law_targets_are_wanted(a: AlarmModel, today: int, avail: Seq<(Seq<char>, DayModel)>)
    requires
        forall|i: int, j: int|
            0 <= i < avail.len() && 0 <= j < avail[i].1.courts.len() && day_read(a, today, avail[i])
                && court_type_matches(a.court_type, (#[trigger] avail[i].1.courts[j]).indoor)
                ==> avail[i].1.courts[j].activities.len() > 0,
    ensures
        forall|t: int|
            0 <= t < items(target_days(a, today, avail)).len() ==> item_wanted(
                a,
                today,
                #[trigger] items(target_days(a, today, avail))[t],
            ),
{
    let q = |it: ItemModel| item_wanted(a, today, it);
    let dq = |e: (Seq<char>, DayModel)| day_all(q, e);
    let max_day = max_day_of(a, today);
    assert forall|i: int| 0 <= i < avail.len() implies opt_holds(
        #[trigger] day_pick(a, today, max_day)(avail[i]),
        dq,
    ) by {
        let e = avail[i];
        let cs = e.1.courts;
        if let Some(y) = target_day(a, today, max_day, e) {
            assert(day_read(a, today, e));
            assert forall|j: int| 0 <= j < cs.len() implies opt_holds(
                #[trigger] court_pick(a)(cs[j]),
                wanted_court(a),
            ) by {
                assert(avail[i].1.courts[j] == cs[j]);
                lemma_target_court_wanted(a, cs[j]);
            }
            lemma_filter_map_forall(cs, court_pick(a), wanted_court(a));
            let kept = cs.filter_map(court_pick(a));
            assert(y.1.courts == kept);
            assert forall|j: int| 0 <= j < y.1.courts.len() implies court_all(
                q,
                y.0,
                #[trigger] y.1.courts[j],
            ) by {
                let c = kept[j];
                assert(wanted_court(a)(c));
                assert forall|x: int| 0 <= x < court_slots(c).len() implies slot_all(
                    q,
                    y.0,
                    c,
                    #[trigger] court_slots(c)[x],
                ) by {
                    assert(wanted_slot(a)(court_slots(c)[x]));
                }
            }
            assert(dq(y));
        }
    }
    lemma_filter_map_forall(avail, day_pick(a, today, max_day), dq);
    let ts = target_days(a, today, avail);
    assert forall|i: int| 0 <= i < ts.len() implies day_all(q, #[trigger] ts[i]) by {
        assert(dq(ts[i]));
    }
    lemma_items_forall(ts, q);
}


proof fn lemma_target_slot_twice(a: AlarmModel, s: SlotModel)
    ensures
        opt_holds(target_slot(a, s), |t: SlotModel| target_slot(a, t) == Some(t)),
{
    let ps = s.prices.filter_map(price_pick(a));
    if in_time_range(a, slot_start(s)) && ps.len() > 0 {
        let t = slot_with_prices(s, ps);
        assert forall|m: int| 0 <= m < s.prices.len() implies opt_holds(
            #[trigger] price_pick(a)(s.prices[m]),
            wanted_price(a),
        ) by {}
        lemma_filter_map_forall(s.prices, price_pick(a), wanted_price(a));
        assert forall|m: int| 0 <= m < ps.len() implies #[trigger] price_pick(a)(ps[m]) == Some(
            ps[m],
        ) by {
            assert(wanted_price(a)(ps[m]));
        }
        lemma_filter_map_identity(ps, price_pick(a));
        assert(slot_start(t) == slot_start(s));
        assert(slot_with_prices(t, ps) == t);
    }
}

proof fn lemma_target_court_twice(a: AlarmModel, c: CourtModel)
    requires
        court_type_matches(a.court_type, c.indoor) ==> c.activities.len() > 0,
    ensures
        opt_holds(target_court(a, c), |t: CourtModel| target_court(a, t) == Some(t)),
{
    if court_type_matches(a.court_type, c.indoor) {
        let cs = court_slots(c);
        let ss = cs.filter_map(slot_pick(a));
        if ss.len() > 0 {
            let t = court_with_slots(c, ss);
            let fixed = |x: SlotModel| slot_pick(a)(x) == Some(x);
            assert forall|i: int| 0 <= i < cs.len() implies opt_holds(
                #[trigger] slot_pick(a)(cs[i]),
                fixed,
            ) by {
                lemma_target_slot_twice(a, cs[i]);
            }
            lemma_filter_map_forall(cs, slot_pick(a), fixed);
            assert forall|k: int| 0 <= k < ss.len() implies #[trigger] slot_pick(a)(ss[k]) == Some(
                ss[k],
            ) by {
                assert(fixed(ss[k]));
            }
            lemma_filter_map_identity(ss, slot_pick(a));
            assert(court_slots(t) == ss);
            assert(t.activities.update(0, ActivityModel { slots: ss, ..t.activities[0] })
                =~= t.activities);
            assert(court_with_slots(t, ss) == t);
        }
    }
}

/// Applying an alarm to what it already targeted gives the same: on the same day `today`,
/// `target_days` of its own result is that result (the same dates, courts, slots and price
/// options). On the days the alarm reads, the courts of the kind it watches have an activity,
/// whose slots it reads.
pub proof fn law_targeting_twice_is_once(a: AlarmModel, today: int, avail: Seq<(Seq<char>, DayModel)>)
    requires
        forall|i: int, j: int|
            0 <= i < avail.len() && 0 <= j < avail[i].1.courts.len() && day_read(a, today, avail[i])
                && court_type_matches(a.court_type, (#[trigger] avail[i].1.courts[j]).indoor)
                ==> avail[i].1.courts[j].activities.len() > 0,
    ensures
        target_days(a, today, target_days(a, today, avail)) == target_days(a, today, avail),
{
    let max_day = max_day_of(a, today);
    let pick = day_pick(a, today, max_day);
    let fixed = |e: (Seq<char>, DayModel)| pick(e) == Some(e);
    assert forall|i: int| 0 <= i < avail.len() implies opt_holds(#[trigger] pick(avail[i]), fixed) by {
        let e = avail[i];
        let cs = e.1.courts;
        let cfixed = |c: CourtModel| court_pick(a)(c) == Some(c);
        if let Some(y) = target_day(a, today, max_day, e) {
            assert(day_read(a, today, e));
            assert forall|j: int| 0 <= j < cs.len() implies opt_holds(
                #[trigger] court_pick(a)(cs[j]),
                cfixed,
            ) by {
                assert(avail[i].1.courts[j] == cs[j]);
                lemma_target_court_twice(a, cs[j]);
            }
            lemma_filter_map_forall(cs, court_pick(a), cfixed);
            let kept = cs.filter_map(court_pick(a));
            assert(y.1.courts == kept);
            assert forall|k: int| 0 <= k < kept.len() implies #[trigger] court_pick(a)(kept[k])
                == Some(kept[k]) by {
                assert(cfixed(kept[k]));
            }
            lemma_filter_map_identity(kept, court_pick(a));
            assert(day_with_courts(y.1, kept) == y.1);
            assert(fixed(y));
        }
    }
    lemma_filter_map_forall(avail, pick, fixed);
    let ts = avail.filter_map(pick);
    assert forall|k: int| 0 <= k < ts.len() implies #[trigger] pick(ts[k]) == Some(ts[k]) by {
        assert(fixed(ts[k]));
    }
    lemma_filter_map_identity(ts, pick);
}


// ---------------------------------------------------------------- sequences

proof fn lemma_filter_map_append<A, B>(a: Seq<A>, b: Seq<A>, g: spec_fn(A) -> Option<B>)
    ensures
        (a + b).filter_map(g) == a.filter_map(g) + b.filter_map(g),
    decreases b.len(),
{
    if b.len() == 0 {
        assert(a + b =~= a);
        assert(a.filter_map(g) + b.filter_map(g) =~= a.filter_map(g));
    } else {
        lemma_filter_map_append(a, b.drop_last(), g);
        assert((a + b).drop_last() =~= a + b.drop_last());
        assert((a + b).last() == b.last());
        match g(b.last()) {
            Some(y) => {
                assert(a.filter_map(g) + (b.drop_last().filter_map(g) + seq![y]) =~= (a.filter_map(g)
                    + b.drop_last().filter_map(g)) + seq![y]);
            },
            None => {},
        }
    }
}

pub open spec fn each_filter_map<A, B, C>(f: spec_fn(A) -> Seq<B>, g: spec_fn(B) -> Option<C>) -> spec_fn(
    A,
) -> Seq<C> {
    |x: A| f(x).filter_map(g)
}

pub open spec fn each_map_values<A, B, C>(f: spec_fn(A) -> Seq<B>, h: spec_fn(B) -> C) -> spec_fn(A) -> Seq<
    C,
> {
    |x: A| f(x).map_values(h)
}

pub open spec fn picked<A, B, C>(p: spec_fn(A) -> Option<B>, f: spec_fn(B) -> Seq<C>) -> spec_fn(A) -> Seq<
    C,
> {
    |x: A|
        match p(x) {
            Some(y) => f(y),
            None => Seq::<C>::empty(),
        }
}

pub open spec fn then_map<A, B, C>(p: spec_fn(A) -> Option<B>, h: spec_fn(B) -> C) -> spec_fn(A) -> Option<
    C,
> {
    |x: A|
        match p(x) {
            Some(y) => Some(h(y)),
            None => None,
        }
}

pub open spec fn compose_opt<A, B, C>(m: spec_fn(A) -> B, g: spec_fn(B) -> Option<C>) -> spec_fn(A) -> Option<
    C,
> {
    |x: A| g(m(x))
}

proof fn lemma_concat_map_filter_map<A, B, C>(
    s: Seq<A>,
    f: spec_fn(A) -> Seq<B>,
    g: spec_fn(B) -> Option<C>,
)
    ensures
        concat_map(s, f).filter_map(g) == concat_map(s, each_filter_map(f, g)),
    decreases s.len(),
{
    if s.len() == 0 {
        assert(concat_map(s, f).filter_map(g) =~= Seq::<C>::empty());
    } else {
        lemma_concat_map_filter_map(s.drop_last(), f, g);
        lemma_filter_map_append(concat_map(s.drop_last(), f), f(s.last()), g);
    }
}

proof fn lemma_concat_map_map_values<A, B, C>(s: Seq<A>, f: spec_fn(A) -> Seq<B>, h: spec_fn(B) -> C)
    ensures
        concat_map(s, f).map_values(h) == concat_map(s, each_map_values(f, h)),
    decreases s.len(),
{
    if s.len() == 0 {
        assert(concat_map(s, f).map_values(h) =~= Seq::<C>::empty());
    } else {
        lemma_concat_map_map_values(s.drop_last(), f, h);
        assert((concat_map(s.drop_last(), f) + f(s.last())).map_values(h) =~= concat_map(
            s.drop_last(),
            f,
        ).map_values(h) + f(s.last()).map_values(h));
    }
}

proof fn lemma_concat_map_of_filter_map<A, B, C>(
    s: Seq<A>,
    p: spec_fn(A) -> Option<B>,
    f: spec_fn(B) -> Seq<C>,
)
    ensures
        concat_map(s.filter_map(p), f) == concat_map(s, picked(p, f)),
    decreases s.len(),
{
    if s.len() > 0 {
        lemma_concat_map_of_filter_map(s.drop_last(), p, f);
        let t = s.drop_last().filter_map(p);
        match p(s.last()) {
            Some(y) => {
                assert((t + seq![y]).drop_last() =~= t);
                assert((t + seq![y]).last() == y);
            },
            None => {
                assert(concat_map(s.drop_last(), picked(p, f)) + Seq::<C>::empty() =~= concat_map(
                    s.drop_last(),
                    picked(p, f),
                ));
            },
        }
    }
}

proof fn lemma_concat_map_congruence<A, B>(s: Seq<A>, f: spec_fn(A) -> Seq<B>, g: spec_fn(A) -> Seq<B>)
    requires
        forall|i: int| 0 <= i < s.len() ==> #[trigger] f(s[i]) == g(s[i]),
    ensures
        concat_map(s, f) == concat_map(s, g),
    decreases s.len(),
{
    if s.len() > 0 {
        let p = s.drop_last();
        assert forall|i: int| 0 <= i < p.len() implies #[trigger] f(p[i]) == g(p[i]) by {
            assert(p[i] == s[i]);
        }
        lemma_concat_map_congruence(p, f, g);
        assert(s.last() == s[s.len() - 1]);
    }
}

proof fn lemma_filter_map_congruence<A, B>(
    s: Seq<A>,
    f: spec_fn(A) -> Option<B>,
    g: spec_fn(A) -> Option<B>,
)
    requires
        forall|i: int| 0 <= i < s.len() ==> #[trigger] f(s[i]) == g(s[i]),
    ensures
        s.filter_map(f) == s.filter_map(g),
    decreases s.len(),
{
    if s.len() > 0 {
        let p = s.drop_last();
        assert forall|i: int| 0 <= i < p.len() implies #[trigger] f(p[i]) == g(p[i]) by {
            assert(p[i] == s[i]);
        }
        lemma_filter_map_congruence(p, f, g);
        assert(s.last() == s[s.len() - 1]);
    }
}

proof fn lemma_filter_map_map_values<A, B, C>(s: Seq<A>, p: spec_fn(A) -> Option<B>, h: spec_fn(B) -> C)
    ensures
        s.filter_map(p).map_values(h) == s.filter_map(then_map(p, h)),
    decreases s.len(),
{
    if s.len() == 0 {
        assert(s.filter_map(p).map_values(h) =~= Seq::<C>::empty());
    } else {
        lemma_filter_map_map_values(s.drop_last(), p, h);
        match p(s.last()) {
            Some(y) => {
                assert((s.drop_last().filter_map(p) + seq![y]).map_values(h) =~= s.drop_last().filter_map(
                    p,
                ).map_values(h) + seq![h(y)]);
            },
            None => {},
        }
    }
}

proof fn lemma_map_values_filter_map<A, B, C>(s: Seq<A>, m: spec_fn(A) -> B, g: spec_fn(B) -> Option<C>)
    ensures
        s.map_values(m).filter_map(g) == s.filter_map(compose_opt(m, g)),
    decreases s.len(),
{
    if s.len() > 0 {
        assert(s.map_values(m).drop_last() =~= s.drop_last().map_values(m));
        assert(s.map_values(m).last() == m(s.last()));
        lemma_map_values_filter_map(s.drop_last(), m, g);
    } else {
        assert(s.map_values(m) =~= Seq::<B>::empty());
    }
}

// ---------------------------------------------------------------- targeting keeps every wanted option

/// A price option as itself: its date, its court without its slots, its slot without its
/// price options, and the option. Targeting narrows a court's slots and a slot's options but
/// leaves this unchanged.
pub open spec fn item_identity(it: ItemModel) -> ItemModel {
    (it.0, court_with_slots(it.1, Seq::empty()), slot_with_prices(it.2, Seq::empty()), it.3)
}

pub open spec fn identity_fn() -> spec_fn(ItemModel) -> ItemModel {
    |it: ItemModel| item_identity(it)
}

/// The option `it`, as itself, when the alarm wants it on the day `today`.
pub open spec fn wanted_identity(a: AlarmModel, today: int) -> spec_fn(ItemModel) -> Option<ItemModel> {
    |it: ItemModel|
        if item_wanted(a, today, it) {
            Some(item_identity(it))
        } else {
            None
        }
}

proof fn lemma_court_items_of(k: Seq<char>, c: CourtModel)
    ensures
        forall|t: int|
            0 <= t < court_items(k, c).len() ==> (#[trigger] court_items(k, c)[t]).0 == k
                && court_items(k, c)[t].1 == c,
{
    let q = |it: ItemModel| it.0 == k && it.1 == c;
    let f = |s: SlotModel| slot_items(k, c, s);
    let cs = court_slots(c);
    assert forall|i: int, j: int| 0 <= i < cs.len() && 0 <= j < f(cs[i]).len() implies q(
        #[trigger] f(cs[i])[j],
    ) by {}
    lemma_concat_map_forall(cs, f, q);
}

proof fn lemma_day_items_of(k: Seq<char>, d: DayModel)
    ensures
        forall|t: int| 0 <= t < day_items(k, d).len() ==> (#[trigger] day_items(k, d)[t]).0 == k,
{
    let q = |it: ItemModel| it.0 == k;
    let f = |c: CourtModel| court_items(k, c);
    let cs = d.courts;
    assert forall|i: int, j: int| 0 <= i < cs.len() && 0 <= j < f(cs[i]).len() implies q(
        #[trigger] f(cs[i])[j],
    ) by {
        lemma_court_items_of(k, cs[i]);
        assert(court_items(k, cs[i])[j].0 == k);
    }
    lemma_concat_map_forall(cs, f, q);
}

proof fn lemma_slot_wanted(
    a: AlarmModel,
    today: int,
    k: Seq<char>,
    c: CourtModel,
    t: CourtModel,
    s: SlotModel,
)
    requires
        date_read(a, today, k),
        court_type_matches(a.court_type, c.indoor),
        court_with_slots(t, Seq::empty()) == court_with_slots(c, Seq::empty()),
    ensures
        (match target_slot(a, s) {
            Some(s2) => slot_items(k, t, s2).map_values(identity_fn()),
            None => Seq::empty(),
        }) == slot_items(k, c, s).filter_map(wanted_identity(a, today)),
{
    let w = wanted_identity(a, today);
    let m = |p: PriceModel| (k, c, s, p);
    assert(slot_items(k, c, s) == s.prices.map_values(m));
    lemma_map_values_filter_map(s.prices, m, w);
    let ec = court_with_slots(c, Seq::empty());
    let es = slot_with_prices(s, Seq::empty());
    let h = |p: PriceModel| (k, ec, es, p);
    if in_time_range(a, slot_start(s)) {
        let ps = s.prices.filter_map(price_pick(a));
        lemma_filter_map_map_values(s.prices, price_pick(a), h);
        assert forall|i: int| 0 <= i < s.prices.len() implies #[trigger] then_map(price_pick(a), h)(
            s.prices[i],
        ) == compose_opt(m, w)(s.prices[i]) by {}
        lemma_filter_map_congruence(s.prices, then_map(price_pick(a), h), compose_opt(m, w));
        if ps.len() > 0 {
            let s2 = slot_with_prices(s, ps);
            assert(slot_with_prices(s2, Seq::empty()) == es);
            assert(slot_items(k, t, s2).map_values(identity_fn()) =~= ps.map_values(h));
        } else {
            assert(ps.map_values(h) =~= Seq::<ItemModel>::empty());
        }
    } else {
        assert forall|i: int| 0 <= i < s.prices.len() implies (#[trigger] compose_opt(m, w)(
            s.prices[i],
        )) is None by {}
        lemma_filter_map_none(s.prices, compose_opt(m, w));
        assert(s.prices.filter_map(compose_opt(m, w)) =~= Seq::<ItemModel>::empty());
    }
}

proof fn lemma_court_wanted(a: AlarmModel, today: int, k: Seq<char>, c: CourtModel)
    requires
        date_read(a, today, k),
        court_type_matches(a.court_type, c.indoor) ==> c.activities.len() > 0,
    ensures
        (match target_court(a, c) {
            Some(t) => court_items(k, t),
            None => Seq::empty(),
        }).map_values(identity_fn()) == court_items(k, c).filter_map(wanted_identity(a, today)),
{
    let w = wanted_identity(a, today);
    let id = identity_fn();
    lemma_court_items_of(k, c);
    if !court_type_matches(a.court_type, c.indoor) {
        assert forall|i: int| 0 <= i < court_items(k, c).len() implies (#[trigger] w(
            court_items(k, c)[i],
        )) is None by {}
        lemma_filter_map_none(court_items(k, c), w);
        assert(court_items(k, c).filter_map(w) =~= Seq::<ItemModel>::empty());
        assert(Seq::<ItemModel>::empty().map_values(id) =~= Seq::<ItemModel>::empty());
    } else {
        let cs = court_slots(c);
        let ss = cs.filter_map(slot_pick(a));
        let t = court_with_slots(c, ss);
        assert(court_slots(t) == ss);
        assert(t.activities.update(0, ActivityModel { slots: Seq::empty(), ..t.activities[0] })
            =~= c.activities.update(0, ActivityModel { slots: Seq::empty(), ..c.activities[0] }));
        assert(court_with_slots(t, Seq::empty()) == court_with_slots(c, Seq::empty()));
        let f_t = |s2: SlotModel| slot_items(k, t, s2);
        let f_c = |s: SlotModel| slot_items(k, c, s);
        assert(court_items(k, t) == concat_map(ss, f_t));
        assert(court_items(k, c) == concat_map(cs, f_c));
        lemma_concat_map_map_values(ss, f_t, id);
        lemma_concat_map_of_filter_map(cs, slot_pick(a), each_map_values(f_t, id));
        lemma_concat_map_filter_map(cs, f_c, w);
        assert forall|i: int| 0 <= i < cs.len() implies #[trigger] picked(
            slot_pick(a),
            each_map_values(f_t, id),
        )(cs[i]) == each_filter_map(f_c, w)(cs[i]) by {
            lemma_slot_wanted(a, today, k, c, t, cs[i]);
        }
        lemma_concat_map_congruence(cs, picked(slot_pick(a), each_map_values(f_t, id)), each_filter_map(f_c, w));
        if ss.len() == 0 {
            assert(concat_map(ss, f_t) =~= Seq::<ItemModel>::empty());
            assert(Seq::<ItemModel>::empty().map_values(id) =~= Seq::<ItemModel>::empty());
        }
    }
}

proof fn lemma_day_wanted(a: AlarmModel, today: int, e: (Seq<char>, DayModel))
    requires
        forall|j: int|
            0 <= j < e.1.courts.len() && date_read(a, today, e.0) && court_type_matches(
                a.court_type,
                (#[trigger] e.1.courts[j]).indoor,
            ) ==> e.1.courts[j].activities.len() > 0,
    ensures
        (match target_day(a, today, max_day_of(a, today), e) {
            Some(y) => day_items(y.0, y.1),
            None => Seq::empty(),
        }).map_values(identity_fn()) == day_items(e.0, e.1).filter_map(wanted_identity(a, today)),
{
    let w = wanted_identity(a, today);
    let id = identity_fn();
    let k = e.0;
    let d = e.1;
    lemma_day_items_of(k, d);
    if !date_read(a, today, k) {
        assert forall|i: int| 0 <= i < day_items(k, d).len() implies (#[trigger] w(
            day_items(k, d)[i],
        )) is None by {}
        lemma_filter_map_none(day_items(k, d), w);
        assert(day_items(k, d).filter_map(w) =~= Seq::<ItemModel>::empty());
        assert(Seq::<ItemModel>::empty().map_values(id) =~= Seq::<ItemModel>::empty());
    } else {
        let cs = d.courts;
        let kept = cs.filter_map(court_pick(a));
        let f = |c: CourtModel| court_items(k, c);
        assert(day_items(k, day_with_courts(d, kept)) == concat_map(kept, f));
        assert(day_items(k, d) == concat_map(cs, f));
        lemma_concat_map_map_values(kept, f, id);
        lemma_concat_map_of_filter_map(cs, court_pick(a), each_map_values(f, id));
        lemma_concat_map_filter_map(cs, f, w);
        assert forall|i: int| 0 <= i < cs.len() implies #[trigger] picked(
            court_pick(a),
            each_map_values(f, id),
        )(cs[i]) == each_filter_map(f, w)(cs[i]) by {
            lemma_court_wanted(a, today, k, cs[i]);
        }
        lemma_concat_map_congruence(cs, picked(court_pick(a), each_map_values(f, id)), each_filter_map(f, w));
        if kept.len() == 0 {
            assert(concat_map(kept, f) =~= Seq::<ItemModel>::empty());
            assert(Seq::<ItemModel>::empty().map_values(id) =~= Seq::<ItemModel>::empty());
        }
    }
}

/// Targeting keeps every price option the alarm wants, and only those, in order: on the day
/// `today`, the options of `target_days` are, one for one and in the same order, the options
/// of `avail` that the alarm wants (see `item_wanted`), each taken as itself (see
/// `item_identity`: targeting only narrows the lists of slots and options around it); and
/// each day kept is a day of `avail`, its date and everything but its courts unchanged. On
/// the days the alarm reads, the courts of the kind it watches have an activity, whose slots
/// it reads.
pub proof fn law_targeting_keeps_every_wanted_option(
    a: AlarmModel,
    today: int,
    avail: Seq<(Seq<char>, DayModel)>,
)
    requires
        forall|i: int, j: int|
            0 <= i < avail.len() && 0 <= j < avail[i].1.courts.len() && day_read(a, today, avail[i])
                && court_type_matches(a.court_type, (#[trigger] avail[i].1.courts[j]).indoor)
                ==> avail[i].1.courts[j].activities.len() > 0,
    ensures
        items(target_days(a, today, avail)).map_values(|it: ItemModel| item_identity(it))
            == items(avail).filter_map(wanted_identity(a, today)),
        forall|i: int|
            0 <= i < target_days(a, today, avail).len() ==> exists|j: int|
                0 <= j < avail.len() && (#[trigger] target_days(a, today, avail)[i]).0 == avail[j].0
                    && day_with_courts(target_days(a, today, avail)[i].1, Seq::empty())
                    == day_with_courts(avail[j].1, Seq::empty()),
{
    let q = |y: (Seq<char>, DayModel)|
        exists|j: int|
            0 <= j < avail.len() && y.0 == avail[j].0 && day_with_courts(y.1, Seq::empty())
                == day_with_courts(avail[j].1, Seq::empty());
    let dp = day_pick(a, today, max_day_of(a, today));
    assert forall|i: int| 0 <= i < avail.len() implies opt_holds(#[trigger] dp(avail[i]), q) by {
        if let Some(y) = dp(avail[i]) {
            assert(day_with_courts(y.1, Seq::empty()) == day_with_courts(avail[i].1, Seq::empty()));
        }
    }
    lemma_filter_map_forall(avail, dp, q);
    assert forall|i: int| 0 <= i < target_days(a, today, avail).len() implies q(
        #[trigger] target_days(a, today, avail)[i],
    ) by {}

    let w = wanted_identity(a, today);
    let id = identity_fn();
    let pick = day_pick(a, today, max_day_of(a, today));
    let f = |e: (Seq<char>, DayModel)| day_items(e.0, e.1);
    let ts = avail.filter_map(pick);
    assert(items(ts) == concat_map(ts, f));
    assert(items(avail) == concat_map(avail, f));
    lemma_concat_map_map_values(ts, f, id);
    lemma_concat_map_of_filter_map(avail, pick, each_map_values(f, id));
    lemma_concat_map_filter_map(avail, f, w);
    assert forall|i: int| 0 <= i < avail.len() implies #[trigger] picked(pick, each_map_values(f, id))(
        avail[i],
    ) == each_filter_map(f, w)(avail[i]) by {
        let e = avail[i];
        assert forall|j: int|
            0 <= j < e.1.courts.len() && date_read(a, today, e.0) && court_type_matches(
                a.court_type,
                (#[trigger] e.1.courts[j]).indoor,
            ) implies e.1.courts[j].activities.len() > 0 by {
            assert(avail[i].1.courts[j] == e.1.courts[j]);
        }
        lemma_day_wanted(a, today, e);
    }
    lemma_concat_map_congruence(avail, picked(pick, each_map_values(f, id)), each_filter_map(f, w));
    assert(items(ts).map_values(|it: ItemModel| item_identity(it)) == items(ts).map_values(id));
}

} // verus!
