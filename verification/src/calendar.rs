//! The calendar of the booking app: which courts can be booked for an hour and a half at
//! each start time of a day, and the filters that trim it.
use crate::availabilities::{concat_map, lemma_concat_map_take};
use crate::freed::{lemma_filter_map_forall, lemma_filter_map_identity, opt_holds};
use crate::dates::{
    displayed_time, format_date, formatted_date, local_now, parse_date, parsed_date, sub_days,
    add_days, time_text, valid_time, weekday_from_index, weekday_name, TimeOfDay,
    weekday_of, moment_lt, Date, LocalDateTime, Weekday, DATE_FORMAT, MAX_DAY, MIN_DAY,
};
use crate::legarden::{
    court_slots, planning_date_text, CourtModel, DayPlanningResponse, PriceModel, SlotModel,
    PLANNING_PATH_LEN, DATE_LEN, Price,
};
use vstd::string::StringSliceAdditionalSpecFns;
use vstd::utf8::{encode_utf8, is_char_boundary};
use crate::strmap::{
    keys_sorted, lemma_lookup_absent, lemma_lookup_at, lemma_lookup_sorted, lookup, StrMap,
};
use crate::text::{seq_le, seq_lt, str_eq, str_le};
use vstd::prelude::*;

verus! {

/// What a court offered at a start time is.
pub struct PadelCourtModel {
    pub name: Seq<char>,
    pub is_indoor: bool,
}

/// What the courts free at a start time are.
pub struct SlotOfferModel {
    pub available_courts: Seq<PadelCourtModel>,
    pub duration: BookingDuration,
}

/// What the planning of a day is: its day of the week and, by start time, the free courts.
pub struct DayPlanningModel {
    pub weekday: Seq<char>,
    pub slots: Seq<(Seq<char>, SlotOfferModel)>,
}

/// A court offered at a start time.
#[derive(Debug, PartialEq, Eq)]
pub struct PadelCourt {
    pub name: String,
    pub is_indoor: bool,
}

/// The duration of a booking. Only bookings of an hour and a half are looked at.
#[derive(Debug, PartialEq, Eq, Structural, Clone, Copy)]
pub enum BookingDuration {
    NinetyMin(),
    TwoHours(),
    OneHour(),
}

/// The courts free at a start time.
#[derive(Debug, PartialEq, Eq)]
pub struct Slot {
    pub available_courts: Vec<PadelCourt>,
    pub duration: BookingDuration,
}

/// The planning of a day: its day of the week ("Mon", "Tue", ...) and, by start time
/// ("HH:MM"), the free courts.
#[derive(Debug, PartialEq, Eq)]
pub struct DayPlanning {
    pub weekday: String,
    pub slots: StrMap<Slot>,
}

/// The time at which a booking slot starts.
pub type StartTime = String;

/// The key of a day in a calendar: "YYYY-MM-DD".
pub type DateKey = String;

pub open spec fn padel_courts_model(v: Seq<PadelCourt>) -> Seq<PadelCourtModel> {
    v.map_values(|c: PadelCourt| c@)
}

impl View for PadelCourt {
    type V = PadelCourtModel;

    open spec fn view(&self) -> PadelCourtModel {
        PadelCourtModel { name: self.name@, is_indoor: self.is_indoor }
    }
}

impl View for Slot {
    type V = SlotOfferModel;

    open spec fn view(&self) -> SlotOfferModel {
        SlotOfferModel {
            available_courts: padel_courts_model(self.available_courts@),
            duration: self.duration,
        }
    }
}

impl View for DayPlanning {
    type V = DayPlanningModel;

    open spec fn view(&self) -> DayPlanningModel {
        DayPlanningModel { weekday: self.weekday@, slots: self.slots@ }
    }
}

impl Clone for PadelCourt {
    fn clone(&self) -> (r: Self)
        ensures
            r@ == self@,
    {
        PadelCourt { name: self.name.clone(), is_indoor: self.is_indoor }
    }
}

fn clone_padel_courts(v: &Vec<PadelCourt>) -> (r: Vec<PadelCourt>)
    ensures
        padel_courts_model(r@) == padel_courts_model(v@),
{
    let r = v.clone();
    assert(padel_courts_model(r@) =~= padel_courts_model(v@));
    r
}

impl Clone for Slot {
    fn clone(&self) -> (r: Self)
        ensures
            r@ == self@,
    {
        Slot { available_courts: clone_padel_courts(&self.available_courts), duration: self.duration }
    }
}

/// The number of seconds of a booking duration.
pub open spec fn duration_secs(b: BookingDuration) -> usize {
    match b {
        BookingDuration::NinetyMin() => 5400,
        BookingDuration::TwoHours() => 7200,
        BookingDuration::OneHour() => 3600,
    }
}

impl BookingDuration {
    /// The number of seconds of the duration.
    pub fn seconds(&self) -> (r: usize)
        ensures
            r == duration_secs(*self),
    {
        match self {
            BookingDuration::NinetyMin() => 5400,
            BookingDuration::TwoHours() => 7200,
            BookingDuration::OneHour() => 3600,
        }
    }
}

impl DayPlanning {
    /// The planning of a day with the given free courts by start time.
    pub fn new(day: &str, slots: StrMap<Slot>) -> (r: Self)
        ensures
            r@ == (DayPlanningModel { weekday: day@, slots: slots@ }),
            r.slots.wf() == slots.wf(),
    {
        DayPlanning { weekday: String::from_str(day), slots }
    }

    /// Whether some start time has a free court.
    pub fn has_slots(&self) -> (r: bool)
        ensures
            r == exists|i: int|
                0 <= i < self@.slots.len() && (#[trigger] self@.slots[i]).1.available_courts.len()
                    > 0,
    {
        let n = self.slots.len();
        let mut i: usize = 0;
        while i < n
            invariant
                i <= n,
                n == self@.slots.len(),
                forall|j: int|
                    0 <= j < i ==> (#[trigger] self@.slots[j]).1.available_courts.len() == 0,
            decreases n - i,
        {
            let slot = self.slots.value_at(i);
            if slot.available_courts.len() > 0 {
                assert(self@.slots[i as int].1.available_courts.len() > 0);
                return true;
            }
            i = i + 1;
        }
        false
    }
}


// ---------------------------------------------------------------- from a planning

/// The first price option of an hour and a half, if any, is bookable.
pub open spec fn ninety_bookable(prices: Seq<PriceModel>) -> bool
    decreases prices.len(),
{
    if prices.len() == 0 {
        false
    } else if prices[0].duration == 5400 {
        prices[0].bookable
    } else {
        ninety_bookable(prices.drop_first())
    }
}

/// How the calendar names a court of a planning.
pub open spec fn court_entry(c: CourtModel) -> PadelCourtModel {
    PadelCourtModel { name: c.name, is_indoor: c.indoor }
}

/// The court `c`, once for a slot starting at `t` that can be booked for an hour and a half.
pub open spec fn slot_offers(c: CourtModel, t: Seq<char>) -> spec_fn(SlotModel) -> Seq<
    PadelCourtModel,
> {
    |s: SlotModel|
        if s.start_at == t && ninety_bookable(s.prices) {
            seq![court_entry(c)]
        } else {
            Seq::empty()
        }
}

/// The court `c`, once for each of its slots starting at `t` that can be booked for an hour
/// and a half.
pub open spec fn court_free_at(c: CourtModel, t: Seq<char>) -> Seq<PadelCourtModel> {
    concat_map(court_slots(c), slot_offers(c, t))
}

pub open spec fn court_offers(t: Seq<char>) -> spec_fn(CourtModel) -> Seq<PadelCourtModel> {
    |c: CourtModel| court_free_at(c, t)
}

/// The courts, in order, that can be booked for an hour and a half starting at `t`.
pub open spec fn courts_free_at(courts: Seq<CourtModel>, t: Seq<char>) -> Seq<PadelCourtModel> {
    concat_map(courts, court_offers(t))
}

/// The courts that the entries `s` list at the start time `t`.
pub open spec fn courts_listed(s: Seq<(Seq<char>, SlotOfferModel)>, t: Seq<char>) -> Seq<
    PadelCourtModel,
> {
    match lookup(s, t) {
        Some(v) => v.available_courts,
        None => Seq::empty(),
    }
}

/// Every start time of `s` lists some court, for an hour and a half.
pub open spec fn offers_ok(s: Seq<(Seq<char>, SlotOfferModel)>) -> bool {
    forall|t: Seq<char>|
        #[trigger] lookup(s, t) matches Some(v) ==> v.available_courts.len() > 0 && v.duration
            == BookingDuration::NinetyMin()
}

/// The start times of `s` are those at which some court of `courts` can be booked for an hour
/// and a half, each with those courts in order.
pub open spec fn slots_from_courts(
    s: Seq<(Seq<char>, SlotOfferModel)>,
    courts: Seq<CourtModel>,
) -> bool {
    &&& keys_sorted(s)
    &&& forall|t: Seq<char>|
        #[trigger] lookup(s, t) == if courts_free_at(courts, t).len() > 0 {
            Some(
                SlotOfferModel {
                    available_courts: courts_free_at(courts, t),
                    duration: BookingDuration::NinetyMin(),
                },
            )
        } else {
            None
        }
}

fn first_ninety_bookable(prices: &Vec<Price>) -> (r: bool)
    ensures
        r == ninety_bookable(crate::legarden::prices_model(prices@)),
{
    let ghost pm = crate::legarden::prices_model(prices@);
    assert(pm.skip(0) =~= pm);
    let mut i: usize = 0;
    while i < prices.len()
        invariant
            i <= prices@.len(),
            pm == crate::legarden::prices_model(prices@),
            ninety_bookable(pm) == ninety_bookable(pm.skip(i as int)),
        decreases prices@.len() - i,
    {
        assert(pm.skip(i as int)[0] == pm[i as int]);
        assert(pm.skip(i as int).drop_first() =~= pm.skip(i + 1));
        if prices[i].duration() == 5400 {
            return prices[i].bookable();
        }
        i = i + 1;
    }
    assert(pm.skip(i as int).len() == 0);
    false
}

proof fn lemma_offers_update(
    s0: Seq<(Seq<char>, SlotOfferModel)>,
    s1: Seq<(Seq<char>, SlotOfferModel)>,
    k: Seq<char>,
    v: SlotOfferModel,
)
    requires
        keys_sorted(s0),
        keys_sorted(s1),
        forall|t: Seq<char>|
            #![trigger lookup(s1, t)]
            lookup(s1, t) == if t == k {
                Some(v)
            } else {
                lookup(s0, t)
            },
    ensures
        forall|t: Seq<char>|
            #![trigger courts_listed(s1, t)]
            courts_listed(s1, t) == if t == k {
                v.available_courts
            } else {
                courts_listed(s0, t)
            },
{
    assert forall|t: Seq<char>| #![trigger courts_listed(s1, t)] courts_listed(s1, t) == if t == k {
        v.available_courts
    } else {
        courts_listed(s0, t)
    } by {
        assert(lookup(s1, t) == if t == k {
            Some(v)
        } else {
            lookup(s0, t)
        });
    }
}

/// Adds `court` to the courts free at `start`.
fn add_offer(acc: &mut StrMap<Slot>, start: &String, court: PadelCourt)
    requires
        old(acc).wf(),
        offers_ok(old(acc)@),
    ensures
        final(acc).wf(),
        offers_ok(final(acc)@),
        forall|t: Seq<char>|
            #![trigger courts_listed(final(acc)@, t)]
            courts_listed(final(acc)@, t) == if t == start@ {
                courts_listed(old(acc)@, t).push(court@)
            } else {
                courts_listed(old(acc)@, t)
            },
{
    let ghost s0 = acc@;
    let ghost c = court@;
    proof {
        lemma_lookup_sorted(s0);
    }
    match acc.index_of(start.as_str()) {
        Some(i) => {
            let mut slot = acc.value_at(i).clone();
            let ghost old_slot = slot@;
            assert(lookup(s0, start@) == Some(old_slot));
            slot.available_courts.push(court);
            assert(padel_courts_model(slot.available_courts@) =~= old_slot.available_courts.push(c));
            let ghost v = slot@;
            acc.set_value_at(i, slot);
            let ghost s1 = acc@;
            assert(keys_sorted(s1)) by {
                assert forall|a: int, b: int| 0 <= a < b < s1.len() implies seq_lt(
                    #[trigger] s1[a].0,
                    #[trigger] s1[b].0,
                ) by {
                    assert(s1[a].0 == s0[a].0 && s1[b].0 == s0[b].0);
                }
            }
            proof {
                lemma_lookup_sorted(s1);
                assert forall|t: Seq<char>| #![trigger lookup(s1, t)] lookup(s1, t) == if t
                    == start@ {
                    Some(v)
                } else {
                    lookup(s0, t)
                } by {
                    if t == start@ {
                        assert(s1[i as int].0 == t);
                    } else if exists|j: int| 0 <= j < s0.len() && (#[trigger] s0[j]).0 == t {
                        let j = choose|j: int| 0 <= j < s0.len() && (#[trigger] s0[j]).0 == t;
                        assert(s1[j] == s0[j]);
                    } else {
                        assert forall|j: int| 0 <= j < s1.len() implies (#[trigger] s1[j]).0
                            != t by {
                            assert(s1[j].0 == s0[j].0);
                        }
                    }
                }
                lemma_offers_update(s0, s1, start@, v);
                assert forall|t: Seq<char>| #[trigger] lookup(s1, t) is Some implies lookup(s1, t).unwrap().available_courts.len() > 0
                    && lookup(s1, t).unwrap().duration == BookingDuration::NinetyMin() by {
                    if t != start@ {
                        assert(lookup(s1, t) == lookup(s0, t));
                    }
                }
            }
        },
        None => {
            assert(lookup(s0, start@) is None);
            let slot = Slot { available_courts: vec![court], duration: BookingDuration::NinetyMin() };
            assert(padel_courts_model(slot.available_courts@) =~= seq![c]);
            let ghost v = slot@;
            acc.insert(start.clone(), slot);
            proof {
                lemma_offers_update(s0, acc@, start@, v);
                assert(courts_listed(s0, start@) =~= Seq::<PadelCourtModel>::empty());
                assert(seq![c] =~= Seq::<PadelCourtModel>::empty().push(c));
                assert forall|t: Seq<char>| #[trigger] lookup(acc@, t) is Some implies lookup(acc@, t).unwrap().available_courts.len() > 0
                    && lookup(acc@, t).unwrap().duration == BookingDuration::NinetyMin() by {
                    if t != start@ {
                        assert(lookup(acc@, t) == lookup(s0, t));
                    }
                }
            }
        },
    }
}

/// Adds `court` at the start times of its slots that can be booked for an hour and a half.
fn add_court_offers(acc: &mut StrMap<Slot>, court: &crate::legarden::Court)
    requires
        old(acc).wf(),
        offers_ok(old(acc)@),
        court.activities@.len() > 0,
    ensures
        final(acc).wf(),
        offers_ok(final(acc)@),
        forall|t: Seq<char>|
            #![trigger courts_listed(final(acc)@, t)]
            courts_listed(final(acc)@, t) == courts_listed(old(acc)@, t) + court_free_at(court@, t),
{
    let ghost s0 = acc@;
    let ghost cv = court@;
    let slots = court.slots();
    let ghost sm = court_slots(cv);
    let mut j: usize = 0;
    while j < slots.len()
        invariant
            j <= slots@.len(),
            crate::legarden::slots_model(slots@) == sm,
            sm == court_slots(cv),
            cv == court@,
            acc.wf(),
            offers_ok(acc@),
            forall|t: Seq<char>|
                #![trigger courts_listed(acc@, t)]
                courts_listed(acc@, t) == courts_listed(s0, t) + concat_map(
                    sm.take(j as int),
                    slot_offers(cv, t),
                ),
        decreases slots@.len() - j,
    {
        let ghost s_before = acc@;
        let slot = &slots[j];
        assert(slot@ == sm[j as int]);
        proof {
            assert forall|t: Seq<char>| true implies concat_map(sm.take(j + 1), slot_offers(cv, t))
                == concat_map(sm.take(j as int), slot_offers(cv, t)) + slot_offers(cv, t)(
                sm[j as int],
            ) by {
                lemma_concat_map_take(sm, slot_offers(cv, t), j as int);
            }
        }
        if first_ninety_bookable(slot.prices()) {
            let entry = PadelCourt { name: String::from_str(court.name()), is_indoor: court.is_indoor() };
            assert(entry@ == court_entry(cv));
            add_offer(acc, &slot.start_at, entry);
            proof {
                assert forall|t: Seq<char>| #![trigger courts_listed(acc@, t)] courts_listed(acc@, t)
                    == courts_listed(s0, t) + concat_map(sm.take(j + 1), slot_offers(cv, t)) by {
                    lemma_concat_map_take(sm, slot_offers(cv, t), j as int);
                    if t == sm[j as int].start_at {
                        assert(courts_listed(s_before, t).push(court_entry(cv)) =~= courts_listed(
                            s0,
                            t,
                        ) + concat_map(sm.take(j as int), slot_offers(cv, t)) + seq![
                            court_entry(cv),
                        ]);
                    } else {
                        assert(courts_listed(s_before, t) =~= courts_listed(s0, t) + concat_map(
                            sm.take(j + 1),
                            slot_offers(cv, t),
                        ));
                    }
                }
            }
        } else {
            proof {
                assert forall|t: Seq<char>| #![trigger courts_listed(acc@, t)] courts_listed(acc@, t)
                    == courts_listed(s0, t) + concat_map(sm.take(j + 1), slot_offers(cv, t)) by {
                    lemma_concat_map_take(sm, slot_offers(cv, t), j as int);
                    assert(concat_map(sm.take(j + 1), slot_offers(cv, t)) =~= concat_map(
                        sm.take(j as int),
                        slot_offers(cv, t),
                    ));
                }
            }
        }
        j = j + 1;
    }
    proof {
        assert(sm.take(slots@.len() as int) =~= sm);
    }
}

/// The free courts by start time of the courts `courts`.
fn slots_of_courts(courts: &Vec<crate::legarden::Court>) -> (r: StrMap<Slot>)
    requires
        forall|i: int| 0 <= i < courts@.len() ==> (#[trigger] courts@[i]).activities@.len() > 0,
    ensures
        r.wf(),
        slots_from_courts(r@, crate::legarden::courts_model(courts@)),
{
    let ghost cm = crate::legarden::courts_model(courts@);
    let mut acc: StrMap<Slot> = StrMap::new();
    let mut i: usize = 0;
    while i < courts.len()
        invariant
            i <= courts@.len(),
            cm == crate::legarden::courts_model(courts@),
            forall|k: int| 0 <= k < courts@.len() ==> (#[trigger] courts@[k]).activities@.len() > 0,
            acc.wf(),
            offers_ok(acc@),
            forall|t: Seq<char>|
                #![trigger courts_listed(acc@, t)]
                courts_listed(acc@, t) == concat_map(cm.take(i as int), court_offers(t)),
        decreases courts@.len() - i,
    {
        let ghost s_before = acc@;
        assert(cm[i as int] == courts@[i as int]@);
        add_court_offers(&mut acc, &courts[i]);
        proof {
            assert forall|t: Seq<char>| #![trigger courts_listed(acc@, t)] courts_listed(acc@, t)
                == concat_map(cm.take(i + 1), court_offers(t)) by {
                lemma_concat_map_take(cm, court_offers(t), i as int);
            }
        }
        i = i + 1;
    }
    proof {
        assert(cm.take(courts@.len() as int) =~= cm);
        assert forall|t: Seq<char>| #[trigger] lookup(acc@, t) == if courts_free_at(cm, t).len() > 0 {
            Some(
                SlotOfferModel {
                    available_courts: courts_free_at(cm, t),
                    duration: BookingDuration::NinetyMin(),
                },
            )
        } else {
            None
        } by {
            assert(courts_listed(acc@, t) == courts_free_at(cm, t));
            match lookup(acc@, t) {
                Some(v) => {},
                None => {},
            }
        }
    }
    acc
}


/// What `DayPlanning::from_response` reads can be read: the courts have slots, and the date
/// of the planning's request path lies on character boundaries and reads as a day.
pub open spec fn response_readable(r: crate::legarden::DayModel, courts: Seq<crate::legarden::Court>) -> bool {
    &&& forall|i: int| 0 <= i < courts.len() ==> (#[trigger] courts[i]).activities@.len() > 0
    &&& is_char_boundary(encode_utf8(r.view.id), PLANNING_PATH_LEN as int)
    &&& is_char_boundary(encode_utf8(r.view.id), (PLANNING_PATH_LEN + DATE_LEN) as int)
    &&& parsed_date(planning_date_text(r.view.id)) is Some
}

impl DayPlanning {
    /// The calendar's view of a day's planning: its day of the week, and at each start time the
    /// courts (in the order of the planning) whose first price option of an hour and a half can
    /// be booked.
    pub fn from_response(server_res: &DayPlanningResponse) -> (r: DayPlanning)
        requires
            response_readable(server_res@, server_res.courts@),
        ensures
            r.slots.wf(),
            slots_from_courts(r@.slots, server_res@.courts),
            r@.weekday == weekday_name(
                weekday_of(parsed_date(planning_date_text(server_res.view.id@)).unwrap() as int),
            ),
    {
        let slots = slots_of_courts(server_res.courts());
        let d = match parse_date(server_res.date()) {
            Some(d) => d,
            None => 1,
        };
        let weekday = Date { days_from_ce: d }.weekday();
        DayPlanning { weekday: String::from_str(weekday.name()), slots }
    }

    /// `from_response` when what it reads can be read; nothing otherwise.
    pub fn try_from_response(server_res: &DayPlanningResponse) -> (r: Option<DayPlanning>)
        ensures
            match r {
                Some(dp) => {
                    &&& response_readable(server_res@, server_res.courts@)
                    &&& dp.slots.wf()
                    &&& slots_from_courts(dp@.slots, server_res@.courts)
                    &&& dp@.weekday == weekday_name(
                        weekday_of(
                            parsed_date(planning_date_text(server_res.view.id@)).unwrap() as int,
                        ),
                    )
                },
                None => !response_readable(server_res@, server_res.courts@),
            },
    {
        let courts = server_res.courts();
        let mut i: usize = 0;
        while i < courts.len()
            invariant
                i <= courts@.len(),
                *courts == server_res.courts,
                forall|k: int| 0 <= k < i ==> (#[trigger] courts@[k]).activities@.len() > 0,
            decreases courts@.len() - i,
        {
            if courts[i].activities.len() == 0 {
                return None;
            }
            i = i + 1;
        }
        let url = server_res.view.id.as_str();
        if !url.is_char_boundary(PLANNING_PATH_LEN) || !url.is_char_boundary(
            PLANNING_PATH_LEN + DATE_LEN,
        ) {
            return None;
        }
        if parse_date(server_res.date()).is_none() {
            return None;
        }
        Some(DayPlanning::from_response(server_res))
    }
}


// ---------------------------------------------------------------- filters

/// The club's opening time, where the range of times a new filter's form offers starts.
pub const OPENING_TIME: &'static str = "09:00";

/// The club's closing time, where the range of times a new filter's form offers ends.
pub const CLOSING_TIME: &'static str = "22:00";

/// The first start time a day can have, written as chrono writes a time.
pub const FIRST_START_TIME: &'static str = "00:00";

/// The last start time a day can have, written as chrono writes a time.
pub const LAST_START_TIME: &'static str = "23:59";

/// What a filter is.
pub struct FilterModel {
    pub name: Seq<char>,
    pub days_of_the_week: Seq<Seq<char>>,
    pub start_time_slots: Seq<(Seq<char>, Seq<char>)>,
    pub with_outdoor: bool,
}

/// Which courts a user wants to see: on which days of the week ("Mon", "Tue", ...), starting
/// within which ranges of times ("HH:MM", both ends included), and whether outdoor courts
/// count. Two filters are the same filter when they have the same name.
#[derive(Debug)]
pub struct Filter {
    pub name: String,
    pub days_of_the_week: Vec<String>,
    pub start_time_slots: Vec<(String, String)>,
    pub with_outdoor: bool,
}

pub open spec fn time_ranges_model(v: Seq<(String, String)>) -> Seq<(Seq<char>, Seq<char>)> {
    v.map_values(|p: (String, String)| (p.0@, p.1@))
}

impl View for Filter {
    type V = FilterModel;

    open spec fn view(&self) -> FilterModel {
        FilterModel {
            name: self.name@,
            days_of_the_week: self.days_of_the_week@.map_values(|d: String| d@),
            start_time_slots: time_ranges_model(self.start_time_slots@),
            with_outdoor: self.with_outdoor,
        }
    }
}

impl Clone for Filter {
    fn clone(&self) -> (r: Self)
        ensures
            r@ == self@,
    {
        let days = self.days_of_the_week.clone();
        assert(days@.map_values(|d: String| d@) =~= self.days_of_the_week@.map_values(
            |d: String| d@,
        ));
        let mut ranges: Vec<(String, String)> = Vec::new();
        let mut i: usize = 0;
        while i < self.start_time_slots.len()
            invariant
                i <= self.start_time_slots@.len(),
                time_ranges_model(ranges@) =~= time_ranges_model(
                    self.start_time_slots@.take(i as int),
                ),
            decreases self.start_time_slots@.len() - i,
        {
            let ghost before = ranges@;
            let (a, b) = &self.start_time_slots[i];
            ranges.push((a.clone(), b.clone()));
            assert(time_ranges_model(ranges@) =~= time_ranges_model(before).push((a@, b@)));
            assert(self.start_time_slots@.take(i + 1) =~= self.start_time_slots@.take(
                i as int,
            ).push(self.start_time_slots@[i as int]));
            i = i + 1;
        }
        assert(self.start_time_slots@.take(self.start_time_slots@.len() as int)
            =~= self.start_time_slots@);
        Filter {
            name: self.name.clone(),
            days_of_the_week: days,
            start_time_slots: ranges,
            with_outdoor: self.with_outdoor,
        }
    }
}

impl Default for Filter {
    /// The filter "default", which lets everything through: every day of the week, every start
    /// time of the day (`FIRST_START_TIME` to `LAST_START_TIME`), outdoor courts included.
    fn default() -> (r: Self)
        ensures
            r@ == (FilterModel {
                name: "default"@,
                days_of_the_week: seq!["Mon"@, "Tue"@, "Wed"@, "Thu"@, "Fri"@, "Sat"@, "Sun"@],
                start_time_slots: seq![(FIRST_START_TIME@, LAST_START_TIME@)],
                with_outdoor: true,
            }),
    {
        let days = vec![
            String::from_str("Mon"),
            String::from_str("Tue"),
            String::from_str("Wed"),
            String::from_str("Thu"),
            String::from_str("Fri"),
            String::from_str("Sat"),
            String::from_str("Sun"),
        ];
        let ranges = vec![(String::from_str(FIRST_START_TIME), String::from_str(LAST_START_TIME))];
        let r = Filter {
            name: String::from_str("default"),
            days_of_the_week: days,
            start_time_slots: ranges,
            with_outdoor: true,
        };
        assert(r@.days_of_the_week =~= seq!["Mon"@, "Tue"@, "Wed"@, "Thu"@, "Fri"@, "Sat"@, "Sun"@]);
        assert(r@.start_time_slots =~= seq![(FIRST_START_TIME@, LAST_START_TIME@)]);
        r
    }
}

impl PartialEq for Filter {
    fn eq(&self, other: &Self) -> (r: bool) {
        self.name == other.name
    }
}

impl vstd::std_specs::cmp::PartialEqSpecImpl for Filter {
    open spec fn obeys_eq_spec() -> bool {
        true
    }

    open spec fn eq_spec(&self, other: &Self) -> bool {
        self.name@ == other.name@
    }
}

impl Filter {
    /// Whether a filter may be removed: only while more than one is left.
    pub fn can_remove_filter(filters: &StrMap<Filter>) -> (r: bool)
        ensures
            r == (filters@.len() > 1),
    {
        filters.len() > 1
    }

    /// The filters a user starts with: "default", which lets everything through.
    pub fn default_filters() -> (r: StrMap<Filter>)
        ensures
            r.wf(),
            r@ == seq![("default"@, Filter::default_model())],
    {
        let mut filters: StrMap<Filter> = StrMap::new();
        let f = Filter::default();
        filters.push(String::from_str("default"), f);
        assert(filters@ =~= seq![("default"@, Filter::default_model())]);
        filters
    }

    /// What the default filter is.
    pub open spec fn default_model() -> FilterModel {
        FilterModel {
            name: "default"@,
            days_of_the_week: seq!["Mon"@, "Tue"@, "Wed"@, "Thu"@, "Fri"@, "Sat"@, "Sun"@],
            start_time_slots: seq![(FIRST_START_TIME@, LAST_START_TIME@)],
            with_outdoor: true,
        }
    }
}

/// A start time written as chrono writes a time of day: "HH:MM", hours 00 to 23, minutes 00
/// to 59.
pub open spec fn clock_text(t: Seq<char>) -> bool {
    &&& t.len() == 5
    &&& '0' <= t[0] <= '2'
    &&& '0' <= t[1] <= '9'
    &&& t[0] == '2' ==> t[1] <= '3'
    &&& t[2] == ':'
    &&& '0' <= t[3] <= '5'
    &&& '0' <= t[4] <= '9'
}

/// The default filter lets every start time of the day through.
pub proof fn law_default_filter_lets_every_time_through(t: Seq<char>)
    requires
        clock_text(t),
    ensures
        in_filter_times(Filter::default_model(), t),
{
    reveal_strlit("00:00");
    reveal_strlit("23:59");
    reveal_with_fuel(crate::text::lt_from, 6);
    let f = Filter::default_model();
    assert(f.start_time_slots[0] == (FIRST_START_TIME@, LAST_START_TIME@));
    assert(seq_le(FIRST_START_TIME@, t)) by {
        if t =~= FIRST_START_TIME@ {
        }
    }
    assert(seq_le(t, LAST_START_TIME@)) by {
        if t =~= LAST_START_TIME@ {
        }
    }
    assert(f.start_time_slots.len() == 1);
    assert(seq_le(f.start_time_slots[0].0, t) && seq_le(t, f.start_time_slots[0].1));
}

// ---------------------------------------------------------------- building filters

/// The days of the week as filters name them, Monday first.
pub open spec fn weekday_names() -> Seq<Seq<char>> {
    seq!["Mon"@, "Tue"@, "Wed"@, "Thu"@, "Fri"@, "Sat"@, "Sun"@]
}

/// The days of the week as filters name them, Monday first: the choices a user has.
pub fn weekdays_ordered() -> (r: Vec<String>)
    ensures
        r@.map_values(|d: String| d@) == weekday_names(),
{
    let mut out: Vec<String> = Vec::new();
    let mut i: u32 = 0;
    while i < 7
        invariant
            i <= 7,
            out@.len() == i,
            forall|k: int| 0 <= k < i ==> (#[trigger] out@[k])@ == weekday_name(weekday_from_index(k)),
        decreases 7 - i,
    {
        out.push(String::from_str(Weekday::from_monday_index(i).name()));
        i = i + 1;
    }
    assert(out@.map_values(|d: String| d@) =~= weekday_names()) by {
        assert(weekday_name(weekday_from_index(0)) == "Mon"@);
        assert(weekday_name(weekday_from_index(1)) == "Tue"@);
        assert(weekday_name(weekday_from_index(2)) == "Wed"@);
        assert(weekday_name(weekday_from_index(3)) == "Thu"@);
        assert(weekday_name(weekday_from_index(4)) == "Fri"@);
        assert(weekday_name(weekday_from_index(5)) == "Sat"@);
        assert(weekday_name(weekday_from_index(6)) == "Sun"@);
    }
    out
}

/// The range of start times a new range starts with: from the opening time to the closing
/// time, 09:00 to 22:00.
pub fn default_time_slot() -> (r: (TimeOfDay, TimeOfDay))
    ensures
        r == (TimeOfDay { secs: 32400, nanos: 0 }, TimeOfDay { secs: 79200, nanos: 0 }),
{
    (TimeOfDay::from_hms(9, 0, 0), TimeOfDay::from_hms(22, 0, 0))
}

/// Ranges of times of day, each end written as chrono writes a time.
pub open spec fn form_ranges(v: Seq<(TimeOfDay, TimeOfDay)>) -> Seq<(Seq<char>, Seq<char>)> {
    v.map_values(
        |p: (TimeOfDay, TimeOfDay)|
            (displayed_time(p.0), displayed_time(p.1)),
    )
}

impl Filter {
    /// The filter a user builds: its name, its days of the week, its ranges of start times,
    /// each end written as chrono writes a time, and whether outdoor courts count.
    pub fn from_form(
        name: String,
        weekdays: Vec<String>,
        time_slots: &Vec<(TimeOfDay, TimeOfDay)>,
        with_outdoor: bool,
    ) -> (r: Filter)
        requires
            forall|i: int|
                0 <= i < time_slots@.len() ==> valid_time((#[trigger] time_slots@[i]).0) && valid_time(
                    time_slots@[i].1,
                ),
        ensures
            r@ == (FilterModel {
                name: name@,
                days_of_the_week: weekdays@.map_values(|d: String| d@),
                start_time_slots: form_ranges(time_slots@),
                with_outdoor,
            }),
    {
        let mut ranges: Vec<(String, String)> = Vec::new();
        let mut i: usize = 0;
        while i < time_slots.len()
            invariant
                i <= time_slots@.len(),
                forall|k: int|
                    0 <= k < time_slots@.len() ==> valid_time((#[trigger] time_slots@[k]).0)
                        && valid_time(time_slots@[k].1),
                time_ranges_model(ranges@) == form_ranges(time_slots@.take(i as int)),
            decreases time_slots@.len() - i,
        {
            let ghost before = ranges@;
            let (start, end) = time_slots[i];
            ranges.push((time_text(start), time_text(end)));
            assert(time_ranges_model(ranges@) =~= time_ranges_model(before).push(
                (displayed_time(start), displayed_time(end)),
            ));
            assert(time_slots@.take(i + 1) =~= time_slots@.take(i as int).push(time_slots@[i as int]));
            i = i + 1;
        }
        assert(time_slots@.take(time_slots@.len() as int) =~= time_slots@);
        Filter { name, days_of_the_week: weekdays, start_time_slots: ranges, with_outdoor }
    }
}

/// Removes the filter named `name` from `filters`, and gives the filter to make active then:
/// the first one left, if any.
pub fn remove_filter(filters: &mut StrMap<Filter>, name: &str) -> (r: Option<Filter>)
    requires
        old(filters).wf(),
    ensures
        final(filters).wf(),
        forall|q: Seq<char>|
            #![trigger lookup(final(filters)@, q)]
            lookup(final(filters)@, q) == if q == name@ {
                None
            } else {
                lookup(old(filters)@, q)
            },
        match r {
            Some(f) => final(filters)@.len() > 0 && f@ == final(filters)@[0].1,
            None => final(filters)@.len() == 0,
        },
{
    let _ = filters.remove(name);
    if filters.is_empty() {
        None
    } else {
        Some(filters.value_at(0).clone())
    }
}

/// The start time `t` lies in one of the filter's ranges of times, both ends included.
pub open spec fn in_filter_times(f: FilterModel, t: Seq<char>) -> bool {
    exists|i: int|
        0 <= i < f.start_time_slots.len() && seq_le(#[trigger] f.start_time_slots[i].0, t) && seq_le(
            t,
            f.start_time_slots[i].1,
        )
}

pub open spec fn indoor_pick() -> spec_fn(PadelCourtModel) -> Option<PadelCourtModel> {
    |c: PadelCourtModel|
        if c.is_indoor {
            Some(c)
        } else {
            None
        }
}

/// The courts the filter lets through: all, or the indoor ones.
pub open spec fn kept_courts(f: FilterModel, cs: Seq<PadelCourtModel>) -> Seq<PadelCourtModel> {
    if f.with_outdoor {
        cs
    } else {
        cs.filter_map(indoor_pick())
    }
}

/// A start time the filter lets through, with the courts it lets through, if any.
pub open spec fn filter_slot(f: FilterModel, e: (Seq<char>, SlotOfferModel)) -> Option<
    (Seq<char>, SlotOfferModel),
> {
    if in_filter_times(f, e.0) {
        let cs = kept_courts(f, e.1.available_courts);
        if cs.len() > 0 {
            Some((e.0, SlotOfferModel { available_courts: cs, duration: e.1.duration }))
        } else {
            None
        }
    } else {
        None
    }
}

pub open spec fn slot_filter(f: FilterModel) -> spec_fn((Seq<char>, SlotOfferModel)) -> Option<
    (Seq<char>, SlotOfferModel),
> {
    |e: (Seq<char>, SlotOfferModel)| filter_slot(f, e)
}

/// The planning `dp` trimmed by the filter `f`: nothing on a day of the week the filter
/// leaves out; otherwise the start times in its ranges, with the courts it lets through,
/// those left with no court dropped.
pub open spec fn filtered_model(dp: DayPlanningModel, f: FilterModel) -> DayPlanningModel {
    if !f.days_of_the_week.contains(dp.weekday) {
        DayPlanningModel { weekday: dp.weekday, slots: Seq::empty() }
    } else {
        DayPlanningModel { weekday: dp.weekday, slots: dp.slots.filter_map(slot_filter(f)) }
    }
}

/// A start time the filter lets through, with the courts it lets through, kept even when no
/// court is left.
pub open spec fn trim_slot(f: FilterModel, e: (Seq<char>, SlotOfferModel)) -> Option<
    (Seq<char>, SlotOfferModel),
> {
    if in_filter_times(f, e.0) {
        Some(
            (
                e.0,
                SlotOfferModel {
                    available_courts: kept_courts(f, e.1.available_courts),
                    duration: e.1.duration,
                },
            ),
        )
    } else {
        None
    }
}

pub open spec fn slot_trim(f: FilterModel) -> spec_fn((Seq<char>, SlotOfferModel)) -> Option<
    (Seq<char>, SlotOfferModel),
> {
    |e: (Seq<char>, SlotOfferModel)| trim_slot(f, e)
}

/// The planning `dp` as the calendar's own trimming leaves it: nothing on a day of the week
/// the filter leaves out; otherwise the start times in its ranges, each with the courts it
/// lets through, none or some.
pub open spec fn trimmed_model(dp: DayPlanningModel, f: FilterModel) -> DayPlanningModel {
    if !f.days_of_the_week.contains(dp.weekday) {
        DayPlanningModel { weekday: dp.weekday, slots: Seq::empty() }
    } else {
        DayPlanningModel { weekday: dp.weekday, slots: dp.slots.filter_map(slot_trim(f)) }
    }
}

pub open spec fn is_indoor_court() -> spec_fn(PadelCourtModel) -> bool {
    |c: PadelCourtModel| c.is_indoor
}

proof fn lemma_kept_courts_twice(f: FilterModel, cs: Seq<PadelCourtModel>)
    ensures
        kept_courts(f, kept_courts(f, cs)) == kept_courts(f, cs),
{
    if !f.with_outdoor {
        assert forall|i: int| 0 <= i < cs.len() implies opt_holds(
            #[trigger] indoor_pick()(cs[i]),
            is_indoor_court(),
        ) by {}
        lemma_filter_map_forall(cs, indoor_pick(), is_indoor_court());
        let k = cs.filter_map(indoor_pick());
        assert forall|i: int| 0 <= i < k.len() implies #[trigger] indoor_pick()(k[i]) == Some(k[i]) by {
            assert(is_indoor_court()(k[i]));
        }
        lemma_filter_map_identity(k, indoor_pick());
    }
}

/// Trimming a planning twice by a filter trims it as once: what a filter lets through, it
/// lets through again unchanged.
pub proof fn law_filter_twice_is_once(dp: DayPlanningModel, f: FilterModel)
    ensures
        filtered_model(filtered_model(dp, f), f) == filtered_model(dp, f),
{
    if f.days_of_the_week.contains(dp.weekday) {
        let sf = slot_filter(f);
        let kept = |e: (Seq<char>, SlotOfferModel)| sf(e) == Some(e);
        assert forall|i: int| 0 <= i < dp.slots.len() implies opt_holds(#[trigger] sf(dp.slots[i]), kept) by {
            lemma_kept_courts_twice(f, dp.slots[i].1.available_courts);
        }
        lemma_filter_map_forall(dp.slots, sf, kept);
        let t = dp.slots.filter_map(sf);
        assert forall|i: int| 0 <= i < t.len() implies #[trigger] sf(t[i]) == Some(t[i]) by {
            assert(kept(t[i]));
        }
        lemma_filter_map_identity(t, sf);
    } else {
        assert(Seq::<(Seq<char>, SlotOfferModel)>::empty().filter_map(slot_filter(f)) =~= Seq::<
            (Seq<char>, SlotOfferModel),
        >::empty());
    }
}

fn contains_string(v: &Vec<String>, s: &String) -> (r: bool)
    ensures
        r == v@.map_values(|d: String| d@).contains(s@),
{
    let ghost m = v@.map_values(|d: String| d@);
    let mut i: usize = 0;
    while i < v.len()
        invariant
            i <= v@.len(),
            m == v@.map_values(|d: String| d@),
            forall|j: int| 0 <= j < i ==> m[j] != s@,
        decreases v@.len() - i,
    {
        if str_eq(v[i].as_str(), s.as_str()) {
            assert(m[i as int] == s@);
            return true;
        }
        i = i + 1;
    }
    false
}

impl Filter {
    /// Whether the start time `t` lies in one of the filter's ranges of times.
    pub fn lets_time_through(&self, t: &str) -> (r: bool)
        ensures
            r == in_filter_times(self@, t@),
    {
        let ghost m = self@.start_time_slots;
        let mut i: usize = 0;
        while i < self.start_time_slots.len()
            invariant
                i <= self.start_time_slots@.len(),
                m == self@.start_time_slots,
                forall|j: int|
                    0 <= j < i ==> !(seq_le(#[trigger] m[j].0, t@) && seq_le(t@, m[j].1)),
            decreases self.start_time_slots@.len() - i,
        {
            let (begin, end) = &self.start_time_slots[i];
            assert(m[i as int] == (begin@, end@));
            if str_le(begin.as_str(), t) && str_le(t, end.as_str()) {
                assert(seq_le(self@.start_time_slots[i as int].0, t@) && seq_le(
                    t@,
                    self@.start_time_slots[i as int].1,
                ));
                return true;
            }
            i = i + 1;
        }
        false
    }
}

fn indoor_courts(cs: &Vec<PadelCourt>) -> (r: Vec<PadelCourt>)
    ensures
        padel_courts_model(r@) == padel_courts_model(cs@).filter_map(indoor_pick()),
{
    let ghost m = padel_courts_model(cs@);
    let mut r: Vec<PadelCourt> = Vec::new();
    let mut i: usize = 0;
    while i < cs.len()
        invariant
            i <= cs@.len(),
            m == padel_courts_model(cs@),
            padel_courts_model(r@) == m.take(i as int).filter_map(indoor_pick()),
        decreases cs@.len() - i,
    {
        let ghost before = r@;
        assert(m.take(i + 1).drop_last() =~= m.take(i as int));
        if cs[i].is_indoor {
            r.push(cs[i].clone());
            assert(padel_courts_model(r@) =~= padel_courts_model(before).push(m[i as int]));
        }
        i = i + 1;
    }
    assert(m.take(cs@.len() as int) =~= m);
    r
}

impl DayPlanning {
    /// The planning trimmed by `filter` (see `filtered_model`).
    pub fn filtered(&self, filter: &Filter) -> (r: Self)
        requires
            self.slots.wf(),
        ensures
            r.slots.wf(),
            r@ == filtered_model(self@, filter@),
    {
        if !contains_string(&filter.days_of_the_week, &self.weekday) {
            let r = DayPlanning::new(self.weekday.as_str(), StrMap::new());
            assert(r@.slots =~= Seq::<(Seq<char>, SlotOfferModel)>::empty());
            return r;
        }
        let ghost f = filter@;
        let ghost sm = self@.slots;
        let mut kept: StrMap<Slot> = StrMap::new();
        let n = self.slots.len();
        let mut i: usize = 0;
        let ghost mut last: int = -1;
        while i < n
            invariant
                i <= n,
                n == sm.len(),
                sm == self@.slots,
                f == filter@,
                keys_sorted(sm),
                kept.wf(),
                kept@ == sm.take(i as int).filter_map(slot_filter(f)),
                -1 <= last < i,
                kept@.len() > 0 ==> 0 <= last && kept@.last().0 == sm[last].0,
            decreases n - i,
        {
            let ghost before = kept@;
            assert(sm.take(i + 1).drop_last() =~= sm.take(i as int));
            let start = self.slots.key_at(i);
            let slot = self.slots.value_at(i);
            if filter.lets_time_through(start.as_str()) {
                let courts = if filter.with_outdoor {
                    clone_padel_courts(&slot.available_courts)
                } else {
                    indoor_courts(&slot.available_courts)
                };
                if courts.len() > 0 {
                    let new_slot = Slot { available_courts: courts, duration: slot.duration };
                    proof {
                        if before.len() > 0 {
                            assert(seq_lt(sm[last].0, sm[i as int].0));
                        }
                    }
                    kept.push(start.clone(), new_slot);
                    proof {
                        last = i as int;
                    }
                } else {
                    assert(padel_courts_model(courts@).len() == 0);
                }
            }
            i = i + 1;
        }
        assert(sm.take(n as int) =~= sm);
        DayPlanning::new(self.weekday.as_str(), kept)
    }
}


fn trimmed_keeping_slots(dp: &DayPlanning, filter: &Filter) -> (r: DayPlanning)
    requires
        dp.slots.wf(),
    ensures
        r.slots.wf(),
        r@ == trimmed_model(dp@, filter@),
{
    if !contains_string(&filter.days_of_the_week, &dp.weekday) {
        let r = DayPlanning::new(dp.weekday.as_str(), StrMap::new());
        assert(r@.slots =~= Seq::<(Seq<char>, SlotOfferModel)>::empty());
        return r;
    }
    let ghost f = filter@;
    let ghost sm = dp@.slots;
    let mut kept: StrMap<Slot> = StrMap::new();
    let n = dp.slots.len();
    let mut i: usize = 0;
    let ghost mut last: int = -1;
    while i < n
        invariant
            i <= n,
            n == sm.len(),
            sm == dp@.slots,
            f == filter@,
            keys_sorted(sm),
            kept.wf(),
            kept@ == sm.take(i as int).filter_map(slot_trim(f)),
            -1 <= last < i,
            kept@.len() > 0 ==> 0 <= last && kept@.last().0 == sm[last].0,
        decreases n - i,
    {
        let ghost before = kept@;
        assert(sm.take(i + 1).drop_last() =~= sm.take(i as int));
        let start = dp.slots.key_at(i);
        let slot = dp.slots.value_at(i);
        if filter.lets_time_through(start.as_str()) {
            let courts = if filter.with_outdoor {
                clone_padel_courts(&slot.available_courts)
            } else {
                indoor_courts(&slot.available_courts)
            };
            let new_slot = Slot { available_courts: courts, duration: slot.duration };
            proof {
                if before.len() > 0 {
                    assert(seq_lt(sm[last].0, sm[i as int].0));
                }
            }
            kept.push(start.clone(), new_slot);
            proof {
                last = i as int;
            }
        }
        i = i + 1;
    }
    assert(sm.take(n as int) =~= sm);
    DayPlanning::new(dp.weekday.as_str(), kept)
}

// ---------------------------------------------------------------- the loaded calendar

/// A day of the calendar: still loading, or loaded with its planning.
#[derive(Debug, PartialEq, Eq)]
pub enum DayLoad {
    Loading,
    Loaded(DayPlanning),
}

impl View for DayLoad {
    type V = Option<DayPlanningModel>;

    open spec fn view(&self) -> Option<DayPlanningModel> {
        match self {
            DayLoad::Loading => None,
            DayLoad::Loaded(dp) => Some(dp@),
        }
    }
}

/// A day that is loaded has its start times sorted.
pub open spec fn load_wf(x: Option<DayPlanningModel>) -> bool {
    match x {
        Some(dp) => keys_sorted(dp.slots),
        None => true,
    }
}

/// The days of a calendar have sorted keys, and so do the start times of each loaded day.
pub open spec fn loads_wf(s: Seq<(Seq<char>, Option<DayPlanningModel>)>) -> bool {
    &&& keys_sorted(s)
    &&& forall|i: int| 0 <= i < s.len() ==> load_wf(#[trigger] s[i].1)
}

/// The calendar of the booking app: by date ("YYYY-MM-DD"), the days asked for, loading or
/// loaded.
#[derive(Debug)]
pub struct Calendar {
    pub days: StrMap<DayLoad>,
}

/// A calendar trimmed by a filter: by date, the days asked for, loading or loaded and trimmed.
#[derive(Debug)]
pub struct FilteredCalendar {
    pub calendar: StrMap<DayLoad>,
}

/// What a calendar shows for a date.
#[derive(Debug, PartialEq, Eq)]
pub enum CalendarDayState {
    /// The date was never asked for.
    NotLoaded(),
    /// The date is being loaded.
    Loading(),
    /// The date is loaded and nothing in it passes the filter.
    NoAvailaibility(),
    /// The date is loaded and this passes the filter.
    Loaded(DayPlanning),
}

fn clone_slot_map(m: &StrMap<Slot>) -> (r: StrMap<Slot>)
    requires
        m.wf(),
    ensures
        r@ == m@,
        r.wf(),
{
    let mut r: StrMap<Slot> = StrMap::new();
    let n = m.len();
    let mut i: usize = 0;
    while i < n
        invariant
            i <= n,
            n == m@.len(),
            m.wf(),
            r.wf(),
            r@ == m@.take(i as int),
        decreases n - i,
    {
        assert(m@.take(i + 1) =~= m@.take(i as int).push(m@[i as int]));
        proof {
            if i > 0 {
                assert(seq_lt(m@[i - 1].0, m@[i as int].0));
            }
        }
        r.push(m.key_at(i).clone(), m.value_at(i).clone());
        i = i + 1;
    }
    assert(m@.take(n as int) =~= m@);
    r
}

impl DayPlanning {
    /// A copy of the planning.
    pub fn copy(&self) -> (r: Self)
        requires
            self.slots.wf(),
        ensures
            r@ == self@,
            r.slots.wf(),
    {
        DayPlanning { weekday: self.weekday.clone(), slots: clone_slot_map(&self.slots) }
    }
}

pub open spec fn load_filter(f: FilterModel) -> spec_fn((Seq<char>, Option<DayPlanningModel>)) -> (
    Seq<char>,
    Option<DayPlanningModel>,
) {
    |e: (Seq<char>, Option<DayPlanningModel>)|
        (
            e.0,
            match e.1 {
                Some(dp) => Some(filtered_model(dp, f)),
                None => None,
            },
        )
}

pub open spec fn loaded_trim(f: FilterModel) -> spec_fn(
    (Seq<char>, Option<DayPlanningModel>),
) -> Option<(Seq<char>, DayPlanningModel)> {
    |e: (Seq<char>, Option<DayPlanningModel>)|
        match e.1 {
            Some(dp) => Some((e.0, trimmed_model(dp, f))),
            None => None,
        }
}

/// What a calendar trimmed by the filter `f` shows for the date `k`: nothing if the calendar
/// never asked for it, loading if it is loading, and the calendar's planning trimmed by `f`
/// if it is loaded.
pub proof fn law_filtered_day_is_trimmed_day(
    s: Seq<(Seq<char>, Option<DayPlanningModel>)>,
    f: FilterModel,
    k: Seq<char>,
)
    ensures
        lookup(s.map_values(load_filter(f)), k) == match lookup(s, k) {
            None => None,
            Some(None) => Some(None::<DayPlanningModel>),
            Some(Some(dp)) => Some(Some(filtered_model(dp, f))),
        },
    decreases s.len(),
{
    if s.len() > 0 {
        let m = s.map_values(load_filter(f));
        assert(m.drop_last() =~= s.drop_last().map_values(load_filter(f)));
        assert(m.last() == load_filter(f)(s.last()));
        law_filtered_day_is_trimmed_day(s.drop_last(), f, k);
    }
}

impl Calendar {
    /// Well-formed: dates sorted, and the start times of each loaded day sorted.
    pub open spec fn wf(&self) -> bool {
        self.days.wf() && loads_wf(self.days@)
    }

    /// An empty calendar.
    pub fn new() -> (r: Self)
        ensures
            r.days@ == Seq::<(Seq<char>, Option<DayPlanningModel>)>::empty(),
            r.wf(),
    {
        Calendar { days: StrMap::new() }
    }

    /// The loaded days, each trimmed by `filter` (see `trimmed_model`), in date order.
    pub fn filtered(&self, filter: &Filter) -> (r: StrMap<DayPlanning>)
        requires
            self.wf(),
        ensures
            r.wf(),
            r@ == self.days@.filter_map(loaded_trim(filter@)),
    {
        let ghost s = self.days@;
        let mut r: StrMap<DayPlanning> = StrMap::new();
        let n = self.days.len();
        let mut i: usize = 0;
        let ghost mut last: int = -1;
        while i < n
            invariant
                i <= n,
                n == s.len(),
                s == self.days@,
                loads_wf(s),
                r.wf(),
                r@ == s.take(i as int).filter_map(loaded_trim(filter@)),
                -1 <= last < i,
                r@.len() > 0 ==> 0 <= last && r@.last().0 == s[last].0,
            decreases n - i,
        {
            let ghost before = r@;
            assert(s.take(i + 1).drop_last() =~= s.take(i as int));
            match self.days.value_at(i) {
                DayLoad::Loaded(dp) => {
                    assert(s[i as int].1 == Some(dp@));
                    proof {
                        if before.len() > 0 {
                            assert(seq_lt(s[last].0, s[i as int].0));
                        }
                    }
                    r.push(self.days.key_at(i).clone(), trimmed_keeping_slots(dp, filter));
                    proof {
                        last = i as int;
                    }
                },
                DayLoad::Loading => {},
            }
            i = i + 1;
        }
        assert(s.take(n as int) =~= s);
        r
    }

    /// Records the planning of a day once it is loaded.
    pub fn set_loaded(&mut self, date: String, planning: DayPlanning)
        requires
            old(self).wf(),
            planning.slots.wf(),
        ensures
            final(self).wf(),
            forall|q: Seq<char>|
                #![trigger lookup(final(self).days@, q)]
                lookup(final(self).days@, q) == if q == date@ {
                    Some(Some(planning@))
                } else {
                    lookup(old(self).days@, q)
                },
    {
        let ghost s0 = self.days@;
        let ghost p = planning@;
        let ghost d = date@;
        self.days.insert(date, DayLoad::Loaded(planning));
        proof {
            lemma_lookup_sorted(s0);
            lemma_lookup_sorted(self.days@);
            let s1 = self.days@;
            assert forall|i: int| 0 <= i < s1.len() implies load_wf(#[trigger] s1[i].1) by {
                if s1[i].0 != d {
                    assert(lookup(s1, s1[i].0) == Some(s1[i].1));
                    if !(exists|j: int| 0 <= j < s0.len() && (#[trigger] s0[j]).0 == s1[i].0) {
                        assert(lookup(s0, s1[i].0) is None);
                    } else {
                        let j = choose|j: int| 0 <= j < s0.len() && (#[trigger] s0[j]).0 == s1[i].0;
                        assert(lookup(s0, s1[i].0) == Some(s0[j].1));
                    }
                } else {
                    assert(lookup(s1, d) == Some(s1[i].1));
                }
            }
        }
    }

    /// Asks for the days of `days` that the calendar does not hold yet: each becomes a day
    /// being loaded. Gives those days, in the order of `days`, each once.
    pub fn retrieve(&mut self, days: Vec<String>) -> (r: Vec<String>)
        requires
            old(self).wf(),
        ensures
            final(self).wf(),
            forall|q: Seq<char>|
                #![trigger lookup(final(self).days@, q)]
                lookup(final(self).days@, q) == if lookup(old(self).days@, q) is None
                    && days@.map_values(|d: String| d@).contains(q) {
                    Some(None::<DayPlanningModel>)
                } else {
                    lookup(old(self).days@, q)
                },
            forall|i: int|
                0 <= i < r@.len() ==> lookup(old(self).days@, (#[trigger] r@[i])@) is None
                    && days@.map_values(|d: String| d@).contains(r@[i]@),
            forall|q: Seq<char>|
                lookup(old(self).days@, q) is None && days@.map_values(|d: String| d@).contains(q)
                    ==> exists|i: int| 0 <= i < r@.len() && (#[trigger] r@[i])@ == q,
            forall|i: int, j: int| 0 <= i < j < r@.len() ==> (#[trigger] r@[i])@ != (#[trigger] r@[j])@,
            final(self).days@.len() == old(self).days@.len() + r@.len(),
    {
        let ghost s0 = self.days@;
        let ghost dm = days@.map_values(|d: String| d@);
        let mut asked: Vec<String> = Vec::new();
        let mut i: usize = 0;
        while i < days.len()
            invariant
                i <= days@.len(),
                dm == days@.map_values(|d: String| d@),
                self.wf(),
                forall|q: Seq<char>|
                    #![trigger lookup(self.days@, q)]
                    lookup(self.days@, q) == if lookup(s0, q) is None && dm.take(i as int).contains(q) {
                        Some(None::<DayPlanningModel>)
                    } else {
                        lookup(s0, q)
                    },
                forall|k: int|
                    0 <= k < asked@.len() ==> lookup(s0, (#[trigger] asked@[k])@) is None
                        && dm.take(i as int).contains(asked@[k]@),
                forall|q: Seq<char>|
                    lookup(s0, q) is None && dm.take(i as int).contains(q) ==> exists|k: int|
                        0 <= k < asked@.len() && (#[trigger] asked@[k])@ == q,
                forall|a: int, b: int|
                    0 <= a < b < asked@.len() ==> (#[trigger] asked@[a])@ != (#[trigger] asked@[b])@,
                self.days@.len() == s0.len() + asked@.len(),
            decreases days@.len() - i,
        {
            let ghost s_before = self.days@;
            let ghost asked_before = asked@;
            let ghost q0 = dm[i as int];
            assert(dm.take(i + 1) =~= dm.take(i as int).push(q0));
            assert(days@[i as int]@ == q0);
            proof {
                lemma_lookup_sorted(s_before);
            }
            if !self.days.contains_key(days[i].as_str()) {
                let ghost sb = self.days@;
                self.days.insert(days[i].clone(), DayLoad::Loading);
                asked.push(days[i].clone());
                proof {
                    let s1 = self.days@;
                    lemma_lookup_sorted(s1);
                    assert(lookup(s0, q0) is None) by {
                        if lookup(s0, q0) is Some {
                            assert(lookup(sb, q0) == lookup(s0, q0));
                        }
                    }
                    assert forall|k: int| 0 <= k < s1.len() implies load_wf(#[trigger] s1[k].1) by {
                        if s1[k].0 != q0 {
                            assert(lookup(s1, s1[k].0) == Some(s1[k].1));
                            if exists|j: int| 0 <= j < sb.len() && (#[trigger] sb[j]).0 == s1[k].0 {
                                let j = choose|j: int| 0 <= j < sb.len() && (#[trigger] sb[j]).0 == s1[k].0;
                                assert(lookup(sb, s1[k].0) == Some(sb[j].1));
                            }
                        } else {
                            assert(lookup(s1, q0) == Some(s1[k].1));
                        }
                    }
                    assert forall|a: int, b: int|
                        0 <= a < b < asked@.len() implies (#[trigger] asked@[a])@ != (#[trigger] asked@[b])@ by {
                        if b == asked@.len() - 1 {
                            assert(lookup(sb, asked_before[a]@) is Some);
                        }
                    }
                    assert forall|q: Seq<char>|
                        lookup(s0, q) is None && dm.take(i + 1).contains(q) implies exists|k: int|
                            0 <= k < asked@.len() && (#[trigger] asked@[k])@ == q by {
                        if q == q0 {
                            assert(asked@[asked@.len() - 1]@ == q);
                        } else {
                            assert(dm.take(i as int).contains(q)) by {
                                let j = choose|j: int| 0 <= j < i + 1 && #[trigger] dm.take(i + 1)[j] == q;
                                assert(dm.take(i as int)[j] == q);
                            }
                            let k = choose|k: int| 0 <= k < asked_before.len() && (#[trigger] asked_before[k])@ == q;
                            assert(asked@[k] == asked_before[k]);
                        }
                    }
                    assert forall|k: int| 0 <= k < asked@.len() implies lookup(s0, (#[trigger] asked@[k])@) is None
                        && dm.take(i + 1).contains(asked@[k]@) by {
                        if k < asked_before.len() {
                            assert(asked@[k] == asked_before[k]);
                            let j = choose|j: int| 0 <= j < i && #[trigger] dm.take(i as int)[j] == asked@[k]@;
                            assert(dm.take(i + 1)[j] == asked@[k]@);
                        } else {
                            assert(dm.take(i + 1)[i as int] == q0);
                        }
                    }
                }
            } else {
                proof {
                    assert forall|q: Seq<char>|
                        lookup(s0, q) is None && dm.take(i + 1).contains(q) implies exists|k: int|
                            0 <= k < asked@.len() && (#[trigger] asked@[k])@ == q by {
                        let j = choose|j: int| 0 <= j < i + 1 && #[trigger] dm.take(i + 1)[j] == q;
                        if j < i {
                            assert(dm.take(i as int)[j] == q);
                            assert(dm.take(i as int).contains(q));
                        } else {
                            assert(q == q0);
                            assert(lookup(s_before, q0) is Some);
                            if !dm.take(i as int).contains(q) {
                                assert(lookup(s_before, q0) == lookup(s0, q0));
                            }
                        }
                    }
                    assert forall|k: int| 0 <= k < asked@.len() implies lookup(s0, (#[trigger] asked@[k])@) is None
                        && dm.take(i + 1).contains(asked@[k]@) by {
                        let j = choose|j: int| 0 <= j < i && #[trigger] dm.take(i as int)[j] == asked@[k]@;
                        assert(dm.take(i + 1)[j] == asked@[k]@);
                    }
                }
            }
            proof {
                assert forall|q: Seq<char>| #![trigger lookup(self.days@, q)] lookup(self.days@, q)
                    == if lookup(s0, q) is None && dm.take(i + 1).contains(q) {
                    Some(None::<DayPlanningModel>)
                } else {
                    lookup(s0, q)
                } by {
                    if q != q0 {
                        if dm.take(i + 1).contains(q) {
                            let j = choose|j: int| 0 <= j < i + 1 && #[trigger] dm.take(i + 1)[j] == q;
                            assert(dm.take(i as int)[j] == q);
                        }
                        if dm.take(i as int).contains(q) {
                            let j = choose|j: int| 0 <= j < i && #[trigger] dm.take(i as int)[j] == q;
                            assert(dm.take(i + 1)[j] == q);
                        }
                    } else {
                        assert(dm.take(i + 1)[i as int] == q0);
                    }
                }
            }
            i = i + 1;
        }
        assert(dm.take(days@.len() as int) =~= dm);
        asked
    }
}

/// The filter handed over, by its view.
pub open spec fn filter_view(f: Option<Filter>) -> Option<FilterModel> {
    match f {
        Some(f) => Some(f@),
        None => None,
    }
}

/// The days of a calendar as a filtered calendar holds them: with a filter, the same dates,
/// those loaded trimmed by it (see `filtered_model`); with none, everything let through as it is.
pub open spec fn filtered_days(
    s: Seq<(Seq<char>, Option<DayPlanningModel>)>,
    f: Option<FilterModel>,
) -> Seq<(Seq<char>, Option<DayPlanningModel>)> {
    match f {
        Some(f) => s.map_values(load_filter(f)),
        None => s,
    }
}

fn copy_days(days: &StrMap<DayLoad>) -> (r: StrMap<DayLoad>)
    requires
        days.wf(),
        loads_wf(days@),
    ensures
        r.wf(),
        r@ == days@,
{
    let ghost s = days@;
    let mut out: StrMap<DayLoad> = StrMap::new();
    let n = days.len();
    let mut i: usize = 0;
    while i < n
        invariant
            i <= n,
            n == s.len(),
            s == days@,
            loads_wf(s),
            out.wf(),
            out@ == s.take(i as int),
        decreases n - i,
    {
        assert(s.take(i + 1) =~= s.take(i as int).push(s[i as int]));
        let state = match days.value_at(i) {
            DayLoad::Loaded(dp) => {
                assert(s[i as int].1 == Some(dp@));
                DayLoad::Loaded(dp.copy())
            },
            DayLoad::Loading => DayLoad::Loading,
        };
        proof {
            if i > 0 {
                assert(seq_lt(s[i - 1].0, s[i as int].0));
            }
        }
        out.push(days.key_at(i).clone(), state);
        i = i + 1;
    }
    assert(s.take(n as int) =~= s);
    out
}

/// A date kept when the calendar `days` does not hold it.
pub open spec fn not_held(days: Seq<(Seq<char>, Option<DayPlanningModel>)>) -> spec_fn(
    Seq<char>,
) -> Option<Seq<char>> {
    |q: Seq<char>|
        if lookup(days, q) is None {
            Some(q)
        } else {
            None
        }
}

impl Calendar {
    /// The days of `days` that the calendar does not hold, in the order of `days`: those to
    /// fetch. The calendar is left as it is; the plannings fetched for them make a calendar of
    /// their own, which `merge` then brings in.
    pub fn days_to_retrieve(&self, days: &Vec<String>) -> (r: Vec<String>)
        requires
            self.wf(),
        ensures
            r@.map_values(|d: String| d@) == days@.map_values(|d: String| d@).filter_map(
                not_held(self.days@),
            ),
    {
        let ghost dm = days@.map_values(|d: String| d@);
        let ghost f = not_held(self.days@);
        let mut out: Vec<String> = Vec::new();
        let mut i: usize = 0;
        while i < days.len()
            invariant
                i <= days@.len(),
                dm == days@.map_values(|d: String| d@),
                f == not_held(self.days@),
                self.wf(),
                out@.map_values(|d: String| d@) == dm.take(i as int).filter_map(f),
            decreases days@.len() - i,
        {
            assert(dm.take(i + 1).drop_last() =~= dm.take(i as int));
            assert(dm.take(i + 1).last() == days@[i as int]@);
            let ghost before = out@;
            if !self.days.contains_key(days[i].as_str()) {
                out.push(days[i].clone());
                assert(out@.map_values(|d: String| d@) =~= before.map_values(|d: String| d@) + seq![
                    days@[i as int]@,
                ]);
            }
            i = i + 1;
        }
        assert(dm.take(days@.len() as int) =~= dm);
        out
    }
}

impl FilteredCalendar {
    /// The calendar trimmed by `filter`: the same dates, those loaded trimmed (see
    /// `filtered_model`). With no filter, everything is let through.
    pub fn new(calendar: &Calendar, filter: Option<Filter>) -> (r: Self)
        requires
            calendar.wf(),
        ensures
            r.calendar.wf(),
            r.calendar@ == filtered_days(calendar.days@, filter_view(filter)),
    {
        let filter = match filter {
            Some(f) => f,
            None => {
                return FilteredCalendar { calendar: copy_days(&calendar.days) };
            },
        };
        let ghost f = filter@;
        let ghost s = calendar.days@;
        let mut out: StrMap<DayLoad> = StrMap::new();
        let n = calendar.days.len();
        let mut i: usize = 0;
        while i < n
            invariant
                i <= n,
                n == s.len(),
                s == calendar.days@,
                f == filter@,
                loads_wf(s),
                out.wf(),
                out@ == s.take(i as int).map_values(load_filter(f)),
            decreases n - i,
        {
            assert(s.take(i + 1).map_values(load_filter(f)) =~= s.take(i as int).map_values(
                load_filter(f),
            ).push(load_filter(f)(s[i as int])));
            let state = match calendar.days.value_at(i) {
                DayLoad::Loaded(dp) => {
                    assert(s[i as int].1 == Some(dp@));
                    DayLoad::Loaded(dp.filtered(&filter))
                },
                DayLoad::Loading => DayLoad::Loading,
            };
            proof {
                if i > 0 {
                    assert(seq_lt(s[i - 1].0, s[i as int].0));
                }
            }
            out.push(calendar.days.key_at(i).clone(), state);
            i = i + 1;
        }
        assert(s.take(n as int) =~= s);
        FilteredCalendar { calendar: out }
    }

    /// What the calendar shows for `date`: never asked for, loading, loaded with nothing
    /// passing the filter, or loaded with this.
    pub fn get(&self, date: &str) -> (r: CalendarDayState)
        requires
            self.calendar.wf(),
            loads_wf(self.calendar@),
        ensures
            match lookup(self.calendar@, date@) {
                None => r == CalendarDayState::NotLoaded(),
                Some(None) => r == CalendarDayState::Loading(),
                Some(Some(dp)) => if dp.slots.len() == 0 {
                    r == CalendarDayState::NoAvailaibility()
                } else {
                    r matches CalendarDayState::Loaded(x) && x@ == dp
                },
            },
    {
        proof {
            lemma_lookup_sorted(self.calendar@);
        }
        match self.calendar.index_of(date) {
            None => CalendarDayState::NotLoaded(),
            Some(i) => match self.calendar.value_at(i) {
                DayLoad::Loading => CalendarDayState::Loading(),
                DayLoad::Loaded(dp) => {
                    assert(self.calendar@[i as int].1 == Some(dp@));
                    if dp.slots.is_empty() {
                        CalendarDayState::NoAvailaibility()
                    } else {
                        CalendarDayState::Loaded(dp.copy())
                    }
                },
            },
        }
    }

    /// The same as `get`.
    pub fn get_untracked(&self, date: &str) -> (r: CalendarDayState)
        requires
            self.calendar.wf(),
            loads_wf(self.calendar@),
        ensures
            match lookup(self.calendar@, date@) {
                None => r == CalendarDayState::NotLoaded(),
                Some(None) => r == CalendarDayState::Loading(),
                Some(Some(dp)) => if dp.slots.len() == 0 {
                    r == CalendarDayState::NoAvailaibility()
                } else {
                    r matches CalendarDayState::Loaded(x) && x@ == dp
                },
            },
    {
        self.get(date)
    }
}


// ---------------------------------------------------------------- days shown

/// The number of days in a week.
pub const DAYS_PER_WEEK: u8 = 7;

/// The number of weeks the calendar shows at once.
pub const NB_WEEKS_SHOWN: u8 = 4;

/// The number of days the calendar loads at once.
pub const NB_DAYS_PER_BATCH: u8 = DAYS_PER_WEEK * NB_WEEKS_SHOWN;

/// The Monday on or before the day `d`.
pub open spec fn monday_before(d: int) -> int {
    d - crate::dates::weekday_index(d)
}

/// The days shown from the moment `first_day` on: four weeks of seven days, starting on the
/// Monday on or before its day, each at its time of day.
pub fn get_next_days_from(first_day: LocalDateTime) -> (r: Vec<Vec<LocalDateTime>>)
    requires
        MIN_DAY <= monday_before(first_day.date.days_from_ce as int),
        first_day.date.days_from_ce <= MAX_DAY,
        monday_before(first_day.date.days_from_ce as int) + NB_DAYS_PER_BATCH - 1 <= MAX_DAY,
    ensures
        r@.len() == NB_WEEKS_SHOWN,
        forall|w: int|
            0 <= w < r@.len() ==> (#[trigger] r@[w])@.len() == DAYS_PER_WEEK && forall|j: int|
                0 <= j < DAYS_PER_WEEK ==> (#[trigger] r@[w]@[j]).date.days_from_ce
                    == monday_before(first_day.date.days_from_ce as int) + DAYS_PER_WEEK * w + j
                    && r@[w]@[j].time == first_day.time,
{
    let ghost d = first_day.date.days_from_ce as int;
    let since_monday = first_day.date.weekday().num_days_from_monday();
    let first_shown = match sub_days(first_day.date.days_from_ce, since_monday as u64) {
        Some(m) => m,
        None => first_day.date.days_from_ce,
    };
    let time = first_day.time;
    assert(first_shown == monday_before(d));
    let mut weeks: Vec<Vec<LocalDateTime>> = Vec::new();
    let mut w: usize = 0;
    while w < NB_WEEKS_SHOWN as usize
        invariant
            w <= NB_WEEKS_SHOWN,
            first_shown == monday_before(d),
            MIN_DAY <= first_shown,
            first_shown + NB_DAYS_PER_BATCH - 1 <= MAX_DAY,
            weeks@.len() == w,
            time == first_day.time,
            forall|a: int|
                0 <= a < w ==> (#[trigger] weeks@[a])@.len() == DAYS_PER_WEEK && forall|j: int|
                    0 <= j < DAYS_PER_WEEK ==> (#[trigger] weeks@[a]@[j]).date.days_from_ce
                        == first_shown + DAYS_PER_WEEK * a + j && weeks@[a]@[j].time == time,
        decreases NB_WEEKS_SHOWN - w,
    {
        let mut week: Vec<LocalDateTime> = Vec::new();
        let mut j: usize = 0;
        while j < DAYS_PER_WEEK as usize
            invariant
                j <= DAYS_PER_WEEK,
                w < NB_WEEKS_SHOWN,
                MIN_DAY <= first_shown,
                first_shown + NB_DAYS_PER_BATCH - 1 <= MAX_DAY,
                week@.len() == j,
                forall|k: int|
                    0 <= k < j ==> (#[trigger] week@[k]).date.days_from_ce == first_shown
                        + DAYS_PER_WEEK * w + k && week@[k].time == time,
            decreases DAYS_PER_WEEK - j,
        {
            assert(w * 7 <= 21) by (nonlinear_arith)
                requires
                    w < 4,
            ;
            let offset: u64 = (w * 7 + j) as u64;
            let day = match add_days(first_shown, offset) {
                Some(x) => x,
                None => first_shown,
            };
            week.push(LocalDateTime { date: Date { days_from_ce: day }, time });
            j = j + 1;
        }
        weeks.push(week);
        w = w + 1;
    }
    weeks
}

/// The days of the weeks `days`, in order, each written as "YYYY-MM-DD".
pub fn flatten_days(days: &Vec<Vec<LocalDateTime>>) -> (r: Vec<String>)
    requires
        forall|w: int, j: int|
            0 <= w < days@.len() && 0 <= j < days@[w]@.len() ==> MIN_DAY <= (
            #[trigger] days@[w]@[j]).date.days_from_ce <= MAX_DAY,
    ensures
        r@.len() == concat_map(days@, |v: Vec<LocalDateTime>| v@).len(),
        forall|k: int|
            0 <= k < r@.len() ==> Some((#[trigger] r@[k])@) == crate::dates::formatted_date(
                concat_map(days@, |v: Vec<LocalDateTime>| v@)[k].date.days_from_ce,
                DATE_FORMAT@,
            ),
{
    let ghost f = |v: Vec<LocalDateTime>| v@;
    let mut r: Vec<String> = Vec::new();
    let mut w: usize = 0;
    while w < days.len()
        invariant
            w <= days@.len(),
            f == (|v: Vec<LocalDateTime>| v@),
            forall|a: int, j: int|
                0 <= a < days@.len() && 0 <= j < days@[a]@.len() ==> MIN_DAY <= (
                #[trigger] days@[a]@[j]).date.days_from_ce <= MAX_DAY,
            r@.len() == concat_map(days@.take(w as int), f).len(),
            forall|k: int|
                0 <= k < r@.len() ==> Some((#[trigger] r@[k])@) == crate::dates::formatted_date(
                    concat_map(days@.take(w as int), f)[k].date.days_from_ce,
                    DATE_FORMAT@,
                ),
        decreases days@.len() - w,
    {
        let ghost base = concat_map(days@.take(w as int), f);
        proof {
            lemma_concat_map_take(days@, f, w as int);
        }
        let week = &days[w];
        let mut j: usize = 0;
        while j < week.len()
            invariant
                j <= week@.len(),
                w < days@.len(),
                *week == days@[w as int],
                forall|a: int, k: int|
                    0 <= a < days@.len() && 0 <= k < days@[a]@.len() ==> MIN_DAY <= (
                    #[trigger] days@[a]@[k]).date.days_from_ce <= MAX_DAY,
                r@.len() == base.len() + j,
                forall|k: int|
                    0 <= k < r@.len() ==> Some((#[trigger] r@[k])@) == crate::dates::formatted_date(
                        (base + week@)[k].date.days_from_ce,
                        DATE_FORMAT@,
                    ),
            decreases week@.len() - j,
        {
            assert(MIN_DAY <= days@[w as int]@[j as int].date.days_from_ce <= MAX_DAY);
            let text = match format_date(week[j].date.days_from_ce, DATE_FORMAT) {
                Some(t) => t,
                None => String::new(),
            };
            r.push(text);
            j = j + 1;
        }
        assert(concat_map(days@.take(w + 1), f) == base + f(days@[w as int]));
        w = w + 1;
    }
    assert(days@.take(days@.len() as int) =~= days@);
    r
}


// ---------------------------------------------------------------- loading batches

/// The first day of the next batch to load: `today` for an empty calendar, otherwise the day
/// after its last date.
pub open spec fn batch_first(days: Seq<(Seq<char>, Option<DayPlanningModel>)>, today: int) -> int {
    if days.len() == 0 {
        today
    } else {
        parsed_date(days.last().0).unwrap() + 1
    }
}

/// The dates of the batch of `NB_DAYS_PER_BATCH` days starting on the day `first`, written as
/// "YYYY-MM-DD".
pub open spec fn batch_texts(first: int) -> Seq<Seq<char>> {
    Seq::new(
        NB_DAYS_PER_BATCH as nat,
        |i: int| crate::dates::formatted_date((first + i) as i32, DATE_FORMAT@).unwrap(),
    )
}

/// The next batch can be computed: the last date of the calendar reads as a day, and the
/// batch lies within the days chrono holds.
pub open spec fn batch_computable(days: Seq<(Seq<char>, Option<DayPlanningModel>)>, today: int) -> bool {
    &&& days.len() > 0 ==> parsed_date(days.last().0) is Some
    &&& MIN_DAY <= batch_first(days, today)
    &&& batch_first(days, today) + NB_DAYS_PER_BATCH - 1 <= MAX_DAY
}

/// Every date of the calendar reads as a day before the day `first`.
pub open spec fn keys_before(days: Seq<(Seq<char>, Option<DayPlanningModel>)>, first: int) -> bool {
    forall|i: int|
        0 <= i < days.len() ==> (#[trigger] parsed_date(days[i].0)) is Some && parsed_date(
            days[i].0,
        ).unwrap() < first
}

proof fn lemma_same_texts_same_len(a: Seq<Seq<char>>, b: Seq<Seq<char>>)
    requires
        a.no_duplicates(),
        b.no_duplicates(),
        forall|x: Seq<char>| a.contains(x) <==> b.contains(x),
    ensures
        a.len() == b.len(),
{
    a.unique_seq_to_set();
    b.unique_seq_to_set();
    assert(a.to_set() =~= b.to_set());
}

/// What asking for the next batch by the machine's clock leaves (see `Calendar::load_batch`):
/// the days `before` become `after`, `r` being the days asked for. For the day `today` that
/// the clock gave: nothing changes and nothing is given exactly when the batch cannot be
/// computed (see `batch_computable`); otherwise the days of the batch (see `batch_first`,
/// `batch_texts`) not held before are now being loaded, and, when every date held reads as a
/// day before the batch, all of the batch was asked for.
pub open spec fn batch_loaded(
    before: Seq<(Seq<char>, Option<DayPlanningModel>)>,
    after: Seq<(Seq<char>, Option<DayPlanningModel>)>,
    r: Option<Vec<String>>,
) -> bool {
    exists|today: int|
        MIN_DAY <= today <= MAX_DAY && (r is None <==> !#[trigger] batch_computable(before, today))
            && (r is None ==> after == before) && (r is Some ==> (forall|q: Seq<char>|
            #![trigger lookup(after, q)]
            lookup(after, q) == if lookup(before, q) is None && batch_texts(
                batch_first(before, today),
            ).contains(q) {
                Some(None::<DayPlanningModel>)
            } else {
                lookup(before, q)
            }) && (keys_before(before, batch_first(before, today)) ==> r->0@.len()
            == NB_DAYS_PER_BATCH && after.len() == before.len() + NB_DAYS_PER_BATCH))
}

impl Calendar {
    /// Adds the calendar `other`: its days replace those of the same date.
    pub fn merge(&mut self, other: Calendar)
        requires
            old(self).wf(),
            other.wf(),
        ensures
            final(self).wf(),
            forall|q: Seq<char>|
                #![trigger lookup(final(self).days@, q)]
                lookup(final(self).days@, q) == match lookup(other.days@, q) {
                    Some(x) => Some(x),
                    None => lookup(old(self).days@, q),
                },
    {
        let ghost s0 = self.days@;
        let ghost o = other.days@;
        proof {
            lemma_lookup_sorted(o);
        }
        let n = other.days.len();
        let mut i: usize = 0;
        while i < n
            invariant
                i <= n,
                n == o.len(),
                o == other.days@,
                keys_sorted(o),
                loads_wf(o),
                self.wf(),
                forall|q: Seq<char>|
                    #![trigger lookup(self.days@, q)]
                    lookup(self.days@, q) == match lookup(o.take(i as int), q) {
                        Some(x) => Some(x),
                        None => lookup(s0, q),
                    },
            decreases n - i,
        {
            let ghost sb = self.days@;
            let k = other.days.key_at(i).clone();
            assert(load_wf(o[i as int].1));
            match other.days.value_at(i) {
                DayLoad::Loaded(dp) => {
                    assert(o[i as int].1 == Some(dp@));
                    self.set_loaded(k, dp.copy());
                },
                DayLoad::Loading => {
                    self.days.insert(k, DayLoad::Loading);
                    proof {
                        let s1 = self.days@;
                        lemma_lookup_sorted(s1);
                        assert forall|j: int| 0 <= j < s1.len() implies load_wf(#[trigger] s1[j].1) by {
                            assert(lookup(s1, s1[j].0) == Some(s1[j].1));
                            if s1[j].0 != o[i as int].0 {
                                lemma_lookup_sorted(sb);
                                if exists|m: int| 0 <= m < sb.len() && (#[trigger] sb[m]).0 == s1[j].0 {
                                    let m = choose|m: int| 0 <= m < sb.len() && (#[trigger] sb[m]).0 == s1[j].0;
                                    assert(lookup(sb, s1[j].0) == Some(sb[m].1));
                                }
                            }
                        }
                    }
                },
            }
            proof {
                let t = o.take(i as int);
                let t1 = o.take(i + 1);
                assert(t1.drop_last() =~= t);
                assert forall|q: Seq<char>| #![trigger lookup(self.days@, q)] lookup(self.days@, q)
                    == match lookup(t1, q) {
                    Some(x) => Some(x),
                    None => lookup(s0, q),
                } by {
                    assert(t1.last() == o[i as int]);
                }
            }
            i = i + 1;
        }
        assert(o.take(n as int) =~= o);
    }

    /// Asks for the next batch of `NB_DAYS_PER_BATCH` days: from `today` for an empty calendar,
    /// otherwise from the day after its last date. Gives the days it asked for: all of the
    /// batch, the calendar growing by as many, when every date it held reads as a day before
    /// the batch.
    pub fn load_batch_from(&mut self, today: Date) -> (r: Vec<String>)
        requires
            old(self).wf(),
            batch_computable(old(self).days@, today.days_from_ce as int),
        ensures
            final(self).wf(),
            forall|q: Seq<char>|
                #![trigger lookup(final(self).days@, q)]
                lookup(final(self).days@, q) == if lookup(old(self).days@, q) is None && batch_texts(
                    batch_first(old(self).days@, today.days_from_ce as int),
                ).contains(q) {
                    Some(None::<DayPlanningModel>)
                } else {
                    lookup(old(self).days@, q)
                },
            forall|i: int|
                0 <= i < r@.len() ==> lookup(old(self).days@, (#[trigger] r@[i])@) is None
                    && batch_texts(batch_first(old(self).days@, today.days_from_ce as int)).contains(
                    r@[i]@,
                ),
            keys_before(old(self).days@, batch_first(old(self).days@, today.days_from_ce as int))
                ==> r@.len() == NB_DAYS_PER_BATCH && final(self).days@.len() == old(self).days@.len()
                + NB_DAYS_PER_BATCH,
    {
        let ghost s0 = self.days@;
        let ghost first_spec = batch_first(self.days@, today.days_from_ce as int);
        let first = if self.days.is_empty() {
            today.days_from_ce
        } else {
            let last = self.days.key_at(self.days.len() - 1);
            let d = match parse_date(last.as_str()) {
                Some(d) => d,
                None => today.days_from_ce,
            };
            match add_days(d, 1) {
                Some(x) => x,
                None => d,
            }
        };
        assert(first == first_spec);
        let mut dates: Vec<String> = Vec::new();
        let mut i: u64 = 0;
        while i < NB_DAYS_PER_BATCH as u64
            invariant
                i <= NB_DAYS_PER_BATCH,
                first == first_spec,
                MIN_DAY <= first,
                first + NB_DAYS_PER_BATCH - 1 <= MAX_DAY,
                dates@.len() == i,
                forall|k: int|
                    0 <= k < i ==> (#[trigger] dates@[k])@ == batch_texts(first as int)[k]
                        && parsed_date(dates@[k]@) == Some((first + k) as i32),
            decreases NB_DAYS_PER_BATCH - i,
        {
            let day = match add_days(first, i) {
                Some(x) => x,
                None => first,
            };
            let text = match format_date(day, DATE_FORMAT) {
                Some(t) => t,
                None => String::new(),
            };
            dates.push(text);
            i = i + 1;
        }
        let ghost bt = batch_texts(first as int);
        assert(dates@.map_values(|d: String| d@) =~= bt);
        assert(forall|k: int| 0 <= k < NB_DAYS_PER_BATCH ==> parsed_date(#[trigger] bt[k]) == Some(
            (first + k) as i32,
        )) by {
            assert forall|k: int| 0 <= k < NB_DAYS_PER_BATCH implies parsed_date(#[trigger] bt[k])
                == Some((first + k) as i32) by {
                assert(dates@[k]@ == bt[k]);
            }
        }
        let r = self.retrieve(dates);
        proof {
            if keys_before(s0, first as int) {
                lemma_lookup_sorted(s0);
                assert forall|k: int| 0 <= k < bt.len() implies lookup(s0, #[trigger] bt[k]) is None by {
                    assert forall|i: int| 0 <= i < s0.len() implies (#[trigger] s0[i]).0 != bt[k] by {
                        assert(parsed_date(s0[i].0) is Some);
                    }
                }
                assert forall|a: int, b: int| 0 <= a < bt.len() && 0 <= b < bt.len() && a != b implies bt[a]
                    != bt[b] by {
                    assert(parsed_date(bt[a]) == Some((first + a) as i32));
                    assert(parsed_date(bt[b]) == Some((first + b) as i32));
                }
                let rv = r@.map_values(|d: String| d@);
                assert forall|a: int, b: int| 0 <= a < rv.len() && 0 <= b < rv.len() && a != b implies rv[a]
                    != rv[b] by {
                    if a < b {
                        assert(r@[a]@ != r@[b]@);
                    } else {
                        assert(r@[b]@ != r@[a]@);
                    }
                }
                assert forall|x: Seq<char>| rv.contains(x) <==> bt.contains(x) by {
                    if rv.contains(x) {
                        let i = choose|i: int| 0 <= i < rv.len() && rv[i] == x;
                        assert(r@[i]@ == x);
                    }
                    if bt.contains(x) {
                        let k = choose|k: int| 0 <= k < bt.len() && bt[k] == x;
                        assert(lookup(s0, bt[k]) is None);
                        let i = choose|i: int| 0 <= i < r@.len() && (#[trigger] r@[i])@ == x;
                        assert(rv[i] == x);
                    }
                }
                lemma_same_texts_same_len(rv, bt);
            }
        }
        r
    }

    /// Asks for the next batch of days, from today by the machine's clock (see
    /// `load_batch_from`); asks for nothing and gives nothing when the last date of the
    /// calendar does not read as a day or the batch lies beyond the days chrono holds.
    pub fn load_batch(&mut self) -> (r: Option<Vec<String>>)
        requires
            old(self).wf(),
        ensures
            final(self).wf(),
            batch_loaded(old(self).days@, final(self).days@, r),
    {
        let today = local_now().date;
        let first: i64 = if self.days.is_empty() {
            today.days_from_ce as i64
        } else {
            match parse_date(self.days.key_at(self.days.len() - 1).as_str()) {
                Some(d) => d as i64 + 1,
                None => {
                    assert(!batch_computable(self.days@, today.days_from_ce as int));
                    return None;
                },
            }
        };
        if first < MIN_DAY as i64 || first + NB_DAYS_PER_BATCH as i64 - 1 > MAX_DAY as i64 {
            assert(batch_first(self.days@, today.days_from_ce as int) == first);
            assert(!batch_computable(self.days@, today.days_from_ce as int));
            return None;
        }
        assert(batch_computable(self.days@, today.days_from_ce as int));
        Some(self.load_batch_from(today))
    }
}

// ---------------------------------------------------------------- the next free courts

/// A start time of a day at which courts are free, as the list of the next free courts
/// shows it: the day of the week, the date, the start time and the free courts.
pub struct NextCourt {
    pub weekday: String,
    pub date: String,
    pub start: String,
    pub slot: Slot,
}

pub type NextCourtModel = (Seq<char>, Seq<char>, Seq<char>, SlotOfferModel);

impl View for NextCourt {
    type V = NextCourtModel;

    open spec fn view(&self) -> NextCourtModel {
        (self.weekday@, self.date@, self.start@, self.slot@)
    }
}

/// The next free courts found, and the day to load when the walk reached a day never
/// asked for.
pub struct NextCourts {
    pub courts: Vec<NextCourt>,
    pub to_load: Option<String>,
}

pub open spec fn next_courts_model(v: Seq<NextCourt>) -> Seq<NextCourtModel> {
    v.map_values(|c: NextCourt| c@)
}

/// The start times of `slots` at which some court is free, in order, with the day of the
/// week and the date.
pub open spec fn day_courts(
    weekday: Seq<char>,
    date: Seq<char>,
    slots: Seq<(Seq<char>, SlotOfferModel)>,
) -> Seq<NextCourtModel>
    decreases slots.len(),
{
    if slots.len() == 0 {
        Seq::empty()
    } else {
        let p = day_courts(weekday, date, slots.drop_last());
        if slots.last().1.available_courts.len() > 0 {
            p.push((weekday, date, slots.last().0, slots.last().1))
        } else {
            p
        }
    }
}

/// The walk through the days of `cal` from the day `day` on, `found` free start times being
/// already found and `wanted` being wanted. While fewer than `wanted` are found: a day never
/// asked for ends the walk and is to be loaded; a day still loading ends it; a loaded day
/// gives its free start times and the walk goes on with the next day. Nothing when the walk
/// would step past the last day that chrono holds.
pub open spec fn next_courts_walk(
    cal: Seq<(Seq<char>, Option<DayPlanningModel>)>,
    day: int,
    found: nat,
    wanted: nat,
) -> Option<(Seq<NextCourtModel>, Option<Seq<char>>)>
    decreases MAX_DAY + 1 - day,
{
    if found >= wanted {
        Some((Seq::empty(), None))
    } else if day < MIN_DAY || day > MAX_DAY {
        None
    } else {
        let key = formatted_date(day as i32, DATE_FORMAT@).unwrap();
        match lookup(cal, key) {
            None => Some((Seq::empty(), Some(key))),
            Some(None) => Some((Seq::empty(), None)),
            Some(Some(dp)) => if day == MAX_DAY {
                None
            } else {
                let here = day_courts(dp.weekday, key, dp.slots);
                match next_courts_walk(cal, day + 1, found + here.len(), wanted) {
                    Some((rest, to_load)) => Some((here + rest, to_load)),
                    None => None,
                }
            },
        }
    }
}

/// `acc` put before the free start times of `w`.
pub open spec fn after(
    acc: Seq<NextCourtModel>,
    w: Option<(Seq<NextCourtModel>, Option<Seq<char>>)>,
) -> Option<(Seq<NextCourtModel>, Option<Seq<char>>)> {
    match w {
        Some((rest, to_load)) => Some((acc + rest, to_load)),
        None => None,
    }
}

fn push_day_courts(dp: &DayPlanning, date: &String, out: &mut Vec<NextCourt>)
    requires
        dp.slots.wf(),
    ensures
        next_courts_model(final(out)@) == next_courts_model(old(out)@) + day_courts(
            dp.weekday@,
            date@,
            dp.slots@,
        ),
{
    let ghost s = dp.slots@;
    let ghost start = next_courts_model(out@);
    let n = dp.slots.len();
    let mut i: usize = 0;
    while i < n
        invariant
            i <= n,
            n == s.len(),
            s == dp.slots@,
            next_courts_model(out@) == start + day_courts(dp.weekday@, date@, s.take(i as int)),
        decreases n - i,
    {
        assert(s.take(i + 1).drop_last() =~= s.take(i as int));
        assert(s.take(i + 1).last() == s[i as int]);
        let slot = dp.slots.value_at(i);
        if slot.available_courts.len() > 0 {
            let ghost before = out@;
            let court = NextCourt {
                weekday: dp.weekday.clone(),
                date: date.clone(),
                start: dp.slots.key_at(i).clone(),
                slot: slot.clone(),
            };
            out.push(court);
            assert(next_courts_model(out@) =~= next_courts_model(before).push(court@));
        }
        i = i + 1;
    }
    assert(s.take(n as int) =~= s);
}

impl FilteredCalendar {
    /// The next free courts from the day `first_day` on, until `nb_items` free start times
    /// are found (see `next_courts_walk`); nothing when the walk would go past the last day
    /// that chrono holds.
    pub fn next_courts_from(&self, first_day: Date, nb_items: usize) -> (r: Option<NextCourts>)
        requires
            self.calendar.wf(),
            loads_wf(self.calendar@),
            MIN_DAY <= first_day.days_from_ce <= MAX_DAY,
        ensures
            match r {
                Some(nc) => next_courts_walk(
                    self.calendar@,
                    first_day.days_from_ce as int,
                    0,
                    nb_items as nat,
                ) == Some(
                    (
                        next_courts_model(nc.courts@),
                        match nc.to_load {
                            Some(d) => Some(d@),
                            None => None,
                        },
                    ),
                ),
                None => next_courts_walk(
                    self.calendar@,
                    first_day.days_from_ce as int,
                    0,
                    nb_items as nat,
                ) is None,
            },
    {
        let ghost cal = self.calendar@;
        let ghost total = next_courts_walk(cal, first_day.days_from_ce as int, 0, nb_items as nat);
        proof {
            lemma_lookup_sorted(cal);
        }
        let mut out: Vec<NextCourt> = Vec::new();
        let mut day: i32 = first_day.days_from_ce;
        assert(next_courts_model(out@) =~= Seq::<NextCourtModel>::empty());
        assert(after(Seq::empty(), total) == total);
        loop
            invariant
                cal == self.calendar@,
                self.calendar.wf(),
                loads_wf(cal),
                MIN_DAY <= day <= MAX_DAY,
                total == next_courts_walk(cal, first_day.days_from_ce as int, 0, nb_items as nat),
                total == after(
                    next_courts_model(out@),
                    next_courts_walk(cal, day as int, out@.len(), nb_items as nat),
                ),
            decreases MAX_DAY + 1 - day,
        {
            let ghost acc = next_courts_model(out@);
            if out.len() >= nb_items {
                assert(acc + Seq::<NextCourtModel>::empty() =~= acc);
                return Some(NextCourts { courts: out, to_load: None });
            }
            let key = match format_date(day, DATE_FORMAT) {
                Some(k) => k,
                None => String::new(),
            };
            assert(key@ == formatted_date(day, DATE_FORMAT@).unwrap());
            match self.calendar.index_of(key.as_str()) {
                None => {
                    proof {
                        lemma_lookup_absent(cal, key@);
                    }
                    assert(acc + Seq::<NextCourtModel>::empty() =~= acc);
                    return Some(NextCourts { courts: out, to_load: Some(key) });
                },
                Some(i) => match self.calendar.value_at(i) {
                    DayLoad::Loading => {
                        assert(cal[i as int].1 is None);
                        proof {
                            lemma_lookup_at(cal, i as int);
                        }
                        assert(acc + Seq::<NextCourtModel>::empty() =~= acc);
                        return Some(NextCourts { courts: out, to_load: None });
                    },
                    DayLoad::Loaded(dp) => {
                        assert(cal[i as int].1 == Some(dp@));
                        assert(load_wf(cal[i as int].1));
                        proof {
                            lemma_lookup_at(cal, i as int);
                        }
                        assert(lookup(cal, key@) == Some(Some(dp@)));
                        let ghost here = day_courts(dp.weekday@, key@, dp.slots@);
                        push_day_courts(dp, &key, &mut out);
                        assert(next_courts_model(out@).len() == out@.len());
                        assert(acc.len() + here.len() == out@.len());
                        if day == MAX_DAY {
                            return None;
                        }
                        proof {
                            let w = next_courts_walk(cal, day + 1, out@.len(), nb_items as nat);
                            match w {
                                Some((rest, to_load)) => {
                                    assert(acc + (here + rest) =~= (acc + here) + rest);
                                },
                                None => {},
                            }
                        }
                        day = day + 1;
                    },
                },
            }
        }
    }
}

impl FilteredCalendar {
    /// The next free courts from today on, by the machine's clock (see `next_courts_from`).
    pub fn next_courts(&self, nb_items: usize) -> (r: Option<NextCourts>)
        requires
            self.calendar.wf(),
            loads_wf(self.calendar@),
        ensures
            r matches Some(nc) ==> exists|today: int|
                MIN_DAY <= today <= MAX_DAY && #[trigger] next_courts_walk(
                    self.calendar@,
                    today,
                    0,
                    nb_items as nat,
                ) == Some(
                    (
                        next_courts_model(nc.courts@),
                        match nc.to_load {
                            Some(d) => Some(d@),
                            None => None,
                        },
                    ),
                ),
            r is None ==> exists|today: int|
                MIN_DAY <= today <= MAX_DAY && #[trigger] next_courts_walk(
                    self.calendar@,
                    today,
                    0,
                    nb_items as nat,
                ) is None,
    {
        let today = local_now().date;
        self.next_courts_from(today, nb_items)
    }
}

impl DayPlanning {
    /// Whether the calendar shows the day as one without a court to book: no free start
    /// time, or a day that `today` ("YYYY-MM-DD") comes after, as the text of the day
    /// compares with it.
    pub fn shown_unavailable(&self, today: &str) -> (r: bool)
        ensures
            r == (self.slots@.len() == 0 || seq_lt(self.weekday@, today@)),
    {
        self.slots.is_empty() || crate::text::str_lt(self.weekday.as_str(), today)
    }
}

/// The days shown by the page before (`forward` false) or after (`forward` true) the page
/// whose first day is `first_shown`: the weeks from the day 28 days earlier or later (see
/// `get_next_days_from`), at the same time of day; nothing when those days lie beyond the days chrono holds.
pub fn shifted_days(first_shown: LocalDateTime, forward: bool) -> (r: Option<Vec<Vec<LocalDateTime>>>)
    requires
        MIN_DAY <= first_shown.date.days_from_ce <= MAX_DAY,
    ensures
        match r {
            Some(weeks) => {
                let d = if forward {
                    first_shown.date.days_from_ce + NB_DAYS_PER_BATCH
                } else {
                    first_shown.date.days_from_ce - NB_DAYS_PER_BATCH
                };
                &&& MIN_DAY <= monday_before(d) && monday_before(d) + NB_DAYS_PER_BATCH - 1 <= MAX_DAY
                &&& weeks@.len() == NB_WEEKS_SHOWN
                &&& forall|w: int|
                    0 <= w < weeks@.len() ==> (#[trigger] weeks@[w])@.len() == DAYS_PER_WEEK
                        && forall|j: int|
                        0 <= j < DAYS_PER_WEEK ==> (#[trigger] weeks@[w]@[j]).date.days_from_ce
                            == monday_before(d) + DAYS_PER_WEEK * w + j && weeks@[w]@[j].time
                            == first_shown.time
            },
            None => {
                let d = if forward {
                    first_shown.date.days_from_ce + NB_DAYS_PER_BATCH
                } else {
                    first_shown.date.days_from_ce - NB_DAYS_PER_BATCH
                };
                !(MIN_DAY <= d <= MAX_DAY && MIN_DAY <= monday_before(d) && monday_before(d)
                    + NB_DAYS_PER_BATCH - 1 <= MAX_DAY)
            },
        },
{
    let shifted = if forward {
        add_days(first_shown.date.days_from_ce, NB_DAYS_PER_BATCH as u64)
    } else {
        sub_days(first_shown.date.days_from_ce, NB_DAYS_PER_BATCH as u64)
    };
    let d = match shifted {
        Some(d) => d,
        None => {
            return None;
        },
    };
    let day = Date { days_from_ce: d };
    let since_monday = day.weekday().num_days_from_monday();
    let monday = d as i64 - since_monday as i64;
    if monday < MIN_DAY as i64 || monday + NB_DAYS_PER_BATCH as i64 - 1 > MAX_DAY as i64 {
        return None;
    }
    Some(get_next_days_from(LocalDateTime { date: day, time: first_shown.time }))
}

/// Whether moving to the next page asks for a new batch: when the last day shown, at its time,
/// is still to come after `now`, and the calendar does not hold its date.
pub fn should_load_next_batch(calendar: &Calendar, last_shown: LocalDateTime, now: LocalDateTime) -> (r:
    bool)
    requires
        calendar.wf(),
        MIN_DAY <= last_shown.date.days_from_ce <= MAX_DAY,
    ensures
        r == (moment_lt(now, last_shown) && lookup(
            calendar.days@,
            formatted_date(last_shown.date.days_from_ce, DATE_FORMAT@).unwrap(),
        ) is None),
{
    if !now.is_before(&last_shown) {
        return false;
    }
    let key = match format_date(last_shown.date.days_from_ce, DATE_FORMAT) {
        Some(k) => k,
        None => String::new(),
    };
    !calendar.days.contains_key(key.as_str())
}

/// Refreshes what the calendar view shows: when `load_new_batch`, first asks for the next
/// batch of days (see `Calendar::load_batch`), giving the days asked for; then trims the
/// calendar by `filter` (see `FilteredCalendar::new`).
pub fn update_calendar(calendar: &mut Calendar, filter: Option<Filter>, load_new_batch: bool) -> (r: (
    FilteredCalendar,
    Option<Vec<String>>,
))
    requires
        old(calendar).wf(),
    ensures
        final(calendar).wf(),
        !load_new_batch ==> final(calendar).days@ == old(calendar).days@ && r.1 is None,
        load_new_batch ==> batch_loaded(old(calendar).days@, final(calendar).days@, r.1),
        r.0.calendar.wf(),
        r.0.calendar@ == filtered_days(final(calendar).days@, filter_view(filter)),
{
    let asked = if load_new_batch {
        calendar.load_batch()
    } else {
        None
    };
    (FilteredCalendar::new(calendar, filter), asked)
}

} // verus!
