//! The plannings that LeGarden's booking server (DoinSport) sends for each day,
//! as the library holds them, with the model each one is viewed as.
use crate::strmap::{lookup, StrMap};
use vstd::prelude::*;
use vstd::string::StringSliceAdditionalSpecFns;
use vstd::utf8::{decode_utf8, encode_utf8, is_char_boundary};

verus! {

// ---------------------------------------------------------------- models

/// What a price option of a slot is.
pub struct PriceModel {
    pub id: Seq<char>,
    pub duration: usize,
    pub price_per_participant: usize,
    pub participant_count: usize,
    pub instalment_amount: Option<()>,
    pub bookable: bool,
}

/// What a bookable start time on a court is.
pub struct SlotModel {
    pub start_at: Seq<char>,
    pub payment_methods: Seq<Seq<char>>,
    pub instalment_percentage: Option<()>,
    pub prices: Seq<PriceModel>,
    pub user_client_step_booking_duration: usize,
}

/// What an activity offered on a court is.
pub struct ActivityModel {
    pub id: Seq<char>,
    pub name: Seq<char>,
    pub slots: Seq<SlotModel>,
}

/// What the opening hours of a court are.
pub struct TimeTableModel {
    pub start_at: Seq<char>,
    pub end_at: Seq<char>,
}

/// What a court is.
pub struct CourtModel {
    pub at_type: Seq<char>,
    pub at_id: Seq<char>,
    pub id: Seq<char>,
    pub name: Seq<char>,
    pub indoor: bool,
    pub surface: Seq<char>,
    pub closures: nat,
    pub activities: Seq<ActivityModel>,
    pub timetables: TimeTableModel,
}

/// What the link to the request that produced a planning is.
pub struct ViewModel {
    pub id: Seq<char>,
    pub at_type: Seq<char>,
}

/// What the planning of one day is.
pub struct DayModel {
    pub context: Seq<char>,
    pub id: Seq<char>,
    pub at_type: Seq<char>,
    pub courts: Seq<CourtModel>,
    pub total_items: usize,
    pub view: ViewModel,
}

pub open spec fn strings_model(v: Seq<String>) -> Seq<Seq<char>> {
    v.map_values(|s: String| s@)
}

pub open spec fn prices_model(v: Seq<Price>) -> Seq<PriceModel> {
    v.map_values(|p: Price| p@)
}

pub open spec fn slots_model(v: Seq<Slot>) -> Seq<SlotModel> {
    v.map_values(|s: Slot| s@)
}

pub open spec fn activities_model(v: Seq<CourtActivity>) -> Seq<ActivityModel> {
    v.map_values(|a: CourtActivity| a@)
}

pub open spec fn courts_model(v: Seq<Court>) -> Seq<CourtModel> {
    v.map_values(|c: Court| c@)
}

/// The slots of a court: those of its first activity.
pub open spec fn court_slots(c: CourtModel) -> Seq<SlotModel> {
    c.activities[0].slots
}

/// `c` with the slots of its first activity replaced by `slots`.
pub open spec fn court_with_slots(c: CourtModel, slots: Seq<SlotModel>) -> CourtModel {
    CourtModel {
        activities: c.activities.update(0, ActivityModel { slots: slots, ..c.activities[0] }),
        ..c
    }
}

/// `s` with its prices replaced by `prices`.
pub open spec fn slot_with_prices(s: SlotModel, prices: Seq<PriceModel>) -> SlotModel {
    SlotModel { prices: prices, ..s }
}

/// `d` with its courts replaced by `courts`.
pub open spec fn day_with_courts(d: DayModel, courts: Seq<CourtModel>) -> DayModel {
    DayModel { courts: courts, ..d }
}

// ---------------------------------------------------------------- types

/// A price option of a slot: a duration and whether it can be booked.
pub struct Price {
    pub id: String,
    pub duration: usize,
    pub price_per_participant: usize,
    pub participant_count: usize,
    pub instalment_amount: Option<()>,
    pub bookable: bool,
}

/// A start time on a court, with its price options.
pub struct Slot {
    pub start_at: String,
    pub payment_methods: Vec<String>,
    pub instalment_percentage: Option<()>,
    pub prices: Vec<Price>,
    pub user_client_step_booking_duration: usize,
}

/// An activity offered on a court, with its slots.
pub struct CourtActivity {
    pub id: String,
    pub name: String,
    pub slots: Vec<Slot>,
}

/// The opening hours of a court.
pub struct TimeTable {
    pub start_at: String,
    pub end_at: String,
}

/// A court; its slots are those of its first activity.
pub struct Court {
    pub at_type: String,
    pub at_id: String,
    pub id: String,
    pub name: String,
    pub indoor: bool,
    pub surface: String,
    pub closures: Vec<()>,
    pub activities: Vec<CourtActivity>,
    pub timetables: TimeTable,
}

/// The name the client side gives to a court of a planning.
pub type PadelCourtResponse = Court;

/// The link to the request that produced a planning.
pub struct HydraView {
    pub id: String,
    pub at_type: String,
}

/// The search template of the booking server's answers.
pub struct Search {
    pub at_type: String,
    pub template: String,
    pub variable_representation: String,
    pub mapping: Vec<Mapping>,
}

/// One variable of a search template.
pub struct Mapping {
    pub at_type: String,
    pub variable: String,
    pub property: String,
    pub required: bool,
}

/// The planning of all courts for one day.
pub struct DayPlanningResponse {
    pub context: String,
    pub id: String,
    pub at_type: String,
    pub courts: Vec<Court>,
    pub total_items: usize,
    pub view: HydraView,
}

/// The name the client side gives to a day's planning.
pub type PlanningResponse = DayPlanningResponse;

impl View for Price {
    type V = PriceModel;

    open spec fn view(&self) -> PriceModel {
        PriceModel {
            id: self.id@,
            duration: self.duration,
            price_per_participant: self.price_per_participant,
            participant_count: self.participant_count,
            instalment_amount: self.instalment_amount,
            bookable: self.bookable,
        }
    }
}

impl View for Slot {
    type V = SlotModel;

    open spec fn view(&self) -> SlotModel {
        SlotModel {
            start_at: self.start_at@,
            payment_methods: strings_model(self.payment_methods@),
            instalment_percentage: self.instalment_percentage,
            prices: prices_model(self.prices@),
            user_client_step_booking_duration: self.user_client_step_booking_duration,
        }
    }
}

impl View for CourtActivity {
    type V = ActivityModel;

    open spec fn view(&self) -> ActivityModel {
        ActivityModel { id: self.id@, name: self.name@, slots: slots_model(self.slots@) }
    }
}

impl View for TimeTable {
    type V = TimeTableModel;

    open spec fn view(&self) -> TimeTableModel {
        TimeTableModel { start_at: self.start_at@, end_at: self.end_at@ }
    }
}

impl View for Court {
    type V = CourtModel;

    open spec fn view(&self) -> CourtModel {
        CourtModel {
            at_type: self.at_type@,
            at_id: self.at_id@,
            id: self.id@,
            name: self.name@,
            indoor: self.indoor,
            surface: self.surface@,
            closures: self.closures@.len(),
            activities: activities_model(self.activities@),
            timetables: self.timetables@,
        }
    }
}

impl View for HydraView {
    type V = ViewModel;

    open spec fn view(&self) -> ViewModel {
        ViewModel { id: self.id@, at_type: self.at_type@ }
    }
}

impl View for DayPlanningResponse {
    type V = DayModel;

    open spec fn view(&self) -> DayModel {
        DayModel {
            context: self.context@,
            id: self.id@,
            at_type: self.at_type@,
            courts: courts_model(self.courts@),
            total_items: self.total_items,
            view: self.view@,
        }
    }
}

// ---------------------------------------------------------------- copies

fn clone_strings(v: &Vec<String>) -> (r: Vec<String>)
    ensures
        strings_model(r@) == strings_model(v@),
{
    let r = v.clone();
    assert(strings_model(r@) =~= strings_model(v@));
    r
}

impl Clone for Price {
    fn clone(&self) -> (r: Self)
        ensures
            r@ == self@,
    {
        Price {
            id: self.id.clone(),
            duration: self.duration,
            price_per_participant: self.price_per_participant,
            participant_count: self.participant_count,
            instalment_amount: self.instalment_amount,
            bookable: self.bookable,
        }
    }
}

fn clone_prices(v: &Vec<Price>) -> (r: Vec<Price>)
    ensures
        prices_model(r@) == prices_model(v@),
{
    let r = v.clone();
    assert(prices_model(r@) =~= prices_model(v@));
    r
}

impl Clone for Slot {
    fn clone(&self) -> (r: Self)
        ensures
            r@ == self@,
    {
        Slot {
            start_at: self.start_at.clone(),
            payment_methods: clone_strings(&self.payment_methods),
            instalment_percentage: self.instalment_percentage,
            prices: clone_prices(&self.prices),
            user_client_step_booking_duration: self.user_client_step_booking_duration,
        }
    }
}

fn clone_slots(v: &Vec<Slot>) -> (r: Vec<Slot>)
    ensures
        slots_model(r@) == slots_model(v@),
{
    let r = v.clone();
    assert(slots_model(r@) =~= slots_model(v@));
    r
}

impl Clone for CourtActivity {
    fn clone(&self) -> (r: Self)
        ensures
            r@ == self@,
    {
        CourtActivity {
            id: self.id.clone(),
            name: self.name.clone(),
            slots: clone_slots(&self.slots),
        }
    }
}

fn clone_activities(v: &Vec<CourtActivity>) -> (r: Vec<CourtActivity>)
    ensures
        activities_model(r@) == activities_model(v@),
{
    let r = v.clone();
    assert(activities_model(r@) =~= activities_model(v@));
    r
}

impl Clone for TimeTable {
    fn clone(&self) -> (r: Self)
        ensures
            r@ == self@,
    {
        TimeTable { start_at: self.start_at.clone(), end_at: self.end_at.clone() }
    }
}

fn clone_closures(v: &Vec<()>) -> (r: Vec<()>)
    ensures
        r@.len() == v@.len(),
{
    let mut r: Vec<()> = Vec::new();
    let mut i: usize = 0;
    while i < v.len()
        invariant
            i <= v@.len(),
            r@.len() == i,
        decreases v@.len() - i,
    {
        r.push(());
        i = i + 1;
    }
    r
}

impl Clone for Court {
    fn clone(&self) -> (r: Self)
        ensures
            r@ == self@,
    {
        Court {
            at_type: self.at_type.clone(),
            at_id: self.at_id.clone(),
            id: self.id.clone(),
            name: self.name.clone(),
            indoor: self.indoor,
            surface: self.surface.clone(),
            closures: clone_closures(&self.closures),
            activities: clone_activities(&self.activities),
            timetables: self.timetables.clone(),
        }
    }
}

impl Clone for HydraView {
    fn clone(&self) -> (r: Self)
        ensures
            r@ == self@,
    {
        HydraView { id: self.id.clone(), at_type: self.at_type.clone() }
    }
}

fn clone_courts(v: &Vec<Court>) -> (r: Vec<Court>)
    ensures
        courts_model(r@) == courts_model(v@),
{
    let r = v.clone();
    assert(courts_model(r@) =~= courts_model(v@));
    r
}

impl Clone for DayPlanningResponse {
    fn clone(&self) -> (r: Self)
        ensures
            r@ == self@,
    {
        DayPlanningResponse {
            context: self.context.clone(),
            id: self.id.clone(),
            at_type: self.at_type.clone(),
            courts: clone_courts(&self.courts),
            total_items: self.total_items,
            view: self.view.clone(),
        }
    }
}


// ---------------------------------------------------------------- defaults

impl Default for Price {
    fn default() -> (r: Self)
        ensures
            r@ == (PriceModel {
                id: Seq::empty(),
                duration: 0,
                price_per_participant: 0,
                participant_count: 0,
                instalment_amount: None,
                bookable: false,
            }),
    {
        Price {
            id: String::new(),
            duration: 0,
            price_per_participant: 0,
            participant_count: 0,
            instalment_amount: None,
            bookable: false,
        }
    }
}

impl Default for Slot {
    fn default() -> (r: Self)
        ensures
            r@ == (SlotModel {
                start_at: Seq::empty(),
                payment_methods: Seq::empty(),
                instalment_percentage: None,
                prices: Seq::empty(),
                user_client_step_booking_duration: 0,
            }),
    {
        let r = Slot {
            start_at: String::new(),
            payment_methods: Vec::new(),
            instalment_percentage: None,
            prices: Vec::new(),
            user_client_step_booking_duration: 0,
        };
        assert(strings_model(r.payment_methods@) =~= Seq::empty());
        assert(prices_model(r.prices@) =~= Seq::empty());
        r
    }
}

impl Default for CourtActivity {
    fn default() -> (r: Self)
        ensures
            r@ == (ActivityModel { id: Seq::empty(), name: Seq::empty(), slots: Seq::empty() }),
    {
        let r = CourtActivity { id: String::new(), name: String::new(), slots: Vec::new() };
        assert(slots_model(r.slots@) =~= Seq::empty());
        r
    }
}

impl Default for TimeTable {
    fn default() -> (r: Self)
        ensures
            r@ == (TimeTableModel { start_at: Seq::empty(), end_at: Seq::empty() }),
    {
        TimeTable { start_at: String::new(), end_at: String::new() }
    }
}

impl Default for HydraView {
    fn default() -> (r: Self)
        ensures
            r@ == (ViewModel { id: Seq::empty(), at_type: Seq::empty() }),
    {
        HydraView { id: String::new(), at_type: String::new() }
    }
}

impl Default for Court {
    /// A court with one empty activity, so that it has a list of slots.
    fn default() -> (r: Self)
        ensures
            r@ == (CourtModel {
                at_type: Seq::empty(),
                at_id: Seq::empty(),
                id: Seq::empty(),
                name: Seq::empty(),
                indoor: false,
                surface: Seq::empty(),
                closures: 0,
                activities: seq![ActivityModel { id: Seq::empty(), name: Seq::empty(), slots: Seq::empty() }],
                timetables: TimeTableModel { start_at: Seq::empty(), end_at: Seq::empty() },
            }),
    {
        let r = Court {
            at_type: String::new(),
            at_id: String::new(),
            id: String::new(),
            name: String::new(),
            indoor: false,
            surface: String::new(),
            closures: Vec::new(),
            activities: vec![CourtActivity::default()],
            timetables: TimeTable::default(),
        };
        assert(activities_model(r.activities@) =~= seq![
            ActivityModel { id: Seq::empty(), name: Seq::empty(), slots: Seq::empty() },
        ]);
        r
    }
}

impl Default for DayPlanningResponse {
    fn default() -> (r: Self)
        ensures
            r@ == (DayModel {
                context: Seq::empty(),
                id: Seq::empty(),
                at_type: Seq::empty(),
                courts: Seq::empty(),
                total_items: 0,
                view: ViewModel { id: Seq::empty(), at_type: Seq::empty() },
            }),
    {
        let r = DayPlanningResponse {
            context: String::new(),
            id: String::new(),
            at_type: String::new(),
            courts: Vec::new(),
            total_items: 0,
            view: HydraView::default(),
        };
        assert(courts_model(r.courts@) =~= Seq::empty());
        r
    }
}

// ---------------------------------------------------------------- accessors

/// The length of the prefix of a planning request's path before its date:
/// "/clubs/playgrounds/plannings/".
pub const PLANNING_PATH_LEN: usize = 29;

/// The length of a date written as "YYYY-MM-DD".
pub const DATE_LEN: usize = 10;

/// The text that `DayPlanningResponse::date` reads from the path `id` of a planning request.
pub open spec fn planning_date_text(id: Seq<char>) -> Seq<char> {
    decode_utf8(encode_utf8(id).subrange(PLANNING_PATH_LEN as int, (PLANNING_PATH_LEN + DATE_LEN) as int))
}

impl DayPlanningResponse {
    /// The courts of the day.
    pub fn courts(&self) -> (r: &Vec<Court>)
        ensures
            *r == self.courts,
    {
        &self.courts
    }

    /// The courts of the day, to change them.
    pub fn courts_mut(&mut self) -> (r: &mut Vec<Court>)
        ensures
            *r == old(self).courts,
            final(self)@ == day_with_courts(old(self)@, courts_model(final(r)@)),
    {
        &mut self.courts
    }

    /// The date of the planning, read from the path of the request that produced it,
    /// which looks like "/clubs/playgrounds/plannings/2024-10-04?club.id=...": the ten
    /// bytes that follow the 29 bytes of "/clubs/playgrounds/plannings/".
    pub fn date(&self) -> (r: &str)
        requires
            is_char_boundary(encode_utf8(self.view.id@), PLANNING_PATH_LEN as int),
            is_char_boundary(encode_utf8(self.view.id@), (PLANNING_PATH_LEN + DATE_LEN) as int),
        ensures
            encode_utf8(r@) == encode_utf8(self.view.id@).subrange(
                PLANNING_PATH_LEN as int,
                (PLANNING_PATH_LEN + DATE_LEN) as int,
            ),
            r@ == planning_date_text(self.view.id@),
    {
        let url = self.view.id.as_str();
        let ghost bytes = encode_utf8(url@);
        proof {
            vstd::utf8::encode_utf8_valid_utf8(url@);
            vstd::utf8::valid_utf8_split(bytes, PLANNING_PATH_LEN as int);
        }
        let (_, rest) = url.split_at(PLANNING_PATH_LEN);
        let ghost rest_bytes = bytes.subrange(PLANNING_PATH_LEN as int, bytes.len() as int);
        assert(rest.spec_bytes() == rest_bytes);
        proof {
            let end = (PLANNING_PATH_LEN + DATE_LEN) as int;
            vstd::utf8::is_char_boundary_start_end_of_seq(rest_bytes);
            if end < bytes.len() {
                vstd::utf8::is_char_boundary_iff_not_is_continuation_byte(bytes, end);
                vstd::utf8::is_char_boundary_iff_not_is_continuation_byte(
                    rest_bytes,
                    DATE_LEN as int,
                );
                assert(rest_bytes[DATE_LEN as int] == bytes[end]);
            } else {
                assert(end == bytes.len()) by {
                    if end > bytes.len() {
                        assert(!is_char_boundary(bytes, end));
                    }
                }
                assert(rest_bytes.len() == DATE_LEN);
            }
        }
        let (date, _) = rest.split_at(DATE_LEN);
        assert(date.spec_bytes() =~= bytes.subrange(
            PLANNING_PATH_LEN as int,
            (PLANNING_PATH_LEN + DATE_LEN) as int,
        ));
        proof {
            vstd::utf8::encode_utf8_decode_utf8(date@);
        }
        date
    }

    /// The date of the planning, read from the path of the request that produced it (the
    /// same as `date`).
    pub fn day(&self) -> (r: &str)
        requires
            is_char_boundary(encode_utf8(self.view.id@), PLANNING_PATH_LEN as int),
            is_char_boundary(encode_utf8(self.view.id@), (PLANNING_PATH_LEN + DATE_LEN) as int),
        ensures
            r@ == planning_date_text(self.view.id@),
    {
        self.date()
    }

    /// The same planning with `courts` in place of its courts.
    pub fn new_with(&self, courts: Vec<Court>) -> (r: Self)
        ensures
            r@ == day_with_courts(self@, courts_model(courts@)),
    {
        DayPlanningResponse {
            context: self.context.clone(),
            id: self.id.clone(),
            at_type: self.at_type.clone(),
            courts,
            total_items: self.total_items,
            view: self.view.clone(),
        }
    }
}

impl Court {
    /// The name of the court.
    pub fn name(&self) -> (r: &str)
        ensures
            r@ == self.name@,
    {
        self.name.as_str()
    }

    /// Whether the court is indoor.
    pub fn is_indoor(&self) -> (r: bool)
        ensures
            r == self.indoor,
    {
        self.indoor
    }

    /// Makes the court indoor or outdoor.
    pub fn set_indoor(&mut self, indoor: bool)
        ensures
            final(self)@ == (CourtModel { indoor: indoor, ..old(self)@ }),
    {
        self.indoor = indoor;
    }

    /// The slots of the court: those of its first activity.
    pub fn slots(&self) -> (r: &Vec<Slot>)
        requires
            self.activities@.len() > 0,
        ensures
            *r == self.activities@[0].slots,
            slots_model(r@) == court_slots(self@),
    {
        &self.activities[0].slots
    }

    /// The slots of the court, to change them.
    pub fn slots_mut(&mut self) -> (r: &mut Vec<Slot>)
        requires
            old(self).activities@.len() > 0,
        ensures
            *r == old(self).activities@[0].slots,
            final(self).activities@ == old(self).activities@.update(
                0,
                CourtActivity { slots: *final(r), ..old(self).activities@[0] },
            ),
            final(self).at_type == old(self).at_type,
            final(self).at_id == old(self).at_id,
            final(self).id == old(self).id,
            final(self).name == old(self).name,
            final(self).indoor == old(self).indoor,
            final(self).surface == old(self).surface,
            final(self).closures == old(self).closures,
            final(self).timetables == old(self).timetables,
    {
        &mut self.activities[0].slots
    }

    /// A copy of the court with `slots` as the slots of its first activity.
    pub fn clone_with(&self, slots: Vec<Slot>) -> (r: Self)
        requires
            self.activities@.len() > 0,
        ensures
            r@ == court_with_slots(self@, slots_model(slots@)),
    {
        let mut new = self.clone();
        let mut activities = clone_activities(&self.activities);
        assert(activities@.len() == self.activities@.len()) by {
            assert(activities_model(activities@).len() == activities_model(self.activities@).len());
        }
        let first = CourtActivity {
            id: self.activities[0].id.clone(),
            name: self.activities[0].name.clone(),
            slots,
        };
        activities.set(0, first);
        new.activities = activities;
        assert(activities_model(new.activities@) =~= self@.activities.update(
            0,
            ActivityModel { slots: slots_model(slots@), ..self@.activities[0] },
        ));
        new
    }
}

impl Slot {
    /// The start time of the slot, as "HH:MM".
    pub fn start_at(&self) -> (r: &str)
        ensures
            r@ == self.start_at@,
    {
        self.start_at.as_str()
    }

    /// The start time of the slot.
    pub fn start_at_mut(&mut self) -> (r: &str)
        ensures
            r@ == old(self).start_at@,
            *final(self) == *old(self),
    {
        self.start_at.as_str()
    }

    /// The price options of the slot.
    pub fn prices(&self) -> (r: &Vec<Price>)
        ensures
            *r == self.prices,
    {
        &self.prices
    }

    /// The price options of the slot, to change them.
    pub fn prices_mut(&mut self) -> (r: &mut Vec<Price>)
        ensures
            *r == old(self).prices,
            final(self)@ == slot_with_prices(old(self)@, prices_model(final(r)@)),
    {
        &mut self.prices
    }

    /// A copy of the slot with `prices` as its price options.
    pub fn clone_with_prices(&self, prices: Vec<Price>) -> (r: Self)
        ensures
            r@ == slot_with_prices(self@, prices_model(prices@)),
    {
        let mut new = self.clone();
        new.prices = prices;
        new
    }

    /// A copy of the slot starting at `start_at`.
    pub fn clone_with_start_at(&self, start_at: String) -> (r: Self)
        ensures
            r@ == (SlotModel { start_at: start_at@, ..self@ }),
    {
        let mut new = self.clone();
        new.start_at = start_at;
        new
    }
}

impl Price {
    /// The duration of the booking, in seconds.
    pub fn duration(&self) -> (r: usize)
        ensures
            r == self.duration,
    {
        self.duration
    }

    /// Whether this option can be booked.
    pub fn bookable(&self) -> (r: bool)
        ensures
            r == self.bookable,
    {
        self.bookable
    }

    /// Makes this option bookable or not.
    pub fn set_bookable(&mut self, bookable: bool)
        ensures
            final(self)@ == (PriceModel { bookable: bookable, ..old(self)@ }),
    {
        self.bookable = bookable;
    }
}

} // verus!
