use chrono::Datelike;
use viva_padel::calendar::{
    default_time_slot, flatten_days, get_next_days_from, remove_filter, shifted_days,
    should_load_next_batch, update_calendar, weekdays_ordered, BookingDuration, Calendar, CalendarDayState, DayPlanning,
    Filter, FilteredCalendar, PadelCourt, Slot,
};
use viva_padel::dates::{Date, LocalDateTime, TimeOfDay};
use viva_padel::legarden::{Court, DayPlanningResponse, Price, Slot as ResponseSlot};
use viva_padel::strmap::StrMap;

fn court9() -> PadelCourt {
    PadelCourt { name: "9".into(), is_indoor: false }
}

fn court1() -> PadelCourt {
    PadelCourt { name: "1".into(), is_indoor: true }
}

fn only_outdoor_slot() -> Slot {
    Slot { available_courts: vec![court9()], duration: BookingDuration::NinetyMin() }
}

fn indoor_and_outdoor_slot() -> Slot {
    Slot { available_courts: vec![court1(), court9()], duration: BookingDuration::NinetyMin() }
}

fn lunch_slot_only_outdoor() -> StrMap<Slot> {
    let mut slots = StrMap::new();
    slots.insert("12:15".into(), only_outdoor_slot());
    slots
}

fn lunch_slots() -> StrMap<Slot> {
    let mut slots = StrMap::new();
    slots.insert("12:15".into(), only_outdoor_slot());
    slots.insert("12:15".into(), indoor_and_outdoor_slot());
    slots
}

fn morning_slots() -> StrMap<Slot> {
    let mut slots = StrMap::new();
    slots.insert("10:15".into(), indoor_and_outdoor_slot());
    slots
}

fn default_calendar() -> Calendar {
    let mut cal = Calendar::new();
    cal.set_loaded("2024-11-13".into(), DayPlanning::new("Mon", StrMap::new()));
    cal.set_loaded("2024-11-14".into(), DayPlanning::new("Tue", morning_slots()));
    cal.set_loaded("2024-11-15".into(), DayPlanning::new("Wed", lunch_slot_only_outdoor()));
    cal.set_loaded("2024-11-16".into(), DayPlanning::new("Thu", lunch_slots()));
    cal.set_loaded("2024-11-19".into(), DayPlanning::new("Sun", lunch_slots()));
    cal
}

fn lunch_filter() -> Filter {
    Filter {
        name: "toto".into(),
        days_of_the_week: vec!["Mon".into(), "Tue".into(), "Wed".into(), "Thu".into(), "Fri".into()],
        start_time_slots: vec![("11:30".into(), "14:00".into())],
        with_outdoor: false,
    }
}

#[test]
fn test_filtered_calendar() {
    let cal = default_calendar();
    let filtered = FilteredCalendar::new(&cal, Some(lunch_filter()));

    assert_eq!(filtered.get("2024-11-12"), CalendarDayState::NotLoaded());
    assert_eq!(filtered.get("2024-11-13"), CalendarDayState::NoAvailaibility());
    assert_eq!(filtered.get("2024-11-14"), CalendarDayState::NoAvailaibility());
    assert_eq!(filtered.get("2024-11-15"), CalendarDayState::NoAvailaibility());
    let day_planning = filtered.get("2024-11-16");
    match day_planning {
        CalendarDayState::Loaded(dp) => {
            assert_eq!(dp.slots.get("12:15").unwrap().available_courts.len(), 1);
        },
        _ => panic!("Wrong result"),
    }
    assert_eq!(filtered.get("2024-11-19"), CalendarDayState::NoAvailaibility());
    assert_eq!(filtered.get("2024-11-20"), CalendarDayState::NotLoaded());
}

#[test]
fn calendar_ui_test_filtered_calendar() {
    let cal = default_calendar();
    let filtered = cal.filtered(&lunch_filter());

    assert!(filtered.get("2024-11-13").unwrap().slots.is_empty());
    assert!(filtered.get("2024-11-14").unwrap().slots.is_empty());
    assert!(filtered.get("2024-11-15").unwrap().slots.get("12:15").unwrap().available_courts.is_empty());
    assert_eq!(filtered.get("2024-11-16").unwrap().slots.get("12:15").unwrap().available_courts.len(), 1);
    assert!(filtered.get("2024-11-19").unwrap().slots.is_empty());
}

#[test]
fn with_no_filter_everything_is_let_through() {
    let mut late = StrMap::new();
    late.insert("22:30".into(), only_outdoor_slot());
    late.insert("08:00".into(), Slot { available_courts: vec![], duration: BookingDuration::NinetyMin() });
    let mut cal = default_calendar();
    cal.set_loaded("2024-11-20".into(), DayPlanning::new("Wed", late));
    let fc = FilteredCalendar::new(&cal, None);
    match fc.get("2024-11-20") {
        CalendarDayState::Loaded(dp) => {
            assert_eq!(dp.slots.len(), 2);
            assert_eq!(dp.slots.get("22:30").unwrap().available_courts, vec![court9()]);
            assert!(dp.slots.get("08:00").unwrap().available_courts.is_empty());
        },
        _ => panic!("Wrong result"),
    }
    assert_eq!(fc.get("2024-11-13"), CalendarDayState::NoAvailaibility());
    // The default filter, handed over, keeps every start time; it drops those left with no
    // court.
    let fc = FilteredCalendar::new(&cal, Some(Filter::default()));
    match fc.get("2024-11-20") {
        CalendarDayState::Loaded(dp) => {
            assert_eq!(dp.slots.len(), 1);
            assert_eq!(dp.slots.get("22:30").unwrap().available_courts, vec![court9()]);
        },
        _ => panic!("Wrong result"),
    }
}

#[test]
fn filtering_twice_is_filtering_once() {
    let filter = lunch_filter();
    let day = DayPlanning::new("Thu", lunch_slots());
    let once = day.filtered(&filter);
    let twice = once.filtered(&filter);
    assert_eq!(once, twice);
    assert_eq!(once.slots.len(), 1);
}

#[test]
fn the_calendar_filtered_keeps_loaded_days_only() {
    let mut cal = default_calendar();
    cal.retrieve(vec!["2024-11-20".into(), "2024-11-13".into()]);
    let filtered = cal.filtered(&lunch_filter());
    assert_eq!(filtered.len(), 5);
    assert!(filtered.get("2024-11-20").is_none());
    assert!(filtered.get("2024-11-13").unwrap().slots.is_empty());
    assert_eq!(filtered.get("2024-11-16").unwrap().slots.get("12:15").unwrap().available_courts.len(), 1);
    let fc = FilteredCalendar::new(&cal, None);
    assert_eq!(fc.get("2024-11-20"), CalendarDayState::Loading());
}

#[test]
fn the_days_to_fetch_are_those_not_held() {
    let cal = default_calendar();
    let to_fetch = cal.days_to_retrieve(&vec!["2024-11-21".into(), "2024-11-13".into(), "2024-11-22".into()]);
    assert_eq!(to_fetch, vec!["2024-11-21".to_string(), "2024-11-22".to_string()]);
    assert_eq!(cal.days.len(), 5);
    let mut fetched = Calendar::new();
    fetched.set_loaded("2024-11-21".into(), DayPlanning::new("Thu", lunch_slots()));
    let mut cal = cal;
    cal.merge(fetched);
    assert_eq!(cal.days.len(), 6);
    assert!(cal.days_to_retrieve(&vec!["2024-11-21".into()]).is_empty());
}

#[test]
fn retrieve_asks_only_for_new_days() {
    let mut cal = default_calendar();
    let asked = cal.retrieve(vec!["2024-11-13".into(), "2024-11-21".into(), "2024-11-21".into()]);
    assert_eq!(asked, vec!["2024-11-21".to_string()]);
    let fc = FilteredCalendar::new(&cal, None);
    assert_eq!(fc.get("2024-11-21"), CalendarDayState::Loading());
}

fn date_of(y: i32, m: u32, d: u32) -> Date {
    Date { days_from_ce: chrono::NaiveDate::from_ymd_opt(y, m, d).unwrap().num_days_from_ce() }
}

fn at(date: Date, h: u32, m: u32) -> LocalDateTime {
    LocalDateTime { date, time: TimeOfDay::from_hms(h, m, 0) }
}

#[test]
fn next_days_start_on_the_monday_before() {
    // 2024-11-14 is a Thursday; the Monday before is 2024-11-11.
    let weeks = get_next_days_from(at(date_of(2024, 11, 14), 18, 30));
    assert_eq!(weeks.len(), 4);
    assert!(weeks.iter().all(|w| w.len() == 7));
    assert_eq!(weeks[0][0], at(date_of(2024, 11, 11), 18, 30));
    assert_eq!(weeks[3][6], at(date_of(2024, 12, 8), 18, 30));
    assert!(weeks.iter().flatten().all(|d| d.time == TimeOfDay::from_hms(18, 30, 0)));
    let texts = flatten_days(&weeks);
    assert_eq!(texts.len(), 28);
    assert_eq!(texts[0], "2024-11-11");
    assert_eq!(texts[27], "2024-12-08");
    // The days before the moment shown are past; the moment itself is not.
    let now = at(date_of(2024, 11, 14), 18, 30);
    assert!(weeks[0][2].is_before(&now));
    assert!(!weeks[0][3].is_before(&now));
    assert!(at(date_of(2024, 11, 14), 9, 0).is_before(&now));
}

#[test]
fn pages_move_by_four_weeks() {
    let next = shifted_days(at(date_of(2024, 11, 11), 7, 5), true).unwrap();
    assert_eq!(next[0][0], at(date_of(2024, 12, 9), 7, 5));
    let previous = shifted_days(at(date_of(2024, 11, 11), 7, 5), false).unwrap();
    assert_eq!(previous[0][0], at(date_of(2024, 10, 14), 7, 5));
}

#[test]
fn next_courts_walk_until_enough_are_found() {
    let cal = default_calendar();
    let filtered = FilteredCalendar::new(&cal, None);
    // From 2024-11-13: no slot, then 10:15, then 12:15, then 12:15; 2024-11-17 was never
    // asked for.
    let found = filtered.next_courts_from(date_of(2024, 11, 13), 2).unwrap();
    assert_eq!(found.courts.len(), 2);
    assert_eq!(found.courts[0].date, "2024-11-14");
    assert_eq!(found.courts[0].weekday, "Tue");
    assert_eq!(found.courts[0].start, "10:15");
    assert_eq!(found.courts[1].date, "2024-11-15");
    assert!(found.to_load.is_none());

    let found = filtered.next_courts_from(date_of(2024, 11, 13), 10).unwrap();
    assert_eq!(found.courts.len(), 3);
    assert_eq!(found.to_load, Some("2024-11-17".to_string()));

    let mut cal = default_calendar();
    cal.retrieve(vec!["2024-11-17".into()]);
    let filtered = FilteredCalendar::new(&cal, None);
    let found = filtered.next_courts_from(date_of(2024, 11, 13), 10).unwrap();
    assert_eq!(found.courts.len(), 3);
    assert!(found.to_load.is_none());
}

#[test]
fn a_day_without_free_start_time_is_shown_unavailable() {
    let empty = DayPlanning::new("Mon", StrMap::new());
    assert!(empty.shown_unavailable("2024-11-13"));
    let day = DayPlanning::new("Thu", lunch_slots());
    assert!(!day.shown_unavailable("2024-11-13"));
    assert!(day.has_slots());
    assert!(!empty.has_slots());
}

#[test]
fn the_default_filter_lets_everything_through() {
    let filter = Filter::default();
    assert_eq!(filter.name, "default");
    assert_eq!(filter.days_of_the_week.len(), 7);
    assert!(filter.with_outdoor);
    for t in ["00:00", "08:00", "09:00", "22:00", "22:30", "23:59"] {
        assert!(filter.lets_time_through(t));
    }
    let filters = Filter::default_filters();
    assert_eq!(filters.len(), 1);
    assert!(filters.get("default").is_some());
}

#[test]
fn booking_durations_in_seconds() {
    assert_eq!(BookingDuration::NinetyMin().seconds(), 5400);
    assert_eq!(BookingDuration::TwoHours().seconds(), 7200);
    assert_eq!(BookingDuration::OneHour().seconds(), 3600);
}

/// A planning answered for 2024-11-14 (a Thursday): two courts; the options of an hour and a
/// half at 12:00 are bookable on both, the one at 13:00 only on the outdoor court.
fn planning_response() -> DayPlanningResponse {
    let mut day = DayPlanningResponse::default();
    day.view.id = "/clubs/playgrounds/plannings/2024-11-14?club.id=abc".to_owned();
    for (name, indoor, bookable_at_one) in [("Padel 1", true, false), ("Padel 9", false, true)] {
        let mut court = Court::default();
        court.name = name.to_owned();
        court.set_indoor(indoor);
        for (start, bookable) in [("12:00", true), ("13:00", bookable_at_one)] {
            let mut slot = ResponseSlot::default();
            slot.start_at = start.to_owned();
            let mut hour = Price::default();
            hour.duration = 3600;
            hour.set_bookable(true);
            let mut ninety = Price::default();
            ninety.duration = 5400;
            ninety.set_bookable(bookable);
            slot.prices_mut().push(hour);
            slot.prices_mut().push(ninety);
            court.slots_mut().push(slot);
        }
        day.courts_mut().push(court);
    }
    day
}

#[test]
fn a_planning_lists_courts_free_for_an_hour_and_a_half() {
    let response = planning_response();
    assert_eq!(response.date(), "2024-11-14");
    let dp = DayPlanning::from_response(&response);
    assert_eq!(dp.weekday, "Thu");
    assert_eq!(dp.slots.len(), 2);
    assert_eq!(dp.slots.get("12:00").unwrap().available_courts.len(), 2);
    assert_eq!(dp.slots.get("13:00").unwrap().available_courts, vec![court("Padel 9", false)]);
    let mut bad = planning_response();
    bad.view.id = "/clubs/playgrounds/plannings/2024-13-45?club.id=abc".to_owned();
    assert!(DayPlanning::try_from_response(&bad).is_none());
}

fn court(name: &str, is_indoor: bool) -> PadelCourt {
    PadelCourt { name: name.into(), is_indoor }
}

#[test]
fn a_filter_built_from_the_form() {
    let weekdays = weekdays_ordered();
    assert_eq!(weekdays, vec!["Mon", "Tue", "Wed", "Thu", "Fri", "Sat", "Sun"]);
    let slot = default_time_slot();
    assert_eq!(slot, (TimeOfDay::from_hms(9, 0, 0), TimeOfDay::from_hms(22, 0, 0)));
    let filter = Filter::from_form(
        "lunch".into(),
        vec!["Mon".into(), "Fri".into()],
        &vec![(TimeOfDay::from_hms(11, 30, 0), TimeOfDay::from_hms(14, 0, 0)), slot],
        false,
    );
    assert_eq!(filter.name, "lunch");
    assert_eq!(filter.days_of_the_week, vec!["Mon", "Fri"]);
    assert_eq!(
        filter.start_time_slots,
        vec![
            ("11:30:00".to_string(), "14:00:00".to_string()),
            ("09:00:00".to_string(), "22:00:00".to_string())
        ]
    );
    assert!(!filter.with_outdoor);
}

#[test]
fn removing_a_filter_makes_the_first_left_active() {
    let mut filters = Filter::default_filters();
    filters.insert("lunch".into(), lunch_filter());
    let active = remove_filter(&mut filters, "lunch").unwrap();
    assert_eq!(active.name, "default");
    assert_eq!(filters.len(), 1);
    assert!(remove_filter(&mut filters, "default").is_none());
    assert!(filters.is_empty());
}

#[test]
fn updating_the_calendar_view_without_a_new_batch() {
    let mut cal = default_calendar();
    let (filtered, asked) = update_calendar(&mut cal, Some(lunch_filter()), false);
    assert!(asked.is_none());
    assert_eq!(filtered.get("2024-11-13"), CalendarDayState::NoAvailaibility());
    assert_eq!(cal.days.len(), 5);
}

#[test]
fn the_next_batch_follows_the_last_date() {
    let mut cal = default_calendar();
    let asked = cal.load_batch().unwrap();
    assert_eq!(asked.len(), 28);
    assert_eq!(asked[0], "2024-11-20");
    assert_eq!(asked[27], "2024-12-17");
    assert_eq!(cal.days.len(), 5 + 28);
    let again = cal.load_batch().unwrap();
    assert_eq!(again[0], "2024-12-18");
    assert_eq!(cal.days.len(), 5 + 28 + 28);
    let mut bad = Calendar::new();
    bad.set_loaded("someday".into(), DayPlanning::new("Mon", StrMap::new()));
    assert!(bad.load_batch().is_none());
}

#[test]
fn updating_the_calendar_view_with_a_new_batch() {
    let mut cal = default_calendar();
    let (filtered, asked) = update_calendar(&mut cal, None, true);
    let asked = asked.unwrap();
    assert_eq!(asked.len(), 28);
    assert_eq!(asked[0], "2024-11-20");
    assert_eq!(cal.days.len(), 5 + 28);
    assert_eq!(filtered.get("2024-11-20"), CalendarDayState::Loading());
    assert_eq!(filtered.get("2024-12-17"), CalendarDayState::Loading());
    assert_eq!(filtered.get("2024-12-18"), CalendarDayState::NotLoaded());
}

#[test]
fn the_next_batch_is_loaded_for_days_to_come_not_held() {
    let cal = default_calendar();
    let now = at(date_of(2024, 11, 14), 10, 0);
    assert!(should_load_next_batch(&cal, at(date_of(2024, 12, 8), 10, 0), now));
    assert!(!should_load_next_batch(&cal, at(date_of(2024, 11, 16), 10, 0), now));
    assert!(!should_load_next_batch(&cal, at(date_of(2024, 11, 10), 10, 0), now));
    // 2024-11-17 is not held: loaded only once it is still to come.
    let now = at(date_of(2024, 11, 17), 10, 0);
    assert!(!should_load_next_batch(&cal, at(date_of(2024, 11, 17), 10, 0), now));
    assert!(should_load_next_batch(&cal, at(date_of(2024, 11, 17), 10, 1), now));
}

#[test]
fn the_last_filter_cannot_be_removed() {
    let mut filters = Filter::default_filters();
    assert!(!Filter::can_remove_filter(&filters));
    filters.insert("lunch".into(), lunch_filter());
    assert!(Filter::can_remove_filter(&filters));
}

#[test]
fn times_in_a_filter_are_written_as_chrono_writes_them() {
    let leap = TimeOfDay { secs: 6 * 3600 + 59 * 60 + 59, nanos: 1_500_000_000 };
    let micro = TimeOfDay { secs: 23 * 3600 + 5, nanos: 1_000 };
    let nano = TimeOfDay { secs: 0, nanos: 123 };
    let filter = Filter::from_form("f".into(), vec![], &vec![(leap, micro), (nano, TimeOfDay::from_hms(9, 7, 0))], true);
    assert_eq!(
        filter.start_time_slots,
        vec![
            ("06:59:60.500".to_string(), "23:00:05.000001".to_string()),
            ("00:00:00.000000123".to_string(), "09:07:00".to_string()),
        ]
    );
}
