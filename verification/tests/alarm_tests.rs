use chrono::{Datelike, Duration, Local};
use viva_padel::alarm::{Alarm, CourtType};
use viva_padel::availabilities::Availabilities;
use viva_padel::dates::{Date, TimeOfDay, Weekday, DATE_FORMAT};
use viva_padel::legarden::{Court, DayPlanningResponse, Price, Slot};

/// One indoor court, "Padel 1", with one slot at 10:00 whose options last one hour (bookable),
/// two hours (not bookable) and an hour and a half (bookable).
fn simple_day() -> DayPlanningResponse {
    let mut day = DayPlanningResponse::default();
    let mut court = Court::default();
    court.name = "Padel 1".to_owned();
    court.set_indoor(true);
    let mut slot = Slot::default();
    slot.start_at = "10:00".to_owned();
    for (duration, bookable) in [(3600, true), (7200, false), (5400, true)] {
        let mut price = Price::default();
        price.duration = duration;
        price.set_bookable(bookable);
        slot.prices_mut().push(price);
    }
    court.slots_mut().push(slot);
    day.courts_mut().push(court);
    day
}

fn setup_test_availabilities() -> Availabilities {
    let today = Local::now().date_naive();
    let monday_next_week =
        today + Duration::days((7 - today.weekday().num_days_from_monday() as i64) % 7);
    let tuesday_next_week = monday_next_week + Duration::days(1);
    let monday_in_2_weeks = monday_next_week + Duration::weeks(1);
    let monday_in_5_weeks = monday_next_week + Duration::weeks(4);

    let dates = [
        today.format(DATE_FORMAT).to_string(),
        monday_next_week.format(DATE_FORMAT).to_string(),
        tuesday_next_week.format(DATE_FORMAT).to_string(),
        monday_in_2_weeks.format(DATE_FORMAT).to_string(),
        monday_in_5_weeks.format(DATE_FORMAT).to_string(),
    ];

    let simple_day = simple_day();
    let mut avail = Availabilities::new();
    for (i, date) in dates.into_iter().enumerate() {
        let mut day = simple_day.clone();
        if i == 1 {
            let slots = day.courts_mut().first_mut().unwrap().slots_mut();
            let new_slot = Slot::clone_with_start_at(slots.first().unwrap(), "14:00".to_owned());
            slots.push(new_slot);
        }
        if i == 3 {
            day.courts_mut().first_mut().unwrap().set_indoor(false);
        }
        avail.insert(date, day);
    }
    avail
}

fn weekday_of_text(date: &str) -> chrono::Weekday {
    chrono::NaiveDate::parse_from_str(date, DATE_FORMAT).unwrap().weekday()
}

#[test]
fn test_filter_by_weekday() {
    let avail = setup_test_availabilities();
    let alarm = Alarm { days_of_the_week: vec![Weekday::Tue], weeks_ahead: 5, ..Default::default() };

    let result = alarm.target_availabilities(avail).unwrap();
    assert_eq!(result.len(), 1, "Should only find availabilities for Tuesday");

    let (date, _) = result.first().unwrap();
    assert_eq!(
        weekday_of_text(date),
        chrono::Weekday::Tue,
        "The resulting key should be the Tuesday date"
    );
}

#[test]
fn test_filter_by_weeks_ahead() {
    let avail = setup_test_availabilities();
    let alarm = Alarm { weeks_ahead: 2, ..Default::default() };

    let result = alarm.target_availabilities(avail).unwrap();
    let expected_result = if Local::now().date_naive().weekday() == chrono::Weekday::Mon {
        3
    } else {
        4
    };
    assert_eq!(result.len(), expected_result, "Should find 4 days within the next 2 weeks");
}

#[test]
fn test_filter_by_time_range() {
    let avail = setup_test_availabilities();
    let alarm = Alarm {
        time_range: (TimeOfDay::from_hms(13, 0, 0), TimeOfDay::from_hms(15, 0, 0)),
        weeks_ahead: 5,
        ..Default::default()
    };

    let result = alarm.target_availabilities(avail).unwrap();
    assert_eq!(result.len(), 1, "Should only find one day with matching slots");

    let day = result.day_at(0);
    assert_eq!(day.courts().len(), 1, "Should be one court with a matching slot");
    assert_eq!(day.courts()[0].slots().len(), 1, "Should be one matching slot");
}

#[test]
fn test_filter_by_court_type() {
    let avail = setup_test_availabilities();
    let alarm = Alarm { court_type: CourtType::Outdoor, weeks_ahead: 5, ..Default::default() };

    let result = alarm.target_availabilities(avail).unwrap();
    assert_eq!(result.len(), 1, "Should only find one day with an outdoor court");
    let day = result.day_at(0);
    assert_eq!(day.courts().len(), 1, "Should only be one outdoor court");
    assert!(!day.courts()[0].is_indoor());
}

#[test]
fn test_combined_filters() {
    let avail = setup_test_availabilities();
    let alarm = Alarm {
        days_of_the_week: vec![Weekday::Mon],
        weeks_ahead: 3,
        court_type: CourtType::Outdoor,
        time_range: (TimeOfDay::from_hms(9, 0, 0), TimeOfDay::from_hms(11, 0, 0)),
        slot_durations: vec![5400, 7200],
        ..Default::default()
    };

    let result = alarm.target_availabilities(avail).unwrap();
    assert_eq!(result.len(), 1, "Should be exactly one day matching all criteria");
    let day = result.day_at(0);
    assert_eq!(day.courts().len(), 1, "Should be one court");
    assert!(!day.courts()[0].is_indoor(), "Court should be outdoor");
    assert_eq!(day.courts()[0].slots().len(), 1, "Should be one slot");
    assert!(day.courts()[0].slots()[0].start_at().contains("10:00"));
    assert!(day.courts()[0].slots()[0].prices().len() == 1);
}

#[test]
fn test_no_matches() {
    let avail = setup_test_availabilities();
    let alarm = Alarm {
        time_range: (TimeOfDay::from_hms(1, 0, 0), TimeOfDay::from_hms(2, 0, 0)),
        weeks_ahead: 5,
        ..Default::default()
    };

    let result = alarm.target_availabilities(avail).unwrap();
    assert!(result.is_empty(), "Result should be empty when no slots match");
}

fn date_of(y: i32, m: u32, d: u32) -> Date {
    Date { days_from_ce: chrono::NaiveDate::from_ymd_opt(y, m, d).unwrap().num_days_from_ce() }
}

#[test]
fn target_on_a_given_day_keeps_wanted_options_only() {
    // 2024-06-10 is a Monday.
    let mut avail = Availabilities::new();
    avail.insert("2024-06-09".to_owned(), simple_day());
    avail.insert("2024-06-10".to_owned(), simple_day());
    avail.insert("2024-06-17".to_owned(), simple_day());
    avail.insert("2024-06-18".to_owned(), simple_day());
    avail.insert("not a date".to_owned(), simple_day());
    let alarm = Alarm {
        days_of_the_week: vec![Weekday::Mon],
        weeks_ahead: 1,
        slot_durations: vec![5400],
        ..Default::default()
    };
    let today = date_of(2024, 6, 10);
    let result = alarm.target_availabilities_on(&avail, today);
    assert_eq!(result.len(), 2);
    assert_eq!(result.date_at(0), "2024-06-10");
    assert_eq!(result.date_at(1), "2024-06-17");
    let prices = result.day_at(0).courts()[0].slots()[0].prices();
    assert_eq!(prices.len(), 1);
    assert_eq!(prices[0].duration(), 5400);
    assert!(prices[0].bookable());
}

#[test]
fn the_end_of_the_time_range_is_left_out() {
    let mut avail = Availabilities::new();
    avail.insert("2024-06-10".to_owned(), simple_day());
    let alarm = Alarm {
        time_range: (TimeOfDay::from_hms(9, 0, 0), TimeOfDay::from_hms(10, 0, 0)),
        ..Default::default()
    };
    assert!(alarm.target_availabilities_on(&avail, date_of(2024, 6, 10)).is_empty());
    let alarm = Alarm {
        time_range: (TimeOfDay::from_hms(10, 0, 0), TimeOfDay::from_hms(10, 0, 1)),
        ..Default::default()
    };
    assert_eq!(alarm.target_availabilities_on(&avail, date_of(2024, 6, 10)).len(), 1);
}

#[test]
fn unreadable_start_times_are_reported() {
    let mut day = simple_day();
    day.courts_mut()[0].slots_mut()[0].start_at = "noon".to_owned();
    let mut avail = Availabilities::new();
    avail.insert("2024-06-10".to_owned(), day);
    let alarm = Alarm::default();
    assert!(!alarm.target_inputs_checkable(&avail, date_of(2024, 6, 10)));
    // A day out of the alarm's weeks is not read.
    assert!(alarm.target_inputs_checkable(&avail, date_of(2024, 7, 10)));
}

#[test]
fn the_default_alarm_is_every_day_all_day() {
    let alarm = Alarm::default();
    assert_eq!(alarm.name, "Default Alarm");
    assert_eq!(alarm.days_of_the_week.len(), 7);
    assert_eq!(alarm.time_range.1, TimeOfDay::from_hms(23, 59, 59));
    assert_eq!(alarm.court_type, CourtType::Both);
    assert_eq!(alarm.weeks_ahead, 1);
    assert!(alarm.is_active);
    assert_eq!(alarm.slot_durations, vec![3600, 5400, 7200]);
}

fn items_of(avail: &Availabilities) -> Vec<(String, String, String, usize, bool)> {
    let mut out = Vec::new();
    let mut it = avail.iter();
    while let Some((date, court, slot, price)) = it.next() {
        out.push((date.clone(), court.name().to_owned(), slot.start_at().to_owned(), price.duration(), price.bookable()));
    }
    out
}

#[test]
fn targeting_twice_gives_what_targeting_once_gave() {
    let mut avail = Availabilities::new();
    avail.insert("2024-06-10".to_owned(), simple_day());
    avail.insert("2024-06-11".to_owned(), simple_day());
    avail.insert("2024-06-17".to_owned(), simple_day());
    let alarm = Alarm {
        days_of_the_week: vec![Weekday::Mon, Weekday::Tue],
        weeks_ahead: 1,
        slot_durations: vec![3600, 5400],
        ..Default::default()
    };
    let today = date_of(2024, 6, 10);
    let once = alarm.target_availabilities_on(&avail, today);
    let twice = alarm.target_availabilities_on(&once, today);
    assert_eq!(once.len(), 3);
    assert_eq!(items_of(&once).len(), 6);
    assert_eq!(items_of(&once), items_of(&twice));
}
