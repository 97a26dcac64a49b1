use chrono::Datelike;
use std::time::Duration;
use viva_padel::availabilities::Availabilities;
use viva_padel::dates::Date;
use viva_padel::legarden::{Court, DayPlanningResponse, Price, Slot};
use viva_padel::services::{
    batch_dates, day_planning_url, next_poll_step, planning_dates, should_poll,
    simple_availabilities, simple_availabilities_from, try_simple_availabilities_from, Calendar, LeGardenServer,
    MockLeGardenService, PollStep, MAX_RETRIES, NB_DAYS_IN_BATCH, RETRY_DELAY_SECS,
};

/// One indoor court, "Padel 1", with one slot at 10:00 whose options last one hour, two
/// hours and an hour and a half.
fn simple_day() -> DayPlanningResponse {
    let mut day = DayPlanningResponse::default();
    let mut court = Court::default();
    court.name = "Padel 1".to_owned();
    court.set_indoor(true);
    let mut slot = Slot::default();
    slot.start_at = "10:00".to_owned();
    for (duration, bookable) in [(3600, true), (7200, false), (5400, true)] {
        let mut price = Price::default();
        price.duration = duration;
        price.set_bookable(bookable);
        slot.prices_mut().push(price);
    }
    court.slots_mut().push(slot);
    day.courts_mut().push(court);
    day
}

fn date_of(y: i32, m: u32, d: u32) -> Date {
    Date { days_from_ce: chrono::NaiveDate::from_ymd_opt(y, m, d).unwrap().num_days_from_ce() }
}

#[test]
fn test_availabilities_iter() {
    let avail = simple_availabilities(4, &simple_day()).unwrap();
    assert_eq!(avail.iter().count(), 4 * 3);
    let expected_duration = [3600, 7200, 5400];
    let mut it = avail.iter();
    let mut i = 0;
    while let Some((_date, court, slot, price)) = it.next() {
        assert_eq!(slot.start_at(), "10:00");
        assert_eq!(court.name(), "Padel 1");
        assert_eq!(price.duration(), expected_duration[i % 3]);
        i += 1;
    }
    assert_eq!(i, 12);
}

#[test]
fn the_planning_url_of_a_day() {
    assert_eq!(
        day_planning_url("2024-10-04"),
        "https://api-v3.doinsport.club/clubs/playgrounds/plannings/2024-10-04?club.id=a126b4d4-a2ee-4f30-bee3-6596368368fb&from=08:00&to=23:00&activities.id=ce8c306e-224a-4f24-aa9d-6500580924dc&bookingType=Unique"
    );
}

#[test]
fn batches_of_consecutive_days() {
    let days = batch_dates(date_of(2024, 12, 30), 4);
    assert_eq!(days, vec![date_of(2024, 12, 30), date_of(2024, 12, 31), date_of(2025, 1, 1), date_of(2025, 1, 2)]);
    let texts = planning_dates(date_of(2024, 12, 30), 3);
    assert_eq!(texts, vec!["2024-12-30".to_string(), "2024-12-31".to_string(), "2025-01-01".to_string()]);
    assert!(batch_dates(date_of(2024, 12, 30), 0).is_empty());
    let polled = LeGardenServer::dates_to_poll(date_of(2024, 1, 1));
    assert_eq!(polled.len() as u64, NB_DAYS_IN_BATCH);
    assert_eq!(polled[89], "2024-03-30");
}

#[test]
fn simple_availabilities_repeat_one_day() {
    let avail = simple_availabilities_from(date_of(2024, 2, 28), 3, &simple_day());
    assert_eq!(avail.len(), 3);
    assert_eq!(avail.date_at(0), "2024-02-28");
    assert_eq!(avail.date_at(1), "2024-02-29");
    assert_eq!(avail.date_at(2), "2024-03-01");
}

#[test]
fn the_mock_answers_in_turn() {
    let mut a = Availabilities::new();
    a.insert("2024-01-01".to_owned(), simple_day());
    let b = Availabilities::new();
    let mut mock = MockLeGardenService::new(vec![a, b], Duration::from_secs(10));
    assert_eq!(mock.get_calendar().len(), 1);
    assert_eq!(mock.get_calendar().len(), 0);
    assert_eq!(mock.get_calendar().len(), 1);
    assert_eq!(mock.index, 3);
    assert_eq!(mock.polling_time(), 0..25);
    assert_eq!(mock.polling_interval(), Duration::from_secs(10));
    // usize::MAX is odd: the second availabilities, then the count of polls wraps around.
    mock.index = usize::MAX;
    assert_eq!(mock.get_calendar().len(), 0);
    assert_eq!(mock.index, 0);
    assert_eq!(mock.get_calendar().len(), 1);
}

#[test]
fn polling_happens_in_the_polling_hours_or_when_empty() {
    assert!(should_poll(8, &(8..22), false));
    assert!(!should_poll(22, &(8..22), false));
    assert!(!should_poll(3, &(8..22), false));
    assert!(should_poll(3, &(8..22), true));
}

#[test]
fn failed_requests_are_retried_three_times() {
    assert_eq!(MAX_RETRIES, 3);
    assert_eq!(next_poll_step(1, true), PollStep::Done);
    assert_eq!(next_poll_step(1, false), PollStep::RetryAfter(RETRY_DELAY_SECS));
    assert_eq!(next_poll_step(2, false), PollStep::RetryAfter(5));
    assert_eq!(next_poll_step(3, false), PollStep::GiveUp);
}

#[test]
fn the_calendar_keeps_the_last_availabilities() {
    let mut cal = Calendar::new();
    assert!(cal.availabilities.is_empty());
    let mut a = Availabilities::new();
    a.insert("2024-01-01".to_owned(), simple_day());
    let previous = cal.update(a, 42);
    assert!(previous.is_empty());
    assert_eq!(cal.timestamp, 42);
    assert_eq!(cal.availabilities.len(), 1);
    let previous = cal.update(Availabilities::new(), 43);
    assert_eq!(previous.len(), 1);
    assert!(cal.availabilities.is_empty());
}

#[test]
fn an_empty_batch_always_fits() {
    assert!(simple_availabilities(0, &simple_day()).unwrap().is_empty());
}

#[test]
fn simple_availabilities_stop_at_the_last_day_chrono_holds() {
    let last = Date { days_from_ce: viva_padel::dates::MAX_DAY };
    assert!(try_simple_availabilities_from(last, 2, &simple_day()).is_none());
    assert_eq!(try_simple_availabilities_from(last, 1, &simple_day()).unwrap().len(), 1);
    let some = try_simple_availabilities_from(date_of(2024, 2, 28), 3, &simple_day()).unwrap();
    assert_eq!(some.len(), 3);
    assert!(some.get("2024-02-29").is_some());
}
