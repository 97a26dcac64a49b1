use chrono::Datelike;
use viva_padel::availabilities::Availabilities;
use viva_padel::dates::{Date, LocalDateTime, TimeOfDay};
use viva_padel::freed::{
    freed_courts, freed_courts_at, freed_inputs_checkable, is_slot_too_soon_or_already_passed,
    try_freed_courts_at,
};
use viva_padel::legarden::{Court, DayPlanningResponse, PadelCourtResponse, Price, Slot};

fn day_number(y: i32, m: u32, d: u32) -> i32 {
    chrono::NaiveDate::from_ymd_opt(y, m, d).unwrap().num_days_from_ce()
}

fn at(y: i32, m: u32, d: u32, h: u32, min: u32) -> LocalDateTime {
    LocalDateTime {
        date: Date { days_from_ce: day_number(y, m, d) },
        time: TimeOfDay { secs: h * 3600 + min * 60, nanos: 0 },
    }
}

/// A day with one court whose slots start at the given times, one option of 90 minutes each.
fn day_with_slots(starts: &[&str], bookable: bool) -> DayPlanningResponse {
    let mut day = DayPlanningResponse::default();
    let mut court = Court::default();
    for start in starts {
        let mut price = Price::default();
        price.duration = 5400;
        price.set_bookable(bookable);
        let mut slot = Slot::default();
        slot.start_at = start.to_string();
        slot.prices_mut().push(price);
        court.slots_mut().push(slot);
    }
    day.courts_mut().push(court);
    day
}

fn count(avail: &Availabilities) -> usize {
    avail.iter().count()
}

#[test]
fn pull_data_from_garden_freed_courts_correct_simple() {
    let mut old_day = DayPlanningResponse::default();
    let mut new_day = DayPlanningResponse::default();

    let mut old_price = Price::default();
    old_price.set_bookable(false);
    let mut old_slot = Slot::default();
    let mut old_court = PadelCourtResponse::default();

    let mut new_price = Price::default();
    new_price.set_bookable(true);
    let mut new_slot = Slot::default();
    let mut new_court = PadelCourtResponse::default();

    old_slot.prices_mut().push(old_price);
    old_court.slots_mut().push(old_slot);
    old_day.courts_mut().push(old_court);

    new_slot.prices_mut().push(new_price);
    new_court.slots_mut().push(new_slot);
    new_day.courts_mut().push(new_court);

    let mut old_cal = Availabilities::new();
    let mut new_cal = Availabilities::new();
    old_cal.insert("toto".to_owned(), old_day);
    new_cal.insert("toto".to_owned(), new_day);

    let freed = freed_courts(&new_cal, &old_cal);
    assert_eq!(freed.len(), 1);
}

#[test]
fn nothing_is_freed_between_equal_availabilities() {
    let mut avail = Availabilities::new();
    avail.insert("2024-06-10".to_owned(), day_with_slots(&["10:00", "12:00"], false));
    avail.insert("2024-06-11".to_owned(), day_with_slots(&["10:00"], true));
    let freed = freed_courts(&avail, &avail.clone());
    assert!(freed.is_empty());
}

#[test]
fn freed_options_are_the_new_bookable_ones() {
    let mut old = Availabilities::new();
    let mut new = Availabilities::new();
    old.insert("2024-06-10".to_owned(), day_with_slots(&["10:00", "12:00", "14:00"], false));
    let mut day = day_with_slots(&["10:00", "12:00", "14:00"], false);
    day.courts_mut()[0].slots_mut()[1].prices_mut()[0].set_bookable(true);
    new.insert("2024-06-10".to_owned(), day);
    let freed = freed_courts(&new, &old);
    assert_eq!(freed.len(), 1);
    assert_eq!(count(&freed), 1);
    let mut it = freed.iter();
    let (date, court, slot, price) = it.next().unwrap();
    assert_eq!(date, "2024-06-10");
    assert_eq!(court.slots().len(), 1);
    assert_eq!(slot.start_at(), "12:00");
    assert!(price.bookable());
    assert!(it.next().is_none());
}

#[test]
fn a_day_missing_from_the_new_availabilities_frees_nothing() {
    let mut old = Availabilities::new();
    let mut new = Availabilities::new();
    old.insert("2024-06-10".to_owned(), day_with_slots(&["10:00"], false));
    new.insert("2024-06-11".to_owned(), day_with_slots(&["10:00"], true));
    assert!(freed_courts(&new, &old).is_empty());
}

#[test]
fn slots_too_soon_are_not_notified() {
    let mut old = Availabilities::new();
    let mut new = Availabilities::new();
    let starts = ["09:00", "11:00", "13:00"];
    old.insert("2024-06-10".to_owned(), day_with_slots(&starts, false));
    new.insert("2024-06-10".to_owned(), day_with_slots(&starts, true));
    old.insert("2024-06-11".to_owned(), day_with_slots(&starts, false));
    new.insert("2024-06-11".to_owned(), day_with_slots(&starts, true));
    old.insert("2024-06-09".to_owned(), day_with_slots(&starts, false));
    new.insert("2024-06-09".to_owned(), day_with_slots(&starts, true));

    // At 10:30 on June 10: 09:00 has passed, 11:00 is 30 minutes away, 13:00 counts;
    // every slot of June 11 counts; none of June 9.
    let now = at(2024, 6, 10, 10, 30);
    let freed = freed_courts_at(&new, &old, &now);
    assert_eq!(count(&freed), 4);
    assert_eq!(freed.len(), 2);
    assert!(freed.get("2024-06-09").is_none());
    assert_eq!(freed.get("2024-06-10").unwrap().courts()[0].slots()[0].start_at(), "13:00");
}

#[test]
fn the_threshold_is_one_hour() {
    let slot = {
        let mut s = Slot::default();
        s.start_at = "12:00".to_owned();
        s
    };
    assert!(!is_slot_too_soon_or_already_passed(&at(2024, 6, 10, 11, 0), "2024-06-10", &slot, 60));
    assert!(is_slot_too_soon_or_already_passed(&at(2024, 6, 10, 11, 1), "2024-06-10", &slot, 60));
    assert!(is_slot_too_soon_or_already_passed(&at(2024, 6, 10, 13, 0), "2024-06-10", &slot, 60));
    assert!(!is_slot_too_soon_or_already_passed(&at(2024, 6, 9, 23, 0), "2024-06-10", &slot, 60));
}

#[test]
fn unreadable_start_times_are_refused_with_a_clock() {
    let mut old = Availabilities::new();
    let mut new = Availabilities::new();
    old.insert("2024-06-10".to_owned(), day_with_slots(&["ten"], false));
    new.insert("2024-06-10".to_owned(), day_with_slots(&["ten"], true));
    let now = at(2024, 6, 10, 8, 0);
    assert!(!freed_inputs_checkable(&new, &old, Some(now)));
    assert!(try_freed_courts_at(&new, &old, &now).is_none());
    assert!(freed_inputs_checkable(&new, &old, None));
    assert_eq!(count(&freed_courts(&new, &old)), 1);
}

/// Four days of availabilities, each court with its slots and price options. The first
/// `flipped` options, in date, court, slot and option order, are not bookable in the old
/// availabilities (`new` false) and bookable in the new ones (`new` true); the others are the
/// same on both sides.
fn four_days(flipped: usize, new: bool) -> Availabilities {
    let mut avail = Availabilities::new();
    let mut position = 0;
    for (d, date) in ["2024-06-10", "2024-06-11", "2024-06-12", "2024-06-13"].iter().enumerate() {
        let mut day = DayPlanningResponse::default();
        for c in 0..(1 + d % 3) {
            let mut court = Court::default();
            court.name = format!("Padel {}", c + 1);
            court.set_indoor(c % 2 == 0);
            for s in 0..(2 + (d + c) % 2) {
                let mut slot = Slot::default();
                slot.start_at = format!("{:02}:00", 9 + s);
                for (p, duration) in [3600, 5400, 7200].iter().enumerate() {
                    let mut price = Price::default();
                    price.duration = *duration;
                    let bookable = if position < flipped { new } else { (d + c + s + p) % 2 == 0 };
                    price.set_bookable(bookable);
                    slot.prices_mut().push(price);
                    position += 1;
                }
                court.slots_mut().push(slot);
            }
            day.courts_mut().push(court);
        }
        avail.insert(date.to_string(), day);
    }
    avail
}

fn bookable_prices(avail: &Availabilities) -> usize {
    let mut n = 0;
    let mut it = avail.iter();
    while let Some((_, _, _, price)) = it.next() {
        if price.bookable() {
            n += 1;
        }
    }
    n
}

#[test]
fn pull_data_from_garden_freed_courts_correct() {
    let old = four_days(0, false);
    let new = four_days(0, true);
    assert!(freed_courts(&new, &old).is_empty());

    let total = count(&old);
    assert!(total > 20);
    for counter in 1..=total {
        let old = four_days(counter, false);
        let new = four_days(counter, true);
        let avail = freed_courts(&new, &old);
        assert_eq!(bookable_prices(&avail), counter);
        assert_eq!(count(&avail), counter);
    }
}
