use chrono::Datelike;
use viva_padel::alarm::{Alarm, CourtType};
use viva_padel::availabilities::Availabilities;
use viva_padel::dates::{Date, LocalDateTime, TimeOfDay};
use viva_padel::legarden::{Court, DayPlanningResponse, Price, Slot};
use viva_padel::notify::{
    alarm_targets_by_user_at, browser_devices, group_alarms_by_user, message_from_availabilities, mobile_tokens,
    notification_for, targets_by_alarm, targets_by_alarm_on, try_message_from_availabilities,
    try_notification_for, Device, NotifInfo, SubscriptionInfo, SubscriptionKeys,
    FREED_COURTS_TITLE,
};
use viva_padel::strmap::StrMap;

fn day(starts: &[&str], indoor: bool) -> DayPlanningResponse {
    let mut day = DayPlanningResponse::default();
    let mut court = Court::default();
    court.name = "Padel 1".to_owned();
    court.set_indoor(indoor);
    for start in starts {
        let mut slot = Slot::default();
        slot.start_at = start.to_string();
        for duration in [3600, 5400] {
            let mut price = Price::default();
            price.duration = duration;
            price.set_bookable(true);
            slot.prices_mut().push(price);
        }
        court.slots_mut().push(slot);
    }
    day.courts_mut().push(court);
    day
}

fn date_of(y: i32, m: u32, d: u32) -> Date {
    Date { days_from_ce: chrono::NaiveDate::from_ymd_opt(y, m, d).unwrap().num_days_from_ce() }
}

fn alarm(name: &str, court_type: CourtType, from: u32, to: u32) -> Alarm {
    Alarm {
        name: name.to_owned(),
        court_type,
        time_range: (TimeOfDay::from_hms(from, 0, 0), TimeOfDay::from_hms(to, 0, 0)),
        ..Default::default()
    }
}

#[test]
fn the_message_has_one_line_per_start_time() {
    // 2024-06-10 is a Monday, 2024-06-15 a Saturday.
    let mut a = Availabilities::new();
    a.insert("2024-06-10".to_owned(), day(&["10:00", "18:30"], true));
    let mut b = Availabilities::new();
    b.insert("2024-06-15".to_owned(), day(&["09:00"], true));
    let message = message_from_availabilities(&vec![a, b]);
    assert_eq!(message, "Lun 10/06 à 10:00\nLun 10/06 à 18:30\nSam 15/06 à 09:00");
}

#[test]
fn an_empty_message_for_nothing() {
    assert_eq!(message_from_availabilities(&vec![]), "");
    assert_eq!(message_from_availabilities(&vec![Availabilities::new()]), "");
}

#[test]
fn unreadable_dates_give_no_message() {
    let mut a = Availabilities::new();
    a.insert("someday".to_owned(), day(&["10:00"], true));
    assert!(try_message_from_availabilities(&vec![a]).is_none());
    let mut b = Availabilities::new();
    b.insert("someday".to_owned(), DayPlanningResponse::default());
    assert_eq!(try_message_from_availabilities(&vec![b]), Some(String::new()));
}

#[test]
fn alarms_are_grouped_by_user_in_order() {
    let alarms = vec![
        (7u128, alarm("a", CourtType::Both, 0, 23)),
        (3u128, alarm("b", CourtType::Both, 0, 23)),
        (7u128, alarm("c", CourtType::Both, 0, 23)),
    ];
    let groups = group_alarms_by_user(alarms);
    assert_eq!(groups.len(), 2);
    assert_eq!(groups[0].0, 7);
    assert_eq!(groups[0].1.iter().map(|a| a.name.clone()).collect::<Vec<_>>(), vec!["a", "c"]);
    assert_eq!(groups[1].0, 3);
    assert_eq!(groups[1].1.len(), 1);
    assert!(group_alarms_by_user(vec![]).is_empty());
}

#[test]
fn each_alarm_targets_its_courts() {
    let mut freed = Availabilities::new();
    freed.insert("2024-06-10".to_owned(), day(&["10:00", "18:30"], true));
    let alarms = vec![
        alarm("Morning Indoor", CourtType::Indoor, 9, 12),
        alarm("Evening Outdoor", CourtType::Outdoor, 17, 22),
        alarm("Morning Indoor", CourtType::Indoor, 18, 19),
    ];
    let targets = targets_by_alarm_on(&alarms, &freed, date_of(2024, 6, 10));
    assert_eq!(targets.len(), 2);
    // The later alarm of a name counts.
    let morning = targets.get("Morning Indoor").unwrap();
    assert_eq!(morning.len(), 1);
    assert_eq!(morning.day_at(0).courts()[0].slots()[0].start_at(), "18:30");
    assert!(targets.get("Evening Outdoor").unwrap().is_empty());

    let checked = targets_by_alarm(&alarms, &freed, date_of(2024, 6, 10)).unwrap();
    assert_eq!(checked.len(), 2);
}

#[test]
fn a_notification_needs_a_device_and_something_to_tell() {
    let mut freed = Availabilities::new();
    freed.insert("2024-06-10".to_owned(), day(&["10:00"], true));
    let mut per_alarm: StrMap<Availabilities> = StrMap::new();
    per_alarm.insert("Morning".to_owned(), freed);
    per_alarm.insert("Evening".to_owned(), Availabilities::new());

    assert!(notification_for(false, &per_alarm).is_none());
    let n = notification_for(true, &per_alarm).unwrap();
    assert_eq!(n.title, FREED_COURTS_TITLE);
    assert_eq!(n.title, "Courts libérés! 🎾");
    assert_eq!(n.body, "Lun 10/06 à 10:00");
    assert_eq!(n.alarm_names, vec!["Evening".to_string(), "Morning".to_string()]);

    let mut nothing: StrMap<Availabilities> = StrMap::new();
    nothing.insert("Evening".to_owned(), Availabilities::new());
    assert!(notification_for(true, &nothing).is_none());
    assert!(try_notification_for(true, &nothing).unwrap().is_none());
}

fn browser(id: &str) -> Device {
    Device::new_browser(
        id,
        SubscriptionInfo {
            endpoint: format!("https://push.example/{id}"),
            keys: SubscriptionKeys { p256dh: "key".to_owned(), auth: "auth".to_owned() },
        },
    )
}

#[test]
fn devices_are_split_into_mobiles_and_browsers() {
    let devices = vec![
        Device::new_mobile("phone", "token-1"),
        browser("laptop"),
        Device::new_mobile("tablet", "token-2"),
    ];
    assert!(devices[0].is_mobile());
    assert!(!devices[1].is_mobile());
    assert!(matches!(&devices[0].notif_info, NotifInfo::Mobile(t) if t == "token-1"));
    assert_eq!(mobile_tokens(&devices), vec!["token-1".to_string(), "token-2".to_string()]);
    let browsers = browser_devices(&devices);
    assert_eq!(browsers.len(), 1);
    assert_eq!(browsers[0].device_id, "laptop");
}

#[test]
fn repeated_lines_are_told_once() {
    let mut a = Availabilities::new();
    a.insert("2024-06-10".to_owned(), day(&["10:00"], true));
    let mut b = Availabilities::new();
    b.insert("2024-06-10".to_owned(), day(&["10:00", "11:00"], true));
    // Each slot has two options: the same line comes twice in a row and is told once.
    let message = message_from_availabilities(&vec![a, b]);
    assert_eq!(message, "Lun 10/06 à 10:00\nLun 10/06 à 11:00");
}

fn all_booked(starts: &[&str]) -> DayPlanningResponse {
    let mut d = day(starts, true);
    for slot in d.courts_mut()[0].slots_mut().iter_mut() {
        for price in slot.prices_mut().iter_mut() {
            price.set_bookable(false);
        }
    }
    d
}

#[test]
fn users_are_told_of_what_their_alarms_target_in_the_freed_courts() {
    // Tomorrow's courts at 10:00 and 18:30 get freed; each slot has two options.
    let mut old = Availabilities::new();
    let mut new = Availabilities::new();
    old.insert("2024-06-11".to_owned(), all_booked(&["10:00", "18:30"]));
    new.insert("2024-06-11".to_owned(), day(&["10:00", "18:30"], true));
    let now = LocalDateTime { date: date_of(2024, 6, 10), time: TimeOfDay::from_hms(12, 0, 0) };
    let alarms = vec![
        (1u128, alarm("Morning Indoor", CourtType::Indoor, 9, 12)),
        (2u128, alarm("Evening", CourtType::Both, 17, 22)),
        (1u128, alarm("Outdoor", CourtType::Outdoor, 0, 23)),
    ];
    let targets = alarm_targets_by_user_at(&new, &old, alarms, &now).unwrap();
    assert_eq!(targets.len(), 2);
    assert_eq!(targets[0].0, 1);
    let morning = targets[0].1.get("Morning Indoor").unwrap();
    assert_eq!(morning.iter().count(), 2);
    assert!(targets[0].1.get("Outdoor").unwrap().is_empty());
    assert_eq!(targets[1].0, 2);
    assert_eq!(targets[1].1.get("Evening").unwrap().day_at(0).courts()[0].slots()[0].start_at(), "18:30");

    // Nothing freed: nobody is told of anything.
    let alarms = vec![(1u128, alarm("Morning Indoor", CourtType::Indoor, 9, 12))];
    assert!(alarm_targets_by_user_at(&old, &old, alarms, &now).unwrap().is_empty());
}
