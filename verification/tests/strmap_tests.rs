use viva_padel::availabilities::Availabilities;
use viva_padel::legarden::{Court, DayPlanningResponse};
use viva_padel::strmap::StrMap;

#[test]
fn a_map_keeps_its_keys_in_order() {
    let mut m: StrMap<Availabilities> = StrMap::new();
    m.insert("b".into(), Availabilities::new());
    m.insert("a".into(), Availabilities::new());
    m.insert("c".into(), Availabilities::new());
    m.insert("a".into(), Availabilities::new());
    assert_eq!(m.len(), 3);
    assert_eq!(m.key_at(0), "a");
    assert_eq!(m.key_at(2), "c");
    assert!(m.keys_in_order());
    assert_eq!(m.index_of("b"), Some(1));
    assert!(m.remove("b").is_some());
    assert!(m.remove("b").is_none());
    assert_eq!(m.len(), 2);
    assert!(m.get("b").is_none());
    assert!(m.contains_key("c"));
}

#[test]
fn availabilities_can_be_checked_at_run_time() {
    let mut a = Availabilities::new();
    let mut day = DayPlanningResponse::default();
    day.courts_mut().push(Court::default());
    a.insert("2024-01-02".into(), day);
    assert!(a.is_well_formed());
    assert!(a.all_courts_have_slots());
    let mut bare = DayPlanningResponse::default();
    let mut court = Court::default();
    court.activities.clear();
    bare.courts_mut().push(court);
    a.insert("2024-01-03".into(), bare);
    assert!(!a.all_courts_have_slots());
    assert_eq!(a.first().unwrap().0, "2024-01-02");
}
