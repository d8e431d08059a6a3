use hoi25::players::{CountryAssignmentResponse, Players};

#[test]
fn free_country_is_assigned() {
    let mut players = Players::new();
    assert_eq!(players.assign_country(100, 1), CountryAssignmentResponse::Success(1));
    assert_eq!(players.0.get(&100), Some(&1));
    assert!(players.may_order(100, 1));
    assert!(!players.may_order(100, 2));
}

#[test]
fn played_country_is_busy() {
    let mut players = Players::new();
    players.assign_country(100, 1);
    assert_eq!(players.assign_country(200, 1), CountryAssignmentResponse::CountryIsBusy);
    assert_eq!(players.0.get(&200), None);
    assert_eq!(players.assign_country(100, 1), CountryAssignmentResponse::CountryIsBusy);
}

#[test]
fn client_can_switch_to_a_free_country() {
    let mut players = Players::new();
    players.assign_country(100, 1);
    assert_eq!(players.assign_country(100, 2), CountryAssignmentResponse::Success(2));
    assert_eq!(players.0.len(), 1);
    assert_eq!(players.assign_country(200, 1), CountryAssignmentResponse::Success(1));
    let mut countries: Vec<u64> = players.0.values().copied().collect();
    countries.sort();
    assert_eq!(countries, vec![1, 2]);
}
