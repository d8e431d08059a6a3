use hoi25::client::{cancel_selection, select_division, AppState, ClientSession};
use hoi25::players::CountryAssignmentResponse;

#[test]
fn session_goes_through_lobby_to_game() {
    let mut s = ClientSession::new();
    assert_eq!(s.state, AppState::ConnectingMenu);
    assert_eq!(s.playing_country, None);
    s.connected();
    assert_eq!(s.state, AppState::Lobby);
    assert!(s.assignment_response(CountryAssignmentResponse::CountryIsBusy));
    assert_eq!(s.state, AppState::Lobby);
    assert_eq!(s.playing_country, None);
    assert!(!s.assignment_response(CountryAssignmentResponse::Success(42)));
    assert_eq!(s.state, AppState::Game);
    assert_eq!(s.playing_country, Some(42));
}

#[test]
fn clicking_selects() {
    let sel = vec![1, 2];
    assert_eq!(select_division(&sel, 3, true, false), vec![3]);
    assert_eq!(select_division(&sel, 3, true, true), vec![1, 2, 3]);
    assert_eq!(select_division(&sel, 2, true, true), vec![1, 2]);
    assert_eq!(select_division(&sel, 3, false, false), vec![1, 2]);
}

#[test]
fn escape_cancels_a_single_selection() {
    assert!(cancel_selection(&vec![7], true));
    assert!(!cancel_selection(&vec![7], false));
    assert!(!cancel_selection(&vec![7, 8], true));
    assert!(!cancel_selection(&vec![], true));
}
