use timebank::api::{record_create, record_search, SearchForm};
use timebank::gate::{check_admin_token_error_count, derive_client_ip, AppState, GateError};
use timebank::record::Record;
use timebank::store::SlotStore;

fn secret() -> String {
    "admin_token".to_string()
}

fn client() -> String {
    "1.2.3.4".to_string()
}

#[test]
fn correct_token_passes_and_counts_nothing() {
    let mut state = AppState::new();
    let token = secret();
    for _ in 0..5 {
        let r = check_admin_token_error_count(&mut state, &client(), Some(&token), &secret());
        assert_eq!(r, Ok(()));
    }
    assert_eq!(state.ip_to_admin_token_error_count_map.len(), 0);
}

#[test]
fn missing_token_is_refused_and_counted() {
    let mut state = AppState::new();
    let r = check_admin_token_error_count(&mut state, &client(), None, &secret());
    assert_eq!(r, Err(GateError::AuthMissing));
    assert_eq!(state.ip_to_admin_token_error_count_map, vec![(client(), 1)]);
}

#[test]
fn wrong_token_is_refused_and_counted() {
    let mut state = AppState::new();
    let wrong = "Admin_Token".to_string();
    let r = check_admin_token_error_count(&mut state, &client(), Some(&wrong), &secret());
    assert_eq!(r, Err(GateError::AuthInvalid));
    assert_eq!(state.ip_to_admin_token_error_count_map, vec![(client(), 1)]);
}

#[test]
fn three_failures_ban_despite_a_later_correct_token() {
    let mut state = AppState::new();
    let wrong = "nope".to_string();
    let token = secret();
    assert_eq!(
        check_admin_token_error_count(&mut state, &client(), None, &secret()),
        Err(GateError::AuthMissing)
    );
    assert_eq!(
        check_admin_token_error_count(&mut state, &client(), Some(&wrong), &secret()),
        Err(GateError::AuthInvalid)
    );
    assert_eq!(
        check_admin_token_error_count(&mut state, &client(), Some(&wrong), &secret()),
        Err(GateError::AuthInvalid)
    );
    // Fourth attempt with the correct token: still refused.
    let r = check_admin_token_error_count(&mut state, &client(), Some(&token), &secret());
    assert_eq!(r, Err(GateError::Banned));
    // The ban does not grow the count further.
    assert_eq!(state.ip_to_admin_token_error_count_map, vec![(client(), 3)]);
}

#[test]
fn strikes_are_counted_per_client() {
    let mut state = AppState::new();
    let other = "5.6.7.8".to_string();
    let token = secret();
    for _ in 0..3 {
        check_admin_token_error_count(&mut state, &client(), None, &secret()).unwrap_err();
    }
    assert_eq!(
        check_admin_token_error_count(&mut state, &client(), Some(&token), &secret()),
        Err(GateError::Banned)
    );
    assert_eq!(
        check_admin_token_error_count(&mut state, &other, Some(&token), &secret()),
        Ok(())
    );
}

#[test]
fn gate_outcomes_map_to_status_and_message() {
    let ip = client();
    assert_eq!(GateError::Banned.status_code(), 403);
    assert_eq!(GateError::AuthMissing.status_code(), 400);
    assert_eq!(GateError::AuthInvalid.status_code(), 400);
    assert_eq!(GateError::Banned.message(&ip), "This ip has been banned: 1.2.3.4");
    assert_eq!(GateError::AuthMissing.message(&ip), "admin_token missing");
    assert_eq!(GateError::AuthInvalid.message(&ip), "admin_token invalid");
}

#[test]
fn client_ip_prefers_the_forwarded_value() {
    let forwarded = "9.9.9.9".to_string();
    let peer = "10.0.0.1".to_string();
    assert_eq!(derive_client_ip(Some(&forwarded), &peer), "9.9.9.9");
    assert_eq!(derive_client_ip(None, &peer), "10.0.0.1");
}

fn interval(date: &str, begin: u32, end: u32) -> Record {
    Record {
        date: date.to_string(),
        time_index_begin: begin,
        time_index_end: end,
        type_str: "work".to_string(),
        remark: "x".to_string(),
    }
}

#[test]
fn create_passes_the_gate_then_stores_the_expansion() {
    let mut state = AppState::new();
    let mut store = SlotStore::new();
    let token = secret();
    let r = record_create(
        &mut state,
        &mut store,
        &client(),
        Some(&token),
        &secret(),
        &interval("2024-01-01", 18, 21),
    );
    let records = r.unwrap();
    assert_eq!(records.len(), 3);
    assert_eq!(store.get_record_list().len(), 3);
    // Re-creating the same interval stores nothing new.
    let r = record_create(
        &mut state,
        &mut store,
        &client(),
        Some(&token),
        &secret(),
        &interval("2024-01-01", 18, 21),
    );
    assert_eq!(r.unwrap().len(), 3);
    assert_eq!(store.get_record_list().len(), 3);
}

#[test]
fn create_from_a_banned_client_stores_nothing() {
    let mut state = AppState::new();
    let mut store = SlotStore::new();
    let token = secret();
    for _ in 0..3 {
        check_admin_token_error_count(&mut state, &client(), None, &secret()).unwrap_err();
    }
    let r = record_create(
        &mut state,
        &mut store,
        &client(),
        Some(&token),
        &secret(),
        &interval("2024-01-01", 18, 21),
    );
    assert_eq!(r, Err(GateError::Banned));
    assert_eq!(store.get_record_list().len(), 0);
}

#[test]
fn search_endpoint_filters_by_the_form_range() {
    let mut state = AppState::new();
    let mut store = SlotStore::new();
    let token = secret();
    record_create(
        &mut state,
        &mut store,
        &client(),
        Some(&token),
        &secret(),
        &interval("2024-01-01", 18, 20),
    )
    .unwrap();
    record_create(
        &mut state,
        &mut store,
        &client(),
        Some(&token),
        &secret(),
        &interval("2024-01-03", 10, 11),
    )
    .unwrap();
    let form = SearchForm {
        date_begin: "2024-01-01".to_string(),
        date_end: "2024-01-02".to_string(),
    };
    let rows = record_search(&store, &form);
    assert_eq!(rows.len(), 2);
    assert!(rows.iter().all(|r| r.date == "2024-01-01"));
    assert_eq!(rows[0].time_index_end, 20);
    assert_eq!(rows[1].time_index_end, 19);
}
