use matchmaking::models::epoch::Epoch;
use matchmaking::services::get_url::{get_url, get_url_params};
use matchmaking::services::get_waiting_users::users_request_url;
use matchmaking::services::post_teams::match_request_url;
use matchmaking::services::test_conn::ping_url;

#[test]
fn url_of_endpoint() {
    assert_eq!(get_url("/ping"), "http://127.0.0.1:8000/ping");
    assert_eq!(ping_url(), "http://127.0.0.1:8000/ping");
}

#[test]
fn url_without_params_is_bare() {
    assert_eq!(get_url_params("/matchmaking/users", vec![]), get_url("/matchmaking/users"));
}

#[test]
fn url_with_one_param() {
    assert_eq!(get_url_params("/x", vec![("a", "1")]), "http://127.0.0.1:8000/x?a=1");
}

#[test]
fn url_with_params_joined() {
    assert_eq!(
        get_url_params("/x", vec![("a", "1"), ("b", "2"), ("c", "")]),
        "http://127.0.0.1:8000/x?a=1&b=2&c="
    );
}

#[test]
fn users_url_defaults_to_nil_epoch() {
    assert_eq!(
        users_request_url("test_3", None),
        "http://127.0.0.1:8000/matchmaking/users?test_name=test_3&epoch=00000000-0000-0000-0000-000000000000"
    );
    let e = Epoch::from(&"abc".to_string());
    assert_eq!(
        users_request_url("test_3", Some(e)),
        "http://127.0.0.1:8000/matchmaking/users?test_name=test_3&epoch=abc"
    );
}

#[test]
fn match_url_names_test_and_epoch() {
    let e = Epoch::from(&"e-1".to_string());
    assert_eq!(
        match_request_url("test_0", &e),
        "http://127.0.0.1:8000/matchmaking/match?test_name=test_0&epoch=e-1"
    );
}
