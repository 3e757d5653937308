use matchmaking::constants::{MAX_PING_ATTEMPTS, PLAYERS_PER_MATCH, TEAM_SIZE};
use matchmaking::models::epoch::{Epoch, NIL_EPOCH};
use matchmaking::models::submit::SubmitTeamsResponse;
use matchmaking::models::user::User;
use matchmaking::services::epoch::{Epoch as PlainEpoch, RepresentableEpoch};
use matchmaking::services::get_waiting_users::{users_from_outcome, FetchOutcome};
use matchmaking::services::post_teams::submit_result;
use matchmaking::services::schedule::{next_round, test_name_from_int};
use matchmaking::services::test_conn::{after_ping, PingStep};

#[test]
fn new_epoch_is_nil_uuid() {
    assert_eq!(Epoch::new().content, "00000000-0000-0000-0000-000000000000");
    assert_eq!(Epoch::new().to_string(), NIL_EPOCH);
    assert_eq!(PlainEpoch::new().repr(), NIL_EPOCH);
}

#[test]
fn epoch_from_text() {
    let s = "1b4e28ba-2fa1-11d2-883f-0016d3cca427".to_string();
    assert_eq!(Epoch::from(&s).content, s);
    assert_eq!(Epoch::from(&s).to_string(), s);
    assert_eq!(PlainEpoch::from(&s).repr(), s);
}

#[test]
fn test_names() {
    assert_eq!(test_name_from_int(0), "test_0");
    assert_eq!(test_name_from_int(7), "test_7");
    assert_eq!(test_name_from_int(19), "test_19");
    assert_eq!(test_name_from_int(4294967295), "test_4294967295");
    assert_ne!(test_name_from_int(1), test_name_from_int(10));
}

#[test]
fn rounds_go_on_until_the_last() {
    let e = Epoch::from(&"next".to_string());
    assert_eq!(next_round((e.clone(), false)).unwrap().content, "next");
    assert!(next_round((e, true)).is_none());
}

#[test]
fn failed_fetch_gives_no_users() {
    assert!(users_from_outcome(FetchOutcome::SendFailed).is_empty());
    assert!(users_from_outcome(FetchOutcome::ErrorStatus).is_empty());
    assert!(users_from_outcome(FetchOutcome::ParseFailed).is_empty());
    let u = User { mmr: 5, roles: vec![], user_id: 9, waiting_time: 3 };
    let got = users_from_outcome(FetchOutcome::Parsed(vec![u]));
    assert_eq!(got.len(), 1);
    assert_eq!(got[0].user_id, 9);
}

#[test]
fn submit_answer_or_fresh_epoch() {
    let (e, last) = submit_result(FetchOutcome::SendFailed);
    assert_eq!(e.content, NIL_EPOCH);
    assert!(!last);
    let answer = SubmitTeamsResponse { new_epoch: Epoch::from(&"z".to_string()), is_last_epoch: true };
    let (e, last) = submit_result(FetchOutcome::Parsed(answer));
    assert_eq!(e.content, "z");
    assert!(last);
}

#[test]
fn pings_stop_after_ten() {
    assert!(after_ping(1, true) == PingStep::Succeeded);
    assert!(after_ping(1, false) == PingStep::RetryAfterPause);
    assert!(after_ping(MAX_PING_ATTEMPTS - 1, false) == PingStep::RetryAfterPause);
    assert!(after_ping(MAX_PING_ATTEMPTS, false) == PingStep::GiveUpAfterPause);
    assert!(after_ping(MAX_PING_ATTEMPTS, true) == PingStep::Succeeded);
    // a run of pings where only the fourth is answered
    let replies = [false, false, false, true, false, false, false, false, false, false];
    let mut made = 0;
    let mut reached = false;
    for attempt in 1..=MAX_PING_ATTEMPTS {
        made = attempt;
        match after_ping(attempt, replies[(attempt - 1) as usize]) {
            PingStep::Succeeded => {
                reached = true;
                break;
            }
            PingStep::RetryAfterPause => {}
            PingStep::GiveUpAfterPause => break,
        }
    }
    assert_eq!(made, 4);
    assert!(reached);
}

#[test]
fn match_size() {
    assert_eq!(PLAYERS_PER_MATCH, 2 * TEAM_SIZE);
}
