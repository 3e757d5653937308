use std::collections::HashMap;

use matchmaking::models::submit::{Match, Team, TeamResponse, UserRole};
use matchmaking::models::user::User;
use matchmaking::services::determine_teams::{
    calc_skill_delta_by_role, calc_team_delta, determine, get_median, users_to_data,
};

/// The median as a floating-point number, from twice its value.
fn as_f64(doubled: Option<u128>) -> f64 {
    match doubled {
        Some(d) => d as f64 / 2.0,
        None => f64::NAN,
    }
}

fn user(id: u128, mmr: u64) -> User {
    User { mmr, roles: vec!["top".to_string()], user_id: id, waiting_time: 0 }
}

fn role(id: u128, role: &str) -> UserRole {
    UserRole { id, role: role.to_string() }
}

fn side(name: &str, users: Vec<UserRole>) -> TeamResponse {
    TeamResponse { side: name.to_string(), users }
}

#[test]
fn test_get_median() {
    assert_eq!(as_f64(get_median(vec![1, 2, 3])), 2f64);
    assert_eq!(as_f64(get_median(vec![1, 2, 3, 4])), 2.5);
    assert_eq!(as_f64(get_median(vec![3, 2, 1, 4])), 2.5);
}

#[test]
fn median_of_nothing_is_none() {
    assert_eq!(get_median(vec![]), None);
    assert!(as_f64(get_median(vec![])).is_nan());
}

#[test]
fn median_is_given_twice_over() {
    assert_eq!(get_median(vec![7]), Some(14));
    assert_eq!(get_median(vec![10, 1, 4]), Some(8));
    assert_eq!(get_median(vec![u64::MAX, u64::MAX]), Some(2 * u64::MAX as u128));
}

#[test]
fn median_ignores_order() {
    assert_eq!(get_median(vec![5, 1, 9, 3]), get_median(vec![9, 3, 1, 5]));
}

#[test]
fn median_within_range() {
    let d = get_median(vec![4, 100, 6, 5]).unwrap();
    assert!(2 * 4 <= d && d <= 2 * 100);
    assert_eq!(d, 11);
}

#[test]
fn users_keyed_by_id_last_wins() {
    let data = users_to_data(vec![user(1, 10), user(2, 20), user(1, 30)]);
    assert_eq!(data.len(), 2);
    assert_eq!(data[&1].mmr, 30);
    assert_eq!(data[&2].mmr, 20);
    assert!(!data.contains_key(&3));
}

fn waiting(id: u128, mmr: u64, wait: u32, roles: &[&str]) -> User {
    User { mmr, roles: roles.iter().map(|r| r.to_string()).collect(), user_id: id, waiting_time: wait }
}

#[test]
fn determine_needs_ten_players() {
    let few: Vec<User> = (0..9).map(|i| user(i, 10 * i as u64)).collect();
    assert!(determine(few).is_empty());
}

#[test]
fn determine_forms_one_match_of_ten() {
    let users: Vec<User> = (0..10).map(|i| waiting(i, 100 * i as u64, 5, &["mid", "top"])).collect();
    let matches = determine(users);
    assert_eq!(matches.len(), 1);
    let m = &matches[0];
    assert_eq!(m.match_id, "match_0");
    assert_eq!(m.teams.len(), 2);
    assert_eq!(m.teams[0].side, "radiant");
    assert_eq!(m.teams[1].side, "dire");
    assert_eq!(m.teams[0].users.len(), 5);
    assert_eq!(m.teams[1].users.len(), 5);
    // ranked by rating: ids 9, 8, ..., 0; neighbouring ranks meet in a role
    let first: Vec<u128> = m.teams[0].users.iter().map(|u| u.id).collect();
    let second: Vec<u128> = m.teams[1].users.iter().map(|u| u.id).collect();
    assert_eq!(first, vec![9, 7, 5, 3, 1]);
    assert_eq!(second, vec![8, 6, 4, 2, 0]);
    let roles: Vec<String> = m.teams[0].users.iter().map(|u| u.role.clone()).collect();
    assert_eq!(roles, vec!["mid", "top", "carry", "offlane", "soft_support"]);
    for k in 0..5 {
        assert_eq!(m.teams[0].users[k].role, m.teams[1].users[k].role);
    }
}

#[test]
fn determine_prefers_longest_waiting() {
    let mut users: Vec<User> = (0..12).map(|i| waiting(i, 50, i as u32, &[])).collect();
    users.push(waiting(100, 50, 0, &[]));
    let matches = determine(users);
    assert_eq!(matches.len(), 1);
    let mut ids: Vec<u128> = matches[0].teams.iter().flat_map(|t| t.users.iter().map(|u| u.id)).collect();
    ids.sort();
    assert_eq!(ids, vec![2, 3, 4, 5, 6, 7, 8, 9, 10, 11]);
}

#[test]
fn determine_places_each_id_once() {
    let mut users: Vec<User> = (0..19).map(|i| user(i, i as u64)).collect();
    users.push(user(3, 1000));
    users.push(user(4, 1000));
    let matches = determine(users);
    assert_eq!(matches.len(), 1);
    let users: Vec<User> = (0..25).map(|i| user(i, i as u64)).collect();
    let matches = determine(users);
    assert_eq!(matches.len(), 2);
    let mut ids: Vec<u128> = matches
        .iter()
        .flat_map(|m| m.teams.iter().flat_map(|t| t.users.iter().map(|u| u.id)))
        .collect();
    assert_eq!(ids.len(), 20);
    ids.sort();
    ids.dedup();
    assert_eq!(ids.len(), 20);
    assert!(ids.iter().all(|id| *id < 25));
}

#[test]
fn get_copies_the_player() {
    let data = users_to_data(vec![user(7, 1234)]);
    let u = role(7, "mid").get(&data);
    assert_eq!(u.user_id, 7);
    assert_eq!(u.mmr, 1234);
    assert_eq!(u.roles, vec!["top".to_string()]);
}

#[test]
fn skill_median_of_sides() {
    let data = users_to_data(vec![user(1, 10), user(2, 20), user(3, 35)]);
    let t = side("radiant", vec![role(1, "a"), role(2, "b"), role(3, "c")]);
    assert_eq!(t.calc_skill_median(&data), Some(40));
    let empty = side("dire", vec![]);
    assert_eq!(empty.calc_skill_median(&data), None);
    let roster = Team {
        side: "radiant".to_string(),
        users: vec![("a".to_string(), user(1, 10)), ("b".to_string(), user(2, 21))],
    };
    assert_eq!(roster.calc_skill_median(&data), Some(31));
}

#[test]
fn delta_by_role_sums_gaps() {
    let data = users_to_data(vec![user(1, 100), user(2, 200), user(3, 150), user(4, 260)]);
    let t1 = side("radiant", vec![role(1, "mid"), role(2, "top")]);
    let t2 = side("dire", vec![role(3, "top"), role(4, "mid")]);
    // mid: |100 - 260| = 160, top: |200 - 150| = 50
    assert_eq!(calc_skill_delta_by_role(&t1, &t2, &data), 210);
}

#[test]
fn delta_by_role_counts_last_player_per_role() {
    let data = users_to_data(vec![user(1, 100), user(2, 300), user(3, 120), user(4, 90)]);
    let t1 = side("radiant", vec![role(1, "mid"), role(2, "mid")]);
    let t2 = side("dire", vec![role(3, "mid"), role(4, "mid")]);
    // team 1 holds 300 for mid last; team 2's last mid player has 90
    assert_eq!(calc_skill_delta_by_role(&t1, &t2, &data), 210);
}

#[test]
fn team_delta_adds_median_gap() {
    let data = users_to_data(vec![user(1, 100), user(2, 200), user(3, 150), user(4, 260)]);
    let t1 = side("radiant", vec![role(1, "mid"), role(2, "top")]);
    let t2 = side("dire", vec![role(3, "top"), role(4, "mid")]);
    // medians 150 and 205: gap 55
    assert_eq!(calc_team_delta(&t1, &t2, &data), 265);
}

#[test]
fn team_delta_truncates_half() {
    let data = users_to_data(vec![user(1, 10), user(2, 11), user(3, 10), user(4, 12)]);
    let t1 = side("radiant", vec![role(1, "mid"), role(2, "top")]);
    let t2 = side("dire", vec![role(3, "mid"), role(4, "top")]);
    // by role: 0 + 1; medians 10.5 and 11: gap 0.5 truncated to 0
    assert_eq!(calc_team_delta(&t1, &t2, &data), 1);
}

#[test]
fn side_against_itself_is_fair() {
    let data = users_to_data(vec![user(1, 100), user(2, 300), user(3, 50)]);
    let t = side("radiant", vec![role(1, "mid"), role(2, "top"), role(3, "mid")]);
    assert_eq!(calc_team_delta(&t, &t, &data), 0);
}

#[test]
fn fairness_of_match() {
    let data = users_to_data(vec![user(1, 100), user(2, 200), user(3, 150), user(4, 260)]);
    let m = Match {
        match_id: "m1".to_string(),
        teams: vec![
            side("radiant", vec![role(1, "mid"), role(2, "top")]),
            side("dire", vec![role(3, "top"), role(4, "mid")]),
        ],
    };
    assert_eq!(m.calc_fairness(&data), 265);
    let _ = HashMap::<u128, User>::new();
}

#[test]
fn fairness_is_symmetric_for_same_roles() {
    let data = users_to_data(vec![user(1, 100), user(2, 200), user(3, 150), user(4, 260), user(5, 7), user(6, 9)]);
    let t1 = side("radiant", vec![role(1, "mid"), role(2, "top"), role(5, "bot")]);
    let t2 = side("dire", vec![role(6, "bot"), role(3, "top"), role(4, "mid")]);
    assert_eq!(calc_team_delta(&t1, &t2, &data), calc_team_delta(&t2, &t1, &data));
    assert_eq!(calc_skill_delta_by_role(&t1, &t2, &data), 160 + 50 + 2);
}

#[test]
fn determine_roles_follow_preferences() {
    let prefs: [&[&str]; 10] = [&[], &[], &[], &[], &[], &[], &["jungle"], &["mid"], &["top"], &["mid"]];
    let users: Vec<User> = (0..10).map(|i| waiting(i, 100 * i as u64, 1, prefs[i as usize])).collect();
    let matches = determine(users);
    assert_eq!(matches.len(), 1);
    let roles: Vec<String> = matches[0].teams[0].users.iter().map(|u| u.role.clone()).collect();
    assert_eq!(roles, vec!["mid", "jungle", "carry", "offlane", "soft_support"]);
}
