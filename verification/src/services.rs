//! The matchmaking service's own logic.
pub mod determine_teams;
pub mod epoch;
pub mod get_url;
pub mod schedule;
pub mod get_waiting_users;
pub mod post_teams;
pub mod test_conn;
