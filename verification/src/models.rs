//! The data that the matchmaking service exchanges with the test system.
pub mod epoch;
pub mod submit;
pub mod user;
