//! Settings of the matchmaking service.
use vstd::prelude::*;

verus! {

/// Where the test system runs.
pub const SERVER_NAME: &'static str = "127.0.0.1:8000";

/// Players on one side of a match.
pub const TEAM_SIZE: usize = 5;

/// Players in one match.
pub const PLAYERS_PER_MATCH: usize = TEAM_SIZE * 2;

/// How many of the best players of each role are considered for a match;
/// values from 4 to 6 keep the search feasible.
pub const CANDIDATES_PER_ROLE: usize = 4;

/// Iterations of the annealing search.
pub const ITERATIONS: usize = 2000;

/// How often the test system is pinged before giving up.
pub const MAX_PING_ATTEMPTS: u32 = 10;

/// How many tests the test system runs, numbered from 0.
pub const TEST_COUNT: u32 = 20;

} // verus!
