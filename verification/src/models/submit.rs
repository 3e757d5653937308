//! What the matchmaking service submits, and what the test system answers.
use vstd::prelude::*;
use crate::models::epoch::Epoch;
use crate::models::user::User;

verus! {

/// The test system's answer to a submission.
pub struct SubmitTeamsResponse {
    pub new_epoch: Epoch,
    pub is_last_epoch: bool,
}

/// A player, by UUID value, and the role that the player takes in a team.
#[derive(Clone)]
pub struct UserRole {
    pub id: u128,
    pub role: String,
}

/// One side of a match as it is submitted.
pub struct TeamResponse {
    pub side: String,
    pub users: Vec<UserRole>,
}

/// One side of a match with each role's player.
#[derive(Clone)]
pub struct Team {
    pub side: String,
    /// The players by role.
    pub users: Vec<(String, User)>,
}

impl Team {
    /// No role is taken twice.
    pub open spec fn well_formed(&self) -> bool {
        forall|i: int, j: int|
            0 <= i < j < self.users.len() ==> #[trigger] self.users@[i].0@ != #[trigger] self.users@[j].0@
    }
}

/// A match as it is submitted.
pub struct Match {
    pub match_id: String,
    pub teams: Vec<TeamResponse>,
}

} // verus!
