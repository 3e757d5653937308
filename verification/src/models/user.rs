//! A player waiting for a match.
use vstd::prelude::*;

verus! {

/// A player waiting for a match, as the test system describes one.
/// The UUID that identifies the player is held as its 128-bit value.
#[derive(Clone, Debug)]
pub struct User {
    pub mmr: u64,
    pub roles: Vec<String>,
    pub user_id: u128,
    pub waiting_time: u32,
}

/// What the team logic knows of a player.
pub type UserData = User;

/// `a` and `b` describe the same player with the same data.
pub open spec fn same_user(a: User, b: User) -> bool {
    &&& a.mmr == b.mmr
    &&& a.roles@ == b.roles@
    &&& a.user_id == b.user_id
    &&& a.waiting_time == b.waiting_time
}

impl User {
    /// A copy of this player's data.
    pub fn duplicate(&self) -> (r: User)
        ensures
            same_user(r, *self),
    {
        let mut roles: Vec<String> = Vec::new();
        let mut i: usize = 0;
        while i < self.roles.len()
            invariant
                i <= self.roles.len(),
                roles@ == self.roles@.take(i as int),
            decreases self.roles.len() - i,
        {
            roles.push(self.roles[i].clone());
            i = i + 1;
            assert(roles@ =~= self.roles@.take(i as int));
        }
        assert(self.roles@.take(self.roles.len() as int) =~= self.roles@);
        User { mmr: self.mmr, roles, user_id: self.user_id, waiting_time: self.waiting_time }
    }
}

} // verus!
