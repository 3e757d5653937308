//! Waiting until the test system answers a ping.
use vstd::prelude::*;
use crate::constants::MAX_PING_ATTEMPTS;
use crate::services::get_url::{get_url, url_for};

verus! {

/// What to do after a ping.
#[derive(PartialEq, Eq, Structural)]
pub enum PingStep {
    /// The test system answered: it is reachable.
    Succeeded,
    /// No good answer: pause, then ping again.
    RetryAfterPause,
    /// No good answer to the last allowed ping: pause, then give up.
    GiveUpAfterPause,
}

/// What to do after ping number `attempt` (counted from 1), which the test
/// system answered with success or not as `reached` says.
pub open spec fn ping_step(attempt: nat, reached: bool) -> PingStep {
    if reached {
        PingStep::Succeeded
    } else if attempt < MAX_PING_ATTEMPTS {
        PingStep::RetryAfterPause
    } else {
        PingStep::GiveUpAfterPause
    }
}

/// The pings made from ping number `attempt` on, when ping number `k`
/// is answered as `replies[k - 1]` says: the number of the last ping made,
/// and whether the test system was reached.
pub open spec fn ping_run(replies: Seq<bool>, attempt: nat) -> (nat, bool)
    decreases MAX_PING_ATTEMPTS - attempt,
{
    if attempt < 1 || attempt > MAX_PING_ATTEMPTS || attempt > replies.len() {
        (attempt, false)
    } else {
        match ping_step(attempt, replies[attempt - 1]) {
            PingStep::Succeeded => (attempt, true),
            PingStep::GiveUpAfterPause => (attempt, false),
            PingStep::RetryAfterPause => ping_run(replies, attempt + 1),
        }
    }
}

/// The address that is pinged.
pub fn ping_url() -> (url: String)
    ensures
        url@ == url_for("/ping"@),
{
    get_url("/ping")
}

/// What to do after ping number `attempt`.
pub fn after_ping(attempt: u32, reached: bool) -> (step: PingStep)
    requires
        1 <= attempt <= MAX_PING_ATTEMPTS,
    ensures
        step == ping_step(attempt as nat, reached),
{
    if reached {
        PingStep::Succeeded
    } else if attempt < MAX_PING_ATTEMPTS {
        PingStep::RetryAfterPause
    } else {
        PingStep::GiveUpAfterPause
    }
}

/// Pinging stops after at most [`MAX_PING_ATTEMPTS`] pings, and the test
/// system counts as reached exactly where one of those pings, up to the
/// first good one, was answered with success.
pub proof fn lemma_ping_run(replies: Seq<bool>, attempt: nat)
    requires
        replies.len() >= MAX_PING_ATTEMPTS,
        1 <= attempt <= MAX_PING_ATTEMPTS,
    ensures
        attempt <= ping_run(replies, attempt).0 <= MAX_PING_ATTEMPTS,
        ping_run(replies, attempt).1 <==> exists|k: int|
            attempt - 1 <= k < MAX_PING_ATTEMPTS && #[trigger] replies[k],
        ping_run(replies, attempt).1 ==> replies[ping_run(replies, attempt).0 - 1],
        forall|k: int| attempt - 1 <= k < ping_run(replies, attempt).0 - 1 ==> !#[trigger] replies[k],
        !ping_run(replies, attempt).1 ==> ping_run(replies, attempt).0 == MAX_PING_ATTEMPTS,
    decreases MAX_PING_ATTEMPTS - attempt,
{
    if !replies[attempt - 1] && attempt < MAX_PING_ATTEMPTS {
        lemma_ping_run(replies, attempt + 1);
    }
}

} // verus!
