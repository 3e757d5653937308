//! Asking the test system for the players who wait for a match.
use vstd::prelude::*;
use crate::models::epoch::{Epoch, NIL_EPOCH};
use crate::models::user::User;
use crate::services::get_url::{get_url_params, param_views, url_with_params};

verus! {

/// How a request to the test system ended.
pub enum FetchOutcome<T> {
    /// The request could not be sent or no answer came.
    SendFailed,
    /// The test system answered with an error status.
    ErrorStatus,
    /// The answer's body could not be read as the expected data.
    ParseFailed,
    /// The answer's body, read as the expected data.
    Parsed(T),
}

/// The text of the epoch that a request names: the given one, else the
/// epoch of a fresh run.
pub open spec fn epoch_text(input_epoch: Option<Epoch>) -> Seq<char> {
    match input_epoch {
        Some(e) => e.content@,
        None => NIL_EPOCH@,
    }
}

/// The address at which the players waiting in `test_name` at `epoch` are
/// listed.
pub open spec fn users_url(test_name: Seq<char>, epoch: Seq<char>) -> Seq<char> {
    url_with_params("/matchmaking/users"@, seq![("test_name"@, test_name), ("epoch"@, epoch)])
}

/// The address to ask for the players waiting in `test_name` at
/// `input_epoch`, or at the epoch of a fresh run where none is given.
pub fn users_request_url(test_name: &str, input_epoch: Option<Epoch>) -> (url: String)
    ensures
        url@ == users_url(test_name@, epoch_text(input_epoch)),
{
    let epoch = match input_epoch {
        Some(e) => e,
        None => Epoch::new(),
    };
    let text = epoch.to_string();
    let params: Vec<(&str, &str)> = vec![("test_name", test_name), ("epoch", text.as_str())];
    let url = get_url_params("/matchmaking/users", params);
    proof {
        let pv = param_views(params@);
        assert(pv =~= seq![("test_name"@, test_name@), ("epoch"@, epoch_text(input_epoch))]);
    }
    url
}

/// The waiting players that a request brought: those that the test system
/// listed, or none where the request failed in any way.
pub fn users_from_outcome(outcome: FetchOutcome<Vec<User>>) -> (users: Vec<User>)
    ensures
        match outcome {
            FetchOutcome::Parsed(v) => users@ == v@,
            _ => users@.len() == 0,
        },
{
    match outcome {
        FetchOutcome::Parsed(parsed_users) => parsed_users,
        _ => Vec::new(),
    }
}

} // verus!
