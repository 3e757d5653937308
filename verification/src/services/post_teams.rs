//! Submitting the matches of a round to the test system.
use vstd::prelude::*;
use crate::models::epoch::{Epoch, NIL_EPOCH};
use crate::models::submit::SubmitTeamsResponse;
use crate::services::get_url::{get_url_params, param_views, url_with_params};
use crate::services::get_waiting_users::FetchOutcome;

verus! {

/// The address at which the matches of `test_name` at `epoch` are submitted.
pub open spec fn match_url(test_name: Seq<char>, epoch: Seq<char>) -> Seq<char> {
    url_with_params("/matchmaking/match"@, seq![("test_name"@, test_name), ("epoch"@, epoch)])
}

/// The address to submit the matches of `test_name` at `epoch` to.
pub fn match_request_url(test_name: &str, epoch: &Epoch) -> (url: String)
    ensures
        url@ == match_url(test_name@, epoch.content@),
{
    let text = epoch.to_string();
    let params: Vec<(&str, &str)> = vec![("test_name", test_name), ("epoch", text.as_str())];
    let url = get_url_params("/matchmaking/match", params);
    proof {
        let pv = param_views(params@);
        assert(pv =~= seq![("test_name"@, test_name@), ("epoch"@, epoch.content@)]);
    }
    url
}

/// The next epoch and whether the round was the last, as the test system's
/// answer to a submission says; the epoch of a fresh run and "not the last"
/// where the submission failed in any way.
pub fn submit_result(outcome: FetchOutcome<SubmitTeamsResponse>) -> (r: (Epoch, bool))
    ensures
        match outcome {
            FetchOutcome::Parsed(answer) => r.0.content@ == answer.new_epoch.content@ && r.1
                == answer.is_last_epoch,
            _ => r.0.content@ == NIL_EPOCH@ && !r.1,
        },
{
    match outcome {
        FetchOutcome::Parsed(answer) => (answer.new_epoch, answer.is_last_epoch),
        _ => (Epoch::new(), false),
    }
}

} // verus!
