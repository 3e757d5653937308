//! Addresses of the test system's endpoints.
use vstd::prelude::*;
use crate::constants::SERVER_NAME;

verus! {

/// The address of `endpoint` on the test system.
pub open spec fn url_for(endpoint: Seq<char>) -> Seq<char> {
    "http://"@ + SERVER_NAME@ + endpoint
}

/// The query string `k1=v1&k2=v2&...` of `params`, in their order.
pub open spec fn query_of(params: Seq<(Seq<char>, Seq<char>)>) -> Seq<char>
    decreases params.len(),
{
    if params.len() == 0 {
        Seq::empty()
    } else if params.len() == 1 {
        params[0].0 + "="@ + params[0].1
    } else {
        query_of(params.drop_last()) + "&"@ + params.last().0 + "="@ + params.last().1
    }
}

/// The address of `endpoint` with the query `params`; without parameters,
/// the bare address.
pub open spec fn url_with_params(endpoint: Seq<char>, params: Seq<(Seq<char>, Seq<char>)>) -> Seq<char> {
    if params.len() == 0 {
        url_for(endpoint)
    } else {
        url_for(endpoint) + "?"@ + query_of(params)
    }
}

/// The text of each key and value of `params`.
pub open spec fn param_views(params: Seq<(&str, &str)>) -> Seq<(Seq<char>, Seq<char>)> {
    params.map_values(|p: (&str, &str)| (p.0@, p.1@))
}

/// The address of `endpoint_path` on the test system.
pub fn get_url(endpoint_path: &str) -> (url: String)
    ensures
        url@ == url_for(endpoint_path@),
{
    let mut url = String::from_str("http://");
    url.append(SERVER_NAME);
    url.append(endpoint_path);
    url
}

/// The address of `endpoint_path` with the query built from `params`.
pub fn get_url_params(endpoint_path: &str, params: Vec<(&str, &str)>) -> (url: String)
    ensures
        url@ == url_with_params(endpoint_path@, param_views(params@)),
{
    let ghost pv = param_views(params@);
    let mut base_url = get_url(endpoint_path);
    let args = params.len();
    if args == 0 {
        return base_url;
    } else {
        base_url.append("?");
    }
    let ghost head = url_for(endpoint_path@) + "?"@;
    let mut arg: usize = 0;
    while arg < args
        invariant
            args == params.len(),
            args > 0,
            arg <= args,
            pv == param_views(params@),
            base_url@ == head + query_of(pv.take(arg as int)) + (if 0 < arg < args {
                "&"@
            } else {
                Seq::empty()
            }),
        decreases args - arg,
    {
        let pair = params[arg];
        let ghost before = base_url@;
        base_url.append(pair.0);
        base_url.append("=");
        base_url.append(pair.1);
        proof {
            let t = pv.take(arg + 1);
            assert(t.drop_last() =~= pv.take(arg as int));
            assert(t.last() == (pair.0@, pair.1@));
            if arg == 0 {
                assert(query_of(t) == pair.0@ + "="@ + pair.1@);
                assert(base_url@ =~= head + query_of(t));
            } else {
                assert(base_url@ =~= head + query_of(t));
            }
        }
        if arg != args - 1 {
            base_url.append("&");
        }
        arg = arg + 1;
    }
    assert(pv.take(args as int) =~= pv);
    base_url
}

/// Without parameters the address with a query is the bare address.
pub proof fn lemma_no_params_is_bare_url(endpoint: Seq<char>)
    ensures
        url_with_params(endpoint, Seq::empty()) == url_for(endpoint),
{
}

} // verus!
