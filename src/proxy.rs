//! What the gateway does with one request: reject it, or forward it and
//! relay the upstream response.
use vstd::prelude::*;
use crate::headers::{transform, transform_spec};
use crate::route::{first_match, resolve, resolve_spec, upstream_url, ResolvedTarget};
use crate::server::RunnerOptions;
use crate::text::{is_substring, pairs_view};

verus! {

/// Status of the answer to a path that no route matches.
pub const STATUS_BAD_REQUEST: u16 = 400;

/// Status of the answer when the upstream call fails.
pub const STATUS_BAD_GATEWAY: u16 = 502;

/// Status of a relayed upstream response.
pub const STATUS_OK: u16 = 200;

/// Body of the answer to a path that no route matches.
pub open spec fn no_route_body() -> Seq<char> {
    "Based on the path, can't find host on RunnerOptions.replace_hosts"@
}

/// Body of the answer when the upstream call fails.
pub open spec fn upstream_failure_body() -> Seq<char> {
    "The upstream host could not be reached"@
}

/// An answer made by the gateway itself, without the upstream.
pub struct LocalResponse {
    pub status: u16,
    pub body: String,
}

/// What to do with a request.
pub enum ForwardPlan {
    /// Answer at once; no upstream call is made.
    Reject(LocalResponse),
    /// Send `GET url` upstream with these headers.
    Upstream { url: String, headers: Vec<(String, String)> },
}

/// The response to relay to the caller once the upstream has answered.
pub struct ResponsePlan {
    pub status: u16,
    pub headers: Vec<(String, String)>,
    /// A known length: sent as is, without chunked transfer. Otherwise the
    /// body is streamed as it arrives.
    pub content_length: Option<u64>,
}

/// `plan` is the plan for a request with `path` and headers `hs`, under
/// routes `routes` and header policy `policy`.
pub open spec fn plan_for(
    plan: ForwardPlan,
    path: Seq<char>,
    hs: Seq<(Seq<char>, Seq<char>)>,
    routes: Seq<(Seq<char>, Seq<char>)>,
    policy: Seq<(Seq<char>, Seq<char>)>,
) -> bool {
    match plan {
        ForwardPlan::Reject(resp) => first_match(path, routes) is None && resp.status == STATUS_BAD_REQUEST
            && resp.body@ == no_route_body(),
        ForwardPlan::Upstream { url, headers } => first_match(path, routes) is Some
            && url@ == upstream_url(first_match(path, routes)->0, path)
            && pairs_view(headers@) == transform_spec(hs, policy, first_match(path, routes)->0),
    }
}

/// Decides what to do with a request for `path` carrying headers `inbound`:
/// a path that no route matches is answered with 400 at once; otherwise the
/// request goes to the resolved URL with the transformed headers.
pub fn prepare_request(path: &str, inbound: &Vec<(String, String)>, options: &RunnerOptions) -> (r: ForwardPlan)
    ensures
        plan_for(r, path@, pairs_view(inbound@), options.replace_hosts@, options.replace_headers@),
{
    match resolve(path, &options.replace_hosts) {
        ResolvedTarget::Unmatched => {
            let body = String::from_str("Based on the path, can't find host on RunnerOptions.replace_hosts");
            proof {
                reveal_strlit("Based on the path, can't find host on RunnerOptions.replace_hosts");
            }
            ForwardPlan::Reject(LocalResponse { status: STATUS_BAD_REQUEST, body })
        },
        ResolvedTarget::Matched { target_host, full_url } => {
            let headers = transform(inbound, &options.replace_headers, target_host.as_str());
            ForwardPlan::Upstream { url: full_url, headers }
        },
    }
}

/// The response to the caller for an upstream answer with headers
/// `upstream_headers` and, if known, its body length: status 200, every
/// upstream header copied unchanged, and the length passed on.
pub fn relay_response(upstream_headers: &Vec<(String, String)>, content_length: Option<u64>) -> (r: ResponsePlan)
    ensures
        r.status == STATUS_OK,
        pairs_view(r.headers@) == pairs_view(upstream_headers@),
        r.content_length == content_length,
{
    let mut headers: Vec<(String, String)> = Vec::new();
    let mut i: usize = 0;
    while i < upstream_headers.len()
        invariant
            i <= upstream_headers@.len(),
            pairs_view(headers@) == pairs_view(upstream_headers@).subrange(0, i as int),
        decreases upstream_headers@.len() - i,
    {
        let ghost before = headers@;
        headers.push((upstream_headers[i].0.clone(), upstream_headers[i].1.clone()));
        proof {
            let u = pairs_view(upstream_headers@);
            assert(pairs_view(headers@) =~= pairs_view(before).push(u[i as int]));
            assert(u.subrange(0, i + 1) =~= u.subrange(0, i as int).push(u[i as int]));
        }
        i = i + 1;
    }
    proof {
        let u = pairs_view(upstream_headers@);
        assert(u.subrange(0, u.len() as int) =~= u);
    }
    ResponsePlan { status: STATUS_OK, headers, content_length }
}

/// The answer to the caller when the upstream call fails: 502 with a short
/// explanation.
pub fn upstream_failure() -> (r: LocalResponse)
    ensures
        r.status == STATUS_BAD_GATEWAY,
        r.body@ == upstream_failure_body(),
{
    proof {
        reveal_strlit("The upstream host could not be reached");
    }
    LocalResponse { status: STATUS_BAD_GATEWAY, body: String::from_str("The upstream host could not be reached") }
}

/// A path in which no route key occurs is unmatched, and its request is
/// answered with 400 without any upstream call.
pub proof fn lemma_unmatched_is_rejected(
    plan: ForwardPlan,
    path: Seq<char>,
    hs: Seq<(Seq<char>, Seq<char>)>,
    routes: Seq<(Seq<char>, Seq<char>)>,
    policy: Seq<(Seq<char>, Seq<char>)>,
)
    requires
        forall|i: int| 0 <= i < routes.len() ==> !is_substring(#[trigger] routes[i].0, path),
        plan_for(plan, path, hs, routes, policy),
    ensures
        resolve_spec(path, routes) is None,
        plan matches ForwardPlan::Reject(resp) && resp.status == STATUS_BAD_REQUEST,
{
    crate::route::lemma_first_match_none(path, routes);
}

} // verus!
