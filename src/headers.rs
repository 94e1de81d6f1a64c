//! The header policy and the transformation of request headers.
use vstd::prelude::*;
use crate::text::{ascii_lower, eq_ignore_ascii_case, is_ascii_lower_of, pairs_view, same_name};

verus! {

/// A header-name character: a token character of HTTP.
pub open spec fn is_token_char(c: char) -> bool {
    ('a' <= c && c <= 'z') || ('A' <= c && c <= 'Z') || ('0' <= c && c <= '9')
        || c == '!' || c == '"' || c == '#' || c == '$' || c == '%' || c == '&' || c == '\''
        || c == '*' || c == '+' || c == '-' || c == '.' || c == '^' || c == '_' || c == '`'
        || c == '|' || c == '~'
}

/// A header name that the HTTP client accepts: 1 to 65535 token characters.
pub open spec fn header_name_ok(s: Seq<char>) -> bool {
    1 <= s.len() <= 65535 && forall|i: int| 0 <= i < s.len() ==> is_token_char(#[trigger] s[i])
}

/// A header value that the HTTP client accepts: no control character but tab.
pub open spec fn header_value_ok(s: Seq<char>) -> bool {
    forall|i: int| 0 <= i < s.len() ==> (#[trigger] s[i] == '\t' || (s[i] as u32 >= 32 && s[i] as u32 != 127))
}

/// A header name in its normal form: a valid name with no upper-case letter.
pub open spec fn is_normal_name(s: Seq<char>) -> bool {
    header_name_ok(s) && is_ascii_lower_of(s, s)
}

/// Relies on reqwest::header::HeaderName::from_bytes: it accepts exactly the
/// valid names and normalises them to lower case, which leaves a valid name.
#[verifier::external_body]
fn parse_header_name(s: &str) -> (r: Option<String>)
    ensures
        r is Some <==> header_name_ok(s@),
        r is Some ==> r->0@ == ascii_lower(s@) && is_normal_name(r->0@),
{
    match reqwest::header::HeaderName::from_bytes(s.as_bytes()) {
        Ok(n) => Some(n.as_str().to_string()),
        Err(_) => None,
    }
}

/// Relies on reqwest::header::HeaderValue::from_str: it accepts exactly the
/// strings without a control character other than tab.
#[verifier::external_body]
fn header_value_accepted(s: &str) -> (r: bool)
    ensures
        r == header_value_ok(s@),
{
    reqwest::header::HeaderValue::from_str(s).is_ok()
}

/// The headers `hs` with every header named like `name` removed and
/// `name: value` added at the end.
pub open spec fn set_header(hs: Seq<(Seq<char>, Seq<char>)>, name: Seq<char>, value: Seq<char>) -> Seq<(Seq<char>, Seq<char>)> {
    hs.filter(|h: (Seq<char>, Seq<char>)| !same_name(h.0, name)).push((name, value))
}

/// The headers `hs` with each entry of `policy` set in turn.
pub open spec fn apply_policy(hs: Seq<(Seq<char>, Seq<char>)>, policy: Seq<(Seq<char>, Seq<char>)>) -> Seq<(Seq<char>, Seq<char>)>
    decreases policy.len(),
{
    if policy.len() == 0 {
        hs
    } else {
        set_header(apply_policy(hs, policy.drop_last()), policy.last().0, policy.last().1)
    }
}

/// The outbound headers: the inbound ones, then the policy, then `host` as Host.
pub open spec fn transform_spec(hs: Seq<(Seq<char>, Seq<char>)>, policy: Seq<(Seq<char>, Seq<char>)>, host: Seq<char>) -> Seq<(Seq<char>, Seq<char>)> {
    set_header(apply_policy(hs, policy), "host"@, host)
}

/// A set of header overrides, applied to every forwarded request.
#[derive(Clone)]
pub struct HeaderPolicy {
    entries: Vec<(String, String)>,
}

impl View for HeaderPolicy {
    type V = Seq<(Seq<char>, Seq<char>)>;

    closed spec fn view(&self) -> Seq<(Seq<char>, Seq<char>)> {
        pairs_view(self.entries@)
    }
}

/// Well-formed policy entries: normal names and acceptable values.
pub open spec fn policy_wf(p: Seq<(Seq<char>, Seq<char>)>) -> bool {
    forall|i: int| 0 <= i < p.len() ==> is_normal_name((#[trigger] p[i]).0) && header_value_ok(p[i].1)
}

impl HeaderPolicy {
    /// Well-formed: every name is normal and every value acceptable.
    pub closed spec fn wf(&self) -> bool {
        policy_wf(self@)
    }

    /// A policy that changes nothing.
    pub fn new() -> (r: HeaderPolicy)
        ensures
            r.wf(),
            r@ == Seq::<(Seq<char>, Seq<char>)>::empty(),
    {
        let r = HeaderPolicy { entries: Vec::new() };
        proof {
            assert(r@ =~= Seq::<(Seq<char>, Seq<char>)>::empty());
        }
        r
    }

    /// Sets `name: value` in the policy, replacing any entry of the same name;
    /// the name is stored in lower case. An invalid name or value is refused
    /// and leaves the policy as it was.
    pub fn insert(&mut self, name: &str, value: &str) -> (r: Result<(), String>)
        requires
            old(self).wf(),
        ensures
            final(self).wf(),
            r is Ok <==> header_name_ok(name@) && header_value_ok(value@),
            r is Ok ==> final(self)@ == set_header(old(self)@, ascii_lower(name@), value@),
            r is Err ==> final(self)@ == old(self)@,
    {
        let normal = match parse_header_name(name) {
            Some(n) => n,
            None => {
                return Err(String::from_str("Invalid header name"));
            },
        };
        if !header_value_accepted(value) {
            return Err(String::from_str("Invalid header value"));
        }
        let ghost before = self@;
        let entries = set_header_exec(&self.entries, normal.as_str(), value);
        self.entries = entries;
        proof {
            let f = |h: (Seq<char>, Seq<char>)| !same_name(h.0, normal@);
            let q = |h: (Seq<char>, Seq<char>)| is_normal_name(h.0) && header_value_ok(h.1);
            assert forall|i: int| 0 <= i < before.len() implies q(#[trigger] before[i]) by {}
            lemma_filter_keeps(before, f, q);
            assert forall|i: int| 0 <= i < self@.len() implies
                is_normal_name((#[trigger] self@[i]).0) && header_value_ok(self@[i].1) by {
                if i < before.filter(f).len() {
                    assert(q(before.filter(f)[i]));
                }
            }
        }
        Ok(())
    }

    /// Number of entries.
    pub fn len(&self) -> (r: usize)
        ensures
            r == self@.len(),
    {
        self.entries.len()
    }

    /// The name and value of entry `i`.
    pub fn entry(&self, i: usize) -> (r: (&str, &str))
        requires
            i < self@.len(),
        ensures
            r.0@ == self@[i as int].0,
            r.1@ == self@[i as int].1,
    {
        let e = &self.entries[i];
        (e.0.as_str(), e.1.as_str())
    }
}

/// Sets `name: value` on a list of headers.
pub fn set_header_exec(hs: &Vec<(String, String)>, name: &str, value: &str) -> (r: Vec<(String, String)>)
    ensures
        pairs_view(r@) == set_header(pairs_view(hs@), name@, value@),
{
    let ghost f = |h: (Seq<char>, Seq<char>)| !same_name(h.0, name@);
    let n = hs.len();
    let mut out: Vec<(String, String)> = Vec::new();
    let mut i: usize = 0;
    while i < n
        invariant
            n == hs@.len(),
            i <= n,
            f == (|h: (Seq<char>, Seq<char>)| !same_name(h.0, name@)),
            pairs_view(out@) == pairs_view(hs@).subrange(0, i as int).filter(f),
        decreases n - i,
    {
        let h = &hs[i];
        let ghost before = out@;
        if !eq_ignore_ascii_case(h.0.as_str(), name) {
            out.push((h.0.clone(), h.1.clone()));
            proof {
                assert(pairs_view(out@) =~= pairs_view(before).push(pairs_view(hs@)[i as int]));
            }
        }
        proof {
            let s = pairs_view(hs@).subrange(0, i + 1);
            assert(s.drop_last() =~= pairs_view(hs@).subrange(0, i as int));
            reveal(Seq::filter);
        }
        i = i + 1;
    }
    let ghost before = out@;
    out.push((String::from_str(name), String::from_str(value)));
    proof {
        assert(pairs_view(hs@).subrange(0, n as int) =~= pairs_view(hs@));
        assert(pairs_view(out@) =~= pairs_view(before).push((name@, value@)));
    }
    out
}

/// Builds the outbound headers: the inbound ones, then each policy entry in
/// turn replacing headers of its name, then Host set to `target_host`.
pub fn transform(inbound: &Vec<(String, String)>, policy: &HeaderPolicy, target_host: &str) -> (r: Vec<(String, String)>)
    ensures
        pairs_view(r@) == transform_spec(pairs_view(inbound@), policy@, target_host@),
{
    let n = policy.len();
    let mut out: Vec<(String, String)> = Vec::new();
    let mut i: usize = 0;
    let ghost hs = pairs_view(inbound@);
    let mut k: usize = 0;
    while k < inbound.len()
        invariant
            k <= inbound@.len(),
            hs == pairs_view(inbound@),
            pairs_view(out@) == hs.subrange(0, k as int),
        decreases inbound@.len() - k,
    {
        let ghost before = out@;
        out.push((inbound[k].0.clone(), inbound[k].1.clone()));
        proof {
            assert(pairs_view(out@) =~= pairs_view(before).push(hs[k as int]));
            assert(hs.subrange(0, k + 1) =~= hs.subrange(0, k as int).push(hs[k as int]));
        }
        k = k + 1;
    }
    proof {
        assert(hs.subrange(0, inbound@.len() as int) =~= hs);
        assert(policy@.subrange(0, 0) =~= Seq::<(Seq<char>, Seq<char>)>::empty());
    }
    while i < n
        invariant
            n == policy@.len(),
            i <= n,
            pairs_view(out@) == apply_policy(hs, policy@.subrange(0, i as int)),
        decreases n - i,
    {
        let (name, value) = policy.entry(i);
        out = set_header_exec(&out, name, value);
        proof {
            let s = policy@.subrange(0, i + 1);
            assert(s.drop_last() =~= policy@.subrange(0, i as int));
        }
        i = i + 1;
    }
    proof {
        assert(policy@.subrange(0, n as int) =~= policy@);
        reveal_strlit("host");
    }
    set_header_exec(&out, "host", target_host)
}

/// The outbound Host header is the target host, whatever the caller sent: the
/// last header is `host: target`, and no other header is named Host.
pub proof fn lemma_host_is_target(hs: Seq<(Seq<char>, Seq<char>)>, policy: Seq<(Seq<char>, Seq<char>)>, host: Seq<char>)
    ensures
        ({
            let out = transform_spec(hs, policy, host);
            &&& out.len() > 0
            &&& out.last() == ("host"@, host)
            &&& forall|i: int| 0 <= i < out.len() && same_name(#[trigger] out[i].0, "host"@) ==> i == out.len() - 1
        }),
{
    let a = apply_policy(hs, policy);
    let f = |h: (Seq<char>, Seq<char>)| !same_name(h.0, "host"@);
    lemma_filter_keeps(a, f, |h: (Seq<char>, Seq<char>)| true);
    let out = transform_spec(hs, policy, host);
    assert forall|i: int| 0 <= i < out.len() && same_name(#[trigger] out[i].0, "host"@) implies i == out.len() - 1 by {
        if i < a.filter(f).len() {
            assert(f(a.filter(f)[i]));
        }
    }
}

/// Every kept element satisfies the filter and any property of all elements.
proof fn lemma_filter_keeps<A>(s: Seq<A>, p: spec_fn(A) -> bool, q: spec_fn(A) -> bool)
    requires
        forall|i: int| 0 <= i < s.len() ==> q(#[trigger] s[i]),
    ensures
        forall|i: int| 0 <= i < s.filter(p).len() ==> q(#[trigger] s.filter(p)[i]) && p(s.filter(p)[i]),
    decreases s.len(),
{
    reveal(Seq::filter);
    if s.len() > 0 {
        let d = s.drop_last();
        assert forall|i: int| 0 <= i < d.len() implies q(#[trigger] d[i]) by {
            assert(d[i] == s[i]);
        }
        lemma_filter_keeps(d, p, q);
        let f = s.filter(p);
        assert forall|i: int| 0 <= i < f.len() implies q(#[trigger] f[i]) && p(f[i]) by {
            if i < d.filter(p).len() {
                assert(f[i] == d.filter(p)[i]);
            } else {
                assert(f[i] == s.last());
                assert(s.last() == s[s.len() - 1]);
            }
        }
    }
}

/// Filters that agree on every element keep the same elements.
proof fn lemma_filter_ext<A>(s: Seq<A>, a: spec_fn(A) -> bool, b: spec_fn(A) -> bool)
    requires
        forall|x: A| #[trigger] a(x) == b(x),
    ensures
        s.filter(a) == s.filter(b),
    decreases s.len(),
{
    reveal(Seq::filter);
    if s.len() > 0 {
        lemma_filter_ext(s.drop_last(), a, b);
    }
}

/// Filtering twice keeps what satisfies both filters.
proof fn lemma_filter_filter<A>(s: Seq<A>, a: spec_fn(A) -> bool, b: spec_fn(A) -> bool)
    ensures
        s.filter(a).filter(b) == s.filter(|x: A| a(x) && b(x)),
    decreases s.len(),
{
    reveal(Seq::filter);
    if s.len() > 0 {
        lemma_filter_filter(s.drop_last(), a, b);
        let fa = s.filter(a);
        if a(s.last()) {
            assert(fa.drop_last() == s.drop_last().filter(a));
        }
    }
}

/// A filter that rejects every element keeps nothing.
proof fn lemma_filter_none<A>(s: Seq<A>, p: spec_fn(A) -> bool)
    requires
        forall|i: int| 0 <= i < s.len() ==> !p(#[trigger] s[i]),
    ensures
        s.filter(p) == Seq::<A>::empty(),
    decreases s.len(),
{
    reveal(Seq::filter);
    if s.len() > 0 {
        let d = s.drop_last();
        assert forall|i: int| 0 <= i < d.len() implies !p(#[trigger] d[i]) by {
            assert(d[i] == s[i]);
        }
        lemma_filter_none(d, p);
        assert(!p(s[s.len() - 1]));
    }
}

/// A header that no entry of `policy` names.
pub open spec fn untouched(policy: Seq<(Seq<char>, Seq<char>)>, h: (Seq<char>, Seq<char>)) -> bool {
    forall|k: int| 0 <= k < policy.len() ==> !same_name(h.0, #[trigger] policy[k].0)
}

/// Every header that the policy alone sets is named by one of its entries.
proof fn lemma_policy_names(policy: Seq<(Seq<char>, Seq<char>)>)
    ensures
        forall|i: int| 0 <= i < apply_policy(Seq::empty(), policy).len() ==>
            exists|k: int| 0 <= k < policy.len() && (#[trigger] apply_policy(Seq::empty(), policy)[i]).0 == policy[k].0,
    decreases policy.len(),
{
    if policy.len() > 0 {
        let d = policy.drop_last();
        lemma_policy_names(d);
        let e = apply_policy(Seq::empty(), d);
        let p = policy.last();
        let f = |h: (Seq<char>, Seq<char>)| !same_name(h.0, p.0);
        let q = |h: (Seq<char>, Seq<char>)| exists|k: int| 0 <= k < policy.len() && h.0 == policy[k].0;
        assert forall|i: int| 0 <= i < e.len() implies q(#[trigger] e[i]) by {
            let k = choose|k: int| 0 <= k < d.len() && e[i].0 == d[k].0;
            assert(policy[k] == d[k]);
        }
        lemma_filter_keeps(e, f, q);
        let r = apply_policy(Seq::empty(), policy);
        assert forall|i: int| 0 <= i < r.len() implies
            exists|k: int| 0 <= k < policy.len() && (#[trigger] r[i]).0 == policy[k].0 by {
            if i < e.filter(f).len() {
                assert(q(e.filter(f)[i]));
            } else {
                assert(r[i].0 == policy[policy.len() - 1].0);
            }
        }
    }
}

/// Applying a policy keeps the untouched inbound headers, in order, and then
/// adds what the policy alone sets.
proof fn lemma_apply_policy_split(hs: Seq<(Seq<char>, Seq<char>)>, policy: Seq<(Seq<char>, Seq<char>)>)
    ensures
        apply_policy(hs, policy) == hs.filter(|h: (Seq<char>, Seq<char>)| untouched(policy, h)) + apply_policy(Seq::empty(), policy),
    decreases policy.len(),
{
    let u = |h: (Seq<char>, Seq<char>)| untouched(policy, h);
    if policy.len() == 0 {
        lemma_filter_ext(hs, u, |h: (Seq<char>, Seq<char>)| true);
        reveal(Seq::filter);
        assert(hs.filter(|h: (Seq<char>, Seq<char>)| true) =~= hs) by {
            lemma_filter_all(hs);
        }
        assert(hs.filter(u) + Seq::<(Seq<char>, Seq<char>)>::empty() =~= hs.filter(u));
    } else {
        let d = policy.drop_last();
        let p = policy.last();
        let ud = |h: (Seq<char>, Seq<char>)| untouched(d, h);
        let f = |h: (Seq<char>, Seq<char>)| !same_name(h.0, p.0);
        lemma_apply_policy_split(hs, d);
        let e = apply_policy(Seq::empty(), d);
        Seq::filter_distributes_over_add(hs.filter(ud), e, f);
        lemma_filter_filter(hs, ud, f);
        assert forall|h: (Seq<char>, Seq<char>)| #[trigger] u(h) == (ud(h) && f(h)) by {
            if ud(h) && f(h) {
                assert forall|k: int| 0 <= k < policy.len() implies !same_name(h.0, #[trigger] policy[k].0) by {
                    if k < d.len() {
                        assert(policy[k] == d[k]);
                    }
                }
            }
            if u(h) {
                assert forall|k: int| 0 <= k < d.len() implies !same_name(h.0, #[trigger] d[k].0) by {
                    assert(policy[k] == d[k]);
                }
                assert(!same_name(h.0, policy[policy.len() - 1].0));
            }
        }
        lemma_filter_ext(hs, |x: (Seq<char>, Seq<char>)| ud(x) && f(x), u);
        assert(apply_policy(hs, policy) =~= hs.filter(u) + apply_policy(Seq::empty(), policy));
    }
}

/// A filter that keeps everything keeps the sequence as it is.
proof fn lemma_filter_all<A>(s: Seq<A>)
    ensures
        s.filter(|x: A| true) == s,
    decreases s.len(),
{
    reveal(Seq::filter);
    if s.len() > 0 {
        lemma_filter_all(s.drop_last());
        assert(s.drop_last().push(s.last()) =~= s);
    }
}

/// Applying a header policy a second time changes nothing: the result equals
/// applying it once.
pub proof fn lemma_policy_idempotent(hs: Seq<(Seq<char>, Seq<char>)>, policy: Seq<(Seq<char>, Seq<char>)>)
    ensures
        apply_policy(apply_policy(hs, policy), policy) == apply_policy(hs, policy),
{
    let u = |h: (Seq<char>, Seq<char>)| untouched(policy, h);
    let e = apply_policy(Seq::empty(), policy);
    let once = apply_policy(hs, policy);
    lemma_apply_policy_split(hs, policy);
    lemma_apply_policy_split(once, policy);
    Seq::filter_distributes_over_add(hs.filter(u), e, u);
    lemma_filter_filter(hs, u, u);
    lemma_filter_ext(hs, |x: (Seq<char>, Seq<char>)| u(x) && u(x), u);
    lemma_policy_names(policy);
    assert forall|i: int| 0 <= i < e.len() implies !u(#[trigger] e[i]) by {
        let k = choose|k: int| 0 <= k < policy.len() && e[i].0 == policy[k].0;
        assert(same_name(e[i].0, policy[k].0));
    }
    lemma_filter_none(e, u);
    assert(hs.filter(u) + Seq::<(Seq<char>, Seq<char>)>::empty() =~= hs.filter(u));
}

} // verus!
