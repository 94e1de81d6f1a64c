//! Reading the gateway's configuration from its command-line arguments.
//!
//! Arguments come in pairs `flag value`: `-u key:host` adds a route,
//! `-h name:value` a header override, `-host` and `-port` the bind address.
use vstd::prelude::*;
use crate::headers::{apply_policy, header_name_ok, header_value_ok, set_header, HeaderPolicy};
use crate::route::{set_route, RouteTable};
use crate::text::{ascii_lower, first_index_of, split_once_char};

verus! {

/// Views of a list of strings.
pub open spec fn strs_view(v: Seq<String>) -> Seq<Seq<char>> {
    v.map_values(|s: String| s@)
}

/// The arguments form a non-empty list of pairs.
pub open spec fn args_ok(a: Seq<Seq<char>>) -> bool {
    a.len() > 0 && a.len() % 2 == 0
}

/// The values of the first `k` pairs of `a` in which `opt` stands, in order.
pub open spec fn values_upto(a: Seq<Seq<char>>, opt: Seq<char>, k: int) -> Seq<Seq<char>>
    decreases k,
{
    if k <= 0 {
        Seq::empty()
    } else {
        let before = values_upto(a, opt, k - 1);
        if a[2 * k - 2] == opt || a[2 * k - 1] == opt {
            before.push(a[2 * k - 1])
        } else {
            before
        }
    }
}

/// The values of all pairs of `a` in which `opt` stands, in order.
pub open spec fn option_values(a: Seq<Seq<char>>, opt: Seq<char>) -> Seq<Seq<char>> {
    values_upto(a, opt, (a.len() / 2) as int)
}

/// The part of `v` before its first colon.
pub open spec fn part_before_colon(v: Seq<char>) -> Seq<char> {
    v.subrange(0, first_index_of(v, ':')->0)
}

/// The part of `v` after its first colon.
pub open spec fn part_after_colon(v: Seq<char>) -> Seq<char> {
    v.subrange(first_index_of(v, ':')->0 + 1, v.len() as int)
}

/// A route mapping `key:host` with a non-empty key and host.
pub open spec fn route_mapping_ok(v: Seq<char>) -> bool {
    first_index_of(v, ':') is Some && part_before_colon(v).len() > 0 && part_after_colon(v).len() > 0
}

/// A header mapping `name:value` whose name and value the HTTP client accepts.
pub open spec fn header_mapping_ok(v: Seq<char>) -> bool {
    first_index_of(v, ':') is Some && header_name_ok(part_before_colon(v)) && header_value_ok(part_after_colon(v))
}

/// The route table that the mappings `vals` build, each set in turn.
pub open spec fn routes_from(vals: Seq<Seq<char>>) -> Seq<(Seq<char>, Seq<char>)>
    decreases vals.len(),
{
    if vals.len() == 0 {
        Seq::empty()
    } else {
        set_route(routes_from(vals.drop_last()), part_before_colon(vals.last()), part_after_colon(vals.last()))
    }
}

/// The header policy that the mappings `vals` build, each set in turn.
pub open spec fn policy_from(vals: Seq<Seq<char>>) -> Seq<(Seq<char>, Seq<char>)>
    decreases vals.len(),
{
    if vals.len() == 0 {
        Seq::empty()
    } else {
        set_header(policy_from(vals.drop_last()), ascii_lower(part_before_colon(vals.last())), part_after_colon(vals.last()))
    }
}

/// Groups the arguments (the program name left out) in pairs. A list that is
/// empty or of odd length is refused.
pub fn get_args(args: &Vec<String>) -> (r: Result<Vec<Vec<String>>, String>)
    ensures
        r is Ok <==> args_ok(strs_view(args@)),
        r is Ok ==> r->Ok_0@.len() == args@.len() / 2,
        r is Ok ==> forall|i: int| 0 <= i < args@.len() / 2 ==>
            strs_view((#[trigger] r->Ok_0@[i])@) == seq![args@[2 * i]@, args@[2 * i + 1]@],
{
    let n = args.len();
    if n == 0 || n % 2 != 0 {
        return Err(String::from_str("Invalid arguments count. Make sure there is at least one host set and even number of arguments"));
    }
    let mut out: Vec<Vec<String>> = Vec::new();
    let mut i: usize = 0;
    while i < n / 2
        invariant
            n == args@.len(),
            n % 2 == 0,
            i <= n / 2,
            out@.len() == i,
            forall|j: int| 0 <= j < i ==> strs_view((#[trigger] out@[j])@) == seq![args@[2 * j]@, args@[2 * j + 1]@],
        decreases n / 2 - i,
    {
        let mut pair: Vec<String> = Vec::new();
        pair.push(args[2 * i].clone());
        pair.push(args[2 * i + 1].clone());
        proof {
            assert(strs_view(pair@) =~= seq![args@[2 * i]@, args@[2 * i + 1]@]);
        }
        out.push(pair);
        i = i + 1;
    }
    Ok(out)
}

/// The values of the argument pairs in which `option` stands, in order.
pub fn extract_and_filter_by_option(args: &Vec<String>, option: &str) -> (r: Result<Vec<String>, String>)
    ensures
        r is Ok <==> args_ok(strs_view(args@)),
        r is Ok ==> strs_view(r->Ok_0@) == option_values(strs_view(args@), option@),
{
    let pairs = get_args(args)?;
    let ghost a = strs_view(args@);
    let mut out: Vec<String> = Vec::new();
    let mut i: usize = 0;
    while i < pairs.len()
        invariant
            pairs@.len() == args@.len() / 2,
            a == strs_view(args@),
            forall|j: int| 0 <= j < args@.len() / 2 ==>
                strs_view((#[trigger] pairs@[j])@) == seq![args@[2 * j]@, args@[2 * j + 1]@],
            i <= pairs@.len(),
            strs_view(out@) == values_upto(a, option@, i as int),
        decreases pairs@.len() - i,
    {
        let pair = &pairs[i];
        proof {
            assert(strs_view(pair@) == seq![args@[2 * i]@, args@[2 * i + 1]@]);
            assert(strs_view(pair@)[0] == pair@[0]@);
            assert(strs_view(pair@)[1] == pair@[1]@);
        }
        let first = pair[0].as_str();
        let second = pair[1].as_str();
        let ghost before = out@;
        if str_eq(first, option) || str_eq(second, option) {
            out.push(pair[1].clone());
            proof {
                assert(strs_view(out@) =~= strs_view(before).push(a[2 * i + 1]));
            }
        }
        i = i + 1;
    }
    Ok(out)
}

/// Builds the route table from the `-u key:host` arguments, in order; a key
/// given twice keeps its first place and takes its last host. Refused: bad
/// arguments, no `-u` at all, and a mapping without a colon or with an empty
/// key or host.
pub fn extract_hosts(args: &Vec<String>) -> (r: Result<RouteTable, String>)
    ensures
        r is Ok <==> ({
            let vals = option_values(strs_view(args@), "-u"@);
            &&& args_ok(strs_view(args@))
            &&& vals.len() > 0
            &&& forall|i: int| 0 <= i < vals.len() ==> route_mapping_ok(#[trigger] vals[i])
        }),
        r is Ok ==> r->Ok_0.wf() && r->Ok_0@ == routes_from(option_values(strs_view(args@), "-u"@)),
{
    proof {
        reveal_strlit("-u");
    }
    let vals = extract_and_filter_by_option(args, "-u")?;
    let ghost vs = strs_view(vals@);
    if vals.len() == 0 {
        return Err(String::from_str("No host specified. -u is necessary"));
    }
    let mut table = RouteTable::new();
    let mut i: usize = 0;
    while i < vals.len()
        invariant
            vs == strs_view(vals@),
            vs == option_values(strs_view(args@), "-u"@),
            args_ok(strs_view(args@)),
            i <= vals@.len(),
            table.wf(),
            forall|j: int| 0 <= j < i ==> route_mapping_ok(#[trigger] vs[j]),
            table@ == routes_from(vs.subrange(0, i as int)),
        decreases vals@.len() - i,
    {
        let v = vals[i].as_str();
        proof {
            assert(vs[i as int] == v@);
        }
        match split_once_char(v, ':') {
            None => {
                proof {
                    assert(!route_mapping_ok(vs[i as int]));
                }
                return Err(String::from_str("Invalid host mapping: expected -u <path part>:<host>"));
            },
            Some((key, host)) => {
                if table.insert(key, host).is_err() {
                    proof {
                        assert(!route_mapping_ok(vs[i as int]));
                    }
                    return Err(String::from_str("Invalid host mapping: the path part and the host must not be empty"));
                }
            },
        }
        proof {
            let s = vs.subrange(0, i + 1);
            assert(s.drop_last() =~= vs.subrange(0, i as int));
        }
        i = i + 1;
    }
    proof {
        assert(vs.subrange(0, vals@.len() as int) =~= vs);
    }
    Ok(table)
}

/// Builds the header policy from the `-h name:value` arguments, in order.
/// Refused: bad arguments, and a mapping without a colon or whose name or
/// value the HTTP client does not accept. No `-h` at all gives an empty policy.
pub fn extract_headers(args: &Vec<String>) -> (r: Result<HeaderPolicy, String>)
    ensures
        r is Ok <==> ({
            let vals = option_values(strs_view(args@), "-h"@);
            &&& args_ok(strs_view(args@))
            &&& forall|i: int| 0 <= i < vals.len() ==> header_mapping_ok(#[trigger] vals[i])
        }),
        r is Ok ==> r->Ok_0.wf() && r->Ok_0@ == policy_from(option_values(strs_view(args@), "-h"@)),
{
    proof {
        reveal_strlit("-h");
    }
    let vals = extract_and_filter_by_option(args, "-h")?;
    let ghost vs = strs_view(vals@);
    let mut policy = HeaderPolicy::new();
    let mut i: usize = 0;
    while i < vals.len()
        invariant
            vs == strs_view(vals@),
            vs == option_values(strs_view(args@), "-h"@),
            args_ok(strs_view(args@)),
            i <= vals@.len(),
            policy.wf(),
            forall|j: int| 0 <= j < i ==> header_mapping_ok(#[trigger] vs[j]),
            policy@ == policy_from(vs.subrange(0, i as int)),
        decreases vals@.len() - i,
    {
        let v = vals[i].as_str();
        proof {
            assert(vs[i as int] == v@);
        }
        match split_once_char(v, ':') {
            None => {
                proof {
                    assert(!header_mapping_ok(vs[i as int]));
                }
                return Err(String::from_str("Invalid header: expected -h <name>:<value>"));
            },
            Some((name, value)) => {
                if policy.insert(name.as_str(), value.as_str()).is_err() {
                    proof {
                        assert(!header_mapping_ok(vs[i as int]));
                    }
                    return Err(String::from_str("Invalid header: the name or the value is not valid in HTTP"));
                }
            },
        }
        proof {
            let s = vs.subrange(0, i + 1);
            assert(s.drop_last() =~= vs.subrange(0, i as int));
        }
        i = i + 1;
    }
    proof {
        assert(vs.subrange(0, vals@.len() as int) =~= vs);
    }
    Ok(policy)
}

/// The value of the first pair in which `option` stands, or `default` when
/// the arguments are bad or no pair holds it.
pub fn get(args: &Vec<String>, option: &str, default: String) -> (r: String)
    ensures
        ({
            let vals = option_values(strs_view(args@), option@);
            r@ == if args_ok(strs_view(args@)) && vals.len() > 0 { vals[0] } else { default@ }
        }),
{
    match extract_and_filter_by_option(args, option) {
        Err(_) => default,
        Ok(vals) => {
            if vals.len() == 0 {
                default
            } else {
                proof {
                    assert(strs_view(vals@)[0] == vals@[0]@);
                }
                vals[0].clone()
            }
        },
    }
}

/// The digits of a number: the text with one leading `+` dropped.
pub open spec fn unsigned_digits(s: Seq<char>) -> Seq<char> {
    if s.len() > 0 && s[0] == '+' {
        s.drop_first()
    } else {
        s
    }
}

/// The value of a run of decimal digits.
pub open spec fn decimal_value(d: Seq<char>) -> int
    decreases d.len(),
{
    if d.len() == 0 {
        0
    } else {
        decimal_value(d.drop_last()) * 10 + (d.last() as int - '0' as int)
    }
}

/// The text is an optional `+` and at least one decimal digit, whose value fits in 16 bits.
pub open spec fn u16_text_ok(s: Seq<char>) -> bool {
    let d = unsigned_digits(s);
    &&& d.len() > 0
    &&& forall|i: int| 0 <= i < d.len() ==> '0' <= #[trigger] d[i] && d[i] <= '9'
    &&& decimal_value(d) <= 65535
}

proof fn lemma_decimal_value_nonneg(d: Seq<char>)
    requires
        forall|i: int| 0 <= i < d.len() ==> '0' <= #[trigger] d[i] && d[i] <= '9',
    ensures
        decimal_value(d) >= 0,
    decreases d.len(),
{
    if d.len() > 0 {
        let p = d.drop_last();
        assert forall|i: int| 0 <= i < p.len() implies '0' <= #[trigger] p[i] && p[i] <= '9' by {
            assert(p[i] == d[i]);
        }
        lemma_decimal_value_nonneg(p);
    }
}

proof fn lemma_decimal_prefix_le(d: Seq<char>, k: int)
    requires
        0 <= k <= d.len(),
        forall|i: int| 0 <= i < d.len() ==> '0' <= #[trigger] d[i] && d[i] <= '9',
    ensures
        decimal_value(d.subrange(0, k)) <= decimal_value(d),
    decreases d.len(),
{
    if k < d.len() {
        let p = d.drop_last();
        assert forall|i: int| 0 <= i < p.len() implies '0' <= #[trigger] p[i] && p[i] <= '9' by {
            assert(p[i] == d[i]);
        }
        lemma_decimal_prefix_le(p, k);
        lemma_decimal_value_nonneg(p);
        assert(p.subrange(0, k) =~= d.subrange(0, k));
        assert('0' <= d[d.len() - 1]);
    } else {
        assert(d.subrange(0, k) =~= d);
    }
}

/// Reads a port number: an optional `+` and decimal digits with a value
/// below 65536, as Rust's own parsing of a `u16` takes them.
pub fn parse_u16(s: &str) -> (r: Option<u16>)
    ensures
        r is Some <==> u16_text_ok(s@),
        r is Some ==> r->0 as int == decimal_value(unsigned_digits(s@)),
{
    let n = s.unicode_len();
    let mut start: usize = 0;
    if n > 0 && s.get_char(0) == '+' {
        start = 1;
    }
    if start == n {
        return None;
    }
    let ghost d = unsigned_digits(s@);
    proof {
        assert(d =~= s@.subrange(start as int, n as int));
    }
    let mut acc: u32 = 0;
    let mut i: usize = start;
    while i < n
        invariant
            n == s@.len(),
            start <= i <= n,
            start < n,
            d == s@.subrange(start as int, n as int),
            d == unsigned_digits(s@),
            forall|k: int| 0 <= k < i - start ==> '0' <= #[trigger] d[k] && d[k] <= '9',
            acc as int == decimal_value(d.subrange(0, i - start)),
            acc <= 65535,
        decreases n - i,
    {
        let c = s.get_char(i);
        proof {
            assert(d[i - start] == c);
        }
        if c < '0' || c > '9' {
            proof {
                assert(!('0' <= d[i - start] && d[i - start] <= '9'));
            }
            return None;
        }
        let digit: u32 = (c as u32) - ('0' as u32);
        proof {
            let p = d.subrange(0, i - start + 1);
            assert(p.drop_last() =~= d.subrange(0, i - start));
            assert(p.last() == c);
        }
        let next: u32 = acc * 10 + digit;
        if next > 65535 {
            proof {
                if u16_text_ok(s@) {
                    lemma_decimal_prefix_le(d, i - start + 1);
                }
            }
            return None;
        }
        acc = next;
        i = i + 1;
    }
    proof {
        assert(d.subrange(0, n - start) =~= d);
    }
    Some(acc as u16)
}

/// The port given by the first pair in which `option` stands, or `default`
/// when the arguments are bad, no pair holds it, or its value is no `u16`.
pub fn get_port(args: &Vec<String>, option: &str, default: u16) -> (r: u16)
    ensures
        ({
            let vals = option_values(strs_view(args@), option@);
            r == if args_ok(strs_view(args@)) && vals.len() > 0 && u16_text_ok(vals[0]) {
                decimal_value(unsigned_digits(vals[0])) as u16
            } else {
                default
            }
        }),
{
    match extract_and_filter_by_option(args, option) {
        Err(_) => default,
        Ok(vals) => {
            if vals.len() == 0 {
                default
            } else {
                proof {
                    assert(strs_view(vals@)[0] == vals@[0]@);
                }
                match parse_u16(vals[0].as_str()) {
                    Some(p) => p,
                    None => default,
                }
            }
        },
    }
}

fn str_eq(a: &str, b: &str) -> (r: bool)
    ensures
        r == (a@ == b@),
{
    let n = a.unicode_len();
    if n != b.unicode_len() {
        return false;
    }
    let mut i: usize = 0;
    while i < n
        invariant
            n == a@.len(),
            n == b@.len(),
            i <= n,
            forall|k: int| 0 <= k < i ==> a@[k] == b@[k],
        decreases n - i,
    {
        if a.get_char(i) != b.get_char(i) {
            return false;
        }
        i = i + 1;
    }
    proof {
        assert(a@ =~= b@);
    }
    true
}

} // verus!
