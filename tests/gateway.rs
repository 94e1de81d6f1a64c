use gateway::args::{
    extract_and_filter_by_option, extract_headers, extract_hosts, get, get_args, get_port, parse_u16,
};
use gateway::headers::{set_header_exec, transform, HeaderPolicy};
use gateway::proxy::{prepare_request, relay_response, upstream_failure, ForwardPlan};
use gateway::route::{resolve, ResolvedTarget, RouteTable};
use gateway::server::{RunnerOptions, WebServer};
use gateway::text::{contains_str, eq_ignore_ascii_case, split_once_char};

fn strings(v: &[&str]) -> Vec<String> {
    v.iter().map(|s| s.to_string()).collect()
}

fn pairs(v: &[(&str, &str)]) -> Vec<(String, String)> {
    v.iter().map(|(a, b)| (a.to_string(), b.to_string())).collect()
}

fn table(v: &[(&str, &str)]) -> RouteTable {
    let mut t = RouteTable::new();
    for (k, h) in v {
        t.insert(k.to_string(), h.to_string()).unwrap();
    }
    t
}

fn policy(v: &[(&str, &str)]) -> HeaderPolicy {
    let mut p = HeaderPolicy::new();
    for (n, val) in v {
        p.insert(n, val).unwrap();
    }
    p
}

fn options(routes: &[(&str, &str)], headers: &[(&str, &str)]) -> RunnerOptions {
    RunnerOptions { replace_hosts: table(routes), replace_headers: policy(headers) }
}

#[test]
fn first_match_wins_over_longer_key() {
    let t = table(&[("api", "hostA"), ("api/v2", "hostB")]);
    match resolve("/api/v2/x", &t) {
        ResolvedTarget::Matched { target_host, full_url } => {
            assert_eq!(target_host, "hostA");
            assert_eq!(full_url, "http://hostA/api/v2/x");
        }
        ResolvedTarget::Unmatched => panic!("expected a match"),
    }
}

#[test]
fn later_entry_matches_when_earlier_does_not() {
    let t = table(&[("users", "hostA"), ("orders", "hostB")]);
    match resolve("/orders/7", &t) {
        ResolvedTarget::Matched { target_host, full_url } => {
            assert_eq!(target_host, "hostB");
            assert_eq!(full_url, "http://hostB/orders/7");
        }
        ResolvedTarget::Unmatched => panic!("expected a match"),
    }
}

#[test]
fn no_key_in_path_is_unmatched() {
    let t = table(&[("foo", "example.internal:8080")]);
    assert!(matches!(resolve("/unmatched", &t), ResolvedTarget::Unmatched));
    assert!(matches!(resolve("/fo/o", &t), ResolvedTarget::Unmatched));
    assert!(matches!(resolve("", &t), ResolvedTarget::Unmatched));
}

#[test]
fn empty_table_matches_nothing() {
    let t = RouteTable::new();
    assert!(matches!(resolve("/anything", &t), ResolvedTarget::Unmatched));
}

#[test]
fn forwarded_request_targets_resolved_host() {
    let opts = options(&[("foo", "example.internal:8080")], &[("X-Proxy", "true")]);
    let inbound = pairs(&[("host", "caller.example"), ("accept", "*/*")]);
    match prepare_request("/foo/bar?x=1", &inbound, &opts) {
        ForwardPlan::Upstream { url, headers } => {
            assert_eq!(url, "http://example.internal:8080/foo/bar?x=1");
            assert!(headers.contains(&("x-proxy".to_string(), "true".to_string())));
            assert!(headers.contains(&("host".to_string(), "example.internal:8080".to_string())));
            assert!(headers.contains(&("accept".to_string(), "*/*".to_string())));
            assert!(!headers.iter().any(|(_, v)| v == "caller.example"));
        }
        ForwardPlan::Reject(_) => panic!("expected an upstream call"),
    }
}

#[test]
fn unmatched_request_is_rejected_with_400() {
    let opts = options(&[("foo", "example.internal:8080")], &[("X-Proxy", "true")]);
    let inbound = pairs(&[("host", "caller.example")]);
    match prepare_request("/unmatched", &inbound, &opts) {
        ForwardPlan::Reject(resp) => {
            assert_eq!(resp.status, 400);
            assert_eq!(resp.body, "Based on the path, can't find host on RunnerOptions.replace_hosts");
        }
        ForwardPlan::Upstream { .. } => panic!("no upstream call may be planned"),
    }
}

#[test]
fn relayed_response_keeps_headers_and_length() {
    let upstream = pairs(&[("X-Test", "1"), ("Content-Length", "5")]);
    let r = relay_response(&upstream, Some(5));
    assert_eq!(r.status, 200);
    assert_eq!(r.headers, upstream);
    assert!(r.headers.contains(&("X-Test".to_string(), "1".to_string())));
    assert_eq!(r.content_length, Some(5));
}

#[test]
fn relayed_response_without_length_streams() {
    let upstream = pairs(&[("X-Test", "1")]);
    let r = relay_response(&upstream, None);
    assert_eq!(r.status, 200);
    assert_eq!(r.content_length, None);
}

#[test]
fn upstream_failure_is_502() {
    let r = upstream_failure();
    assert_eq!(r.status, 502);
    assert_eq!(r.body, "The upstream host could not be reached");
}

#[test]
fn host_header_is_always_target() {
    let p = policy(&[]);
    let inbound = pairs(&[("Host", "caller.example"), ("x-a", "1"), ("HOST", "other")]);
    let out = transform(&inbound, &p, "up:9000");
    assert_eq!(out, pairs(&[("x-a", "1"), ("host", "up:9000")]));
    let none = transform(&pairs(&[]), &p, "up:9000");
    assert_eq!(none, pairs(&[("host", "up:9000")]));
}

#[test]
fn policy_overrides_inbound_headers() {
    let p = policy(&[("X-Proxy", "true"), ("Accept", "text/plain")]);
    let inbound = pairs(&[("accept", "*/*"), ("x-keep", "k"), ("X-PROXY", "false")]);
    let out = transform(&inbound, &p, "h");
    assert_eq!(out, pairs(&[("x-keep", "k"), ("x-proxy", "true"), ("accept", "text/plain"), ("host", "h")]));
}

#[test]
fn inbound_duplicates_are_kept() {
    let p = policy(&[]);
    let inbound = pairs(&[("x-a", "1"), ("x-a", "2")]);
    let out = transform(&inbound, &p, "h");
    assert_eq!(out, pairs(&[("x-a", "1"), ("x-a", "2"), ("host", "h")]));
}

#[test]
fn applying_policy_twice_equals_once() {
    let p = policy(&[("X-Proxy", "true"), ("x-other", "2")]);
    let inbound = pairs(&[("x-proxy", "false"), ("x-keep", "k"), ("X-Other", "1")]);
    let mut once = inbound.clone();
    let mut twice = inbound.clone();
    for (n, v) in [("x-proxy", "true"), ("x-other", "2")] {
        once = set_header_exec(&once, n, v);
    }
    for _ in 0..2 {
        for (n, v) in [("x-proxy", "true"), ("x-other", "2")] {
            twice = set_header_exec(&twice, n, v);
        }
    }
    assert_eq!(once, twice);
    let t1 = transform(&inbound, &p, "h");
    let t2 = transform(&t1, &p, "h");
    assert_eq!(t1, t2);
}

#[test]
fn policy_insert_normalises_and_replaces() {
    let mut p = HeaderPolicy::new();
    p.insert("X-Proxy", "true").unwrap();
    p.insert("x-proxy", "false").unwrap();
    assert_eq!(p.len(), 1);
    assert_eq!(p.entry(0), ("x-proxy", "false"));
}

#[test]
fn policy_rejects_invalid_name_and_value() {
    let mut p = HeaderPolicy::new();
    assert!(p.insert("Bad Name", "x").is_err());
    assert!(p.insert("", "x").is_err());
    assert!(p.insert("x-ok", "line\nbreak").is_err());
    assert!(p.insert("x-ok", "tab\tok").is_ok());
    assert_eq!(p.len(), 1);
}

#[test]
fn route_insert_last_host_wins_in_place() {
    let mut t = RouteTable::new();
    t.insert("a".to_string(), "h1".to_string()).unwrap();
    t.insert("b".to_string(), "h2".to_string()).unwrap();
    t.insert("a".to_string(), "h3".to_string()).unwrap();
    assert_eq!(t.len(), 2);
    assert_eq!(t.entry(0), ("a", "h3"));
    assert_eq!(t.entry(1), ("b", "h2"));
    assert!(t.insert(String::new(), "h".to_string()).is_err());
    assert!(t.insert("k".to_string(), String::new()).is_err());
    assert_eq!(t.len(), 2);
}

#[test]
fn args_are_grouped_in_pairs() {
    let g = get_args(&strings(&["-u", "a:b", "-h", "x:y"])).unwrap();
    assert_eq!(g, vec![strings(&["-u", "a:b"]), strings(&["-h", "x:y"])]);
    assert!(get_args(&strings(&[])).is_err());
    assert!(get_args(&strings(&["-u"])).is_err());
    assert!(get_args(&strings(&["-u", "a:b", "-h"])).is_err());
}

#[test]
fn option_values_in_order() {
    let a = strings(&["-u", "a:b", "-h", "x:y", "-u", "c:d"]);
    assert_eq!(extract_and_filter_by_option(&a, "-u").unwrap(), strings(&["a:b", "c:d"]));
    assert_eq!(extract_and_filter_by_option(&a, "-port").unwrap(), strings(&[]));
    assert!(extract_and_filter_by_option(&strings(&["-u"]), "-u").is_err());
}

#[test]
fn hosts_from_arguments() {
    let a = strings(&["-u", "foo:example.internal:8080", "-u", "bar:b:1", "-port", "80"]);
    let t = extract_hosts(&a).unwrap();
    assert_eq!(t.len(), 2);
    assert_eq!(t.entry(0), ("foo", "example.internal:8080"));
    assert_eq!(t.entry(1), ("bar", "b:1"));
}

#[test]
fn hosts_errors() {
    assert_eq!(extract_hosts(&strings(&["-h", "x:y"])).err().unwrap(), "No host specified. -u is necessary");
    assert!(extract_hosts(&strings(&["-u", "nocolon"])).is_err());
    assert!(extract_hosts(&strings(&["-u", ":host"])).is_err());
    assert!(extract_hosts(&strings(&["-u", "key:"])).is_err());
    assert!(extract_hosts(&strings(&[])).is_err());
}

#[test]
fn headers_from_arguments() {
    let a = strings(&["-u", "foo:h", "-h", "X-Proxy:true", "-h", "X-Two:a:b"]);
    let p = extract_headers(&a).unwrap();
    assert_eq!(p.len(), 2);
    assert_eq!(p.entry(0), ("x-proxy", "true"));
    assert_eq!(p.entry(1), ("x-two", "a:b"));
    assert_eq!(extract_headers(&strings(&["-u", "foo:h"])).unwrap().len(), 0);
}

#[test]
fn headers_errors() {
    assert!(extract_headers(&strings(&["-h", "nocolon"])).is_err());
    assert!(extract_headers(&strings(&["-h", "bad name:v"])).is_err());
    assert!(extract_headers(&strings(&["-h", "x:\u{7f}"])).is_err());
    assert!(extract_headers(&strings(&["-h"])).is_err());
}

#[test]
fn get_with_defaults() {
    let a = strings(&["-u", "a:b", "-host", "0.0.0.0", "-port", "8080"]);
    assert_eq!(get(&a, "-host", "127.0.0.1".to_string()), "0.0.0.0");
    assert_eq!(get(&a, "-missing", "dflt".to_string()), "dflt");
    assert_eq!(get(&strings(&["-u"]), "-u", "dflt".to_string()), "dflt");
    assert_eq!(get_port(&a, "-port", 3232), 8080);
    assert_eq!(get_port(&a, "-missing", 3232), 3232);
    assert_eq!(get_port(&strings(&["-port", "70000"]), "-port", 3232), 3232);
    assert_eq!(get_port(&strings(&["-port", "abc"]), "-port", 3232), 3232);
}

#[test]
fn port_parsing() {
    assert_eq!(parse_u16("0"), Some(0));
    assert_eq!(parse_u16("+80"), Some(80));
    assert_eq!(parse_u16("65535"), Some(65535));
    assert_eq!(parse_u16("0065535"), Some(65535));
    assert_eq!(parse_u16("65536"), None);
    assert_eq!(parse_u16(""), None);
    assert_eq!(parse_u16("+"), None);
    assert_eq!(parse_u16("-1"), None);
    assert_eq!(parse_u16("8o"), None);
}

#[test]
fn server_defaults_to_empty_options() {
    let s = WebServer::new("127.0.0.1".to_string(), 3232, None);
    assert_eq!(s.address, "127.0.0.1");
    assert_eq!(s.port, 3232);
    assert_eq!(s.runner().replace_hosts.len(), 0);
    assert_eq!(s.runner().replace_headers.len(), 0);
    let s2 = WebServer::new("h".to_string(), 1, Some(options(&[("a", "b")], &[])));
    assert_eq!(s2.runner().replace_hosts.entry(0), ("a", "b"));
}

#[test]
fn text_helpers() {
    assert!(contains_str("/foo/bar", "foo"));
    assert!(contains_str("abc", ""));
    assert!(!contains_str("ab", "abc"));
    assert!(!contains_str("/fo/o", "foo"));
    assert!(eq_ignore_ascii_case("Host", "hOST"));
    assert!(!eq_ignore_ascii_case("host", "hosts"));
    assert_eq!(split_once_char("a:b:c", ':'), Some(("a".to_string(), "b:c".to_string())));
    assert_eq!(split_once_char("abc", ':'), None);
}
