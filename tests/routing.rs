use sslproxy::config::{ListenRule, Route, Upstream};
use sslproxy::headers::{build_outbound_headers, expand_proxy_header_value, is_hop_header_fast, Headers};
use sslproxy::lb::{upstream_signature, LoadBalancer};
use sslproxy::rewrite::{apply_body_replace, is_basic_auth_ok, replace_literal, rewrite_candidate};
use sslproxy::config::{BodyReplaceRule, UrlRewriteRule};
use sslproxy::routing::{build_upstream_url, is_asset_path, match_route, normalize_host};

fn route(id: &str, host: Option<&str>, path: &str, ups: &[(&str, i32)]) -> Route {
    Route {
        id: Some(id.to_string()),
        enabled: true,
        host: host.map(|h| h.to_string()),
        path: Some(path.to_string()),
        proxy_pass_path: None,
        set_headers: None,
        remove_headers: None,
        static_dir: None,
        url_rewrite_rules: None,
        request_body_replace: None,
        response_body_replace: None,
        exclude_basic_auth: None,
        follow_redirects: false,
        upstreams: ups.iter().map(|(u, w)| Upstream { url: u.to_string(), weight: *w }).collect(),
    }
}

fn rule(ssl: bool) -> ListenRule {
    ListenRule {
        id: Some("r".to_string()),
        enabled: true,
        listen_addr: ":8080".to_string(),
        listen_addrs: vec![],
        ssl_enable: ssl,
        cert_file: String::new(),
        key_file: String::new(),
        basic_auth_enable: false,
        basic_auth_username: String::new(),
        basic_auth_password: String::new(),
        basic_auth_forward_header: false,
        rate_limit_enabled: None,
        rate_limit_requests_per_second: None,
        rate_limit_burst_size: None,
        rate_limit_ban_seconds: None,
        routes: vec![],
    }
}

#[test]
fn swrr_sequence_a1_b2_c3() {
    let r = route("r1", None, "/", &[("A", 1), ("B", 2), ("C", 3)]);
    let mut lb = LoadBalancer::new();
    let picks: Vec<String> = (0..12).map(|_| lb.pick_upstream_smooth(&r).unwrap()).collect();
    let count = |n: &str| picks.iter().filter(|p| p.as_str() == n).count();
    assert_eq!((count("A"), count("B"), count("C")), (2, 4, 6));
    assert_eq!(picks, vec!["C", "B", "A", "C", "B", "C", "C", "B", "A", "C", "B", "C"]);
}

#[test]
fn swrr_state_rebuilt_when_upstreams_change() {
    let mut lb = LoadBalancer::new();
    let r1 = route("r1", None, "/", &[("A", 1), ("B", 1)]);
    assert_eq!(lb.pick_upstream_smooth(&r1).unwrap(), "A");
    let r2 = route("r1", None, "/", &[("B", 5), ("A", 1)]);
    assert_eq!(lb.pick_upstream_smooth(&r2).unwrap(), "B");
    let single = route("r2", None, "/", &[("only", 0)]);
    assert_eq!(lb.pick_upstream_smooth(&single).unwrap(), "only");
    let none = route("r3", None, "/", &[]);
    assert_eq!(lb.pick_upstream_smooth(&none), None);
    let noid = Route { id: Some("  ".to_string()), ..route("x", None, "/", &[("A", 1), ("B", 9)]) };
    assert_eq!(lb.pick_upstream_smooth(&noid).unwrap(), "A");
}

#[test]
fn signature_ignores_order() {
    let a = route("r", None, "/", &[("http://b", 2), ("http://a", -1)]);
    let b = route("r", None, "/", &[("http://a", -1), ("http://b", 2)]);
    assert_eq!(upstream_signature(&a), "http://a#-1|http://b#2");
    assert_eq!(upstream_signature(&a), upstream_signature(&b));
}

#[test]
fn route_matching_prefers_host_then_longest_prefix() {
    let routes = vec![
        route("short", None, "/", &[]),
        route("long", None, "/api", &[]),
        route("host", Some("Example.COM"), "/", &[]),
        route("other", Some("other.com"), "/api/v2", &[]),
    ];
    assert_eq!(match_route(&routes, "example.com:8443", "/api/x"), (Some(2), "host".to_string()));
    assert_eq!(match_route(&routes, "foo.com", "/api/x"), (Some(1), "long".to_string()));
    assert_eq!(match_route(&routes, "foo.com", "/index"), (Some(0), "short".to_string()));
    assert_eq!(match_route(&routes[1..].to_vec(), "foo.com", "/x"), (None, String::new()));
    assert_eq!(normalize_host(" example.com:80"), "example.com");
}

#[test]
fn path_rewrite_api_v1() {
    let u = build_upstream_url("http://u/", Some("/api"), Some("/v1"), "/api/users", Some("x=1"));
    assert_eq!(u, "http://u/v1/users?x=1");
}

#[test]
fn path_rewrite_edge_cases() {
    assert_eq!(build_upstream_url("http://u//", Some("/api"), None, "/api/users", None), "http://u/api/users");
    assert_eq!(build_upstream_url("http://u", Some("/api"), Some("/v1/"), "/api/users", None), "http://u/v1/users");
    assert_eq!(build_upstream_url("http://u", Some("/api"), Some("  "), "/api", None), "http://u/");
    assert_eq!(build_upstream_url("http://u", Some("/api"), Some("v2"), "/other", Some("")), "http://u/other?");
    assert_eq!(build_upstream_url("http://u", None, Some("v2"), "/a", None), "http://u/v2/a");
}

#[test]
fn forwarding_headers() {
    let mut inbound = Headers::new();
    inbound.append("Host".to_string(), "site".to_string());
    inbound.append("X-Forwarded-For".to_string(), "1.1.1.1".to_string());
    inbound.append("Accept-Encoding".to_string(), "gzip".to_string());
    inbound.append("Connection".to_string(), "keep-alive".to_string());
    inbound.append("Upgrade".to_string(), "h2c".to_string());
    inbound.append("X-Custom".to_string(), "v".to_string());
    let r = route("r", None, "/", &[]);
    let out = build_outbound_headers(&inbound, "2.2.2.2", &rule(true), &r, "8443");
    assert_eq!(out.get("x-forwarded-for"), Some("1.1.1.1, 2.2.2.2".to_string()));
    assert_eq!(out.get("x-forwarded-proto"), Some("https".to_string()));
    assert_eq!(out.get("accept-encoding"), Some(String::new()));
    assert_eq!(out.get("x-real-ip"), Some("2.2.2.2".to_string()));
    assert_eq!(out.get("host"), Some("site".to_string()));
    assert_eq!(out.get("x-custom"), Some("v".to_string()));
    assert!(out.entries.iter().all(|(k, _)| !is_hop_header_fast(k)));
    let out = build_outbound_headers(&Headers::new(), "2.2.2.2", &rule(false), &r, "80");
    assert_eq!(out.get("x-forwarded-for"), Some("2.2.2.2".to_string()));
    assert_eq!(out.get("x-forwarded-proto"), Some("http".to_string()));
}

#[test]
fn set_and_remove_headers() {
    let mut inbound = Headers::new();
    inbound.append("Host".to_string(), "h.example".to_string());
    inbound.append("Authorization".to_string(), "Basic xyz".to_string());
    inbound.append("X-Drop".to_string(), "1".to_string());
    let mut r = route("r", None, "/", &[]);
    r.set_headers = Some(vec![
        ("X-Info".to_string(), "$scheme://$host:$server_port from $remote_addr $unknown".to_string()),
        ("Keep-Alive".to_string(), "no".to_string()),
        (" ".to_string(), "blank".to_string()),
    ]);
    r.remove_headers = Some(vec![" x-drop ".to_string()]);
    let mut rl = rule(false);
    rl.basic_auth_enable = true;
    let out = build_outbound_headers(&inbound, "9.9.9.9", &rl, &r, "8080");
    assert_eq!(out.get("x-info"), Some("http://h.example:8080 from 9.9.9.9 $unknown".to_string()));
    assert_eq!(out.get("keep-alive"), None);
    assert_eq!(out.get("authorization"), None);
    assert_eq!(out.get("x-drop"), None);
    let v = expand_proxy_header_value("$proxy_add_x_forwarded_for", "5.5.5.5", &inbound, true, "1");
    assert_eq!(v, "5.5.5.5");
}

#[test]
fn asset_paths() {
    assert!(is_asset_path("/app.js"));
    assert!(is_asset_path("/assets/x"));
    assert!(is_asset_path("/static/y"));
    assert!(!is_asset_path("/dashboard/users"));
}

#[test]
fn basic_auth_checks_credentials() {
    let mut rl = rule(false);
    rl.basic_auth_enable = true;
    rl.basic_auth_username = "user".to_string();
    rl.basic_auth_password = "pass".to_string();
    assert!(is_basic_auth_ok(&rl, false, Some("Basic dXNlcjpwYXNz")));
    assert!(!is_basic_auth_ok(&rl, false, Some("Basic dXNlcjpwYXN6")));
    assert!(!is_basic_auth_ok(&rl, false, Some("Bearer dXNlcjpwYXNz")));
    assert!(!is_basic_auth_ok(&rl, false, Some("Basic !!!")));
    assert!(!is_basic_auth_ok(&rl, false, None));
    assert!(is_basic_auth_ok(&rl, true, None));
}

#[test]
fn url_rewrite_and_body_replace() {
    let rule = UrlRewriteRule { pattern: "^/old/(.*)$".to_string(), replacement: "/new/$1".to_string(), enabled: true };
    assert_eq!(rewrite_candidate("/old/a?b=1", &rule), Some("/new/a?b=1".to_string()));
    assert_eq!(rewrite_candidate("/keep", &rule), None);
    let bad = UrlRewriteRule { pattern: "(".to_string(), replacement: "x".to_string(), enabled: true };
    assert_eq!(rewrite_candidate("/old/a", &bad), None);
    let rules = vec![
        BodyReplaceRule { find: "foo".to_string(), replace: "bar".to_string(), use_regex: false, enabled: true },
        BodyReplaceRule { find: "[0-9]+".to_string(), replace: "N".to_string(), use_regex: true, enabled: true },
        BodyReplaceRule { find: "bar".to_string(), replace: "zzz".to_string(), use_regex: false, enabled: false },
    ];
    assert_eq!(apply_body_replace("foo 12 foofoo 7", &rules), "bar N barbar N");
    assert_eq!(replace_literal("abc", "", "-"), "-a-b-c-");
    assert_eq!(replace_literal("aaa", "aa", "b"), "ba");
}

#[test]
fn swrr_exact_over_several_cycles() {
    let r = route("w", None, "/", &[("A", 5), ("B", 1), ("C", 1)]);
    let mut lb = LoadBalancer::new();
    let picks: Vec<String> = (0..21).map(|_| lb.pick_upstream_smooth(&r).unwrap()).collect();
    let count = |n: &str| picks.iter().filter(|p| p.as_str() == n).count();
    assert_eq!((count("A"), count("B"), count("C")), (15, 3, 3));
    assert_eq!(&picks[0..7], &picks[7..14]);
    assert_eq!(&picks[0..7], &["A", "A", "B", "A", "C", "A", "A"]);
}
