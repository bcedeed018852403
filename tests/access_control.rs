use sslproxy::access::{client_ip_from_headers, is_allowed_fast, normalize_ip_key, Blacklist};
use sslproxy::config::WhitelistEntry;
use sslproxy::headers::Headers;
use sslproxy::ip::{is_lan_ip, is_loopback_ip, to_ipv4_mapped, IpAddr};
use sslproxy::iptext::{ip_to_string, parse_ip, parse_listen_addr, ListenAddr};

fn ip(s: &str) -> IpAddr {
    parse_ip(s).expect("address")
}

fn headers(pairs: &[(&str, &str)]) -> Headers {
    let mut h = Headers::new();
    for (k, v) in pairs {
        h.append(k.to_string(), v.to_string());
    }
    h
}

#[test]
fn test_ipv4_mapped_conversion() {
    let mapped = ip("::ffff:192.168.1.128");
    match to_ipv4_mapped(&mapped) {
        IpAddr::V4(a) => assert_eq!(a.to_be_bytes(), [192, 168, 1, 128]),
        other => panic!("Expected IPv4 address, got {:?}", other),
    }
}

#[test]
fn test_ipv6_loopback() {
    assert!(is_loopback_ip(&ip("::1")));
}

#[test]
fn test_ipv6_unique_local() {
    assert!(is_lan_ip(&ip("fc00::1")));
}

#[test]
fn test_ipv6_link_local() {
    assert!(is_lan_ip(&ip("fe80::1")));
}

#[test]
fn test_ipv4_mapped_lan_detection() {
    assert!(is_lan_ip(&ip("::ffff:192.168.1.128")));
}

#[test]
fn test_ip_to_string() {
    assert_eq!(ip_to_string(&ip("::ffff:192.168.1.128")), "192.168.1.128");
}

#[test]
fn test_is_allowed_fast_ipv6_loopback() {
    let h = Headers::new();
    let bl = Blacklist::new();
    assert!(
        is_allowed_fast(&ip("::1"), &h, false, false, &vec![], &bl, 0),
        "IPv6 loopback should be allowed even without allow_all_lan"
    );
}

#[test]
fn test_is_allowed_fast_ipv4_mapped_with_allow_all_lan() {
    let h = Headers::new();
    let bl = Blacklist::new();
    assert!(
        is_allowed_fast(&ip("::ffff:192.168.1.128"), &h, true, false, &vec![], &bl, 0),
        "IPv4-mapped IPv6 LAN address should be allowed with allow_all_lan=true"
    );
}

#[test]
fn test_is_allowed_fast_ipv6_unique_local_with_allow_all_lan() {
    let h = Headers::new();
    let bl = Blacklist::new();
    assert!(
        is_allowed_fast(&ip("fc00::1"), &h, true, false, &vec![], &bl, 0),
        "IPv6 unique local address should be allowed with allow_all_lan=true"
    );
}

#[test]
fn access_control_fold_whitelist() {
    let wl = vec![WhitelistEntry { ip: "192.168.1.10".to_string() }];
    let bl = Blacklist::new();
    let h = Headers::new();
    assert!(is_allowed_fast(&ip("::ffff:192.168.1.10"), &h, false, false, &wl, &bl, 0));
    assert!(!is_allowed_fast(&ip("::ffff:192.168.1.11"), &h, false, false, &wl, &bl, 0));
}

#[test]
fn public_address_needs_allow_all_ip() {
    let bl = Blacklist::new();
    let h = Headers::new();
    assert!(!is_allowed_fast(&ip("8.8.8.8"), &h, true, false, &vec![], &bl, 0));
    assert!(is_allowed_fast(&ip("8.8.8.8"), &h, false, true, &vec![], &bl, 0));
}

#[test]
fn blacklist_denies_even_loopback() {
    let mut bl = Blacklist::new();
    bl.add("127.0.0.1", 0);
    let h = Headers::new();
    assert!(!is_allowed_fast(&ip("127.0.0.1"), &h, true, true, &vec![], &bl, 100));
    bl.remove("127.0.0.1");
    assert!(is_allowed_fast(&ip("127.0.0.1"), &h, true, true, &vec![], &bl, 100));
}

#[test]
fn blacklist_expiry_and_cleanup() {
    let mut bl = Blacklist::new();
    bl.add(" 10.0.0.9 ", 200);
    assert!(bl.is_ip_blacklisted("10.0.0.9", 100));
    assert!(!bl.is_ip_blacklisted("10.0.0.9", 200));
    bl.cleanup(300);
    assert!(bl.entries.is_empty());
    assert_eq!(normalize_ip_key("  FE80::1 "), "fe80::1");
}

#[test]
fn client_ip_prefers_forwarded_for() {
    let remote = ip("2.2.2.2");
    let h = headers(&[("X-Forwarded-For", " 1.1.1.1 , 3.3.3.3"), ("X-Real-IP", "4.4.4.4")]);
    assert_eq!(client_ip_from_headers(&remote, &h), "1.1.1.1");
    let h = headers(&[("X-Forwarded-For", "garbage"), ("x-real-ip", "::ffff:4.4.4.4")]);
    assert_eq!(client_ip_from_headers(&remote, &h), "4.4.4.4");
    let h = Headers::new();
    assert_eq!(client_ip_from_headers(&remote, &h), "2.2.2.2");
}

#[test]
fn ip_text_round_trips() {
    assert_eq!(ip_to_string(&ip("2001:0db8:0:0:0:0:0:1")), "2001:db8::1");
    assert_eq!(ip_to_string(&ip("::")), "::");
    assert_eq!(ip_to_string(&ip("1:0:0:2:0:0:0:3")), "1:0:0:2::3");
    assert_eq!(ip_to_string(&ip("1:2:3:4:5:6:7:8")), "1:2:3:4:5:6:7:8");
    assert_eq!(ip_to_string(&ip(" 10.0.0.1 ")), "10.0.0.1");
    assert_eq!(parse_ip("01.2.3.4"), None);
    assert_eq!(parse_ip("256.1.1.1"), None);
    assert_eq!(parse_ip("1.2.3"), None);
    assert_eq!(parse_ip("1::2::3"), None);
    assert_eq!(parse_ip("::ffff:1.2.3.4"), Some(IpAddr::V6(0xffff_0102_0304)));
    assert_eq!(parse_ip("FE80::1"), Some(IpAddr::V6(0xfe80_0000_0000_0000_0000_0000_0000_0001)));
}

#[test]
fn listen_addresses() {
    assert_eq!(parse_listen_addr(" :8080 "), Some(ListenAddr { ip: IpAddr::V6(0), port: 8080, dual_stack: true }));
    assert_eq!(
        parse_listen_addr("127.0.0.1:443"),
        Some(ListenAddr { ip: IpAddr::V4(0x7f00_0001), port: 443, dual_stack: false })
    );
    assert_eq!(parse_listen_addr("[::1]:80"), Some(ListenAddr { ip: IpAddr::V6(1), port: 80, dual_stack: false }));
    assert_eq!(parse_listen_addr("127.0.0.1:70000"), None);
    assert_eq!(parse_listen_addr("localhost:80"), None);
    assert_eq!(parse_listen_addr(":"), None);
}

#[test]
fn mapped_and_plain_forms_decide_alike() {
    let bl = Blacklist::new();
    let h = Headers::new();
    for a in ["10.1.2.3", "172.20.0.1", "192.168.0.9", "169.254.1.1", "8.8.4.4", "127.0.0.1"] {
        let plain = ip(a);
        let mapped = ip(&format!("::ffff:{a}"));
        assert_eq!(is_lan_ip(&plain), is_lan_ip(&mapped));
        assert_eq!(is_loopback_ip(&plain), is_loopback_ip(&mapped));
        for (lan, all) in [(false, false), (true, false), (false, true)] {
            assert_eq!(
                is_allowed_fast(&plain, &h, lan, all, &vec![], &bl, 0),
                is_allowed_fast(&mapped, &h, lan, all, &vec![], &bl, 0)
            );
        }
        assert_eq!(client_ip_from_headers(&plain, &h), client_ip_from_headers(&mapped, &h));
    }
    assert!(is_allowed_fast(&ip("127.0.0.1"), &h, false, false, &vec![], &bl, 0));
    assert!(!is_lan_ip(&ip("172.32.0.1")));
}
