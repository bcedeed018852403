use sslproxy::config::{default_config, ensure_config_ids, ListenRule, Route};
use sslproxy::lifecycle::{
    clear_logs, count_listener_nodes, format_access_log, get_logs, is_effectively_running, is_running, is_starting,
    rule_listen_addrs, send_log, LifecycleState, LogBuffer, StatusEvent, MAX_LOG_LINES,
};

fn rule(enabled: bool, addrs: &[&str]) -> ListenRule {
    ListenRule {
        id: None,
        enabled,
        listen_addr: "0.0.0.0:80".to_string(),
        listen_addrs: addrs.iter().map(|s| s.to_string()).collect(),
        ssl_enable: false,
        cert_file: String::new(),
        key_file: String::new(),
        basic_auth_enable: false,
        basic_auth_username: String::new(),
        basic_auth_password: String::new(),
        basic_auth_forward_header: false,
        rate_limit_enabled: None,
        rate_limit_requests_per_second: None,
        rate_limit_burst_size: None,
        rate_limit_ban_seconds: None,
        routes: vec![Route {
            id: Some(" ".to_string()),
            enabled: true,
            host: None,
            path: Some("/".to_string()),
            proxy_pass_path: None,
            set_headers: None,
            remove_headers: None,
            static_dir: None,
            url_rewrite_rules: None,
            request_body_replace: None,
            response_body_replace: None,
            exclude_basic_auth: None,
            follow_redirects: false,
            upstreams: vec![],
        }],
    }
}

#[test]
fn start_gates_running_on_all_listeners() {
    let mut st = LifecycleState::new();
    assert!(st.begin_start(2));
    assert!(is_starting(&st) && !is_running(&st));
    assert!(!st.begin_start(5));
    assert_eq!(st.listener_started(), StatusEvent::Unchanged);
    assert_eq!(st.listener_started(), StatusEvent::Running);
    assert!(is_running(&st) && !is_starting(&st));
    assert_eq!(st.stop(), StatusEvent::Stopped);
    assert!(!is_effectively_running(&st));
    assert!(st.begin_start(2));
    assert_eq!(st.listener_failed(), StatusEvent::Stopped);
    assert_eq!(st.listener_started(), StatusEvent::Unchanged);
    assert!(!is_running(&st));
    assert!(st.begin_start(0));
    assert!(!is_starting(&st));
}

#[test]
fn listener_nodes() {
    let rules = vec![rule(true, &[" :80 ", "", "127.0.0.1:81"]), rule(true, &[]), rule(false, &[":9"])];
    assert_eq!(rule_listen_addrs(&rules[0]), vec![":80".to_string(), "127.0.0.1:81".to_string()]);
    assert_eq!(rule_listen_addrs(&rules[1]), vec!["0.0.0.0:80".to_string()]);
    assert_eq!(count_listener_nodes(&rules), 3);
}

#[test]
fn log_buffer_keeps_latest_lines() {
    let mut b = LogBuffer::new();
    for i in 0..MAX_LOG_LINES + 5 {
        send_log(&mut b, format!("line {i}"));
    }
    let logs = get_logs(&b);
    assert_eq!(logs.len(), MAX_LOG_LINES);
    assert_eq!(logs[0], "line 5");
    clear_logs(&mut b);
    assert!(get_logs(&b).is_empty());
}

#[test]
fn access_log_line() {
    let line = format_access_log(":8080", "1.2.3.4", "24.01.02 03:04:05", "GET", "/a?b", 200, "-", "curl", 1_234_567);
    assert_eq!(line, "[NODE :8080] [-] 1.2.3.4 - - [24.01.02 03:04:05] \"GET /a?b HTTP/1.1\" 200 - \"-\" \"curl\" 1.235s");
}

#[test]
fn config_ids_filled() {
    let mut cfg = default_config();
    assert!(cfg.allow_all_lan && cfg.stream_proxy && cfg.rules.is_empty());
    cfg.rules.push(rule(true, &[]));
    let mut keep = rule(true, &[]);
    keep.id = Some("kept".to_string());
    cfg.rules.push(keep);
    ensure_config_ids(&mut cfg);
    let id0 = cfg.rules[0].id.clone().unwrap();
    assert_eq!(id0.len(), 36);
    assert_eq!(cfg.rules[1].id.as_deref(), Some("kept"));
    assert_eq!(cfg.rules[0].routes[0].id.as_ref().unwrap().len(), 36);
}
