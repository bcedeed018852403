//! Configuration snapshot read by the proxy core.
use vstd::prelude::*;

verus! {

/// One whitelisted address, as written in the configuration.
#[derive(Clone, Debug)]
pub struct WhitelistEntry {
    pub ip: String,
}

/// One HTTP upstream of a route, with its load-balancing weight.
#[derive(Clone, Debug)]
pub struct Upstream {
    pub url: String,
    pub weight: i32,
}

/// A regex replacement applied to the inbound URI.
#[derive(Clone, Debug)]
pub struct UrlRewriteRule {
    pub pattern: String,
    pub replacement: String,
    pub enabled: bool,
}

/// A substitution applied to a buffered request or response body.
#[derive(Clone, Debug)]
pub struct BodyReplaceRule {
    pub find: String,
    pub replace: String,
    pub use_regex: bool,
    pub enabled: bool,
}

/// A route of a listen rule.
#[derive(Clone, Debug)]
pub struct Route {
    pub id: Option<String>,
    pub enabled: bool,
    pub host: Option<String>,
    pub path: Option<String>,
    pub proxy_pass_path: Option<String>,
    pub set_headers: Option<Vec<(String, String)>>,
    pub remove_headers: Option<Vec<String>>,
    pub static_dir: Option<String>,
    pub url_rewrite_rules: Option<Vec<UrlRewriteRule>>,
    pub request_body_replace: Option<Vec<BodyReplaceRule>>,
    pub response_body_replace: Option<Vec<BodyReplaceRule>>,
    pub exclude_basic_auth: Option<bool>,
    pub follow_redirects: bool,
    pub upstreams: Vec<Upstream>,
}

/// An HTTP listen rule: addresses, TLS material, Basic auth, rate limit and
/// ordered routes.
#[derive(Clone, Debug)]
pub struct ListenRule {
    pub id: Option<String>,
    pub enabled: bool,
    pub listen_addr: String,
    pub listen_addrs: Vec<String>,
    pub ssl_enable: bool,
    pub cert_file: String,
    pub key_file: String,
    pub basic_auth_enable: bool,
    pub basic_auth_username: String,
    pub basic_auth_password: String,
    pub basic_auth_forward_header: bool,
    pub rate_limit_enabled: Option<bool>,
    pub rate_limit_requests_per_second: Option<u32>,
    pub rate_limit_burst_size: Option<u32>,
    pub rate_limit_ban_seconds: Option<u64>,
    pub routes: Vec<Route>,
}

/// Where realtime records are persisted.
#[derive(Clone, Debug)]
pub struct MetricsStorage {
    pub enabled: bool,
    pub db_path: String,
}

/// Settings of the update checker of the desktop shell.
#[derive(Clone, Debug)]
pub struct UpdateConfig {
    pub enabled: bool,
    pub server_url: String,
    pub auto_check: bool,
    pub timeout_ms: i32,
    pub channel: Option<String>,
    pub ignore_prerelease: bool,
}

/// One server of a stream upstream group.
#[derive(Clone, Debug)]
pub struct StreamUpstreamServer {
    pub addr: String,
    pub weight: i32,
    pub max_fails: i32,
    pub fail_timeout: String,
}

/// A named stream upstream group.
#[derive(Clone, Debug)]
pub struct StreamUpstream {
    pub name: String,
    pub hash_key: String,
    pub consistent: bool,
    pub servers: Vec<StreamUpstreamServer>,
}

/// A TCP or UDP stream listener.
#[derive(Clone, Debug)]
pub struct StreamServer {
    pub enabled: bool,
    pub listen_port: u16,
    pub proxy_pass: String,
    pub proxy_connect_timeout: String,
    pub proxy_timeout: String,
    pub udp: bool,
}

/// The stream proxy section.
#[derive(Clone, Debug)]
pub struct StreamProxyConfig {
    pub enabled: bool,
    pub upstreams: Vec<StreamUpstream>,
    pub servers: Vec<StreamServer>,
}

/// A WebSocket route: path prefix and upstream URL.
#[derive(Clone, Debug)]
pub struct WsRoute {
    pub path: String,
    pub upstream_url: String,
}

/// A WebSocket listen rule.
#[derive(Clone, Debug)]
pub struct WsListenRule {
    pub enabled: bool,
    pub listen_addr: String,
    pub ssl_enable: bool,
    pub cert_file: String,
    pub key_file: String,
    pub routes: Vec<WsRoute>,
}

/// The whole configuration snapshot.
#[derive(Clone, Debug)]
pub struct Config {
    pub rules: Vec<ListenRule>,
    pub ws_proxy_enabled: bool,
    pub ws_proxy: Option<Vec<WsListenRule>>,
    pub stream: StreamProxyConfig,
    pub allow_all_lan: bool,
    pub allow_all_ip: bool,
    pub whitelist: Vec<WhitelistEntry>,
    pub http_access_control_enabled: bool,
    pub ws_access_control_enabled: bool,
    pub stream_access_control_enabled: bool,
    pub auto_start: bool,
    pub show_realtime_logs: bool,
    pub realtime_logs_only_errors: bool,
    pub stream_proxy: bool,
    pub max_body_size: usize,
    pub max_response_body_size: usize,
    pub upstream_connect_timeout_ms: u64,
    pub upstream_read_timeout_ms: u64,
    pub upstream_pool_max_idle: usize,
    pub upstream_pool_idle_timeout_sec: u64,
    pub enable_http2: bool,
    pub compression_enabled: bool,
    pub compression_gzip: bool,
    pub compression_gzip_level: u32,
    pub compression_brotli: bool,
    pub compression_brotli_level: u32,
    pub metrics_storage: Option<MetricsStorage>,
    pub update: Option<UpdateConfig>,
}

/// The default of flags that are on unless configured.
pub fn default_true() -> (r: bool)
    ensures
        r,
{
    true
}

/// Default limit of a buffered request body: 10 MiB.
pub fn default_max_body_size() -> (r: usize)
    ensures
        r == 10 * 1024 * 1024,
{
    10 * 1024 * 1024
}

/// Default limit of a buffered response body: 10 MiB.
pub fn default_max_response_body_size() -> (r: usize)
    ensures
        r == 10 * 1024 * 1024,
{
    10 * 1024 * 1024
}

/// HTTP/2 towards upstreams is on by default.
pub fn default_enable_http2() -> (r: bool)
    ensures
        r,
{
    true
}

/// The WebSocket proxy is on by default.
pub fn default_ws_proxy_enabled() -> (r: bool)
    ensures
        r,
{
    true
}

/// Default upstream connect timeout: 5 s.
pub fn default_upstream_connect_timeout_ms() -> (r: u64)
    ensures
        r == 5000,
{
    5000
}

/// Default upstream transaction timeout: 30 s.
pub fn default_upstream_read_timeout_ms() -> (r: u64)
    ensures
        r == 30000,
{
    30000
}

/// Default idle connections kept per upstream host.
pub fn default_upstream_pool_max_idle() -> (r: usize)
    ensures
        r == 100,
{
    100
}

/// Default idle time before a pooled connection closes.
pub fn default_upstream_pool_idle_timeout_sec() -> (r: u64)
    ensures
        r == 60,
{
    60
}

/// Routes do not follow upstream redirects by default.
pub fn default_follow_redirects() -> (r: bool)
    ensures
        !r,
{
    false
}

/// Default weight of a stream server.
pub fn default_stream_weight() -> (r: i32)
    ensures
        r == 1,
{
    1
}

/// Default failures before a stream server is marked down.
pub fn default_stream_max_fails() -> (r: i32)
    ensures
        r == 1,
{
    1
}

/// Default time a failed stream server stays down.
pub fn default_stream_fail_timeout() -> (r: String)
    ensures
        r@ == "30s"@,
{
    String::from_str("30s")
}

/// Stream groups hash by client address by default.
pub fn default_stream_hash_key() -> (r: String)
    ensures
        r@ == "$remote_addr"@,
{
    String::from_str("$remote_addr")
}

/// Stream groups use the consistent-hash ring by default.
pub fn default_stream_consistent() -> (r: bool)
    ensures
        r,
{
    true
}

/// Default stream connect timeout.
pub fn default_stream_proxy_connect_timeout() -> (r: String)
    ensures
        r@ == "300s"@,
{
    String::from_str("300s")
}

/// Default limit of a stream relay.
pub fn default_stream_proxy_timeout() -> (r: String)
    ensures
        r@ == "600s"@,
{
    String::from_str("600s")
}

/// The configuration used before any file is read: no rules, LAN allowed,
/// documented defaults elsewhere.
pub fn default_config() -> (r: Config)
    ensures
        r.rules@.len() == 0,
        r.whitelist@.len() == 0,
        r.allow_all_lan,
        !r.allow_all_ip,
        r.stream_proxy,
        r.ws_proxy_enabled,
        !r.stream.enabled,
        r.max_body_size == 10 * 1024 * 1024,
        r.max_response_body_size == 10 * 1024 * 1024,
        r.upstream_connect_timeout_ms == 5000,
        r.upstream_read_timeout_ms == 30000,
        r.upstream_pool_max_idle == 100,
        r.upstream_pool_idle_timeout_sec == 60,
        r.enable_http2,
        !r.compression_enabled,
{
    Config {
        rules: Vec::new(),
        ws_proxy_enabled: default_ws_proxy_enabled(),
        ws_proxy: None,
        stream: StreamProxyConfig { enabled: false, upstreams: Vec::new(), servers: Vec::new() },
        allow_all_lan: true,
        allow_all_ip: false,
        whitelist: Vec::new(),
        http_access_control_enabled: true,
        ws_access_control_enabled: true,
        stream_access_control_enabled: true,
        auto_start: false,
        show_realtime_logs: true,
        realtime_logs_only_errors: false,
        stream_proxy: default_true(),
        max_body_size: default_max_body_size(),
        max_response_body_size: default_max_response_body_size(),
        upstream_connect_timeout_ms: default_upstream_connect_timeout_ms(),
        upstream_read_timeout_ms: default_upstream_read_timeout_ms(),
        upstream_pool_max_idle: default_upstream_pool_max_idle(),
        upstream_pool_idle_timeout_sec: default_upstream_pool_idle_timeout_sec(),
        enable_http2: default_enable_http2(),
        compression_enabled: false,
        compression_gzip: false,
        compression_gzip_level: 6,
        compression_brotli: false,
        compression_brotli_level: 6,
        metrics_storage: None,
        update: None,
    }
}

} // verus!

verus! {

/// Relies on `uuid::Uuid::new_v4` and its hyphenated `Display` form: a
/// fresh random identifier, 36 lower-case hexadecimal digits and hyphens.
#[verifier::external_body]
fn new_uuid_v4() -> (r: String)
    ensures
        r@.len() == 36,
        forall|i: int| 0 <= i < r@.len() ==> ('0' <= #[trigger] r@[i] <= '9') || ('a' <= r@[i] <= 'f') || r@[i] == '-',
{
    uuid::Uuid::new_v4().to_string()
}

/// An id that must be replaced: missing or blank.
pub open spec fn needs_id(id: Option<String>) -> bool {
    match id {
        Some(s) => crate::text::trim_spec(s@).len() == 0,
        None => true,
    }
}

/// The id after `ensure_config_ids`: kept when present, else a fresh one.
pub open spec fn id_fixed(old: Option<String>, new: Option<String>) -> bool {
    &&& !needs_id(new)
    &&& !needs_id(old) ==> new == old
}

fn fix_id(id: &mut Option<String>)
    ensures
        id_fixed(*old(id), *final(id)),
{
    let blank = match id {
        Some(s) => crate::text::trim(s.as_str()).unicode_len() == 0,
        None => true,
    };
    if blank {
        let u = new_uuid_v4();
        assert(crate::text::trim_spec(u@).len() > 0) by {
            lemma_trim_len_36(u@);
        }
        *id = Some(u);
    }
}

proof fn lemma_trim_len_36(s: Seq<char>)
    requires
        s.len() == 36,
        forall|i: int| 0 <= i < s.len() ==> ('0' <= #[trigger] s[i] <= '9') || ('a' <= s[i] <= 'f') || s[i] == '-',
    ensures
        crate::text::trim_spec(s).len() > 0,
{
    assert(!crate::text::is_ws(s[0]));
    assert(crate::text::trim_start_spec(s) == s);
    assert(!crate::text::is_ws(s.last()));
}

/// Route `b` is route `a` with at most its id changed.
pub open spec fn route_id_only_changed(a: Route, b: Route) -> bool {
    b == (Route { id: b.id, ..a })
}

/// Rule `b` is rule `a` with at most its own and its routes' ids changed.
pub open spec fn rule_ids_only_changed(a: ListenRule, b: ListenRule) -> bool {
    &&& b == (ListenRule { id: b.id, routes: b.routes, ..a })
    &&& b.routes@.len() == a.routes@.len()
    &&& forall|j: int| 0 <= j < a.routes@.len() ==> route_id_only_changed(a.routes@[j], #[trigger] b.routes@[j])
}

/// Configuration `b` is `a` with at most rule and route ids changed.
pub open spec fn ids_only_changed(a: Config, b: Config) -> bool {
    &&& b == (Config { rules: b.rules, ..a })
    &&& b.rules@.len() == a.rules@.len()
    &&& forall|i: int| 0 <= i < a.rules@.len() ==> rule_ids_only_changed(a.rules@[i], #[trigger] b.rules@[i])
}

/// Gives every rule and route without a (non-blank) id a fresh one; ids
/// that are present stay as they are.
pub fn ensure_config_ids(config: &mut Config)
    ensures
        final(config).rules@.len() == old(config).rules@.len(),
        forall|i: int| 0 <= i < final(config).rules@.len() ==> id_fixed(old(config).rules@[i].id, (#[trigger] final(config).rules@[i]).id)
            && final(config).rules@[i].routes@.len() == old(config).rules@[i].routes@.len()
            && forall|j: int| 0 <= j < final(config).rules@[i].routes@.len() ==> id_fixed(
                old(config).rules@[i].routes@[j].id,
                (#[trigger] final(config).rules@[i].routes@[j]).id,
            ),
        ids_only_changed(*old(config), *final(config)),
{
    let n = config.rules.len();
    let mut i: usize = 0;
    while i < n
        invariant
            i <= n == config.rules@.len() == old(config).rules@.len(),
            forall|x: int| 0 <= x < i ==> id_fixed(old(config).rules@[x].id, (#[trigger] config.rules@[x]).id)
                && config.rules@[x].routes@.len() == old(config).rules@[x].routes@.len()
                && forall|j: int| 0 <= j < config.rules@[x].routes@.len() ==> id_fixed(
                    old(config).rules@[x].routes@[j].id,
                    (#[trigger] config.rules@[x].routes@[j]).id,
                ),
            forall|x: int| i <= x < n ==> #[trigger] config.rules@[x] == old(config).rules@[x],
            forall|x: int| 0 <= x < i ==> rule_ids_only_changed(old(config).rules@[x], #[trigger] config.rules@[x]),
            *config == (Config { rules: config.rules, ..*old(config) }),
        decreases n - i,
    {
        fix_id(&mut config.rules[i].id);
        let m = config.rules[i].routes.len();
        let mut j: usize = 0;
        while j < m
            invariant
                i < n == config.rules@.len() == old(config).rules@.len(),
                j <= m == config.rules@[i as int].routes@.len() == old(config).rules@[i as int].routes@.len(),
                id_fixed(old(config).rules@[i as int].id, config.rules@[i as int].id),
                forall|y: int| 0 <= y < j ==> id_fixed(old(config).rules@[i as int].routes@[y].id, (#[trigger] config.rules@[i as int].routes@[y]).id),
                forall|y: int| j <= y < m ==> #[trigger] config.rules@[i as int].routes@[y] == old(config).rules@[i as int].routes@[y],
                forall|x: int| 0 <= x < i ==> id_fixed(old(config).rules@[x].id, (#[trigger] config.rules@[x]).id)
                    && config.rules@[x].routes@.len() == old(config).rules@[x].routes@.len()
                    && forall|k: int| 0 <= k < config.rules@[x].routes@.len() ==> id_fixed(
                        old(config).rules@[x].routes@[k].id,
                        (#[trigger] config.rules@[x].routes@[k]).id,
                    ),
                forall|x: int| i < x < n ==> #[trigger] config.rules@[x] == old(config).rules@[x],
                forall|x: int| 0 <= x < i ==> rule_ids_only_changed(old(config).rules@[x], #[trigger] config.rules@[x]),
                forall|y: int| 0 <= y < j ==> route_id_only_changed(old(config).rules@[i as int].routes@[y], #[trigger] config.rules@[i as int].routes@[y]),
                config.rules@[i as int] == (ListenRule { id: config.rules@[i as int].id, routes: config.rules@[i as int].routes, ..old(config).rules@[i as int] }),
                *config == (Config { rules: config.rules, ..*old(config) }),
            decreases m - j,
        {
            fix_id(&mut config.rules[i].routes[j].id);
            j = j + 1;
        }
        i = i + 1;
    }
}

/// Fills in missing ids before the configuration is saved.
pub fn ensure_config_ids_for_save(config: &mut Config)
    ensures
        final(config).rules@.len() == old(config).rules@.len(),
        forall|i: int| 0 <= i < final(config).rules@.len() ==> id_fixed(old(config).rules@[i].id, (#[trigger] final(config).rules@[i]).id)
            && forall|j: int| 0 <= j < final(config).rules@[i].routes@.len() ==> id_fixed(
                old(config).rules@[i].routes@[j].id,
                (#[trigger] final(config).rules@[i].routes@[j]).id,
            ),
        ids_only_changed(*old(config), *final(config)),
{
    ensure_config_ids(config);
}

} // verus!

verus! {

/// A request to enable or disable one route of one listen rule.
#[derive(Clone, Debug)]
pub struct SetRouteEnabledArgs {
    pub listen_rule_id: String,
    pub route_id: String,
    pub enabled: bool,
}

/// A request to enable or disable one listen rule.
#[derive(Clone, Debug)]
pub struct SetListenRuleEnabledArgs {
    pub listen_rule_id: String,
    pub enabled: bool,
}

/// The id of a rule or route as text (empty when missing).
pub open spec fn id_text(id: Option<String>) -> Seq<char> {
    match id {
        Some(s) => s@,
        None => Seq::empty(),
    }
}

fn id_is(id: &Option<String>, want: &String) -> (r: bool)
    ensures
        r == (id_text(*id) == want@),
{
    match id {
        Some(s) => {
            let r = s.eq(want);
            assert(r == (s@ == want@));
            r
        },
        None => {
            let r = want.unicode_len() == 0;
            assert(r ==> want@ =~= Seq::<char>::empty());
            r
        },
    }
}

/// Sets `enabled` on the first rule with the given id; `false` when there
/// is none (and nothing changes).
pub fn set_listen_rule_enabled(config: &mut Config, args: &SetListenRuleEnabledArgs) -> (r: bool)
    ensures
        final(config).rules@.len() == old(config).rules@.len(),
        r == exists|i: int| 0 <= i < old(config).rules@.len() && id_text((#[trigger] old(config).rules@[i]).id) == args.listen_rule_id@,
        forall|i: int| 0 <= i < final(config).rules@.len() ==> (#[trigger] final(config).rules@[i]).id == old(config).rules@[i].id
            && final(config).rules@[i].routes == old(config).rules@[i].routes,
        !r ==> final(config).rules@ == old(config).rules@,
        r ==> exists|i: int| 0 <= i < final(config).rules@.len() && id_text((#[trigger] final(config).rules@[i]).id) == args.listen_rule_id@
            && final(config).rules@[i].enabled == args.enabled
            && forall|j: int| 0 <= j < i ==> id_text((#[trigger] old(config).rules@[j]).id) != args.listen_rule_id@,
        r ==> exists|i: int| 0 <= i < old(config).rules@.len()
            && final(config).rules@ == old(config).rules@.update(i, (ListenRule { enabled: args.enabled, ..(#[trigger] old(config).rules@[i]) })),
        *final(config) == (Config { rules: final(config).rules, ..*old(config) }),
{
    let n = config.rules.len();
    let mut i: usize = 0;
    while i < n
        invariant
            i <= n == config.rules@.len(),
            config.rules@ == old(config).rules@,
            *config == (Config { rules: config.rules, ..*old(config) }),
            forall|j: int| 0 <= j < i ==> id_text((#[trigger] config.rules@[j]).id) != args.listen_rule_id@,
        decreases n - i,
    {
        if id_is(&config.rules[i].id, &args.listen_rule_id) {
            config.rules[i].enabled = args.enabled;
            assert(config.rules@ =~= old(config).rules@.update(i as int, (ListenRule { enabled: args.enabled, ..old(config).rules@[i as int] })));
            return true;
        }
        i = i + 1;
    }
    false
}

/// Sets `enabled` on the first route with the given id inside the first
/// rule with the given id that holds it; `false` when none is found.
pub fn set_route_enabled(config: &mut Config, args: &SetRouteEnabledArgs) -> (r: bool)
    ensures
        final(config).rules@.len() == old(config).rules@.len(),
        !r ==> final(config).rules@ == old(config).rules@,
        r ==> exists|i: int, k: int| 0 <= i < final(config).rules@.len() && 0 <= k < (#[trigger] final(config).rules@[i]).routes@.len()
            && id_text(final(config).rules@[i].id) == args.listen_rule_id@
            && id_text((#[trigger] final(config).rules@[i].routes@[k]).id) == args.route_id@
            && final(config).rules@[i].routes@[k].enabled == args.enabled,
        !r ==> forall|i: int, k: int| 0 <= i < old(config).rules@.len() && 0 <= k < (#[trigger] old(config).rules@[i]).routes@.len()
            && id_text(old(config).rules@[i].id) == args.listen_rule_id@
            ==> id_text((#[trigger] old(config).rules@[i].routes@[k]).id) != args.route_id@,
        r ==> exists|i: int, k: int| 0 <= i < old(config).rules@.len() && 0 <= k < (#[trigger] old(config).rules@[i]).routes@.len()
            && (forall|x: int| 0 <= x < old(config).rules@.len() && x != i ==> #[trigger] final(config).rules@[x] == old(config).rules@[x])
            && final(config).rules@[i] == (ListenRule { routes: final(config).rules@[i].routes, ..old(config).rules@[i] })
            && final(config).rules@[i].routes@ == old(config).rules@[i].routes@.update(k, (Route { enabled: args.enabled, ..(#[trigger] old(config).rules@[i].routes@[k]) })),
        *final(config) == (Config { rules: final(config).rules, ..*old(config) }),
{
    let n = config.rules.len();
    let mut i: usize = 0;
    while i < n
        invariant
            i <= n == config.rules@.len(),
            config.rules@ == old(config).rules@,
            *config == (Config { rules: config.rules, ..*old(config) }),
            forall|x: int, k: int| 0 <= x < i && 0 <= k < (#[trigger] config.rules@[x]).routes@.len()
                && id_text(config.rules@[x].id) == args.listen_rule_id@
                ==> id_text((#[trigger] config.rules@[x].routes@[k]).id) != args.route_id@,
        decreases n - i,
    {
        if id_is(&config.rules[i].id, &args.listen_rule_id) {
            let m = config.rules[i].routes.len();
            let mut k: usize = 0;
            while k < m
                invariant
                    i < n == config.rules@.len(),
                    k <= m == config.rules@[i as int].routes@.len(),
                    config.rules@ == old(config).rules@,
                    *config == (Config { rules: config.rules, ..*old(config) }),
            *config == (Config { rules: config.rules, ..*old(config) }),
                    id_text(config.rules@[i as int].id) == args.listen_rule_id@,
                    forall|y: int| 0 <= y < k ==> id_text((#[trigger] config.rules@[i as int].routes@[y]).id) != args.route_id@,
                    forall|x: int, k2: int| 0 <= x < i && 0 <= k2 < (#[trigger] config.rules@[x]).routes@.len()
                        && id_text(config.rules@[x].id) == args.listen_rule_id@
                        ==> id_text((#[trigger] config.rules@[x].routes@[k2]).id) != args.route_id@,
                decreases m - k,
            {
                if id_is(&config.rules[i].routes[k].id, &args.route_id) {
                    config.rules[i].routes[k].enabled = args.enabled;
                    assert(config.rules@[i as int].routes@ =~= old(config).rules@[i as int].routes@.update(k as int, (Route { enabled: args.enabled, ..old(config).rules@[i as int].routes@[k as int] })));
                    assert(id_text(config.rules@[i as int].routes@[k as int].id) == args.route_id@);
                    return true;
                }
                k = k + 1;
            }
        }
        i = i + 1;
    }
    false
}

} // verus!
