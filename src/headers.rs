//! Header lists and the construction of the headers sent upstream.
use vstd::prelude::*;
use crate::config::{ListenRule, Route};
use crate::text::{chars_of, eq_ignore_ascii_case, is_prefix, lower_spec, push_str, trim, trim_spec};

verus! {

/// A header list as values: ordered `(name, value)` pairs.
pub type HeaderSeq = Seq<(Seq<char>, Seq<char>)>;

/// Whether two header names are the same (ASCII case-insensitive).
pub open spec fn same_name(a: Seq<char>, b: Seq<char>) -> bool {
    lower_spec(a) == lower_spec(b)
}

/// The value of the first header named `name`.
pub open spec fn h_get(h: HeaderSeq, name: Seq<char>) -> Option<Seq<char>>
    decreases h.len(),
{
    if h.len() == 0 {
        None
    } else if same_name(h[0].0, name) {
        Some(h[0].1)
    } else {
        h_get(h.drop_first(), name)
    }
}

/// `h` without the headers named `name`.
pub open spec fn h_remove(h: HeaderSeq, name: Seq<char>) -> HeaderSeq
    decreases h.len(),
{
    if h.len() == 0 {
        h
    } else if same_name(h[0].0, name) {
        h_remove(h.drop_first(), name)
    } else {
        seq![h[0]] + h_remove(h.drop_first(), name)
    }
}

/// `h` with every header named `name` replaced by one `name: value`.
pub open spec fn h_insert(h: HeaderSeq, name: Seq<char>, value: Seq<char>) -> HeaderSeq {
    h_remove(h, name).push((name, value))
}

/// Whether a header named `name` is present.
pub open spec fn h_has(h: HeaderSeq, name: Seq<char>) -> bool {
    exists|i: int| 0 <= i < h.len() && same_name(#[trigger] h[i].0, name)
}

/// An ordered list of HTTP headers; names compare case-insensitively.
#[derive(Clone, Debug)]
pub struct Headers {
    pub entries: Vec<(String, String)>,
}

impl View for Headers {
    type V = HeaderSeq;

    open spec fn view(&self) -> HeaderSeq {
        Seq::new(self.entries@.len(), |i: int| (self.entries@[i].0@, self.entries@[i].1@))
    }
}

impl Headers {
    /// An empty header list.
    pub fn new() -> (r: Headers)
        ensures
            r@ == Seq::<(Seq<char>, Seq<char>)>::empty(),
    {
        let r = Headers { entries: Vec::new() };
        assert(r@ =~= Seq::<(Seq<char>, Seq<char>)>::empty());
        r
    }

    /// Adds `name: value` at the end.
    pub fn append(&mut self, name: String, value: String)
        ensures
            final(self)@ == old(self)@.push((name@, value@)),
    {
        self.entries.push((name, value));
        assert(self@ =~= old(self)@.push((name@, value@)));
    }

    /// The value of the first header named `name`.
    pub fn get(&self, name: &str) -> (r: Option<String>)
        ensures
            match r {
                Some(v) => h_get(self@, name@) == Some(v@),
                None => h_get(self@, name@) is None,
            },
    {
        let mut i: usize = 0;
        assert(self@.subrange(0, self@.len() as int) == self@);
        while i < self.entries.len()
            invariant
                i <= self.entries@.len(),
                h_get(self@, name@) == h_get(self@.subrange(i as int, self@.len() as int), name@),
            decreases self.entries@.len() - i,
        {
            let ghost rest = self@.subrange(i as int, self@.len() as int);
            if eq_ignore_ascii_case(self.entries[i].0.as_str(), name) {
                return Some(self.entries[i].1.clone());
            }
            assert(rest.drop_first() == self@.subrange(i + 1, self@.len() as int));
            i = i + 1;
        }
        None
    }

    /// Removes every header named `name`.
    pub fn remove(&mut self, name: &str)
        ensures
            final(self)@ == h_remove(old(self)@, name@),
    {
        let mut kept: Vec<(String, String)> = Vec::new();
        let mut i: usize = 0;
        let ghost h = self@;
        assert(h.subrange(0, h.len() as int) == h);
        assert((Headers { entries: kept })@ + h_remove(h, name@) =~= h_remove(h, name@));
        while i < self.entries.len()
            invariant
                i <= self.entries@.len(),
                h == self@,
                self == old(self),
                (Headers { entries: kept })@ + h_remove(h.subrange(i as int, h.len() as int), name@) == h_remove(h, name@),
            decreases self.entries@.len() - i,
        {
            let ghost before = (Headers { entries: kept })@;
            let ghost rest = h.subrange(i as int, h.len() as int);
            assert(rest.drop_first() == h.subrange(i + 1, h.len() as int));
            if !eq_ignore_ascii_case(self.entries[i].0.as_str(), name) {
                let e = (self.entries[i].0.clone(), self.entries[i].1.clone());
                kept.push(e);
                assert((Headers { entries: kept })@ =~= before.push(h[i as int]));
                assert(before + h_remove(rest, name@) =~= before.push(h[i as int]) + h_remove(rest.drop_first(), name@));
            }
            i = i + 1;
        }
        assert(h_remove(h.subrange(h.len() as int, h.len() as int), name@) == Seq::<(Seq<char>, Seq<char>)>::empty());
        assert((Headers { entries: kept })@ =~= h_remove(h, name@));
        self.entries = kept;
    }

    /// Replaces every header named `name` by one `name: value` at the end.
    pub fn insert(&mut self, name: &str, value: String)
        ensures
            final(self)@ == h_insert(old(self)@, name@, value@),
    {
        self.remove(name);
        let n = String::from_str(name);
        self.append(n, value);
    }

    /// Whether a header named `name` is present.
    pub fn contains(&self, name: &str) -> (r: bool)
        ensures
            r == h_has(self@, name@),
    {
        let mut i: usize = 0;
        while i < self.entries.len()
            invariant
                i <= self.entries@.len(),
                forall|j: int| 0 <= j < i ==> !same_name(#[trigger] self@[j].0, name@),
            decreases self.entries@.len() - i,
        {
            if eq_ignore_ascii_case(self.entries[i].0.as_str(), name) {
                assert(same_name(self@[i as int].0, name@));
                return true;
            }
            i = i + 1;
        }
        false
    }
}

/// Hop-by-hop header names.
pub open spec fn is_hop_spec(name: Seq<char>) -> bool {
    ||| same_name(name, "connection"@)
    ||| same_name(name, "keep-alive"@)
    ||| same_name(name, "proxy-authenticate"@)
    ||| same_name(name, "proxy-authorization"@)
    ||| same_name(name, "te"@)
    ||| same_name(name, "trailer"@)
    ||| same_name(name, "transfer-encoding"@)
    ||| same_name(name, "upgrade"@)
}

/// Whether `name` is a hop-by-hop header.
pub fn is_hop_header_fast(name: &str) -> (r: bool)
    ensures
        r == is_hop_spec(name@),
{
    eq_ignore_ascii_case(name, "connection") || eq_ignore_ascii_case(name, "keep-alive")
        || eq_ignore_ascii_case(name, "proxy-authenticate") || eq_ignore_ascii_case(
        name,
        "proxy-authorization",
    ) || eq_ignore_ascii_case(name, "te") || eq_ignore_ascii_case(name, "trailer")
        || eq_ignore_ascii_case(name, "transfer-encoding") || eq_ignore_ascii_case(name, "upgrade")
}

/// Inbound headers that are not copied upstream as they are.
pub open spec fn is_skipped_spec(name: Seq<char>) -> bool {
    ||| same_name(name, "host"@)
    ||| same_name(name, "connection"@)
    ||| same_name(name, "accept-encoding"@)
    ||| same_name(name, "x-real-ip"@)
    ||| same_name(name, "x-forwarded-for"@)
    ||| same_name(name, "x-forwarded-proto"@)
    ||| is_hop_spec(name)
}

fn is_skipped(name: &str) -> (r: bool)
    ensures
        r == is_skipped_spec(name@),
{
    eq_ignore_ascii_case(name, "host") || eq_ignore_ascii_case(name, "connection")
        || eq_ignore_ascii_case(name, "accept-encoding") || eq_ignore_ascii_case(name, "x-real-ip")
        || eq_ignore_ascii_case(name, "x-forwarded-for") || eq_ignore_ascii_case(
        name,
        "x-forwarded-proto",
    ) || is_hop_header_fast(name)
}

/// The inbound headers kept when copying: all but the skipped ones.
pub open spec fn h_copy(h: HeaderSeq) -> HeaderSeq
    decreases h.len(),
{
    if h.len() == 0 {
        h
    } else if is_skipped_spec(h[0].0) {
        h_copy(h.drop_first())
    } else {
        seq![h[0]] + h_copy(h.drop_first())
    }
}

} // verus!

verus! {

/// The variables that header values may reference.
pub struct ExpandVars {
    pub remote_addr: Seq<char>,
    pub scheme: Seq<char>,
    pub host: Seq<char>,
    pub proxy_add_x_forwarded_for: Seq<char>,
    pub server_port: Seq<char>,
}

/// One left-to-right pass over `s` that replaces `$remote_addr`, `$scheme`,
/// `$host`, `$proxy_add_x_forwarded_for` and `$server_port` (first match in
/// that order) and keeps every other character.
pub open spec fn expand_spec(s: Seq<char>, vars: ExpandVars) -> Seq<char>
    decreases s.len(),
{
    if s.len() == 0 {
        s
    } else if is_prefix("$remote_addr"@, s) && "$remote_addr"@.len() > 0 {
        vars.remote_addr + expand_spec(s.subrange("$remote_addr"@.len() as int, s.len() as int), vars)
    } else if is_prefix("$scheme"@, s) && "$scheme"@.len() > 0 {
        vars.scheme + expand_spec(s.subrange("$scheme"@.len() as int, s.len() as int), vars)
    } else if is_prefix("$host"@, s) && "$host"@.len() > 0 {
        vars.host + expand_spec(s.subrange("$host"@.len() as int, s.len() as int), vars)
    } else if is_prefix("$proxy_add_x_forwarded_for"@, s) && "$proxy_add_x_forwarded_for"@.len() > 0 {
        vars.proxy_add_x_forwarded_for + expand_spec(
            s.subrange("$proxy_add_x_forwarded_for"@.len() as int, s.len() as int),
            vars,
        )
    } else if is_prefix("$server_port"@, s) && "$server_port"@.len() > 0 {
        vars.server_port + expand_spec(s.subrange("$server_port"@.len() as int, s.len() as int), vars)
    } else {
        seq![s[0]] + expand_spec(s.drop_first(), vars)
    }
}

/// `http` or `https` after the listener's TLS flag.
pub open spec fn scheme_spec(tls: bool) -> Seq<char> {
    if tls { "https"@ } else { "http"@ }
}

/// The forwarding chain: the trimmed prior `X-Forwarded-For`, if any, then
/// `, ` and the remote address.
pub open spec fn xff_spec(inbound: HeaderSeq, remote: Seq<char>) -> Seq<char> {
    match h_get(inbound, "x-forwarded-for"@) {
        Some(p) => if trim_spec(p).len() > 0 { trim_spec(p) + seq![',', ' '] + remote } else { remote },
        None => remote,
    }
}

/// The variable values for a request.
pub open spec fn vars_of(inbound: HeaderSeq, remote: Seq<char>, tls: bool, port: Seq<char>) -> ExpandVars {
    ExpandVars {
        remote_addr: remote,
        scheme: scheme_spec(tls),
        host: match h_get(inbound, "host"@) {
            Some(h) => h,
            None => Seq::empty(),
        },
        proxy_add_x_forwarded_for: xff_spec(inbound, remote),
        server_port: port,
    }
}

fn prefix_at(v: &Vec<char>, i: usize, pat: &str) -> (r: (bool, usize))
    requires
        i <= v@.len(),
    ensures
        r.0 == is_prefix(pat@, v@.subrange(i as int, v@.len() as int)),
        r.1 == pat@.len(),
{
    let pv = chars_of(pat);
    let n = pv.len();
    if n > v.len() - i {
        return (false, n);
    }
    let mut j: usize = 0;
    while j < n
        invariant
            j <= n,
            n == pv@.len(),
            pv@ == pat@,
            i + n <= v@.len(),
            i <= v@.len(),
            v@.len() <= usize::MAX,
            forall|k: int| 0 <= k < j ==> #[trigger] v@[i + k] == pv@[k],
        decreases n - j,
    {
        if v[i + j] != pv[j] {
            assert(v@.subrange(i as int, v@.len() as int).subrange(0, n as int)[j as int] != pat@[j as int]);
            return (false, n);
        }
        j = j + 1;
    }
    assert forall|k: int| 0 <= k < n implies v@.subrange(i as int, v@.len() as int).subrange(0, n as int)[k] == pat@[k] by {
        assert(v@[i + k] == pv@[k]);
    }
    assert(v@.subrange(i as int, v@.len() as int).subrange(0, n as int) =~= pat@);
    (true, n)
}

/// The forwarding chain for a request (see `xff_spec`).
pub fn forwarded_for(inbound: &Headers, remote_ip: &str) -> (r: String)
    ensures
        r@ == xff_spec(inbound@, remote_ip@),
{
    match inbound.get("x-forwarded-for") {
        Some(p) => {
            let t = trim(p.as_str());
            if t.unicode_len() > 0 {
                let mut r = t;
                r.push(',');
                r.push(' ');
                push_str(&mut r, remote_ip);
                r
            } else {
                String::from_str(remote_ip)
            }
        },
        None => String::from_str(remote_ip),
    }
}

/// Expands the variables of a `set_headers` value in one left-to-right
/// pass; unknown `$name` tokens stay as written.
pub fn expand_proxy_header_value(
    raw: &str,
    remote_ip: &str,
    inbound: &Headers,
    is_tls: bool,
    server_port: &str,
) -> (r: String)
    ensures
        r@ == expand_spec(raw@, vars_of(inbound@, remote_ip@, is_tls, server_port@)),
{
    let ghost vars = vars_of(inbound@, remote_ip@, is_tls, server_port@);
    let scheme = if is_tls { String::from_str("https") } else { String::from_str("http") };
    let host = match inbound.get("host") {
        Some(h) => h,
        None => String::new(),
    };
    let xff = forwarded_for(inbound, remote_ip);
    let v = chars_of(raw);
    let n = v.len();
    let mut out = String::new();
    let mut i: usize = 0;
    assert(v@.subrange(0, n as int) == raw@);
    while i < n
        invariant
            n == v@.len(),
            i <= n,
            scheme@ == vars.scheme,
            host@ == vars.host,
            xff@ == vars.proxy_add_x_forwarded_for,
            remote_ip@ == vars.remote_addr,
            server_port@ == vars.server_port,
            out@ + expand_spec(v@.subrange(i as int, n as int), vars) == expand_spec(raw@, vars),
        decreases n - i,
    {
        let ghost rest = v@.subrange(i as int, n as int);
        let ghost before = out@;
        let (m1, l1) = prefix_at(&v, i, "$remote_addr");
        let (m2, l2) = prefix_at(&v, i, "$scheme");
        let (m3, l3) = prefix_at(&v, i, "$host");
        let (m4, l4) = prefix_at(&v, i, "$proxy_add_x_forwarded_for");
        let (m5, l5) = prefix_at(&v, i, "$server_port");
        if m1 && l1 > 0 {
            push_str(&mut out, remote_ip);
            assert(rest.subrange(l1 as int, rest.len() as int) == v@.subrange(i + l1, n as int));
            i = i + l1;
        } else if m2 && l2 > 0 {
            push_str(&mut out, scheme.as_str());
            assert(rest.subrange(l2 as int, rest.len() as int) == v@.subrange(i + l2, n as int));
            i = i + l2;
        } else if m3 && l3 > 0 {
            push_str(&mut out, host.as_str());
            assert(rest.subrange(l3 as int, rest.len() as int) == v@.subrange(i + l3, n as int));
            i = i + l3;
        } else if m4 && l4 > 0 {
            push_str(&mut out, xff.as_str());
            assert(rest.subrange(l4 as int, rest.len() as int) == v@.subrange(i + l4, n as int));
            i = i + l4;
        } else if m5 && l5 > 0 {
            push_str(&mut out, server_port);
            assert(rest.subrange(l5 as int, rest.len() as int) == v@.subrange(i + l5, n as int));
            i = i + l5;
        } else {
            out.push(v[i]);
            assert(rest.drop_first() == v@.subrange(i + 1, n as int));
            i = i + 1;
        }
        assert(out@ + expand_spec(v@.subrange(i as int, n as int), vars) =~= before + expand_spec(rest, vars));
    }
    out
}

} // verus!

verus! {

/// The `set_headers` of a route as values.
pub open spec fn sets_of(route: Route) -> HeaderSeq {
    match route.set_headers {
        Some(v) => Seq::new(v@.len(), |i: int| (v@[i].0@, v@[i].1@)),
        None => Seq::empty(),
    }
}

/// The `remove_headers` of a route as values.
pub open spec fn removals_of(route: Route) -> Seq<Seq<char>> {
    match route.remove_headers {
        Some(v) => Seq::new(v@.len(), |i: int| v@[i]@),
        None => Seq::empty(),
    }
}

/// Applies the route's `set_headers`, in order: blank and hop-by-hop names
/// are skipped, values are expanded, each insert overwrites.
pub open spec fn apply_sets(h: HeaderSeq, sets: HeaderSeq, vars: ExpandVars) -> HeaderSeq
    decreases sets.len(),
{
    if sets.len() == 0 {
        h
    } else {
        let h1 = apply_sets(h, sets.drop_last(), vars);
        let k = trim_spec(sets.last().0);
        if k.len() == 0 || is_hop_spec(k) {
            h1
        } else {
            h_insert(h1, k, expand_spec(sets.last().1, vars))
        }
    }
}

/// Removes the route's `remove_headers` (trimmed, blank ones ignored).
pub open spec fn apply_removals(h: HeaderSeq, names: Seq<Seq<char>>) -> HeaderSeq
    decreases names.len(),
{
    if names.len() == 0 {
        h
    } else {
        let h1 = apply_removals(h, names.drop_last());
        let t = trim_spec(names.last());
        if t.len() == 0 { h1 } else { h_remove(h1, t) }
    }
}

/// The headers sent upstream, step by step: copy all inbound headers but
/// the skipped ones; re-insert `host`; set `x-real-ip`, `x-forwarded-for`,
/// `x-forwarded-proto` and an empty `accept-encoding`; re-insert an inbound
/// `content-type` if none is left; apply the route's `set_headers`; drop
/// `authorization` when Basic auth is checked here and not forwarded;
/// remove the route's `remove_headers`.
pub open spec fn outbound_spec(inbound: HeaderSeq, remote: Seq<char>, rule: ListenRule, route: Route, port: Seq<char>) -> HeaderSeq {
    let h1 = h_copy(inbound);
    let h2 = match h_get(inbound, "host"@) {
        Some(v) => h_insert(h1, "host"@, v),
        None => h1,
    };
    let h3 = h_insert(h2, "x-real-ip"@, remote);
    let h4 = h_insert(h3, "x-forwarded-for"@, xff_spec(inbound, remote));
    let h5 = h_insert(h4, "x-forwarded-proto"@, scheme_spec(rule.ssl_enable));
    let h6 = h_insert(h5, "accept-encoding"@, Seq::empty());
    let h7 = if !h_has(h6, "content-type"@) && h_get(inbound, "content-type"@) is Some {
        h_insert(h6, "content-type"@, h_get(inbound, "content-type"@)->0)
    } else {
        h6
    };
    let h8 = apply_sets(h7, sets_of(route), vars_of(inbound, remote, rule.ssl_enable, port));
    let h9 = if rule.basic_auth_enable && !rule.basic_auth_forward_header {
        h_remove(h8, "authorization"@)
    } else {
        h8
    };
    apply_removals(h9, removals_of(route))
}

/// The inbound headers that are copied as they are.
fn copy_inbound(inbound: &Headers) -> (r: Headers)
    ensures
        r@ == h_copy(inbound@),
{
    let ghost h = inbound@;
    let mut out = Headers::new();
    let mut i: usize = 0;
    assert(h.subrange(0, h.len() as int) == h);
    assert(out@ + h_copy(h) =~= h_copy(h));
    while i < inbound.entries.len()
        invariant
            i <= inbound.entries@.len(),
            h == inbound@,
            out@ + h_copy(h.subrange(i as int, h.len() as int)) == h_copy(h),
        decreases inbound.entries@.len() - i,
    {
        let ghost before = out@;
        let ghost rest = h.subrange(i as int, h.len() as int);
        assert(rest.drop_first() == h.subrange(i + 1, h.len() as int));
        if !is_skipped(inbound.entries[i].0.as_str()) {
            out.append(inbound.entries[i].0.clone(), inbound.entries[i].1.clone());
            assert(before + h_copy(rest) =~= before.push(h[i as int]) + h_copy(rest.drop_first()));
        }
        i = i + 1;
    }
    assert(h_copy(h.subrange(h.len() as int, h.len() as int)) == Seq::<(Seq<char>, Seq<char>)>::empty());
    assert(out@ =~= h_copy(h));
    out
}

/// Builds the headers sent upstream for a request (see `outbound_spec`).
/// `server_port` is the listener's port, as text, for `$server_port`.
pub fn build_outbound_headers(
    inbound: &Headers,
    remote_ip: &str,
    rule: &ListenRule,
    route: &Route,
    server_port: &str,
) -> (r: Headers)
    ensures
        r@ == outbound_spec(inbound@, remote_ip@, *rule, *route, server_port@),
{
    let ghost vars = vars_of(inbound@, remote_ip@, rule.ssl_enable, server_port@);
    let mut h = copy_inbound(inbound);
    match inbound.get("host") {
        Some(v) => h.insert("host", v),
        None => {},
    }
    h.insert("x-real-ip", String::from_str(remote_ip));
    h.insert("x-forwarded-for", forwarded_for(inbound, remote_ip));
    let proto = if rule.ssl_enable { String::from_str("https") } else { String::from_str("http") };
    h.insert("x-forwarded-proto", proto);
    h.insert("accept-encoding", String::new());
    if !h.contains("content-type") {
        match inbound.get("content-type") {
            Some(ct) => h.insert("content-type", ct),
            None => {},
        }
    }
    match &route.set_headers {
        Some(sets) => {
            let ghost sv = sets_of(*route);
            let ghost h7 = h@;
            let mut i: usize = 0;
            assert(sv.subrange(0, 0) =~= Seq::<(Seq<char>, Seq<char>)>::empty());
            while i < sets.len()
                invariant
                    i <= sets@.len(),
                    route.set_headers == Some(*sets),
                    sv == sets_of(*route),
                    sv.len() == sets@.len(),
                    vars == vars_of(inbound@, remote_ip@, rule.ssl_enable, server_port@),
                    h@ == apply_sets(h7, sv.subrange(0, i as int), vars),
                decreases sets@.len() - i,
            {
                let k = trim(sets[i].0.as_str());
                assert(sv.subrange(0, i + 1).drop_last() == sv.subrange(0, i as int));
                assert(sv[i as int] == (sets@[i as int].0@, sets@[i as int].1@));
                if k.unicode_len() > 0 && !is_hop_header_fast(k.as_str()) {
                    let val = expand_proxy_header_value(sets[i].1.as_str(), remote_ip, inbound, rule.ssl_enable, server_port);
                    h.insert(k.as_str(), val);
                }
                i = i + 1;
            }
            assert(sv.subrange(0, sets@.len() as int) == sv);
        },
        None => {},
    }
    if rule.basic_auth_enable && !rule.basic_auth_forward_header {
        h.remove("authorization");
    }
    match &route.remove_headers {
        Some(names) => {
            let ghost nv = removals_of(*route);
            let ghost h9 = h@;
            let mut i: usize = 0;
            assert(nv.subrange(0, 0) =~= Seq::<Seq<char>>::empty());
            while i < names.len()
                invariant
                    i <= names@.len(),
                    route.remove_headers == Some(*names),
                    nv == removals_of(*route),
                    nv.len() == names@.len(),
                    h@ == apply_removals(h9, nv.subrange(0, i as int)),
                decreases names@.len() - i,
            {
                let t = trim(names[i].as_str());
                assert(nv.subrange(0, i + 1).drop_last() == nv.subrange(0, i as int));
                assert(nv[i as int] == names@[i as int]@);
                if t.unicode_len() > 0 {
                    h.remove(t.as_str());
                }
                i = i + 1;
            }
            assert(nv.subrange(0, names@.len() as int) == nv);
        },
        None => {},
    }
    h
}

} // verus!

verus! {

/// No header of `h` is hop-by-hop.
pub open spec fn no_hop(h: HeaderSeq) -> bool {
    forall|i: int| 0 <= i < h.len() ==> !is_hop_spec(#[trigger] h[i].0)
}

proof fn lemma_get_remove(h: HeaderSeq, a: Seq<char>, b: Seq<char>)
    ensures
        h_get(h_remove(h, a), b) == if same_name(a, b) { None } else { h_get(h, b) },
    decreases h.len(),
{
    if h.len() > 0 {
        lemma_get_remove(h.drop_first(), a, b);
        if !same_name(h[0].0, a) {
            assert((seq![h[0]] + h_remove(h.drop_first(), a)).drop_first() == h_remove(h.drop_first(), a));
        }
    }
}

proof fn lemma_get_push(h: HeaderSeq, x: (Seq<char>, Seq<char>), b: Seq<char>)
    ensures
        h_get(h.push(x), b) == match h_get(h, b) {
            Some(v) => Some(v),
            None => if same_name(x.0, b) { Some(x.1) } else { None },
        },
    decreases h.len(),
{
    if h.len() > 0 {
        assert(h.push(x).drop_first() == h.drop_first().push(x));
        lemma_get_push(h.drop_first(), x, b);
    } else {
        assert(h.push(x).drop_first() == h);
    }
}

proof fn lemma_get_insert(h: HeaderSeq, a: Seq<char>, v: Seq<char>, b: Seq<char>)
    ensures
        h_get(h_insert(h, a, v), b) == if same_name(a, b) { Some(v) } else { h_get(h, b) },
{
    lemma_get_remove(h, a, b);
    lemma_get_remove(h, a, a);
    lemma_get_push(h_remove(h, a), (a, v), b);
}

proof fn lemma_remove_no_hop(h: HeaderSeq, a: Seq<char>)
    requires
        no_hop(h),
    ensures
        no_hop(h_remove(h, a)),
    decreases h.len(),
{
    if h.len() > 0 {
        assert(no_hop(h.drop_first())) by {
            assert forall|i: int| 0 <= i < h.drop_first().len() implies !is_hop_spec(#[trigger] h.drop_first()[i].0) by {
                assert(h.drop_first()[i] == h[i + 1]);
            }
        }
        lemma_remove_no_hop(h.drop_first(), a);
        let r = h_remove(h.drop_first(), a);
        if !same_name(h[0].0, a) {
            assert forall|i: int| 0 <= i < (seq![h[0]] + r).len() implies !is_hop_spec(#[trigger] (seq![h[0]] + r)[i].0) by {
                if i > 0 {
                    assert((seq![h[0]] + r)[i] == r[i - 1]);
                }
            }
        }
    }
}

proof fn lemma_insert_no_hop(h: HeaderSeq, a: Seq<char>, v: Seq<char>)
    requires
        no_hop(h),
        !is_hop_spec(a),
    ensures
        no_hop(h_insert(h, a, v)),
{
    lemma_remove_no_hop(h, a);
    let r = h_remove(h, a);
    assert forall|i: int| 0 <= i < r.push((a, v)).len() implies !is_hop_spec(#[trigger] r.push((a, v))[i].0) by {
        if i < r.len() {
            assert(r.push((a, v))[i] == r[i]);
        }
    }
}

proof fn lemma_copy_no_hop(h: HeaderSeq)
    ensures
        no_hop(h_copy(h)),
    decreases h.len(),
{
    if h.len() > 0 {
        lemma_copy_no_hop(h.drop_first());
        let r = h_copy(h.drop_first());
        if !is_skipped_spec(h[0].0) {
            assert forall|i: int| 0 <= i < (seq![h[0]] + r).len() implies !is_hop_spec(#[trigger] (seq![h[0]] + r)[i].0) by {
                if i > 0 {
                    assert((seq![h[0]] + r)[i] == r[i - 1]);
                }
            }
        }
    }
}

proof fn lemma_sets_keep(h: HeaderSeq, sets: HeaderSeq, vars: ExpandVars, t: Seq<char>)
    ensures
        (forall|i: int| 0 <= i < sets.len() ==> !same_name(trim_spec(#[trigger] sets[i].0), t))
            ==> h_get(apply_sets(h, sets, vars), t) == h_get(h, t),
        no_hop(h) ==> no_hop(apply_sets(h, sets, vars)),
    decreases sets.len(),
{
    if sets.len() > 0 {
        if forall|i: int| 0 <= i < sets.len() ==> !same_name(trim_spec(#[trigger] sets[i].0), t) {
            assert forall|i: int| 0 <= i < sets.drop_last().len() implies !same_name(trim_spec(#[trigger] sets.drop_last()[i].0), t) by {
                assert(sets.drop_last()[i] == sets[i]);
            }
        }
        lemma_sets_keep(h, sets.drop_last(), vars, t);
        let h1 = apply_sets(h, sets.drop_last(), vars);
        let k = trim_spec(sets.last().0);
        if !(k.len() == 0 || is_hop_spec(k)) {
            lemma_get_insert(h1, k, expand_spec(sets.last().1, vars), t);
            if no_hop(h) {
                lemma_insert_no_hop(h1, k, expand_spec(sets.last().1, vars));
            }
        }
    }
}

proof fn lemma_removals_keep(h: HeaderSeq, names: Seq<Seq<char>>, t: Seq<char>)
    ensures
        (forall|i: int| 0 <= i < names.len() ==> !same_name(trim_spec(#[trigger] names[i]), t))
            ==> h_get(apply_removals(h, names), t) == h_get(h, t),
        no_hop(h) ==> no_hop(apply_removals(h, names)),
    decreases names.len(),
{
    if names.len() > 0 {
        if forall|i: int| 0 <= i < names.len() ==> !same_name(trim_spec(#[trigger] names[i]), t) {
            assert forall|i: int| 0 <= i < names.drop_last().len() implies !same_name(trim_spec(#[trigger] names.drop_last()[i]), t) by {
                assert(names.drop_last()[i] == names[i]);
            }
        }
        lemma_removals_keep(h, names.drop_last(), t);
        let h1 = apply_removals(h, names.drop_last());
        let n = trim_spec(names.last());
        if n.len() > 0 {
            lemma_get_remove(h1, n, t);
            if no_hop(h) {
                lemma_remove_no_hop(h1, n);
            }
        }
    }
}

/// How many headers of `h` are named `name`.
pub open spec fn h_count(h: HeaderSeq, name: Seq<char>) -> nat
    decreases h.len(),
{
    if h.len() == 0 {
        0
    } else {
        h_count(h.drop_first(), name) + if same_name(h[0].0, name) { 1nat } else { 0nat }
    }
}

proof fn lemma_count_remove(h: HeaderSeq, a: Seq<char>, b: Seq<char>)
    ensures
        h_count(h_remove(h, a), b) == if same_name(a, b) { 0 } else { h_count(h, b) },
    decreases h.len(),
{
    if h.len() > 0 {
        lemma_count_remove(h.drop_first(), a, b);
        if !same_name(h[0].0, a) {
            assert((seq![h[0]] + h_remove(h.drop_first(), a)).drop_first() == h_remove(h.drop_first(), a));
        }
    }
}

proof fn lemma_count_push(h: HeaderSeq, x: (Seq<char>, Seq<char>), b: Seq<char>)
    ensures
        h_count(h.push(x), b) == h_count(h, b) + if same_name(x.0, b) { 1nat } else { 0nat },
    decreases h.len(),
{
    if h.len() > 0 {
        assert(h.push(x).drop_first() == h.drop_first().push(x));
        lemma_count_push(h.drop_first(), x, b);
    } else {
        assert(h.push(x).drop_first() == h);
    }
}

proof fn lemma_count_insert(h: HeaderSeq, a: Seq<char>, v: Seq<char>, b: Seq<char>)
    ensures
        h_count(h_insert(h, a, v), b) == if same_name(a, b) { 1 } else { h_count(h, b) },
{
    lemma_count_remove(h, a, b);
    lemma_count_push(h_remove(h, a), (a, v), b);
}

proof fn lemma_sets_count(h: HeaderSeq, sets: HeaderSeq, vars: ExpandVars, t: Seq<char>)
    requires
        forall|i: int| 0 <= i < sets.len() ==> !same_name(trim_spec(#[trigger] sets[i].0), t),
    ensures
        h_count(apply_sets(h, sets, vars), t) == h_count(h, t),
    decreases sets.len(),
{
    if sets.len() > 0 {
        assert forall|i: int| 0 <= i < sets.drop_last().len() implies !same_name(trim_spec(#[trigger] sets.drop_last()[i].0), t) by {
            assert(sets.drop_last()[i] == sets[i]);
        }
        lemma_sets_count(h, sets.drop_last(), vars, t);
        let h1 = apply_sets(h, sets.drop_last(), vars);
        let k = trim_spec(sets.last().0);
        if !(k.len() == 0 || is_hop_spec(k)) {
            lemma_count_insert(h1, k, expand_spec(sets.last().1, vars), t);
        }
    }
}

proof fn lemma_removals_count(h: HeaderSeq, names: Seq<Seq<char>>, t: Seq<char>)
    requires
        forall|i: int| 0 <= i < names.len() ==> !same_name(trim_spec(#[trigger] names[i]), t),
    ensures
        h_count(apply_removals(h, names), t) == h_count(h, t),
    decreases names.len(),
{
    if names.len() > 0 {
        assert forall|i: int| 0 <= i < names.drop_last().len() implies !same_name(trim_spec(#[trigger] names.drop_last()[i]), t) by {
            assert(names.drop_last()[i] == names[i]);
        }
        lemma_removals_count(h, names.drop_last(), t);
        let n = trim_spec(names.last());
        if n.len() > 0 {
            lemma_count_remove(apply_removals(h, names.drop_last()), n, t);
        }
    }
}

proof fn lemma_name_facts()
    ensures
        !is_hop_spec("host"@),
        !is_hop_spec("x-real-ip"@),
        !is_hop_spec("x-forwarded-for"@),
        !is_hop_spec("x-forwarded-proto"@),
        !is_hop_spec("accept-encoding"@),
        !is_hop_spec("content-type"@),
        !same_name("x-forwarded-proto"@, "x-forwarded-for"@),
        !same_name("accept-encoding"@, "x-forwarded-for"@),
        !same_name("content-type"@, "x-forwarded-for"@),
        !same_name("authorization"@, "x-forwarded-for"@),
        !same_name("accept-encoding"@, "x-forwarded-proto"@),
        !same_name("content-type"@, "x-forwarded-proto"@),
        !same_name("authorization"@, "x-forwarded-proto"@),
{
    reveal_strlit("host");
    reveal_strlit("x-real-ip");
    reveal_strlit("x-forwarded-for");
    reveal_strlit("x-forwarded-proto");
    reveal_strlit("accept-encoding");
    reveal_strlit("content-type");
    reveal_strlit("authorization");
    reveal_strlit("connection");
    reveal_strlit("keep-alive");
    reveal_strlit("proxy-authenticate");
    reveal_strlit("proxy-authorization");
    reveal_strlit("te");
    reveal_strlit("trailer");
    reveal_strlit("transfer-encoding");
    reveal_strlit("upgrade");
    assert(lower_spec("x-forwarded-proto"@)[0] != lower_spec("transfer-encoding"@)[0]);
    assert(lower_spec("host"@).len() == 4);
    assert(lower_spec("x-forwarded-proto"@).len() == 17);
    assert(lower_spec("x-forwarded-for"@).len() == 15);
    assert(lower_spec("accept-encoding"@).len() == 15);
    assert(lower_spec("content-type"@).len() == 12);
    assert(lower_spec("authorization"@).len() == 13);
    assert(lower_spec("x-real-ip"@).len() == 9);
    assert(lower_spec("connection"@).len() == 10);
    assert(lower_spec("keep-alive"@).len() == 10);
    assert(lower_spec("proxy-authenticate"@).len() == 18);
    assert(lower_spec("proxy-authorization"@).len() == 19);
    assert(lower_spec("te"@).len() == 2);
    assert(lower_spec("trailer"@).len() == 7);
    assert(lower_spec("transfer-encoding"@).len() == 17);
    assert(lower_spec("upgrade"@).len() == 7);
    assert(lower_spec("accept-encoding"@)[0] != lower_spec("x-forwarded-for"@)[0]);
}

/// A route whose own `set_headers` and `remove_headers` name neither
/// `X-Forwarded-For` nor `X-Forwarded-Proto`.
pub open spec fn leaves_forwarding(route: Route) -> bool {
    &&& forall|i: int| 0 <= i < sets_of(route).len() ==> !same_name(trim_spec(#[trigger] sets_of(route)[i].0), "x-forwarded-for"@)
        && !same_name(trim_spec(sets_of(route)[i].0), "x-forwarded-proto"@)
    &&& forall|i: int| 0 <= i < removals_of(route).len() ==> !same_name(trim_spec(#[trigger] removals_of(route)[i]), "x-forwarded-for"@)
        && !same_name(trim_spec(removals_of(route)[i]), "x-forwarded-proto"@)
}

/// Header hygiene: the headers sent upstream never hold a hop-by-hop
/// header, whatever the route sets. Unless the route itself sets or removes
/// them, they carry exactly one `X-Forwarded-For`, ending in the remote
/// address, and exactly one `X-Forwarded-Proto`, equal to `https` exactly
/// when the listener has TLS.
pub proof fn lemma_outbound_header_hygiene(inbound: HeaderSeq, remote: Seq<char>, rule: ListenRule, route: Route, port: Seq<char>)
    ensures
        ({
            let out = outbound_spec(inbound, remote, rule, route, port);
            let untouched = leaves_forwarding(route);
            &&& no_hop(out)
            &&& exists|p: Seq<char>| xff_spec(inbound, remote) == p + remote
            &&& scheme_spec(rule.ssl_enable) == if rule.ssl_enable { "https"@ } else { "http"@ }
            &&& untouched ==> h_get(out, "x-forwarded-for"@) == Some(xff_spec(inbound, remote))
            &&& untouched ==> h_get(out, "x-forwarded-proto"@) == Some(scheme_spec(rule.ssl_enable))
            &&& untouched ==> h_count(out, "x-forwarded-for"@) == 1 && h_count(out, "x-forwarded-proto"@) == 1
        }),
{
    lemma_name_facts();
    let vars = vars_of(inbound, remote, rule.ssl_enable, port);
    let h1 = h_copy(inbound);
    lemma_copy_no_hop(inbound);
    let h2 = match h_get(inbound, "host"@) {
        Some(v) => h_insert(h1, "host"@, v),
        None => h1,
    };
    if let Some(v) = h_get(inbound, "host"@) {
        lemma_insert_no_hop(h1, "host"@, v);
    }
    let h3 = h_insert(h2, "x-real-ip"@, remote);
    lemma_insert_no_hop(h2, "x-real-ip"@, remote);
    let h4 = h_insert(h3, "x-forwarded-for"@, xff_spec(inbound, remote));
    lemma_insert_no_hop(h3, "x-forwarded-for"@, xff_spec(inbound, remote));
    lemma_get_insert(h3, "x-forwarded-for"@, xff_spec(inbound, remote), "x-forwarded-for"@);
    let h5 = h_insert(h4, "x-forwarded-proto"@, scheme_spec(rule.ssl_enable));
    lemma_insert_no_hop(h4, "x-forwarded-proto"@, scheme_spec(rule.ssl_enable));
    lemma_get_insert(h4, "x-forwarded-proto"@, scheme_spec(rule.ssl_enable), "x-forwarded-for"@);
    lemma_get_insert(h4, "x-forwarded-proto"@, scheme_spec(rule.ssl_enable), "x-forwarded-proto"@);
    let h6 = h_insert(h5, "accept-encoding"@, Seq::empty());
    lemma_insert_no_hop(h5, "accept-encoding"@, Seq::empty());
    lemma_get_insert(h5, "accept-encoding"@, Seq::empty(), "x-forwarded-for"@);
    lemma_get_insert(h5, "accept-encoding"@, Seq::empty(), "x-forwarded-proto"@);
    let h7 = if !h_has(h6, "content-type"@) && h_get(inbound, "content-type"@) is Some {
        h_insert(h6, "content-type"@, h_get(inbound, "content-type"@)->0)
    } else {
        h6
    };
    if !h_has(h6, "content-type"@) && h_get(inbound, "content-type"@) is Some {
        let ct = h_get(inbound, "content-type"@)->0;
        lemma_insert_no_hop(h6, "content-type"@, ct);
        lemma_get_insert(h6, "content-type"@, ct, "x-forwarded-for"@);
        lemma_get_insert(h6, "content-type"@, ct, "x-forwarded-proto"@);
    }
    let h8 = apply_sets(h7, sets_of(route), vars);
    lemma_sets_keep(h7, sets_of(route), vars, "x-forwarded-for"@);
    lemma_sets_keep(h7, sets_of(route), vars, "x-forwarded-proto"@);
    let h9 = if rule.basic_auth_enable && !rule.basic_auth_forward_header {
        h_remove(h8, "authorization"@)
    } else {
        h8
    };
    if rule.basic_auth_enable && !rule.basic_auth_forward_header {
        lemma_remove_no_hop(h8, "authorization"@);
        lemma_get_remove(h8, "authorization"@, "x-forwarded-for"@);
        lemma_get_remove(h8, "authorization"@, "x-forwarded-proto"@);
    }
    lemma_removals_keep(h9, removals_of(route), "x-forwarded-for"@);
    lemma_removals_keep(h9, removals_of(route), "x-forwarded-proto"@);
    if leaves_forwarding(route) {
        let xf = "x-forwarded-for"@;
        let xp = "x-forwarded-proto"@;
        lemma_count_insert(h3, xf, xff_spec(inbound, remote), xf);
        lemma_count_insert(h4, xp, scheme_spec(rule.ssl_enable), xf);
        lemma_count_insert(h4, xp, scheme_spec(rule.ssl_enable), xp);
        lemma_count_insert(h5, "accept-encoding"@, Seq::empty(), xf);
        lemma_count_insert(h5, "accept-encoding"@, Seq::empty(), xp);
        if !h_has(h6, "content-type"@) && h_get(inbound, "content-type"@) is Some {
            let ct = h_get(inbound, "content-type"@)->0;
            lemma_count_insert(h6, "content-type"@, ct, xf);
            lemma_count_insert(h6, "content-type"@, ct, xp);
        }
        lemma_sets_count(h7, sets_of(route), vars, xf);
        lemma_sets_count(h7, sets_of(route), vars, xp);
        if rule.basic_auth_enable && !rule.basic_auth_forward_header {
            lemma_count_remove(h8, "authorization"@, xf);
            lemma_count_remove(h8, "authorization"@, xp);
        }
        lemma_removals_count(h9, removals_of(route), xf);
        lemma_removals_count(h9, removals_of(route), xp);
    }
    let x = xff_spec(inbound, remote);
    match h_get(inbound, "x-forwarded-for"@) {
        Some(p) => if trim_spec(p).len() > 0 {
            assert(x == (trim_spec(p) + seq![',', ' ']) + remote);
        } else {
            assert(x == Seq::<char>::empty() + remote);
        },
        None => {
            assert(x == Seq::<char>::empty() + remote);
        },
    }
}

} // verus!
