//! Route matching and upstream URL construction for the HTTP proxy.
use vstd::prelude::*;
use crate::config::Route;
use crate::text::{chars_of, contains_char, push_range, push_str, starts_with_chars, is_prefix, lower_spec, starts_with, string_of, to_ascii_lower, trim, trim_bounds, trim_spec};

verus! {

/// The host portion of a `Host` value: the text before the first `:`.
pub open spec fn host_part(s: Seq<char>) -> Seq<char>
    decreases s.len(),
{
    if s.len() == 0 {
        s
    } else if s[0] == ':' {
        Seq::empty()
    } else {
        seq![s[0]] + host_part(s.drop_first())
    }
}

/// The normalized host: host portion, trimmed.
pub open spec fn normalize_host_spec(s: Seq<char>) -> Seq<char> {
    trim_spec(host_part(s))
}

/// The host constraint of a route, if it has a non-blank one.
pub open spec fn host_constraint(r: Route) -> Option<Seq<char>> {
    match r.host {
        Some(h) => if trim_spec(h@).len() > 0 { Some(trim_spec(h@)) } else { None },
        None => None,
    }
}

/// Whether route `r` can serve a request for `host` and `path`: enabled, its
/// path is a prefix of the request path, and its host constraint, if any,
/// equals the request host ignoring case and port.
pub open spec fn is_candidate(r: Route, host: Seq<char>, path: Seq<char>) -> bool {
    &&& r.enabled
    &&& r.path is Some
    &&& is_prefix(r.path->0@, path)
    &&& match host_constraint(r) {
        None => true,
        Some(h) => lower_spec(normalize_host_spec(h)) == lower_spec(normalize_host_spec(host)),
    }
}

/// The ranking key of a candidate: host-constrained first, then longer path.
pub open spec fn outranks(a: Route, b: Route) -> bool {
    ||| (host_constraint(a) is Some && host_constraint(b) is None)
    ||| (host_constraint(a) is Some == host_constraint(b) is Some && a.path->0@.len() > b.path->0@.len())
}

/// The route chosen among `rs[0..n]`: the best-ranked candidate, the first
/// one among equals.
pub open spec fn best_route(rs: Seq<Route>, host: Seq<char>, path: Seq<char>, n: nat) -> Option<nat>
    decreases n,
{
    if n == 0 {
        None
    } else {
        let b = best_route(rs, host, path, (n - 1) as nat);
        if !is_candidate(rs[n - 1], host, path) {
            b
        } else {
            match b {
                None => Some((n - 1) as nat),
                Some(j) => if outranks(rs[n - 1], rs[j as int]) {
                    Some((n - 1) as nat)
                } else {
                    b
                },
            }
        }
    }
}

/// The host portion of a `Host` value, trimmed.
pub fn normalize_host(host: &str) -> (r: String)
    ensures
        r@ == normalize_host_spec(host@),
{
    let v = chars_of(host);
    let mut end: usize = 0;
    assert(v@.subrange(0, v@.len() as int) == v@);
    assert(v@.subrange(0, 0) + host_part(v@) =~= host_part(v@));
    while end < v.len() && v[end] != ':'
        invariant
            end <= v@.len(),
            v@ == host@,
            host_part(host@) == v@.subrange(0, end as int) + host_part(v@.subrange(end as int, v@.len() as int)),
        decreases v@.len() - end,
    {
        let ghost rest = v@.subrange(end as int, v@.len() as int);
        assert(rest.drop_first() == v@.subrange(end + 1, v@.len() as int));
        assert(v@.subrange(0, end + 1) == v@.subrange(0, end as int) + seq![rest[0]]);
        end = end + 1;
    }
    proof {
        assert(v@.subrange(0, v@.len() as int) == v@);
        assert(host_part(v@.subrange(end as int, v@.len() as int)) == Seq::<char>::empty());
    }
    let (a, b) = trim_bounds(&v, 0, end);
    string_of(&v, a, b)
}

/// The non-blank host constraint of a route, trimmed.
fn route_host_constraint(r: &Route) -> (res: Option<String>)
    ensures
        match res {
            Some(s) => host_constraint(*r) == Some(s@),
            None => host_constraint(*r) is None,
        },
{
    match &r.host {
        Some(h) => {
            let t = trim(h.as_str());
            if t.unicode_len() > 0 { Some(t) } else { None }
        },
        None => None,
    }
}

/// Matches a request against a rule's routes. Returns the index of the
/// chosen route (the best-ranked candidate, the first among equals) and
/// its id (empty when none is chosen or it has no id).
pub fn match_route(routes: &Vec<Route>, request_host: &str, path: &str) -> (r: (Option<usize>, String))
    ensures
        r.0 == match best_route(routes@, request_host@, path@, routes@.len()) {
            Some(i) => Some(i as usize),
            None => None::<usize>,
        },
        r.0 is Some ==> r.1@ == match routes@[r.0->0 as int].id {
            Some(id) => id@,
            None => Seq::empty(),
        },
        r.0 is None ==> r.1@.len() == 0,
{
    let host_n = normalize_host(request_host);
    let host_l = to_ascii_lower(host_n.as_str());
    let mut best: Option<usize> = None;
    let mut best_has_host = false;
    let mut best_len: usize = 0;
    let mut i: usize = 0;
    while i < routes.len()
        invariant
            i <= routes@.len(),
            host_l@ == lower_spec(normalize_host_spec(request_host@)),
            best == match best_route(routes@, request_host@, path@, i as nat) {
                Some(j) => Some(j as usize),
                None => None::<usize>,
            },
            best matches Some(j) ==> j < i && best_has_host == host_constraint(routes@[j as int]) is Some
                && routes@[j as int].path is Some && best_len == routes@[j as int].path->0@.len(),
        decreases routes@.len() - i,
    {
        proof {
            lemma_match_route_is_best(routes@, request_host@, path@, i as nat);
        }
        let r = &routes[i];
        let mut cand = false;
        let mut plen: usize = 0;
        if r.enabled {
            if let Some(p) = &r.path {
                if starts_with(path, p.as_str()) {
                    plen = p.unicode_len();
                    cand = match route_host_constraint(r) {
                        None => true,
                        Some(h) => {
                            let hn = normalize_host(h.as_str());
                            let hl = to_ascii_lower(hn.as_str());
                            hl == host_l
                        },
                    };
                }
            }
        }
        let has_host = route_host_constraint(r).is_some();
        assert(cand == is_candidate(routes@[i as int], request_host@, path@));
        if cand {
            let take = match best {
                None => true,
                Some(_) => (has_host && !best_has_host) || (has_host == best_has_host && plen > best_len),
            };
            assert(best matches Some(j) ==> take == outranks(routes@[i as int], routes@[j as int]));
            if take {
                best = Some(i);
                best_has_host = has_host;
                best_len = plen;
            }
        }
        assert(best == match best_route(routes@, request_host@, path@, (i + 1) as nat) {
            Some(j) => Some(j as usize),
            None => None::<usize>,
        });
        i = i + 1;
    }
    match best {
        Some(j) => {
            let id = match &routes[j].id {
                Some(s) => s.clone(),
                None => String::new(),
            };
            (best, id)
        },
        None => (None, String::new()),
    }
}

/// Route matching picks the best-ranked candidate: nothing is chosen only
/// when no route is a candidate; the chosen route is a candidate; no
/// candidate outranks it, and every candidate before it ranks strictly
/// below it.
pub proof fn lemma_match_route_is_best(rs: Seq<Route>, host: Seq<char>, path: Seq<char>, n: nat)
    requires
        n <= rs.len(),
    ensures
        best_route(rs, host, path, n) is None <==> forall|j: int| 0 <= j < n ==> !is_candidate(#[trigger] rs[j], host, path),
        best_route(rs, host, path, n) matches Some(b) ==> {
            &&& b < n
            &&& is_candidate(rs[b as int], host, path)
            &&& forall|j: int| 0 <= j < n && is_candidate(#[trigger] rs[j], host, path) ==> !outranks(rs[j], rs[b as int])
            &&& forall|j: int| 0 <= j < b && is_candidate(#[trigger] rs[j], host, path) ==> outranks(rs[b as int], rs[j])
        },
    decreases n,
{
    if n > 0 {
        lemma_match_route_is_best(rs, host, path, (n - 1) as nat);
    }
}

} // verus!

verus! {

/// `s` without its trailing `/` characters.
pub open spec fn trim_end_slashes(s: Seq<char>) -> Seq<char>
    decreases s.len(),
{
    if s.len() > 0 && s.last() == '/' {
        trim_end_slashes(s.drop_last())
    } else {
        s
    }
}

/// The prefix that a path rewrite replaces: the route path, `/` when it is
/// missing or empty.
pub open spec fn rewrite_from(route_path: Option<Seq<char>>) -> Seq<char> {
    match route_path {
        Some(r) => if r.len() == 0 { seq!['/'] } else { r },
        None => seq!['/'],
    }
}

/// The replacement of a path rewrite: the proxy pass path, `/` when blank.
pub open spec fn rewrite_to(pp: Seq<char>) -> Seq<char> {
    if trim_spec(pp).len() == 0 { seq!['/'] } else { pp }
}

/// What follows the replaced prefix, without one leading `/`.
pub open spec fn rewrite_suffix(path: Seq<char>, from: Seq<char>) -> Seq<char> {
    let s = path.subrange(from.len() as int, path.len() as int);
    if s.len() > 0 && s[0] == '/' { s.drop_first() } else { s }
}

/// `to` and `suffix` joined by exactly one `/`.
pub open spec fn join_slash(to: Seq<char>, suffix: Seq<char>) -> Seq<char> {
    if suffix.len() == 0 {
        to
    } else if to.len() > 0 && to.last() == '/' {
        to + suffix
    } else {
        to + seq!['/'] + suffix
    }
}

/// The upstream path for `path`: unchanged without a proxy pass path;
/// otherwise the route prefix replaced by the proxy pass path, with a
/// leading `/` ensured.
pub open spec fn rewritten_path(path: Seq<char>, route_path: Option<Seq<char>>, pp: Option<Seq<char>>) -> Seq<char> {
    match pp {
        None => path,
        Some(pp) => {
            let from = rewrite_from(route_path);
            let np = if is_prefix(from, path) {
                join_slash(rewrite_to(pp), rewrite_suffix(path, from))
            } else {
                path
            };
            if np.len() > 0 && np[0] == '/' { np } else { seq!['/'] + np }
        },
    }
}

/// `?query` when there is a query string, else nothing.
pub open spec fn query_part(query: Option<Seq<char>>) -> Seq<char> {
    match query {
        Some(q) => seq!['?'] + q,
        None => Seq::empty(),
    }
}

/// The upstream target: base without trailing `/`, rewritten path, query.
pub open spec fn upstream_url_spec(
    base: Seq<char>,
    route_path: Option<Seq<char>>,
    pp: Option<Seq<char>>,
    path: Seq<char>,
    query: Option<Seq<char>>,
) -> Seq<char> {
    trim_end_slashes(base) + rewritten_path(path, route_path, pp) + query_part(query)
}

pub open spec fn opt_view(o: Option<&str>) -> Option<Seq<char>> {
    match o {
        Some(s) => Some(s@),
        None => None,
    }
}

/// The upstream path for `path` (see `rewritten_path`).
fn rewrite_path(path: &str, route_path: Option<&str>, proxy_pass_path: Option<&str>) -> (r: String)
    ensures
        r@ == rewritten_path(path@, opt_view(route_path), opt_view(proxy_pass_path)),
{
    let pv = chars_of(path);
    match proxy_pass_path {
        None => {
            let r = string_of(&pv, 0, pv.len());
            assert(pv@.subrange(0, pv@.len() as int) == path@);
            r
        },
        Some(pp) => {
            let from: Vec<char> = match route_path {
                Some(rp) => {
                    let v = chars_of(rp);
                    if v.len() == 0 { vec!['/'] } else { v }
                },
                None => vec!['/'],
            };
            assert(from@ == rewrite_from(opt_view(route_path)));
            let np = if starts_with_chars(&pv, &from) {
                join_rewritten(&pv, &from, pp)
            } else {
                let r = string_of(&pv, 0, pv.len());
                assert(pv@.subrange(0, pv@.len() as int) == path@);
                r
            };
            let npv = chars_of(np.as_str());
            let mut out = String::new();
            if !(npv.len() > 0 && npv[0] == '/') {
                out.push('/');
            }
            push_range(&mut out, &npv, 0, npv.len());
            assert(npv@.subrange(0, npv@.len() as int) == npv@);
            assert(out@ =~= rewritten_path(path@, opt_view(route_path), opt_view(proxy_pass_path)));
            out
        },
    }
}

/// The rewrite target joined to what follows the replaced prefix.
fn join_rewritten(pv: &Vec<char>, from: &Vec<char>, pp: &str) -> (r: String)
    requires
        is_prefix(from@, pv@),
    ensures
        r@ == join_slash(rewrite_to(pp@), rewrite_suffix(pv@, from@)),
{
    let tt = trim(pp);
    let to: Vec<char> = if tt.unicode_len() == 0 { vec!['/'] } else { chars_of(pp) };
    assert(to@ == rewrite_to(pp@));
    let mut s0 = from.len();
    if s0 < pv.len() && pv[s0] == '/' {
        s0 = s0 + 1;
    }
    let ghost suffix = rewrite_suffix(pv@, from@);
    assert(suffix =~= pv@.subrange(s0 as int, pv@.len() as int));
    let mut np = String::new();
    push_range(&mut np, &to, 0, to.len());
    assert(to@.subrange(0, to@.len() as int) == to@);
    if s0 < pv.len() {
        if !(to.len() > 0 && to[to.len() - 1] == '/') {
            np.push('/');
        }
        push_range(&mut np, pv, s0, pv.len());
    }
    np
}

/// `upstream_base` without its trailing `/` characters.
fn base_without_slashes(upstream_base: &str) -> (r: String)
    ensures
        r@ == trim_end_slashes(upstream_base@),
{
    let bv = chars_of(upstream_base);
    let mut bend = bv.len();
    assert(bv@.subrange(0, bv@.len() as int) == bv@);
    while bend > 0 && bv[bend - 1] == '/'
        invariant
            bend <= bv@.len(),
            bv@ == upstream_base@,
            trim_end_slashes(bv@) == trim_end_slashes(bv@.subrange(0, bend as int)),
        decreases bend,
    {
        assert(bv@.subrange(0, bend as int).drop_last() == bv@.subrange(0, bend - 1));
        bend = bend - 1;
    }
    string_of(&bv, 0, bend)
}

/// Builds the upstream URL for a request with path `path` and query
/// `query` (the part after `?`, if any).
pub fn build_upstream_url(
    upstream_base: &str,
    route_path: Option<&str>,
    proxy_pass_path: Option<&str>,
    path: &str,
    query: Option<&str>,
) -> (r: String)
    ensures
        r@ == upstream_url_spec(upstream_base@, opt_view(route_path), opt_view(proxy_pass_path), path@, opt_view(query)),
{
    let mut out = base_without_slashes(upstream_base);
    let np = rewrite_path(path, route_path, proxy_pass_path);
    push_str(&mut out, np.as_str());
    match query {
        Some(q) => {
            out.push('?');
            push_str(&mut out, q);
            assert(out@ =~= upstream_url_spec(upstream_base@, opt_view(route_path), opt_view(proxy_pass_path), path@, opt_view(query)));
        },
        None => {
            assert(out@ =~= upstream_url_spec(upstream_base@, opt_view(route_path), opt_view(proxy_pass_path), path@, opt_view(query)));
        },
    }
    out
}

/// The shape of every upstream target: the base keeps no trailing `/`;
/// with a proxy pass path the path starts with a single `/`, and when the
/// request path starts with the route prefix, exactly that prefix is
/// replaced, joined to the rest by one `/`; the query follows verbatim.
pub proof fn lemma_upstream_url_shape(
    base: Seq<char>,
    route_path: Option<Seq<char>>,
    pp: Seq<char>,
    path: Seq<char>,
    query: Option<Seq<char>>,
)
    ensures
        ({
            let b = trim_end_slashes(base);
            let p = rewritten_path(path, route_path, Some(pp));
            let from = rewrite_from(route_path);
            &&& upstream_url_spec(base, route_path, Some(pp), path, query) == b + p + query_part(query)
            &&& b.len() == 0 || b.last() != '/'
            &&& p.len() > 0 && p[0] == '/'
            &&& is_prefix(from, path) ==> {
                let np = join_slash(rewrite_to(pp), rewrite_suffix(path, from));
                &&& path == from + path.subrange(from.len() as int, path.len() as int)
                &&& (p == np || p == seq!['/'] + np)
            }
        }),
{
    lemma_trim_end_slashes(base);
    let from = rewrite_from(route_path);
    if is_prefix(from, path) {
        assert(path == from + path.subrange(from.len() as int, path.len() as int));
    }
}

proof fn lemma_trim_end_slashes(s: Seq<char>)
    ensures
        trim_end_slashes(s).len() == 0 || trim_end_slashes(s).last() != '/',
    decreases s.len(),
{
    if s.len() > 0 && s.last() == '/' {
        lemma_trim_end_slashes(s.drop_last());
    }
}

/// A request path that names a static asset: it holds a `.` or lies under
/// `/assets/` or `/static/`.
pub open spec fn is_asset_path_spec(path: Seq<char>) -> bool {
    path.contains('.') || is_prefix("/assets/"@, path) || is_prefix("/static/"@, path)
}

/// Whether a request path names a static asset (no single-page fallback).
pub fn is_asset_path(path: &str) -> (r: bool)
    ensures
        r == is_asset_path_spec(path@),
{
    let v = chars_of(path);
    contains_char(&v, '.') || starts_with(path, "/assets/") || starts_with(path, "/static/")
}

} // verus!

verus! {

/// The WebSocket route for `path` among `rs[0..n]`: the longest path
/// prefix, the last one among equals.
pub open spec fn best_ws_route(rs: Seq<crate::config::WsRoute>, path: Seq<char>, n: nat) -> Option<nat>
    decreases n,
{
    if n == 0 {
        None
    } else {
        let b = best_ws_route(rs, path, (n - 1) as nat);
        if is_prefix(rs[n - 1].path@, path) && match b {
            None => true,
            Some(j) => rs[n - 1].path@.len() >= rs[j as int].path@.len(),
        } {
            Some((n - 1) as nat)
        } else {
            b
        }
    }
}

proof fn lemma_best_ws_bound(rs: Seq<crate::config::WsRoute>, path: Seq<char>, n: nat)
    ensures
        best_ws_route(rs, path, n) matches Some(j) ==> j < n,
    decreases n,
{
    if n > 0 {
        lemma_best_ws_bound(rs, path, (n - 1) as nat);
    }
}

/// Picks the WebSocket route for a request path (see `best_ws_route`).
pub fn match_ws_route(routes: &Vec<crate::config::WsRoute>, path: &str) -> (r: Option<usize>)
    ensures
        match r {
            Some(i) => best_ws_route(routes@, path@, routes@.len()) == Some(i as nat),
            None => best_ws_route(routes@, path@, routes@.len()) is None,
        },
{
    let mut best: Option<usize> = None;
    let mut best_len: usize = 0;
    let mut i: usize = 0;
    while i < routes.len()
        invariant
            i <= routes@.len(),
            match best {
                Some(j) => best_ws_route(routes@, path@, i as nat) == Some(j as nat) && j < i && best_len == routes@[j as int].path@.len(),
                None => best_ws_route(routes@, path@, i as nat) is None,
            },
        decreases routes@.len() - i,
    {
        proof {
            lemma_best_ws_bound(routes@, path@, i as nat);
        }
        if starts_with(path, routes[i].path.as_str()) {
            let l = routes[i].path.unicode_len();
            let take = match best {
                None => true,
                Some(_) => l >= best_len,
            };
            if take {
                best = Some(i);
                best_len = l;
            }
        }
        i = i + 1;
    }
    best
}

} // verus!
