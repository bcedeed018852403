//! The access gate: client address derivation, blacklist and the allow
//! decision.
use vstd::prelude::*;
use crate::config::WhitelistEntry;
use crate::headers::{h_get, Headers, HeaderSeq};
use crate::keyed::{find_first, lemma_find_first_absent, lemma_find_first_push};
use crate::ip::{fold_spec, is_lan_ip, is_lan_spec, is_loopback_ip, is_loopback_spec, to_ipv4_mapped, IpAddr};
use crate::iptext::{ip_to_string, ip_to_string_spec, parse_ip, parse_ip_spec};
use crate::text::{chars_of, lower_spec, string_of, to_ascii_lower, trim, trim_spec};

verus! {

/// The text before the first `,`.
pub open spec fn first_token(s: Seq<char>) -> Seq<char>
    decreases s.len(),
{
    if s.len() == 0 {
        s
    } else if s[0] == ',' {
        Seq::empty()
    } else {
        seq![s[0]] + first_token(s.drop_first())
    }
}

/// The address named by a header value, if it names one.
pub open spec fn header_ip(v: Option<Seq<char>>, first_only: bool) -> Option<IpAddr> {
    match v {
        Some(s) => {
            let t = trim_spec(if first_only { first_token(s) } else { s });
            if t.len() == 0 { None } else { parse_ip_spec(t) }
        },
        None => None,
    }
}

/// The client address as text: the first `X-Forwarded-For` entry when it
/// is an address, else `X-Real-IP` when it is one, else the remote
/// address; IPv4-mapped addresses are written as IPv4.
pub open spec fn client_ip_spec(remote: IpAddr, h: HeaderSeq) -> Seq<char> {
    match header_ip(h_get(h, "x-forwarded-for"@), true) {
        Some(a) => ip_to_string_spec(a),
        None => match header_ip(h_get(h, "x-real-ip"@), false) {
            Some(a) => ip_to_string_spec(a),
            None => ip_to_string_spec(remote),
        },
    }
}

fn first_token_exec(s: &str) -> (r: String)
    ensures
        r@ == first_token(s@),
{
    let v = chars_of(s);
    let mut end: usize = 0;
    assert(v@.subrange(0, v@.len() as int) == v@);
    assert(v@.subrange(0, 0) + first_token(v@) =~= first_token(v@));
    while end < v.len() && v[end] != ','
        invariant
            end <= v@.len(),
            v@ == s@,
            first_token(s@) == v@.subrange(0, end as int) + first_token(v@.subrange(end as int, v@.len() as int)),
        decreases v@.len() - end,
    {
        let ghost rest = v@.subrange(end as int, v@.len() as int);
        assert(rest.drop_first() == v@.subrange(end + 1, v@.len() as int));
        assert(v@.subrange(0, end + 1) == v@.subrange(0, end as int) + seq![rest[0]]);
        end = end + 1;
    }
    assert(first_token(v@.subrange(end as int, v@.len() as int)) == Seq::<char>::empty());
    string_of(&v, 0, end)
}

fn header_ip_exec(v: Option<String>, first_only: bool) -> (r: Option<IpAddr>)
    ensures
        r == header_ip(match v {
            Some(s) => Some(s@),
            None => None,
        }, first_only),
{
    match v {
        Some(s) => {
            let t = if first_only { trim(first_token_exec(s.as_str()).as_str()) } else { trim(s.as_str()) };
            if t.unicode_len() == 0 { None } else { parse_ip(t.as_str()) }
        },
        None => None,
    }
}

/// Derives the client address of a request from its headers and the
/// remote address (see `client_ip_spec`).
pub fn client_ip_from_headers(remote: &IpAddr, headers: &Headers) -> (r: String)
    ensures
        r@ == client_ip_spec(*remote, headers@),
{
    match header_ip_exec(headers.get("x-forwarded-for"), true) {
        Some(a) => ip_to_string(&a),
        None => match header_ip_exec(headers.get("x-real-ip"), false) {
            Some(a) => ip_to_string(&a),
            None => ip_to_string(remote),
        },
    }
}

/// The key under which an address is blacklisted: trimmed, lower case.
pub open spec fn ip_key(ip: Seq<char>) -> Seq<char> {
    lower_spec(trim_spec(ip))
}

/// The blacklist key of an address text.
pub fn normalize_ip_key(ip: &str) -> (r: String)
    ensures
        r@ == ip_key(ip@),
{
    let t = trim(ip);
    to_ascii_lower(t.as_str())
}

/// An entry that is in force at `now`: permanent (0) or expiring later.
pub open spec fn in_force(expires_at: i64, now: i64) -> bool {
    expires_at == 0 || expires_at > now
}

/// The in-memory blacklist: normalized address to expiry (0 = permanent,
/// else epoch seconds).
pub struct Blacklist {
    pub entries: Vec<(String, i64)>,
}

impl Blacklist {
    /// The expiry kept for a normalized key.
    pub open spec fn lookup(&self, key: Seq<char>) -> Option<i64> {
        find_first(self.entries@, key)
    }

    /// Whether `ip` is blacklisted at `now`.
    pub open spec fn blocks(&self, ip: Seq<char>, now: i64) -> bool {
        match self.lookup(ip_key(ip)) {
            Some(e) => in_force(e, now),
            None => false,
        }
    }

    /// An empty blacklist.
    pub fn new() -> (r: Blacklist)
        ensures
            forall|k: Seq<char>| r.lookup(k) is None,
    {
        Blacklist { entries: Vec::new() }
    }

    /// Whether `ip` is blacklisted at `now`.
    pub fn is_ip_blacklisted(&self, ip: &str, now: i64) -> (r: bool)
        ensures
            r == self.blocks(ip@, now),
    {
        let key = normalize_ip_key(ip);
        let mut i: usize = 0;
        assert(self.entries@.subrange(0, self.entries@.len() as int) == self.entries@);
        while i < self.entries.len()
            invariant
                i <= self.entries@.len(),
                key@ == ip_key(ip@),
                find_first(self.entries@, key@) == find_first(self.entries@.subrange(i as int, self.entries@.len() as int), key@),
            decreases self.entries@.len() - i,
        {
            let ghost rest = self.entries@.subrange(i as int, self.entries@.len() as int);
            if self.entries[i].0 == key {
                let e = self.entries[i].1;
                return e == 0 || e > now;
            }
            assert(rest.drop_first() == self.entries@.subrange(i + 1, self.entries@.len() as int));
            i = i + 1;
        }
        false
    }

    /// Sets the expiry of `ip` (replacing any earlier entry for it).
    pub fn add(&mut self, ip: &str, expires_at: i64)
        ensures
            final(self).lookup(ip_key(ip@)) == Some(expires_at),
            forall|k: Seq<char>| k != ip_key(ip@) ==> final(self).lookup(k) == old(self).lookup(k),
    {
        let key = normalize_ip_key(ip);
        self.remove(ip);
        let ghost before = self.entries@;
        let mut fresh: Vec<(String, i64)> = Vec::new();
        fresh.push((key, expires_at));
        let mut i: usize = 0;
        while i < self.entries.len()
            invariant
                i <= self.entries@.len(),
                before == self.entries@,
                fresh@ == seq![(key, expires_at)] + before.subrange(0, i as int),
            decreases self.entries@.len() - i,
        {
            let e = (self.entries[i].0.clone(), self.entries[i].1);
            fresh.push(e);
            i = i + 1;
            assert(fresh@ =~= seq![(key, expires_at)] + before.subrange(0, i as int));
        }
        assert(before.subrange(0, before.len() as int) == before);
        assert(fresh@.drop_first() == before);
        self.entries = fresh;
    }

    /// Removes `ip` from the blacklist.
    pub fn remove(&mut self, ip: &str)
        ensures
            final(self).lookup(ip_key(ip@)) is None,
            forall|k: Seq<char>| k != ip_key(ip@) ==> final(self).lookup(k) == old(self).lookup(k),
    {
        let key = normalize_ip_key(ip);
        let ghost h = self.entries@;
        let mut kept: Vec<(String, i64)> = Vec::new();
        let mut i: usize = 0;
        while i < self.entries.len()
            invariant
                i <= self.entries@.len(),
                h == self.entries@,
                key@ == ip_key(ip@),
                forall|k: Seq<char>| k != key@ ==> #[trigger] find_first(kept@, k) == find_first(h.subrange(0, i as int), k)
                    || find_first(h.subrange(0, i as int), k) is None && find_first(kept@, k) is None,
                forall|j: int| 0 <= j < kept@.len() ==> (#[trigger] kept@[j]).0@ != key@,
                forall|k: Seq<char>| k != key@ && (#[trigger] find_first(h.subrange(0, i as int), k)) is None ==> find_first(kept@, k) is None,
            decreases self.entries@.len() - i,
        {
            let ghost prev_kept = kept@;
            if !(self.entries[i].0 == key) {
                let e = (self.entries[i].0.clone(), self.entries[i].1);
                kept.push(e);
            }
            proof {
                assert forall|k: Seq<char>| k != key@ implies #[trigger] find_first(kept@, k) == find_first(h.subrange(0, i + 1), k)
                    || find_first(h.subrange(0, i + 1), k) is None && find_first(kept@, k) is None by {
                    lemma_find_first_push(h.subrange(0, i as int), h[i as int], k);
                    assert(h.subrange(0, i + 1) == h.subrange(0, i as int).push(h[i as int]));
                    if !(h[i as int].0@ == key@) {
                        lemma_find_first_push(prev_kept, h[i as int], k);
                    }
                }
                assert forall|k: Seq<char>| k != key@ && (#[trigger] find_first(h.subrange(0, i + 1), k)) is None implies find_first(kept@, k) is None by {
                    lemma_find_first_push(h.subrange(0, i as int), h[i as int], k);
                    assert(h.subrange(0, i + 1) == h.subrange(0, i as int).push(h[i as int]));
                    if !(h[i as int].0@ == key@) {
                        lemma_find_first_push(prev_kept, h[i as int], k);
                    }
                }
            }
            i = i + 1;
        }
        assert(h.subrange(0, h.len() as int) == h);
        proof {
            lemma_find_first_absent(kept@, key@);
        }
        self.entries = kept;
    }

    /// Drops the entries that are no longer in force at `now`.
    pub fn cleanup(&mut self, now: i64)
        ensures
            forall|j: int| 0 <= j < final(self).entries@.len() ==> in_force((#[trigger] final(self).entries@[j]).1, now),
            forall|j: int| 0 <= j < old(self).entries@.len() && in_force((#[trigger] old(self).entries@[j]).1, now)
                ==> final(self).entries@.contains(old(self).entries@[j]),
    {
        let ghost h = self.entries@;
        let mut kept: Vec<(String, i64)> = Vec::new();
        let mut i: usize = 0;
        while i < self.entries.len()
            invariant
                i <= self.entries@.len(),
                h == self.entries@,
                forall|j: int| 0 <= j < kept@.len() ==> in_force((#[trigger] kept@[j]).1, now),
                forall|j: int| 0 <= j < i && in_force((#[trigger] h[j]).1, now) ==> kept@.contains(h[j]),
            decreases self.entries@.len() - i,
        {
            let e = self.entries[i].1;
            if e == 0 || e > now {
                let ghost before = kept@;
                let item = (self.entries[i].0.clone(), e);
                kept.push(item);
                assert(kept@[kept@.len() - 1] == h[i as int]);
                assert forall|j: int| 0 <= j < i && in_force((#[trigger] h[j]).1, now) implies kept@.contains(h[j]) by {
                    if before.contains(h[j]) {
                        let w = choose|w: int| 0 <= w < before.len() && before[w] == h[j];
                        assert(kept@[w] == h[j]);
                    }
                }
            }
            i = i + 1;
        }
        self.entries = kept;
    }
}

} // verus!

verus! {

/// Whether a whitelist entry names the same address as `ip`, both folded.
pub open spec fn whitelisted(wl: Seq<WhitelistEntry>, ip: IpAddr) -> bool {
    exists|i: int| 0 <= i < wl.len() && match parse_ip_spec(#[trigger] wl[i].ip@) {
        Some(w) => fold_spec(w) == fold_spec(ip),
        None => false,
    }
}

/// The access decision, in order: a blacklisted client is denied; a
/// loopback peer is allowed; a whitelisted peer is allowed; otherwise the
/// peer is allowed when all addresses are, or when it is on the LAN and
/// LAN addresses are.
pub open spec fn allowed_spec(
    blocked: bool,
    remote: IpAddr,
    allow_all_lan: bool,
    allow_all_ip: bool,
    wl: Seq<WhitelistEntry>,
) -> bool {
    if blocked {
        false
    } else if is_loopback_spec(remote) {
        true
    } else if whitelisted(wl, remote) {
        true
    } else {
        allow_all_ip || (allow_all_lan && is_lan_spec(remote))
    }
}

/// Whether a whitelist entry names `ip` (folded).
fn is_whitelisted(whitelist: &Vec<WhitelistEntry>, ip: &IpAddr) -> (r: bool)
    ensures
        r == whitelisted(whitelist@, *ip),
{
    let folded = to_ipv4_mapped(ip);
    let mut i: usize = 0;
    while i < whitelist.len()
        invariant
            i <= whitelist@.len(),
            folded == fold_spec(*ip),
            forall|j: int| 0 <= j < i ==> !(match parse_ip_spec(#[trigger] whitelist@[j].ip@) {
                Some(w) => fold_spec(w) == fold_spec(*ip),
                None => false,
            }),
        decreases whitelist@.len() - i,
    {
        match parse_ip(whitelist[i].ip.as_str()) {
            Some(w) => {
                if to_ipv4_mapped(&w) == folded {
                    return true;
                }
            },
            None => {},
        }
        i = i + 1;
    }
    false
}

/// The access decision for a request from `remote` with `headers`: the
/// blacklist is checked on the derived client address (at time `now`), the
/// other rules on the remote address, IPv4-mapped forms folded.
pub fn is_allowed_fast(
    remote: &IpAddr,
    headers: &Headers,
    allow_all_lan: bool,
    allow_all_ip: bool,
    whitelist: &Vec<WhitelistEntry>,
    blacklist: &Blacklist,
    now: i64,
) -> (r: bool)
    ensures
        r == allowed_spec(
            blacklist.blocks(client_ip_spec(*remote, headers@), now),
            *remote,
            allow_all_lan,
            allow_all_ip,
            whitelist@,
        ),
{
    let ip_str = client_ip_from_headers(remote, headers);
    if blacklist.is_ip_blacklisted(ip_str.as_str(), now) {
        return false;
    }
    if is_loopback_ip(remote) {
        return true;
    }
    if is_whitelisted(whitelist, remote) {
        return true;
    }
    allow_all_ip || (allow_all_lan && is_lan_ip(remote))
}

/// A loopback peer that is not blacklisted is always allowed, whatever the
/// other settings; the decision depends on nothing but its arguments.
pub proof fn lemma_loopback_allowed(remote: IpAddr, allow_all_lan: bool, allow_all_ip: bool, wl: Seq<WhitelistEntry>)
    requires
        is_loopback_spec(remote),
    ensures
        allowed_spec(false, remote, allow_all_lan, allow_all_ip, wl),
{
}

/// An IPv4-mapped IPv6 peer `::ffff:a.b.c.d` gets the same client address,
/// loopback, LAN and whitelist answers, and so the same decision, as the
/// plain IPv4 peer `a.b.c.d`.
pub proof fn lemma_mapped_same_decision(
    a: u32,
    h: HeaderSeq,
    bl: Blacklist,
    now: i64,
    allow_all_lan: bool,
    allow_all_ip: bool,
    wl: Seq<WhitelistEntry>,
)
    ensures
        client_ip_spec(IpAddr::V6(crate::ip::mapped_of(a)), h) == client_ip_spec(IpAddr::V4(a), h),
        is_loopback_spec(IpAddr::V6(crate::ip::mapped_of(a))) == is_loopback_spec(IpAddr::V4(a)),
        is_lan_spec(IpAddr::V6(crate::ip::mapped_of(a))) == is_lan_spec(IpAddr::V4(a)),
        whitelisted(wl, IpAddr::V6(crate::ip::mapped_of(a))) == whitelisted(wl, IpAddr::V4(a)),
        allowed_spec(
            bl.blocks(client_ip_spec(IpAddr::V6(crate::ip::mapped_of(a)), h), now),
            IpAddr::V6(crate::ip::mapped_of(a)),
            allow_all_lan,
            allow_all_ip,
            wl,
        ) == allowed_spec(bl.blocks(client_ip_spec(IpAddr::V4(a), h), now), IpAddr::V4(a), allow_all_lan, allow_all_ip, wl),
{
    crate::ip::lemma_mapped_folds(a);
    let m = IpAddr::V6(crate::ip::mapped_of(a));
    assert(fold_spec(m) == fold_spec(IpAddr::V4(a)));
}

} // verus!
