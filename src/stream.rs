//! Stream (TCP/UDP) proxy decisions: duration parsing, configuration
//! checks, upstream selection with passive failover, and the UDP session
//! table.
use vstd::prelude::*;
use crate::config::{StreamProxyConfig, StreamUpstream, StreamUpstreamServer};
use crate::keyed::{find_first, keys_unique, lemma_find_first_absent, lemma_find_first_push, lemma_find_first_remove,
    lemma_find_first_skip, lemma_find_first_update};
use crate::metrics::{fnv1a_spec, hash_fnv1a_64};
use crate::text::{chars_of, lower_spec, to_ascii_lower, trim, trim_spec};

verus! {

/// The value of a decimal number with an optional leading `+`, if it is
/// one and fits in 64 bits.
pub open spec fn number_spec(s: Seq<char>) -> Option<nat> {
    let d = sign_stripped(s);
    if d.len() == 0 || has_non_digit(d) {
        None
    } else if dec_value(d) > u64::MAX {
        None
    } else {
        Some(dec_value(d))
    }
}

/// `s` without one leading `+`.
pub open spec fn sign_stripped(s: Seq<char>) -> Seq<char> {
    if s.len() > 0 && s[0] == '+' { s.drop_first() } else { s }
}

/// Some character of `d` is not a decimal digit.
pub open spec fn has_non_digit(d: Seq<char>) -> bool {
    exists|i: int| 0 <= i < d.len() && !('0' <= #[trigger] d[i] && d[i] <= '9')
}

/// The value of a text of decimal digits.
pub open spec fn dec_value(d: Seq<char>) -> nat
    decreases d.len(),
{
    if d.len() == 0 { 0 } else { dec_value(d.drop_last()) * 10 + (d.last() as nat - '0' as nat) as nat }
}

/// A duration in seconds: `N` with unit `s`, `m` or `h` (any case), or a
/// bare `N` of seconds; surrounding whitespace ignored.
pub open spec fn duration_spec(s: Seq<char>) -> Option<nat> {
    let t = lower_spec(trim_spec(s));
    if t.len() > 0 && (t.last() == 's' || t.last() == 'm' || t.last() == 'h') {
        let unit: nat = if t.last() == 's' { 1 } else if t.last() == 'm' { 60 } else { 3600 };
        match number_spec(t.drop_last()) {
            Some(n) => if n * unit <= u64::MAX { Some(n * unit) } else { None },
            None => None,
        }
    } else {
        number_spec(t)
    }
}

fn parse_number(v: &Vec<char>, from: usize, to: usize) -> (r: Option<u64>)
    requires
        from <= to <= v@.len(),
    ensures
        match r {
            Some(n) => number_spec(v@.subrange(from as int, to as int)) == Some(n as nat),
            None => number_spec(v@.subrange(from as int, to as int)) is None,
        },
{
    let ghost s = v@.subrange(from as int, to as int);
    let start = if from < to && v[from] == '+' { from + 1 } else { from };
    let ghost d = v@.subrange(start as int, to as int);
    assert(d == sign_stripped(s));
    if start == to {
        return None;
    }
    let cap: u128 = 0x1_0000_0000_0000_0000;
    let mut val: u128 = 0;
    let mut i: usize = start;
    while i < to
        invariant
            start < to <= v@.len(),
            start <= i <= to,
            d == v@.subrange(start as int, to as int),
            d == sign_stripped(v@.subrange(from as int, to as int)),
            cap == 0x1_0000_0000_0000_0000u128,
            forall|j: int| start <= j < i ==> '0' <= #[trigger] v@[j] && v@[j] <= '9',
            val as nat == if dec_value(v@.subrange(start as int, i as int)) < cap { dec_value(v@.subrange(start as int, i as int)) } else { cap as nat },
        decreases to - i,
    {
        let c = v[i];
        if !('0' <= c && c <= '9') {
            assert(d[i - start] == c);
            assert(!('0' <= d[i - start] && d[i - start] <= '9'));
            assert(has_non_digit(d));
            return None;
        }
        let digit = ((c as u32) - ('0' as u32)) as u128;
        let ghost x = dec_value(v@.subrange(start as int, i as int));
        assert(v@.subrange(start as int, i + 1).drop_last() == v@.subrange(start as int, i as int));
        assert(dec_value(v@.subrange(start as int, i + 1)) == x * 10 + digit);
        if val >= cap {
            assert(x * 10 + digit >= cap) by (nonlinear_arith) requires x >= cap, digit >= 0;
        } else {
            val = val * 10 + digit;
            if val >= cap {
                val = cap;
            }
        }
        i = i + 1;
    }
    assert(v@.subrange(start as int, to as int) == d);
    assert(forall|j: int| 0 <= j < d.len() ==> '0' <= #[trigger] d[j] && d[j] <= '9') by {
        assert forall|j: int| 0 <= j < d.len() implies '0' <= #[trigger] d[j] && d[j] <= '9' by {
            assert(d[j] == v@[start + j]);
        }
    }
    if val >= cap { None } else { Some(val as u64) }
}

/// Parses a duration (see `duration_spec`) into seconds.
pub fn parse_duration(s: &str) -> (r: Option<u64>)
    ensures
        match r {
            Some(n) => duration_spec(s@) == Some(n as nat),
            None => duration_spec(s@) is None,
        },
{
    let t = to_ascii_lower(trim(s).as_str());
    let v = chars_of(t.as_str());
    let n = v.len();
    assert(v@.subrange(0, n as int) == v@);
    if n > 0 && (v[n - 1] == 's' || v[n - 1] == 'm' || v[n - 1] == 'h') {
        let unit: u64 = if v[n - 1] == 's' { 1 } else if v[n - 1] == 'm' { 60 } else { 3600 };
        assert(v@.subrange(0, n - 1) == v@.drop_last());
        match parse_number(&v, 0, n - 1) {
            Some(x) => {
                if x <= u64::MAX / unit {
                    assert(x * unit <= u64::MAX) by (nonlinear_arith) requires x <= u64::MAX / unit, unit > 0;
                    Some(x * unit)
                } else {
                    assert(x * unit > u64::MAX) by (nonlinear_arith) requires x > u64::MAX / unit, unit > 0;
                    None
                }
            },
            None => None,
        }
    } else {
        parse_number(&v, 0, n)
    }
}

} // verus!

verus! {

/// Failure record of one upstream address; `down_until_ms` is when it may
/// be tried again.
#[derive(Clone, Copy, Debug)]
pub struct FailState {
    pub fails: u32,
    pub down_until_ms: Option<u64>,
}

/// Whether a failure record marks its server down at `now`.
pub open spec fn down_at(st: Option<FailState>, now: u64) -> bool {
    match st {
        Some(s) => match s.down_until_ms {
            Some(t) => t > now,
            None => false,
        },
        None => false,
    }
}

/// `now + secs` seconds, in milliseconds, capped at the largest value.
pub open spec fn deadline_spec(now_ms: u64, secs: u64) -> u64 {
    if now_ms + secs * 1000 > u64::MAX { u64::MAX } else { (now_ms + secs * 1000) as u64 }
}

fn deadline_ms(now_ms: u64, secs: u64) -> (r: u64)
    ensures
        r == deadline_spec(now_ms, secs),
{
    if secs > (u64::MAX - now_ms) / 1000 {
        assert(now_ms + secs * 1000 > u64::MAX) by (nonlinear_arith)
            requires secs > (u64::MAX - now_ms) / 1000, now_ms <= u64::MAX;
        u64::MAX
    } else {
        assert(now_ms + secs * 1000 <= u64::MAX) by (nonlinear_arith)
            requires secs <= (u64::MAX - now_ms) / 1000, now_ms <= u64::MAX;
        now_ms + secs * 1000
    }
}

/// Passive failover state of the stream upstreams, by address.
pub struct FailMap {
    pub entries: Vec<(String, FailState)>,
}

impl FailMap {
    pub open spec fn lookup(&self, addr: Seq<char>) -> Option<FailState> {
        find_first(self.entries@, addr)
    }

    pub open spec fn wf(&self) -> bool {
        keys_unique(self.entries@)
    }

    /// No failures recorded.
    pub fn new() -> (r: FailMap)
        ensures
            r.wf(),
            forall|a: Seq<char>| r.lookup(a) is None,
    {
        FailMap { entries: Vec::new() }
    }

    fn position(&self, addr: &str) -> (r: Option<usize>)
        ensures
            match r {
                Some(i) => i < self.entries@.len() && self.entries@[i as int].0@ == addr@
                    && forall|j: int| 0 <= j < i ==> (#[trigger] self.entries@[j]).0@ != addr@,
                None => forall|j: int| 0 <= j < self.entries@.len() ==> (#[trigger] self.entries@[j]).0@ != addr@,
            },
    {
        let key = String::from_str(addr);
        let mut i: usize = 0;
        while i < self.entries.len()
            invariant
                i <= self.entries@.len(),
                key@ == addr@,
                forall|j: int| 0 <= j < i ==> (#[trigger] self.entries@[j]).0@ != addr@,
            decreases self.entries@.len() - i,
        {
            if self.entries[i].0 == key {
                return Some(i);
            }
            i = i + 1;
        }
        None
    }

    /// Whether `addr` is marked down at `now_ms`.
    pub fn is_down(&self, addr: &str, now_ms: u64) -> (r: bool)
        ensures
            r == down_at(self.lookup(addr@), now_ms),
    {
        match self.position(addr) {
            Some(i) => {
                proof {
                    lemma_find_first_skip(self.entries@, addr@, i as int);
                }
                match self.entries[i].1.down_until_ms {
                    Some(t) => t > now_ms,
                    None => false,
                }
            },
            None => {
                proof {
                    lemma_find_first_absent(self.entries@, addr@);
                }
                false
            },
        }
    }

    /// A successful connect clears the record of `addr`.
    pub fn record_upstream_success(&mut self, addr: &str)
        requires
            old(self).wf(),
        ensures
            final(self).wf(),
            final(self).lookup(addr@) is None,
            forall|a: Seq<char>| a != addr@ ==> final(self).lookup(a) == old(self).lookup(a),
    {
        match self.position(addr) {
            Some(i) => {
                let ghost s = self.entries@;
                self.entries.remove(i);
                proof {
                    lemma_find_first_remove(s, i as int, addr@);
                    assert forall|a: Seq<char>| a != addr@ implies self.lookup(a) == old(self).lookup(a) by {
                        lemma_find_first_remove(s, i as int, a);
                    }
                    assert forall|x: int, y: int| 0 <= x < self.entries@.len() && 0 <= y < self.entries@.len() && x != y
                        implies (#[trigger] self.entries@[x]).0@ != (#[trigger] self.entries@[y]).0@ by {
                        let ox = if x < i { x } else { x + 1 };
                        let oy = if y < i { y } else { y + 1 };
                        assert(self.entries@[x] == s[ox]);
                        assert(self.entries@[y] == s[oy]);
                    }
                }
            },
            None => {
                proof {
                    lemma_find_first_absent(self.entries@, addr@);
                }
            },
        }
    }

    /// A failed connect counts one more failure for `addr`; from
    /// `max(max_fails, 1)` failures on, it is down for `fail_timeout_secs`
    /// from `now_ms`.
    pub fn record_upstream_failure(&mut self, addr: &str, max_fails: i32, fail_timeout_secs: u64, now_ms: u64)
        requires
            old(self).wf(),
        ensures
            final(self).wf(),
            ({
                let prev = match old(self).lookup(addr@) {
                    Some(st) => st,
                    None => FailState { fails: 0, down_until_ms: None },
                };
                let fails = prev.fails.saturating_add(1);
                let limit: u32 = if max_fails <= 0 { 1 } else { max_fails as u32 };
                final(self).lookup(addr@) == Some(FailState {
                    fails,
                    down_until_ms: if fails >= limit {
                        Some(deadline_spec(now_ms, fail_timeout_secs))
                    } else {
                        prev.down_until_ms
                    },
                })
            }),
            forall|a: Seq<char>| a != addr@ ==> final(self).lookup(a) == old(self).lookup(a),
    {
        let limit: u32 = if max_fails <= 0 { 1 } else { max_fails as u32 };
        let pos = self.position(addr);
        let ghost s = self.entries@;
        let prev = match pos {
            Some(i) => self.entries[i].1,
            None => FailState { fails: 0, down_until_ms: None },
        };
        let fails = prev.fails.saturating_add(1);
        let down = if fails >= limit {
            Some(deadline_ms(now_ms, fail_timeout_secs))
        } else {
            prev.down_until_ms
        };
        let st = FailState { fails, down_until_ms: down };
        match pos {
            Some(i) => {
                let k = String::from_str(addr);
                let ghost entry = (k, st);
                self.entries.set(i, (k, st));
                proof {
                    lemma_find_first_skip(s, addr@, i as int);
                    lemma_find_first_update(s, i as int, entry, addr@);
                    assert forall|a: Seq<char>| a != addr@ implies self.lookup(a) == old(self).lookup(a) by {
                        lemma_find_first_update(s, i as int, entry, a);
                    }
                    assert forall|x: int, y: int| 0 <= x < self.entries@.len() && 0 <= y < self.entries@.len() && x != y
                        implies (#[trigger] self.entries@[x]).0@ != (#[trigger] self.entries@[y]).0@ by {
                        assert(self.entries@[x].0@ == s[x].0@);
                        assert(self.entries@[y].0@ == s[y].0@);
                    }
                }
            },
            None => {
                let k = String::from_str(addr);
                let ghost entry = (k, st);
                self.entries.push((k, st));
                proof {
                    lemma_find_first_absent(s, addr@);
                    lemma_find_first_push(s, entry, addr@);
                    assert forall|a: Seq<char>| a != addr@ implies self.lookup(a) == old(self).lookup(a) by {
                        lemma_find_first_push(s, entry, a);
                    }
                    assert forall|x: int, y: int| 0 <= x < self.entries@.len() && 0 <= y < self.entries@.len() && x != y
                        implies (#[trigger] self.entries@[x]).0@ != (#[trigger] self.entries@[y]).0@ by {
                        if x < s.len() && y < s.len() {
                            assert(self.entries@[x] == s[x]);
                            assert(self.entries@[y] == s[y]);
                        } else if x < s.len() {
                            assert(self.entries@[x] == s[x]);
                        } else if y < s.len() {
                            assert(self.entries@[y] == s[y]);
                        }
                    }
                }
            },
        }
    }
}

} // verus!

verus! {

/// Virtual nodes per server on the consistent-hash ring.
pub const VNODES: u64 = 160;

/// The ring key of virtual node `v` of address `addr`: FNV-1a of `addr#v`.
pub open spec fn vnode_key(addr: Seq<char>, v: nat) -> u64 {
    fnv1a_spec(vstd::utf8::encode_utf8(addr + seq!['#'] + crate::text::decimal_spec(v)))
}

/// The virtual nodes of the first `n` servers, in order (blank addresses
/// get none).
pub open spec fn ring_entries(servers: Seq<StreamUpstreamServer>, n: nat) -> Seq<(u64, nat)>
    decreases n,
{
    if n == 0 {
        Seq::empty()
    } else {
        let prev = ring_entries(servers, (n - 1) as nat);
        let a = servers[n - 1].addr@;
        if trim_spec(a).len() == 0 {
            prev
        } else {
            prev + Seq::new(VNODES as nat, |v: int| (vnode_key(a, v as nat), (n - 1) as nat))
        }
    }
}

/// `x` placed after every entry whose key is not greater (stable).
pub open spec fn insert_by_key(s: Seq<(u64, nat)>, x: (u64, nat)) -> Seq<(u64, nat)>
    decreases s.len(),
{
    if s.len() == 0 || s.last().0 <= x.0 {
        s.push(x)
    } else {
        insert_by_key(s.drop_last(), x).push(s.last())
    }
}

/// Stable sort by key.
pub open spec fn sort_by_key_spec(s: Seq<(u64, nat)>) -> Seq<(u64, nat)>
    decreases s.len(),
{
    if s.len() == 0 { s } else { insert_by_key(sort_by_key_spec(s.drop_last()), s.last()) }
}

/// The consistent-hash ring: all virtual nodes, sorted by key.
pub open spec fn ring_spec(servers: Seq<StreamUpstreamServer>) -> Seq<(u64, nat)> {
    sort_by_key_spec(ring_entries(servers, servers.len()))
}

/// Ring entries as values.
pub open spec fn ring_view(r: Seq<(u64, usize)>) -> Seq<(u64, nat)> {
    r.map_values(|e: (u64, usize)| (e.0, e.1 as nat))
}

fn insert_by_key_exec(s: &mut Vec<(u64, usize)>, x: (u64, usize))
    ensures
        ring_view(final(s)@) == insert_by_key(ring_view(old(s)@), (x.0, x.1 as nat)),
{
    let ghost sv = ring_view(s@);
    let ghost xv = (x.0, x.1 as nat);
    let mut i: usize = s.len();
    assert(sv.subrange(0, sv.len() as int) == sv);
    assert(insert_by_key(sv, xv) == insert_by_key(sv.subrange(0, sv.len() as int), xv) + sv.subrange(sv.len() as int, sv.len() as int));
    while i > 0 && s[i - 1].0 > x.0
        invariant
            i <= s@.len(),
            s@ == old(s)@,
            sv == ring_view(s@),
            xv == (x.0, x.1 as nat),
            insert_by_key(sv, xv) == insert_by_key(sv.subrange(0, i as int), xv) + sv.subrange(i as int, sv.len() as int),
        decreases i,
    {
        let ghost pre = sv.subrange(0, i as int);
        assert(pre.drop_last() == sv.subrange(0, i - 1));
        assert(pre.last() == sv[i - 1]);
        assert(sv[i - 1] == (s@[i - 1].0, s@[i - 1].1 as nat));
        assert(pre.len() > 0 && pre.last().0 > xv.0);
        assert(sv.subrange(i - 1, sv.len() as int) == seq![sv[i - 1]] + sv.subrange(i as int, sv.len() as int));
        assert(insert_by_key(pre, xv) == insert_by_key(pre.drop_last(), xv).push(pre.last()));
        assert(insert_by_key(pre.drop_last(), xv).push(pre.last()) + sv.subrange(i as int, sv.len() as int)
            =~= insert_by_key(pre.drop_last(), xv) + sv.subrange(i - 1, sv.len() as int));
        i = i - 1;
    }
    let ghost pre = sv.subrange(0, i as int);
    assert(insert_by_key(pre, xv) == pre.push(xv));
    s.insert(i, x);
    assert(ring_view(s@) =~= pre.push(xv) + sv.subrange(i as int, sv.len() as int));
}

/// Builds the consistent-hash ring of an upstream group.
pub fn build_ring(servers: &Vec<StreamUpstreamServer>) -> (r: Vec<(u64, usize)>)
    requires
        servers@.len() <= usize::MAX / 2,
    ensures
        ring_view(r@) == ring_spec(servers@),
{
    let ghost all = ring_entries(servers@, servers@.len());
    let mut ring: Vec<(u64, usize)> = Vec::new();
    let ghost done: Seq<(u64, nat)> = Seq::empty();
    let mut i: usize = 0;
    assert(ring_view(ring@) =~= sort_by_key_spec(Seq::<(u64, nat)>::empty()));
    while i < servers.len()
        invariant
            i <= servers@.len(),
            done == ring_entries(servers@, i as nat),
            ring_view(ring@) == sort_by_key_spec(done),
        decreases servers@.len() - i,
    {
        let t = trim(servers[i].addr.as_str());
        if t.unicode_len() > 0 {
            let mut v: u64 = 0;
            let ghost base = done;
            while v < VNODES
                invariant
                    v <= VNODES,
                    i < servers@.len(),
                    base == ring_entries(servers@, i as nat),
                    done == base + Seq::new(v as nat, |k: int| (vnode_key(servers@[i as int].addr@, k as nat), i as nat)),
                    ring_view(ring@) == sort_by_key_spec(done),
                decreases VNODES - v,
            {
                let mut key_text = servers[i].addr.clone();
                key_text.push('#');
                let d = crate::text::u64_to_decimal(v);
                crate::text::push_str(&mut key_text, d.as_str());
                assert(key_text@ =~= servers@[i as int].addr@ + seq!['#'] + crate::text::decimal_spec(v as nat));
                let h = hash_fnv1a_64(key_text.as_str());
                assert(h == vnode_key(servers@[i as int].addr@, v as nat));
                let ghost prev = done;
                insert_by_key_exec(&mut ring, (h, i));
                proof {
                    done = done.push((h, i as nat));
                    assert(done.drop_last() == prev);
                    assert(done =~= base + Seq::new((v + 1) as nat, |k: int| (vnode_key(servers@[i as int].addr@, k as nat), i as nat)));
                }
                v = v + 1;
            }
        } else {
        }
        i = i + 1;
    }
    ring
}

} // verus!

verus! {

/// Whether an upstream group picks by client address: its hash key is
/// `$remote_addr` or blank.
pub open spec fn uses_hash(u: StreamUpstream) -> bool {
    trim_spec(u.hash_key@) == "$remote_addr"@ || trim_spec(u.hash_key@).len() == 0
}

/// The first ring position from `j` on whose key is at least `h`; 0 (wrap
/// around) when there is none.
pub open spec fn lower_bound_from(ring: Seq<(u64, nat)>, h: u64, j: int) -> int
    decreases ring.len() - j,
{
    if j < 0 || j >= ring.len() {
        0
    } else if ring[j].0 >= h {
        j
    } else {
        lower_bound_from(ring, h, j + 1)
    }
}

/// Walking the ring from `start` (step `k` on), the server of the first
/// entry that is not down.
pub open spec fn ring_pick(ring: Seq<(u64, nat)>, servers: Seq<StreamUpstreamServer>, fm: FailMap, now: u64, start: int, k: int) -> Option<nat>
    decreases ring.len() - k,
{
    if k < 0 || k >= ring.len() {
        None
    } else {
        let e = ring[(start + k) % (ring.len() as int)];
        if e.1 < servers.len() && !down_at(fm.lookup(servers[e.1 as int].addr@), now) {
            Some(e.1)
        } else {
            ring_pick(ring, servers, fm, now, start, k + 1)
        }
    }
}

/// Probing the servers from `start` (step `k` on), the first that is not
/// down.
pub open spec fn probe_pick(servers: Seq<StreamUpstreamServer>, fm: FailMap, now: u64, start: int, k: int) -> Option<nat>
    decreases servers.len() - k,
{
    if k < 0 || k >= servers.len() {
        None
    } else {
        let i = (start + k) % (servers.len() as int);
        if !down_at(fm.lookup(servers[i].addr@), now) {
            Some(i as nat)
        } else {
            probe_pick(servers, fm, now, start, k + 1)
        }
    }
}

/// The server chosen for a new connection from `client_ip`: on the
/// consistent-hash ring when the group is consistent and hashes by client,
/// else from the client hash or the round-robin `counter`, probing forward;
/// servers marked down at `now` are skipped; `None` when all are down.
pub open spec fn select_spec(u: StreamUpstream, client_ip: Seq<char>, fm: FailMap, now: u64, counter: u64) -> Option<nat> {
    if u.servers@.len() == 0 {
        None
    } else if u.consistent && uses_hash(u) {
        consistent_pick(u.servers@, client_hash(client_ip), fm, now)
    } else {
        probe_pick(u.servers@, fm, now, probe_start(u, client_hash(client_ip), counter), 0)
    }
}

/// The hash of a client address.
pub open spec fn client_hash(client_ip: Seq<char>) -> u64 {
    fnv1a_spec(vstd::utf8::encode_utf8(client_ip))
}

/// The first ring entry at or after `h`, walking past servers that are
/// down.
pub open spec fn consistent_pick(servers: Seq<StreamUpstreamServer>, h: u64, fm: FailMap, now: u64) -> Option<nat> {
    let ring = ring_spec(servers);
    if ring.len() == 0 { None } else { ring_pick(ring, servers, fm, now, lower_bound_from(ring, h, 0), 0) }
}

/// Where probing starts: the client hash or the counter, modulo the
/// number of servers.
pub open spec fn probe_start(u: StreamUpstream, h: u64, counter: u64) -> int {
    let n = u.servers@.len();
    if uses_hash(u) { (h as int) % (n as int) } else { (counter as int) % (n as int) }
}

fn uses_hash_exec(u: &StreamUpstream) -> (r: bool)
    ensures
        r == uses_hash(*u),
{
    let k = trim(u.hash_key.as_str());
    let v = chars_of(k.as_str());
    let p = chars_of("$remote_addr");
    let same = v.len() == p.len() && crate::text::starts_with_chars(&v, &p);
    proof {
        if v@.len() == p@.len() {
            assert(v@.subrange(0, p@.len() as int) == v@);
        }
    }
    same || k.unicode_len() == 0
}

/// Chooses the upstream server for a new stream connection (see
/// `select_spec`); `counter` is the round-robin counter's value for this
/// connection.
pub fn select_upstream_server_with_failover(
    upstream: &StreamUpstream,
    client_ip: &str,
    fails: &FailMap,
    now_ms: u64,
    counter: u64,
) -> (r: Option<usize>)
    requires
        upstream.servers@.len() <= usize::MAX / 2,
    ensures
        match r {
            Some(i) => select_spec(*upstream, client_ip@, *fails, now_ms, counter) == Some(i as nat),
            None => select_spec(*upstream, client_ip@, *fails, now_ms, counter) is None,
        },
{
    let servers = &upstream.servers;
    let n = servers.len();
    if n == 0 {
        return None;
    }
    let use_hash = uses_hash_exec(upstream);
    let h = hash_fnv1a_64(client_ip);
    if upstream.consistent && use_hash {
        let ring = build_ring(servers);
        let len = ring.len();
        if len == 0 {
            return None;
        }
        let ghost rv = ring_view(ring@);
        let mut j: usize = 0;
        while j < len && ring[j].0 < h
            invariant
                j <= len == ring@.len() == rv.len(),
                rv == ring_view(ring@),
                h == fnv1a_spec(vstd::utf8::encode_utf8(client_ip@)),
                lower_bound_from(rv, h, 0) == lower_bound_from(rv, h, j as int),
            decreases len - j,
        {
            assert(rv[j as int].0 == ring@[j as int].0);
            j = j + 1;
        }
        proof {
            if j < len {
                assert(rv[j as int].0 == ring@[j as int].0);
            }
        }
        let start = if j >= len { 0 } else { j };
        let mut k: usize = 0;
        while k < len
            invariant
                k <= len == ring@.len() == rv.len(),
                n == servers@.len(),
                servers@ == upstream.servers@,
                upstream.consistent && uses_hash(*upstream),
                h == fnv1a_spec(vstd::utf8::encode_utf8(client_ip@)),
                rv == ring_spec(servers@),
                rv == ring_view(ring@),
                start < len,
                start as int == lower_bound_from(rv, h, 0),
                ring_pick(rv, servers@, *fails, now_ms, start as int, 0) == ring_pick(rv, servers@, *fails, now_ms, start as int, k as int),
            decreases len - k,
        {
            let pos = if k < len - start { start + k } else { k - (len - start) };
            assert(pos as int == (start + k) as int % (len as int)) by (nonlinear_arith)
                requires start < len, k < len, pos == if k < len - start { start + k } else { k - (len - start) };
            let sidx = ring[pos].1;
            assert(rv[pos as int] == (ring@[pos as int].0, sidx as nat));
            if sidx < n && !fails.is_down(servers[sidx].addr.as_str(), now_ms) {
                return Some(sidx);
            }
            k = k + 1;
        }
        None
    } else {
        let start = if use_hash { (h % n as u64) as usize } else { (counter % n as u64) as usize };
        let mut k: usize = 0;
        while k < n
            invariant
                k <= n == servers@.len(),
                servers@ == upstream.servers@,
                n > 0,
                !(upstream.consistent && use_hash),
                h == fnv1a_spec(vstd::utf8::encode_utf8(client_ip@)),
                use_hash == uses_hash(*upstream),
                start < n,
                start as int == probe_start(*upstream, h, counter),
                probe_pick(servers@, *fails, now_ms, start as int, 0) == probe_pick(servers@, *fails, now_ms, start as int, k as int),
            decreases n - k,
        {
            let i = if k < n - start { start + k } else { k - (n - start) };
            assert(i as int == (start + k) as int % (n as int)) by (nonlinear_arith)
                requires start < n, k < n, i == if k < n - start { start + k } else { k - (n - start) };
            if !fails.is_down(servers[i].addr.as_str(), now_ms) {
                assert(!(upstream.consistent && uses_hash(*upstream)));
                assert(n > 0);

                return Some(i);
            }
            k = k + 1;
        }
        None
    }
}

/// The UDP choice, without failover: by client hash when the group hashes
/// by client, else by the round-robin `counter`.
pub fn select_upstream_server(upstream: &StreamUpstream, client_ip: &str, counter: u64) -> (r: usize)
    requires
        upstream.servers@.len() > 0,
    ensures
        r < upstream.servers@.len(),
        r as int == probe_start(*upstream, client_hash(client_ip@), counter),
{
    let n = upstream.servers.len() as u64;
    if uses_hash_exec(upstream) {
        (hash_fnv1a_64(client_ip) % n) as usize
    } else {
        (counter % n) as usize
    }
}

} // verus!

verus! {

/// What is wrong with a stream configuration.
#[derive(Clone, Debug)]
pub enum StreamConfigError {
    DuplicateListenPort { port: u16, udp: bool },
    EmptyUpstreamName,
    DuplicateUpstreamName(String),
    UpstreamWithoutServers(String),
    EmptyServerAddr(String),
    InvalidServerAddr(String),
    InvalidServerPort(String),
    InvalidFailTimeout(String),
    EmptyProxyPass(u16),
    MissingUpstream { port: u16, name: String },
    InvalidConnectTimeout(String),
    InvalidProxyTimeout(String),
}

/// The text after the last `:` (all of `s` when there is none).
pub open spec fn after_last_colon(s: Seq<char>) -> Seq<char>
    decreases s.len(),
{
    if s.len() == 0 {
        s
    } else if s.last() == ':' {
        Seq::empty()
    } else {
        after_last_colon(s.drop_last()).push(s.last())
    }
}

/// A server address of the form `host:port`.
pub open spec fn server_addr_ok(a: Seq<char>) -> bool {
    &&& trim_spec(a).len() > 0
    &&& a.contains(':')
    &&& match number_spec(trim_spec(after_last_colon(a))) {
        Some(p) => p <= 65535,
        None => false,
    }
}

/// A valid upstream group: a non-blank name, servers, each with a
/// `host:port` address and a valid fail timeout.
pub open spec fn upstream_ok(u: StreamUpstream) -> bool {
    &&& trim_spec(u.name@).len() > 0
    &&& u.servers@.len() > 0
    &&& forall|k: int| 0 <= k < u.servers@.len() ==> server_addr_ok((#[trigger] u.servers@[k]).addr@)
        && duration_spec(u.servers@[k].fail_timeout@) is Some
}

/// The index of the first group named `name`, if any.
pub open spec fn group_named(ups: Seq<StreamUpstream>, name: Seq<char>) -> Option<int> {
    if exists|i: int| 0 <= i < ups.len() && (#[trigger] ups[i]).name@ == name {
        Some(choose|i: int| 0 <= i < ups.len() && (#[trigger] ups[i]).name@ == name)
    } else {
        None
    }
}

/// A stream configuration that may start: enabled listeners have distinct
/// `(port, udp)`; groups are valid with distinct trimmed names; every
/// enabled listener names an existing group and has valid timeouts.
pub open spec fn stream_config_ok(cfg: StreamProxyConfig) -> bool {
    let s = cfg.servers@;
    let u = cfg.upstreams@;
    &&& forall|i: int, j: int| 0 <= i < j < s.len() && (#[trigger] s[i]).enabled && (#[trigger] s[j]).enabled ==> !(s[i].listen_port == s[j].listen_port && s[i].udp == s[j].udp)
    &&& forall|i: int| 0 <= i < u.len() ==> upstream_ok(#[trigger] u[i])
    &&& forall|i: int, j: int| 0 <= i < j < u.len() ==> trim_spec((#[trigger] u[i]).name@) != trim_spec((#[trigger] u[j]).name@)
    &&& forall|i: int| 0 <= i < s.len() && (#[trigger] s[i]).enabled ==> {
        &&& trim_spec(s[i].proxy_pass@).len() > 0
        &&& group_named(u, trim_spec(s[i].proxy_pass@)) is Some
        &&& duration_spec(s[i].proxy_connect_timeout@) is Some
        &&& duration_spec(s[i].proxy_timeout@) is Some
    }
}

} // verus!

verus! {

fn server_addr_ok_exec(a: &str) -> (r: bool)
    ensures
        r == server_addr_ok(a@),
{
    let t = trim(a);
    if t.unicode_len() == 0 {
        return false;
    }
    let v = chars_of(a);
    if !crate::text::contains_char(&v, ':') {
        return false;
    }
    let mut j: usize = v.len();
    assert(v@.subrange(0, v@.len() as int) == v@);
    assert(after_last_colon(v@) == after_last_colon(v@.subrange(0, j as int)) + v@.subrange(j as int, v@.len() as int));
    while j > 0 && v[j - 1] != ':'
        invariant
            j <= v@.len(),
            v@ == a@,
            after_last_colon(v@) == after_last_colon(v@.subrange(0, j as int)) + v@.subrange(j as int, v@.len() as int),
        decreases j,
    {
        let ghost pre = v@.subrange(0, j as int);
        assert(pre.drop_last() == v@.subrange(0, j - 1));
        assert(v@.subrange(j - 1, v@.len() as int) == seq![v@[j - 1]] + v@.subrange(j as int, v@.len() as int));
        assert(after_last_colon(pre.drop_last()).push(pre.last()) + v@.subrange(j as int, v@.len() as int)
            =~= after_last_colon(pre.drop_last()) + v@.subrange(j - 1, v@.len() as int));
        j = j - 1;
    }
    proof {
        if j > 0 {
            assert(after_last_colon(v@.subrange(0, j as int)) == Seq::<char>::empty());
        } else {
            assert(after_last_colon(v@.subrange(0, 0)) == Seq::<char>::empty());
        }
    }
    let port_text = crate::text::string_of(&v, j, v.len());
    let pt = trim(port_text.as_str());
    let pv = chars_of(pt.as_str());
    assert(pv@.subrange(0, pv@.len() as int) == pv@);
    match parse_number(&pv, 0, pv.len()) {
        Some(p) => p <= 65535,
        None => false,
    }
}

fn upstream_ok_exec(u: &StreamUpstream) -> (r: Result<(), StreamConfigError>)
    ensures
        r is Ok <==> upstream_ok(*u),
{
    let name = trim(u.name.as_str());
    if name.unicode_len() == 0 {
        return Err(StreamConfigError::EmptyUpstreamName);
    }
    if u.servers.len() == 0 {
        return Err(StreamConfigError::UpstreamWithoutServers(name));
    }
    let mut k: usize = 0;
    while k < u.servers.len()
        invariant
            k <= u.servers@.len(),
            forall|m: int| 0 <= m < k ==> server_addr_ok((#[trigger] u.servers@[m]).addr@)
                && duration_spec(u.servers@[m].fail_timeout@) is Some,
        decreases u.servers@.len() - k,
    {
        let sv = &u.servers[k];
        if trim(sv.addr.as_str()).unicode_len() == 0 {
            return Err(StreamConfigError::EmptyServerAddr(name));
        }
        if !server_addr_ok_exec(sv.addr.as_str()) {
            return Err(StreamConfigError::InvalidServerAddr(sv.addr.clone()));
        }
        if parse_duration(sv.fail_timeout.as_str()).is_none() {
            return Err(StreamConfigError::InvalidFailTimeout(sv.addr.clone()));
        }
        k = k + 1;
    }
    Ok(())
}

/// Checks a stream configuration before start-up: `Ok` exactly when it is
/// valid (see `stream_config_ok`), else the first problem found.
pub fn validate_stream_config(cfg: &StreamProxyConfig) -> (r: Result<(), StreamConfigError>)
    ensures
        r is Ok <==> stream_config_ok(*cfg),
{
    let s = &cfg.servers;
    let u = &cfg.upstreams;
    let mut i: usize = 0;
    while i < s.len()
        invariant
            i <= s@.len(),
            s@ == cfg.servers@,
            forall|x: int, y: int| 0 <= x < y < i && (#[trigger] s@[x]).enabled && (#[trigger] s@[y]).enabled ==> !(s@[x].listen_port == s@[y].listen_port && s@[x].udp == s@[y].udp),
        decreases s@.len() - i,
    {
        if s[i].enabled {
            let mut j: usize = 0;
            while j < i
                invariant
                    j <= i < s@.len(),
                    s@ == cfg.servers@,
                    s[i as int].enabled,
                    forall|x: int| 0 <= x < j && (#[trigger] s@[x]).enabled ==> !(s@[x].listen_port == s@[i as int].listen_port && s@[x].udp == s@[i as int].udp),
                decreases i - j,
            {
                if s[j].enabled && s[j].listen_port == s[i].listen_port && s[j].udp == s[i].udp {
                    assert(!stream_config_ok(*cfg)) by {
                        assert(0 <= j < i < s@.len() && s@[j as int].enabled && s@[i as int].enabled);
                    }
                    return Err(StreamConfigError::DuplicateListenPort { port: s[i].listen_port, udp: s[i].udp });
                }
                j = j + 1;
            }
        }
        i = i + 1;
    }
    let mut i: usize = 0;
    while i < u.len()
        invariant
            i <= u@.len(),
            u@ == cfg.upstreams@,
            forall|x: int| 0 <= x < i ==> upstream_ok(#[trigger] u@[x]),
            forall|x: int, y: int| 0 <= x < y < i ==> trim_spec((#[trigger] u@[x]).name@) != trim_spec((#[trigger] u@[y]).name@),
        decreases u@.len() - i,
    {
        let ni = trim(u[i].name.as_str());
        let mut j: usize = 0;
        while j < i
            invariant
                j <= i < u@.len(),
                u@ == cfg.upstreams@,
                ni@ == trim_spec(u@[i as int].name@),
                forall|x: int| 0 <= x < j ==> trim_spec((#[trigger] u@[x]).name@) != ni@,
            decreases i - j,
        {
            if trim(u[j].name.as_str()) == ni {
                assert(!stream_config_ok(*cfg)) by {
                    if ni@.len() == 0 {
                        assert(!upstream_ok(u@[i as int]));
                    } else {
                        assert(trim_spec(u@[j as int].name@) == trim_spec(u@[i as int].name@));
                    }
                }
                if ni.unicode_len() == 0 {
                    return Err(StreamConfigError::EmptyUpstreamName);
                }
                return Err(StreamConfigError::DuplicateUpstreamName(ni));
            }
            j = j + 1;
        }
        match upstream_ok_exec(&u[i]) {
            Ok(()) => {},
            Err(e) => {
                return Err(e);
            },
        }
        i = i + 1;
    }
    let mut i: usize = 0;
    while i < s.len()
        invariant
            i <= s@.len(),
            s@ == cfg.servers@,
            u@ == cfg.upstreams@,
            forall|x: int| 0 <= x < i && (#[trigger] s@[x]).enabled ==> {
                &&& trim_spec(s@[x].proxy_pass@).len() > 0
                &&& group_named(u@, trim_spec(s@[x].proxy_pass@)) is Some
                &&& duration_spec(s@[x].proxy_connect_timeout@) is Some
                &&& duration_spec(s@[x].proxy_timeout@) is Some
            },
        decreases s@.len() - i,
    {
        if s[i].enabled {
            let pp = trim(s[i].proxy_pass.as_str());
            if pp.unicode_len() == 0 {
                return Err(StreamConfigError::EmptyProxyPass(s[i].listen_port));
            }
            let mut found = false;
            let mut j: usize = 0;
            while j < u.len() && !found
                invariant
                    j <= u@.len(),
                    i < s@.len(),
                    pp@ == trim_spec(s@[i as int].proxy_pass@),
                    found ==> j < u@.len() && u@[j as int].name@ == pp@,
                    !found ==> forall|x: int| 0 <= x < j ==> (#[trigger] u@[x]).name@ != pp@,
                decreases u@.len() - j + (if found { 0int } else { 1int }),
            {
                if u[j].name == pp {
                    found = true;
                } else {
                    j = j + 1;
                }
            }
            if !found {
                return Err(StreamConfigError::MissingUpstream { port: s[i].listen_port, name: pp });
            }
            if parse_duration(s[i].proxy_connect_timeout.as_str()).is_none() {
                return Err(StreamConfigError::InvalidConnectTimeout(s[i].proxy_connect_timeout.clone()));
            }
            if parse_duration(s[i].proxy_timeout.as_str()).is_none() {
                return Err(StreamConfigError::InvalidProxyTimeout(s[i].proxy_timeout.clone()));
            }
        }
        i = i + 1;
    }
    Ok(())
}

} // verus!

verus! {

/// Where a UDP client is pinned and when it was last heard from.
#[derive(Clone, Debug)]
pub struct UdpSessionEntry {
    pub upstream_addr: String,
    pub last_seen_ms: u64,
}

/// Some session pins `client` to `upstream`.
pub open spec fn pinned_to(entries: Seq<(String, UdpSessionEntry)>, client: Seq<char>, upstream: Seq<char>) -> bool {
    exists|k: int| 0 <= k < entries.len() && (#[trigger] entries[k]).0@ == client && entries[k].1.upstream_addr@ == upstream
}

/// UDP sessions by client address.
pub struct UdpSessions {
    pub entries: Vec<(String, UdpSessionEntry)>,
}

/// Sessions idle for longer than this are evicted: the proxy timeout, at
/// least ten seconds; in milliseconds.
pub fn session_ttl_ms(proxy_timeout_secs: u64) -> (r: u64)
    ensures
        r == deadline_spec(0, if proxy_timeout_secs < 10 { 10 } else { proxy_timeout_secs }),
{
    let secs = if proxy_timeout_secs < 10 { 10 } else { proxy_timeout_secs };
    deadline_ms(0, secs)
}

impl UdpSessions {
    pub open spec fn lookup(&self, client: Seq<char>) -> Option<UdpSessionEntry> {
        find_first(self.entries@, client)
    }

    pub open spec fn wf(&self) -> bool {
        keys_unique(self.entries@)
    }

    /// No sessions.
    pub fn new() -> (r: UdpSessions)
        ensures
            r.wf(),
            r.entries@.len() == 0,
    {
        UdpSessions { entries: Vec::new() }
    }

    /// Pins `client` to `upstream` as of `now_ms`.
    pub fn touch(&mut self, client: &str, upstream: &str, now_ms: u64)
        requires
            old(self).wf(),
        ensures
            final(self).wf(),
            final(self).lookup(client@) matches Some(e) && e.upstream_addr@ == upstream@ && e.last_seen_ms == now_ms,
            forall|c: Seq<char>| c != client@ ==> final(self).lookup(c) == old(self).lookup(c),
    {
        let key = String::from_str(client);
        let e = UdpSessionEntry { upstream_addr: String::from_str(upstream), last_seen_ms: now_ms };
        let mut i: usize = 0;
        while i < self.entries.len()
            invariant
                i <= self.entries@.len(),
                key@ == client@,
                self == old(self),
                keys_unique(self.entries@),
                e.upstream_addr@ == upstream@,
                e.last_seen_ms == now_ms,
                forall|j: int| 0 <= j < i ==> (#[trigger] self.entries@[j]).0@ != client@,
            decreases self.entries@.len() - i,
        {
            if self.entries[i].0 == key {
                let ghost s = self.entries@;
                let ghost entry = (key, e);
                assert(s[i as int].0@ == client@);
                self.entries.set(i, (key, e));
                proof {
                    lemma_find_first_update(s, i as int, entry, client@);
                    assert forall|c: Seq<char>| c != client@ implies self.lookup(c) == old(self).lookup(c) by {
                        lemma_find_first_update(s, i as int, entry, c);
                    }
                    assert forall|x: int, y: int| 0 <= x < self.entries@.len() && 0 <= y < self.entries@.len() && x != y
                        implies (#[trigger] self.entries@[x]).0@ != (#[trigger] self.entries@[y]).0@ by {
                        assert(self.entries@[x].0@ == s[x].0@);
                        assert(self.entries@[y].0@ == s[y].0@);
                    }
                }
                return;
            }
            i = i + 1;
        }
        let ghost s = self.entries@;
        let ghost entry = (key, e);
        self.entries.push((key, e));
        proof {
            lemma_find_first_absent(s, client@);
            lemma_find_first_push(s, entry, client@);
            assert forall|c: Seq<char>| c != client@ implies self.lookup(c) == old(self).lookup(c) by {
                lemma_find_first_push(s, entry, c);
            }
            assert forall|x: int, y: int| 0 <= x < self.entries@.len() && 0 <= y < self.entries@.len() && x != y
                implies (#[trigger] self.entries@[x]).0@ != (#[trigger] self.entries@[y]).0@ by {
                if x < s.len() {
                    assert(self.entries@[x] == s[x]);
                }
                if y < s.len() {
                    assert(self.entries@[y] == s[y]);
                }
            }
        }
    }

    /// The clients pinned to `upstream`, in table order.
    pub fn clients_of(&self, upstream: &str) -> (r: Vec<String>)
        ensures
            forall|j: int| 0 <= j < r@.len() ==> pinned_to(self.entries@, (#[trigger] r@[j])@, upstream@),
            forall|k: int| 0 <= k < self.entries@.len() && (#[trigger] self.entries@[k]).1.upstream_addr@ == upstream@
                ==> exists|j: int| 0 <= j < r@.len() && (#[trigger] r@[j])@ == self.entries@[k].0@,
    {
        let key = String::from_str(upstream);
        let mut r: Vec<String> = Vec::new();
        let mut i: usize = 0;
        while i < self.entries.len()
            invariant
                i <= self.entries@.len(),
                key@ == upstream@,
                forall|j: int| 0 <= j < r@.len() ==> pinned_to(self.entries@, (#[trigger] r@[j])@, upstream@),
                forall|k: int| 0 <= k < i && (#[trigger] self.entries@[k]).1.upstream_addr@ == upstream@
                    ==> exists|j: int| 0 <= j < r@.len() && (#[trigger] r@[j])@ == self.entries@[k].0@,
            decreases self.entries@.len() - i,
        {
            if self.entries[i].1.upstream_addr == key {
                let ghost before = r@;
                r.push(self.entries[i].0.clone());
                assert(r@[r@.len() - 1]@ == self.entries@[i as int].0@);
                assert forall|j: int| 0 <= j < r@.len() implies pinned_to(self.entries@, (#[trigger] r@[j])@, upstream@) by {
                    if j < before.len() {
                        assert(r@[j] == before[j]);
                    } else {
                        assert(self.entries@[i as int].0@ == r@[j]@);
                    }
                }
                assert forall|k: int| 0 <= k < i + 1 && (#[trigger] self.entries@[k]).1.upstream_addr@ == upstream@
                    implies exists|j: int| 0 <= j < r@.len() && (#[trigger] r@[j])@ == self.entries@[k].0@ by {
                    if k < i {
                        let j = choose|j: int| 0 <= j < before.len() && (#[trigger] before[j])@ == self.entries@[k].0@;
                        assert(r@[j] == before[j]);
                    } else {
                        assert(r@[r@.len() - 1]@ == self.entries@[k].0@);
                    }
                }
            }
            i = i + 1;
        }
        r
    }

    /// Evicts the sessions not heard from since `now_ms − ttl_ms`.
    pub fn sweep(&mut self, now_ms: u64, ttl_ms: u64)
        requires
            old(self).wf(),
        ensures
            final(self).wf(),
            forall|j: int| 0 <= j < final(self).entries@.len() ==> (#[trigger] final(self).entries@[j]).1.last_seen_ms + ttl_ms >= now_ms,
            forall|j: int| 0 <= j < final(self).entries@.len() ==> old(self).entries@.contains(#[trigger] final(self).entries@[j]),
            forall|k: int| 0 <= k < old(self).entries@.len() && (#[trigger] old(self).entries@[k]).1.last_seen_ms + ttl_ms >= now_ms
                ==> final(self).entries@.contains(old(self).entries@[k]),
    {
        let deadline = if now_ms > ttl_ms { now_ms - ttl_ms } else { 0 };
        let ghost s = self.entries@;
        let mut kept: Vec<(String, UdpSessionEntry)> = Vec::new();
        let ghost mut idx: Seq<int> = Seq::empty();
        let mut i: usize = 0;
        while i < self.entries.len()
            invariant
                i <= self.entries@.len(),
                s == self.entries@,
                s == old(self).entries@,
                keys_unique(s),
                deadline == if now_ms > ttl_ms { now_ms - ttl_ms } else { 0 },
                idx.len() == kept@.len(),
                forall|j: int| 0 <= j < idx.len() ==> 0 <= #[trigger] idx[j] < i && kept@[j] == s[idx[j]],
                forall|a: int, b: int| 0 <= a < b < idx.len() ==> #[trigger] idx[a] < #[trigger] idx[b],
                forall|j: int| 0 <= j < kept@.len() ==> (#[trigger] kept@[j]).1.last_seen_ms >= deadline,
                forall|k: int| 0 <= k < i && (#[trigger] s[k]).1.last_seen_ms >= deadline ==> kept@.contains(s[k]),
            decreases self.entries@.len() - i,
        {
            if self.entries[i].1.last_seen_ms >= deadline {
                let k = self.entries[i].0.clone();
                let e = UdpSessionEntry {
                    upstream_addr: self.entries[i].1.upstream_addr.clone(),
                    last_seen_ms: self.entries[i].1.last_seen_ms,
                };
                let ghost before = kept@;
                kept.push((k, e));
                proof {
                    assert(kept@[kept@.len() - 1] == s[i as int]);
                    idx = idx.push(i as int);
                    assert forall|k2: int| 0 <= k2 < i + 1 && (#[trigger] s[k2]).1.last_seen_ms >= deadline implies kept@.contains(s[k2]) by {
                        if k2 < i {
                            let w = choose|w: int| 0 <= w < before.len() && before[w] == s[k2];
                            assert(kept@[w] == s[k2]);
                        } else {
                            assert(kept@[kept@.len() - 1] == s[k2]);
                        }
                    }
                }
            }
            i = i + 1;
        }
        proof {
            assert forall|x: int, y: int| 0 <= x < kept@.len() && 0 <= y < kept@.len() && x != y
                implies (#[trigger] kept@[x]).0@ != (#[trigger] kept@[y]).0@ by {
                assert(kept@[x] == s[idx[x]]);
                assert(kept@[y] == s[idx[y]]);
                if x < y {
                    assert(idx[x] < idx[y]);
                } else {
                    assert(idx[y] < idx[x]);
                }
            }
            assert forall|j: int| 0 <= j < kept@.len() implies s.contains(#[trigger] kept@[j]) by {
                assert(kept@[j] == s[idx[j]]);
            }
        }
        self.entries = kept;
    }
}

} // verus!
