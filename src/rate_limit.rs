//! Per-address token buckets with optional auto-ban.
use vstd::prelude::*;
use crate::keyed::{find_first, lemma_find_first_push, lemma_find_first_skip, lemma_find_first_update};

verus! {

/// Rate-limit settings of a listen rule.
#[derive(Clone, Debug)]
pub struct RateLimitConfig {
    pub enabled: bool,
    pub requests_per_second: u32,
    pub burst_size: u32,
    pub ban_seconds: u64,
}

impl Default for RateLimitConfig {
    fn default() -> (r: RateLimitConfig)
        ensures
            !r.enabled,
            r.requests_per_second == 10,
            r.burst_size == 20,
            r.ban_seconds == 0,
    {
        RateLimitConfig { enabled: false, requests_per_second: 10, burst_size: 20, ban_seconds: 0 }
    }
}

/// One token costs this many units; tokens are kept in thousandths so that
/// a refill of `elapsed_ms · rate` units is exact.
pub const MILLI: u64 = 1000;

/// A token bucket: tokens and capacity in thousandths of a token, refill
/// rate in tokens per second, time of the last update in milliseconds.
#[derive(Clone, Copy, Debug)]
pub struct TokenBucket {
    pub tokens: u64,
    pub capacity: u64,
    pub refill_per_sec: u64,
    pub last_update_ms: u64,
}

/// The tokens after refilling up to `now`: `min(capacity, tokens +
/// elapsed · rate)`, no refill when the clock has not advanced.
pub open spec fn refilled(b: TokenBucket, now: u64) -> int {
    let elapsed = if now > b.last_update_ms { now - b.last_update_ms } else { 0 };
    let t = b.tokens + elapsed * b.refill_per_sec;
    if t > b.capacity { b.capacity as int } else { t }
}

/// Whether a request at `now` is allowed: at least one whole token.
pub open spec fn admits(b: TokenBucket, now: u64) -> bool {
    refilled(b, now) >= MILLI
}

/// The bucket after a request at `now`.
pub open spec fn after_request(b: TokenBucket, now: u64) -> TokenBucket {
    let t = refilled(b, now);
    TokenBucket {
        tokens: (if t >= MILLI { t - MILLI } else { t }) as u64,
        capacity: b.capacity,
        refill_per_sec: b.refill_per_sec,
        last_update_ms: if now > b.last_update_ms { now } else { b.last_update_ms },
    }
}

/// A full bucket for the given settings.
pub open spec fn fresh_bucket(config: RateLimitConfig, now: u64) -> TokenBucket {
    TokenBucket {
        tokens: (config.burst_size * MILLI) as u64,
        capacity: (config.burst_size * MILLI) as u64,
        refill_per_sec: config.requests_per_second as u64,
        last_update_ms: now,
    }
}

impl TokenBucket {
    /// A full bucket of `capacity` tokens refilled at `refill_per_sec`.
    pub fn new(capacity: u32, refill_per_sec: u32, now_ms: u64) -> (r: TokenBucket)
        ensures
            r.tokens == capacity * MILLI,
            r.capacity == capacity * MILLI,
            r.refill_per_sec == refill_per_sec,
            r.last_update_ms == now_ms,
    {
        TokenBucket {
            tokens: capacity as u64 * MILLI,
            capacity: capacity as u64 * MILLI,
            refill_per_sec: refill_per_sec as u64,
            last_update_ms: now_ms,
        }
    }

    /// Refills the bucket up to `now_ms`, then takes one token if there is
    /// one.
    pub fn try_consume(&mut self, now_ms: u64) -> (r: bool)
        requires
            old(self).tokens <= old(self).capacity,
        ensures
            r == admits(*old(self), now_ms),
            *final(self) == after_request(*old(self), now_ms),
            final(self).tokens <= final(self).capacity,
    {
        let elapsed: u64 = if now_ms > self.last_update_ms { now_ms - self.last_update_ms } else { 0 };
        assert((elapsed as int) * (self.refill_per_sec as int) <= 0xffff_ffff_ffff_ffffint * 0xffff_ffff_ffff_ffffint)
            by (nonlinear_arith)
            requires elapsed <= 0xffff_ffff_ffff_ffffu64, self.refill_per_sec <= 0xffff_ffff_ffff_ffffu64;
        let add: u128 = elapsed as u128 * self.refill_per_sec as u128;
        let t: u128 = self.tokens as u128 + add;
        let t: u64 = if t > self.capacity as u128 { self.capacity } else { t as u64 };
        if now_ms > self.last_update_ms {
            self.last_update_ms = now_ms;
        }
        if t >= MILLI {
            self.tokens = t - MILLI;
            true
        } else {
            self.tokens = t;
            false
        }
    }
}

/// A rate limiter: settings and one bucket per client address.
pub struct RateLimiter {
    pub buckets: Vec<(String, TokenBucket)>,
    pub config: RateLimitConfig,
}

impl RateLimiter {
    /// The bucket of `ip`, if any.
    pub open spec fn lookup(&self, ip: Seq<char>) -> Option<TokenBucket> {
        find_first(self.buckets@, ip)
    }

    /// Every bucket holds at most its capacity.
    pub open spec fn wf(&self) -> bool {
        forall|i: int| 0 <= i < self.buckets@.len() ==> (#[trigger] self.buckets@[i]).1.tokens <= self.buckets@[i].1.capacity
    }

    /// A limiter without buckets.
    pub fn new(config: RateLimitConfig) -> (r: RateLimiter)
        ensures
            r.wf(),
            r.config == config,
            forall|ip: Seq<char>| r.lookup(ip) is None,
    {
        RateLimiter { buckets: Vec::new(), config }
    }

    /// Checks one request of `ip` at `now_ms`: returns whether it is
    /// allowed and whether the address should be banned (denied with a ban
    /// time configured). A disabled limiter allows everything and keeps no
    /// state; otherwise the address's bucket (a full one when it has none)
    /// is refilled and charged.
    pub fn check(&mut self, ip: &str, now_ms: u64) -> (r: (bool, bool))
        requires
            old(self).wf(),
        ensures
            final(self).wf(),
            final(self).config == old(self).config,
            !old(self).config.enabled ==> r == (true, false) && final(self).buckets == old(self).buckets,
            old(self).config.enabled ==> {
                let b = match old(self).lookup(ip@) {
                    Some(b) => b,
                    None => fresh_bucket(old(self).config, now_ms),
                };
                &&& r.0 == admits(b, now_ms)
                &&& r.1 == (!r.0 && old(self).config.ban_seconds > 0)
                &&& final(self).lookup(ip@) == Some(after_request(b, now_ms))
                &&& forall|k: Seq<char>| k != ip@ ==> final(self).lookup(k) == old(self).lookup(k)
            },
    {
        if !self.config.enabled {
            return (true, false);
        }
        let n = self.buckets.len();
        let ip_key = String::from_str(ip);
        let mut i: usize = 0;
        let mut found = false;
        while i < n && !found
            invariant
                n == self.buckets@.len(),
                i <= n,
                ip_key@ == ip@,
                found ==> i < n && self.buckets@[i as int].0@ == ip@,
                forall|j: int| 0 <= j < i ==> (#[trigger] self.buckets@[j]).0@ != ip@,
            decreases n - i + (if found { 0int } else { 1int }),
        {
            if self.buckets[i].0 == ip_key {
                found = true;
            } else {
                i = i + 1;
            }
        }
        let ghost old_b = self.buckets@;
        proof {
            lemma_find_first_skip(old_b, ip@, i as int);
        }
        if found {
            let (k, mut b) = self.buckets.remove(i);
            let allowed = b.try_consume(now_ms);
            self.buckets.insert(i, (k, b));
            proof {
                assert(self.buckets@ =~= old_b.update(i as int, (k, b)));
                assert forall|key: Seq<char>| key != ip@ implies self.lookup(key) == old(self).lookup(key) by {
                    lemma_find_first_update(old_b, i as int, (k, b), key);
                }
                lemma_find_first_update(old_b, i as int, (k, b), ip@);
                assert forall|j: int| 0 <= j < self.buckets@.len() implies (#[trigger] self.buckets@[j]).1.tokens <= self.buckets@[j].1.capacity by {
                    if j != i {
                        assert(self.buckets@[j] == old_b[j]);
                    }
                }
            }
            (allowed, !allowed && self.config.ban_seconds > 0)
        } else {
            let mut b = TokenBucket::new(self.config.burst_size, self.config.requests_per_second, now_ms);
            let allowed = b.try_consume(now_ms);
            let ghost entry = (ip_key, b);
            self.buckets.push((ip_key, b));
            proof {
                assert forall|key: Seq<char>| #![auto] true implies self.lookup(key) == match old(self).lookup(key) {
                    Some(x) => Some(x),
                    None => if ip@ == key { Some(b) } else { None },
                } by {
                    lemma_find_first_push(old_b, entry, key);
                }
                assert forall|j: int| 0 <= j < self.buckets@.len() implies (#[trigger] self.buckets@[j]).1.tokens <= self.buckets@[j].1.capacity by {
                    if j < n {
                        assert(self.buckets@[j] == old_b[j]);
                    }
                }
            }
            (allowed, !allowed && self.config.ban_seconds > 0)
        }
    }

    /// Drops the buckets unused for at least ten minutes at `now_ms`.
    pub fn cleanup(&mut self, now_ms: u64)
        requires
            old(self).wf(),
        ensures
            final(self).wf(),
            final(self).config == old(self).config,
            forall|j: int| 0 <= j < final(self).buckets@.len() ==> !(now_ms >= (#[trigger] final(self).buckets@[j]).1.last_update_ms
                && now_ms - final(self).buckets@[j].1.last_update_ms >= 600_000),
    {
        let mut kept: Vec<(String, TokenBucket)> = Vec::new();
        let mut i: usize = 0;
        while i < self.buckets.len()
            invariant
                i <= self.buckets@.len(),
                self.wf(),
                self.config == old(self).config,
                forall|j: int| 0 <= j < kept@.len() ==> (#[trigger] kept@[j]).1.tokens <= kept@[j].1.capacity,
                forall|j: int| 0 <= j < kept@.len() ==> !(now_ms >= (#[trigger] kept@[j]).1.last_update_ms
                    && now_ms - kept@[j].1.last_update_ms >= 600_000),
            decreases self.buckets@.len() - i,
        {
            let b = self.buckets[i].1;
            if !(now_ms >= b.last_update_ms && now_ms - b.last_update_ms >= 600_000) {
                let k = self.buckets[i].0.clone();
                kept.push((k, b));
            }
            i = i + 1;
        }
        self.buckets = kept;
    }
}

} // verus!
