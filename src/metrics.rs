//! Realtime metrics: per-second and per-minute buckets per label, kept in
//! sharded aggregates, and the bounded queue of records awaiting storage.
use vstd::prelude::*;
use vstd::string::StringSliceAdditionalSpecFns;
use crate::text::trim;

verus! {

pub const FNV_OFFSET: u64 = 14695981039346656037;
pub const FNV_PRIME: u64 = 1099511628211;

/// FNV-1a over bytes.
pub open spec fn fnv1a_spec(bytes: Seq<u8>) -> u64
    decreases bytes.len(),
{
    if bytes.len() == 0 {
        FNV_OFFSET
    } else {
        (fnv1a_spec(bytes.drop_last()) ^ (bytes.last() as u64)).wrapping_mul(FNV_PRIME)
    }
}

/// FNV-1a (64 bit) of the UTF-8 bytes of `s`.
pub fn hash_fnv1a_64(s: &str) -> (r: u64)
    ensures
        r == fnv1a_spec(s.spec_bytes()),
{
    let b = s.as_bytes();
    let mut h: u64 = FNV_OFFSET;
    let mut i: usize = 0;
    while i < b.len()
        invariant
            i <= b@.len(),
            b@ == s.spec_bytes(),
            h == fnv1a_spec(b@.subrange(0, i as int)),
        decreases b@.len() - i,
    {
        assert(b@.subrange(0, i + 1).drop_last() == b@.subrange(0, i as int));
        h = (h ^ (b[i] as u64)).wrapping_mul(FNV_PRIME);
        i = i + 1;
    }
    assert(b@.subrange(0, b@.len() as int) == b@);
    h
}

/// Status classes: 2xx, 3xx, 4xx, 5xx and above, anything else.
pub open spec fn status_class(status: i32) -> nat {
    if 200 <= status < 300 {
        2
    } else if 300 <= status < 400 {
        3
    } else if 400 <= status < 500 {
        4
    } else if status >= 500 {
        5
    } else {
        0
    }
}

/// Counters of one time bucket; latencies in microseconds.
#[derive(Clone, Copy, Debug)]
pub struct RtBucket {
    pub ts: u64,
    pub count: u64,
    pub s2xx: u64,
    pub s3xx: u64,
    pub s4xx: u64,
    pub s5xx: u64,
    pub s0: u64,
    pub latency_sum_us: u64,
    pub latency_max_us: u64,
}

impl RtBucket {
    /// The status-class counters add up to the count.
    pub open spec fn wf(&self) -> bool {
        self.s2xx + self.s3xx + self.s4xx + self.s5xx + self.s0 == self.count
    }

    /// An empty bucket for time `ts`.
    pub fn empty(ts: u64) -> (r: RtBucket)
        ensures
            r.wf(),
            r == empty_bucket(ts),
    {
        RtBucket { ts, count: 0, s2xx: 0, s3xx: 0, s4xx: 0, s5xx: 0, s0: 0, latency_sum_us: 0, latency_max_us: 0 }
    }

    /// Counts one request with `status_code` and latency. A bucket whose
    /// count is already at the largest value is left alone.
    pub fn add(&mut self, status_code: i32, latency_us: u64)
        requires
            old(self).wf(),
        ensures
            final(self).wf(),
            *final(self) == bucket_added(*old(self), status_code, latency_us),
    {
        if self.count == u64::MAX {
            return;
        }
        self.count = self.count + 1;
        if 200 <= status_code && status_code < 300 {
            self.s2xx = self.s2xx + 1;
        } else if 300 <= status_code && status_code < 400 {
            self.s3xx = self.s3xx + 1;
        } else if 400 <= status_code && status_code < 500 {
            self.s4xx = self.s4xx + 1;
        } else if status_code >= 500 {
            self.s5xx = self.s5xx + 1;
        } else {
            self.s0 = self.s0 + 1;
        }
        self.latency_sum_us = self.latency_sum_us.saturating_add(latency_us);
        if latency_us > self.latency_max_us {
            self.latency_max_us = latency_us;
        }
    }

    /// Mean latency in ten-thousandths of a millisecond, rounded half up
    /// (0 for an empty bucket).
    pub fn avg_latency_e4(&self) -> (r: u128)
        ensures
            self.count == 0 ==> r == 0,
            self.count > 0 ==> r == (self.latency_sum_us as int * 10 + self.count as int / 2) / (self.count as int),
    {
        if self.count == 0 {
            0
        } else {
            let num: u128 = self.latency_sum_us as u128 * 10 + (self.count / 2) as u128;
            let q = num / self.count as u128;
            assert(q <= num);
            assert(num <= 0xffff_ffff_ffff_ffff * 10 + 0xffff_ffff_ffff_ffff);
            assert(q == (self.latency_sum_us as int * 10 + self.count as int / 2) / (self.count as int));
            q
        }
    }
}

/// The counts of a sequence of buckets, added up.
pub open spec fn total_count(s: Seq<RtBucket>) -> int
    decreases s.len(),
{
    if s.len() == 0 { 0 } else { total_count(s.drop_last()) + s.last().count }
}

/// A time series of buckets, in strictly increasing time order.
#[derive(Clone, Debug)]
pub struct RtSeriesAgg {
    pub buckets: Vec<RtBucket>,
}

impl RtSeriesAgg {
    /// Buckets sorted by time without repeats, each well formed.
    pub open spec fn wf(&self) -> bool {
        sorted_wf(self.buckets@)
    }

    /// An empty series.
    pub fn new() -> (r: RtSeriesAgg)
        ensures
            r.wf(),
            r.buckets@.len() == 0,
    {
        RtSeriesAgg { buckets: Vec::new() }
    }
}

} // verus!

verus! {

/// The bucket after counting one request.
pub open spec fn bucket_added(b: RtBucket, status: i32, latency_us: u64) -> RtBucket {
    if b.count == u64::MAX {
        b
    } else {
        RtBucket {
            ts: b.ts,
            count: (b.count + 1) as u64,
            s2xx: (b.s2xx + (if status_class(status) == 2 { 1int } else { 0int })) as u64,
            s3xx: (b.s3xx + (if status_class(status) == 3 { 1int } else { 0int })) as u64,
            s4xx: (b.s4xx + (if status_class(status) == 4 { 1int } else { 0int })) as u64,
            s5xx: (b.s5xx + (if status_class(status) == 5 { 1int } else { 0int })) as u64,
            s0: (b.s0 + (if status_class(status) == 0 { 1int } else { 0int })) as u64,
            latency_sum_us: b.latency_sum_us.saturating_add(latency_us),
            latency_max_us: if latency_us > b.latency_max_us { latency_us } else { b.latency_max_us },
        }
    }
}

/// An empty bucket for time `ts`.
pub open spec fn empty_bucket(ts: u64) -> RtBucket {
    RtBucket { ts, count: 0, s2xx: 0, s3xx: 0, s4xx: 0, s5xx: 0, s0: 0, latency_sum_us: 0, latency_max_us: 0 }
}

proof fn lemma_total_concat(a: Seq<RtBucket>, b: Seq<RtBucket>)
    ensures
        total_count(a + b) == total_count(a) + total_count(b),
    decreases b.len(),
{
    if b.len() > 0 {
        lemma_total_concat(a, b.drop_last());
        assert((a + b).drop_last() == a + b.drop_last());
    } else {
        assert(a + b == a);
    }
}

proof fn lemma_total_single(b: RtBucket)
    ensures
        total_count(seq![b]) == b.count,
{
    assert(seq![b].drop_last() == Seq::<RtBucket>::empty());
    assert(total_count(Seq::<RtBucket>::empty()) == 0);
    assert(seq![b].last() == b);
}

/// Buckets sorted by time without repeats, each well formed.
pub open spec fn sorted_wf(s: Seq<RtBucket>) -> bool {
    &&& forall|i: int, j: int| 0 <= i < j < s.len() ==> (#[trigger] s[i]).ts < (#[trigger] s[j]).ts
    &&& forall|i: int| 0 <= i < s.len() ==> (#[trigger] s[i]).wf()
}

proof fn lemma_update_bucket(s: Seq<RtBucket>, i: int, b: RtBucket)
    requires
        sorted_wf(s),
        0 <= i < s.len(),
        b.ts == s[i].ts,
        b.wf(),
    ensures
        sorted_wf(s.update(i, b)),
        total_count(s.update(i, b)) == total_count(s) - s[i].count + b.count,
{
    let n = s.len();
    let u = s.update(i, b);
    assert(u == s.subrange(0, i) + (seq![b] + s.subrange(i + 1, n as int)));
    assert(s == s.subrange(0, i) + (seq![s[i]] + s.subrange(i + 1, n as int)));
    lemma_total_concat(s.subrange(0, i), seq![b] + s.subrange(i + 1, n as int));
    lemma_total_concat(seq![b], s.subrange(i + 1, n as int));
    lemma_total_concat(s.subrange(0, i), seq![s[i]] + s.subrange(i + 1, n as int));
    lemma_total_concat(seq![s[i]], s.subrange(i + 1, n as int));
    lemma_total_single(b);
    lemma_total_single(s[i]);
    assert forall|x: int, y: int| 0 <= x < y < u.len() implies (#[trigger] u[x]).ts < (#[trigger] u[y]).ts by {
        assert(s[x].ts < s[y].ts);
    }
}

proof fn lemma_insert_bucket(s: Seq<RtBucket>, i: int, b: RtBucket)
    requires
        sorted_wf(s),
        0 <= i <= s.len(),
        forall|j: int| 0 <= j < i ==> (#[trigger] s[j]).ts < b.ts,
        i < s.len() ==> b.ts < s[i].ts,
        b.wf(),
    ensures
        sorted_wf(s.insert(i, b)),
        total_count(s.insert(i, b)) == total_count(s) + b.count,
{
    let n = s.len();
    let u = s.insert(i, b);
    assert(u == s.subrange(0, i) + (seq![b] + s.subrange(i, n as int)));
    assert(s == s.subrange(0, i) + s.subrange(i, n as int));
    lemma_total_concat(s.subrange(0, i), seq![b] + s.subrange(i, n as int));
    lemma_total_concat(seq![b], s.subrange(i, n as int));
    lemma_total_concat(s.subrange(0, i), s.subrange(i, n as int));
    lemma_total_single(b);
    assert forall|x: int, y: int| 0 <= x < y < u.len() implies (#[trigger] u[x]).ts < (#[trigger] u[y]).ts by {
        if x < i && y < i {
            assert(s[x].ts < s[y].ts);
        } else if x < i && y == i {
        } else if x < i && y > i {
            assert(s[x].ts < b.ts);
            if i < n {
                assert(s[i].ts <= s[y - 1].ts);
            }
        } else if x == i {
            assert(s[i].ts <= s[y - 1].ts);
        } else {
            assert(s[x - 1].ts < s[y - 1].ts);
        }
    }
    assert forall|x: int| 0 <= x < u.len() implies (#[trigger] u[x]).wf() by {
        if x < i {
            assert(u[x] == s[x]);
        } else if x > i {
            assert(u[x] == s[x - 1]);
        }
    }
}

/// The first position from `j` on whose bucket is not older than `ts`.
pub open spec fn insert_pos(s: Seq<RtBucket>, ts: u64, j: int) -> int
    decreases s.len() - j,
{
    if j < 0 || j >= s.len() || s[j].ts >= ts { if j < 0 { 0 } else { j } } else { insert_pos(s, ts, j + 1) }
}

/// The series after counting one request at `ts`: the bucket of `ts`
/// counted into, or a new one inserted in time order.
pub open spec fn series_added(s: Seq<RtBucket>, ts: u64, status: i32, latency_us: u64) -> Seq<RtBucket> {
    let i = insert_pos(s, ts, 0);
    if i < s.len() && s[i].ts == ts {
        s.update(i, bucket_added(s[i], status, latency_us))
    } else {
        s.insert(i, bucket_added(empty_bucket(ts), status, latency_us))
    }
}

proof fn lemma_insert_pos(s: Seq<RtBucket>, ts: u64, j: int)
    requires
        0 <= j <= s.len(),
        forall|k: int| 0 <= k < j ==> (#[trigger] s[k]).ts < ts,
    ensures
        j <= insert_pos(s, ts, j) <= s.len(),
        forall|k: int| 0 <= k < insert_pos(s, ts, j) ==> (#[trigger] s[k]).ts < ts,
        insert_pos(s, ts, j) < s.len() ==> s[insert_pos(s, ts, j)].ts >= ts,
    decreases s.len() - j,
{
    if j < s.len() && s[j].ts < ts {
        lemma_insert_pos(s, ts, j + 1);
    }
}

proof fn lemma_series_added_props(s: Seq<RtBucket>, ts: u64, status: i32, latency_us: u64)
    requires
        sorted_wf(s),
    ensures
        sorted_wf(series_added(s, ts, status, latency_us)),
        total_count(series_added(s, ts, status, latency_us)) == total_count(s) + (if exists|j: int| 0 <= j < s.len()
            && (#[trigger] s[j]).ts == ts && s[j].count == u64::MAX { 0int } else { 1int }),
{
    lemma_insert_pos(s, ts, 0);
    let i = insert_pos(s, ts, 0);
    if i < s.len() && s[i].ts == ts {
        let b = bucket_added(s[i], status, latency_us);
        assert forall|j: int| 0 <= j < s.len() && (#[trigger] s[j]).ts == ts implies j == i by {
            if j > i {
                assert(s[i].ts < s[j].ts);
            }
        }
        lemma_update_bucket(s, i, b);
    } else {
        let b = bucket_added(empty_bucket(ts), status, latency_us);
        assert forall|j: int| 0 <= j < s.len() implies (#[trigger] s[j]).ts != ts by {
            if j > i {
                assert(s[i].ts < s[j].ts);
            }
        }
        lemma_insert_bucket(s, i, b);
    }
}

/// Counts one request of each `(ts, status, latency)` of `recs`, in order.
pub open spec fn series_after(s: Seq<RtBucket>, recs: Seq<(u64, i32, u64)>) -> Seq<RtBucket>
    decreases recs.len(),
{
    if recs.len() == 0 {
        s
    } else {
        let prev = series_after(s, recs.drop_last());
        series_added(prev, recs.last().0, recs.last().1, recs.last().2)
    }
}

proof fn lemma_count_le_total(s: Seq<RtBucket>, j: int)
    requires
        0 <= j < s.len(),
    ensures
        s[j].count <= total_count(s),
    decreases s.len(),
{
    if j < s.len() - 1 {
        lemma_count_le_total(s.drop_last(), j);
    } else {
        lemma_total_nonneg(s.drop_last());
    }
}

proof fn lemma_total_nonneg(s: Seq<RtBucket>)
    ensures
        total_count(s) >= 0,
    decreases s.len(),
{
    if s.len() > 0 {
        lemma_total_nonneg(s.drop_last());
    }
}

/// Conservation of counts: counting `K` requests into a well-formed series
/// whose total stays within range adds exactly `K` to its total and keeps
/// it well formed (time order, and per bucket the status classes add up to
/// the count).
pub proof fn lemma_series_conservation(s: Seq<RtBucket>, recs: Seq<(u64, i32, u64)>)
    requires
        sorted_wf(s),
        total_count(s) + recs.len() <= u64::MAX,
    ensures
        sorted_wf(series_after(s, recs)),
        total_count(series_after(s, recs)) == total_count(s) + recs.len(),
    decreases recs.len(),
{
    if recs.len() > 0 {
        lemma_series_conservation(s, recs.drop_last());
        let prev = series_after(s, recs.drop_last());
        let r = recs.last();
        lemma_total_nonneg(s);
        lemma_series_added_props(prev, r.0, r.1, r.2);
        assert forall|j: int| 0 <= j < prev.len() implies (#[trigger] prev[j]).count != u64::MAX by {
            lemma_count_le_total(prev, j);
        }
    }
}

/// The counter of status class `c` of a bucket (`c` is 2 to 5, or 0 for
/// the rest).
pub open spec fn class_field(b: RtBucket, c: nat) -> int {
    if c == 2 { b.s2xx as int } else if c == 3 { b.s3xx as int } else if c == 4 { b.s4xx as int }
    else if c == 5 { b.s5xx as int } else { b.s0 as int }
}

/// The counters of status class `c`, added up over a series.
pub open spec fn class_total(s: Seq<RtBucket>, c: nat) -> int
    decreases s.len(),
{
    if s.len() == 0 { 0 } else { class_total(s.drop_last(), c) + class_field(s.last(), c) }
}

/// How many of `recs` have a status of class `c`.
pub open spec fn class_count(recs: Seq<(u64, i32, u64)>, c: nat) -> int
    decreases recs.len(),
{
    if recs.len() == 0 { 0 } else { class_count(recs.drop_last(), c) + if status_class(recs.last().1) == c { 1int } else { 0int } }
}

proof fn lemma_class_concat(a: Seq<RtBucket>, b: Seq<RtBucket>, c: nat)
    ensures
        class_total(a + b, c) == class_total(a, c) + class_total(b, c),
    decreases b.len(),
{
    if b.len() > 0 {
        lemma_class_concat(a, b.drop_last(), c);
        assert((a + b).drop_last() == a + b.drop_last());
    } else {
        assert(a + b == a);
    }
}

proof fn lemma_class_single(b: RtBucket, c: nat)
    ensures
        class_total(seq![b], c) == class_field(b, c),
{
    assert(seq![b].drop_last() == Seq::<RtBucket>::empty());
    assert(class_total(Seq::<RtBucket>::empty(), c) == 0);
    assert(seq![b].last() == b);
}

proof fn lemma_series_added_classes(s: Seq<RtBucket>, ts: u64, status: i32, latency_us: u64, c: nat)
    requires
        sorted_wf(s),
        forall|j: int| 0 <= j < s.len() ==> (#[trigger] s[j]).count != u64::MAX,
        c == 0 || 2 <= c <= 5,
    ensures
        class_total(series_added(s, ts, status, latency_us), c) == class_total(s, c) + if status_class(status) == c { 1int } else { 0int },
{
    lemma_insert_pos(s, ts, 0);
    let i = insert_pos(s, ts, 0);
    let n = s.len();
    if i < n && s[i].ts == ts {
        let b = bucket_added(s[i], status, latency_us);
        assert(s.update(i, b) == s.subrange(0, i) + (seq![b] + s.subrange(i + 1, n as int)));
        assert(s == s.subrange(0, i) + (seq![s[i]] + s.subrange(i + 1, n as int)));
        lemma_class_concat(s.subrange(0, i), seq![b] + s.subrange(i + 1, n as int), c);
        lemma_class_concat(seq![b], s.subrange(i + 1, n as int), c);
        lemma_class_concat(s.subrange(0, i), seq![s[i]] + s.subrange(i + 1, n as int), c);
        lemma_class_concat(seq![s[i]], s.subrange(i + 1, n as int), c);
        lemma_class_single(b, c);
        lemma_class_single(s[i], c);
        assert(s[i].count != u64::MAX);
        assert(s[i].wf());
        assert(class_field(b, c) == class_field(s[i], c) + if status_class(status) == c { 1int } else { 0int });
    } else {
        let b = bucket_added(empty_bucket(ts), status, latency_us);
        assert(class_field(b, c) == if status_class(status) == c { 1int } else { 0int });
        assert(s.insert(i, b) == s.subrange(0, i) + (seq![b] + s.subrange(i, n as int)));
        assert(s == s.subrange(0, i) + s.subrange(i, n as int));
        lemma_class_concat(s.subrange(0, i), seq![b] + s.subrange(i, n as int), c);
        lemma_class_concat(seq![b], s.subrange(i, n as int), c);
        lemma_class_concat(s.subrange(0, i), s.subrange(i, n as int), c);
        lemma_class_single(b, c);
    }
}

/// Per-status conservation: counting `K` requests into a well-formed
/// series whose total stays within range adds to the counter of each
/// status class exactly the number of those requests in that class.
pub proof fn lemma_series_class_conservation(s: Seq<RtBucket>, recs: Seq<(u64, i32, u64)>, c: nat)
    requires
        sorted_wf(s),
        total_count(s) + recs.len() <= u64::MAX,
        c == 0 || 2 <= c <= 5,
    ensures
        class_total(series_after(s, recs), c) == class_total(s, c) + class_count(recs, c),
    decreases recs.len(),
{
    if recs.len() > 0 {
        lemma_series_class_conservation(s, recs.drop_last(), c);
        lemma_series_conservation(s, recs.drop_last());
        let prev = series_after(s, recs.drop_last());
        let r = recs.last();
        lemma_total_nonneg(s);
        assert forall|j: int| 0 <= j < prev.len() implies (#[trigger] prev[j]).count != u64::MAX by {
            lemma_count_le_total(prev, j);
        }
        lemma_series_added_classes(prev, r.0, r.1, r.2, c);
    }
}

/// `s` without its leading buckets older than `min_ts`; in a series kept in
/// time order these are all the buckets older than `min_ts`.
pub open spec fn drop_older(s: Seq<RtBucket>, min_ts: u64) -> Seq<RtBucket>
    decreases s.len(),
{
    if s.len() > 0 && s[0].ts < min_ts { drop_older(s.drop_first(), min_ts) } else { s }
}

proof fn lemma_drop_older(s: Seq<RtBucket>, min_ts: u64, k: int)
    requires
        0 <= k <= s.len(),
        forall|j: int| 0 <= j < k ==> (#[trigger] s[j]).ts < min_ts,
        k < s.len() ==> s[k].ts >= min_ts,
    ensures
        drop_older(s, min_ts) == s.subrange(k, s.len() as int),
    decreases k,
{
    if k > 0 {
        assert(s.drop_first().subrange(k - 1, s.len() - 1) == s.subrange(k, s.len() as int));
        assert forall|j: int| 0 <= j < k - 1 implies (#[trigger] s.drop_first()[j]).ts < min_ts by {
            assert(s.drop_first()[j] == s[j + 1]);
        }
        lemma_drop_older(s.drop_first(), min_ts, k - 1);
    } else {
        assert(s.subrange(0, s.len() as int) == s);
    }
}

impl RtSeriesAgg {
    /// Counts one request at time `ts`: the bucket for `ts` is created if
    /// needed (keeping time order) and counted into; other buckets stay.
    pub fn add(&mut self, ts: u64, status_code: i32, latency_us: u64)
        requires
            old(self).wf(),
        ensures
            final(self).wf(),
            final(self).buckets@ == series_added(old(self).buckets@, ts, status_code, latency_us),
            total_count(final(self).buckets@) == total_count(old(self).buckets@) + (if exists|j: int| 0 <= j < old(self).buckets@.len()
                && (#[trigger] old(self).buckets@[j]).ts == ts && old(self).buckets@[j].count == u64::MAX { 0int } else { 1int }),
    {
        let n = self.buckets.len();
        let mut i: usize = 0;
        while i < n && self.buckets[i].ts < ts
            invariant
                i <= n == self.buckets@.len(),
                self == old(self),
                forall|j: int| 0 <= j < i ==> (#[trigger] self.buckets@[j]).ts < ts,
                insert_pos(self.buckets@, ts, 0) == insert_pos(self.buckets@, ts, i as int),
            decreases n - i,
        {
            i = i + 1;
        }
        let ghost s = self.buckets@;
        proof {
            lemma_series_added_props(s, ts, status_code, latency_us);
        }
        if i < n && self.buckets[i].ts == ts {
            let mut b = self.buckets[i];
            b.add(status_code, latency_us);
            self.buckets.set(i, b);
        } else {
            let mut b = RtBucket::empty(ts);
            b.add(status_code, latency_us);
            self.buckets.insert(i, b);
        }
    }

    /// Drops the buckets older than `min_ts`; the rest stay in order.
    pub fn trim_older_than(&mut self, min_ts: u64)
        requires
            old(self).wf(),
        ensures
            final(self).wf(),
            forall|j: int| 0 <= j < final(self).buckets@.len() ==> (#[trigger] final(self).buckets@[j]).ts >= min_ts,
            final(self).buckets@ == drop_older(old(self).buckets@, min_ts),
    {
        let n = self.buckets.len();
        let mut k: usize = 0;
        while k < n && self.buckets[k].ts < min_ts
            invariant
                k <= n == self.buckets@.len(),
                self == old(self),
                forall|j: int| 0 <= j < k ==> (#[trigger] self.buckets@[j]).ts < min_ts,
            decreases n - k,
        {
            k = k + 1;
        }
        let ghost s = self.buckets@;
        let mut kept: Vec<RtBucket> = Vec::new();
        let mut i: usize = k;
        while i < n
            invariant
                k <= i <= n == s.len(),
                s == self.buckets@,
                kept@ == s.subrange(k as int, i as int),
            decreases n - i,
        {
            kept.push(self.buckets[i]);
            i = i + 1;
            assert(kept@ =~= s.subrange(k as int, i as int));
        }
        proof {
            assert forall|j: int| 0 <= j < kept@.len() implies (#[trigger] kept@[j]).ts >= min_ts by {
                if k < n {
                    assert(s[k as int].ts >= min_ts);
                    if j > 0 {
                        assert(s[k as int].ts < s[k + j].ts);
                    }
                }
            }
            assert forall|x: int, y: int| 0 <= x < y < kept@.len() implies (#[trigger] kept@[x]).ts < (#[trigger] kept@[y]).ts by {
                assert(s[k + x].ts < s[k + y].ts);
            }
        }
        proof {
            lemma_drop_older(s, min_ts, k as int);
        }
        self.buckets = kept;
    }
}

} // verus!

verus! {

/// Per-second buckets are kept for twelve hours.
pub const REALTIME_WINDOW_SECS: u64 = 43200;

/// Per-minute buckets are kept for a day.
pub const REALTIME_MINUTE_WINDOW_SECS: u64 = 86400;

/// Number of independently locked aggregates.
pub const REALTIME_SHARDS: u64 = 64;

/// Capacity of the queue of records waiting to be stored.
pub const REQUEST_LOG_QUEUE_CAPACITY: usize = 50000;

/// One realtime record of a completed request; latency in microseconds.
#[derive(Clone, Debug)]
pub struct RequestLogInsert {
    pub timestamp: u64,
    pub listen_addr: String,
    pub client_ip: String,
    pub remote_ip: String,
    pub method: String,
    pub request_path: String,
    pub request_host: String,
    pub status_code: i32,
    pub upstream: String,
    pub latency_us: u64,
    pub user_agent: String,
    pub referer: String,
    pub matched_route_id: String,
}

/// The series of one label: per second and per minute.
#[derive(Clone, Debug)]
pub struct LabelSeries {
    pub label: String,
    pub per_sec: RtSeriesAgg,
    pub per_min: RtSeriesAgg,
}

/// The series kept for `label` (first entry), if any.
pub open spec fn find_label(s: Seq<LabelSeries>, label: Seq<char>) -> Option<LabelSeries>
    decreases s.len(),
{
    if s.len() == 0 {
        None
    } else if s[0].label@ == label {
        Some(s[0])
    } else {
        find_label(s.drop_first(), label)
    }
}

/// Retention as of `ts`: no per-second bucket older than twelve hours and
/// no per-minute bucket older than a day remains for the label.
pub open spec fn retained(l: Option<LabelSeries>, ts: u64) -> bool {
    match l {
        Some(x) => {
            &&& forall|j: int| 0 <= j < x.per_sec.buckets@.len() ==> (#[trigger] x.per_sec.buckets@[j]).ts + REALTIME_WINDOW_SECS >= ts
            &&& forall|j: int| 0 <= j < x.per_min.buckets@.len() ==> (#[trigger] x.per_min.buckets@[j]).ts + REALTIME_MINUTE_WINDOW_SECS >= ts
        },
        None => true,
    }
}

/// The per-second and per-minute buckets of a label (empty when absent).
pub open spec fn pair_of(l: Option<LabelSeries>) -> (Seq<RtBucket>, Seq<RtBucket>) {
    match l {
        Some(x) => (x.per_sec.buckets@, x.per_min.buckets@),
        None => (Seq::empty(), Seq::empty()),
    }
}

/// A label's buckets after counting one request at `ts`: counted in second
/// `ts` and minute `ts − ts mod 60`, then per-second buckets older than
/// twelve hours and per-minute buckets older than a day dropped.
pub open spec fn after_pair(p: (Seq<RtBucket>, Seq<RtBucket>), ts: u64, status: i32, latency_us: u64) -> (Seq<RtBucket>, Seq<RtBucket>) {
    (
        drop_older(series_added(p.0, ts, status, latency_us), ts.saturating_sub(REALTIME_WINDOW_SECS)),
        drop_older(series_added(p.1, (ts - ts % 60) as u64, status, latency_us), ts.saturating_sub(REALTIME_MINUTE_WINDOW_SECS)),
    )
}

/// The buckets of `global` and of the trimmed listen address after one
/// request is counted under both (twice under `global` when the listen
/// address is itself `global`); every other label of the shard keeps its
/// buckets within the retention windows as of `ts`, so no stale bucket is
/// left anywhere in the shard.
pub open spec fn agg_after(old: RealtimeAgg, new: RealtimeAgg, listen_addr: Seq<char>, ts: u64, status: i32, latency_us: u64) -> bool {
    let la = crate::text::trim_spec(listen_addr);
    let g1 = after_pair(pair_of(old.lookup("global"@)), ts, status, latency_us);
    &&& new.lookup("global"@) is Some
    &&& la.len() == 0 ==> pair_of(new.lookup("global"@)) == g1
    &&& la == "global"@ ==> pair_of(new.lookup("global"@)) == after_pair(g1, ts, status, latency_us)
    &&& la.len() > 0 && la != "global"@ ==> pair_of(new.lookup("global"@)) == g1 && new.lookup(la) is Some
        && pair_of(new.lookup(la)) == after_pair(pair_of(old.lookup(la)), ts, status, latency_us)
    &&& forall|k: Seq<char>| k != "global"@ && k != la ==> (new.lookup(k) is Some) == (old.lookup(k) is Some)
        && pair_of(new.lookup(k)) == trim_pair(pair_of(old.lookup(k)), ts)
    &&& forall|i: int| 0 <= i < new.labels@.len() ==> retained(Some(#[trigger] new.labels@[i]), ts)
}

/// A label's buckets with the retention windows as of `ts` applied.
pub open spec fn trim_pair(p: (Seq<RtBucket>, Seq<RtBucket>), ts: u64) -> (Seq<RtBucket>, Seq<RtBucket>) {
    (drop_older(p.0, ts.saturating_sub(REALTIME_WINDOW_SECS)), drop_older(p.1, ts.saturating_sub(REALTIME_MINUTE_WINDOW_SECS)))
}

proof fn lemma_drop_older_twice(s: Seq<RtBucket>, m: u64)
    ensures
        drop_older(drop_older(s, m), m) == drop_older(s, m),
    decreases s.len(),
{
    if s.len() > 0 && s[0].ts < m {
        lemma_drop_older_twice(s.drop_first(), m);
    }
}

proof fn lemma_trim_after(p: (Seq<RtBucket>, Seq<RtBucket>), ts: u64, status: i32, latency_us: u64)
    ensures
        trim_pair(after_pair(p, ts, status, latency_us), ts) == after_pair(p, ts, status, latency_us),
{
    lemma_drop_older_twice(series_added(p.0, ts, status, latency_us), ts.saturating_sub(REALTIME_WINDOW_SECS));
    lemma_drop_older_twice(series_added(p.1, (ts - ts % 60) as u64, status, latency_us), ts.saturating_sub(REALTIME_MINUTE_WINDOW_SECS));
}

proof fn lemma_find_label_trimmed(old: Seq<LabelSeries>, new: Seq<LabelSeries>, ts: u64, k: Seq<char>)
    requires
        old.len() == new.len(),
        forall|i: int| 0 <= i < old.len() ==> (#[trigger] new[i]).label@ == old[i].label@
            && pair_of(Some(new[i])) == trim_pair(pair_of(Some(old[i])), ts),
    ensures
        (find_label(new, k) is Some) == (find_label(old, k) is Some),
        pair_of(find_label(new, k)) == trim_pair(pair_of(find_label(old, k)), ts),
    decreases old.len(),
{
    if old.len() > 0 {
        assert forall|i: int| 0 <= i < old.drop_first().len() implies (#[trigger] new.drop_first()[i]).label@ == old.drop_first()[i].label@
            && pair_of(Some(new.drop_first()[i])) == trim_pair(pair_of(Some(old.drop_first()[i])), ts) by {
            assert(new.drop_first()[i] == new[i + 1] && old.drop_first()[i] == old[i + 1]);
        }
        lemma_find_label_trimmed(old.drop_first(), new.drop_first(), ts, k);
        assert(new[0].label@ == old[0].label@);
    } else {
        assert(drop_older(Seq::<RtBucket>::empty(), ts.saturating_sub(REALTIME_WINDOW_SECS)) == Seq::<RtBucket>::empty());
        assert(drop_older(Seq::<RtBucket>::empty(), ts.saturating_sub(REALTIME_MINUTE_WINDOW_SECS)) == Seq::<RtBucket>::empty());
    }
}

/// The aggregate of one shard: series per label.
#[derive(Clone, Debug)]
pub struct RealtimeAgg {
    pub labels: Vec<LabelSeries>,
}

impl RealtimeAgg {
    pub open spec fn wf(&self) -> bool {
        forall|i: int| 0 <= i < self.labels@.len() ==> (#[trigger] self.labels@[i]).per_sec.wf() && self.labels@[i].per_min.wf()
    }

    pub open spec fn lookup(&self, label: Seq<char>) -> Option<LabelSeries> {
        find_label(self.labels@, label)
    }

    /// An aggregate without labels.
    pub fn new() -> (r: RealtimeAgg)
        ensures
            r.wf(),
            r.labels@.len() == 0,
    {
        RealtimeAgg { labels: Vec::new() }
    }

    /// Counts one request under `label` at `ts`, in the per-second bucket
    /// `ts` and the per-minute bucket `ts − ts mod 60`, then drops that
    /// label's per-second buckets older than twelve hours and per-minute
    /// buckets older than a day (relative to `ts`).
    pub fn add_one(&mut self, label: &str, ts: u64, status_code: i32, latency_us: u64)
        requires
            old(self).wf(),
        ensures
            final(self).wf(),
            final(self).lookup(label@) is Some,
            pair_of(final(self).lookup(label@)) == after_pair(pair_of(old(self).lookup(label@)), ts, status_code, latency_us),
            retained(final(self).lookup(label@), ts),
            forall|k: Seq<char>| k != label@ ==> final(self).lookup(k) == old(self).lookup(k),
    {
        let key = String::from_str(label);
        let n = self.labels.len();
        let mut i: usize = 0;
        let mut found = false;
        while i < n && !found
            invariant
                n == self.labels@.len(),
                i <= n,
                key@ == label@,
                found ==> i < n && self.labels@[i as int].label@ == label@,
                forall|j: int| 0 <= j < i ==> (#[trigger] self.labels@[j]).label@ != label@,
            decreases n - i + (if found { 0int } else { 1int }),
        {
            if self.labels[i].label == key {
                found = true;
            } else {
                i = i + 1;
            }
        }
        let ghost old_l = self.labels@;
        proof {
            lemma_find_label_skip(old_l, label@, i as int);
        }
        let mut entry = if found {
            self.labels.remove(i)
        } else {
            LabelSeries { label: key, per_sec: RtSeriesAgg::new(), per_min: RtSeriesAgg::new() }
        };
        assert(found ==> old_l[i as int].per_sec.wf() && old_l[i as int].per_min.wf());
        entry.per_sec.add(ts, status_code, latency_us);
        entry.per_sec.trim_older_than(ts.saturating_sub(REALTIME_WINDOW_SECS));
        entry.per_min.add(ts - ts % 60, status_code, latency_us);
        entry.per_min.trim_older_than(ts.saturating_sub(REALTIME_MINUTE_WINDOW_SECS));
        let ghost e = entry;
        if found {
            self.labels.insert(i, entry);
            proof {
                assert(self.labels@ =~= old_l.update(i as int, e));
                assert forall|k: Seq<char>| k != label@ implies self.lookup(k) == old(self).lookup(k) by {
                    lemma_find_label_update(old_l, i as int, e, k);
                }
                lemma_find_label_update(old_l, i as int, e, label@);
                assert forall|j: int| 0 <= j < self.labels@.len() implies (#[trigger] self.labels@[j]).per_sec.wf()
                    && self.labels@[j].per_min.wf() by {
                    if j != i {
                        assert(self.labels@[j] == old_l[j]);
                    }
                }
            }
        } else {
            self.labels.push(entry);
            proof {
                assert forall|k: Seq<char>| #![auto] true implies self.lookup(k) == match old(self).lookup(k) {
                    Some(x) => Some(x),
                    None => if e.label@ == k { Some(e) } else { None },
                } by {
                    lemma_find_label_push(old_l, e, k);
                }
                assert forall|j: int| 0 <= j < self.labels@.len() implies (#[trigger] self.labels@[j]).per_sec.wf()
                    && self.labels@[j].per_min.wf() by {
                    if j < n {
                        assert(self.labels@[j] == old_l[j]);
                    }
                }
            }
        }
    }

    /// Counts one request under `global` and, when it is not blank, under
    /// the trimmed listen address.
    pub fn add(&mut self, listen_addr: &str, ts: u64, status_code: i32, latency_us: u64)
        requires
            old(self).wf(),
        ensures
            final(self).wf(),
            agg_after(*old(self), *final(self), listen_addr@, ts, status_code, latency_us),
            retained(final(self).lookup("global"@), ts),
            crate::text::trim_spec(listen_addr@).len() > 0 ==> retained(final(self).lookup(crate::text::trim_spec(listen_addr@)), ts),
    {
        proof {
            reveal_strlit("global");
        }
        self.add_one("global", ts, status_code, latency_us);
        let la = trim(listen_addr);
        if la.unicode_len() > 0 {
            self.add_one(la.as_str(), ts, status_code, latency_us);
        }
        let ghost mid = *self;
        self.trim_all(ts);
        proof {
            assert forall|k: Seq<char>| true implies (self.lookup(k) is Some) == (mid.lookup(k) is Some)
                && pair_of(self.lookup(k)) == trim_pair(pair_of(mid.lookup(k)), ts) by {
                lemma_find_label_trimmed(mid.labels@, self.labels@, ts, k);
            }
            lemma_trim_after(pair_of(old(self).lookup("global"@)), ts, status_code, latency_us);
            lemma_trim_after(after_pair(pair_of(old(self).lookup("global"@)), ts, status_code, latency_us), ts, status_code, latency_us);
            lemma_trim_after(pair_of(old(self).lookup(la@)), ts, status_code, latency_us);
        }
    }

    /// Drops, under every label, the per-second buckets older than twelve
    /// hours and the per-minute buckets older than a day (as of `ts`).
    pub fn trim_all(&mut self, ts: u64)
        requires
            old(self).wf(),
        ensures
            final(self).wf(),
            final(self).labels@.len() == old(self).labels@.len(),
            forall|i: int| 0 <= i < old(self).labels@.len() ==> (#[trigger] final(self).labels@[i]).label@ == old(self).labels@[i].label@
                && pair_of(Some(final(self).labels@[i])) == trim_pair(pair_of(Some(old(self).labels@[i])), ts),
            forall|i: int| 0 <= i < final(self).labels@.len() ==> retained(Some(#[trigger] final(self).labels@[i]), ts),
    {
        let n = self.labels.len();
        let mut i: usize = 0;
        while i < n
            invariant
                i <= n == self.labels@.len() == old(self).labels@.len(),
                self.wf(),
                forall|j: int| 0 <= j < i ==> (#[trigger] self.labels@[j]).label@ == old(self).labels@[j].label@
                    && pair_of(Some(self.labels@[j])) == trim_pair(pair_of(Some(old(self).labels@[j])), ts)
                    && retained(Some(self.labels@[j]), ts),
                forall|j: int| i <= j < n ==> #[trigger] self.labels@[j] == old(self).labels@[j],
            decreases n - i,
        {
            let ghost before = self.labels@;
            let mut e = self.labels.remove(i);
            assert(before[i as int].per_sec.wf() && before[i as int].per_min.wf());
            e.per_sec.trim_older_than(ts.saturating_sub(REALTIME_WINDOW_SECS));
            e.per_min.trim_older_than(ts.saturating_sub(REALTIME_MINUTE_WINDOW_SECS));
            self.labels.insert(i, e);
            proof {
                assert(self.labels@ =~= before.update(i as int, e));
                assert forall|j: int| 0 <= j < self.labels@.len() implies (#[trigger] self.labels@[j]).per_sec.wf() && self.labels@[j].per_min.wf() by {
                    if j != i {
                        assert(self.labels@[j] == before[j]);
                    }
                }
            }
            i = i + 1;
        }
    }
}

proof fn lemma_find_label_skip(s: Seq<LabelSeries>, id: Seq<char>, i: int)
    requires
        0 <= i <= s.len(),
        forall|j: int| 0 <= j < i ==> (#[trigger] s[j]).label@ != id,
    ensures
        find_label(s, id) == find_label(s.subrange(i, s.len() as int), id),
    decreases i,
{
    if i > 0 {
        assert(s.drop_first().subrange(i - 1, s.drop_first().len() as int) == s.subrange(i, s.len() as int));
        assert forall|j: int| 0 <= j < i - 1 implies (#[trigger] s.drop_first()[j]).label@ != id by {
            assert(s.drop_first()[j] == s[j + 1]);
        }
        lemma_find_label_skip(s.drop_first(), id, i - 1);
    } else {
        assert(s.subrange(0, s.len() as int) == s);
    }
}

proof fn lemma_find_label_update(s: Seq<LabelSeries>, i: int, x: LabelSeries, other: Seq<char>)
    requires
        0 <= i < s.len(),
        x.label@ == s[i].label@,
        forall|j: int| 0 <= j < i ==> (#[trigger] s[j]).label@ != s[i].label@,
    ensures
        find_label(s.update(i, x), x.label@) == Some(x),
        other != x.label@ ==> find_label(s.update(i, x), other) == find_label(s, other),
    decreases i,
{
    if i > 0 {
        assert(s.update(i, x).drop_first() == s.drop_first().update(i - 1, x));
        assert forall|j: int| 0 <= j < i - 1 implies (#[trigger] s.drop_first()[j]).label@ != s.drop_first()[i - 1].label@ by {
            assert(s.drop_first()[j] == s[j + 1]);
        }
        lemma_find_label_update(s.drop_first(), i - 1, x, other);
    } else {
        assert(s.update(i, x).drop_first() == s.drop_first());
    }
}

proof fn lemma_find_label_push(s: Seq<LabelSeries>, x: LabelSeries, other: Seq<char>)
    ensures
        find_label(s.push(x), other) == match find_label(s, other) {
            Some(m) => Some(m),
            None => if x.label@ == other { Some(x) } else { None },
        },
    decreases s.len(),
{
    if s.len() > 0 {
        assert(s.push(x).drop_first() == s.drop_first().push(x));
        lemma_find_label_push(s.drop_first(), x, other);
    } else {
        assert(s.push(x).drop_first() == s);
    }
}

} // verus!

verus! {

/// The shard that holds the series of `label`.
pub open spec fn shard_of(label: Seq<char>) -> int {
    (fnv1a_spec(vstd::utf8::encode_utf8(label)) % REALTIME_SHARDS) as int
}

/// The label a record is sharded by: its trimmed listen address, or
/// `global` when that is blank.
pub open spec fn shard_label(listen_addr: Seq<char>) -> Seq<char> {
    if crate::text::trim_spec(listen_addr).len() == 0 { "global"@ } else { crate::text::trim_spec(listen_addr) }
}

/// The realtime aggregates and the bounded queue of records awaiting
/// storage.
pub struct MetricsCore {
    pub shards: Vec<RealtimeAgg>,
    pub queue: Vec<RequestLogInsert>,
    pub dropped: u64,
}

impl MetricsCore {
    pub open spec fn wf(&self) -> bool {
        &&& self.shards@.len() == REALTIME_SHARDS
        &&& forall|i: int| 0 <= i < self.shards@.len() ==> (#[trigger] self.shards@[i]).wf()
        &&& self.queue@.len() <= REQUEST_LOG_QUEUE_CAPACITY
    }

    /// Sixty-four empty shards, an empty queue, nothing dropped.
    pub fn new() -> (r: MetricsCore)
        ensures
            r.wf(),
            r.queue@.len() == 0,
            r.dropped == 0,
            forall|i: int| 0 <= i < r.shards@.len() ==> (#[trigger] r.shards@[i]).labels@.len() == 0,
    {
        let mut shards: Vec<RealtimeAgg> = Vec::new();
        let mut i: u64 = 0;
        while i < REALTIME_SHARDS
            invariant
                i <= REALTIME_SHARDS,
                shards@.len() == i,
                forall|j: int| 0 <= j < shards@.len() ==> (#[trigger] shards@[j]).wf() && shards@[j].labels@.len() == 0,
            decreases REALTIME_SHARDS - i,
        {
            shards.push(RealtimeAgg::new());
            i = i + 1;
        }
        MetricsCore { shards, queue: Vec::new(), dropped: 0 }
    }

    /// Ingests one record: it is counted in the aggregate of its shard
    /// (under `global` and its listen address), then queued for storage;
    /// when the queue is full the record is not queued and the drop counter
    /// grows instead. Nothing here waits.
    pub fn enqueue(&mut self, rec: RequestLogInsert)
        requires
            old(self).wf(),
        ensures
            final(self).wf(),
            ({
                let idx = shard_of(shard_label(rec.listen_addr@));
                let la = crate::text::trim_spec(rec.listen_addr@);
                &&& agg_after(old(self).shards@[idx], final(self).shards@[idx], rec.listen_addr@, rec.timestamp, rec.status_code, rec.latency_us)
                &&& retained(final(self).shards@[idx].lookup("global"@), rec.timestamp)
                &&& la.len() > 0 ==> retained(final(self).shards@[idx].lookup(la), rec.timestamp)
                &&& forall|j: int| 0 <= j < REALTIME_SHARDS && j != idx ==> final(self).shards@[j] == old(self).shards@[j]
            }),
            old(self).queue@.len() < REQUEST_LOG_QUEUE_CAPACITY ==> final(self).queue@ == old(self).queue@.push(rec)
                && final(self).dropped == old(self).dropped,
            old(self).queue@.len() >= REQUEST_LOG_QUEUE_CAPACITY ==> final(self).queue@ == old(self).queue@
                && final(self).dropped == old(self).dropped.saturating_add(1),
    {
        let la = crate::text::trim(rec.listen_addr.as_str());
        let label = if la.unicode_len() == 0 { String::from_str("global") } else { la };
        let idx = (hash_fnv1a_64(label.as_str()) % REALTIME_SHARDS) as usize;
        let ghost old_shards = self.shards@;
        let mut agg = self.shards.remove(idx);
        assert(old_shards[idx as int].wf());
        agg.add(rec.listen_addr.as_str(), rec.timestamp, rec.status_code, rec.latency_us);
        self.shards.insert(idx, agg);
        proof {
            assert(self.shards@ =~= old_shards.update(idx as int, agg));
        }
        if self.queue.len() < REQUEST_LOG_QUEUE_CAPACITY {
            self.queue.push(rec);
        } else {
            self.dropped = self.dropped.saturating_add(1);
        }
    }

    /// Takes up to `max` queued records, oldest first, for storage.
    pub fn drain(&mut self, max: usize) -> (r: Vec<RequestLogInsert>)
        requires
            old(self).wf(),
        ensures
            final(self).wf(),
            final(self).shards == old(self).shards,
            final(self).dropped == old(self).dropped,
            ({
                let k = if max < old(self).queue@.len() { max as int } else { old(self).queue@.len() as int };
                &&& r@ == old(self).queue@.subrange(0, k)
                &&& final(self).queue@ == old(self).queue@.subrange(k, old(self).queue@.len() as int)
            }),
    {
        let n = self.queue.len();
        let k = if max < n { max } else { n };
        let ghost q = self.queue@;
        let mut out: Vec<RequestLogInsert> = Vec::new();
        let mut i: usize = 0;
        assert(q.subrange(0, n as int) == q);
        while i < k
            invariant
                i <= k <= n == q.len(),
                out@ == q.subrange(0, i as int),
                self.queue@ == q.subrange(i as int, n as int),
                self.shards == old(self).shards,
                self.dropped == old(self).dropped,
            decreases k - i,
        {
            let x = self.queue.remove(0);
            out.push(x);
            i = i + 1;
            assert(out@ =~= q.subrange(0, i as int));
            assert(self.queue@ =~= q.subrange(i as int, n as int));
        }
        out
    }
}

} // verus!

verus! {

/// `x` with the counters of `b` added in (left alone when the count would
/// overflow); latency sums add up to the largest value, maxima combine.
pub open spec fn bucket_merged(x: RtBucket, b: RtBucket) -> RtBucket {
    if x.count + b.count > u64::MAX {
        x
    } else {
        RtBucket {
            ts: x.ts,
            count: (x.count + b.count) as u64,
            s2xx: (x.s2xx + b.s2xx) as u64,
            s3xx: (x.s3xx + b.s3xx) as u64,
            s4xx: (x.s4xx + b.s4xx) as u64,
            s5xx: (x.s5xx + b.s5xx) as u64,
            s0: (x.s0 + b.s0) as u64,
            latency_sum_us: x.latency_sum_us.saturating_add(b.latency_sum_us),
            latency_max_us: if b.latency_max_us > x.latency_max_us { b.latency_max_us } else { x.latency_max_us },
        }
    }
}

fn merge_bucket_exec(x: RtBucket, b: RtBucket) -> (r: RtBucket)
    requires
        x.wf(),
        b.wf(),
    ensures
        r == bucket_merged(x, b),
        r.wf(),
{
    if x.count > u64::MAX - b.count {
        x
    } else {
        RtBucket {
            ts: x.ts,
            count: x.count + b.count,
            s2xx: x.s2xx + b.s2xx,
            s3xx: x.s3xx + b.s3xx,
            s4xx: x.s4xx + b.s4xx,
            s5xx: x.s5xx + b.s5xx,
            s0: x.s0 + b.s0,
            latency_sum_us: x.latency_sum_us.saturating_add(b.latency_sum_us),
            latency_max_us: if b.latency_max_us > x.latency_max_us { b.latency_max_us } else { x.latency_max_us },
        }
    }
}

/// The series after merging bucket `b` into it: added into the bucket of
/// the same time, or inserted in time order.
pub open spec fn series_merge_bucket(s: Seq<RtBucket>, b: RtBucket) -> Seq<RtBucket> {
    let i = insert_pos(s, b.ts, 0);
    if i < s.len() && s[i].ts == b.ts {
        s.update(i, bucket_merged(s[i], b))
    } else {
        s.insert(i, bucket_merged(empty_bucket(b.ts), b))
    }
}

/// The series after merging every bucket of `o` into it, in order.
pub open spec fn series_merged(s: Seq<RtBucket>, o: Seq<RtBucket>) -> Seq<RtBucket>
    decreases o.len(),
{
    if o.len() == 0 { s } else { series_merge_bucket(series_merged(s, o.drop_last()), o.last()) }
}

impl RtSeriesAgg {
    /// Adds the counters of `b` into the bucket of time `b.ts`, creating it
    /// (in time order) if needed.
    pub fn merge_bucket(&mut self, b: RtBucket)
        requires
            old(self).wf(),
            b.wf(),
        ensures
            final(self).wf(),
            final(self).buckets@ == series_merge_bucket(old(self).buckets@, b),
            total_count(old(self).buckets@) + b.count <= u64::MAX ==> total_count(final(self).buckets@) == total_count(old(self).buckets@) + b.count,
    {
        let n = self.buckets.len();
        let mut i: usize = 0;
        while i < n && self.buckets[i].ts < b.ts
            invariant
                i <= n == self.buckets@.len(),
                self == old(self),
                forall|j: int| 0 <= j < i ==> (#[trigger] self.buckets@[j]).ts < b.ts,
                insert_pos(self.buckets@, b.ts, 0) == insert_pos(self.buckets@, b.ts, i as int),
            decreases n - i,
        {
            i = i + 1;
        }
        let ghost s = self.buckets@;
        proof {
            lemma_insert_pos(s, b.ts, 0);
        }
        if i < n && self.buckets[i].ts == b.ts {
            let m = merge_bucket_exec(self.buckets[i], b);
            self.buckets.set(i, m);
            proof {
                lemma_update_bucket(s, i as int, m);
                lemma_count_le_total(s, i as int);
            }
        } else {
            let m = merge_bucket_exec(RtBucket::empty(b.ts), b);
            self.buckets.insert(i, m);
            proof {
                assert forall|j: int| 0 <= j < n implies (#[trigger] s[j]).ts != b.ts by {
                    if j > i {
                        assert(s[i as int].ts < s[j].ts);
                    }
                }
                lemma_insert_bucket(s, i as int, m);
            }
        }
    }

    /// Adds every bucket of `other` into this series; counts are conserved
    /// while the sum stays in range.
    pub fn merge_from(&mut self, other: &RtSeriesAgg)
        requires
            old(self).wf(),
            other.wf(),
        ensures
            final(self).wf(),
            final(self).buckets@ == series_merged(old(self).buckets@, other.buckets@),
            total_count(old(self).buckets@) + total_count(other.buckets@) <= u64::MAX
                ==> total_count(final(self).buckets@) == total_count(old(self).buckets@) + total_count(other.buckets@),
    {
        let ghost o = other.buckets@;
        let ghost bounded = total_count(old(self).buckets@) + total_count(o) <= u64::MAX;
        let mut i: usize = 0;
        assert(o.subrange(0, 0) =~= Seq::<RtBucket>::empty());
        assert(series_merged(old(self).buckets@, o.subrange(0, 0)) == old(self).buckets@);
        while i < other.buckets.len()
            invariant
                i <= o.len(),
                o == other.buckets@,
                self.wf(),
                other.wf(),
                bounded == (total_count(old(self).buckets@) + total_count(o) <= u64::MAX),
                bounded ==> total_count(self.buckets@) == total_count(old(self).buckets@) + total_count(o.subrange(0, i as int)),
                self.buckets@ == series_merged(old(self).buckets@, o.subrange(0, i as int)),
            decreases o.len() - i,
        {
            proof {
                assert(o.subrange(0, i + 1).drop_last() == o.subrange(0, i as int));
                lemma_total_concat(o.subrange(0, i + 1), o.subrange(i + 1, o.len() as int));
                assert(o == o.subrange(0, i + 1) + o.subrange(i + 1, o.len() as int));
                lemma_total_nonneg(o.subrange(i + 1, o.len() as int));
            }
            self.merge_bucket(other.buckets[i]);
            i = i + 1;
        }
        assert(o.subrange(0, o.len() as int) == o);
    }
}

/// A time series as plain columns; latencies in ten-thousandths of a
/// millisecond.
#[derive(Clone, Debug)]
pub struct MetricsSeries {
    pub timestamps: Vec<u64>,
    pub counts: Vec<u64>,
    pub s2xx: Vec<u64>,
    pub s3xx: Vec<u64>,
    pub s4xx: Vec<u64>,
    pub s5xx: Vec<u64>,
    pub s0: Vec<u64>,
    pub avg_latency_e4: Vec<u128>,
    pub max_latency_e4: Vec<u128>,
}

/// Mean latency of a bucket in ten-thousandths of a millisecond, rounded.
pub open spec fn avg_e4(b: RtBucket) -> u128 {
    if b.count == 0 { 0 } else { ((b.latency_sum_us as int * 10 + b.count as int / 2) / (b.count as int)) as u128 }
}

impl RtSeriesAgg {
    /// The series as columns, one entry per bucket in time order.
    pub fn to_metrics_series(&self) -> (r: MetricsSeries)
        ensures
            r.timestamps@.len() == self.buckets@.len(),
            r.counts@.len() == self.buckets@.len(),
            r.s2xx@.len() == self.buckets@.len() && r.s3xx@.len() == self.buckets@.len() && r.s4xx@.len() == self.buckets@.len(),
            r.s5xx@.len() == self.buckets@.len() && r.s0@.len() == self.buckets@.len(),
            r.avg_latency_e4@.len() == self.buckets@.len() && r.max_latency_e4@.len() == self.buckets@.len(),
            forall|i: int| 0 <= i < self.buckets@.len() ==> {
                let b = #[trigger] self.buckets@[i];
                &&& r.timestamps@[i] == b.ts && r.counts@[i] == b.count
                &&& r.s2xx@[i] == b.s2xx && r.s3xx@[i] == b.s3xx && r.s4xx@[i] == b.s4xx
                &&& r.s5xx@[i] == b.s5xx && r.s0@[i] == b.s0
                &&& r.avg_latency_e4@[i] == avg_e4(b)
                &&& r.max_latency_e4@[i] == b.latency_max_us as int * 10
            },
    {
        let mut r = MetricsSeries {
            timestamps: Vec::new(),
            counts: Vec::new(),
            s2xx: Vec::new(),
            s3xx: Vec::new(),
            s4xx: Vec::new(),
            s5xx: Vec::new(),
            s0: Vec::new(),
            avg_latency_e4: Vec::new(),
            max_latency_e4: Vec::new(),
        };
        let mut i: usize = 0;
        while i < self.buckets.len()
            invariant
                i <= self.buckets@.len(),
                r.timestamps@.len() == i && r.counts@.len() == i && r.s2xx@.len() == i && r.s3xx@.len() == i,
                r.s4xx@.len() == i && r.s5xx@.len() == i && r.s0@.len() == i,
                r.avg_latency_e4@.len() == i && r.max_latency_e4@.len() == i,
                forall|k: int| 0 <= k < i ==> {
                    let b = #[trigger] self.buckets@[k];
                    &&& r.timestamps@[k] == b.ts && r.counts@[k] == b.count
                    &&& r.s2xx@[k] == b.s2xx && r.s3xx@[k] == b.s3xx && r.s4xx@[k] == b.s4xx
                    &&& r.s5xx@[k] == b.s5xx && r.s0@[k] == b.s0
                    &&& r.avg_latency_e4@[k] == avg_e4(b)
                    &&& r.max_latency_e4@[k] == b.latency_max_us as int * 10
                },
            decreases self.buckets@.len() - i,
        {
            let b = self.buckets[i];
            r.timestamps.push(b.ts);
            r.counts.push(b.count);
            r.s2xx.push(b.s2xx);
            r.s3xx.push(b.s3xx);
            r.s4xx.push(b.s4xx);
            r.s5xx.push(b.s5xx);
            r.s0.push(b.s0);
            r.avg_latency_e4.push(b.avg_latency_e4());
            r.max_latency_e4.push(b.latency_max_us as u128 * 10);
            i = i + 1;
        }
        r
    }
}

/// The buckets of label `k` after merging, in order, the series of every
/// entry of `labels[0..n]` named `k` into `p`.
pub open spec fn merge_labels_into(p: (Seq<RtBucket>, Seq<RtBucket>), labels: Seq<LabelSeries>, k: Seq<char>, n: nat) -> (Seq<RtBucket>, Seq<RtBucket>)
    decreases n,
{
    if n == 0 {
        p
    } else {
        let q = merge_labels_into(p, labels, k, (n - 1) as nat);
        let l = labels[n - 1];
        if l.label@ == k { (series_merged(q.0, l.per_sec.buckets@), series_merged(q.1, l.per_min.buckets@)) } else { q }
    }
}

/// The buckets of label `k` merged over the first `n` shards, shard by
/// shard.
pub open spec fn merge_shards(shards: Seq<RealtimeAgg>, n: nat, k: Seq<char>) -> (Seq<RtBucket>, Seq<RtBucket>)
    decreases n,
{
    if n == 0 {
        (Seq::empty(), Seq::empty())
    } else {
        let sh = shards[n - 1];
        merge_labels_into(merge_shards(shards, (n - 1) as nat, k), sh.labels@, k, sh.labels@.len())
    }
}

impl MetricsCore {
    /// All shards merged into one aggregate, label by label: each label's
    /// buckets are those of every shard's series of that label merged in
    /// by time.
    pub fn snapshot(&self) -> (r: RealtimeAgg)
        requires
            self.wf(),
        ensures
            r.wf(),
            forall|s: int, l: int| 0 <= s < self.shards@.len() && 0 <= l < (#[trigger] self.shards@[s]).labels@.len()
                ==> r.lookup((#[trigger] self.shards@[s].labels@[l]).label@) is Some,
            forall|k: Seq<char>| #[trigger] pair_of(r.lookup(k)) == merge_shards(self.shards@, self.shards@.len(), k),
    {
        let mut merged = RealtimeAgg::new();
        let mut s: usize = 0;
        while s < self.shards.len()
            invariant
                s <= self.shards@.len(),
                self.wf(),
                merged.wf(),
                forall|s2: int, l2: int| 0 <= s2 < s && 0 <= l2 < (#[trigger] self.shards@[s2]).labels@.len()
                    ==> merged.lookup((#[trigger] self.shards@[s2].labels@[l2]).label@) is Some,
                forall|k: Seq<char>| #[trigger] pair_of(merged.lookup(k)) == merge_shards(self.shards@, s as nat, k),
            decreases self.shards@.len() - s,
        {
            let shard = &self.shards[s];
            assert(shard.wf());
            let mut l: usize = 0;
            while l < shard.labels.len()
                invariant
                    l <= shard.labels@.len(),
                    s < self.shards@.len(),
                    *shard == self.shards@[s as int],
                    shard.wf(),
                    merged.wf(),
                    forall|l2: int| 0 <= l2 < l ==> merged.lookup((#[trigger] shard.labels@[l2]).label@) is Some,
                    forall|s2: int, l2: int| 0 <= s2 < s && 0 <= l2 < (#[trigger] self.shards@[s2]).labels@.len()
                        ==> merged.lookup((#[trigger] self.shards@[s2].labels@[l2]).label@) is Some,
                    forall|k: Seq<char>| #[trigger] pair_of(merged.lookup(k))
                        == merge_labels_into(merge_shards(self.shards@, s as nat, k), shard.labels@, k, l as nat),
                decreases shard.labels@.len() - l,
            {
                let ghost before = merged;
                assert(shard.labels@[l as int].per_sec.wf() && shard.labels@[l as int].per_min.wf());
                merged.merge_label(&shard.labels[l]);
                assert forall|k: Seq<char>| #[trigger] pair_of(merged.lookup(k))
                    == merge_labels_into(merge_shards(self.shards@, s as nat, k), shard.labels@, k, (l + 1) as nat) by {
                    if k != shard.labels@[l as int].label@ {
                        assert(merged.lookup(k) == before.lookup(k));
                    }
                }
                assert forall|k: Seq<char>| before.lookup(k) is Some implies merged.lookup(k) is Some by {
                    if k != shard.labels@[l as int].label@ {
                        assert(merged.lookup(k) == before.lookup(k));
                    }
                }
                l = l + 1;
            }
            assert forall|k: Seq<char>| #[trigger] pair_of(merged.lookup(k)) == merge_shards(self.shards@, (s + 1) as nat, k) by {
                assert(self.shards@[s as int] == *shard);
            }
            s = s + 1;
        }
        merged
    }
}

impl RealtimeAgg {
    /// Merges the series of one label into this aggregate.
    pub fn merge_label(&mut self, src: &LabelSeries)
        requires
            old(self).wf(),
            src.per_sec.wf(),
            src.per_min.wf(),
        ensures
            final(self).wf(),
            final(self).lookup(src.label@) is Some,
            pair_of(final(self).lookup(src.label@)) == (
                series_merged(pair_of(old(self).lookup(src.label@)).0, src.per_sec.buckets@),
                series_merged(pair_of(old(self).lookup(src.label@)).1, src.per_min.buckets@),
            ),
            forall|k: Seq<char>| k != src.label@ ==> final(self).lookup(k) == old(self).lookup(k),
    {
        let n = self.labels.len();
        let mut i: usize = 0;
        let mut found = false;
        while i < n && !found
            invariant
                n == self.labels@.len(),
                i <= n,
                found ==> i < n && self.labels@[i as int].label@ == src.label@,
                forall|j: int| 0 <= j < i ==> (#[trigger] self.labels@[j]).label@ != src.label@,
            decreases n - i + (if found { 0int } else { 1int }),
        {
            if self.labels[i].label == src.label {
                found = true;
            } else {
                i = i + 1;
            }
        }
        let ghost old_l = self.labels@;
        proof {
            lemma_find_label_skip(old_l, src.label@, i as int);
        }
        let mut entry = if found {
            self.labels.remove(i)
        } else {
            LabelSeries { label: src.label.clone(), per_sec: RtSeriesAgg::new(), per_min: RtSeriesAgg::new() }
        };
        proof {
            if found {
                assert(old_l.subrange(i as int, n as int)[0] == old_l[i as int]);
                assert(old(self).lookup(src.label@) == Some(old_l[i as int]));
            } else {
                assert(old_l.subrange(i as int, n as int).len() == 0);
                assert(old(self).lookup(src.label@) is None);
            }
            assert(pair_of(old(self).lookup(src.label@)) == (entry.per_sec.buckets@, entry.per_min.buckets@));
        }
        assert(found ==> old_l[i as int].per_sec.wf() && old_l[i as int].per_min.wf());
        entry.per_sec.merge_from(&src.per_sec);
        entry.per_min.merge_from(&src.per_min);
        let ghost e = entry;
        if found {
            self.labels.insert(i, entry);
            proof {
                assert(self.labels@ =~= old_l.update(i as int, e));
                assert forall|k: Seq<char>| k != src.label@ implies self.lookup(k) == old(self).lookup(k) by {
                    lemma_find_label_update(old_l, i as int, e, k);
                }
                lemma_find_label_update(old_l, i as int, e, src.label@);
                assert forall|j: int| 0 <= j < self.labels@.len() implies (#[trigger] self.labels@[j]).per_sec.wf()
                    && self.labels@[j].per_min.wf() by {
                    if j != i {
                        assert(self.labels@[j] == old_l[j]);
                    }
                }
            }
        } else {
            self.labels.push(entry);
            proof {
                assert forall|k: Seq<char>| #![auto] true implies self.lookup(k) == match old(self).lookup(k) {
                    Some(x) => Some(x),
                    None => if e.label@ == k { Some(e) } else { None },
                } by {
                    lemma_find_label_push(old_l, e, k);
                }
                assert forall|j: int| 0 <= j < self.labels@.len() implies (#[trigger] self.labels@[j]).per_sec.wf()
                    && self.labels@[j].per_min.wf() by {
                    if j < n {
                        assert(self.labels@[j] == old_l[j]);
                    }
                }
            }
        }
    }
}

} // verus!

verus! {

/// The labels of an aggregate other than `global`, in order.
pub open spec fn other_labels(s: Seq<LabelSeries>) -> Seq<Seq<char>>
    decreases s.len(),
{
    if s.len() == 0 {
        Seq::empty()
    } else {
        let rest = other_labels(s.drop_last());
        if s.last().label@ == "global"@ { rest } else { rest.push(s.last().label@) }
    }
}

/// The order in which labels are listed: `global` first, then the others
/// sorted.
pub open spec fn label_order_spec(agg: RealtimeAgg) -> Seq<Seq<char>> {
    seq!["global"@] + crate::lb::sort_spec(other_labels(agg.labels@))
}

impl RealtimeAgg {
    /// The labels as listed to observers (see `label_order_spec`).
    pub fn label_order(&self) -> (r: Vec<String>)
        ensures
            crate::lb::strs_of(r@) == label_order_spec(*self),
    {
        let mut sorted: Vec<Vec<char>> = Vec::new();
        let mut i: usize = 0;
        let ghost ls = self.labels@;
        assert(sorted@.map_values(|v: Vec<char>| v@) =~= crate::lb::sort_spec(other_labels(ls.subrange(0, 0))));
        while i < self.labels.len()
            invariant
                i <= ls.len(),
                ls == self.labels@,
                sorted@.map_values(|v: Vec<char>| v@) == crate::lb::sort_spec(other_labels(ls.subrange(0, i as int))),
            decreases ls.len() - i,
        {
            let ghost pre = ls.subrange(0, i + 1);
            assert(pre.drop_last() == ls.subrange(0, i as int));
            let g = String::from_str("global");
            if !(self.labels[i].label == g) {
                let v = crate::text::chars_of(self.labels[i].label.as_str());
                crate::lb::insert_sorted_exec(&mut sorted, v);
                assert(other_labels(pre) == other_labels(ls.subrange(0, i as int)).push(ls[i as int].label@));
                assert(other_labels(pre).drop_last() == other_labels(ls.subrange(0, i as int)));
                assert(other_labels(pre).last() == ls[i as int].label@);
                assert(crate::lb::sort_spec(other_labels(pre)) == crate::lb::insert_sorted(
                    crate::lb::sort_spec(other_labels(ls.subrange(0, i as int))), ls[i as int].label@));
            }
            i = i + 1;
        }
        assert(ls.subrange(0, ls.len() as int) == ls);
        let ghost sv = sorted@.map_values(|v: Vec<char>| v@);
        let mut out: Vec<String> = Vec::new();
        out.push(String::from_str("global"));
        let mut j: usize = 0;
        assert(crate::lb::strs_of(out@) =~= seq!["global"@] + sv.subrange(0, 0));
        while j < sorted.len()
            invariant
                j <= sorted@.len(),
                sv == sorted@.map_values(|v: Vec<char>| v@),
                crate::lb::strs_of(out@) == seq!["global"@] + sv.subrange(0, j as int),
                out@.len() == j + 1,
                sv.len() == sorted@.len(),
            decreases sorted@.len() - j,
        {
            let s = crate::text::string_of(&sorted[j], 0, sorted[j].len());
            assert(sorted@[j as int]@.subrange(0, sorted@[j as int]@.len() as int) == sv[j as int]);
            let ghost before = out@;
            let ghost sview = s@;
            assert(sview == sv[j as int]);
            out.push(s);
            assert(out@ == before.push(s));
            assert forall|k: int| 0 <= k < out@.len() implies #[trigger] crate::lb::strs_of(out@)[k]
                == (seq!["global"@] + sv.subrange(0, j + 1))[k] by {
                if k < before.len() {
                    assert(out@[k] == before[k]);
                    assert(crate::lb::strs_of(before)[k] == (seq!["global"@] + sv.subrange(0, j as int))[k]);
                } else {
                    assert(out@[k]@ == sview);
                    assert(k == j + 1);
                    assert(sv.subrange(0, j + 1)[j as int] == sv[j as int]);
                    assert((seq!["global"@] + sv.subrange(0, j + 1))[k] == sv.subrange(0, j + 1)[k - 1]);
                }
            }
            j = j + 1;
            assert(crate::lb::strs_of(out@) =~= seq!["global"@] + sv.subrange(0, j as int));
        }
        assert(sv.subrange(0, sv.len() as int) == sv);
        out
    }
}

} // verus!
