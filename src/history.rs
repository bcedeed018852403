//! Aggregations over stored request records for historical queries.
use vstd::prelude::*;
use crate::text::{chars_of, is_prefix, string_of};

verus! {

/// Bucket size for a query span: one second under an hour, a minute under
/// two days, five minutes beyond.
pub open spec fn granularity_spec(span: int) -> int {
    if span < 3600 { 1 } else if span < 48 * 3600 { 60 } else { 300 }
}

/// The bucket size for a query from `start` to `end`; `None` when
/// `end <= start` (the query gives an empty series).
pub fn granularity_for(start: i64, end: i64) -> (r: Option<i64>)
    ensures
        end <= start ==> r is None,
        end > start ==> r == Some(granularity_spec(end - start) as i64),
{
    if end <= start {
        return None;
    }
    let span: i128 = end as i128 - start as i128;
    Some(if span < 3600 { 1 } else if span < 48 * 3600 { 60 } else { 300 })
}

/// The bucket of a timestamp: `(ts / gran) * gran`.
pub fn bucket_of(ts: u64, gran: u64) -> (r: u64)
    requires
        gran >= 1,
    ensures
        r as int == (ts as int / gran as int) * gran as int,
        r <= ts,
{
    let q = ts / gran;
    assert(q * gran <= ts) by (nonlinear_arith) requires q == ts / gran, gran >= 1;
    q * gran
}

/// The latency bucket of `latency_us`: the first whose bound exceeds it,
/// else the last (index 11).
pub open spec fn latency_bucket_spec(latency_us: u64) -> int {
    if latency_us < 5000 { 0 } else if latency_us < 10000 { 1 } else if latency_us < 20000 { 2 }
    else if latency_us < 50000 { 3 } else if latency_us < 100000 { 4 } else if latency_us < 150000 { 5 }
    else if latency_us < 250000 { 6 } else if latency_us < 400000 { 7 } else if latency_us < 700000 { 8 }
    else if latency_us < 1000000 { 9 } else if latency_us < 2000000 { 10 } else { 11 }
}

/// The latency bucket of a request (see `latency_bucket_spec`).
pub fn latency_bucket(latency_us: u64) -> (r: usize)
    ensures
        r as int == latency_bucket_spec(latency_us),
        r < 12,
{
    if latency_us < 5000 { 0 } else if latency_us < 10000 { 1 } else if latency_us < 20000 { 2 }
    else if latency_us < 50000 { 3 } else if latency_us < 100000 { 4 } else if latency_us < 150000 { 5 }
    else if latency_us < 250000 { 6 } else if latency_us < 400000 { 7 } else if latency_us < 700000 { 8 }
    else if latency_us < 1000000 { 9 } else if latency_us < 2000000 { 10 } else { 11 }
}

/// The representative latency of each bucket, in tenths of a millisecond:
/// 2.5, 7.5, 15, 35, 75, 125, 200, 325, 550, 850, 1500 and 3000 ms.
pub open spec fn bucket_median_e1(i: int) -> u64 {
    if i == 0 { 25 } else if i == 1 { 75 } else if i == 2 { 150 } else if i == 3 { 350 } else if i == 4 { 750 }
    else if i == 5 { 1250 } else if i == 6 { 2000 } else if i == 7 { 3250 } else if i == 8 { 5500 }
    else if i == 9 { 8500 } else if i == 10 { 15000 } else { 30000 }
}

fn bucket_median_e1_exec(i: usize) -> (r: u64)
    ensures
        r == bucket_median_e1(i as int),
{
    if i == 0 { 25 } else if i == 1 { 75 } else if i == 2 { 150 } else if i == 3 { 350 } else if i == 4 { 750 }
    else if i == 5 { 1250 } else if i == 6 { 2000 } else if i == 7 { 3250 } else if i == 8 { 5500 }
    else if i == 9 { 8500 } else if i == 10 { 15000 } else { 30000 }
}

/// Counts of `h[0..n]`, added up.
pub open spec fn prefix_sum(h: Seq<u64>, n: int) -> int
    decreases n,
{
    if n <= 0 { 0 } else { prefix_sum(h, n - 1) + h[n - 1] }
}

/// The first bucket whose running count reaches `target`.
pub open spec fn first_reaching(h: Seq<u64>, target: int, i: int) -> int
    decreases h.len() - i,
{
    if i >= h.len() || i < 0 {
        h.len() - 1
    } else if prefix_sum(h, i + 1) >= target {
        i
    } else {
        first_reaching(h, target, i + 1)
    }
}

/// The estimated percentile `p_permille / 1000` of a twelve-bucket latency
/// histogram, in tenths of a millisecond: counts are accumulated until they
/// reach `ceil(N · p)` and that bucket's representative value is given; 0
/// for an empty histogram.
pub open spec fn percentile_spec(h: Seq<u64>, p_permille: u64) -> u64 {
    let n = prefix_sum(h, 12);
    if n == 0 {
        0
    } else {
        let target = (n * p_permille + 999) / 1000;
        bucket_median_e1(first_reaching(h, target, 0))
    }
}

/// Estimates a percentile from the latency histogram (see
/// `percentile_spec`).
pub fn estimate_percentile(h: &Vec<u64>, p_permille: u64) -> (r: u64)
    requires
        h@.len() == 12,
        p_permille <= 1000,
        forall|i: int| 0 <= i < 12 ==> #[trigger] h@[i] <= u32::MAX,
    ensures
        r == percentile_spec(h@, p_permille),
{
    let mut total: u64 = 0;
    let mut i: usize = 0;
    while i < 12
        invariant
            i <= 12,
            h@.len() == 12,
            forall|k: int| 0 <= k < 12 ==> #[trigger] h@[k] <= u32::MAX,
            total as int == prefix_sum(h@, i as int),
            total <= i * 0xffff_ffff,
        decreases 12 - i,
    {
        total = total + h[i];
        i = i + 1;
    }
    if total == 0 {
        return 0;
    }
    assert(total * p_permille <= 12 * 0xffff_ffff * 1000) by (nonlinear_arith)
        requires total <= 12 * 0xffff_ffff, p_permille <= 1000;
    let target: u64 = (total * p_permille + 999) / 1000;
    let mut acc: u64 = 0;
    let mut j: usize = 0;
    while j < 12
        invariant
            j <= 12,
            h@.len() == 12,
            forall|k: int| 0 <= k < 12 ==> #[trigger] h@[k] <= u32::MAX,
            acc as int == prefix_sum(h@, j as int),
            acc <= j * 0xffff_ffff,
            total as int == prefix_sum(h@, 12),
            total > 0,
            target as int == (total * p_permille + 999) / 1000,
            first_reaching(h@, target as int, 0) == first_reaching(h@, target as int, j as int),
        decreases 12 - j,
    {
        acc = acc + h[j];
        if acc >= target {
            assert(first_reaching(h@, target as int, j as int) == j as int);
            return bucket_median_e1_exec(j);
        }
        j = j + 1;
    }
    bucket_median_e1_exec(11)
}

/// The host of an upstream target for the distribution list: without
/// `https://`, `http://` and `www.`, cut at the first `/`.
pub open spec fn upstream_host_spec(u: Seq<char>) -> Seq<char> {
    let a = if is_prefix("https://"@, u) { u.subrange(8, u.len() as int) } else if is_prefix("http://"@, u) { u.subrange(7, u.len() as int) } else { u };
    let b = if is_prefix("www."@, a) { a.subrange(4, a.len() as int) } else { a };
    cut_at_slash(b)
}

/// The text before the first `/`.
pub open spec fn cut_at_slash(s: Seq<char>) -> Seq<char>
    decreases s.len(),
{
    if s.len() == 0 { s } else if s[0] == '/' { Seq::empty() } else { seq![s[0]] + cut_at_slash(s.drop_first()) }
}

/// The host key of an upstream target (see `upstream_host_spec`).
pub fn upstream_host(u: &str) -> (r: String)
    ensures
        r@ == upstream_host_spec(u@),
{
    proof {
        reveal_strlit("https://");
        reveal_strlit("http://");
        reveal_strlit("www.");
    }
    let v = chars_of(u);
    let a0: usize = if crate::text::starts_with(u, "https://") { 8 } else if crate::text::starts_with(u, "http://") { 7 } else { 0 };
    assert(a0 == 0 ==> v@.subrange(0, v@.len() as int) == v@);
    let a = string_of(&v, a0, v.len());
    let b0: usize = if crate::text::starts_with(a.as_str(), "www.") { 4 } else { 0 };
    let bv = chars_of(a.as_str());
    let mut end: usize = b0;
    assert(bv@.subrange(b0 as int, bv@.len() as int) == if b0 == 4 { bv@.subrange(4, bv@.len() as int) } else { bv@ });
    assert(cut_at_slash(bv@.subrange(b0 as int, bv@.len() as int)) == bv@.subrange(b0 as int, b0 as int) + cut_at_slash(bv@.subrange(b0 as int, bv@.len() as int)));
    while end < bv.len() && bv[end] != '/'
        invariant
            b0 <= end <= bv@.len(),
            cut_at_slash(bv@.subrange(b0 as int, bv@.len() as int)) == bv@.subrange(b0 as int, end as int) + cut_at_slash(bv@.subrange(end as int, bv@.len() as int)),
        decreases bv@.len() - end,
    {
        let ghost rest = bv@.subrange(end as int, bv@.len() as int);
        assert(rest.drop_first() == bv@.subrange(end + 1, bv@.len() as int));
        assert(bv@.subrange(b0 as int, end + 1) == bv@.subrange(b0 as int, end as int) + seq![rest[0]]);
        end = end + 1;
    }
    assert(cut_at_slash(bv@.subrange(end as int, bv@.len() as int)) == Seq::<char>::empty());
    string_of(&bv, b0, end)
}

} // verus!

verus! {

/// A stored blacklist entry.
#[derive(Clone, Debug)]
pub struct BlacklistEntry {
    pub id: i64,
    pub ip: String,
    pub reason: Option<String>,
    pub expires_at: i64,
    pub created_at: i64,
}

/// A historical metrics query.
#[derive(Clone, Debug)]
pub struct QueryMetricsRequest {
    pub start_time: i64,
    pub end_time: i64,
    pub listen_addr: Option<String>,
}

/// A paged query over stored request records.
#[derive(Clone, Debug)]
pub struct QueryRequestLogsRequest {
    pub start_time: i64,
    pub end_time: i64,
    pub listen_addr: Option<String>,
    pub upstream: Option<String>,
    pub request_path: Option<String>,
    pub client_ip: Option<String>,
    pub status_code: Option<i32>,
    pub page: i32,
    pub page_size: i32,
}

/// A dashboard query with its bucket size in seconds.
#[derive(Clone, Debug)]
pub struct DashboardStatsRequest {
    pub start_time: i64,
    pub end_time: i64,
    pub listen_addr: Option<String>,
    pub granularity_secs: i64,
}

/// One entry of a top list.
#[derive(Clone, Debug)]
pub struct TopListItem {
    pub item: String,
    pub count: i64,
}

/// One key with its count.
#[derive(Clone, Debug)]
pub struct KeyValue {
    pub key: String,
    pub value: i64,
}

/// State of the metrics store as reported to the shell.
#[derive(Clone, Debug)]
pub struct MetricsDBStatus {
    pub enabled: bool,
    pub initialized: bool,
    pub path: String,
    pub error: Option<String>,
    pub file_exists: bool,
    pub dir_exists: bool,
    pub dir_writable: bool,
    pub message: Option<String>,
}

/// The page window of a record query: the page size clamped to
/// `1..=200`, the page to at least 1, and the offset of that page.
pub fn page_window(page: i32, page_size: i32) -> (r: (i64, i64))
    ensures
        r.0 == if page_size < 1 { 1 } else if page_size > 200 { 200 } else { page_size as int },
        r.1 == ((if page < 1 { 1 } else { page as int }) - 1) * r.0,
{
    let size: i64 = if page_size < 1 { 1 } else if page_size > 200 { 200 } else { page_size as i64 };
    let p: i64 = if page < 1 { 1 } else { page as i64 };
    assert((p - 1) * size <= 0x7fff_ffff * 200) by (nonlinear_arith) requires 1 <= p <= 0x7fff_ffff, 1 <= size <= 200;
    assert((p - 1) * size >= 0) by (nonlinear_arith) requires 1 <= p, 1 <= size;
    (size, (p - 1) * size)
}

/// Number of pages for `total` records: 0 when there are none, else
/// `ceil(total / page_size)`.
pub fn total_pages(total: i64, page_size: i64) -> (r: i64)
    requires
        page_size >= 1,
        total >= 0,
    ensures
        total == 0 ==> r == 0,
        total > 0 ==> r as int == (total as int + page_size as int - 1) / (page_size as int),
{
    if total == 0 {
        0
    } else {
        let q = total / page_size;
        let rem = total % page_size;
        if rem != 0 {
            assert(q < 0x7fff_ffff_ffff_ffff) by (nonlinear_arith)
                requires q as int == total as int / page_size as int, rem as int == total as int % page_size as int,
                    rem != 0, page_size >= 1, total > 0;
        }
        let r = if rem == 0 { q } else { q + 1 };
        assert(r as int == (total as int + page_size as int - 1) / (page_size as int)) by (nonlinear_arith)
            requires q as int == total as int / page_size as int, rem as int == total as int % page_size as int,
                r as int == if rem == 0 { q as int } else { q as int + 1 }, page_size >= 1, total > 0;
        r
    }
}

/// Share of 2xx answers among all, in millionths (0 with no records).
pub fn success_rate_ppm(ok: u64, total: u64) -> (r: u64)
    requires
        ok <= total,
    ensures
        total == 0 ==> r == 0,
        total > 0 ==> r == (ok as int * 1_000_000) / total as int,
{
    if total == 0 {
        0
    } else {
        let v: u128 = ok as u128 * 1_000_000 / total as u128;
        assert(v <= 1_000_000) by (nonlinear_arith) requires v == (ok as int * 1_000_000) / total as int, ok <= total, total > 0;
        v as u64
    }
}

} // verus!

verus! {

/// The stored fields of one record that historical queries read.
#[derive(Clone, Debug)]
pub struct HistoryRow {
    pub timestamp: u64,
    pub status_code: i32,
    pub latency_us: u64,
    pub upstream: String,
    pub request_path: String,
}

/// How often `key` occurs among `keys`.
pub open spec fn occurrences(keys: Seq<Seq<char>>, key: Seq<char>) -> nat
    decreases keys.len(),
{
    if keys.len() == 0 {
        0
    } else {
        occurrences(keys.drop_last(), key) + if keys.last() == key { 1nat } else { 0nat }
    }
}

/// Counts each distinct key: one `(key, count)` per distinct key, in order
/// of first appearance.
pub fn count_keys(keys: &Vec<String>) -> (r: Vec<(String, u64)>)
    requires
        keys@.len() <= u64::MAX,
    ensures
        forall|i: int| 0 <= i < r@.len() ==> (#[trigger] r@[i]).1 as nat == occurrences(crate::lb::strs_of(keys@), r@[i].0@),
        forall|i: int, j: int| 0 <= i < j < r@.len() ==> (#[trigger] r@[i]).0@ != (#[trigger] r@[j]).0@,
        forall|k: int| 0 <= k < keys@.len() ==> exists|i: int| 0 <= i < r@.len() && (#[trigger] r@[i]).0@ == (#[trigger] keys@[k])@,
{
    let ghost kv = crate::lb::strs_of(keys@);
    let mut out: Vec<(String, u64)> = Vec::new();
    let mut n: usize = 0;
    while n < keys.len()
        invariant
            n <= keys@.len() <= u64::MAX,
            kv == crate::lb::strs_of(keys@),
            forall|i: int| 0 <= i < out@.len() ==> (#[trigger] out@[i]).1 as nat == occurrences(kv.subrange(0, n as int), out@[i].0@),
            forall|i: int, j: int| 0 <= i < j < out@.len() ==> (#[trigger] out@[i]).0@ != (#[trigger] out@[j]).0@,
            forall|k: int| 0 <= k < n ==> exists|i: int| 0 <= i < out@.len() && (#[trigger] out@[i]).0@ == (#[trigger] keys@[k])@,
            forall|i: int| 0 <= i < out@.len() ==> (#[trigger] out@[i]).1 <= n,
        decreases keys@.len() - n,
    {
        let key = &keys[n];
        let ghost prefix = kv.subrange(0, n as int);
        let ghost next = kv.subrange(0, n + 1);
        assert(next.drop_last() == prefix);
        assert(next.last() == key@);
        let mut i: usize = 0;
        let mut found = false;
        while i < out.len() && !found
            invariant
                i <= out@.len(),
                found ==> i < out@.len() && out@[i as int].0@ == key@,
                forall|j: int| 0 <= j < i ==> (#[trigger] out@[j]).0@ != key@,
            decreases out@.len() - i + (if found { 0int } else { 1int }),
        {
            if out[i].0 == *key {
                found = true;
            } else {
                i = i + 1;
            }
        }
        let ghost before = out@;
        if found {
            let c = out[i].1;
            let k = out[i].0.clone();
            out.set(i, (k, c + 1));
            assert forall|j: int| 0 <= j < out@.len() implies (#[trigger] out@[j]).1 as nat == occurrences(next, out@[j].0@) by {
                assert(occurrences(next, out@[j].0@) == occurrences(prefix, out@[j].0@) + if key@ == out@[j].0@ { 1nat } else { 0nat });
                if j != i {
                    assert(out@[j] == before[j]);
                    assert(before[j].0@ != before[i as int].0@);
                }
            }
            assert forall|a: int, b: int| 0 <= a < b < out@.len() implies (#[trigger] out@[a]).0@ != (#[trigger] out@[b]).0@ by {
                assert(out@[a].0@ == before[a].0@);
                assert(out@[b].0@ == before[b].0@);
            }
            assert forall|k2: int| 0 <= k2 < n + 1 implies exists|x: int| 0 <= x < out@.len() && (#[trigger] out@[x]).0@ == (#[trigger] keys@[k2])@ by {
                if k2 < n {
                    let x = choose|x: int| 0 <= x < before.len() && (#[trigger] before[x]).0@ == keys@[k2]@;
                    assert(out@[x].0@ == before[x].0@);
                } else {
                    assert(out@[i as int].0@ == keys@[k2]@);
                }
            }
        } else {
            out.push((key.clone(), 1));
            proof {
                assert forall|k2: int| 0 <= k2 < prefix.len() implies prefix[k2] != key@ by {
                    let x = choose|x: int| 0 <= x < before.len() && (#[trigger] before[x]).0@ == (#[trigger] keys@[k2])@;
                    assert(prefix[k2] == keys@[k2]@);
                    assert(before[x].0@ != key@);
                }
                lemma_occurrences_absent(prefix, key@);
            }
            assert forall|j: int| 0 <= j < out@.len() implies (#[trigger] out@[j]).1 as nat == occurrences(next, out@[j].0@) by {
                assert(occurrences(next, out@[j].0@) == occurrences(prefix, out@[j].0@) + if key@ == out@[j].0@ { 1nat } else { 0nat });
                if j < before.len() {
                    assert(out@[j] == before[j]);
                }
            }
            assert forall|a: int, b: int| 0 <= a < b < out@.len() implies (#[trigger] out@[a]).0@ != (#[trigger] out@[b]).0@ by {
                if b == before.len() {
                    assert(out@[a] == before[a]);
                } else {
                    assert(out@[a] == before[a]);
                    assert(out@[b] == before[b]);
                }
            }
            assert forall|k2: int| 0 <= k2 < n + 1 implies exists|x: int| 0 <= x < out@.len() && (#[trigger] out@[x]).0@ == (#[trigger] keys@[k2])@ by {
                if k2 < n {
                    let x = choose|x: int| 0 <= x < before.len() && (#[trigger] before[x]).0@ == keys@[k2]@;
                    assert(out@[x] == before[x]);
                } else {
                    assert(out@[before.len() as int].0@ == keys@[k2]@);
                }
            }
        }
        n = n + 1;
    }
    assert(kv.subrange(0, keys@.len() as int) == kv);
    out
}

proof fn lemma_occurrences_absent(keys: Seq<Seq<char>>, key: Seq<char>)
    requires
        forall|k: int| 0 <= k < keys.len() ==> keys[k] != key,
    ensures
        occurrences(keys, key) == 0,
    decreases keys.len(),
{
    if keys.len() > 0 {
        lemma_occurrences_absent(keys.drop_last(), key);
    }
}

} // verus!

verus! {

/// `x` placed after every entry whose count is not smaller (stable).
pub open spec fn insert_by_count(s: Seq<(String, u64)>, x: (String, u64)) -> Seq<(String, u64)>
    decreases s.len(),
{
    if s.len() == 0 || s.last().1 >= x.1 {
        s.push(x)
    } else {
        insert_by_count(s.drop_last(), x).push(s.last())
    }
}

/// `s` sorted by count, largest first, stable.
pub open spec fn sort_by_count(s: Seq<(String, u64)>) -> Seq<(String, u64)>
    decreases s.len(),
{
    if s.len() == 0 { s } else { insert_by_count(sort_by_count(s.drop_last()), s.last()) }
}

/// Counts never grow along `s`.
pub open spec fn count_sorted(s: Seq<(String, u64)>) -> bool {
    forall|i: int, j: int| 0 <= i < j < s.len() ==> (#[trigger] s[i]).1 >= (#[trigger] s[j]).1
}

proof fn lemma_insert_by_count(s: Seq<(String, u64)>, x: (String, u64))
    ensures
        forall|k: int| 0 <= k < insert_by_count(s, x).len() ==> s.contains(#[trigger] insert_by_count(s, x)[k]) || insert_by_count(s, x)[k] == x,
        insert_by_count(s, x).len() == s.len() + 1,
        count_sorted(s) ==> count_sorted(insert_by_count(s, x)),
    decreases s.len(),
{
    let r = insert_by_count(s, x);
    if s.len() == 0 || s.last().1 >= x.1 {
        assert forall|k: int| 0 <= k < r.len() implies s.contains(#[trigger] r[k]) || r[k] == x by {
            if k < s.len() {
                assert(r[k] == s[k]);
            }
        }
    } else {
        let d = s.drop_last();
        lemma_insert_by_count(d, x);
        let inner = insert_by_count(d, x);
        assert forall|k: int| 0 <= k < r.len() implies s.contains(#[trigger] r[k]) || r[k] == x by {
            if k < inner.len() {
                assert(r[k] == inner[k]);
                if d.contains(inner[k]) {
                    let w = choose|w: int| 0 <= w < d.len() && d[w] == inner[k];
                    assert(s[w] == inner[k]);
                }
            } else {
                assert(r[k] == s.last());
                assert(s[s.len() - 1] == s.last());
            }
        }
        if count_sorted(s) {
            assert(count_sorted(d)) by {
                assert forall|i: int, j: int| 0 <= i < j < d.len() implies (#[trigger] d[i]).1 >= (#[trigger] d[j]).1 by {
                    assert(d[i] == s[i] && d[j] == s[j]);
                }
            }
            assert forall|i: int, j: int| 0 <= i < j < r.len() implies (#[trigger] r[i]).1 >= (#[trigger] r[j]).1 by {
                if j == r.len() - 1 {
                    assert(r[j] == s.last());
                    assert(r[i] == inner[i]);
                    if inner[i] == x {
                    } else {
                        let w = choose|w: int| 0 <= w < d.len() && d[w] == inner[i];
                        assert(s[w] == d[w]);
                        assert(s[w].1 >= s[s.len() - 1].1);
                    }
                } else {
                    assert(r[i] == inner[i] && r[j] == inner[j]);
                }
            }
        }
    }
}

proof fn lemma_sort_by_count(s: Seq<(String, u64)>)
    ensures
        count_sorted(sort_by_count(s)),
        sort_by_count(s).len() == s.len(),
        forall|k: int| 0 <= k < sort_by_count(s).len() ==> s.contains(#[trigger] sort_by_count(s)[k]),
    decreases s.len(),
{
    if s.len() > 0 {
        lemma_sort_by_count(s.drop_last());
        let inner = sort_by_count(s.drop_last());
        lemma_insert_by_count(inner, s.last());
        let r = sort_by_count(s);
        assert forall|k: int| 0 <= k < r.len() implies s.contains(#[trigger] r[k]) by {
            if r[k] == s.last() {
                assert(s[s.len() - 1] == s.last());
            } else {
                let w = choose|w: int| 0 <= w < inner.len() && inner[w] == r[k];
                let w2 = choose|w2: int| 0 <= w2 < s.drop_last().len() && s.drop_last()[w2] == inner[w];
                assert(s[w2] == s.drop_last()[w2]);
            }
        }
    }
}

/// No two entries share a key.
pub open spec fn keys_distinct(s: Seq<(String, u64)>) -> bool {
    forall|a: int, b: int| 0 <= a < s.len() && 0 <= b < s.len() && a != b ==> (#[trigger] s[a]).0@ != (#[trigger] s[b]).0@
}

proof fn lemma_insert_keeps(s: Seq<(String, u64)>, x: (String, u64))
    ensures
        insert_by_count(s, x).contains(x),
        forall|k: int| 0 <= k < s.len() ==> insert_by_count(s, x).contains(#[trigger] s[k]),
    decreases s.len(),
{
    let r = insert_by_count(s, x);
    if s.len() == 0 || s.last().1 >= x.1 {
        assert(r[s.len() as int] == x);
        assert forall|k: int| 0 <= k < s.len() implies r.contains(#[trigger] s[k]) by {
            assert(r[k] == s[k]);
        }
    } else {
        let d = s.drop_last();
        lemma_insert_keeps(d, x);
        let inner = insert_by_count(d, x);
        let w = choose|w: int| 0 <= w < inner.len() && inner[w] == x;
        assert(r[w] == inner[w]);
        assert forall|k: int| 0 <= k < s.len() implies r.contains(#[trigger] s[k]) by {
            if k < d.len() {
                assert(d[k] == s[k]);
                let w2 = choose|w2: int| 0 <= w2 < inner.len() && inner[w2] == d[k];
                assert(r[w2] == inner[w2]);
            } else {
                assert(r[inner.len() as int] == s[k]);
            }
        }
    }
}

proof fn lemma_sort_keeps(s: Seq<(String, u64)>)
    ensures
        forall|k: int| 0 <= k < s.len() ==> sort_by_count(s).contains(#[trigger] s[k]),
    decreases s.len(),
{
    if s.len() > 0 {
        let d = s.drop_last();
        lemma_sort_keeps(d);
        lemma_insert_keeps(sort_by_count(d), s.last());
        assert forall|k: int| 0 <= k < s.len() implies sort_by_count(s).contains(#[trigger] s[k]) by {
            if k < d.len() {
                assert(d[k] == s[k]);
                let w = choose|w: int| 0 <= w < sort_by_count(d).len() && sort_by_count(d)[w] == d[k];
                assert(sort_by_count(d).contains(sort_by_count(d)[w]));
            }
        }
    }
}

proof fn lemma_sort_distinct(s: Seq<(String, u64)>)
    requires
        keys_distinct(s),
    ensures
        keys_distinct(sort_by_count(s)),
    decreases s.len(),
{
    if s.len() > 0 {
        let d = s.drop_last();
        assert(keys_distinct(d)) by {
            assert forall|a: int, b: int| 0 <= a < d.len() && 0 <= b < d.len() && a != b implies (#[trigger] d[a]).0@ != (#[trigger] d[b]).0@ by {
                assert(d[a] == s[a] && d[b] == s[b]);
            }
        }
        lemma_sort_distinct(d);
        lemma_sort_by_count(d);
        let sd = sort_by_count(d);
        let x = s.last();
        assert forall|k: int| 0 <= k < sd.len() implies (#[trigger] sd[k]).0@ != x.0@ by {
            let w = choose|w: int| 0 <= w < d.len() && d[w] == sd[k];
            assert(d[w] == s[w]);
            assert(s[s.len() - 1] == x);
        }
        lemma_insert_distinct(sd, x);
    }
}

proof fn lemma_insert_distinct(s: Seq<(String, u64)>, x: (String, u64))
    requires
        keys_distinct(s),
        forall|k: int| 0 <= k < s.len() ==> (#[trigger] s[k]).0@ != x.0@,
    ensures
        keys_distinct(insert_by_count(s, x)),
    decreases s.len(),
{
    lemma_insert_by_count(s, x);
    let r = insert_by_count(s, x);
    if s.len() == 0 || s.last().1 >= x.1 {
        assert forall|a: int, b: int| 0 <= a < r.len() && 0 <= b < r.len() && a != b implies (#[trigger] r[a]).0@ != (#[trigger] r[b]).0@ by {
            if a < s.len() && b < s.len() {
                assert(r[a] == s[a] && r[b] == s[b]);
            } else if a < s.len() {
                assert(r[a] == s[a] && r[b] == x);
            } else {
                assert(r[b] == s[b] && r[a] == x);
            }
        }
    } else {
        let d = s.drop_last();
        assert(keys_distinct(d)) by {
            assert forall|a: int, b: int| 0 <= a < d.len() && 0 <= b < d.len() && a != b implies (#[trigger] d[a]).0@ != (#[trigger] d[b]).0@ by {
                assert(d[a] == s[a] && d[b] == s[b]);
            }
        }
        assert forall|k: int| 0 <= k < d.len() implies (#[trigger] d[k]).0@ != x.0@ by {
            assert(d[k] == s[k]);
        }
        lemma_insert_distinct(d, x);
        lemma_insert_by_count(d, x);
        let inner = insert_by_count(d, x);
        let last = s.last();
        assert forall|k: int| 0 <= k < inner.len() implies (#[trigger] inner[k]).0@ != last.0@ by {
            if inner[k] != x {
                let w = choose|w: int| 0 <= w < d.len() && d[w] == inner[k];
                assert(d[w] == s[w]);
                assert(s[s.len() - 1] == last);
            } else {
                assert(s[s.len() - 1] == last);
            }
        }
        assert forall|a: int, b: int| 0 <= a < r.len() && 0 <= b < r.len() && a != b implies (#[trigger] r[a]).0@ != (#[trigger] r[b]).0@ by {
            if a < inner.len() && b < inner.len() {
                assert(r[a] == inner[a] && r[b] == inner[b]);
            } else if a < inner.len() {
                assert(r[a] == inner[a] && r[b] == last);
            } else {
                assert(r[b] == inner[b] && r[a] == last);
            }
        }
    }
}

fn insert_by_count_exec(s: &mut Vec<(String, u64)>, x: (String, u64))
    ensures
        final(s)@ == insert_by_count(old(s)@, x),
{
    let ghost sv = s@;
    let mut i: usize = s.len();
    assert(sv.subrange(0, sv.len() as int) == sv);
    assert(insert_by_count(sv, x) == insert_by_count(sv.subrange(0, sv.len() as int), x) + sv.subrange(sv.len() as int, sv.len() as int));
    while i > 0 && s[i - 1].1 < x.1
        invariant
            i <= s@.len(),
            s@ == sv,
            insert_by_count(sv, x) == insert_by_count(sv.subrange(0, i as int), x) + sv.subrange(i as int, sv.len() as int),
        decreases i,
    {
        let ghost pre = sv.subrange(0, i as int);
        assert(pre.drop_last() == sv.subrange(0, i - 1));
        assert(pre.last() == sv[i - 1]);
        assert(sv.subrange(i - 1, sv.len() as int) == seq![sv[i - 1]] + sv.subrange(i as int, sv.len() as int));
        assert(insert_by_count(pre.drop_last(), x).push(pre.last()) + sv.subrange(i as int, sv.len() as int)
            =~= insert_by_count(pre.drop_last(), x) + sv.subrange(i - 1, sv.len() as int));
        i = i - 1;
    }
    let ghost pre = sv.subrange(0, i as int);
    assert(insert_by_count(pre, x) == pre.push(x));
    s.insert(i, x);
    assert(s@ =~= pre.push(x) + sv.subrange(i as int, sv.len() as int));
}

/// The first `n` entries by count, largest first (stable among equals).
pub fn top_n(counts: Vec<(String, u64)>, n: usize) -> (r: Vec<(String, u64)>)
    ensures
        ({
            let sorted = sort_by_count(counts@);
            r@ == sorted.subrange(0, if n < sorted.len() { n as int } else { sorted.len() as int })
        }),
        r@.len() <= n,
        count_sorted(r@),
        forall|k: int| 0 <= k < r@.len() ==> counts@.contains(#[trigger] r@[k]),
{
    proof {
        lemma_sort_by_count(counts@);
    }
    let mut sorted: Vec<(String, u64)> = Vec::new();
    let mut i: usize = 0;
    let ghost c = counts@;
    assert(sorted@ =~= sort_by_count(c.subrange(0, 0)));
    while i < counts.len()
        invariant
            i <= c.len(),
            c == counts@,
            sorted@ == sort_by_count(c.subrange(0, i as int)),
        decreases c.len() - i,
    {
        assert(c.subrange(0, i + 1).drop_last() == c.subrange(0, i as int));
        let x = (counts[i].0.clone(), counts[i].1);
        assert(x == c[i as int]);
        insert_by_count_exec(&mut sorted, x);
        i = i + 1;
    }
    assert(c.subrange(0, c.len() as int) == c);
    let mut r: Vec<(String, u64)> = Vec::new();
    let k = if n < sorted.len() { n } else { sorted.len() };
    let mut j: usize = 0;
    while j < k
        invariant
            j <= k <= sorted@.len(),
            r@ == sorted@.subrange(0, j as int),
        decreases k - j,
    {
        r.push((sorted[j].0.clone(), sorted[j].1));
        j = j + 1;
        assert(r@ =~= sorted@.subrange(0, j as int));
    }
    proof {
        let sv = sort_by_count(counts@);
        assert forall|k: int| 0 <= k < r@.len() implies counts@.contains(#[trigger] r@[k]) by {
            assert(r@[k] == sv[k]);
        }
        assert forall|a: int, b: int| 0 <= a < b < r@.len() implies (#[trigger] r@[a]).1 >= (#[trigger] r@[b]).1 by {
            assert(r@[a] == sv[a] && r@[b] == sv[b]);
        }
    }
    r
}

/// The `n` most frequent keys with their counts (see `top_list_ok`).
pub fn top_list(keys: &Vec<String>, n: usize) -> (r: Vec<(String, u64)>)
    requires
        keys@.len() <= u64::MAX,
    ensures
        top_list_ok(r@, crate::lb::strs_of(keys@), n as nat),
{
    let counts = count_keys(keys);
    let ghost c = counts@;
    let ghost kv = crate::lb::strs_of(keys@);
    let r = top_n(counts, n);
    proof {
        assert forall|k: int| 0 <= k < r@.len() implies (#[trigger] r@[k]).1 as nat == occurrences(kv, r@[k].0@) by {
            let w = choose|w: int| 0 <= w < c.len() && c[w] == r@[k];
            assert(c[w].1 as nat == occurrences(kv, c[w].0@));
        }
        assert(keys_distinct(c));
        lemma_sort_distinct(c);
        lemma_sort_keeps(c);
        lemma_sort_by_count(c);
        let sorted = sort_by_count(c);
        let take = if n < sorted.len() { n as int } else { sorted.len() as int };
        assert forall|a: int, b: int| 0 <= a < r@.len() && 0 <= b < r@.len() && a != b implies (#[trigger] r@[a]).0@ != (#[trigger] r@[b]).0@ by {
            assert(r@[a] == sorted[a] && r@[b] == sorted[b]);
        }
        assert forall|k: int| 0 <= k < kv.len() implies (exists|i: int| 0 <= i < r@.len() && (#[trigger] r@[i]).0@ == #[trigger] kv[k])
            || (r@.len() == n && (n == 0 || occurrences(kv, kv[k]) <= r@[n - 1].1)) by {
            assert(kv[k] == keys@[k]@);
            let w = choose|w: int| 0 <= w < c.len() && (#[trigger] c[w]).0@ == keys@[k]@;
            assert(c.contains(c[w]));
            let p = choose|p: int| 0 <= p < sorted.len() && sorted[p] == c[w];
            if p < take {
                assert(r@[p] == sorted[p]);
            } else {
                assert(take == n);
                if n > 0 {
                    assert(r@[n - 1] == sorted[n - 1]);
                    assert(sorted[n - 1].1 >= sorted[p].1);
                }
            }
        }
    }
    r
}

/// The twelve-bucket latency histogram of some rows.
pub open spec fn histogram_of(rows: Seq<HistoryRow>, n: nat) -> Seq<u64>
    decreases n,
{
    if n == 0 {
        Seq::new(12, |i: int| 0u64)
    } else {
        let h = histogram_of(rows, (n - 1) as nat);
        let b = latency_bucket_spec(rows[n - 1].latency_us);
        h.update(b, (h[b] + 1) as u64)
    }
}

/// The bucketed series of some rows: each counted at `(ts / gran) * gran`.
pub open spec fn history_series(rows: Seq<HistoryRow>, gran: u64, n: nat) -> Seq<crate::metrics::RtBucket>
    decreases n,
{
    if n == 0 {
        Seq::empty()
    } else {
        let r = rows[n - 1];
        crate::metrics::series_added(history_series(rows, gran, (n - 1) as nat), ((r.timestamp / gran) * gran) as u64, r.status_code, r.latency_us)
    }
}

/// The upstream host of every row.
pub open spec fn host_keys(rows: Seq<HistoryRow>, n: nat) -> Seq<Seq<char>>
    decreases n,
{
    if n == 0 { Seq::empty() } else { host_keys(rows, (n - 1) as nat).push(upstream_host_spec(rows[n - 1].upstream@)) }
}

/// The path of every row with status 400 or above.
pub open spec fn error_paths(rows: Seq<HistoryRow>, n: nat) -> Seq<Seq<char>>
    decreases n,
{
    if n == 0 {
        Seq::empty()
    } else {
        let p = error_paths(rows, (n - 1) as nat);
        if rows[n - 1].status_code >= 400 { p.push(rows[n - 1].request_path@) } else { p }
    }
}

/// The upstream of every row with status 400 or above.
pub open spec fn error_upstreams(rows: Seq<HistoryRow>, n: nat) -> Seq<Seq<char>>
    decreases n,
{
    if n == 0 {
        Seq::empty()
    } else {
        let p = error_upstreams(rows, (n - 1) as nat);
        if rows[n - 1].status_code >= 400 { p.push(rows[n - 1].upstream@) } else { p }
    }
}

/// A top list: at most `n` entries with distinct keys, counts not
/// growing, each the number of occurrences of its key among `keys`; a key
/// left out only when the list is full and it occurs no more often than the
/// last entry kept.
pub open spec fn top_list_ok(t: Seq<(String, u64)>, keys: Seq<Seq<char>>, n: nat) -> bool {
    &&& t.len() <= n
    &&& count_sorted(t)
    &&& keys_distinct(t)
    &&& forall|k: int| 0 <= k < t.len() ==> (#[trigger] t[k]).1 as nat == occurrences(keys, t[k].0@)
    &&& forall|k: int| 0 <= k < keys.len() ==> (exists|i: int| 0 <= i < t.len() && (#[trigger] t[i]).0@ == #[trigger] keys[k])
        || (t.len() == n && (n == 0 || occurrences(keys, keys[k]) <= t[n - 1].1))
}

/// The result of a historical query over rows already selected by time
/// (and listen address).
#[derive(Clone, Debug)]
pub struct HistoryResult {
    pub series: crate::metrics::RtSeriesAgg,
    pub latency_hist: Vec<u64>,
    pub p50_e1: u64,
    pub p95_e1: u64,
    pub p99_e1: u64,
    pub upstream_dist: Vec<(String, u64)>,
    pub top_route_err: Vec<(String, u64)>,
    pub top_up_err: Vec<(String, u64)>,
}

/// Aggregates the rows of a historical query with bucket size `gran`: the
/// bucketed series, the latency histogram and the percentiles estimated
/// from it, and the top lists (upstream hosts 20, error paths 10, error
/// upstreams 10, errors being status 400 and above).
pub fn aggregate_history(rows: &Vec<HistoryRow>, gran: u64) -> (r: HistoryResult)
    requires
        gran >= 1,
        rows@.len() <= u32::MAX,
    ensures
        r.series.wf(),
        r.series.buckets@ == history_series(rows@, gran, rows@.len()),
        r.latency_hist@ == histogram_of(rows@, rows@.len()),
        r.p50_e1 == percentile_spec(r.latency_hist@, 500),
        r.p95_e1 == percentile_spec(r.latency_hist@, 950),
        r.p99_e1 == percentile_spec(r.latency_hist@, 990),
        top_list_ok(r.upstream_dist@, host_keys(rows@, rows@.len()), 20),
        top_list_ok(r.top_route_err@, error_paths(rows@, rows@.len()), 10),
        top_list_ok(r.top_up_err@, error_upstreams(rows@, rows@.len()), 10),
{
    let mut series = crate::metrics::RtSeriesAgg::new();
    let mut hist: Vec<u64> = vec![0u64; 12];
    let mut hosts: Vec<String> = Vec::new();
    let mut err_paths: Vec<String> = Vec::new();
    let mut err_ups: Vec<String> = Vec::new();
    let mut i: usize = 0;
    assert(hist@ =~= histogram_of(rows@, 0));
    while i < rows.len()
        invariant
            i <= rows@.len() <= u32::MAX,
            gran >= 1,
            series.wf(),
            series.buckets@ == history_series(rows@, gran, i as nat),
            hist@ == histogram_of(rows@, i as nat),
            hist@.len() == 12,
            forall|k: int| 0 <= k < 12 ==> #[trigger] hist@[k] <= i,
            hosts@.len() <= i && err_paths@.len() <= i && err_ups@.len() <= i,
            crate::lb::strs_of(hosts@) == host_keys(rows@, i as nat),
            crate::lb::strs_of(err_paths@) == error_paths(rows@, i as nat),
            crate::lb::strs_of(err_ups@) == error_upstreams(rows@, i as nat),
        decreases rows@.len() - i,
    {
        let row = &rows[i];
        let b = bucket_of(row.timestamp, gran);
        series.add(b, row.status_code, row.latency_us);
        let lb = latency_bucket(row.latency_us);
        let ghost old_h = hist@;
        hist.set(lb, hist[lb] + 1);
        assert forall|k: int| 0 <= k < 12 implies #[trigger] hist@[k] <= i + 1 by {
            assert(old_h[k] <= i);
        }
        hosts.push(upstream_host(row.upstream.as_str()));
        assert(crate::lb::strs_of(hosts@) =~= host_keys(rows@, (i + 1) as nat));
        if row.status_code >= 400 {
            err_paths.push(row.request_path.clone());
            err_ups.push(row.upstream.clone());
        }
        assert(crate::lb::strs_of(err_paths@) =~= error_paths(rows@, (i + 1) as nat));
        assert(crate::lb::strs_of(err_ups@) =~= error_upstreams(rows@, (i + 1) as nat));
        i = i + 1;
    }
    let p50 = estimate_percentile(&hist, 500);
    let p95 = estimate_percentile(&hist, 950);
    let p99 = estimate_percentile(&hist, 990);
    let upstream_dist = top_list(&hosts, 20);
    let top_route_err = top_list(&err_paths, 10);
    let top_up_err = top_list(&err_ups, 10);
    HistoryResult {
        series,
        latency_hist: hist,
        p50_e1: p50,
        p95_e1: p95,
        p99_e1: p99,
        upstream_dist,
        top_route_err,
        top_up_err,
    }
}

} // verus!

verus! {

/// The stored fields of one record that dashboard queries read.
#[derive(Clone, Debug)]
pub struct DashboardRow {
    pub timestamp: u64,
    pub status_code: i32,
    pub latency_us: u64,
    pub request_path: String,
    pub client_ip: String,
    pub matched_route_id: String,
}

/// Dashboard statistics over the rows of a time range.
#[derive(Clone, Debug)]
pub struct DashboardStats {
    pub series: crate::metrics::RtSeriesAgg,
    pub total: u64,
    pub success: u64,
    pub success_ppm: u64,
    pub top_paths: Vec<(String, u64)>,
    pub top_ips: Vec<(String, u64)>,
    pub top_routes: Vec<(String, u64)>,
    pub top_err_routes: Vec<(String, u64)>,
}

/// The bucketed series of dashboard rows: each counted at
/// `(ts / gran) * gran`.
pub open spec fn dash_series(rows: Seq<DashboardRow>, gran: u64, n: nat) -> Seq<crate::metrics::RtBucket>
    decreases n,
{
    if n == 0 {
        Seq::empty()
    } else {
        let r = rows[n - 1];
        crate::metrics::series_added(dash_series(rows, gran, (n - 1) as nat), ((r.timestamp / gran) * gran) as u64, r.status_code, r.latency_us)
    }
}

/// Number of rows with a 2xx status.
pub open spec fn success_count(rows: Seq<DashboardRow>, n: nat) -> nat
    decreases n,
{
    if n == 0 {
        0
    } else {
        success_count(rows, (n - 1) as nat) + if 200 <= rows[n - 1].status_code < 300 { 1nat } else { 0nat }
    }
}

/// The request paths of the rows.
pub open spec fn path_keys(rows: Seq<DashboardRow>, n: nat) -> Seq<Seq<char>>
    decreases n,
{
    if n == 0 { Seq::empty() } else { path_keys(rows, (n - 1) as nat).push(rows[n - 1].request_path@) }
}

/// The client addresses of the rows.
pub open spec fn ip_keys(rows: Seq<DashboardRow>, n: nat) -> Seq<Seq<char>>
    decreases n,
{
    if n == 0 { Seq::empty() } else { ip_keys(rows, (n - 1) as nat).push(rows[n - 1].client_ip@) }
}

/// The matched route ids of the rows whose id is not blank, of all rows or
/// (with `errors`) of those with status 400 and above.
pub open spec fn route_keys(rows: Seq<DashboardRow>, n: nat, errors: bool) -> Seq<Seq<char>>
    decreases n,
{
    if n == 0 {
        Seq::empty()
    } else {
        let p = route_keys(rows, (n - 1) as nat, errors);
        let r = rows[n - 1];
        if crate::text::trim_spec(r.matched_route_id@).len() > 0 && (!errors || r.status_code >= 400) {
            p.push(r.matched_route_id@)
        } else {
            p
        }
    }
}

/// Dashboard statistics with bucket size `gran`: the bucketed series (per
/// bucket count, status classes and latency), the total, the 2xx count and
/// its share in millionths, and the top ten paths, client addresses, route
/// ids, and route ids among errors (blank ids left out).
pub fn dashboard_stats(rows: &Vec<DashboardRow>, gran: u64) -> (r: DashboardStats)
    requires
        gran >= 1,
        rows@.len() <= u32::MAX,
    ensures
        r.series.wf(),
        r.series.buckets@ == dash_series(rows@, gran, rows@.len()),
        r.total == rows@.len(),
        r.success == success_count(rows@, rows@.len()),
        r.total == 0 ==> r.success_ppm == 0,
        r.total > 0 ==> r.success_ppm == (r.success as int * 1_000_000) / r.total as int,
        top_list_ok(r.top_paths@, path_keys(rows@, rows@.len()), 10),
        top_list_ok(r.top_ips@, ip_keys(rows@, rows@.len()), 10),
        top_list_ok(r.top_routes@, route_keys(rows@, rows@.len(), false), 10),
        top_list_ok(r.top_err_routes@, route_keys(rows@, rows@.len(), true), 10),
{
    let mut series = crate::metrics::RtSeriesAgg::new();
    let mut ok: u64 = 0;
    let mut paths: Vec<String> = Vec::new();
    let mut ips: Vec<String> = Vec::new();
    let mut routes: Vec<String> = Vec::new();
    let mut err_routes: Vec<String> = Vec::new();
    let mut i: usize = 0;
    while i < rows.len()
        invariant
            i <= rows@.len() <= u32::MAX,
            gran >= 1,
            series.wf(),
            series.buckets@ == dash_series(rows@, gran, i as nat),
            ok == success_count(rows@, i as nat),
            ok <= i,
            paths@.len() <= i && ips@.len() <= i && routes@.len() <= i && err_routes@.len() <= i,
            crate::lb::strs_of(paths@) == path_keys(rows@, i as nat),
            crate::lb::strs_of(ips@) == ip_keys(rows@, i as nat),
            crate::lb::strs_of(routes@) == route_keys(rows@, i as nat, false),
            crate::lb::strs_of(err_routes@) == route_keys(rows@, i as nat, true),
        decreases rows@.len() - i,
    {
        let row = &rows[i];
        series.add(bucket_of(row.timestamp, gran), row.status_code, row.latency_us);
        if 200 <= row.status_code && row.status_code < 300 {
            ok = ok + 1;
        }
        paths.push(row.request_path.clone());
        ips.push(row.client_ip.clone());
        assert(crate::lb::strs_of(paths@) =~= path_keys(rows@, (i + 1) as nat));
        assert(crate::lb::strs_of(ips@) =~= ip_keys(rows@, (i + 1) as nat));
        if crate::text::trim(row.matched_route_id.as_str()).unicode_len() > 0 {
            routes.push(row.matched_route_id.clone());
            if row.status_code >= 400 {
                err_routes.push(row.matched_route_id.clone());
            }
        }
        assert(crate::lb::strs_of(routes@) =~= route_keys(rows@, (i + 1) as nat, false));
        assert(crate::lb::strs_of(err_routes@) =~= route_keys(rows@, (i + 1) as nat, true));
        i = i + 1;
    }
    let total = rows.len() as u64;
    let success_ppm = success_rate_ppm(ok, total);
    DashboardStats {
        series,
        total,
        success: ok,
        success_ppm,
        top_paths: top_list(&paths, 10),
        top_ips: top_list(&ips, 10),
        top_routes: top_list(&routes, 10),
        top_err_routes: top_list(&err_routes, 10),
    }
}

} // verus!
