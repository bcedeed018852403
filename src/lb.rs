//! Smooth weighted round-robin selection of HTTP upstreams, with state kept
//! per route.
use vstd::prelude::*;
use crate::config::{Route, Upstream};
use crate::text::{push_str, signed_decimal_spec, i64_to_decimal, trim, trim_spec};

verus! {

/// `a + b` clamped to the range of `i64`.
pub open spec fn sat_add(a: int, b: int) -> int {
    if a + b > i64::MAX {
        i64::MAX as int
    } else if a + b < i64::MIN {
        i64::MIN as int
    } else {
        a + b
    }
}

/// Index of the first maximum among `s[0..n]` (0 when `n <= 1`).
pub open spec fn argmax_first(s: Seq<int>, n: nat) -> nat
    decreases n,
{
    if n <= 1 {
        0
    } else {
        let b = argmax_first(s, (n - 1) as nat);
        if s[n - 1] > s[b as int] {
            (n - 1) as nat
        } else {
            b
        }
    }
}

/// The accumulators after each one has gained its weight.
pub open spec fn added(cur: Seq<int>, w: Seq<int>) -> Seq<int> {
    Seq::new(cur.len(), |i: int| sat_add(cur[i], w[i]))
}

/// The upstream that one selection step picks.
pub open spec fn swrr_pick(cur: Seq<int>, w: Seq<int>) -> nat {
    argmax_first(added(cur, w), cur.len())
}

/// The accumulators after one selection step with total weight `t`.
pub open spec fn swrr_next(cur: Seq<int>, w: Seq<int>, t: int) -> Seq<int> {
    let a = added(cur, w);
    let p = swrr_pick(cur, w) as int;
    a.update(p, sat_add(a[p], -t))
}

/// Accumulators and per-upstream pick counts after `k` selection steps.
pub open spec fn swrr_run(cur: Seq<int>, w: Seq<int>, t: int, k: nat) -> (Seq<int>, Seq<int>)
    decreases k,
{
    if k == 0 {
        (cur, Seq::new(cur.len(), |i: int| 0int))
    } else {
        let prev = swrr_run(cur, w, t, (k - 1) as nat);
        let p = swrr_pick(prev.0, w) as int;
        (swrr_next(prev.0, w, t), prev.1.update(p, prev.1[p] + 1))
    }
}

/// Sum of a sequence of integers.
pub open spec fn seq_sum(s: Seq<int>) -> int
    decreases s.len(),
{
    if s.len() == 0 {
        0
    } else {
        seq_sum(s.drop_last()) + s.last()
    }
}

/// The weights that a route's upstreams take part with: each at least 1.
pub open spec fn clamped_weights(ups: Seq<Upstream>) -> Seq<int> {
    Seq::new(ups.len(), |i: int| if ups[i].weight < 1 { 1int } else { ups[i].weight as int })
}

/// The text `url#weight` of one upstream.
pub open spec fn entry_spec(u: Upstream) -> Seq<char> {
    u.url@ + seq!['#'] + signed_decimal_spec(u.weight as int)
}

/// Lexicographic order on texts.
pub open spec fn lex_le(a: Seq<char>, b: Seq<char>) -> bool
    decreases a.len(),
{
    if a.len() == 0 {
        true
    } else if b.len() == 0 {
        false
    } else if a[0] != b[0] {
        (a[0] as u32) < (b[0] as u32)
    } else {
        lex_le(a.drop_first(), b.drop_first())
    }
}

/// `x` inserted into the sorted `s` before its first element greater than `x`.
pub open spec fn insert_sorted(s: Seq<Seq<char>>, x: Seq<char>) -> Seq<Seq<char>>
    decreases s.len(),
{
    if s.len() == 0 {
        seq![x]
    } else if !lex_le(s[0], x) {
        seq![x] + s
    } else {
        seq![s[0]] + insert_sorted(s.drop_first(), x)
    }
}

/// `s` sorted by insertion.
pub open spec fn sort_spec(s: Seq<Seq<char>>) -> Seq<Seq<char>>
    decreases s.len(),
{
    if s.len() == 0 {
        s
    } else {
        insert_sorted(sort_spec(s.drop_last()), s.last())
    }
}

/// The texts of `s` joined by `|`.
pub open spec fn join_bar(s: Seq<Seq<char>>) -> Seq<char>
    decreases s.len(),
{
    if s.len() == 0 {
        Seq::empty()
    } else if s.len() == 1 {
        s[0]
    } else {
        join_bar(s.drop_last()) + seq!['|'] + s.last()
    }
}

/// The fingerprint of a route's upstream list: the sorted `url#weight`
/// entries joined by `|`; it does not depend on the order of the list.
pub open spec fn signature_spec(ups: Seq<Upstream>) -> Seq<char> {
    join_bar(sort_spec(ups.map_values(|u: Upstream| entry_spec(u))))
}

/// The views of a sequence of texts.
pub open spec fn strs_of(v: Seq<String>) -> Seq<Seq<char>> {
    v.map_values(|u: String| u@)
}

/// A sequence of `i64` as integers.
pub open spec fn ints_of(v: Seq<i64>) -> Seq<int> {
    v.map_values(|x: i64| x as int)
}

/// The urls of an upstream list.
pub open spec fn upstream_urls(ups: Seq<Upstream>) -> Seq<Seq<char>> {
    ups.map_values(|u: Upstream| u.url@)
}

/// A route's balancing state as mathematical values: signature, total
/// weight, urls, weights and accumulators.
pub type LbModel = (Seq<char>, int, Seq<Seq<char>>, Seq<int>, Seq<int>);

/// The state freshly built for the upstream list `ups`: clamped weights,
/// accumulators at zero.
pub open spec fn fresh_model(ups: Seq<Upstream>) -> LbModel {
    let w = clamped_weights(ups);
    (
        signature_spec(ups),
        if seq_sum(w) < 1 { 1 } else { seq_sum(w) },
        upstream_urls(ups),
        w,
        Seq::new(ups.len(), |i: int| 0int),
    )
}

/// The state after one selection step.
pub open spec fn stepped(m: LbModel) -> LbModel {
    (m.0, m.1, m.2, m.3, swrr_next(m.4, m.3, m.1))
}

/// The url that one selection step returns.
pub open spec fn picked_url(m: LbModel) -> Seq<char> {
    m.2[swrr_pick(m.4, m.3) as int]
}

/// The state that selection starts from: the kept one while it was built
/// for the same upstream list, else a fresh one.
pub open spec fn base_model(old: Option<LbModel>, ups: Seq<Upstream>) -> LbModel {
    match old {
        Some(m) => if m.0 == signature_spec(ups) && m.2.len() == ups.len() {
            m
        } else {
            fresh_model(ups)
        },
        None => fresh_model(ups),
    }
}

/// The balancing state of one route.
#[derive(Debug)]
pub struct SmoothLbState {
    pub signature: String,
    pub total_weight: i64,
    pub urls: Vec<String>,
    pub weights: Vec<i64>,
    pub currents: Vec<i64>,
}

impl SmoothLbState {
    pub open spec fn model(&self) -> LbModel {
        (
            self.signature@,
            self.total_weight as int,
            strs_of(self.urls@),
            ints_of(self.weights@),
            ints_of(self.currents@),
        )
    }

    /// The three vectors have one entry per upstream.
    pub open spec fn wf(&self) -> bool {
        &&& self.urls@.len() == self.weights@.len()
        &&& self.urls@.len() == self.currents@.len()
        &&& self.total_weight >= 1
    }
}

/// Looks `id` up among the per-route states (first match).
pub open spec fn find_state(s: Seq<(String, SmoothLbState)>, id: Seq<char>) -> Option<LbModel>
    decreases s.len(),
{
    if s.len() == 0 {
        None
    } else if s[0].0@ == id {
        Some(s[0].1.model())
    } else {
        find_state(s.drop_first(), id)
    }
}

/// Balancing state of every route, by route id.
pub struct LoadBalancer {
    pub states: Vec<(String, SmoothLbState)>,
}

impl LoadBalancer {
    /// The state kept for route `id`, if any.
    pub open spec fn lookup(&self, id: Seq<char>) -> Option<LbModel> {
        find_state(self.states@, id)
    }

    /// Every kept state is well formed.
    pub open spec fn wf(&self) -> bool {
        forall|i: int| 0 <= i < self.states@.len() ==> (#[trigger] self.states@[i]).1.wf()
    }

    /// A balancer with no state.
    pub fn new() -> (r: LoadBalancer)
        ensures
            r.wf(),
            forall|id: Seq<char>| r.lookup(id) is None,
    {
        LoadBalancer { states: Vec::new() }
    }
}

/// `a + b` clamped to the range of `i64`.
fn sat_add_i64(a: i64, b: i64) -> (r: i64)
    ensures
        r as int == sat_add(a as int, b as int),
{
    if b >= 0 {
        if a > i64::MAX - b { i64::MAX } else { a + b }
    } else {
        if a < i64::MIN - b { i64::MIN } else { a + b }
    }
}

proof fn lemma_seq_sum_bound(s: Seq<int>, k: int)
    requires
        forall|i: int| 0 <= i < s.len() ==> 1 <= #[trigger] s[i] <= k,
    ensures
        s.len() <= seq_sum(s) <= s.len() * k,
    decreases s.len(),
{
    if s.len() > 0 {
        lemma_seq_sum_bound(s.drop_last(), k);
        assert(s.len() * k == (s.len() - 1) * k + k) by (nonlinear_arith);
    }
}

/// A fresh state for the upstream list `ups`.
fn build_state(ups: &Vec<Upstream>, signature: String) -> (r: SmoothLbState)
    requires
        signature@ == signature_spec(ups@),
        ups@.len() <= u32::MAX,
    ensures
        r.wf(),
        r.model() == fresh_model(ups@),
{
    let mut urls: Vec<String> = Vec::new();
    let mut weights: Vec<i64> = Vec::new();
    let mut currents: Vec<i64> = Vec::new();
    let mut total: i64 = 0;
    let ghost w = clamped_weights(ups@);
    let mut i: usize = 0;
    while i < ups.len()
        invariant
            i <= ups@.len() <= u32::MAX,
            w == clamped_weights(ups@),
            urls@.len() == i && weights@.len() == i && currents@.len() == i,
            strs_of(urls@) == upstream_urls(ups@.subrange(0, i as int)),
            ints_of(weights@) == w.subrange(0, i as int),
            ints_of(currents@) == Seq::new(i as nat, |j: int| 0int),
            total as int == seq_sum(w.subrange(0, i as int)),
            0 <= total <= i * (i32::MAX as int),
        decreases ups@.len() - i,
    {
        let wi: i64 = if ups[i].weight < 1 { 1 } else { ups[i].weight as i64 };
        let ghost iv = i as int;
        let ghost old_urls = urls@;
        let ghost old_cur = currents@;
        urls.push(ups[i].url.clone());
        weights.push(wi);
        currents.push(0);
        assert(urls@ == old_urls.push(ups@[iv].url));
        assert(currents@ == old_cur.push(0i64));
        assert(w.subrange(0, i + 1).drop_last() == w.subrange(0, i as int));
        assert(total + wi <= (i + 1) * (i32::MAX as int)) by (nonlinear_arith)
            requires total <= i * (i32::MAX as int), wi <= i32::MAX;
        total = total + wi;
        i = i + 1;
        assert forall|j: int| 0 <= j < i implies #[trigger] strs_of(urls@)[j]
            == upstream_urls(ups@.subrange(0, i as int))[j] by {
            if j < iv {
                assert(strs_of(old_urls)[j] == upstream_urls(ups@.subrange(0, iv))[j]);
            }
        }
        assert(strs_of(urls@) =~= upstream_urls(ups@.subrange(0, i as int)));
        assert(ints_of(weights@) =~= w.subrange(0, i as int));
        assert forall|j: int| 0 <= j < i implies #[trigger] ints_of(currents@)[j] == 0 by {
            if j < iv {
                assert(ints_of(old_cur)[j] == Seq::new(iv as nat, |k: int| 0int)[j]);
            }
        }
        assert(ints_of(currents@) =~= Seq::new(i as nat, |j: int| 0int));
    }
    assert(w.subrange(0, ups@.len() as int) == w);
    assert(ups@.subrange(0, ups@.len() as int) == ups@);
    SmoothLbState {
        signature,
        total_weight: if total < 1 { 1 } else { total },
        urls,
        weights,
        currents,
    }
}

impl SmoothLbState {
    /// One smooth weighted round-robin step: every accumulator gains its
    /// weight, the first maximum is picked and loses the total weight.
    pub fn step(&mut self) -> (p: usize)
        requires
            old(self).wf(),
            old(self).urls@.len() > 0,
        ensures
            final(self).wf(),
            p < old(self).urls@.len(),
            p == swrr_pick(old(self).model().4, old(self).model().3),
            final(self).model() == stepped(old(self).model()),
            final(self).urls == old(self).urls,
    {
        let ghost cur = self.model().4;
        let ghost w = self.model().3;
        let ghost a = added(cur, w);
        let n = self.currents.len();
        let mut best: usize = 0;
        let mut i: usize = 0;
        while i < n
            invariant
                n == self.currents@.len() == old(self).currents@.len(),
                self.weights == old(self).weights,
                self.urls == old(self).urls,
                self.signature == old(self).signature,
                self.total_weight == old(self).total_weight,
                self.wf(),
                i <= n,
                n > 0,
                cur.len() == n && w.len() == n && a.len() == n,
                a == added(cur, w),
                cur == old(self).model().4,
                w == ints_of(self.weights@),
                forall|j: int| 0 <= j < i ==> self.currents@[j] as int == #[trigger] a[j],
                forall|j: int| i <= j < n ==> self.currents@[j] as int == #[trigger] cur[j],
                best < n,
                i > 0 ==> best < i,
                best as nat == argmax_first(a, i as nat),
            decreases n - i,
        {
            let c = sat_add_i64(self.currents[i], self.weights[i]);
            assert(w[i as int] == self.weights@[i as int] as int);
            assert(cur[i as int] == self.currents@[i as int] as int);
            assert(a[i as int] == sat_add(cur[i as int], w[i as int]));
            assert(a[i as int] == c as int);
            assert(self.currents@[best as int] as int == a[best as int] || best == i);
            self.currents[i] = c;
            if c > self.currents[best] {
                best = i;
            }
            i = i + 1;
        }
        let c = sat_add_i64(self.currents[best], -self.total_weight);
        self.currents[best] = c;
        assert(self.model().4 =~= swrr_next(cur, w, self.total_weight as int));
        best
    }
}

/// Whether `a` sorts before or equal to `b`.
fn lex_le_exec(a: &Vec<char>, b: &Vec<char>) -> (r: bool)
    ensures
        r == lex_le(a@, b@),
{
    let mut i: usize = 0;
    assert(a@.subrange(0, a@.len() as int) =~= a@);
    assert(b@.subrange(0, b@.len() as int) =~= b@);
    while i < a.len()
        invariant
            i <= a@.len(),
            i <= b@.len(),
            lex_le(a@, b@) == lex_le(a@.subrange(i as int, a@.len() as int), b@.subrange(i as int, b@.len() as int)),
        decreases a@.len() - i,
    {
        let ghost sa = a@.subrange(i as int, a@.len() as int);
        let ghost sb = b@.subrange(i as int, b@.len() as int);
        if i >= b.len() {
            return false;
        }
        if a[i] != b[i] {
            return (a[i] as u32) < (b[i] as u32);
        }
        assert(sa.drop_first() == a@.subrange(i + 1, a@.len() as int));
        assert(sb.drop_first() == b@.subrange(i + 1, b@.len() as int));
        i = i + 1;
    }
    true
}

pub(crate) fn insert_sorted_exec(s: &mut Vec<Vec<char>>, x: Vec<char>)
    ensures
        final(s)@.map_values(|v: Vec<char>| v@) == insert_sorted(old(s)@.map_values(|v: Vec<char>| v@), x@),
{
    let ghost old_v = s@.map_values(|v: Vec<char>| v@);
    let mut i: usize = 0;
    let mut stop = false;
    assert(old_v.subrange(0, old_v.len() as int) =~= old_v);
    assert(old_v.subrange(0, 0) + insert_sorted(old_v, x@) =~= insert_sorted(old_v, x@));
    while i < s.len() && !stop
        invariant
            i <= s@.len(),
            s@.map_values(|v: Vec<char>| v@) == old_v,
            old_v.len() == s@.len(),
            stop ==> i < s@.len() && !lex_le(old_v[i as int], x@),
            insert_sorted(old_v, x@) == old_v.subrange(0, i as int) + insert_sorted(old_v.subrange(i as int, old_v.len() as int), x@),
        decreases s@.len() - i + (if stop { 0int } else { 1int }),
    {
        if !lex_le_exec(&s[i], &x) {
            stop = true;
        } else {
            let ghost rest = old_v.subrange(i as int, old_v.len() as int);
            assert(rest.drop_first() == old_v.subrange(i + 1, old_v.len() as int));
            assert(old_v.subrange(0, i + 1) == old_v.subrange(0, i as int) + seq![rest[0]]);
            assert(old_v.subrange(0, i as int) + insert_sorted(rest, x@) =~= old_v.subrange(0, i + 1) + insert_sorted(rest.drop_first(), x@));
            i = i + 1;
        }
    }
    let ghost rest = old_v.subrange(i as int, old_v.len() as int);
    assert(insert_sorted(rest, x@) =~= seq![x@] + rest);
    s.insert(i, x);
    assert(s@.map_values(|v: Vec<char>| v@) =~= old_v.subrange(0, i as int) + (seq![x@] + rest));
}

/// The fingerprint of a route's upstream list.
pub fn upstream_signature(route: &Route) -> (r: String)
    ensures
        r@ == signature_spec(route.upstreams@),
{
    let ups = &route.upstreams;
    let ghost entries = ups@.map_values(|u: Upstream| entry_spec(u));
    let mut sorted: Vec<Vec<char>> = Vec::new();
    let mut i: usize = 0;
    assert(sorted@.map_values(|v: Vec<char>| v@) =~= sort_spec(entries.subrange(0, 0)));
    while i < ups.len()
        invariant
            i <= ups@.len(),
            entries == ups@.map_values(|u: Upstream| entry_spec(u)),
            sorted@.map_values(|v: Vec<char>| v@) == sort_spec(entries.subrange(0, i as int)),
        decreases ups@.len() - i,
    {
        let mut e = String::new();
        push_str(&mut e, ups[i].url.as_str());
        e.push('#');
        let d = i64_to_decimal(ups[i].weight as i64);
        push_str(&mut e, d.as_str());
        let ev = crate::text::chars_of(e.as_str());
        assert(ev@ == entry_spec(ups@[i as int]));
        insert_sorted_exec(&mut sorted, ev);
        assert(entries.subrange(0, i + 1).drop_last() == entries.subrange(0, i as int));
        i = i + 1;
    }
    assert(entries.subrange(0, ups@.len() as int) == entries);
    let ghost sv = sorted@.map_values(|v: Vec<char>| v@);
    let mut out = String::new();
    let mut j: usize = 0;
    assert(out@ =~= join_bar(sv.subrange(0, 0)));
    while j < sorted.len()
        invariant
            j <= sorted@.len(),
            sv == sorted@.map_values(|v: Vec<char>| v@),
            out@ == join_bar(sv.subrange(0, j as int)),
        decreases sorted@.len() - j,
    {
        if j > 0 {
            out.push('|');
        }
        let piece = crate::text::string_of(&sorted[j], 0, sorted[j].len());
        assert(sorted@[j as int]@.subrange(0, sorted@[j as int]@.len() as int) == sv[j as int]);
        push_str(&mut out, piece.as_str());
        assert(sv.subrange(0, j + 1).drop_last() == sv.subrange(0, j as int));
        j = j + 1;
    }
    assert(sv.subrange(0, sorted@.len() as int) == sv);
    out
}

} // verus!

verus! {

/// The key under which a route's state is kept: its trimmed id.
pub open spec fn route_key(route: Route) -> Seq<char> {
    match route.id {
        Some(s) => trim_spec(s@),
        None => Seq::empty(),
    }
}

proof fn lemma_find_skip(s: Seq<(String, SmoothLbState)>, id: Seq<char>, i: int)
    requires
        0 <= i <= s.len(),
        forall|j: int| 0 <= j < i ==> (#[trigger] s[j]).0@ != id,
    ensures
        find_state(s, id) == find_state(s.subrange(i, s.len() as int), id),
    decreases i,
{
    if i > 0 {
        assert(s.drop_first().subrange(i - 1, s.drop_first().len() as int) == s.subrange(i, s.len() as int));
        assert forall|j: int| 0 <= j < i - 1 implies (#[trigger] s.drop_first()[j]).0@ != id by {
            assert(s.drop_first()[j] == s[j + 1]);
        }
        lemma_find_skip(s.drop_first(), id, i - 1);
    } else {
        assert(s.subrange(0, s.len() as int) == s);
    }
}

proof fn lemma_find_update(s: Seq<(String, SmoothLbState)>, i: int, x: (String, SmoothLbState), other: Seq<char>)
    requires
        0 <= i < s.len(),
        x.0@ == s[i].0@,
        forall|j: int| 0 <= j < i ==> (#[trigger] s[j]).0@ != s[i].0@,
    ensures
        find_state(s.update(i, x), x.0@) == Some(x.1.model()),
        other != x.0@ ==> find_state(s.update(i, x), other) == find_state(s, other),
    decreases i,
{
    if i > 0 {
        assert(s.update(i, x).drop_first() == s.drop_first().update(i - 1, x));
        assert forall|j: int| 0 <= j < i - 1 implies (#[trigger] s.drop_first()[j]).0@ != s.drop_first()[i - 1].0@ by {
            assert(s.drop_first()[j] == s[j + 1]);
        }
        lemma_find_update(s.drop_first(), i - 1, x, other);
    } else {
        assert(s.update(i, x).drop_first() == s.drop_first());
    }
}

proof fn lemma_find_push(s: Seq<(String, SmoothLbState)>, x: (String, SmoothLbState), other: Seq<char>)
    ensures
        find_state(s.push(x), other) == match find_state(s, other) {
            Some(m) => Some(m),
            None => if x.0@ == other { Some(x.1.model()) } else { None },
        },
    decreases s.len(),
{
    if s.len() > 0 {
        assert(s.push(x).drop_first() == s.drop_first().push(x));
        lemma_find_push(s.drop_first(), x, other);
    } else {
        assert(s.push(x).drop_first() == s);
    }
}

impl LoadBalancer {
    /// Picks the upstream for one request on `route` by smooth weighted
    /// round-robin. No upstream gives `None`; a single upstream, or a route
    /// without an id, gives the first upstream and leaves the state alone.
    /// Otherwise the route's state is rebuilt when its signature or size no
    /// longer matches the route, then advanced by one step.
    pub fn pick_upstream_smooth(&mut self, route: &Route) -> (r: Option<String>)
        requires
            old(self).wf(),
            route.upstreams@.len() <= u32::MAX,
        ensures
            final(self).wf(),
            route.upstreams@.len() == 0 ==> r is None,
            route.upstreams@.len() == 1 || (route.upstreams@.len() > 1 && route_key(*route).len() == 0)
                ==> r is Some && r->0@ == route.upstreams@[0].url@,
            route.upstreams@.len() <= 1 || route_key(*route).len() == 0 ==> forall|id: Seq<char>|
                final(self).lookup(id) == old(self).lookup(id),
            route.upstreams@.len() > 1 && route_key(*route).len() > 0 ==> {
                let key = route_key(*route);
                let b = base_model(old(self).lookup(key), route.upstreams@);
                &&& r is Some
                &&& r->0@ == picked_url(b)
                &&& final(self).lookup(key) == Some(stepped(b))
                &&& forall|id: Seq<char>| id != key ==> final(self).lookup(id) == old(self).lookup(id)
            },
    {
        let ups = &route.upstreams;
        if ups.len() == 0 {
            return None;
        }
        if ups.len() == 1 {
            return Some(ups[0].url.clone());
        }
        let key = match &route.id {
            Some(s) => trim(s.as_str()),
            None => String::new(),
        };
        if key.unicode_len() == 0 {
            return Some(ups[0].url.clone());
        }
        let sig = upstream_signature(route);
        let n = self.states.len();
        let mut idx: usize = 0;
        let mut found = false;
        while idx < n && !found
            invariant
                n == self.states@.len(),
                idx <= n,
                found ==> idx < n && self.states@[idx as int].0@ == key@,
                forall|j: int| 0 <= j < idx ==> (#[trigger] self.states@[j]).0@ != key@,
            decreases n - idx + (if found { 0int } else { 1int }),
        {
            if self.states[idx].0 == key {
                found = true;
            } else {
                idx = idx + 1;
            }
        }
        let ghost old_states = self.states@;
        if found {
            proof {
                lemma_find_skip(old_states, key@, idx as int);
                assert(old_states.subrange(idx as int, n as int)[0] == old_states[idx as int]);
            }
            let (k, mut st) = self.states.remove(idx);
            assert(old_states[idx as int].1.wf());
            if st.signature != sig || st.urls.len() != ups.len() {
                st = build_state(ups, sig);
            }
            let ghost b = st.model();
            let p = st.step();
            let url = st.urls[p].clone();
            proof {
                assert(strs_of(st.urls@)[p as int] == st.urls@[p as int]@);
            }
            self.states.insert(idx, (k, st));
            proof {
                assert(self.states@ =~= old_states.update(idx as int, (k, st)));
                assert forall|id: Seq<char>| id != key@ implies self.lookup(id) == old(self).lookup(id) by {
                    lemma_find_update(old_states, idx as int, (k, st), id);
                }
                lemma_find_update(old_states, idx as int, (k, st), key@);
                assert forall|i: int| 0 <= i < self.states@.len() implies (#[trigger] self.states@[i]).1.wf() by {
                    if i != idx {
                        assert(self.states@[i] == old_states[i]);
                    }
                }
            }
            Some(url)
        } else {
            proof {
                lemma_find_skip(old_states, key@, n as int);
            }
            let mut st = build_state(ups, sig);
            let p = st.step();
            let url = st.urls[p].clone();
            proof {
                assert(strs_of(st.urls@)[p as int] == st.urls@[p as int]@);
            }
            self.states.push((key, st));
            proof {
                assert forall|id: Seq<char>| #![auto] true implies self.lookup(id) == match old(self).lookup(id) {
                    Some(m) => Some(m),
                    None => if key@ == id { Some(st.model()) } else { None },
                } by {
                    lemma_find_push(old_states, (key, st), id);
                }
                assert forall|i: int| 0 <= i < self.states@.len() implies (#[trigger] self.states@[i]).1.wf() by {
                    if i < n {
                        assert(self.states@[i] == old_states[i]);
                    }
                }
            }
            Some(url)
        }
    }
}

} // verus!

verus! {

/// `n` zeros.
pub open spec fn zeros(n: nat) -> Seq<int> {
    Seq::new(n, |i: int| 0int)
}

proof fn lemma_argmax(s: Seq<int>, n: nat)
    requires
        1 <= n <= s.len(),
    ensures
        argmax_first(s, n) < n,
        forall|j: int| 0 <= j < n ==> #[trigger] s[j] <= s[argmax_first(s, n) as int],
    decreases n,
{
    if n > 1 {
        lemma_argmax(s, (n - 1) as nat);
    }
}

proof fn lemma_sum_le(x: Seq<int>, y: Seq<int>)
    requires
        x.len() == y.len(),
        forall|i: int| 0 <= i < x.len() ==> x[i] <= y[i],
    ensures
        seq_sum(x) <= seq_sum(y),
        seq_sum(x) == seq_sum(y) ==> x == y,
    decreases x.len(),
{
    if x.len() > 0 {
        lemma_sum_le(x.drop_last(), y.drop_last());
        if seq_sum(x) == seq_sum(y) {
            assert(x.drop_last() == y.drop_last());
            assert(x == x.drop_last().push(x.last()));
            assert(y == y.drop_last().push(y.last()));
        }
    } else {
        assert(x =~= y);
    }
}

proof fn lemma_sum_scale(w: Seq<int>, c: int)
    ensures
        seq_sum(Seq::new(w.len(), |i: int| c * w[i])) == c * seq_sum(w),
    decreases w.len(),
{
    if w.len() > 0 {
        lemma_sum_scale(w.drop_last(), c);
        assert(Seq::new(w.len(), |i: int| c * w[i]).drop_last() =~= Seq::new(w.drop_last().len(), |i: int| c * w.drop_last()[i]));
        assert(c * seq_sum(w.drop_last()) + c * w.last() == c * (seq_sum(w.drop_last()) + w.last())) by (nonlinear_arith);
    }
}

proof fn lemma_sum_update(s: Seq<int>, p: int, v: int)
    requires
        0 <= p < s.len(),
    ensures
        seq_sum(s.update(p, v)) == seq_sum(s) - s[p] + v,
    decreases s.len(),
{
    if p == s.len() - 1 {
        assert(s.update(p, v).drop_last() == s.drop_last());
    } else {
        lemma_sum_update(s.drop_last(), p, v);
        assert(s.update(p, v).drop_last() == s.drop_last().update(p, v));
    }
}

proof fn lemma_sum_zeros(n: nat)
    ensures
        seq_sum(zeros(n)) == 0,
    decreases n,
{
    if n > 0 {
        lemma_sum_zeros((n - 1) as nat);
        assert(zeros(n).drop_last() == zeros((n - 1) as nat));
    }
}

/// Within the first cycle, the accumulators are `k·w_i − S·c_i`, each count
/// stays within its weight, and the counts add up to `k`.
proof fn lemma_first_cycle(w: Seq<int>, k: nat)
    requires
        w.len() > 0,
        forall|i: int| 0 <= i < w.len() ==> w[i] >= 1,
        seq_sum(w) <= 0x8000_0000,
        k <= seq_sum(w),
    ensures
        ({
            let s = seq_sum(w);
            let r = swrr_run(zeros(w.len()), w, s, k);
            &&& r.0.len() == w.len()
            &&& r.1.len() == w.len()
            &&& forall|i: int| 0 <= i < w.len() ==> #[trigger] r.0[i] == k * w[i] - s * r.1[i]
            &&& forall|i: int| 0 <= i < w.len() ==> 0 <= #[trigger] r.1[i] <= w[i]
            &&& seq_sum(r.1) == k
        }),
    decreases k,
{
    let s = seq_sum(w);
    let n = w.len();
    if k == 0 {
        lemma_sum_zeros(n);
        assert(swrr_run(zeros(n), w, s, 0).1 == zeros(n));
        let r = swrr_run(zeros(n), w, s, 0);
        assert forall|i: int| 0 <= i < n implies #[trigger] r.0[i] == k * w[i] - s * r.1[i] by {
            assert(k * w[i] == 0);
            assert(r.1[i] == 0);
            assert(r.0[i] == 0);
            assert(s * r.1[i] == 0) by (nonlinear_arith) requires r.1[i] == 0;
        }
    } else {
        lemma_first_cycle(w, (k - 1) as nat);
        let prev = swrr_run(zeros(n), w, s, (k - 1) as nat);
        let cur = prev.0;
        let cnt = prev.1;
        let km = (k - 1) as int;
        // no accumulator saturates
        assert forall|i: int| 0 <= i < n implies #[trigger] added(cur, w)[i] == cur[i] + w[i]
            && added(cur, w)[i] == k * w[i] - s * cnt[i] by {
            let wi = w[i];
            let ci = cnt[i];
            lemma_w_le_sum(w, i);
            assert(0 <= ci <= wi);
            assert(0 <= km * wi <= s * s) by (nonlinear_arith)
                requires 0 <= km <= s, 1 <= wi <= s;
            assert(0 <= s * ci <= s * s) by (nonlinear_arith)
                requires 0 <= ci <= wi <= s, s >= 0;
            assert(s * s <= 0x4000_0000_0000_0000) by (nonlinear_arith)
                requires 0 <= s <= 0x8000_0000;
            assert(k * wi == km * wi + wi) by (nonlinear_arith)
                requires k == km + 1;
            lemma_w_le_sum(w, i);
        }
        let a = added(cur, w);
        lemma_argmax(a, n);
        let p = argmax_first(a, n) as int;
        // the picked accumulator is positive
        if a[p] <= 0 {
            let x = Seq::new(n, |i: int| k * w[i]);
            let y = Seq::new(n, |i: int| s * cnt[i]);
            assert forall|i: int| 0 <= i < n implies x[i] <= y[i] by {
                assert(a[i] <= a[p]);
            }
            lemma_sum_le(x, y);
            lemma_sum_scale(w, k as int);
            lemma_sum_scale(cnt, s);
            assert(Seq::new(cnt.len(), |i: int| s * cnt[i]) =~= y);
            assert(k * s <= s * km) by (nonlinear_arith)
                requires seq_sum(x) <= seq_sum(y), seq_sum(x) == k * s, seq_sum(y) == s * km;
            assert(false) by (nonlinear_arith)
                requires k * s <= s * km, k == km + 1, s >= 1;
        }
        let wp = w[p];
        let cp = cnt[p];
        lemma_w_le_sum(w, p);
        assert(cp < wp) by (nonlinear_arith)
            requires k * wp - s * cp > 0, k <= s, wp >= 1, cp >= 0, s >= 1;
        assert(a[p] - s >= i64::MIN && a[p] - s <= i64::MAX) by {
            lemma_w_le_sum(w, p);
            assert(0 <= s * cp <= s * s) by (nonlinear_arith)
                requires 0 <= cp <= wp <= s, s >= 0;
            assert(s * s <= 0x4000_0000_0000_0000) by (nonlinear_arith)
                requires 0 <= s <= 0x8000_0000;
            assert(k * wp <= s * s) by (nonlinear_arith)
                requires 0 <= k <= s, 1 <= wp <= s;
            lemma_w_le_sum(w, p);
        }
        let r = swrr_run(zeros(n), w, s, k);
        assert forall|i: int| 0 <= i < n implies #[trigger] r.0[i] == k * w[i] - s * r.1[i] by {
            if i == p {
                assert(k * wp - s * cp - s == k * wp - s * (cp + 1)) by (nonlinear_arith);
            }
        }
        lemma_sum_update(cnt, p, cp + 1);
        assert(r.0.len() == n);
        assert(r.1.len() == n);
        assert forall|i: int| 0 <= i < n implies 0 <= #[trigger] r.1[i] <= w[i] by {
            if i == p {
                assert(r.1[i] == cp + 1);
            } else {
                assert(r.1[i] == cnt[i]);
            }
        }
        assert(seq_sum(r.1) == k);
    }
}

proof fn lemma_w_le_sum(w: Seq<int>, i: int)
    requires
        0 <= i < w.len(),
        forall|j: int| 0 <= j < w.len() ==> w[j] >= 1,
    ensures
        w[i] <= seq_sum(w),
    decreases w.len(),
{
    let x = Seq::new(w.len(), |j: int| if j == i { w[i] } else { 0int });
    lemma_sum_le(x, w);
    lemma_sum_single(w.len(), i, w[i]);
    assert(x == zeros(w.len()).update(i, w[i]));
}

proof fn lemma_sum_single(n: nat, i: int, v: int)
    requires
        0 <= i < n,
    ensures
        seq_sum(zeros(n).update(i, v)) == v,
{
    lemma_sum_zeros(n);
    lemma_sum_update(zeros(n), i, v);
}

/// After a first full cycle of `S = Σ w` selections from zero, every
/// upstream was picked exactly `w_i` times and the accumulators are zero.
proof fn lemma_one_cycle(w: Seq<int>)
    requires
        w.len() > 0,
        forall|i: int| 0 <= i < w.len() ==> w[i] >= 1,
        seq_sum(w) <= 0x8000_0000,
    ensures
        swrr_run(zeros(w.len()), w, seq_sum(w), seq_sum(w) as nat) == (zeros(w.len()), w),
{
    let s = seq_sum(w);
    lemma_sum_le(zeros(w.len()), w);
    lemma_sum_zeros(w.len());
    lemma_first_cycle(w, s as nat);
    let r = swrr_run(zeros(w.len()), w, s, s as nat);
    lemma_sum_le(r.1, w);
    assert forall|i: int| 0 <= i < w.len() implies #[trigger] r.0[i] == 0 by {
        assert(s * w[i] - s * w[i] == 0);
    }
    assert(r.0 =~= zeros(w.len()));
}

proof fn lemma_run_compose(cur: Seq<int>, w: Seq<int>, t: int, a: nat, b: nat)
    requires
        w.len() == cur.len(),
        cur.len() > 0,
    ensures
        ({
            let mid = swrr_run(cur, w, t, a);
            let end = swrr_run(mid.0, w, t, b);
            let all = swrr_run(cur, w, t, a + b);
            &&& all.0 == end.0
            &&& all.1 == Seq::new(cur.len(), |i: int| mid.1[i] + end.1[i])
            &&& mid.0.len() == cur.len() && mid.1.len() == cur.len()
        }),
    decreases b,
{
    lemma_run_len(cur, w, t, a);
    if b == 0 {
        let mid = swrr_run(cur, w, t, a);
        assert(mid.1 =~= Seq::new(cur.len(), |i: int| mid.1[i] + swrr_run(mid.0, w, t, 0).1[i]));
    } else {
        lemma_run_compose(cur, w, t, a, (b - 1) as nat);
        let mid = swrr_run(cur, w, t, a);
        lemma_run_len(mid.0, w, t, (b - 1) as nat);
        lemma_run_len(cur, w, t, (a + b - 1) as nat);
        if cur.len() > 0 {
            lemma_argmax(added(swrr_run(mid.0, w, t, (b - 1) as nat).0, w), cur.len());
        }
        assert(a + b - 1 == a + (b - 1) as nat);
        let all = swrr_run(cur, w, t, a + b);
        let end = swrr_run(mid.0, w, t, b);
        assert(all.1 =~= Seq::new(cur.len(), |i: int| mid.1[i] + end.1[i]));
    }
}

proof fn lemma_run_len(cur: Seq<int>, w: Seq<int>, t: int, k: nat)
    requires
        w.len() == cur.len(),
        cur.len() > 0,
    ensures
        swrr_run(cur, w, t, k).0.len() == cur.len(),
        swrr_run(cur, w, t, k).1.len() == cur.len(),
    decreases k,
{
    if k > 0 {
        lemma_run_len(cur, w, t, (k - 1) as nat);
        let prev = swrr_run(cur, w, t, (k - 1) as nat);
        assert(added(prev.0, w).len() == prev.0.len());
        lemma_argmax(added(prev.0, w), cur.len());
        assert(swrr_next(prev.0, w, t).len() == prev.0.len());
    }
}

/// Smooth weighted round-robin is exact over whole cycles: starting from a
/// fresh state (all accumulators zero), `m·S` consecutive selections, where
/// `S` is the sum of the weights, pick each upstream exactly `m·w_i` times
/// and leave every accumulator at zero again. Being spec functions, the
/// picks are fixed by the weights and the number of calls.
pub proof fn lemma_swrr_exact_over_cycles(w: Seq<int>, m: nat)
    requires
        w.len() > 0,
        forall|i: int| 0 <= i < w.len() ==> w[i] >= 1,
        seq_sum(w) <= 0x8000_0000,
    ensures
        ({
            let r = swrr_run(zeros(w.len()), w, seq_sum(w), m * seq_sum(w) as nat);
            &&& r.0 == zeros(w.len())
            &&& r.1 == Seq::new(w.len(), |i: int| m * w[i])
        }),
    decreases m,
{
    let s = seq_sum(w);
    let n = w.len();
    lemma_sum_le(zeros(n), w);
    lemma_sum_zeros(n);
    if m == 0 {
        assert(m * (s as nat) == 0);
        assert(swrr_run(zeros(n), w, s, 0).1 =~= Seq::new(n, |i: int| m * w[i]));
    } else {
        lemma_swrr_exact_over_cycles(w, (m - 1) as nat);
        let a = ((m - 1) as nat) * (s as nat);
        assert(m * (s as nat) == a + s as nat) by (nonlinear_arith)
            requires a == ((m - 1) as nat) * (s as nat), m >= 1;
        lemma_run_compose(zeros(n), w, s, a, s as nat);
        lemma_one_cycle(w);
        let r = swrr_run(zeros(n), w, s, m * (s as nat));
        assert forall|i: int| 0 <= i < n implies #[trigger] r.1[i] == m * w[i] by {
            assert((m - 1) * w[i] + w[i] == m * w[i]) by (nonlinear_arith);
        }
        assert(r.1 =~= Seq::new(n, |i: int| m * w[i]));
    }
}

} // verus!

verus! {

/// The state after `j` selection steps from `m`.
pub open spec fn steps(m: LbModel, j: nat) -> LbModel
    decreases j,
{
    if j == 0 { m } else { stepped(steps(m, (j - 1) as nat)) }
}

/// The upstream index that step `j` (counted from 0) picks from `m`.
pub open spec fn pick_at(m: LbModel, j: nat) -> nat {
    swrr_pick(steps(m, j).4, steps(m, j).3)
}

/// How many of the first `n` steps from `m` pick upstream `i`.
pub open spec fn pick_count(m: LbModel, n: nat, i: int) -> int
    decreases n,
{
    if n == 0 { 0 } else { pick_count(m, (n - 1) as nat, i) + if pick_at(m, (n - 1) as nat) == i { 1int } else { 0int } }
}

proof fn lemma_steps_follow_run(m: LbModel, j: nat)
    requires
        m.4 == zeros(m.3.len()),
        m.3.len() > 0,
    ensures
        steps(m, j).3 == m.3,
        steps(m, j).1 == m.1,
        steps(m, j).2 == m.2,
        steps(m, j).4 == swrr_run(zeros(m.3.len()), m.3, m.1, j).0,
        forall|i: int| 0 <= i < m.3.len() ==> #[trigger] pick_count(m, j, i) == swrr_run(zeros(m.3.len()), m.3, m.1, j).1[i],
    decreases j,
{
    if j > 0 {
        lemma_steps_follow_run(m, (j - 1) as nat);
        lemma_run_len(zeros(m.3.len()), m.3, m.1, (j - 1) as nat);
        let prev = swrr_run(zeros(m.3.len()), m.3, m.1, (j - 1) as nat);
        lemma_argmax(added(prev.0, m.3), m.3.len());
        let p = swrr_pick(prev.0, m.3) as int;
        assert(pick_at(m, (j - 1) as nat) == p);
        let cur = swrr_run(zeros(m.3.len()), m.3, m.1, j);
        assert(cur.1 == prev.1.update(p, prev.1[p] + 1));
        assert forall|i: int| 0 <= i < m.3.len() implies #[trigger] pick_count(m, j, i) == cur.1[i] by {
            assert(pick_count(m, j, i) == pick_count(m, (j - 1) as nat, i) + if p == i { 1int } else { 0int });
        }
    } else {
        assert forall|i: int| 0 <= i < m.3.len() implies #[trigger] pick_count(m, 0, i) == swrr_run(zeros(m.3.len()), m.3, m.1, 0).1[i] by {
        }
    }
}

/// Smooth weighted round-robin on a route, as `pick_upstream_smooth` runs
/// it: from a freshly built state (the first call, or the call after the
/// upstream list changed), each call returns `picked_url` of the current
/// state and leaves `stepped` of it, so calls `0..N` return the upstreams
/// `pick_at(m, 0..N)`. Over `k` whole cycles (`N = k·S`, `S` the sum of the
/// clamped weights) upstream `i` is picked exactly `k·wᵢ` times; with
/// distinct urls this is the number of times its url is returned.
pub proof fn lemma_pick_smooth_counts(ups: Seq<Upstream>, k: nat)
    requires
        ups.len() > 0,
        seq_sum(clamped_weights(ups)) <= 0x8000_0000,
    ensures
        ({
            let m = fresh_model(ups);
            let w = clamped_weights(ups);
            forall|i: int| 0 <= i < ups.len() ==> #[trigger] pick_count(m, k * (seq_sum(w) as nat), i) == k * w[i]
        }),
{
    let m = fresh_model(ups);
    let w = clamped_weights(ups);
    assert forall|i: int| 0 <= i < w.len() implies w[i] >= 1 by {}
    lemma_sum_le(zeros(w.len()), w);
    lemma_sum_zeros(w.len());
    assert(m.4 =~= zeros(w.len()));
    assert(m.1 == seq_sum(w));
    lemma_steps_follow_run(m, k * (seq_sum(w) as nat));
    lemma_swrr_exact_over_cycles(w, k);
}

} // verus!
