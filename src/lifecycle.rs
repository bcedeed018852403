//! Listener lifecycle: the start/stop state machine, the expansion of
//! rules into listener nodes, and the bounded log buffer.
use vstd::prelude::*;
use crate::config::ListenRule;
use crate::text::{trim, trim_spec};

verus! {

/// At most this many log lines are kept.
pub const MAX_LOG_LINES: usize = 3000;

/// Start/stop state of the HTTP listeners.
#[derive(Clone, Copy, Debug, PartialEq, Eq, Structural)]
pub struct LifecycleState {
    pub is_running: bool,
    pub is_starting: bool,
    pub expected_listeners: usize,
    pub started_count: usize,
    pub start_failed: bool,
}

/// What a status observer should be told.
#[derive(Clone, Copy, Debug, PartialEq, Eq, Structural)]
pub enum StatusEvent {
    Running,
    Stopped,
    Unchanged,
}

impl LifecycleState {
    /// Stopped, nothing expected.
    pub fn new() -> (r: LifecycleState)
        ensures
            !r.is_running && !r.is_starting && r.expected_listeners == 0 && r.started_count == 0 && !r.start_failed,
    {
        LifecycleState { is_running: false, is_starting: false, expected_listeners: 0, started_count: 0, start_failed: false }
    }

    /// A start request for `expected` listener nodes. Ignored (returns
    /// `false`) while a start is in progress. Otherwise counters reset and
    /// the state is starting; with nothing to start it is stopped at once.
    pub fn begin_start(&mut self, expected: usize) -> (r: bool)
        ensures
            old(self).is_starting ==> !r && *final(self) == *old(self),
            !old(self).is_starting ==> r && final(self).expected_listeners == expected && final(self).started_count == 0
                && !final(self).start_failed && final(self).is_running == false
                && final(self).is_starting == (expected > 0),
    {
        if self.is_starting {
            return false;
        }
        self.is_starting = true;
        self.start_failed = false;
        self.expected_listeners = expected;
        self.started_count = 0;
        self.is_running = false;
        if expected == 0 {
            self.is_starting = false;
        }
        true
    }

    /// One listener passed its pre-check. When all expected listeners have
    /// and none failed, the service is running.
    pub fn listener_started(&mut self) -> (r: StatusEvent)
        ensures
            final(self).expected_listeners == old(self).expected_listeners,
            final(self).start_failed == old(self).start_failed,
            final(self).started_count == if old(self).started_count < usize::MAX { old(self).started_count + 1 } else { old(self).started_count as int },
            (r == StatusEvent::Running) == (!old(self).start_failed && final(self).started_count == old(self).expected_listeners),
            r == StatusEvent::Running ==> final(self).is_running && !final(self).is_starting,
            r != StatusEvent::Running ==> final(self).is_running == old(self).is_running && final(self).is_starting == old(self).is_starting,
    {
        if self.started_count < usize::MAX {
            self.started_count = self.started_count + 1;
        }
        if !self.start_failed && self.started_count == self.expected_listeners {
            self.is_running = true;
            self.is_starting = false;
            StatusEvent::Running
        } else {
            StatusEvent::Unchanged
        }
    }

    /// A listener failed to start or to serve: the whole service stops.
    pub fn listener_failed(&mut self) -> (r: StatusEvent)
        ensures
            r == StatusEvent::Stopped,
            final(self).start_failed && !final(self).is_running && !final(self).is_starting,
            final(self).expected_listeners == old(self).expected_listeners,
            final(self).started_count == old(self).started_count,
    {
        self.start_failed = true;
        self.is_running = false;
        self.is_starting = false;
        StatusEvent::Stopped
    }

    /// Stop: every counter cleared.
    pub fn stop(&mut self) -> (r: StatusEvent)
        ensures
            r == StatusEvent::Stopped,
            *final(self) == LifecycleState::new_spec(),
    {
        *self = LifecycleState::new();
        StatusEvent::Stopped
    }

    pub open spec fn new_spec() -> LifecycleState {
        LifecycleState { is_running: false, is_starting: false, expected_listeners: 0, started_count: 0, start_failed: false }
    }
}

/// Whether the service is running.
pub fn is_running(state: &LifecycleState) -> (r: bool)
    ensures
        r == state.is_running,
{
    state.is_running
}

/// Whether a start is in progress.
pub fn is_starting(state: &LifecycleState) -> (r: bool)
    ensures
        r == state.is_starting,
{
    state.is_starting
}

/// Running or starting.
pub fn is_effectively_running(state: &LifecycleState) -> (r: bool)
    ensures
        r == (state.is_running || state.is_starting),
{
    state.is_running || state.is_starting
}

/// The non-blank trimmed entries of `addrs`, in order.
pub open spec fn nonblank_trimmed(addrs: Seq<String>) -> Seq<Seq<char>>
    decreases addrs.len(),
{
    if addrs.len() == 0 {
        Seq::empty()
    } else {
        let rest = nonblank_trimmed(addrs.drop_last());
        let t = trim_spec(addrs.last()@);
        if t.len() == 0 { rest } else { rest.push(t) }
    }
}

/// The listen addresses of a rule: its trimmed non-blank `listen_addrs`,
/// or its single `listen_addr` when there are none.
pub open spec fn rule_addrs_spec(rule: ListenRule) -> Seq<Seq<char>> {
    let v = nonblank_trimmed(rule.listen_addrs@);
    if v.len() == 0 { seq![rule.listen_addr@] } else { v }
}

/// The listen addresses of a rule (see `rule_addrs_spec`).
pub fn rule_listen_addrs(rule: &ListenRule) -> (r: Vec<String>)
    ensures
        r@.map_values(|s: String| s@) == rule_addrs_spec(*rule),
{
    let mut v: Vec<String> = Vec::new();
    let mut i: usize = 0;
    let ghost a = rule.listen_addrs@;
    assert(v@.map_values(|s: String| s@) =~= nonblank_trimmed(a.subrange(0, 0)));
    while i < rule.listen_addrs.len()
        invariant
            i <= a.len(),
            a == rule.listen_addrs@,
            v@.map_values(|s: String| s@) == nonblank_trimmed(a.subrange(0, i as int)),
        decreases a.len() - i,
    {
        let t = trim(rule.listen_addrs[i].as_str());
        assert(a.subrange(0, i + 1).drop_last() == a.subrange(0, i as int));
        if t.unicode_len() > 0 {
            v.push(t);
        }
        assert(v@.map_values(|s: String| s@) =~= nonblank_trimmed(a.subrange(0, i + 1)));
        i = i + 1;
    }
    assert(a.subrange(0, a.len() as int) == a);
    if v.len() == 0 {
        v.push(rule.listen_addr.clone());
        assert(v@.map_values(|s: String| s@) =~= seq![rule.listen_addr@]);
    }
    v
}

/// Number of listener nodes of the enabled rules among `rules[0..n]`.
pub open spec fn node_count_spec(rules: Seq<ListenRule>, n: nat) -> nat
    decreases n,
{
    if n == 0 {
        0
    } else {
        node_count_spec(rules, (n - 1) as nat) + if rules[n - 1].enabled { rule_addrs_spec(rules[n - 1]).len() } else { 0 }
    }
}

/// Number of listener nodes to start: over the enabled rules, one per
/// listen address (at least one per rule). Saturates at the largest value.
pub fn count_listener_nodes(rules: &Vec<ListenRule>) -> (r: usize)
    ensures
        node_count_spec(rules@, rules@.len()) <= usize::MAX ==> r == node_count_spec(rules@, rules@.len()),
{
    let mut total: usize = 0;
    let mut i: usize = 0;
    let mut saturated = false;
    while i < rules.len()
        invariant
            i <= rules@.len(),
            !saturated ==> total == node_count_spec(rules@, i as nat),
            saturated ==> node_count_spec(rules@, i as nat) > usize::MAX,
        decreases rules@.len() - i,
    {
        if rules[i].enabled {
            let addrs = rule_listen_addrs(&rules[i]);
            let n = addrs.len();
            assert(n == rule_addrs_spec(rules@[i as int]).len());
            if saturated || total > usize::MAX - n {
                saturated = true;
                total = usize::MAX;
            } else {
                total = total + n;
            }
        }
        i = i + 1;
    }
    total
}

/// The in-memory log: the most recent lines, oldest first.
pub struct LogBuffer {
    pub lines: Vec<String>,
}

impl LogBuffer {
    pub fn new() -> (r: LogBuffer)
        ensures
            r.lines@.len() == 0,
    {
        LogBuffer { lines: Vec::new() }
    }
}

/// Appends a line, dropping the oldest ones beyond the limit.
pub fn send_log(buf: &mut LogBuffer, message: String)
    requires
        old(buf).lines@.len() <= MAX_LOG_LINES,
    ensures
        final(buf).lines@.len() <= MAX_LOG_LINES,
        ({
            let all = old(buf).lines@.push(message);
            final(buf).lines@ == if all.len() > MAX_LOG_LINES { all.subrange(all.len() - MAX_LOG_LINES, all.len() as int) } else { all }
        }),
{
    let ghost all = buf.lines@.push(message);
    buf.lines.push(message);
    if buf.lines.len() > MAX_LOG_LINES {
        buf.lines.remove(0);
        assert(buf.lines@ =~= all.subrange(all.len() - MAX_LOG_LINES, all.len() as int));
    }
}

/// All kept lines.
pub fn get_logs(buf: &LogBuffer) -> (r: Vec<String>)
    ensures
        r@ == buf.lines@,
{
    let mut r: Vec<String> = Vec::new();
    let mut i: usize = 0;
    while i < buf.lines.len()
        invariant
            i <= buf.lines@.len(),
            r@ == buf.lines@.subrange(0, i as int),
        decreases buf.lines@.len() - i,
    {
        r.push(buf.lines[i].clone());
        i = i + 1;
        assert(r@ =~= buf.lines@.subrange(0, i as int));
    }
    assert(buf.lines@.subrange(0, buf.lines@.len() as int) == buf.lines@);
    r
}

/// Forgets every line.
pub fn clear_logs(buf: &mut LogBuffer)
    ensures
        final(buf).lines@.len() == 0,
{
    buf.lines = Vec::new();
}

} // verus!

verus! {

/// `n < 1000` as exactly three decimal digits.
pub open spec fn three_digits(n: nat) -> Seq<char> {
    seq![crate::text::digit_char(n / 100), crate::text::digit_char((n / 10) % 10), crate::text::digit_char(n % 10)]
}

/// Elapsed time in seconds with three decimals, from microseconds rounded
/// to the nearest millisecond (halves up).
pub open spec fn seconds_text(elapsed_us: u64) -> Seq<char> {
    let ms = (elapsed_us as nat + 500) / 1000;
    crate::text::decimal_spec(ms / 1000) + seq!['.'] + three_digits(ms % 1000)
}

/// One access-log line:
/// `[NODE node] [-] ip - - [time] "METHOD uri HTTP/1.1" status - "referer" "ua" S.mmms`.
pub open spec fn access_log_spec(
    node: Seq<char>,
    ip: Seq<char>,
    time_local: Seq<char>,
    method: Seq<char>,
    uri: Seq<char>,
    status: u16,
    referer: Seq<char>,
    user_agent: Seq<char>,
    elapsed_us: u64,
) -> Seq<char> {
    "[NODE "@ + node + "] [-] "@ + ip + " - - ["@ + time_local + "] \""@ + method + seq![' '] + uri + " HTTP/1.1\" "@
        + crate::text::decimal_spec(status as nat) + " - \""@ + referer + "\" \""@ + user_agent + "\" "@
        + seconds_text(elapsed_us) + seq!['s']
}

/// Formats the access-log line of a completed request (see
/// `access_log_spec`); `time_local` is the local time already formatted.
pub fn format_access_log(
    node: &str,
    ip: &str,
    time_local: &str,
    method: &str,
    uri: &str,
    status: u16,
    referer: &str,
    user_agent: &str,
    elapsed_us: u64,
) -> (r: String)
    ensures
        r@ == access_log_spec(node@, ip@, time_local@, method@, uri@, status, referer@, user_agent@, elapsed_us),
{
    let mut out = String::new();
    crate::text::push_str(&mut out, "[NODE ");
    crate::text::push_str(&mut out, node);
    crate::text::push_str(&mut out, "] [-] ");
    crate::text::push_str(&mut out, ip);
    crate::text::push_str(&mut out, " - - [");
    crate::text::push_str(&mut out, time_local);
    crate::text::push_str(&mut out, "] \"");
    crate::text::push_str(&mut out, method);
    out.push(' ');
    crate::text::push_str(&mut out, uri);
    crate::text::push_str(&mut out, " HTTP/1.1\" ");
    crate::text::push_str(&mut out, crate::text::u64_to_decimal(status as u64).as_str());
    crate::text::push_str(&mut out, " - \"");
    crate::text::push_str(&mut out, referer);
    crate::text::push_str(&mut out, "\" \"");
    crate::text::push_str(&mut out, user_agent);
    crate::text::push_str(&mut out, "\" ");
    let ms: u64 = elapsed_us / 1000 + (if elapsed_us % 1000 >= 500 { 1u64 } else { 0u64 });
    assert(ms as nat == (elapsed_us as nat + 500) / 1000);
    crate::text::push_str(&mut out, crate::text::u64_to_decimal(ms / 1000).as_str());
    out.push('.');
    let f = ms % 1000;
    out.push(((f / 100) as u8 + 48) as char);
    out.push((((f / 10) % 10) as u8 + 48) as char);
    out.push(((f % 10) as u8 + 48) as char);
    out.push('s');
    assert(out@ =~= access_log_spec(node@, ip@, time_local@, method@, uri@, status, referer@, user_agent@, elapsed_us));
    out
}

} // verus!

verus! {

/// Reported to the shell when a listener fails to start.
#[derive(Clone, Debug)]
pub struct RuleStartErrorPayload {
    pub listen_addr: String,
    pub error: String,
}

} // verus!
