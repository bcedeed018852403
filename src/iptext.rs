//! Reading and writing IP addresses as text.
use vstd::prelude::*;
use crate::ip::IpAddr;
use crate::text::{chars_of, trim, trim_spec, decimal_spec, u64_to_decimal, push_str};

verus! {

/// The value of a decimal digit.
pub open spec fn dec_val(c: char) -> Option<nat> {
    if '0' <= c && c <= '9' { Some((c as nat - '0' as nat) as nat) } else { None }
}

/// The value of a hexadecimal digit (either case).
pub open spec fn hex_val(c: char) -> Option<nat> {
    if '0' <= c && c <= '9' {
        Some((c as nat - '0' as nat) as nat)
    } else if 'a' <= c && c <= 'f' {
        Some((c as nat - 'a' as nat + 10) as nat)
    } else if 'A' <= c && c <= 'F' {
        Some((c as nat - 'A' as nat + 10) as nat)
    } else {
        None
    }
}

/// How many digits (at most `max`) start at `j`, decimal or hexadecimal.
pub open spec fn digit_run(s: Seq<char>, j: int, max: nat, hex: bool) -> nat
    decreases max,
{
    if max == 0 || j < 0 || j >= s.len() || (if hex { hex_val(s[j]) is None } else { dec_val(s[j]) is None }) {
        0
    } else {
        1 + digit_run(s, j + 1, (max - 1) as nat, hex)
    }
}

/// The value of the `n` digits at `j` in base 10 or 16.
pub open spec fn digits_value(s: Seq<char>, j: int, n: nat, hex: bool) -> nat
    decreases n,
{
    if n == 0 {
        0
    } else {
        let d = if hex { hex_val(s[j + n - 1]) } else { dec_val(s[j + n - 1]) };
        digits_value(s, j, (n - 1) as nat, hex) * (if hex { 16nat } else { 10nat }) + match d {
            Some(v) => v,
            None => 0,
        }
    }
}

/// A decimal octet at `j`: one to three digits, no leading zero, below
/// 256; gives its value and the index after it.
pub open spec fn dec_octet(s: Seq<char>, j: int) -> Option<(nat, int)> {
    let n = digit_run(s, j, 3, false);
    let v = digits_value(s, j, n, false);
    if n == 0 || (n > 1 && s[j] == '0') || v > 255 {
        None
    } else {
        Some((v, j + n))
    }
}

/// Dotted-quad octets `k..3` from `j` to the end of `s`, `acc` holding the
/// octets read so far.
pub open spec fn v4_from(s: Seq<char>, j: int, k: nat, acc: nat) -> Option<nat>
    decreases 4 - k,
{
    if k > 3 {
        None
    } else {
        match dec_octet(s, j) {
            None => None,
            Some((v, e)) => {
                let acc2 = acc * 256 + v;
                if k == 3 {
                    if e == s.len() { Some(acc2) } else { None }
                } else if e < s.len() && s[e] == '.' {
                    v4_from(s, e + 1, k + 1, acc2)
                } else {
                    None
                }
            },
        }
    }
}

/// `s[j..]` as a whole dotted-quad IPv4 address.
pub open spec fn v4_text(s: Seq<char>, j: int) -> Option<nat> {
    v4_from(s, j, 0, 0)
}

/// A group of one to four hexadecimal digits at `j`.
pub open spec fn hex_group(s: Seq<char>, j: int) -> Option<(nat, int)> {
    let n = digit_run(s, j, 4, true);
    if n == 0 { None } else { Some((digits_value(s, j, n, true), j + n)) }
}

/// Groups of an IPv6 address read from `j`, group `k` first, within
/// `limit` groups: a trailing dotted quad (two groups) ends the list; a
/// group is followed by more only through one `:` that leads to another
/// group. Gives the group values, the index after them, and whether a
/// dotted quad ended them.
pub open spec fn groups_at(s: Seq<char>, j: int, k: nat, limit: nat) -> Option<(Seq<nat>, int, bool)>
    decreases limit - k,
{
    if k >= limit {
        None
    } else if k + 1 < limit && v4_text(s, j) is Some {
        let a = v4_text(s, j)->0;
        Some((seq![a / 65536, a % 65536], s.len() as int, true))
    } else {
        match hex_group(s, j) {
            None => None,
            Some((v, e)) => if k + 1 < limit && e < s.len() && s[e] == ':' && groups_at(s, e + 1, k + 1, limit) is Some {
                let r = groups_at(s, e + 1, k + 1, limit)->0;
                Some((seq![v] + r.0, r.1, r.2))
            } else {
                Some((seq![v], e, false))
            },
        }
    }
}

/// Sixteen-bit groups as one number, first group most significant.
pub open spec fn groups_value(g: Seq<nat>) -> nat
    decreases g.len(),
{
    if g.len() == 0 { 0 } else { groups_value(g.drop_last()) * 65536 + g.last() }
}

/// `n` zero groups.
pub open spec fn zero_groups(n: nat) -> Seq<nat> {
    Seq::new(n, |i: int| 0nat)
}

/// An IPv6 address in text: eight groups, or head groups, `::` standing
/// for at least one zero group, and tail groups; the last two groups may
/// be written as a dotted quad.
pub open spec fn v6_text(s: Seq<char>) -> Option<nat> {
    let head = if s.len() > 0 { groups_at(s, 0, 0, 8) } else { None };
    let (hg, hend, hv4) = match head {
        Some(x) => x,
        None => (Seq::<nat>::empty(), 0int, false),
    };
    if hg.len() == 8 {
        if hend == s.len() { Some(groups_value(hg)) } else { None }
    } else if hv4 || hg.len() > 8 {
        None
    } else if !(hend + 1 < s.len() && s[hend] == ':' && s[hend + 1] == ':') {
        None
    } else {
        let limit = (8 - (hg.len() + 1)) as nat;
        let t = hend + 2;
        let tail = if limit > 0 { groups_at(s, t, 0, limit) } else { None };
        let (tg, tend) = match tail {
            Some(x) => (x.0, x.1),
            None => (Seq::<nat>::empty(), t),
        };
        if tend != s.len() || hg.len() + tg.len() > 7 {
            None
        } else {
            Some(groups_value(hg + zero_groups((8 - hg.len() - tg.len()) as nat) + tg))
        }
    }
}

/// An IP address in text, surrounding whitespace ignored: IPv4 when it is
/// a dotted quad, else IPv6.
pub open spec fn parse_ip_spec(s: Seq<char>) -> Option<IpAddr> {
    let t = trim_spec(s);
    match v4_text(t, 0) {
        Some(a) => if a <= u32::MAX { Some(IpAddr::V4(a as u32)) } else { None },
        None => match v6_text(t) {
            Some(x) => if x <= u128::MAX { Some(IpAddr::V6(x as u128)) } else { None },
            None => None,
        },
    }
}

} // verus!

verus! {

/// `b` to the power `n`.
pub open spec fn pw(b: nat, n: nat) -> nat
    decreases n,
{
    if n == 0 { 1 } else { b * pw(b, (n - 1) as nat) }
}

fn dec_val_exec(c: char) -> (r: Option<u32>)
    ensures
        match r {
            Some(v) => dec_val(c) == Some(v as nat) && v < 10,
            None => dec_val(c) is None,
        },
{
    if '0' <= c && c <= '9' { Some((c as u32) - ('0' as u32)) } else { None }
}

fn hex_val_exec(c: char) -> (r: Option<u32>)
    ensures
        match r {
            Some(v) => hex_val(c) == Some(v as nat) && v < 16,
            None => hex_val(c) is None,
        },
{
    if '0' <= c && c <= '9' {
        Some((c as u32) - ('0' as u32))
    } else if 'a' <= c && c <= 'f' {
        Some((c as u32) - ('a' as u32) + 10)
    } else if 'A' <= c && c <= 'F' {
        Some((c as u32) - ('A' as u32) + 10)
    } else {
        None
    }
}

fn digit_exec(c: char, hex: bool) -> (r: Option<u32>)
    ensures
        match r {
            Some(v) => (if hex { hex_val(c) } else { dec_val(c) }) == Some(v as nat) && v < (if hex { 16u32 } else { 10u32 }),
            None => (if hex { hex_val(c) } else { dec_val(c) }) is None,
        },
{
    if hex { hex_val_exec(c) } else { dec_val_exec(c) }
}

/// Reads up to `max` digits at `j`: their count and value.
fn read_digits(v: &Vec<char>, j: usize, max: usize, hex: bool) -> (r: (usize, u64))
    requires
        j <= v@.len(),
        max <= 5,
    ensures
        r.0 as nat == digit_run(v@, j as int, max as nat, hex),
        r.1 as nat == digits_value(v@, j as int, r.0 as nat, hex),
        r.0 <= max,
        j + r.0 <= v@.len(),
        r.1 < pw(if hex { 16nat } else { 10nat }, r.0 as nat),
{
    let base: u64 = if hex { 16 } else { 10 };
    let ghost b: nat = if hex { 16nat } else { 10nat };
    let mut n: usize = 0;
    let mut val: u64 = 0;
    let len = v.len();
    proof {
        reveal_with_fuel(pw, 5);
    }
    loop
        invariant
            len == v@.len(),
            b == (if hex { 16nat } else { 10nat }),
            n <= max <= 5,
            j <= v@.len(),
            j + n <= v@.len(),
            base as nat == b,
            digit_run(v@, j as int, max as nat, hex) == n + digit_run(v@, j + n, (max - n) as nat, hex),
            val as nat == digits_value(v@, j as int, n as nat, hex),
            val < pw(b, n as nat),
            pw(b, n as nat) <= 1048576,
        ensures
            digit_run(v@, j + n, (max - n) as nat, hex) == 0,
            n <= max,
            j + n <= v@.len(),
            val as nat == digits_value(v@, j as int, n as nat, hex),
            val < pw(b, n as nat),
        decreases max - n,
    {
        if n >= max || n >= len - j {
            break;
        }
        match digit_exec(v[j + n], hex) {
            None => {
                break;
            },
            Some(d) => {
                proof {
                    reveal_with_fuel(pw, 5);
                    assert(pw(b, (n + 1) as nat) == b * pw(b, n as nat));
                    if n == 0 { assert(pw(b, 1) <= 16); }
                    if n == 1 { assert(pw(b, 2) <= 256); }
                    if n == 2 { assert(pw(b, 3) <= 4096); }
                    if n == 3 { assert(pw(b, 4) <= 65536); }
                    if n == 4 { assert(pw(b, 5) <= 1048576); }
                    if hex {
                        assert(d < 16);
                    } else {
                        assert(d < 10);
                    }
                    assert(d < b);
                    assert(b <= 16);
                    assert(val * b + d < b * pw(b, n as nat)) by (nonlinear_arith)
                        requires val < pw(b, n as nat), d < b, b >= 1;
                }
                val = val * base + d as u64;
                n = n + 1;
            },
        }
    }
    (n, val)
}

/// A decimal octet at `j` (see `dec_octet`).
fn dec_octet_exec(v: &Vec<char>, j: usize) -> (r: Option<(u64, usize)>)
    requires
        j <= v@.len(),
    ensures
        match r {
            Some((x, e)) => dec_octet(v@, j as int) == Some((x as nat, e as int)) && x <= 255 && e <= v@.len(),
            None => dec_octet(v@, j as int) is None,
        },
{
    let (n, val) = read_digits(v, j, 3, false);
    let len = v.len();
    assert(j + n <= len);
    if n == 0 || (n > 1 && v[j] == '0') || val > 255 {
        None
    } else {
        Some((val, j + n))
    }
}

/// Dotted-quad octets `k..3` from `j` (see `v4_from`).
fn v4_from_exec(v: &Vec<char>, j: usize, k: usize, acc: u64) -> (r: Option<u64>)
    requires
        j <= v@.len(),
        k <= 3,
        acc < pw(256, k as nat),
    ensures
        match r {
            Some(a) => v4_from(v@, j as int, k as nat, acc as nat) == Some(a as nat) && a <= u32::MAX,
            None => v4_from(v@, j as int, k as nat, acc as nat) is None,
        },
    decreases 4 - k,
{
    match dec_octet_exec(v, j) {
        None => None,
        Some((x, e)) => {
            proof {
                reveal_with_fuel(pw, 5);
                assert(pw(256, (k + 1) as nat) == 256 * pw(256, k as nat));
                assert(acc * 256 + x < 256 * pw(256, k as nat)) by (nonlinear_arith)
                    requires acc < pw(256, k as nat), x <= 255;
                assert(pw(256, 1) == 256);
                assert(pw(256, 2) == 65536);
                assert(pw(256, 3) == 16777216);
                assert(pw(256, 4) == 4294967296);
            }
            let acc2 = acc * 256 + x;
            if k == 3 {
                if e == v.len() { Some(acc2) } else { None }
            } else if e < v.len() && v[e] == '.' {
                v4_from_exec(v, e + 1, k + 1, acc2)
            } else {
                None
            }
        },
    }
}

/// `v[j..]` as a whole dotted quad.
fn v4_text_exec(v: &Vec<char>, j: usize) -> (r: Option<u32>)
    requires
        j <= v@.len(),
    ensures
        match r {
            Some(a) => v4_text(v@, j as int) == Some(a as nat),
            None => v4_text(v@, j as int) is None,
        },
{
    proof {
        assert(pw(256, 0) == 1);
    }
    match v4_from_exec(v, j, 0, 0) {
        Some(a) => Some(a as u32),
        None => None,
    }
}

/// A hexadecimal group at `j` (see `hex_group`).
fn hex_group_exec(v: &Vec<char>, j: usize) -> (r: Option<(u64, usize)>)
    requires
        j <= v@.len(),
    ensures
        match r {
            Some((x, e)) => hex_group(v@, j as int) == Some((x as nat, e as int)) && x < 65536 && e <= v@.len(),
            None => hex_group(v@, j as int) is None,
        },
{
    let (n, val) = read_digits(v, j, 4, true);
    let len = v.len();
    assert(j + n <= len);
    proof {
        reveal_with_fuel(pw, 5);
        assert(n <= 4);
        if n == 1 { assert(pw(16, 1) == 16); }
        if n == 2 { assert(pw(16, 2) == 256); }
        if n == 3 { assert(pw(16, 3) == 4096); }
        if n == 4 { assert(pw(16, 4) == 65536); }
    }
    if n == 0 {
        None
    } else {
        Some((val, j + n))
    }
}

/// The group values of `groups_at` as numbers.
pub open spec fn nat_groups(g: Seq<u64>) -> Seq<nat> {
    g.map_values(|x: u64| x as nat)
}

/// IPv6 groups from `j` (see `groups_at`).
fn groups_at_exec(v: &Vec<char>, j: usize, k: usize, limit: usize) -> (r: Option<(Vec<u64>, usize, bool)>)
    requires
        j <= v@.len(),
        limit <= 8,
    ensures
        match r {
            Some((g, e, f)) => groups_at(v@, j as int, k as nat, limit as nat) == Some((nat_groups(g@), e as int, f))
                && e <= v@.len() && g@.len() + k <= limit && g@.len() >= 1
                && forall|i: int| 0 <= i < g@.len() ==> #[trigger] g@[i] < 65536,
            None => groups_at(v@, j as int, k as nat, limit as nat) is None,
        },
    decreases limit - k,
{
    if k >= limit {
        return None;
    }
    if k + 1 < limit {
        match v4_text_exec(v, j) {
            Some(a) => {
                let mut g: Vec<u64> = Vec::new();
                g.push((a / 65536) as u64);
                g.push((a % 65536) as u64);
                assert(nat_groups(g@) =~= seq![a as nat / 65536, a as nat % 65536]);
                return Some((g, v.len(), true));
            },
            None => {},
        }
    }
    match hex_group_exec(v, j) {
        None => None,
        Some((x, e)) => {
            if k + 1 < limit && e < v.len() && v[e] == ':' {
                match groups_at_exec(v, e + 1, k + 1, limit) {
                    Some((rest, e2, f)) => {
                        let mut g: Vec<u64> = Vec::new();
                        g.push(x);
                        let mut i: usize = 0;
                        while i < rest.len()
                            invariant
                                i <= rest@.len(),
                                g@ == seq![x] + rest@.subrange(0, i as int),
                            decreases rest@.len() - i,
                        {
                            g.push(rest[i]);
                            i = i + 1;
                            assert(g@ =~= seq![x] + rest@.subrange(0, i as int));
                        }
                        assert(rest@.subrange(0, rest@.len() as int) == rest@);
                        assert(nat_groups(g@) =~= seq![x as nat] + nat_groups(rest@));
                        assert forall|i: int| 0 <= i < g@.len() implies #[trigger] g@[i] < 65536 by {
                            if i > 0 {
                                assert(g@[i] == rest@[i - 1]);
                            }
                        }
                        return Some((g, e2, f));
                    },
                    None => {},
                }
            }
            let mut g: Vec<u64> = Vec::new();
            g.push(x);
            assert(nat_groups(g@) =~= seq![x as nat]);
            Some((g, e, false))
        },
    }
}

} // verus!

verus! {

proof fn lemma_pw_mono(b: nat, m: nat, n: nat)
    requires
        b >= 1,
        m <= n,
    ensures
        pw(b, m) <= pw(b, n),
        pw(b, m) >= 1,
    decreases n,
{
    if n > 0 && m < n {
        lemma_pw_mono(b, m, (n - 1) as nat);
        assert(pw(b, (n - 1) as nat) <= b * pw(b, (n - 1) as nat)) by (nonlinear_arith)
            requires b >= 1, pw(b, (n - 1) as nat) >= 1;
    } else if n > 0 {
        lemma_pw_mono(b, 0, (n - 1) as nat);
        assert(b * pw(b, (n - 1) as nat) >= 1) by (nonlinear_arith)
            requires b >= 1, pw(b, (n - 1) as nat) >= 1;
    }
}

/// The number made of at most eight 16-bit groups.
fn groups_value_exec(g: &Vec<u64>) -> (r: u128)
    requires
        g@.len() <= 8,
        forall|i: int| 0 <= i < g@.len() ==> #[trigger] g@[i] < 65536,
    ensures
        r as nat == groups_value(nat_groups(g@)),
{
    let mut acc: u128 = 0;
    let mut i: usize = 0;
    proof {
        reveal_with_fuel(pw, 9);
        assert(pw(65536, 8) == 0x1_0000_0000_0000_0000_0000_0000_0000_0000);
    }
    while i < g.len()
        invariant
            i <= g@.len() <= 8,
            forall|k: int| 0 <= k < g@.len() ==> #[trigger] g@[k] < 65536,
            acc as nat == groups_value(nat_groups(g@.subrange(0, i as int))),
            acc < pw(65536, i as nat),
            pw(65536, 8) == 0x1_0000_0000_0000_0000_0000_0000_0000_0000,
        decreases g@.len() - i,
    {
        proof {
            lemma_pw_mono(65536, (i + 1) as nat, 8);
            assert(pw(65536, (i + 1) as nat) == 65536 * pw(65536, i as nat));
            assert(acc * 65536 + g@[i as int] < 65536 * pw(65536, i as nat)) by (nonlinear_arith)
                requires acc < pw(65536, i as nat), g@[i as int] < 65536;
            assert(nat_groups(g@.subrange(0, i + 1)).drop_last() =~= nat_groups(g@.subrange(0, i as int)));
        }
        acc = acc * 65536 + g[i] as u128;
        i = i + 1;
    }
    assert(g@.subrange(0, g@.len() as int) == g@);
    acc
}

/// Head groups, zero groups up to eight in all, tail groups.
fn assemble_groups(hg: &Vec<u64>, tg: &Vec<u64>) -> (all: Vec<u64>)
    requires
        hg@.len() + tg@.len() <= 8,
        forall|k: int| 0 <= k < hg@.len() ==> #[trigger] hg@[k] < 65536,
        forall|k: int| 0 <= k < tg@.len() ==> #[trigger] tg@[k] < 65536,
    ensures
        nat_groups(all@) == nat_groups(hg@) + zero_groups((8 - hg@.len() - tg@.len()) as nat) + nat_groups(tg@),
        all@.len() == 8,
        forall|k: int| 0 <= k < all@.len() ==> #[trigger] all@[k] < 65536,
{
    let mut all: Vec<u64> = Vec::new();
    let mut i: usize = 0;
    while i < hg.len()
        invariant
            i <= hg@.len(),
            all@ == hg@.subrange(0, i as int),
        decreases hg@.len() - i,
    {
        all.push(hg[i]);
        i = i + 1;
        assert(all@ =~= hg@.subrange(0, i as int));
    }
    let zeros = 8 - hg.len() - tg.len();
    let mut z: usize = 0;
    while z < zeros
        invariant
            z <= zeros,
            all@ == hg@ + Seq::new(z as nat, |k: int| 0u64),
        decreases zeros - z,
    {
        all.push(0);
        z = z + 1;
        assert(all@ =~= hg@ + Seq::new(z as nat, |k: int| 0u64));
    }
    let mut j: usize = 0;
    while j < tg.len()
        invariant
            j <= tg@.len(),
            all@ == hg@ + Seq::new(zeros as nat, |k: int| 0u64) + tg@.subrange(0, j as int),
        decreases tg@.len() - j,
    {
        all.push(tg[j]);
        j = j + 1;
        assert(all@ =~= hg@ + Seq::new(zeros as nat, |k: int| 0u64) + tg@.subrange(0, j as int));
    }
    assert(hg@.subrange(0, hg@.len() as int) == hg@);
    assert(tg@.subrange(0, tg@.len() as int) == tg@);
    assert(nat_groups(all@) =~= nat_groups(hg@) + zero_groups(zeros as nat) + nat_groups(tg@));
    assert forall|k: int| 0 <= k < all@.len() implies #[trigger] all@[k] < 65536 by {
        if k < hg@.len() {
            assert(all@[k] == hg@[k]);
        } else if k < hg@.len() + zeros {
            assert(all@[k] == 0);
        } else {
            assert(all@[k] == tg@[k - hg@.len() - zeros]);
        }
    }
    all
}

/// An IPv6 address in text (see `v6_text`).
fn v6_text_exec(v: &Vec<char>) -> (r: Option<u128>)
    ensures
        match r {
            Some(x) => v6_text(v@) == Some(x as nat),
            None => v6_text(v@) is None,
        },
{
    let len = v.len();
    let head = if len > 0 { groups_at_exec(v, 0, 0, 8) } else { None };
    let (hg, hend, hv4) = match head {
        Some(x) => x,
        None => (Vec::new(), 0, false),
    };
    assert(head is None ==> nat_groups(hg@) =~= Seq::<nat>::empty());
    if hg.len() == 8 {
        if hend == len {
            return Some(groups_value_exec(&hg));
        } else {
            return None;
        }
    }
    if hv4 || hg.len() > 8 {
        return None;
    }
    if !(len >= 2 && hend < len - 1 && v[hend] == ':' && v[hend + 1] == ':') {
        return None;
    }
    let limit = 8 - (hg.len() + 1);
    let t = hend + 2;
    let tail = if limit > 0 { groups_at_exec(v, t, 0, limit) } else { None };
    let (tg, tend) = match tail {
        Some(x) => (x.0, x.1),
        None => (Vec::new(), t),
    };
    assert(tail is None ==> nat_groups(tg@) =~= Seq::<nat>::empty());
    if tend != len || hg.len() + tg.len() > 7 {
        return None;
    }
    let all = assemble_groups(&hg, &tg);
    Some(groups_value_exec(&all))
}

/// Parses an IP address, ignoring surrounding whitespace: a dotted quad
/// gives IPv4, else the text is read as IPv6.
pub fn parse_ip(s: &str) -> (r: Option<IpAddr>)
    ensures
        r == parse_ip_spec(s@),
{
    let t = trim(s);
    let v = chars_of(t.as_str());
    match v4_text_exec(&v, 0) {
        Some(a) => Some(IpAddr::V4(a)),
        None => match v6_text_exec(&v) {
            Some(x) => Some(IpAddr::V6(x)),
            None => None,
        },
    }
}

} // verus!

verus! {

/// Group `i` (0 = most significant) of an IPv6 address.
pub open spec fn group_of(x: u128, i: int) -> nat {
    ((x >> (((7 - i) * 16) as u128)) & 0xffffu128) as nat
}

/// The eight groups of an IPv6 address.
pub open spec fn v6_groups(x: u128) -> Seq<nat> {
    Seq::new(8, |i: int| group_of(x, i))
}

/// Lower-case hexadecimal digit for `d < 16`.
pub open spec fn hex_char(d: nat) -> char {
    if d < 10 { ((d + 48) as u8) as char } else { ((d + 87) as u8) as char }
}

/// Lower-case hexadecimal text of `n`, without leading zeros.
pub open spec fn hex_text(n: nat) -> Seq<char>
    decreases n,
{
    if n < 16 { seq![hex_char(n)] } else { hex_text(n / 16).push(hex_char(n % 16)) }
}

/// Groups in hexadecimal joined by `:`.
pub open spec fn join_groups(g: Seq<nat>) -> Seq<char>
    decreases g.len(),
{
    if g.len() == 0 {
        Seq::empty()
    } else if g.len() == 1 {
        hex_text(g[0])
    } else {
        join_groups(g.drop_last()) + seq![':'] + hex_text(g.last())
    }
}

/// Number of zero groups starting at `i`.
pub open spec fn zero_run(g: Seq<nat>, i: int) -> nat
    decreases g.len() - i,
{
    if i < 0 || i >= g.len() || g[i] != 0 { 0 } else { 1 + zero_run(g, i + 1) }
}

/// Start and length of the first longest run of zero groups starting
/// before `n`.
pub open spec fn best_run(g: Seq<nat>, n: nat) -> (nat, nat)
    decreases n,
{
    if n == 0 {
        (0, 0)
    } else {
        let b = best_run(g, (n - 1) as nat);
        let l = zero_run(g, n - 1);
        if l > b.1 { ((n - 1) as nat, l) } else { b }
    }
}

/// The text of an IPv6 address: groups in lower-case hexadecimal without
/// leading zeros, the first longest run of two or more zero groups written
/// as `::`.
pub open spec fn v6_string(x: u128) -> Seq<char> {
    let g = v6_groups(x);
    let (st, ln) = best_run(g, 8);
    if ln >= 2 {
        join_groups(g.subrange(0, st as int)) + seq![':', ':'] + join_groups(g.subrange((st + ln) as int, 8))
    } else {
        join_groups(g)
    }
}

/// The dotted-quad text of an IPv4 address.
pub open spec fn v4_string(a: u32) -> Seq<char> {
    decimal_spec((a >> 24u32) as nat) + seq!['.'] + decimal_spec(((a >> 16u32) & 0xffu32) as nat) + seq!['.']
        + decimal_spec(((a >> 8u32) & 0xffu32) as nat) + seq!['.'] + decimal_spec((a & 0xffu32) as nat)
}

/// The text of an address.
pub open spec fn ip_text(ip: IpAddr) -> Seq<char> {
    match ip {
        IpAddr::V4(a) => v4_string(a),
        IpAddr::V6(x) => v6_string(x),
    }
}

fn hex_text_exec(out: &mut String, n: u64)
    ensures
        final(out)@ == old(out)@ + hex_text(n as nat),
    decreases n,
{
    if n < 16 {
        let c: char = if n < 10 { ((n as u8) + 48) as char } else { ((n as u8) + 87) as char };
        out.push(c);
    } else {
        hex_text_exec(out, n / 16);
        let d = n % 16;
        let c: char = if d < 10 { ((d as u8) + 48) as char } else { ((d as u8) + 87) as char };
        out.push(c);
        assert(out@ =~= old(out)@ + hex_text(n as nat));
    }
}

fn join_groups_exec(out: &mut String, g: &Vec<u64>, from: usize, to: usize)
    requires
        from <= to <= g@.len(),
    ensures
        final(out)@ == old(out)@ + join_groups(nat_groups(g@.subrange(from as int, to as int))),
{
    let mut i: usize = from;
    assert(nat_groups(g@.subrange(from as int, from as int)) =~= Seq::<nat>::empty());
    while i < to
        invariant
            from <= i <= to <= g@.len(),
            out@ == old(out)@ + join_groups(nat_groups(g@.subrange(from as int, i as int))),
        decreases to - i,
    {
        let ghost before = nat_groups(g@.subrange(from as int, i as int));
        if i > from {
            out.push(':');
        }
        hex_text_exec(out, g[i]);
        i = i + 1;
        assert(nat_groups(g@.subrange(from as int, i as int)).drop_last() =~= before);
        assert(out@ =~= old(out)@ + join_groups(nat_groups(g@.subrange(from as int, i as int))));
    }
}

/// The eight groups of an IPv6 address, as numbers.
fn groups_of(x: u128) -> (g: Vec<u64>)
    ensures
        nat_groups(g@) == v6_groups(x),
        g@.len() == 8,
{
    let mut g: Vec<u64> = Vec::new();
    let mut i: usize = 0;
    while i < 8
        invariant
            i <= 8,
            g@.len() == i,
            forall|k: int| 0 <= k < i ==> #[trigger] g@[k] as nat == group_of(x, k),
        decreases 8 - i,
    {
        let sh: u128 = ((7 - i) * 16) as u128;
        let y = (x >> sh) & 0xffffu128;
        assert(y <= 0xffffu128) by (bit_vector)
            requires y == (x >> sh) & 0xffffu128;
        assert(y as nat == group_of(x, i as int));
        g.push(y as u64);
        i = i + 1;
    }
    assert(nat_groups(g@) =~= v6_groups(x));
    g
}

/// The text of an address, IPv4-mapped IPv6 addresses folded to IPv4.
pub open spec fn ip_to_string_spec(ip: IpAddr) -> Seq<char> {
    ip_text(crate::ip::fold_spec(ip))
}

/// The text of an address; an IPv4-mapped IPv6 address is written as the
/// IPv4 address it maps.
pub fn ip_to_string(ip: &IpAddr) -> (r: String)
    ensures
        r@ == ip_to_string_spec(*ip),
{
    match crate::ip::to_ipv4_mapped(ip) {
        IpAddr::V4(a) => {
            let mut r = u64_to_decimal((a >> 24u32) as u64);
            r.push('.');
            push_str(&mut r, u64_to_decimal(((a >> 16u32) & 0xffu32) as u64).as_str());
            r.push('.');
            push_str(&mut r, u64_to_decimal(((a >> 8u32) & 0xffu32) as u64).as_str());
            r.push('.');
            push_str(&mut r, u64_to_decimal((a & 0xffu32) as u64).as_str());
            r
        },
        IpAddr::V6(x) => {
            let g = groups_of(x);
            let ghost gs = v6_groups(x);
            let mut best_start: usize = 0;
            let mut best_len: usize = 0;
            let mut i: usize = 0;
            while i < 8
                invariant
                    i <= 8,
                    g@.len() == 8,
                    nat_groups(g@) == gs,
                    (best_start as nat, best_len as nat) == best_run(gs, i as nat),
                    best_start + best_len <= 8,
                decreases 8 - i,
            {
                let mut l: usize = 0;
                while i + l < 8 && g[i + l] == 0
                    invariant
                        i < 8,
                        i + l <= 8,
                        g@.len() == 8,
                        nat_groups(g@) == gs,
                        zero_run(gs, i as int) == l + zero_run(gs, (i + l) as int),
                    decreases 8 - i - l,
                {
                    assert(gs[(i + l) as int] == g@[(i + l) as int] as nat);
                    l = l + 1;
                }
                proof {
                    if i + l < 8 {
                        assert(gs[(i + l) as int] == g@[(i + l) as int] as nat);
                    }
                }
                if l > best_len {
                    best_start = i;
                    best_len = l;
                }
                i = i + 1;
            }
            let mut r = String::new();
            if best_len >= 2 {
                join_groups_exec(&mut r, &g, 0, best_start);
                r.push(':');
                r.push(':');
                join_groups_exec(&mut r, &g, best_start + best_len, 8);
                assert(nat_groups(g@.subrange(0, best_start as int)) =~= gs.subrange(0, best_start as int));
                assert(nat_groups(g@.subrange((best_start + best_len) as int, 8)) =~= gs.subrange((best_start + best_len) as int, 8));
            } else {
                join_groups_exec(&mut r, &g, 0, 8);
                assert(g@.subrange(0, 8) == g@);
            }
            r
        },
    }
}

} // verus!

verus! {

/// A listener address: address, port, and whether it was written as a
/// bare `:port` (every interface, IPv6 dual stack).
#[derive(Clone, Copy, Debug, PartialEq, Eq, Structural)]
pub struct ListenAddr {
    pub ip: IpAddr,
    pub port: u16,
    pub dual_stack: bool,
}

/// A port: one or more decimal digits, at most 65535.
pub open spec fn port_spec(s: Seq<char>) -> Option<nat> {
    if s.len() == 0 || s.len() > 5 || digit_run(s, 0, 5, false) != s.len() {
        None
    } else if digits_value(s, 0, s.len(), false) > 65535 {
        None
    } else {
        Some(digits_value(s, 0, s.len(), false))
    }
}

/// Index of the first `c` in `s`, if any.
pub open spec fn index_of(s: Seq<char>, c: char) -> Option<int> {
    if exists|i: int| 0 <= i < s.len() && s[i] == c {
        Some(choose|i: int| 0 <= i < s.len() && s[i] == c && forall|j: int| 0 <= j < i ==> s[j] != c)
    } else {
        None
    }
}

/// A listen address in text, whitespace trimmed: `:port` (every
/// interface), `[v6]:port`, or `a.b.c.d:port`.
pub open spec fn listen_addr_spec(s: Seq<char>) -> Option<ListenAddr> {
    let t = trim_spec(s);
    if t.len() == 0 {
        None
    } else if t[0] == ':' {
        match port_spec(t.drop_first()) {
            Some(p) => Some(ListenAddr { ip: IpAddr::V6(0), port: p as u16, dual_stack: true }),
            None => None,
        }
    } else if t[0] == '[' {
        match index_of(t, ']') {
            Some(k) => if k + 1 < t.len() && t[k + 1] == ':' {
                match (v6_text(t.subrange(1, k)), port_spec(t.subrange(k + 2, t.len() as int))) {
                    (Some(x), Some(p)) => if x <= u128::MAX { Some(ListenAddr { ip: IpAddr::V6(x as u128), port: p as u16, dual_stack: false }) } else { None },
                    _ => None,
                }
            } else {
                None
            },
            None => None,
        }
    } else {
        match index_of(t, ':') {
            Some(k) => match (v4_text(t.subrange(0, k), 0), port_spec(t.subrange(k + 1, t.len() as int))) {
                (Some(a), Some(p)) => if a <= u32::MAX { Some(ListenAddr { ip: IpAddr::V4(a as u32), port: p as u16, dual_stack: false }) } else { None },
                _ => None,
            },
            None => None,
        }
    }
}

fn port_exec(v: &Vec<char>) -> (r: Option<u16>)
    ensures
        match r {
            Some(p) => port_spec(v@) == Some(p as nat),
            None => port_spec(v@) is None,
        },
{
    if v.len() == 0 || v.len() > 5 {
        return None;
    }
    let (n, val) = read_digits(v, 0, 5, false);
    if n != v.len() {
        return None;
    }
    if val > 65535 {
        None
    } else {
        Some(val as u16)
    }
}

fn find_char(v: &Vec<char>, c: char) -> (r: Option<usize>)
    ensures
        match r {
            Some(k) => index_of(v@, c) == Some(k as int) && k < v@.len(),
            None => index_of(v@, c) is None,
        },
{
    let mut i: usize = 0;
    while i < v.len()
        invariant
            i <= v@.len(),
            forall|j: int| 0 <= j < i ==> v@[j] != c,
        decreases v@.len() - i,
    {
        if v[i] == c {
            proof {
                let w = choose|w: int| 0 <= w < v@.len() && v@[w] == c && forall|j: int| 0 <= j < w ==> v@[j] != c;
                if w < i {
                } else if w > i {
                    assert(v@[i as int] == c);
                }
            }
            return Some(i);
        }
        i = i + 1;
    }
    None
}

/// Parses a listen address (see `listen_addr_spec`).
pub fn parse_listen_addr(s: &str) -> (r: Option<ListenAddr>)
    ensures
        r == listen_addr_spec(s@),
{
    let t = trim(s);
    let v = chars_of(t.as_str());
    let n = v.len();
    if n == 0 {
        return None;
    }
    if v[0] == ':' {
        let rest = crate::text::string_of(&v, 1, n);
        let rv = chars_of(rest.as_str());
        assert(rv@ =~= v@.drop_first());
        return match port_exec(&rv) {
            Some(p) => Some(ListenAddr { ip: IpAddr::V6(0), port: p, dual_stack: true }),
            None => None,
        };
    }
    if v[0] == '[' {
        return match find_char(&v, ']') {
            Some(k) => {
                if k + 1 < n && v[k + 1] == ':' {
                    if k < 1 {
                        assert(v@[0] == '[');
                        return None;
                    }
                    let inner = chars_of(crate::text::string_of(&v, 1, k).as_str());
                    let pv = chars_of(crate::text::string_of(&v, k + 2, n).as_str());
                    match (v6_text_exec(&inner), port_exec(&pv)) {
                        (Some(x), Some(p)) => Some(ListenAddr { ip: IpAddr::V6(x), port: p, dual_stack: false }),
                        _ => None,
                    }
                } else {
                    None
                }
            },
            None => None,
        };
    }
    match find_char(&v, ':') {
        Some(k) => {
            let hv = chars_of(crate::text::string_of(&v, 0, k).as_str());
            let pv = chars_of(crate::text::string_of(&v, k + 1, n).as_str());
            match (v4_text_exec(&hv, 0), port_exec(&pv)) {
                (Some(a), Some(p)) => Some(ListenAddr { ip: IpAddr::V4(a), port: p, dual_stack: false }),
                _ => None,
            }
        },
        None => None,
    }
}

} // verus!
