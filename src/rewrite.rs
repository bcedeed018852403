//! Request checks and rewrites that lean on outside codecs: Basic
//! authentication, regex URI rewrites and body substitutions.
use vstd::prelude::*;
use crate::config::{BodyReplaceRule, ListenRule, UrlRewriteRule};
use crate::text::{chars_of, is_prefix, push_str, string_of};

verus! {

/// What the standard base64 alphabet (with padding) decodes `s` to, or
/// `None` when it is not valid base64.
pub uninterp spec fn base64_decoded(s: Seq<char>) -> Option<Seq<u8>>;

/// Relies on `base64::Engine::decode` with `general_purpose::STANDARD`:
/// the decoded bytes, or an error for input that is not valid base64.
#[verifier::external_body]
fn decode_base64(s: &str) -> (r: Option<Vec<u8>>)
    ensures
        match r {
            Some(v) => base64_decoded(s@) == Some(v@),
            None => base64_decoded(s@) is None,
        },
{
    base64::Engine::decode(&base64::engine::general_purpose::STANDARD, s).ok()
}

/// The bytes `user:pass` that Basic credentials must decode to.
pub open spec fn expected_credentials(user: Seq<char>, pass: Seq<char>) -> Seq<u8> {
    vstd::utf8::encode_utf8(user + seq![':'] + pass)
}

/// Whether decoded Basic credentials are exactly `user:pass`.
pub fn credentials_match(decoded: &Option<Vec<u8>>, user: &str, pass: &str) -> (r: bool)
    ensures
        r == match decoded {
            Some(v) => v@ == expected_credentials(user@, pass@),
            None => false,
        },
{
    match decoded {
        None => false,
        Some(v) => {
            let mut e = String::from_str(user);
            e.push(':');
            push_str(&mut e, pass);
            let eb = e.as_str().as_bytes();
            assert(e@ =~= user@ + seq![':'] + pass@);
            if v.len() != eb.len() {
                return false;
            }
            let mut i: usize = 0;
            while i < v.len()
                invariant
                    i <= v@.len() == eb@.len(),
                    eb@ == expected_credentials(user@, pass@),
                    decoded matches Some(w) && w@ == v@,
                    forall|j: int| 0 <= j < i ==> v@[j] == eb@[j],
                decreases v@.len() - i,
            {
                if v[i] != eb[i] {
                    assert(v@[i as int] != eb@[i as int]);
                    return false;
                }
                i = i + 1;
            }
            assert(v@ =~= eb@);
            true
        },
    }
}

/// The Basic-auth decision: a route that opts out, or a rule without Basic
/// auth, passes; otherwise the `Authorization` value must be `Basic ` and
/// base64 of exactly `user:pass`.
pub open spec fn basic_auth_ok_spec(rule: ListenRule, route_excluded: bool, authorization: Option<Seq<char>>) -> bool {
    if route_excluded || !rule.basic_auth_enable {
        true
    } else {
        match authorization {
            None => false,
            Some(a) => is_prefix("Basic "@, a) && match base64_decoded(a.subrange("Basic "@.len() as int, a.len() as int)) {
                Some(b) => b == expected_credentials(rule.basic_auth_username@, rule.basic_auth_password@),
                None => false,
            },
        }
    }
}

/// Checks Basic authentication of a request (see `basic_auth_ok_spec`);
/// `authorization` is the request's `Authorization` value, if any.
pub fn is_basic_auth_ok(rule: &ListenRule, route_excluded: bool, authorization: Option<&str>) -> (r: bool)
    ensures
        r == basic_auth_ok_spec(*rule, route_excluded, match authorization {
            Some(a) => Some(a@),
            None => None,
        }),
{
    if route_excluded || !rule.basic_auth_enable {
        return true;
    }
    match authorization {
        None => false,
        Some(a) => {
            let v = chars_of(a);
            let p = chars_of("Basic ");
            if !crate::text::starts_with_chars(&v, &p) {
                return false;
            }
            let b64 = string_of(&v, p.len(), v.len());
            let decoded = decode_base64(b64.as_str());
            credentials_match(&decoded, rule.basic_auth_username.as_str(), rule.basic_auth_password.as_str())
        },
    }
}

/// `regex::Regex`, carried opaque inside `CompiledRegex`.
#[verifier::external_type_specification]
#[verifier::external_body]
pub struct ExRegex(regex::Regex);

/// Whether `pattern` is a regular expression that the regex crate accepts.
pub uninterp spec fn regex_compiles(pattern: Seq<char>) -> bool;

/// What replacing every match of regex `pattern` in `text` by `rep` gives,
/// with `$name` expansion as the regex crate does it.
pub uninterp spec fn regex_replaced(pattern: Seq<char>, text: Seq<char>, rep: Seq<char>) -> Seq<char>;

/// A compiled regular expression together with its source text.
pub struct CompiledRegex {
    pattern: String,
    re: regex::Regex,
}

impl CompiledRegex {
    /// The source text the expression was compiled from.
    pub closed spec fn pattern_view(&self) -> Seq<char> {
        self.pattern@
    }
}

/// Relies on `regex::Regex::new`: it compiles `pattern` or reports an error.
#[verifier::external_body]
fn compile_regex(pattern: &str) -> (r: Option<CompiledRegex>)
    ensures
        r is Some <==> regex_compiles(pattern@),
        r matches Some(c) ==> c.pattern_view() == pattern@,
{
    match regex::Regex::new(pattern) {
        Ok(re) => Some(CompiledRegex { pattern: pattern.to_string(), re }),
        Err(_) => None,
    }
}

/// Relies on `regex::Regex::replace_all`: every match replaced by `rep`.
#[verifier::external_body]
fn regex_replace(c: &CompiledRegex, text: &str, rep: &str) -> (r: String)
    ensures
        r@ == regex_replaced(c.pattern_view(), text@, rep@),
{
    c.re.replace_all(text, rep).into_owned()
}

/// Compiles `pattern` and replaces its matches in `text`; `None` when the
/// pattern does not compile.
pub fn regex_replace_all(pattern: &str, text: &str, rep: &str) -> (r: Option<String>)
    ensures
        regex_compiles(pattern@) ==> (r matches Some(s) && s@ == regex_replaced(pattern@, text@, rep@)),
        !regex_compiles(pattern@) ==> r is None,
{
    match compile_regex(pattern) {
        Some(c) => Some(regex_replace(&c, text, rep)),
        None => None,
    }
}

/// The result of one rewrite rule on `uri`, before the URI check: `None`
/// when the rule is disabled, its pattern invalid, or nothing changed.
pub fn rewrite_candidate(uri: &str, rule: &UrlRewriteRule) -> (r: Option<String>)
    ensures
        match r {
            Some(s) => rule.enabled && regex_compiles(rule.pattern@) && regex_replaced(rule.pattern@, uri@, rule.replacement@) == s@
                && s@ != uri@,
            None => !rule.enabled || !regex_compiles(rule.pattern@) || regex_replaced(rule.pattern@, uri@, rule.replacement@) == uri@,
        },
{
    if !rule.enabled {
        return None;
    }
    match regex_replace_all(rule.pattern.as_str(), uri, rule.replacement.as_str()) {
        Some(s) => {
            let a = chars_of(s.as_str());
            let b = chars_of(uri);
            let same = a.len() == b.len() && crate::text::starts_with_chars(&a, &b);
            proof {
                if a@.len() == b@.len() {
                    assert(a@.subrange(0, b@.len() as int) == a@);
                }
            }
            if same { None } else { Some(s) }
        },
        None => None,
    }
}

/// `text` with every non-overlapping occurrence of `find` (left to right)
/// replaced by `rep`; an empty `find` puts `rep` around every character.
pub open spec fn replace_literal_spec(text: Seq<char>, find: Seq<char>, rep: Seq<char>) -> Seq<char>
    decreases text.len(),
{
    if find.len() == 0 {
        if text.len() == 0 { rep } else { rep + seq![text[0]] + replace_literal_spec(text.drop_first(), find, rep) }
    } else if text.len() == 0 {
        text
    } else if is_prefix(find, text) {
        rep + replace_literal_spec(text.subrange(find.len() as int, text.len() as int), find, rep)
    } else {
        seq![text[0]] + replace_literal_spec(text.drop_first(), find, rep)
    }
}

/// Replaces every occurrence of `find` in `text` by `rep` (see
/// `replace_literal_spec`).
pub fn replace_literal(text: &str, find: &str, rep: &str) -> (r: String)
    ensures
        r@ == replace_literal_spec(text@, find@, rep@),
{
    let v = chars_of(text);
    let f = chars_of(find);
    let n = v.len();
    let mut out = String::new();
    let mut i: usize = 0;
    assert(v@.subrange(0, n as int) == text@);
    while i < n
        invariant
            i <= n == v@.len(),
            v@ == text@,
            f@ == find@,
            out@ + replace_literal_spec(v@.subrange(i as int, n as int), find@, rep@) == replace_literal_spec(text@, find@, rep@),
        decreases n - i,
    {
        let ghost rest = v@.subrange(i as int, n as int);
        let ghost before = out@;
        if f.len() == 0 {
            push_str(&mut out, rep);
            out.push(v[i]);
            assert(rest.drop_first() == v@.subrange(i + 1, n as int));
            i = i + 1;
            assert(out@ + replace_literal_spec(v@.subrange(i as int, n as int), find@, rep@) =~= before + replace_literal_spec(rest, find@, rep@));
        } else {
            let mut m = f.len() <= n - i;
            let mut k: usize = 0;
            while m && k < f.len()
                invariant
                    i < n == v@.len(),
                    k <= f@.len(),
                    m ==> f@.len() <= n - i,
                    m ==> forall|j: int| 0 <= j < k ==> v@[i + j] == f@[j],
                    !m ==> !is_prefix(f@, v@.subrange(i as int, n as int)),
                decreases f@.len() - k + (if m { 1int } else { 0int }),
            {
                if v[i + k] != f[k] {
                    assert(v@.subrange(i as int, n as int).subrange(0, f@.len() as int)[k as int] != f@[k as int]);
                    m = false;
                } else {
                    k = k + 1;
                }
            }
            if m {
                assert(rest.subrange(0, f@.len() as int) =~= f@);
                push_str(&mut out, rep);
                assert(rest.subrange(f@.len() as int, rest.len() as int) == v@.subrange(i + f@.len(), n as int));
                i = i + f.len();
            } else {
                out.push(v[i]);
                assert(rest.drop_first() == v@.subrange(i + 1, n as int));
                i = i + 1;
            }
            assert(out@ + replace_literal_spec(v@.subrange(i as int, n as int), find@, rep@) =~= before + replace_literal_spec(rest, find@, rep@));
        }
    }
    if f.len() == 0 {
        push_str(&mut out, rep);
    }
    assert(out@ =~= replace_literal_spec(text@, find@, rep@));
    out
}

/// One body substitution: disabled rules and regexes that do not compile
/// change nothing.
pub open spec fn body_step(body: Seq<char>, rule: BodyReplaceRule) -> Seq<char> {
    if !rule.enabled {
        body
    } else if rule.use_regex {
        if regex_compiles(rule.find@) { regex_replaced(rule.find@, body, rule.replace@) } else { body }
    } else {
        replace_literal_spec(body, rule.find@, rule.replace@)
    }
}

/// The body after the substitutions `rules[0..n]`, in order.
pub open spec fn body_replaced(body: Seq<char>, rules: Seq<BodyReplaceRule>, n: nat) -> Seq<char>
    decreases n,
{
    if n == 0 { body } else { body_step(body_replaced(body, rules, (n - 1) as nat), rules[n - 1]) }
}

/// Applies the body substitutions of a route to a text body, in order.
pub fn apply_body_replace(body: &str, rules: &Vec<BodyReplaceRule>) -> (r: String)
    ensures
        r@ == body_replaced(body@, rules@, rules@.len()),
{
    let mut cur = String::from_str(body);
    let mut i: usize = 0;
    while i < rules.len()
        invariant
            i <= rules@.len(),
            cur@ == body_replaced(body@, rules@, i as nat),
        decreases rules@.len() - i,
    {
        let r = &rules[i];
        if r.enabled {
            if r.use_regex {
                match regex_replace_all(r.find.as_str(), cur.as_str(), r.replace.as_str()) {
                    Some(s) => {
                        cur = s;
                    },
                    None => {},
                }
            } else {
                cur = replace_literal(cur.as_str(), r.find.as_str(), r.replace.as_str());
            }
        }
        i = i + 1;
    }
    cur
}

} // verus!
