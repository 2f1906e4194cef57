//! Redaction of sensitive header values.
//!
//! A fixed list of sensitive header names is compared case-insensitively
//! (ASCII). A sensitive value is replaced by `[REDACTED]`; an authorization
//! value that carries a scheme keeps the scheme token as
//! `[REDACTED:<scheme>]`. Keys are always preserved verbatim.

use vstd::prelude::*;
use vstd::string::{StringExecFns, StrSliceExecFns};

verus! {

/// ASCII lower-casing of one scalar value.
pub open spec fn lower32(u: u32) -> u32 {
    if 65 <= u <= 90 {
        (u + 32) as u32
    } else {
        u
    }
}

/// The characters of `a`, ASCII-lowered, spell exactly `b`.
pub open spec fn lower_eq(a: Seq<char>, b: Seq<char>) -> bool {
    a.len() == b.len() && forall|i: int|
        0 <= i < a.len() ==> lower32(#[trigger] a[i] as u32) == b[i] as u32
}

/// Whether a header name is sensitive: a case-variant of one of the fixed
/// lowercase names.
pub open spec fn is_sensitive_name(k: Seq<char>) -> bool {
    ||| lower_eq(k, "authorization"@)
    ||| lower_eq(k, "cookie"@)
    ||| lower_eq(k, "set-cookie"@)
    ||| lower_eq(k, "api-key"@)
    ||| lower_eq(k, "x-api-key"@)
    ||| lower_eq(k, "x-auth-token"@)
    ||| lower_eq(k, "x-session-token"@)
    ||| lower_eq(k, "proxy-authorization"@)
    ||| lower_eq(k, "www-authenticate"@)
    ||| lower_eq(k, "authentication"@)
}

/// Position of the first space character, or a negative value when none.
pub open spec fn find_space(v: Seq<char>) -> int
    decreases v.len(),
{
    if v.len() == 0 {
        -1
    } else if v[0] == ' ' {
        0
    } else {
        let r = find_space(v.drop_first());
        if r < 0 {
            -1
        } else {
            r + 1
        }
    }
}

/// `find_space` finds the first space.
proof fn lemma_find_space_at(v: Seq<char>, m: int)
    requires
        0 <= m < v.len(),
        v[m] == ' ',
        forall|q: int| 0 <= q < m ==> v[q] != ' ',
    ensures
        find_space(v) == m,
    decreases m,
{
    if m > 0 {
        lemma_find_space_at(v.drop_first(), m - 1);
    }
}

/// `find_space` finds nothing in a space-free value.
proof fn lemma_find_space_none(v: Seq<char>)
    requires
        forall|q: int| 0 <= q < v.len() ==> v[q] != ' ',
    ensures
        find_space(v) < 0,
    decreases v.len(),
{
    if v.len() > 0 {
        assert(forall|q: int|
            0 <= q < v.drop_first().len() ==> v.drop_first()[q] == v[q + 1] && v[q + 1] != ' ');
        lemma_find_space_none(v.drop_first());
    }
}

/// The redacted form of one header value under its key.
pub open spec fn spec_redacted(k: Seq<char>, v: Seq<char>) -> Seq<char> {
    if is_sensitive_name(k) {
        if lower_eq(k, "authorization"@) && find_space(v) >= 0 {
            "[REDACTED:"@ + v.take(find_space(v)) + "]"@
        } else {
            "[REDACTED]"@
        }
    } else {
        v
    }
}

/// ASCII-lowered equality of a key against one lowercase name.
#[verifier::loop_isolation(false)]
pub fn eq_lower(a: &str, b: &str) -> (r: bool)
    ensures
        r == lower_eq(a@, b@),
{
    let la = a.unicode_len();
    let lb = b.unicode_len();
    if la != lb {
        return false;
    }
    let mut i: usize = 0;
    while i < la
        invariant
            i <= la,
            la == a@.len() && la == b@.len(),
            forall|q: int| 0 <= q < i ==> lower32(#[trigger] a@[q] as u32) == b@[q] as u32,
        decreases la - i,
    {
        let ca = a.get_char(i) as u32;
        let cb = b.get_char(i) as u32;
        let lowered = if 65 <= ca && ca <= 90 {
            ca + 32
        } else {
            ca
        };
        if lowered != cb {
            return false;
        }
        i = i + 1;
    }
    true
}

/// Whether this header key is sensitive.
pub fn is_sensitive_key(k: &str) -> (r: bool)
    ensures
        r == is_sensitive_name(k@),
{
    eq_lower(k, "authorization") || eq_lower(k, "cookie") || eq_lower(k, "set-cookie") || eq_lower(
        k,
        "api-key",
    ) || eq_lower(k, "x-api-key") || eq_lower(k, "x-auth-token") || eq_lower(k, "x-session-token")
        || eq_lower(k, "proxy-authorization") || eq_lower(k, "www-authenticate") || eq_lower(
        k,
        "authentication",
    )
}

/// Position of the first space character, or the length when none.
#[verifier::loop_isolation(false)]
fn find_space_exec(v: &str) -> (r: usize)
    ensures
        r <= v@.len(),
        r < v@.len() ==> r as int == find_space(v@),
        r == v@.len() ==> find_space(v@) < 0,
{
    let n = v.unicode_len();
    let mut i: usize = 0;
    while i < n
        invariant
            i <= n,
            n == v@.len(),
            forall|q: int| 0 <= q < i ==> v@[q] != ' ',
        decreases n - i,
    {
        if v.get_char(i) == ' ' {
            proof {
                lemma_find_space_at(v@, i as int);
            }
            return i;
        }
        i = i + 1;
    }
    proof {
        lemma_find_space_none(v@);
    }
    n
}

/// Redact one header value under its key.
fn redact_value(k: &str, v: &String) -> (r: String)
    ensures
        r@ == spec_redacted(k@, v@),
{
    if is_sensitive_key(k) {
        if eq_lower(k, "authorization") {
            let sp = find_space_exec(v.as_str());
            if sp < v.as_str().unicode_len() {
                let scheme = v.as_str().substring_char(0, sp);
                let mut out = String::from_str("[REDACTED:");
                out.append(scheme);
                out.append("]");
                return out;
            }
        }
        String::from_str("[REDACTED]")
    } else {
        v.clone()
    }
}

/// Redaction totality: every header keeps its key verbatim, and a sensitive
/// value is hidden, the authorization scheme token alone surviving.
#[verifier::loop_isolation(false)]
pub fn redact_sensitive_headers(headers: &Vec<(String, String)>) -> (r: Vec<(String, String)>)
    ensures
        r@.len() == headers@.len(),
        forall|k: int|
            0 <= k < headers@.len() ==> (#[trigger] r@[k]).0@ == headers@[k].0@ && r@[k].1@
                == spec_redacted(headers@[k].0@, headers@[k].1@),
{
    let mut out: Vec<(String, String)> = Vec::new();
    let mut i: usize = 0;
    while i < headers.len()
        invariant
            i <= headers@.len(),
            out@.len() == i,
            forall|k: int|
                0 <= k < i ==> (#[trigger] out@[k]).0@ == headers@[k].0@ && out@[k].1@
                    == spec_redacted(headers@[k].0@, headers@[k].1@),
        decreases headers@.len() - i,
    {
        let key = headers[i].0.clone();
        let val = redact_value(headers[i].0.as_str(), &headers[i].1);
        out.push((key, val));
        i = i + 1;
    }
    out
}

} // verus!
