//! The intercepting proxy's decision and record-building logic.
//!
//! Listening, tunneling and TLS live at the boundary; what is decided and
//! what is recorded is computed here: whether a CONNECT authority is
//! intercepted or passed through, the synthesized inner URI, the parsed URL
//! components, the endpoint pattern and API version, the replay command,
//! and the request and response events themselves.

use vstd::prelude::*;
use vstd::string::{StringExecFns, StrSliceExecFns};
use crate::redact::lower_eq;

verus! {

/// Whether `nd` occurs contiguously in `hay`.
pub open spec fn is_substr(hay: Seq<char>, nd: Seq<char>) -> bool {
    exists|i: int|
        0 <= i && i + nd.len() <= hay.len() && #[trigger] hay.subrange(i, i + nd.len()) == nd
}

/// Substring scan.
#[verifier::loop_isolation(false)]
pub fn contains_str(hay: &str, nd: &str) -> (r: bool)
    ensures
        r == is_substr(hay@, nd@),
{
    let hl = hay.unicode_len();
    let nl = nd.unicode_len();
    if nl > hl {
        return false;
    }
    let mut i: usize = 0;
    while nl <= hl - i
        invariant
            i <= hl,
            hl == hay@.len(),
            nl == nd@.len(),
            nl <= hl,
            forall|q: int| 0 <= q < i ==> !(#[trigger] hay@.subrange(q, q + nd@.len()) == nd@),
        decreases hl - i,
    {
        let mut k: usize = 0;
        let mut hit = true;
        while k < nl
            invariant
                k <= nl,
                i + nl <= hl,
                hit ==> forall|q: int| 0 <= q < k ==> hay@[i + q] == nd@[q],
                !hit ==> exists|q: int| 0 <= q < nd@.len() && hay@[i + q] != nd@[q],
            decreases nl - k,
        {
            if hay.get_char(i + k) != nd.get_char(k) {
                proof {
                    assert(hay@[i + k] != nd@[k as int]);
                }
                hit = false;
                k = nl;
            } else {
                k = k + 1;
            }
        }
        if hit {
            proof {
                assert(hay@.subrange(i as int, i + nd@.len()) =~= nd@);
                assert(hay@.subrange(i as int, i + nd@.len()) == nd@);
            }
            return true;
        }
        proof {
            assert(!(hay@.subrange(i as int, i + nd@.len()) == nd@)) by {
                if hay@.subrange(i as int, i + nd@.len()) == nd@ {
                    assert(forall|q: int|
                        0 <= q < nd@.len() ==> #[trigger] hay@.subrange(
                            i as int,
                            i + nd@.len(),
                        )[q] == hay@[i + q]);
                    assert(false);
                }
            }
        }
        i = i + 1;
    }
    proof {
        assert(forall|q: int|
            0 <= q && q + nd@.len() <= hay@.len() ==> 0 <= q < i && !(#[trigger] hay@.subrange(
                q,
                q + nd@.len(),
            ) == nd@));
    }
    false
}

/// The filter decision for a CONNECT: intercept when the configured list is
/// empty or any entry occurs in the host name; otherwise pass through.
pub fn should_intercept(target_hosts: &Vec<String>, hostname: &str) -> (r: bool)
    ensures
        r == (target_hosts@.len() == 0 || exists|k: int|
            0 <= k < target_hosts@.len() && is_substr(hostname@, target_hosts@[k]@)),
{
    if target_hosts.len() == 0 {
        return true;
    }
    let mut k: usize = 0;
    while k < target_hosts.len()
        invariant
            k <= target_hosts@.len(),
            forall|q: int| 0 <= q < k ==> !is_substr(hostname@, target_hosts@[q]@),
        decreases target_hosts@.len() - k,
    {
        if contains_str(hostname, target_hosts[k].as_str()) {
            return true;
        }
        k = k + 1;
    }
    false
}

/// Position of the first occurrence of `c` at or after `i`, or the length.
pub open spec fn find_char_from(s: Seq<char>, i: int, c: char) -> int
    decreases s.len() - i,
{
    if !(0 <= i < s.len()) {
        s.len() as int
    } else if s[i] == c {
        i
    } else {
        find_char_from(s, i + 1, c)
    }
}

/// `find_char_from` is within bounds and lands on its target.
pub proof fn lemma_find_char_from(s: Seq<char>, i: int, c: char)
    requires
        0 <= i <= s.len(),
    ensures
        i <= find_char_from(s, i, c) <= s.len(),
        find_char_from(s, i, c) < s.len() ==> s[find_char_from(s, i, c)] == c,
        forall|q: int| i <= q < find_char_from(s, i, c) ==> s[q] != c,
    decreases s.len() - i,
{
    if i < s.len() && s[i] != c {
        lemma_find_char_from(s, i + 1, c);
    }
}

/// First occurrence scan.
#[verifier::loop_isolation(false)]
pub fn find_char_exec(s: &str, from: usize, c: char) -> (r: usize)
    requires
        from <= s@.len(),
    ensures
        r as int == find_char_from(s@, from as int, c),
{
    let n = s.unicode_len();
    let mut i: usize = from;
    while i < n
        invariant
            from <= i <= n,
            n == s@.len(),
            find_char_from(s@, from as int, c) == find_char_from(s@, i as int, c),
        decreases n - i,
    {
        if s.get_char(i) == c {
            return i;
        }
        i = i + 1;
    }
    n
}

/// The host name of a CONNECT authority: everything before the first colon.
pub fn hostname_of_authority(authority: &str) -> (r: String)
    ensures
        r@ == authority@.subrange(0, find_char_from(authority@, 0, ':')),
{
    let c = find_char_exec(authority, 0, ':');
    proof {
        lemma_find_char_from(authority@, 0, ':');
    }
    let h = authority.substring_char(0, c);
    h.to_owned()
}

} // verus!

verus! {

/// A path segment treated as a dynamic identifier: longer than twenty
/// characters, or made of digits and hyphens alone.
pub open spec fn is_dynamic_seg(seg: Seq<char>) -> bool {
    seg.len() > 20 || (forall|q: int|
        0 <= q < seg.len() ==> ('0' <= #[trigger] seg[q] <= '9' || seg[q] == '-'))
}

/// The accumulated endpoint pattern from position `i` of a path: each
/// non-empty segment is appended after a slash, stopping after the first
/// dynamic segment.
pub open spec fn walk_pattern(s: Seq<char>, i: int) -> Seq<char>
    decreases s.len() - i,
{
    if !(0 <= i < s.len()) {
        Seq::empty()
    } else if s[i] == '/' {
        walk_pattern(s, i + 1)
    } else {
        let e = find_char_from(s, i, '/');
        if i < e <= s.len() {
            let seg = s.subrange(i, e);
            seq!['/'] + seg + (if is_dynamic_seg(seg) {
                Seq::empty()
            } else {
                walk_pattern(s, e)
            })
        } else {
            Seq::empty()
        }
    }
}

/// The endpoint pattern of a request path: `/v1/messages` anywhere yields
/// that pattern; otherwise a path mentioning `/api/` yields the walked
/// segments up to the first dynamic one; otherwise none.
pub open spec fn endpoint_pattern_of(path: Seq<char>) -> Option<Seq<char>> {
    if is_substr(path, "/v1/messages"@) {
        Some("/v1/messages"@)
    } else if is_substr(path, "/api/"@) {
        if walk_pattern(path, 0).len() > 0 {
            Some(walk_pattern(path, 0))
        } else {
            None
        }
    } else {
        None
    }
}

/// Whether a segment is dynamic.
#[verifier::loop_isolation(false)]
fn is_dynamic_seg_exec(seg: &str) -> (r: bool)
    ensures
        r == is_dynamic_seg(seg@),
{
    let n = seg.unicode_len();
    if n > 20 {
        return true;
    }
    let mut k: usize = 0;
    while k < n
        invariant
            k <= n,
            n == seg@.len(),
            forall|q: int| 0 <= q < k ==> ('0' <= #[trigger] seg@[q] <= '9' || seg@[q] == '-'),
        decreases n - k,
    {
        let c = seg.get_char(k);
        if !(('0' <= c && c <= '9') || c == '-') {
            return false;
        }
        k = k + 1;
    }
    true
}

/// Walk the segments of a path into its pattern.
#[verifier::loop_isolation(false)]
fn walk_pattern_exec(s: &str, i: usize) -> (r: String)
    requires
        i <= s@.len(),
    ensures
        r@ == walk_pattern(s@, i as int),
    decreases s@.len() - i,
{
    let n = s.unicode_len();
    if i >= n {
        return String::new();
    }
    if s.get_char(i) == '/' {
        return walk_pattern_exec(s, i + 1);
    }
    let e = find_char_exec(s, i, '/');
    proof {
        lemma_find_char_from(s@, i as int, '/');
    }
    let seg = s.substring_char(i, e);
    let mut out = String::from_str("/");
    out.append(seg);
    proof {
        reveal_strlit("/");
        assert("/"@.len() == 1);
        assert("/"@[0] == '/');
        assert("/"@ =~= seq!['/']);
    }
    if !is_dynamic_seg_exec(seg) {
        let rest = walk_pattern_exec(s, e);
        out.append(rest.as_str());
    }
    out
}

/// Detect the endpoint pattern of a request path.
pub fn detect_endpoint_pattern(path: &str) -> (r: Option<String>)
    ensures
        (match r {
            Some(p) => endpoint_pattern_of(path@) == Some(p@),
            None => endpoint_pattern_of(path@) is None,
        }),
{
    if contains_str(path, "/v1/messages") {
        Some(String::from_str("/v1/messages"))
    } else if contains_str(path, "/api/") {
        let w = walk_pattern_exec(path, 0);
        if w.as_str().unicode_len() > 0 {
            Some(w)
        } else {
            None
        }
    } else {
        None
    }
}

/// A version segment: a `v` followed by at least one character, digits and
/// dots alone.
pub open spec fn is_version_seg(seg: Seq<char>) -> bool {
    seg.len() >= 2 && seg[0] == 'v' && (forall|q: int|
        1 <= q < seg.len() ==> ('0' <= #[trigger] seg[q] <= '9' || seg[q] == '.'))
}

/// The first version-shaped segment of a path, from position `i`.
pub open spec fn walk_version(s: Seq<char>, i: int) -> Option<Seq<char>>
    decreases s.len() - i,
{
    if !(0 <= i < s.len()) {
        None
    } else if s[i] == '/' {
        walk_version(s, i + 1)
    } else {
        let e = find_char_from(s, i, '/');
        if i < e <= s.len() {
            let seg = s.subrange(i, e);
            if is_version_seg(seg) {
                Some(seg)
            } else {
                walk_version(s, e)
            }
        } else {
            None
        }
    }
}

/// The first value under a case-variant of `name` in a header list.
pub open spec fn header_lookup(
    headers: Seq<(Seq<char>, Seq<char>)>,
    name: Seq<char>,
) -> Option<Seq<char>>
    decreases headers.len(),
{
    if headers.len() == 0 {
        None
    } else if lower_eq(headers[0].0, name) {
        Some(headers[0].1)
    } else {
        header_lookup(headers.drop_first(), name)
    }
}

/// The API version of a request: a version-shaped path segment first, then
/// the `anthropic-version` header, then the `api-version` header.
pub open spec fn api_version_of(
    path: Seq<char>,
    headers: Seq<(Seq<char>, Seq<char>)>,
) -> Option<Seq<char>> {
    match walk_version(path, 0) {
        Some(v) => Some(v),
        None => match header_lookup(headers, "anthropic-version"@) {
            Some(v) => Some(v),
            None => header_lookup(headers, "api-version"@),
        },
    }
}

/// Whether a segment is version-shaped.
#[verifier::loop_isolation(false)]
fn is_version_seg_exec(seg: &str) -> (r: bool)
    ensures
        r == is_version_seg(seg@),
{
    let n = seg.unicode_len();
    if n < 2 || seg.get_char(0) != 'v' {
        return false;
    }
    let mut k: usize = 1;
    while k < n
        invariant
            1 <= k <= n,
            n == seg@.len(),
            forall|q: int| 1 <= q < k ==> ('0' <= #[trigger] seg@[q] <= '9' || seg@[q] == '.'),
        decreases n - k,
    {
        let c = seg.get_char(k);
        if !(('0' <= c && c <= '9') || c == '.') {
            return false;
        }
        k = k + 1;
    }
    true
}

/// Walk the segments of a path for a version.
#[verifier::loop_isolation(false)]
fn walk_version_exec(s: &str, i: usize) -> (r: Option<String>)
    requires
        i <= s@.len(),
    ensures
        (match r {
            Some(v) => walk_version(s@, i as int) == Some(v@),
            None => walk_version(s@, i as int) is None,
        }),
    decreases s@.len() - i,
{
    let n = s.unicode_len();
    if i >= n {
        return None;
    }
    if s.get_char(i) == '/' {
        return walk_version_exec(s, i + 1);
    }
    let e = find_char_exec(s, i, '/');
    proof {
        lemma_find_char_from(s@, i as int, '/');
    }
    let seg = s.substring_char(i, e);
    if is_version_seg_exec(seg) {
        Some(seg.to_owned())
    } else {
        walk_version_exec(s, e)
    }
}

/// Look a header up, case-insensitively, first match.
#[verifier::loop_isolation(false)]
fn header_lookup_exec(headers: &Vec<(String, String)>, name: &str) -> (r: Option<String>)
    ensures
        (match r {
            Some(v) => header_lookup(crate::schema::str_pairs_model(headers@), name@) == Some(v@),
            None => header_lookup(crate::schema::str_pairs_model(headers@), name@) is None,
        }),
{
    let ghost hm = crate::schema::str_pairs_model(headers@);
    proof {
        assert(hm.skip(0) =~= hm);
    }
    let mut k: usize = 0;
    while k < headers.len()
        invariant
            k <= headers@.len(),
            header_lookup(hm, name@) == header_lookup(hm.skip(k as int), name@),
        decreases headers@.len() - k,
    {
        proof {
            assert(hm.skip(k as int)[0] == (headers@[k as int].0@, headers@[k as int].1@));
            assert(hm.skip(k as int).drop_first() =~= hm.skip(k + 1));
        }
        if crate::redact::eq_lower(headers[k].0.as_str(), name) {
            return Some(headers[k].1.clone());
        }
        k = k + 1;
    }
    proof {
        assert(hm.skip(headers@.len() as int).len() == 0);
    }
    None
}

/// Extract the API version of a request.
pub fn extract_api_version(path: &str, headers: &Vec<(String, String)>) -> (r: Option<String>)
    ensures
        (match r {
            Some(v) => api_version_of(path@, crate::schema::str_pairs_model(headers@)) == Some(
                v@,
            ),
            None => api_version_of(path@, crate::schema::str_pairs_model(headers@)) is None,
        }),
{
    match walk_version_exec(path, 0) {
        Some(v) => Some(v),
        None => match header_lookup_exec(headers, "anthropic-version") {
            Some(v) => Some(v),
            None => header_lookup_exec(headers, "api-version"),
        },
    }
}

/// A host with a default HTTPS port suffix stripped.
pub open spec fn strip_443(h: Seq<char>) -> Seq<char> {
    if h.len() >= 4 && h.subrange(h.len() - 4, h.len() as int) == ":443"@ {
        h.take(h.len() - 4)
    } else {
        h
    }
}

/// The synthesized absolute URI of an inner MITM request:
/// `https://<host><path-and-query>`, the default port stripped.
pub fn synthesize_https_uri(host: &str, path_and_query: &str) -> (r: String)
    ensures
        r@ == "https://"@ + strip_443(host@) + path_and_query@,
{
    let n = host.unicode_len();
    let mut out = String::from_str("https://");
    if n >= 4 {
        let tail = host.substring_char(n - 4, n);
        if str_eq_chars(tail, ":443") {
            let kept = host.substring_char(0, n - 4);
            out.append(kept);
            out.append(path_and_query);
            proof {
                assert(host@.subrange(host@.len() - 4, host@.len() as int) == ":443"@);
            }
            return out;
        }
        proof {
            assert(host@.subrange(host@.len() - 4, host@.len() as int) != ":443"@);
        }
    }
    out.append(host);
    out.append(path_and_query);
    out
}

/// Character-wise string equality.
#[verifier::loop_isolation(false)]
fn str_eq_chars(a: &str, b: &str) -> (r: bool)
    ensures
        r == (a@ == b@),
{
    crate::codec::str_eq(a, b)
}

} // verus!

verus! {

/// A value with single quotes escaped for a shell: each `'` becomes `'\''`.
pub open spec fn escape_sq(v: Seq<char>) -> Seq<char>
    decreases v.len(),
{
    if v.len() == 0 {
        Seq::empty()
    } else {
        (if v[0] == '\'' {
            seq!['\'', '\\', '\'', '\'']
        } else {
            seq![v[0]]
        }) + escape_sq(v.drop_first())
    }
}

/// The header lines of a replay command: one `-H` per header, except the
/// host and content-length headers, which the tool supplies itself.
pub open spec fn curl_headers(headers: Seq<(Seq<char>, Seq<char>)>) -> Seq<char>
    decreases headers.len(),
{
    if headers.len() == 0 {
        Seq::empty()
    } else {
        (if lower_eq(headers[0].0, "host"@) || lower_eq(headers[0].0, "content-length"@) {
            Seq::empty()
        } else {
            " \\\n  -H '"@ + headers[0].0 + ": "@ + headers[0].1 + "'"@
        }) + curl_headers(headers.drop_first())
    }
}

/// The body part of a replay command.
pub open spec fn curl_body(body: Seq<u8>) -> Seq<char> {
    if body.len() == 0 {
        Seq::empty()
    } else if vstd::utf8::valid_utf8(body) {
        " \\\n  -d '"@ + escape_sq(vstd::utf8::decode_utf8(body)) + "'"@
    } else {
        " \\\n  -d '[BINARY DATA]'"@
    }
}

/// The whole replay command for a request.
pub open spec fn curl_of(
    method: Seq<char>,
    uri: Seq<char>,
    headers: Seq<(Seq<char>, Seq<char>)>,
    body: Seq<u8>,
) -> Seq<char> {
    "curl -X "@ + method + " '"@ + uri + "'"@ + curl_headers(headers) + curl_body(body)
}

/// Escape a value for a single-quoted shell argument.
#[verifier::loop_isolation(false)]
fn escape_sq_exec(v: &str) -> (r: String)
    ensures
        r@ == escape_sq(v@),
{
    let n = v.unicode_len();
    let mut out = String::new();
    let mut k: usize = 0;
    proof {
        assert(v@.skip(0) =~= v@);
        assert(Seq::<char>::empty() + escape_sq(v@) =~= escape_sq(v@));
    }
    while k < n
        invariant
            k <= n,
            n == v@.len(),
            escape_sq(v@) == out@ + escape_sq(v@.skip(k as int)),
        decreases n - k,
    {
        let ghost pre = out@;
        let c = v.get_char(k);
        if c == '\'' {
            out.append("'\\''");
        } else {
            let piece = v.substring_char(k, k + 1);
            out.append(piece);
        }
        proof {
            reveal_strlit("'\\''");
            assert("'\\''"@.len() == 4);
            assert("'\\''"@[0] == '\'' && "'\\''"@[1] == '\\' && "'\\''"@[2] == '\'' && "'\\''"@[3]
                == '\'');
            let sfx = v@.skip(k as int);
            assert(sfx[0] == v@[k as int]);
            assert(sfx.drop_first() =~= v@.skip(k + 1));
            if c == '\'' {
                assert(out@ =~= pre + seq!['\'', '\\', '\'', '\'']);
            } else {
                assert(v@.subrange(k as int, k + 1) =~= seq![v@[k as int]]);
                assert(out@ =~= pre + seq![v@[k as int]]);
            }
            assert(escape_sq(sfx) == (if sfx[0] == '\'' {
                seq!['\'', '\\', '\'', '\'']
            } else {
                seq![sfx[0]]
            }) + escape_sq(sfx.drop_first()));
            assert(escape_sq(v@) =~= out@ + escape_sq(v@.skip(k + 1)));
        }
        k = k + 1;
    }
    proof {
        assert(v@.skip(n as int).len() == 0);
        assert(escape_sq(v@) =~= out@);
    }
    out
}

/// The replay command for a request; the given headers are the already
/// redacted ones.
#[verifier::loop_isolation(false)]
pub fn generate_curl_command(
    method: &str,
    uri: &str,
    headers: &Vec<(String, String)>,
    body: &[u8],
) -> (r: String)
    ensures
        r@ == curl_of(method@, uri@, crate::schema::str_pairs_model(headers@), body@),
{
    let ghost hm = crate::schema::str_pairs_model(headers@);
    let mut out = String::from_str("curl -X ");
    out.append(method);
    out.append(" '");
    out.append(uri);
    out.append("'");
    proof {
        assert(hm.skip(0) =~= hm);
        assert(out@ + curl_headers(hm.skip(0)) =~= "curl -X "@ + method@ + " '"@ + uri@ + "'"@
            + curl_headers(hm));
    }
    let mut k: usize = 0;
    while k < headers.len()
        invariant
            k <= headers@.len(),
            out@ + curl_headers(hm.skip(k as int)) == "curl -X "@ + method@ + " '"@ + uri@ + "'"@
                + curl_headers(hm),
        decreases headers@.len() - k,
    {
        let ghost pre = out@;
        proof {
            assert(hm.skip(k as int)[0] == (headers@[k as int].0@, headers@[k as int].1@));
            assert(hm.skip(k as int).drop_first() =~= hm.skip(k + 1));
        }
        let skip_it = crate::redact::eq_lower(headers[k].0.as_str(), "host")
            || crate::redact::eq_lower(headers[k].0.as_str(), "content-length");
        if !skip_it {
            out.append(" \\\n  -H '");
            out.append(headers[k].0.as_str());
            out.append(": ");
            out.append(headers[k].1.as_str());
            out.append("'");
            proof {
                assert(out@ =~= pre + (" \\\n  -H '"@ + headers@[k as int].0@ + ": "@ + headers@[
                    k as int
                ].1@ + "'"@));
            }
        }
        proof {
            assert(out@ + curl_headers(hm.skip(k + 1)) =~= pre + curl_headers(hm.skip(k as int)));
        }
        k = k + 1;
    }
    proof {
        assert(curl_headers(hm.skip(headers@.len() as int)) =~= Seq::<char>::empty());
        assert(out@ =~= "curl -X "@ + method@ + " '"@ + uri@ + "'"@ + curl_headers(hm));
    }
    if body.len() == 0 {
        proof {
            assert(out@ + Seq::<char>::empty() =~= out@);
        }
        return out;
    }
    let owned: Vec<u8> = vstd::slice::slice_to_vec(body);
    match crate::json::string_from_utf8(owned) {
        Some(text) => {
            out.append(" \\\n  -d '");
            let esc = escape_sq_exec(text.as_str());
            out.append(esc.as_str());
            out.append("'");
            proof {
                assert(out@ =~= "curl -X "@ + method@ + " '"@ + uri@ + "'"@ + curl_headers(hm)
                    + curl_body(body@));
            }
        },
        None => {
            out.append(" \\\n  -d '[BINARY DATA]'");
            proof {
                assert(out@ =~= "curl -X "@ + method@ + " '"@ + uri@ + "'"@ + curl_headers(hm)
                    + curl_body(body@));
            }
        },
    }
    out
}

} // verus!

verus! {

/// Position of the first of two characters at or after `i`, or the length.
pub open spec fn find_either_from(s: Seq<char>, i: int, a: char, b: char) -> int
    decreases s.len() - i,
{
    if !(0 <= i < s.len()) {
        s.len() as int
    } else if s[i] == a || s[i] == b {
        i
    } else {
        find_either_from(s, i + 1, a, b)
    }
}

/// `find_either_from` bounds.
proof fn lemma_find_either_from(s: Seq<char>, i: int, a: char, b: char)
    requires
        0 <= i <= s.len(),
    ensures
        i <= find_either_from(s, i, a, b) <= s.len(),
    decreases s.len() - i,
{
    if i < s.len() && s[i] != a && s[i] != b {
        lemma_find_either_from(s, i + 1, a, b);
    }
}

/// Two-character scan.
#[verifier::loop_isolation(false)]
fn find_either_exec(s: &str, from: usize, a: char, b: char) -> (r: usize)
    requires
        from <= s@.len(),
    ensures
        r as int == find_either_from(s@, from as int, a, b),
{
    let n = s.unicode_len();
    let mut i: usize = from;
    while i < n
        invariant
            from <= i <= n,
            n == s@.len(),
            find_either_from(s@, from as int, a, b) == find_either_from(s@, i as int, a, b),
        decreases n - i,
    {
        let c = s.get_char(i);
        if c == a || c == b {
            return i;
        }
        i = i + 1;
    }
    n
}

/// The query pairs of a query string from position `i`: pieces split on
/// `&`, each split on its first `=`; a bare name maps to the empty value.
pub open spec fn query_pairs_from(q: Seq<char>, i: int) -> Seq<(Seq<char>, Seq<char>)>
    decreases q.len() - i,
{
    if !(0 <= i <= q.len()) {
        Seq::empty()
    } else {
        let ae = find_char_from(q, i, '&');
        if !(i <= ae <= q.len()) {
            Seq::empty()
        } else {
            let ee = find_char_from(q, i, '=');
            let pair = if ee < ae {
                (q.subrange(i, ee), q.subrange(ee + 1, ae))
            } else {
                (q.subrange(i, ae), Seq::<char>::empty())
            };
            seq![pair] + (if ae < q.len() {
                query_pairs_from(q, ae + 1)
            } else {
                Seq::empty()
            })
        }
    }
}

/// Split a query string into its pairs.
fn query_pairs_exec(q: &str, i: usize) -> (r: Vec<(String, String)>)
    requires
        i <= q@.len(),
    ensures
        crate::schema::str_pairs_model(r@) == query_pairs_from(q@, i as int),
    decreases q@.len() - i,
{
    proof {
        lemma_find_char_from(q@, i as int, '&');
        lemma_find_char_from(q@, i as int, '=');
    }
    let ae = find_char_exec(q, i, '&');
    let ee = find_char_exec(q, i, '=');
    let key: String;
    let val: String;
    if ee < ae {
        key = q.substring_char(i, ee).to_owned();
        val = q.substring_char(ee + 1, ae).to_owned();
    } else {
        key = q.substring_char(i, ae).to_owned();
        val = String::new();
    }
    let mut rest: Vec<(String, String)>;
    if ae < q.unicode_len() {
        rest = query_pairs_exec(q, ae + 1);
    } else {
        rest = Vec::new();
        proof {
            assert(crate::schema::str_pairs_model(rest@) =~= Seq::<
                (Seq<char>, Seq<char>),
            >::empty());
        }
    }
    let ghost rest0 = rest@;
    rest.insert(0, (key, val));
    proof {
        assert(crate::schema::str_pairs_model(rest@) =~= seq![
            (rest@[0].0@, rest@[0].1@),
        ] + crate::schema::str_pairs_model(rest0));
        assert(crate::schema::str_pairs_model(rest@) =~= query_pairs_from(q@, i as int));
    }
    rest
}

/// The URL components of an absolute URI string: the scheme before `://`,
/// then the authority up to the first slash or question mark, split into
/// host and optional port at its first colon; then the path, `/` when
/// empty, and the query pairs after any `?`.
pub open spec fn url_components_of(u: Seq<char>) -> Option<crate::schema::UrlV> {
    let c = find_char_from(u, 0, ':');
    if !(c + 2 < u.len() && u[c + 1] == '/' && u[c + 2] == '/') {
        None
    } else {
        let scheme = u.take(c);
        let rest = u.skip(c + 3);
        let ae = find_either_from(rest, 0, '/', '?');
        if ae == 0 {
            None
        } else {
            let authority = rest.take(ae);
            let he = find_char_from(authority, 0, ':');
            let host = authority.take(he);
            let port = if he < authority.len() {
                crate::config::parse_port(authority.skip(he + 1))
            } else {
                None
            };
            let pq = rest.skip(ae);
            let pe = find_char_from(pq, 0, '?');
            let path = if pe == 0 {
                "/"@
            } else {
                pq.take(pe)
            };
            let qp = if pe < pq.len() {
                query_pairs_from(pq, pe + 1)
            } else {
                Seq::empty()
            };
            Some(
                crate::schema::UrlV { scheme, host, port, path, query_params: qp },
            )
        }
    }
}

/// The parsed components carried for a URI: the raw reading, its query
/// pairs reduced to their map form.
pub open spec fn url_result_ok(uc: Option<crate::schema::UrlV>, u: Seq<char>) -> bool {
    match uc {
        Some(c) => url_components_of(u) matches Some(uv) && c.scheme == uv.scheme && c.host
            == uv.host && c.port == uv.port && c.path == uv.path && is_map_of(
            c.query_params,
            uv.query_params,
        ),
        None => url_components_of(u) is None,
    }
}

/// Parse the URL components of an absolute URI string. The query pairs are
/// reduced to their map form: one entry per key, the later of duplicate
/// values winning. A URI without the scheme marker has no components: the
/// proxy only ever hands absolute URIs here, its inner requests carrying
/// the synthesized scheme.
pub fn parse_url_components(u: &str) -> (r: Option<crate::schema::UrlComponents>)
    ensures
        (match r {
            Some(uc) => url_result_ok(Some(uc.model()), u@),
            None => url_components_of(u@) is None,
        }),
{
    let n = u.unicode_len();
    proof {
        lemma_find_char_from(u@, 0, ':');
    }
    let c = find_char_exec(u, 0, ':');
    if !(c < n && n - c > 2 && u.get_char(c + 1) == '/' && u.get_char(c + 2) == '/') {
        return None;
    }
    let scheme = u.substring_char(0, c).to_owned();
    let rest = u.substring_char(c + 3, n);
    let rn = rest.unicode_len();
    proof {
        lemma_find_either_from(rest@, 0, '/', '?');
    }
    let ae = find_either_exec(rest, 0, '/', '?');
    if ae == 0 {
        return None;
    }
    let authority = rest.substring_char(0, ae);
    let an = authority.unicode_len();
    proof {
        lemma_find_char_from(authority@, 0, ':');
    }
    let he = find_char_exec(authority, 0, ':');
    let host = authority.substring_char(0, he).to_owned();
    let port: Option<u16> = if he < an {
        crate::config::parse_port_exec(authority.substring_char(he + 1, an))
    } else {
        None
    };
    let pq = rest.substring_char(ae, rn);
    let pn = pq.unicode_len();
    proof {
        lemma_find_char_from(pq@, 0, '?');
    }
    let pe = find_char_exec(pq, 0, '?');
    let path: String = if pe == 0 {
        String::from_str("/")
    } else {
        pq.substring_char(0, pe).to_owned()
    };
    let raw_params: Vec<(String, String)> = if pe < pn {
        query_pairs_exec(pq, pe + 1)
    } else {
        Vec::new()
    };
    proof {
        if !(pe < pn) {
            assert(crate::schema::str_pairs_model(Seq::<(String, String)>::empty()) =~= Seq::<
                (Seq<char>, Seq<char>),
            >::empty());
        }
    }
    let query_params = dedup_pairs(&raw_params);
    Some(crate::schema::UrlComponents { scheme, host, port, path, query_params })
}

} // verus!

verus! {

/// The request record for one forwarded request: the headers reduced to
/// their map form and redacted, the URL parsed, the endpoint pattern and
/// API version detected, the replay command rendered over the redacted
/// headers, and the body captured under the configured limit. The pattern
/// and version read the parsed path, or the whole URI when it has no
/// parseable components.
#[verifier::rlimit(100)]
#[verifier::spinoff_prover]
pub fn build_proxy_request_entry(
    session_id: String,
    correlation_id: String,
    request_id: String,
    method: &str,
    uri: &str,
    headers: &Vec<(String, String)>,
    body: &[u8],
    max_body_size: usize,
) -> (r: crate::schema::LogEntry)
    requires
        body@.len() <= 0x7fffffffffffffff,
        max_body_size <= 0x1000000000000000,
    ensures
        r.schema_version == crate::schema::SCHEMA_VERSION,
        r.session_id@ == session_id@,
        r.correlation_id@ == correlation_id@,
        crate::schema::wf_entry(r.model()),
        ({
            let hm = crate::schema::str_pairs_model(headers@);
            let path_for = match url_components_of(uri@) {
                Some(uc) => uc.path,
                None => uri@,
            };
            exists|hdm: Seq<(Seq<char>, Seq<char>)>|
                {
                    &&& #[trigger] is_map_of(hdm, hm)
                    &&& ({
                        let red = Seq::new(hdm.len(), |k: int| (hdm[k].0,
                            crate::redact::spec_redacted(hdm[k].0, hdm[k].1)));
                        r.event.model() matches crate::schema::EventV::ProxyRequest {
                            id,
                            method: m,
                            uri: u2,
                            headers: h2,
                            body: b2,
                            tls_handshake_ms,
                            url_components,
                            curl_command,
                            endpoint_pattern,
                            api_version,
                        } && id == request_id@ && m == method@ && u2 == uri@ && h2 == red
                            && crate::body::body_capture_ok(
                            b2,
                            body@,
                            header_lookup(hdm, "content-encoding"@),
                            header_lookup(hdm, "content-type"@),
                            max_body_size as int,
                        ) && tls_handshake_ms is None && url_result_ok(
                            match url_components {
                                Some(c) => Some(c),
                                None => None,
                            },
                            uri@,
                        ) && curl_command == Some(curl_of(method@, uri@, red, body@))
                            && endpoint_pattern == endpoint_pattern_of(path_for) && api_version
                            == api_version_of(path_for, hdm)
                    })
                }
        }),
{
    let headers_m = dedup_pairs(headers);
    let ghost hdm = crate::schema::str_pairs_model(headers_m@);
    let content_encoding = header_lookup_exec(&headers_m, "content-encoding");
    let content_type = header_lookup_exec(&headers_m, "content-type");
    let redacted = crate::redact::redact_sensitive_headers(&headers_m);
    proof {
        assert(crate::schema::str_pairs_model(redacted@) =~= Seq::new(
            hdm.len(),
            |k: int| (hdm[k].0, crate::redact::spec_redacted(hdm[k].0, hdm[k].1)),
        ));
    }
    let url_components = parse_url_components(uri);
    let endpoint_pattern: Option<String>;
    let api_version: Option<String>;
    match &url_components {
        Some(uc) => {
            endpoint_pattern = detect_endpoint_pattern(uc.path.as_str());
            api_version = extract_api_version(uc.path.as_str(), &headers_m);
        },
        None => {
            endpoint_pattern = detect_endpoint_pattern(uri);
            api_version = extract_api_version(uri, &headers_m);
        },
    }
    let curl_command = generate_curl_command(method, uri, &redacted, body);
    let body_data = crate::schema::BodyData::from_bytes(
        body,
        content_encoding,
        content_type,
        max_body_size,
    );
    crate::schema::LogEntry::new_proxy_request(
        session_id,
        correlation_id,
        request_id,
        method.to_owned(),
        uri.to_owned(),
        redacted,
        body_data,
        None,
        url_components,
        Some(curl_command),
        endpoint_pattern,
        api_version,
    )
}

/// The response record for one forwarded request: the headers reduced to
/// their map form and redacted, the body captured under the configured
/// limit, correlated to the request.
#[verifier::rlimit(100)]
#[verifier::spinoff_prover]
pub fn build_proxy_response_entry(
    session_id: String,
    correlation_id: String,
    request_id: String,
    status: u16,
    headers: &Vec<(String, String)>,
    body: &[u8],
    duration_ms: u64,
    max_body_size: usize,
) -> (r: crate::schema::LogEntry)
    requires
        body@.len() <= 0x7fffffffffffffff,
        max_body_size <= 0x1000000000000000,
        duration_ms <= i64::MAX,
    ensures
        r.schema_version == crate::schema::SCHEMA_VERSION,
        r.session_id@ == session_id@,
        r.correlation_id@ == correlation_id@,
        crate::schema::wf_entry(r.model()),
        ({
            let hm = crate::schema::str_pairs_model(headers@);
            exists|hdm: Seq<(Seq<char>, Seq<char>)>|
                {
                    &&& #[trigger] is_map_of(hdm, hm)
                    &&& ({
                        let red = Seq::new(hdm.len(), |k: int| (hdm[k].0,
                            crate::redact::spec_redacted(hdm[k].0, hdm[k].1)));
                        r.event.model() matches crate::schema::EventV::ProxyResponse {
                            request_id: rid,
                            status: st,
                            headers: h2,
                            body: b2,
                            duration_ms: d2,
                        } && rid == request_id@ && st == status && h2 == red
                            && crate::body::body_capture_ok(
                            b2,
                            body@,
                            header_lookup(hdm, "content-encoding"@),
                            header_lookup(hdm, "content-type"@),
                            max_body_size as int,
                        ) && d2 == duration_ms
                    })
                }
        }),
{
    let headers_m = dedup_pairs(headers);
    let ghost hdm = crate::schema::str_pairs_model(headers_m@);
    let content_encoding = header_lookup_exec(&headers_m, "content-encoding");
    let content_type = header_lookup_exec(&headers_m, "content-type");
    let redacted = crate::redact::redact_sensitive_headers(&headers_m);
    proof {
        assert(crate::schema::str_pairs_model(redacted@) =~= Seq::new(
            hdm.len(),
            |k: int| (hdm[k].0, crate::redact::spec_redacted(hdm[k].0, hdm[k].1)),
        ));
    }
    let body_data = crate::schema::BodyData::from_bytes(
        body,
        content_encoding,
        content_type,
        max_body_size,
    );
    crate::schema::LogEntry::new_proxy_response(
        session_id,
        correlation_id,
        request_id,
        status,
        redacted,
        body_data,
        duration_ms,
    )
}

} // verus!

verus! {

/// The last value under a key in an association list.
pub open spec fn lookup_last(
    ps: Seq<(Seq<char>, Seq<char>)>,
    k: Seq<char>,
) -> Option<Seq<char>>
    decreases ps.len(),
{
    if ps.len() == 0 {
        None
    } else if ps.last().0 == k {
        Some(ps.last().1)
    } else {
        lookup_last(ps.drop_last(), k)
    }
}

/// Whether a key occurs in an association list.
pub open spec fn key_in(ps: Seq<(Seq<char>, Seq<char>)>, k: Seq<char>) -> bool {
    exists|j: int| 0 <= j < ps.len() && (#[trigger] ps[j]).0 == k
}

/// The position of a key's first occurrence, or the length when absent.
pub open spec fn first_pos(ps: Seq<(Seq<char>, Seq<char>)>, k: Seq<char>) -> int
    decreases ps.len(),
{
    if ps.len() == 0 {
        0
    } else if ps[0].0 == k {
        0
    } else {
        1 + first_pos(ps.drop_first(), k)
    }
}

/// Where a present key first occurs.
proof fn lemma_first_pos(ps: Seq<(Seq<char>, Seq<char>)>, k: Seq<char>)
    ensures
        0 <= first_pos(ps, k) <= ps.len(),
        first_pos(ps, k) < ps.len() ==> ps[first_pos(ps, k)].0 == k,
        forall|q: int| 0 <= q < first_pos(ps, k) && q < ps.len() ==> (#[trigger] ps[q]).0 != k,
        key_in(ps, k) ==> first_pos(ps, k) < ps.len(),
    decreases ps.len(),
{
    if ps.len() > 0 && ps[0].0 != k {
        lemma_first_pos(ps.drop_first(), k);
        assert(forall|q: int|
            0 <= q < ps.drop_first().len() ==> #[trigger] ps.drop_first()[q] == ps[q + 1]);
        assert forall|q: int|
            0 <= q < first_pos(ps, k) && q < ps.len() implies (#[trigger] ps[q]).0 != k by {
            if q > 0 {
                assert(ps.drop_first()[q - 1] == ps[q]);
            }
        }
        if key_in(ps, k) {
            let w = choose|j: int| 0 <= j < ps.len() && (#[trigger] ps[j]).0 == k;
            assert(ps.drop_first()[w - 1].0 == k);
            assert(key_in(ps.drop_first(), k));
        }
    }
}

/// The map reading of an association list: keys unique and complete, each
/// bound to its last value, in order of first appearance. These clauses
/// admit exactly one sequence.
pub open spec fn is_map_of(
    m: Seq<(Seq<char>, Seq<char>)>,
    ps: Seq<(Seq<char>, Seq<char>)>,
) -> bool {
    &&& forall|j: int|
        0 <= j < m.len() ==> key_in(ps, (#[trigger] m[j]).0) && lookup_last(ps, m[j].0) == Some(
            m[j].1,
        )
    &&& forall|j: int| 0 <= j < ps.len() ==> key_in(m, (#[trigger] ps[j]).0)
    &&& forall|a: int, b: int|
        0 <= a < b < m.len() ==> first_pos(ps, (#[trigger] m[a]).0) < first_pos(
            ps,
            (#[trigger] m[b]).0,
        )
}

/// Reduce an association list to its map reading: one entry per key, the
/// later of duplicate values winning, keys in order of first appearance.
#[verifier::loop_isolation(false)]
#[verifier::rlimit(100)]
pub fn dedup_pairs(ps: &Vec<(String, String)>) -> (r: Vec<(String, String)>)
    ensures
        is_map_of(crate::schema::str_pairs_model(r@), crate::schema::str_pairs_model(ps@)),
{
    let ghost pm = crate::schema::str_pairs_model(ps@);
    let mut out: Vec<(String, String)> = Vec::new();
    let mut i: usize = 0;
    while i < ps.len()
        invariant
            i <= ps@.len(),
            pm == crate::schema::str_pairs_model(ps@),
            forall|a: int, b: int| 0 <= a < b < out@.len() ==> (#[trigger] out@[a]).0@ != (
            #[trigger] out@[b]).0@,
            forall|j: int|
                0 <= j < out@.len() ==> key_in(pm, (#[trigger] out@[j]).0@) && lookup_last(
                    pm,
                    out@[j].0@,
                ) == Some(out@[j].1@) && first_pos(pm, out@[j].0@) < i,
            forall|q: int|
                0 <= q < i ==> key_in(
                    crate::schema::str_pairs_model(out@),
                    (#[trigger] pm[q]).0,
                ),
            forall|a: int, b: int|
                0 <= a < b < out@.len() ==> first_pos(pm, (#[trigger] out@[a]).0@) < first_pos(
                    pm,
                    (#[trigger] out@[b]).0@,
                ),
        decreases ps@.len() - i,
    {
        let mut dup = false;
        let mut a: usize = 0;
        while a < i
            invariant
                a <= i,
                !dup ==> forall|q: int| 0 <= q < a ==> (#[trigger] pm[q]).0 != pm[i as int].0,
                dup ==> key_in(pm.take(i as int), pm[i as int].0),
            decreases i - a,
        {
            if crate::codec::str_eq(ps[a].0.as_str(), ps[i].0.as_str()) {
                proof {
                    assert(pm.take(i as int)[a as int].0 == pm[i as int].0);
                }
                dup = true;
                a = i;
            } else {
                a = a + 1;
            }
        }
        if !dup {
            let ghost key = pm[i as int].0;
            proof {
                lemma_first_pos(pm, key);
                assert(first_pos(pm, key) == i) by {
                    if first_pos(pm, key) < i {
                        assert(pm[first_pos(pm, key)].0 == key);
                        assert(false);
                    }
                    assert(pm[i as int].0 == key);
                }
            }
            let mut last: usize = i;
            let mut j: usize = i + 1;
            proof {
                assert(pm.take(i + 1).last() == pm[i as int]);
                assert(lookup_last(pm.take(i + 1), key) == Some(pm[i as int].1));
            }
            while j < ps.len()
                invariant
                    i < j <= ps@.len() || (i == last && j == i + 1),
                    i <= last < j,
                    pm == crate::schema::str_pairs_model(ps@),
                    pm[last as int].0 == key,
                    lookup_last(pm.take(j as int), key) == Some(pm[last as int].1),
                decreases ps@.len() - j,
            {
                proof {
                    assert(pm.take(j + 1).last() == pm[j as int]);
                    assert(pm.take(j + 1).drop_last() =~= pm.take(j as int));
                }
                if crate::codec::str_eq(ps[j].0.as_str(), ps[i].0.as_str()) {
                    last = j;
                }
                j = j + 1;
            }
            proof {
                assert(pm.take(ps@.len() as int) =~= pm);
            }
            let ghost out0 = out@;
            out.push((ps[i].0.clone(), ps[last].1.clone()));
            proof {
                assert(out@ =~= out0.push((ps@[i as int].0, ps@[last as int].1)));
                assert(out@[out0.len() as int].0@ == key);
                assert(forall|j2: int|
                    0 <= j2 < out0.len() ==> #[trigger] out@[j2] == out0[j2]);
                assert forall|j2: int|
                    0 <= j2 < out0.len() implies (#[trigger] out@[j2]).0@ != key by {
                    assert(first_pos(pm, out0[j2].0@) < i);
                }
                assert forall|q: int|
                    0 <= q < i + 1 implies key_in(
                        crate::schema::str_pairs_model(out@),
                        (#[trigger] pm[q]).0,
                    ) by {
                    let om = crate::schema::str_pairs_model(out@);
                    if q < i {
                        let om0 = crate::schema::str_pairs_model(out0);
                        assert(key_in(om0, pm[q].0));
                        let w = choose|x: int| 0 <= x < om0.len() && (#[trigger] om0[x]).0 == pm[
                            q
                        ].0;
                        assert(om[w].0 == pm[q].0);
                    } else {
                        assert(om[out0.len() as int].0 == key);
                    }
                }
            }
            i = i + 1;
        } else {
            proof {
                let w = choose|q: int|
                    0 <= q < i && (#[trigger] pm.take(i as int)[q]).0 == pm[i as int].0;
                assert(pm[w].0 == pm[i as int].0);
                assert(key_in(crate::schema::str_pairs_model(out@), pm[w].0));
            }
            i = i + 1;
        }
    }
    proof {
        assert(pm.take(ps@.len() as int) =~= pm);
        let om = crate::schema::str_pairs_model(out@);
        assert forall|j: int|
            0 <= j < om.len() implies key_in(pm, (#[trigger] om[j]).0) && lookup_last(
                pm,
                om[j].0,
            ) == Some(om[j].1) by {
            assert(om[j] == (out@[j].0@, out@[j].1@));
        }
        assert forall|a: int, b: int|
            0 <= a < b < om.len() implies first_pos(pm, (#[trigger] om[a]).0) < first_pos(
                pm,
                (#[trigger] om[b]).0,
            ) by {
            assert(om[a] == (out@[a].0@, out@[a].1@));
            assert(om[b] == (out@[b].0@, out@[b].1@));
        }
    }
    out
}

} // verus!
