//! Safe body capture: decoding and truncation for the durable record.
//!
//! A body is never stored as raw opaque bytes. Its captured form is derived
//! deterministically from the wire bytes, the declared content encoding, and
//! the size limit: try a gzip decode when the encoding mentions gzip; a
//! failed decode is recorded, not fatal; an empty effective body is `Empty`;
//! an oversized one keeps a bounded preview; valid UTF-8 is kept as text;
//! anything else is kept in standard base-64.

use vstd::prelude::*;
use vstd::utf8::{encode_utf8, decode_utf8, valid_utf8};
use vstd::string::StringSliceAdditionalSpecFns;
use crate::schema::{BodyData, BodyContent, BodyV, BodyContentV, opt_str_model};
use crate::json::{dec_digits, lemma_dec_digits, lemma_ascii_decode, chars_of_bytes,
    push_dec_digits};
use vstd::utf8::encode_scalar;
use std::io::Read;

verus! {

/// What a gzip stream inflates to; meaningful where [`gunzip_ok`] holds.
pub uninterp spec fn gunzip_of(b: Seq<u8>) -> Seq<u8>;

/// Whether a byte sequence is a well-formed gzip stream.
pub uninterp spec fn gunzip_ok(b: Seq<u8>) -> bool;

/// The standard base-64 rendering of a byte sequence.
pub uninterp spec fn base64_of(b: Seq<u8>) -> Seq<char>;

/// The lossy text reading of a byte sequence: invalid sequences replaced.
pub uninterp spec fn utf8_lossy_of(b: Seq<u8>) -> Seq<char>;

/// Relies on flate2's `GzDecoder` and `read_to_end`: inflating a gzip
/// stream is a function of the bytes alone; it yields the inflated bytes
/// exactly when the stream is well-formed. Nothing is promised of the
/// error's text.
#[verifier::external_body]
fn gunzip(bytes: &[u8]) -> (r: Result<Vec<u8>, String>)
    ensures
        r is Ok <==> gunzip_ok(bytes@),
        r matches Ok(v) ==> v@ == gunzip_of(bytes@),
{
    let mut decoder = flate2::read::GzDecoder::new(bytes);
    let mut out: Vec<u8> = Vec::new();
    match decoder.read_to_end(&mut out) {
        Ok(_) => Ok(out),
        Err(e) => Err(e.to_string()),
    }
}

/// Relies on base64's `Engine::encode` with the standard padded alphabet:
/// the rendering depends on the bytes alone, and the padded output holds
/// four characters for every started group of three bytes.
#[verifier::external_body]
fn base64_encode(bytes: &[u8]) -> (r: String)
    requires
        bytes@.len() <= 0x4000000000000000,
    ensures
        r@ == base64_of(bytes@),
        r@.len() == 4 * ((bytes@.len() + 2) / 3),
        encode_utf8(r@).len() == r@.len(),
        encode_utf8(r@).len() <= usize::MAX,
{
    base64::Engine::encode(&base64::engine::general_purpose::STANDARD, bytes)
}

/// Relies on std's `String::from_utf8_lossy`: the reading depends on the
/// bytes alone, valid UTF-8 is read unchanged, every input byte yields at
/// most one three-byte replacement, and some text comes out of any
/// nonempty input.
#[verifier::external_body]
fn utf8_lossy(bytes: &[u8]) -> (r: String)
    ensures
        r@ == utf8_lossy_of(bytes@),
        valid_utf8(bytes@) ==> r@ == decode_utf8(bytes@),
        encode_utf8(r@).len() <= 3 * bytes@.len(),
        bytes@.len() > 0 ==> r@.len() > 0,
{
    String::from_utf8_lossy(bytes).into_owned()
}

/// Whether the ASCII letters `gzip` occur in the byte sequence.
pub open spec fn has_gzip(b: Seq<u8>) -> bool {
    exists|i: int|
        0 <= i && i + 4 <= b.len() && #[trigger] b[i] == 103 && b[i + 1] == 122 && b[i + 2] == 105
            && b[i + 3] == 112
}

/// Whether a declared content encoding mentions gzip.
pub open spec fn mentions_gzip(enc: Option<Seq<char>>) -> bool {
    match enc {
        Some(s) => has_gzip(encode_utf8(s)),
        None => false,
    }
}

/// Substring scan for `gzip`.
#[verifier::loop_isolation(false)]
fn contains_gzip(s: &str) -> (r: bool)
    ensures
        r == has_gzip(encode_utf8(s@)),
{
    let b = s.as_bytes();
    if b.len() < 4 {
        return false;
    }
    let mut i: usize = 0;
    while i <= b.len() - 4
        invariant
            i <= b@.len() - 3,
            forall|q: int|
                0 <= q < i ==> !(#[trigger] b@[q] == 103 && b@[q + 1] == 122 && b@[q + 2] == 105
                    && b@[q + 3] == 112),
        decreases b@.len() - i,
    {
        if b[i] == 103 && b[i + 1] == 122 && b[i + 2] == 105 && b[i + 3] == 112 {
            return true;
        }
        i = i + 1;
    }
    false
}

/// Decimal digits of a count, as characters.
pub open spec fn dec_chars(n: nat) -> Seq<char> {
    Seq::new(dec_digits(n).len(), |q: int| dec_digits(n)[q] as char)
}

/// The reason recorded on a truncated body: the effective size and the
/// limit it exceeds, in words.
pub open spec fn truncation_reason(n: int, max: int) -> Seq<char> {
    "Body size "@ + dec_chars(n as nat) + " exceeds max "@ + dec_chars(max as nat)
}

/// The longest prefix of a reading whose UTF-8 form fits the byte budget.
pub open spec fn utf8_prefix(sc: Seq<char>, budget: int) -> Seq<char>
    decreases sc.len(),
{
    if sc.len() == 0 {
        sc
    } else {
        let w = encode_scalar(sc[0] as u32).len() as int;
        if w <= budget {
            seq![sc[0]] + utf8_prefix(sc.drop_first(), budget - w)
        } else {
            Seq::empty()
        }
    }
}

/// The derived capture of a body: which variant holds, and the sizes, for
/// every outcome of the gzip decode. The failed-decode error text is the
/// only field left open.
pub open spec fn body_capture_ok(
    r: BodyV,
    bytes: Seq<u8>,
    enc: Option<Seq<char>>,
    ct: Option<Seq<char>>,
    max: int,
) -> bool {
    let failed = mentions_gzip(enc) && !gunzip_ok(bytes);
    let eff = if mentions_gzip(enc) && gunzip_ok(bytes) {
        gunzip_of(bytes)
    } else {
        bytes
    };
    &&& r.original_encoding == enc
    &&& r.content_type == ct
    &&& r.size_bytes == bytes.len()
    &&& if failed {
        &&& r.content is DecompressionFailed
        &&& r.stored_size_bytes == 0
        &&& !r.truncated
    } else if eff.len() == 0 {
        &&& r.content == BodyContentV::Empty
        &&& r.stored_size_bytes == 0
        &&& !r.truncated
    } else if eff.len() > max {
        let window = eff.take(if max < 1024 {
            max
        } else {
            1024
        });
        let preview = utf8_prefix(utf8_lossy_of(window), 1024);
        &&& r.content == (BodyContentV::Truncated {
            preview,
            reason: truncation_reason(eff.len() as int, max),
        })
        &&& r.stored_size_bytes == encode_utf8(preview).len()
        &&& r.truncated
    } else if valid_utf8(eff) {
        &&& r.content == (BodyContentV::Text { data: decode_utf8(eff) })
        &&& r.stored_size_bytes == eff.len()
        &&& !r.truncated
    } else {
        &&& r.content == (BodyContentV::Binary { data: base64_of(eff) })
        &&& r.stored_size_bytes == 4 * ((eff.len() + 2) / 3)
        &&& !r.truncated
    }
}

impl BodyData {
    /// Derive the captured form of a body, totally: no failure escapes.
    pub fn from_bytes(
        bytes: &[u8],
        content_encoding: Option<String>,
        content_type: Option<String>,
        max_size: usize,
    ) -> (r: BodyData)
        requires
            bytes@.len() <= 0x7fffffffffffffff,
            max_size <= 0x1000000000000000,
        ensures
            body_capture_ok(
                r.model(),
                bytes@,
                opt_str_model(content_encoding),
                opt_str_model(content_type),
                max_size as int,
            ),
            r.size_bytes <= i64::MAX,
            r.truncated ==> r.stored_size_bytes <= 1024,
            max_size >= 1 ==> ((r.stored_size_bytes == 0) <==> (r.model().content is Empty
                || r.model().content is DecompressionFailed)),
            r.model().content matches BodyContentV::Text { data } ==> r.stored_size_bytes
                <= max_size,
            r.model().content matches BodyContentV::Binary { data } ==> r.stored_size_bytes <= 4
                * ((max_size + 2) / 3),
            r.stored_size_bytes <= i64::MAX,
    {
        let original_size: u64 = bytes.len() as u64;
        let wants = match &content_encoding {
            Some(e) => contains_gzip(e.as_str()),
            None => false,
        };
        if wants {
            match gunzip(bytes) {
                Ok(decoded) => {
                    let c = Self::capture_effective(decoded.as_slice(), max_size);
                    BodyData {
                        original_encoding: content_encoding,
                        content_type,
                        size_bytes: original_size,
                        stored_size_bytes: c.1,
                        truncated: c.2,
                        content: c.0,
                    }
                },
                Err(error) => BodyData {
                    original_encoding: content_encoding,
                    content_type,
                    size_bytes: original_size,
                    stored_size_bytes: 0,
                    truncated: false,
                    content: BodyContent::DecompressionFailed { error },
                },
            }
        } else {
            let c = Self::capture_effective(bytes, max_size);
            BodyData {
                original_encoding: content_encoding,
                content_type,
                size_bytes: original_size,
                stored_size_bytes: c.1,
                truncated: c.2,
                content: c.0,
            }
        }
    }

    /// Capture the effective (already decoded) bytes.
    fn capture_effective(eff: &[u8], max_size: usize) -> (r: (BodyContent, u64, bool))
        requires
            max_size <= 0x1000000000000000,
        ensures
            ({
                let (content, stored, truncated) = r;
                if eff@.len() == 0 {
                    content.model() == BodyContentV::Empty && stored == 0 && !truncated
                } else if eff@.len() > max_size {
                    let window = eff@.take(
                        if max_size < 1024 {
                            max_size as int
                        } else {
                            1024
                        },
                    );
                    let preview = utf8_prefix(utf8_lossy_of(window), 1024);
                    &&& content.model() == (BodyContentV::Truncated {
                        preview,
                        reason: truncation_reason(eff@.len() as int, max_size as int),
                    })
                    &&& stored == encode_utf8(preview).len()
                    &&& stored <= 1024
                    &&& (window.len() > 0 ==> stored >= 1)
                    &&& truncated
                } else if valid_utf8(eff@) {
                    content.model() == (BodyContentV::Text { data: decode_utf8(eff@) }) && stored
                        == eff@.len() && !truncated
                } else {
                    content.model() == (BodyContentV::Binary { data: base64_of(eff@) }) && stored
                        == 4 * ((eff@.len() + 2) / 3) && !truncated
                }
            }),
    {
        if eff.len() == 0 {
            return (BodyContent::Empty, 0, false);
        }
        if eff.len() > max_size {
            let cut = if max_size < 1024 {
                max_size
            } else {
                1024
            };
            let window = vstd::slice::slice_subrange(eff, 0, cut);
            let reading = utf8_lossy(window);
            let preview = utf8_prefix_exec(reading.as_str(), 1024);
            let ps = preview.as_str();
            let stored: u64 = ps.len() as u64;
            proof {
                lemma_utf8_prefix_len(reading@, 1024);
                assert(ps@ == preview@);
                assert(stored as int == encode_utf8(preview@).len());
            }
            let mut reason = String::from_str("Body size ");
            let mut nbuf: Vec<u8> = Vec::new();
            push_dec_digits(eff.len() as u64, &mut nbuf);
            proof {
                lemma_dec_digits(eff@.len() as nat);
            }
            reason.append(digits_to_string(nbuf).as_str());
            reason.append(" exceeds max ");
            let mut mbuf: Vec<u8> = Vec::new();
            push_dec_digits(max_size as u64, &mut mbuf);
            proof {
                lemma_dec_digits(max_size as nat);
            }
            reason.append(digits_to_string(mbuf).as_str());
            proof {
                assert(reason@ =~= truncation_reason(eff@.len() as int, max_size as int));
            }
            return (BodyContent::Truncated { preview, reason }, stored, true);
        }
        let owned: Vec<u8> = vstd::slice::slice_to_vec(eff);
        let ghost effv = eff@;
        match crate::json::string_from_utf8(owned) {
            Some(text) => {
                let stored: u64 = text.as_str().len() as u64;
                proof {
                    vstd::utf8::decode_utf8_encode_utf8(effv);
                }
                (BodyContent::Text { data: text }, stored, false)
            },
            None => {
                let encoded = base64_encode(eff);
                let es = encoded.as_str();
                let stored: u64 = es.len() as u64;
                proof {
                    assert(es@ == encoded@);
                    assert(es.spec_bytes() == encode_utf8(encoded@));
                    assert(stored as int == encode_utf8(encoded@).len());
                    assert(stored as int == encoded@.len());
                    assert(stored as int == 4 * ((eff@.len() + 2) / 3));
                }
                (BodyContent::Binary { data: encoded }, stored, false)
            },
        }
    }
}

/// Decimal digit bytes as a string, one character per digit.
fn digits_to_string(digits: Vec<u8>) -> (r: String)
    requires
        forall|q: int| 0 <= q < digits@.len() ==> 48 <= #[trigger] digits@[q] <= 57,
    ensures
        r@ == Seq::new(digits@.len(), |q: int| digits@[q] as char),
{
    let ghost d = digits@;
    proof {
        lemma_ascii_decode(d);
    }
    match crate::json::string_from_utf8(digits) {
        Some(s) => {
            proof {
                assert(s@ =~= Seq::new(d.len(), |q: int| d[q] as char)) by {
                    assert(s@ == chars_of_bytes(d, 0, d.len() as int));
                }
            }
            s
        },
        None => String::new(),
    }
}

/// The UTF-8 form of a budgeted prefix fits the budget; a nonempty reading
/// under a roomy budget keeps at least one character, encoded as at least
/// one byte.
proof fn lemma_utf8_prefix_len(sc: Seq<char>, budget: int)
    requires
        budget >= 0,
    ensures
        encode_utf8(utf8_prefix(sc, budget)).len() <= budget,
        sc.len() > 0 && budget >= 4 ==> encode_utf8(utf8_prefix(sc, budget)).len() >= 1,
    decreases sc.len(),
{
    if sc.len() == 0 {
    } else {
        vstd::utf8::char_is_scalar(sc[0]);
        let w = encode_scalar(sc[0] as u32).len() as int;
        assert(1 <= w <= 4);
        if w <= budget {
            lemma_utf8_prefix_len(sc.drop_first(), budget - w);
            let p = seq![sc[0]] + utf8_prefix(sc.drop_first(), budget - w);
            assert(p[0] == sc[0]);
            assert(p.drop_first() =~= utf8_prefix(sc.drop_first(), budget - w));
            assert(encode_utf8(p) == encode_scalar(sc[0] as u32) + encode_utf8(p.drop_first()));
        }
    }
}

/// Appending one character extends the encoding of a prefix.
proof fn lemma_encode_utf8_snoc(sc: Seq<char>, k: int)
    requires
        0 <= k < sc.len(),
    ensures
        encode_utf8(sc.take(k + 1)) == encode_utf8(sc.take(k)) + encode_scalar(sc[k] as u32),
    decreases k,
{
    if k == 0 {
        vstd::utf8::char_is_scalar(sc[0]);
        assert(sc.take(1) =~= seq![sc[0]]);
        assert(sc.take(1)[0] == sc[0]);
        assert(sc.take(1).drop_first() =~= Seq::<char>::empty());
        assert(encode_utf8(Seq::<char>::empty()) =~= Seq::<u8>::empty());
        assert(encode_utf8(sc.take(0)) =~= Seq::<u8>::empty());
        assert(encode_utf8(sc.take(1)) == encode_scalar(sc.take(1)[0] as u32) + encode_utf8(
            sc.take(1).drop_first(),
        ));
        assert(encode_utf8(sc.take(1)) =~= encode_scalar(sc[0] as u32));
    } else {
        vstd::utf8::char_is_scalar(sc[0]);
        vstd::utf8::char_is_scalar(sc[k]);
        lemma_encode_utf8_snoc(sc.drop_first(), k - 1);
        assert(sc.take(k + 1).drop_first() =~= sc.drop_first().take(k));
        assert(sc.take(k).drop_first() =~= sc.drop_first().take(k - 1));
        assert(sc.take(k + 1)[0] == sc[0]);
        assert(sc.take(k)[0] == sc[0]);
        assert(sc.drop_first()[k - 1] == sc[k]);
        assert(encode_utf8(sc.take(k + 1)) == encode_scalar(sc[0] as u32) + encode_utf8(
            sc.drop_first().take(k),
        ));
        assert(encode_utf8(sc.take(k)) + encode_scalar(sc[k] as u32) =~= encode_scalar(
            sc[0] as u32,
        ) + (encode_utf8(sc.drop_first().take(k - 1)) + encode_scalar(sc[k] as u32)));
    }
}

/// The longest prefix of a reading that fits the byte budget.
#[verifier::loop_isolation(false)]
fn utf8_prefix_exec(s0: &str, budget: usize) -> (r: String)
    ensures
        r@ == utf8_prefix(s0@, budget as int),
{
    let n = s0.unicode_len();
    let mut used: usize = 0;
    let mut k: usize = 0;
    proof {
        assert(s0@.skip(0) =~= s0@);
        assert(s0@.take(0) =~= Seq::<char>::empty());
        assert(Seq::<char>::empty() + utf8_prefix(s0@, budget as int) =~= utf8_prefix(
            s0@,
            budget as int,
        ));
    }
    while k < n
        invariant
            k <= n,
            n == s0@.len(),
            used <= budget,
            used as int == encode_utf8(s0@.take(k as int)).len(),
            utf8_prefix(s0@, budget as int) == s0@.take(k as int) + utf8_prefix(
                s0@.skip(k as int),
                budget - used,
            ),
        decreases n - k,
    {
        let c = s0.get_char(k);
        let u = c as u32;
        let w: usize = if u < 0x80 {
            1
        } else if u < 0x800 {
            2
        } else if u < 0x10000 {
            3
        } else {
            4
        };
        proof {
            vstd::utf8::char_is_scalar(c);
            assert(!(0xD800 <= u && u <= 0xDFFF)) by {
                if 0xD800 <= u && u <= 0xDFFF {
                    assert(!vstd::utf8::is_scalar(u));
                }
            }
            assert(w as int == encode_scalar(u).len());
            let sfx = s0@.skip(k as int);
            assert(sfx[0] == c);
            assert(sfx.drop_first() =~= s0@.skip(k + 1));
        }
        if w <= budget - used {
            proof {
                lemma_encode_utf8_snoc(s0@, k as int);
                let sfx = s0@.skip(k as int);
                assert(utf8_prefix(sfx, budget - used) == seq![c] + utf8_prefix(
                    s0@.skip(k + 1),
                    budget - used - w,
                ));
                assert(s0@.take(k as int) + (seq![c] + utf8_prefix(
                    s0@.skip(k + 1),
                    budget - used - w,
                )) =~= s0@.take(k + 1) + utf8_prefix(s0@.skip(k + 1), budget - used - w));
            }
            used = used + w;
            k = k + 1;
        } else {
            proof {
                let sfx = s0@.skip(k as int);
                assert(utf8_prefix(sfx, budget - used) =~= Seq::<char>::empty());
                assert(s0@.take(k as int) + Seq::<char>::empty() =~= s0@.take(k as int));
            }
            let cut = s0.substring_char(0, k);
            return cut.to_owned();
        }
    }
    proof {
        assert(s0@.skip(n as int).len() == 0);
        assert(s0@.take(n as int) + Seq::<char>::empty() =~= s0@.take(n as int));
        assert(s0@.take(n as int) =~= s0@);
    }
    let whole = s0.substring_char(0, n);
    whole.to_owned()
}

} // verus!
