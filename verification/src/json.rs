//! JSON values, canonical serialization and parsing.
//!
//! Every durable record is one JSON document on one line. The value model is
//! a closed sum: `null`, booleans, integers, strings, arrays and objects
//! (objects keep their field order). The serializer emits compact JSON with
//! no interior whitespace; the parser accepts whitespace between tokens, so
//! externally produced documents (hook payloads) are read as well.

use vstd::prelude::*;
use vstd::utf8::{encode_utf8, decode_utf8, valid_utf8, encode_scalar};

verus! {

broadcast use vstd::seq_lib::group_seq_properties;

/// Mathematical JSON value: the model of [`Json`].
///
/// A number that is integral and fits the signed 64-bit carrier is an
/// `Int`; any other number — a fraction, an exponent, or an integer beyond
/// that range — is a `Num`, carried as its validated lexeme and re-emitted
/// verbatim.
pub enum JsonV {
    Null,
    Bool(bool),
    Int(int),
    Num(Seq<char>),
    Str(Seq<char>),
    Arr(Seq<JsonV>),
    Obj(Seq<(Seq<char>, JsonV)>),
}

/// A well-formed value keeps every integer within the signed 64-bit range
/// that the executable representation carries, and every number lexeme
/// valid.
pub open spec fn wf_json(v: JsonV) -> bool
    decreases v,
{
    match v {
        JsonV::Null => true,
        JsonV::Bool(_) => true,
        JsonV::Int(i) => i64::MIN <= i <= i64::MAX,
        JsonV::Num(lx) => num_lexeme_ok(lx),
        JsonV::Str(_) => true,
        JsonV::Arr(items) => forall|k: int| 0 <= k < items.len() ==> wf_json(#[trigger] items[k]),
        JsonV::Obj(pairs) => forall|k: int| 0 <= k < pairs.len() ==> wf_json(#[trigger] pairs[k].1),
    }
}

/// ASCII characters read off a byte region, one character per byte.
pub open spec fn chars_of_bytes(s: Seq<u8>, i: int, e: int) -> Seq<char> {
    Seq::new((e - i) as nat, |q: int| s[i + q] as char)
}

/// The bytes of an ASCII character sequence, one byte per character.
pub open spec fn bytes_of_chars(lx: Seq<char>) -> Seq<u8> {
    Seq::new(lx.len(), |q: int| lx[q] as u8)
}

/// A number lexeme is valid when its bytes, standing alone, parse back to
/// exactly this lexeme. An integral lexeme within the signed 64-bit range
/// parses to an integer instead, so it is no number lexeme.
#[verifier::opaque]
pub open spec fn num_lexeme_ok(lx: Seq<char>) -> bool {
    parse_number(bytes_of_chars(lx), 0) == Some((JsonV::Num(lx), lx.len() as int))
}

/// A validated JSON number lexeme, carried verbatim.
pub struct NumLexeme {
    lexeme: String,
}

impl NumLexeme {
    /// Every carried lexeme is valid.
    #[verifier::type_invariant]
    spec fn inv(self) -> bool {
        num_lexeme_ok(self.lexeme@)
    }

    /// The lexeme's characters.
    pub closed spec fn chars(&self) -> Seq<char> {
        self.lexeme@
    }

    /// Wrap a checked lexeme.
    pub fn from_checked(lexeme: String) -> (r: NumLexeme)
        requires
            num_lexeme_ok(lexeme@),
        ensures
            r.chars() == lexeme@,
    {
        NumLexeme { lexeme }
    }

    /// The lexeme's text.
    pub fn as_string(&self) -> (r: &String)
        ensures
            r@ == self.chars(),
    {
        &self.lexeme
    }

    /// A copy carrying the same lexeme.
    pub fn clone_lexeme(&self) -> (r: NumLexeme)
        ensures
            r.chars() == self.chars(),
    {
        proof {
            use_type_invariant(self);
        }
        NumLexeme { lexeme: self.lexeme.clone() }
    }
}

/// Executable JSON value.
pub enum Json {
    Null,
    Bool(bool),
    Int(i64),
    Num(NumLexeme),
    Str(String),
    Arr(Vec<Json>),
    Obj(Vec<(String, Json)>),
}

impl Json {
    /// The mathematical value this executable value stands for.
    pub open spec fn model(&self) -> JsonV
        decreases self,
    {
        match self {
            Json::Null => JsonV::Null,
            Json::Bool(b) => JsonV::Bool(*b),
            Json::Int(i) => JsonV::Int(*i as int),
            Json::Num(n) => JsonV::Num(n.chars()),
            Json::Str(s) => JsonV::Str(s@),
            Json::Arr(items) => JsonV::Arr(models_of(items@)),
            Json::Obj(pairs) => JsonV::Obj(pair_models_of(pairs@)),
        }
    }

    /// Every executable value models a well-formed mathematical value;
    /// walking the value surfaces the carried lexeme invariants.
    #[verifier::loop_isolation(false)]
    pub fn to_wf(&self)
        ensures
            wf_json(self.model()),
        decreases self,
    {
        match self {
            Json::Num(n) => {
                proof {
                    use_type_invariant(n);
                }
            },
            Json::Arr(items) => {
                proof {
                    lemma_models_of(items@);
                }
                let mut k: usize = 0;
                while k < items.len()
                    invariant
                        k <= items@.len(),
                        forall|q: int|
                            0 <= q < k ==> wf_json(#[trigger] self.model()->Arr_0[q]),
                    decreases items@.len() - k,
                {
                    proof {
                        let jv = *self;
                        assert(decreases_to!(jv => jv->Arr_0[k as int]));
                        assert(jv->Arr_0[k as int] == items@[k as int]);
                    }
                    items[k].to_wf();
                    k = k + 1;
                }
            },
            Json::Obj(pairs) => {
                proof {
                    lemma_pair_models_of(pairs@);
                }
                let mut k: usize = 0;
                while k < pairs.len()
                    invariant
                        k <= pairs@.len(),
                        forall|q: int|
                            0 <= q < k ==> wf_json(#[trigger] self.model()->Obj_0[q].1),
                    decreases pairs@.len() - k,
                {
                    proof {
                        let jv = *self;
                        assert(decreases_to!(jv => jv->Obj_0[k as int].1));
                        assert(jv->Obj_0[k as int] == pairs@[k as int]);
                    }
                    pairs[k].1.to_wf();
                    k = k + 1;
                }
            },
            _ => {},
        }
    }
}

/// Models of a sequence of executable values, element-wise.
pub open spec fn models_of(items: Seq<Json>) -> Seq<JsonV>
    decreases items,
{
    if items.len() == 0 {
        Seq::empty()
    } else {
        seq![items[0].model()] + models_of(items.drop_first())
    }
}

/// Models of a sequence of executable members, element-wise.
pub open spec fn pair_models_of(pairs: Seq<(String, Json)>) -> Seq<(Seq<char>, JsonV)>
    decreases pairs,
{
    if pairs.len() == 0 {
        Seq::empty()
    } else {
        seq![(pairs[0].0@, pairs[0].1.model())] + pair_models_of(pairs.drop_first())
    }
}

/// `models_of` maps element-wise.
pub proof fn lemma_models_of(items: Seq<Json>)
    ensures
        models_of(items).len() == items.len(),
        forall|k: int| 0 <= k < items.len() ==> models_of(items)[k] == items[k].model(),
    decreases items.len(),
{
    if items.len() > 0 {
        lemma_models_of(items.drop_first());
    }
}

/// `pair_models_of` maps element-wise.
pub proof fn lemma_pair_models_of(pairs: Seq<(String, Json)>)
    ensures
        pair_models_of(pairs).len() == pairs.len(),
        forall|k: int|
            0 <= k < pairs.len() ==> pair_models_of(pairs)[k] == (
                pairs[k].0@,
                pairs[k].1.model(),
            ),
    decreases pairs.len(),
{
    if pairs.len() > 0 {
        lemma_pair_models_of(pairs.drop_first());
    }
}

// ---------------------------------------------------------------------------
// Serialization: spec
// ---------------------------------------------------------------------------

/// Decimal digits of `n`, most significant first.
pub open spec fn dec_digits(n: nat) -> Seq<u8>
    decreases n,
{
    if n < 10 {
        seq![(48 + n) as u8]
    } else {
        dec_digits(n / 10) + seq![(48 + (n % 10)) as u8]
    }
}

/// Serialized form of an integer: optional minus sign, then decimal digits.
pub open spec fn ser_int(i: int) -> Seq<u8> {
    if i >= 0 {
        dec_digits(i as nat)
    } else {
        seq![45u8] + dec_digits((-i) as nat)
    }
}

/// Lower-case hex digit for a value below 16.
pub open spec fn hex_digit(n: u8) -> u8 {
    if n < 10 {
        (48 + n) as u8
    } else {
        (87 + n) as u8
    }
}

/// JSON escape of one byte of a string's UTF-8 encoding.
pub open spec fn escape_byte(b: u8) -> Seq<u8> {
    if b == 34 {
        seq![92u8, 34u8]
    } else if b == 92 {
        seq![92u8, 92u8]
    } else if b == 10 {
        seq![92u8, 110u8]
    } else if b == 13 {
        seq![92u8, 114u8]
    } else if b == 9 {
        seq![92u8, 116u8]
    } else if b == 8 {
        seq![92u8, 98u8]
    } else if b == 12 {
        seq![92u8, 102u8]
    } else if b < 32 {
        seq![92u8, 117u8, 48u8, 48u8, hex_digit(b / 16), hex_digit(b % 16)]
    } else {
        seq![b]
    }
}

/// JSON escape of a whole byte sequence.
pub open spec fn escape_bytes(bs: Seq<u8>) -> Seq<u8>
    decreases bs.len(),
{
    if bs.len() == 0 {
        seq![]
    } else {
        escape_byte(bs[0]) + escape_bytes(bs.drop_first())
    }
}

/// Serialized form of a string: quoted, escaped UTF-8.
pub open spec fn ser_str(s: Seq<char>) -> Seq<u8> {
    seq![34u8] + escape_bytes(encode_utf8(s)) + seq![34u8]
}

/// Canonical serialization of a JSON value: compact, no interior whitespace.
pub open spec fn ser_json(v: JsonV) -> Seq<u8>
    decreases v, 1int,
{
    match v {
        JsonV::Null => seq![110u8, 117u8, 108u8, 108u8],
        JsonV::Bool(b) => if b {
            seq![116u8, 114u8, 117u8, 101u8]
        } else {
            seq![102u8, 97u8, 108u8, 115u8, 101u8]
        },
        JsonV::Int(i) => ser_int(i),
        JsonV::Num(lx) => bytes_of_chars(lx),
        JsonV::Str(s) => ser_str(s),
        JsonV::Arr(items) => seq![91u8] + ser_items(items) + seq![93u8],
        JsonV::Obj(pairs) => seq![123u8] + ser_pairs(pairs) + seq![125u8],
    }
}

/// Comma-separated serialization of array elements.
pub open spec fn ser_items(items: Seq<JsonV>) -> Seq<u8>
    decreases items, 0int,
{
    if items.len() == 0 {
        seq![]
    } else if items.len() == 1 {
        ser_json(items[0])
    } else {
        ser_json(items[0]) + seq![44u8] + ser_items(items.drop_first())
    }
}

/// Comma-separated serialization of object members (`"key":value`).
pub open spec fn ser_pairs(pairs: Seq<(Seq<char>, JsonV)>) -> Seq<u8>
    decreases pairs, 0int,
{
    if pairs.len() == 0 {
        seq![]
    } else if pairs.len() == 1 {
        ser_str(pairs[0].0) + seq![58u8] + ser_json(pairs[0].1)
    } else {
        ser_str(pairs[0].0) + seq![58u8] + ser_json(pairs[0].1) + seq![44u8] + ser_pairs(
            pairs.drop_first(),
        )
    }
}

// ---------------------------------------------------------------------------
// Serialization: exec
// ---------------------------------------------------------------------------

/// Append the decimal digits of `n` to `out`.
pub(crate) fn push_dec_digits(n: u64, out: &mut Vec<u8>)
    ensures
        final(out)@ == old(out)@ + dec_digits(n as nat),
    decreases n,
{
    if n < 10 {
        out.push(48 + n as u8);
        assert(out@ =~= old(out)@ + dec_digits(n as nat));
    } else {
        push_dec_digits(n / 10, out);
        out.push(48 + (n % 10) as u8);
        assert(out@ =~= old(out)@ + dec_digits(n as nat));
    }
}

/// Append the serialized form of `i` to `out`.
fn push_int(i: i64, out: &mut Vec<u8>)
    ensures
        final(out)@ == old(out)@ + ser_int(i as int),
{
    if i >= 0 {
        push_dec_digits(i as u64, out);
    } else {
        out.push(45);
        let mag: u64 = ((-(i + 1)) as u64) + 1;
        assert(mag as nat == (-(i as int)) as nat);
        push_dec_digits(mag, out);
        assert(out@ =~= old(out)@ + ser_int(i as int));
    }
}

/// Append the escaped form of one byte to `out`.
fn push_escaped_byte(b: u8, out: &mut Vec<u8>)
    ensures
        final(out)@ == old(out)@ + escape_byte(b),
{
    if b == 34 {
        out.push(92);
        out.push(34);
    } else if b == 92 {
        out.push(92);
        out.push(92);
    } else if b == 10 {
        out.push(92);
        out.push(110);
    } else if b == 13 {
        out.push(92);
        out.push(114);
    } else if b == 9 {
        out.push(92);
        out.push(116);
    } else if b == 8 {
        out.push(92);
        out.push(98);
    } else if b == 12 {
        out.push(92);
        out.push(102);
    } else if b < 32 {
        out.push(92);
        out.push(117);
        out.push(48);
        out.push(48);
        let hi = b / 16;
        let lo = b % 16;
        out.push(if hi < 10 { 48 + hi } else { 87 + hi });
        out.push(if lo < 10 { 48 + lo } else { 87 + lo });
    } else {
        out.push(b);
    }
    assert(out@ =~= old(out)@ + escape_byte(b));
}

/// Append the quoted, escaped form of `s` to `out`.
#[verifier::loop_isolation(false)]
fn push_str_json(s: &str, out: &mut Vec<u8>)
    ensures
        final(out)@ == old(out)@ + ser_str(s@),
{
    out.push(34);
    let bs = s.as_bytes();
    let ghost bseq = bs@;
    let mut k: usize = 0;
    while k < bs.len()
        invariant
            bs@ == bseq,
            k <= bseq.len(),
            out@ == old(out)@ + seq![34u8] + escape_bytes(bseq.take(k as int)),
        decreases bs.len() - k,
    {
        push_escaped_byte(bs[k], out);
        proof {
            lemma_escape_bytes_snoc(bseq, k as int);
        }
        k = k + 1;
    }
    proof {
        assert(bseq.take(bseq.len() as int) =~= bseq);
    }
    out.push(34);
    assert(out@ =~= old(out)@ + ser_str(s@));
}

/// Appending one byte extends the escape of a prefix.
proof fn lemma_escape_bytes_snoc(bs: Seq<u8>, k: int)
    requires
        0 <= k < bs.len(),
    ensures
        escape_bytes(bs.take(k + 1)) == escape_bytes(bs.take(k)) + escape_byte(bs[k]),
    decreases k,
{
    if k == 0 {
        assert(bs.take(1) =~= seq![bs[0]]);
        assert(bs.take(1).drop_first() =~= Seq::<u8>::empty());
        assert(escape_bytes(bs.take(0)) =~= Seq::<u8>::empty());
        assert(escape_bytes(bs.take(1)) =~= escape_byte(bs[0]));
    } else {
        lemma_escape_bytes_snoc(bs.drop_first(), k - 1);
        assert(bs.take(k + 1).drop_first() =~= bs.drop_first().take(k));
        assert(bs.take(k).drop_first() =~= bs.drop_first().take(k - 1));
        assert(bs.take(k + 1)[0] == bs[0]);
        assert(bs.take(k)[0] == bs[0]);
        assert(bs.drop_first()[k - 1] == bs[k]);
        assert(escape_bytes(bs.take(k + 1)) == escape_byte(bs[0]) + escape_bytes(
            bs.drop_first().take(k),
        ));
        assert(escape_bytes(bs.take(k)) + escape_byte(bs[k]) =~= escape_byte(bs[0]) + (escape_bytes(
            bs.drop_first().take(k - 1),
        ) + escape_byte(bs[k])));
    }
}

/// Append the canonical serialization of `j` to `out`.
#[verifier::loop_isolation(false)]
#[verifier::rlimit(100)]
#[verifier::spinoff_prover]
pub fn push_json(j: &Json, out: &mut Vec<u8>)
    ensures
        final(out)@ == old(out)@ + ser_json(j.model()),
    decreases j,
{
    match j {
        Json::Null => {
            out.push(110);
            out.push(117);
            out.push(108);
            out.push(108);
            assert(out@ =~= old(out)@ + ser_json(j.model()));
        },
        Json::Bool(b) => {
            if *b {
                out.push(116);
                out.push(114);
                out.push(117);
                out.push(101);
            } else {
                out.push(102);
                out.push(97);
                out.push(108);
                out.push(115);
                out.push(101);
            }
            assert(out@ =~= old(out)@ + ser_json(j.model()));
        },
        Json::Int(i) => {
            push_int(*i, out);
        },
        Json::Num(n) => {
            proof {
                use_type_invariant(n);
                lemma_num_lexeme_facts(n.chars());
            }
            let bs = n.as_string().as_str().as_bytes();
            let ghost base = out@;
            let mut k: usize = 0;
            while k < bs.len()
                invariant
                    k <= bs@.len(),
                    bs@ == bytes_of_chars(n.chars()),
                    out@ == base + bs@.take(k as int),
                decreases bs@.len() - k,
            {
                out.push(bs[k]);
                proof {
                    assert(out@ =~= base + bs@.take(k + 1));
                }
                k = k + 1;
            }
            proof {
                assert(bs@.take(bs@.len() as int) =~= bs@);
                assert(out@ =~= old(out)@ + ser_json(j.model()));
            }
        },
        Json::Str(s) => {
            push_str_json(s.as_str(), out);
        },
        Json::Arr(items) => {
            out.push(91);
            let ghost m = models_of(items@);
            proof {
                lemma_models_of(items@);
            }
            let mut k: usize = 0;
            while k < items.len()
                invariant
                    k <= items@.len(),
                    out@ == old(out)@ + seq![91u8] + ser_items(m.take(k as int)),
                decreases items@.len() - k,
            {
                if k > 0 {
                    out.push(44);
                }
                proof {
                    let jv = *j;
                    assert(decreases_to!(jv => jv->Arr_0[k as int]));
                    assert(jv->Arr_0[k as int] == items@[k as int]);
                    assert(m[k as int] == items@[k as int].model());
                }
                push_json(&items[k], out);
                proof {
                    lemma_ser_items_snoc(m, k as int);
                    assert(out@ =~= old(out)@ + seq![91u8] + ser_items(m.take(k + 1)));
                }
                k = k + 1;
            }
            out.push(93);
            proof {
                assert(m.take(m.len() as int) =~= m);
            }
            assert(out@ =~= old(out)@ + ser_json(j.model()));
        },
        Json::Obj(pairs) => {
            out.push(123);
            let ghost m = pair_models_of(pairs@);
            proof {
                lemma_pair_models_of(pairs@);
            }
            let mut k: usize = 0;
            while k < pairs.len()
                invariant
                    k <= pairs@.len(),
                    out@ == old(out)@ + seq![123u8] + ser_pairs(m.take(k as int)),
                decreases pairs@.len() - k,
            {
                if k > 0 {
                    out.push(44);
                }
                push_str_json(pairs[k].0.as_str(), out);
                out.push(58);
                proof {
                    let jv = *j;
                    assert(decreases_to!(jv => jv->Obj_0[k as int].1));
                    assert(jv->Obj_0[k as int] == pairs@[k as int]);
                    assert(m[k as int] == (pairs@[k as int].0@, pairs@[k as int].1.model()));
                }
                push_json(&pairs[k].1, out);
                proof {
                    lemma_ser_pairs_snoc(m, k as int);
                    assert(out@ =~= old(out)@ + seq![123u8] + ser_pairs(m.take(k + 1)));
                }
                k = k + 1;
            }
            out.push(125);
            proof {
                assert(m.take(m.len() as int) =~= m);
            }
            assert(out@ =~= old(out)@ + ser_json(j.model()));
        },
    }
}

/// `ser_items` over one more element.
proof fn lemma_ser_items_snoc(items: Seq<JsonV>, k: int)
    requires
        0 <= k < items.len(),
    ensures
        ser_items(items.take(k + 1)) == ser_items(items.take(k)) + if k == 0 {
            Seq::<u8>::empty()
        } else {
            seq![44u8]
        } + ser_json(items[k]),
    decreases k,
{
    let d = items.drop_first();
    if k == 0 {
        assert(items.take(1) =~= seq![items[0]]);
        assert(items.take(0) =~= Seq::<JsonV>::empty());
        assert(ser_items(items.take(1)) == ser_json(items[0]));
        assert(ser_items(items.take(0)) == Seq::<u8>::empty());
        assert(ser_items(items.take(0)) + Seq::<u8>::empty() + ser_json(items[0]) =~= ser_json(
            items[0],
        ));
    } else {
        lemma_ser_items_snoc(d, k - 1);
        assert(items.take(k + 1).drop_first() =~= d.take(k));
        assert(items.take(k).drop_first() =~= d.take(k - 1));
        assert(items.take(k + 1)[0] == items[0]);
        assert(items.take(k)[0] == items[0]);
        assert(d[k - 1] == items[k]);
        assert(items.take(k + 1).len() == k + 1);
        assert(ser_items(items.take(k + 1)) == ser_json(items[0]) + seq![44u8] + ser_items(
            d.take(k),
        ));
        if k == 1 {
            assert(d.take(1) =~= seq![d[0]]);
            assert(ser_items(d.take(1)) == ser_json(d[0]));
            assert(ser_json(items[0]) + seq![44u8] + ser_json(d[0]) =~= ser_items(items.take(1))
                + seq![44u8] + ser_json(items[1]));
        } else {
            assert(ser_items(items.take(k)) == ser_json(items[0]) + seq![44u8] + ser_items(
                d.take(k - 1),
            ));
            assert(ser_items(d.take(k)) == ser_items(d.take(k - 1)) + seq![44u8] + ser_json(
                d[k - 1],
            ));
            assert(ser_json(items[0]) + seq![44u8] + (ser_items(d.take(k - 1)) + seq![44u8]
                + ser_json(d[k - 1])) =~= (ser_json(items[0]) + seq![44u8] + ser_items(
                d.take(k - 1),
            )) + seq![44u8] + ser_json(items[k]));
        }
    }
}

/// `ser_pairs` over one more member.
proof fn lemma_ser_pairs_snoc(pairs: Seq<(Seq<char>, JsonV)>, k: int)
    requires
        0 <= k < pairs.len(),
    ensures
        ser_pairs(pairs.take(k + 1)) == ser_pairs(pairs.take(k)) + if k == 0 {
            Seq::<u8>::empty()
        } else {
            seq![44u8]
        } + ser_str(pairs[k].0) + seq![58u8] + ser_json(pairs[k].1),
    decreases k,
{
    let d = pairs.drop_first();
    if k == 0 {
        assert(pairs.take(1) =~= seq![pairs[0]]);
        assert(pairs.take(0) =~= Seq::<(Seq<char>, JsonV)>::empty());
        assert(ser_pairs(pairs.take(1)) == ser_str(pairs[0].0) + seq![58u8] + ser_json(
            pairs[0].1,
        ));
        assert(ser_pairs(pairs.take(0)) == Seq::<u8>::empty());
        assert(ser_pairs(pairs.take(0)) + Seq::<u8>::empty() + ser_str(pairs[0].0) + seq![58u8]
            + ser_json(pairs[0].1) =~= ser_str(pairs[0].0) + seq![58u8] + ser_json(pairs[0].1));
    } else {
        lemma_ser_pairs_snoc(d, k - 1);
        assert(pairs.take(k + 1).drop_first() =~= d.take(k));
        assert(pairs.take(k).drop_first() =~= d.take(k - 1));
        assert(pairs.take(k + 1)[0] == pairs[0]);
        assert(pairs.take(k)[0] == pairs[0]);
        assert(d[k - 1] == pairs[k]);
        assert(pairs.take(k + 1).len() == k + 1);
        let head = ser_str(pairs[0].0) + seq![58u8] + ser_json(pairs[0].1);
        assert(ser_pairs(pairs.take(k + 1)) == head + seq![44u8] + ser_pairs(d.take(k)));
        if k == 1 {
            assert(d.take(1) =~= seq![d[0]]);
            assert(ser_pairs(d.take(1)) == ser_str(d[0].0) + seq![58u8] + ser_json(d[0].1));
            assert(head + seq![44u8] + (ser_str(d[0].0) + seq![58u8] + ser_json(d[0].1))
                =~= ser_pairs(pairs.take(1)) + seq![44u8] + ser_str(pairs[1].0) + seq![58u8]
                + ser_json(pairs[1].1));
        } else {
            assert(ser_pairs(pairs.take(k)) == head + seq![44u8] + ser_pairs(d.take(k - 1)));
            assert(ser_pairs(d.take(k)) == ser_pairs(d.take(k - 1)) + seq![44u8] + ser_str(
                d[k - 1].0,
            ) + seq![58u8] + ser_json(d[k - 1].1));
            assert(head + seq![44u8] + (ser_pairs(d.take(k - 1)) + seq![44u8] + ser_str(
                d[k - 1].0,
            ) + seq![58u8] + ser_json(d[k - 1].1)) =~= (head + seq![44u8] + ser_pairs(
                d.take(k - 1),
            )) + seq![44u8] + ser_str(pairs[k].0) + seq![58u8] + ser_json(pairs[k].1));
        }
    }
}

/// Serialize a JSON value to its canonical byte form.
pub fn json_to_bytes(j: &Json) -> (r: Vec<u8>)
    ensures
        r@ == ser_json(j.model()),
{
    let mut out: Vec<u8> = Vec::new();
    push_json(j, &mut out);
    out
}

} // verus!

verus! {

// ---------------------------------------------------------------------------
// Parsing: spec
// ---------------------------------------------------------------------------

/// JSON insignificant whitespace.
pub open spec fn is_ws(b: u8) -> bool {
    b == 32 || b == 9 || b == 10 || b == 13
}

/// ASCII decimal digit.
pub open spec fn is_digit(b: u8) -> bool {
    48 <= b <= 57
}

/// First position at or after `i` holding no whitespace.
pub open spec fn skip_ws(s: Seq<u8>, i: int) -> int
    decreases s.len() - i,
{
    if 0 <= i && i < s.len() && is_ws(s[i]) {
        skip_ws(s, i + 1)
    } else {
        i
    }
}

/// First position at or after `i` holding no decimal digit.
pub open spec fn digits_end(s: Seq<u8>, i: int) -> int
    decreases s.len() - i,
{
    if 0 <= i && i < s.len() && is_digit(s[i]) {
        digits_end(s, i + 1)
    } else {
        i
    }
}

/// Value of the decimal digits `s[i..j)`.
pub open spec fn digits_val(s: Seq<u8>, i: int, j: int) -> nat
    decreases j - i,
{
    if i < j {
        digits_val(s, i, j - 1) * 10 + (if 0 <= j - 1 < s.len() && is_digit(s[j - 1]) {
            (s[j - 1] - 48) as nat
        } else {
            0
        })
    } else {
        0
    }
}

/// End of an optional fraction part at `i`: `i` itself when no dot stands
/// there, a negative value when a dot stands without a digit after it.
pub open spec fn frac_end(s: Seq<u8>, i: int) -> int {
    if 0 <= i < s.len() && s[i] == 46 {
        if i + 1 < s.len() && is_digit(s[i + 1]) {
            digits_end(s, i + 1)
        } else {
            -1
        }
    } else {
        i
    }
}

/// End of an optional exponent part at `i`, as [`frac_end`].
pub open spec fn exp_end(s: Seq<u8>, i: int) -> int {
    if 0 <= i < s.len() && (s[i] == 101 || s[i] == 69) {
        let j = if i + 1 < s.len() && (s[i + 1] == 43 || s[i + 1] == 45) {
            i + 2
        } else {
            i + 1
        };
        if j < s.len() && is_digit(s[j]) {
            digits_end(s, j)
        } else {
            -1
        }
    } else {
        i
    }
}

/// Parsed number starting at `i` (no leading whitespace), or `None`: an
/// optional minus sign, digits, an optional fraction and an optional
/// exponent. An integral number within the signed 64-bit range becomes an
/// `Int`; any other number keeps its lexeme as a `Num`.
pub open spec fn parse_number(s: Seq<u8>, i: int) -> Option<(JsonV, int)> {
    if !(0 <= i < s.len()) {
        None
    } else {
        let neg = s[i] == 45;
        let d0 = if neg {
            i + 1
        } else {
            i
        };
        if d0 < s.len() && is_digit(s[d0]) {
            let ie = digits_end(s, d0);
            let fe = frac_end(s, ie);
            if fe < 0 {
                None
            } else {
                let ee = exp_end(s, fe);
                if ee < 0 {
                    None
                } else if ee == ie {
                    let m = digits_val(s, d0, ie) as int;
                    let v = if neg {
                        -m
                    } else {
                        m
                    };
                    if i64::MIN <= v <= i64::MAX {
                        Some((JsonV::Int(v), ie))
                    } else {
                        Some((JsonV::Num(chars_of_bytes(s, i, ie)), ie))
                    }
                } else {
                    Some((JsonV::Num(chars_of_bytes(s, i, ee)), ee))
                }
            }
        } else {
            None
        }
    }
}

/// Value of an ASCII hex digit, or 16 when the byte is no hex digit.
pub open spec fn hex_val(b: u8) -> u32 {
    if 48 <= b <= 57 {
        (b - 48) as u32
    } else if 97 <= b <= 102 {
        (b - 87) as u32
    } else if 65 <= b <= 70 {
        (b - 55) as u32
    } else {
        16
    }
}

/// Body of a string literal starting right after the opening quote:
/// the unescaped bytes and the position after the closing quote.
pub open spec fn parse_str_body(s: Seq<u8>, i: int) -> Option<(Seq<u8>, int)>
    decreases s.len() - i,
{
    if !(0 <= i < s.len()) {
        None
    } else if s[i] == 34 {
        Some((seq![], i + 1))
    } else if s[i] == 92 {
        if i + 1 < s.len() {
            let e = s[i + 1];
            if e == 34 || e == 92 || e == 47 {
                str_body_cons(seq![e], parse_str_body(s, i + 2))
            } else if e == 110 {
                str_body_cons(seq![10u8], parse_str_body(s, i + 2))
            } else if e == 116 {
                str_body_cons(seq![9u8], parse_str_body(s, i + 2))
            } else if e == 114 {
                str_body_cons(seq![13u8], parse_str_body(s, i + 2))
            } else if e == 98 {
                str_body_cons(seq![8u8], parse_str_body(s, i + 2))
            } else if e == 102 {
                str_body_cons(seq![12u8], parse_str_body(s, i + 2))
            } else if e == 117 {
                if i + 5 < s.len() && hex_val(s[i + 2]) < 16 && hex_val(s[i + 3]) < 16 && hex_val(
                    s[i + 4],
                ) < 16 && hex_val(s[i + 5]) < 16 {
                    let cp = (hex_val(s[i + 2]) * 4096 + hex_val(s[i + 3]) * 256 + hex_val(
                        s[i + 4],
                    ) * 16 + hex_val(s[i + 5])) as u32;
                    if 0xD800 <= cp <= 0xDBFF {
                        if i + 11 < s.len() && s[i + 6] == 92 && s[i + 7] == 117 && hex_val(
                            s[i + 8],
                        ) < 16 && hex_val(s[i + 9]) < 16 && hex_val(s[i + 10]) < 16 && hex_val(
                            s[i + 11],
                        ) < 16 {
                            let lo = (hex_val(s[i + 8]) * 4096 + hex_val(s[i + 9]) * 256
                                + hex_val(s[i + 10]) * 16 + hex_val(s[i + 11])) as u32;
                            if 0xDC00 <= lo <= 0xDFFF {
                                let cb = (0x10000 + (cp - 0xD800) * 0x400 + (lo
                                    - 0xDC00)) as u32;
                                str_body_cons(encode_scalar(cb), parse_str_body(s, i + 12))
                            } else {
                                None
                            }
                        } else {
                            None
                        }
                    } else if 0xDC00 <= cp <= 0xDFFF {
                        None
                    } else {
                        str_body_cons(encode_scalar(cp), parse_str_body(s, i + 6))
                    }
                } else {
                    None
                }
            } else {
                None
            }
        } else {
            None
        }
    } else if s[i] < 32 {
        None
    } else {
        str_body_cons(seq![s[i]], parse_str_body(s, i + 1))
    }
}

/// Prepend already-decoded bytes to the rest of a string body.
pub open spec fn str_body_cons(pre: Seq<u8>, rest: Option<(Seq<u8>, int)>) -> Option<
    (Seq<u8>, int),
> {
    match rest {
        Some((bs, e)) => Some((pre + bs, e)),
        None => None,
    }
}

/// Parsed value starting at `i`, leading whitespace allowed: the value and
/// the position just past it.
pub open spec fn parse_value(s: Seq<u8>, i: int) -> Option<(JsonV, int)>
    decreases s.len() - i, 0int,
{
    let j = skip_ws(s, i);
    if !(0 <= i <= j && j < s.len()) {
        None
    } else {
        let b = s[j];
        if b == 110 {
            if j + 4 <= s.len() && s[j + 1] == 117 && s[j + 2] == 108 && s[j + 3] == 108 {
                Some((JsonV::Null, j + 4))
            } else {
                None
            }
        } else if b == 116 {
            if j + 4 <= s.len() && s[j + 1] == 114 && s[j + 2] == 117 && s[j + 3] == 101 {
                Some((JsonV::Bool(true), j + 4))
            } else {
                None
            }
        } else if b == 102 {
            if j + 5 <= s.len() && s[j + 1] == 97 && s[j + 2] == 108 && s[j + 3] == 115 && s[j + 4]
                == 101 {
                Some((JsonV::Bool(false), j + 5))
            } else {
                None
            }
        } else if b == 34 {
            match parse_str_body(s, j + 1) {
                Some((bs, e)) => if valid_utf8(bs) {
                    Some((JsonV::Str(decode_utf8(bs)), e))
                } else {
                    None
                },
                None => None,
            }
        } else if b == 91 {
            let j2 = skip_ws(s, j + 1);
            if j + 1 <= j2 && j2 < s.len() && s[j2] == 93 {
                Some((JsonV::Arr(seq![]), j2 + 1))
            } else {
                match parse_items(s, j + 1) {
                    Some((items, e)) => Some((JsonV::Arr(items), e)),
                    None => None,
                }
            }
        } else if b == 123 {
            let j2 = skip_ws(s, j + 1);
            if j + 1 <= j2 && j2 < s.len() && s[j2] == 125 {
                Some((JsonV::Obj(seq![]), j2 + 1))
            } else {
                match parse_pairs(s, j + 1) {
                    Some((pairs, e)) => Some((JsonV::Obj(pairs), e)),
                    None => None,
                }
            }
        } else if b == 45 || is_digit(b) {
            parse_number(s, j)
        } else {
            None
        }
    }
}

/// Parsed non-empty element list of an array, starting right after `[` or
/// after a separating comma; the elements and the position after `]`.
pub open spec fn parse_items(s: Seq<u8>, i: int) -> Option<(Seq<JsonV>, int)>
    decreases s.len() - i, 1int,
{
    if !(0 <= i <= s.len()) {
        None
    } else {
        match parse_value(s, i) {
            Some((v, e)) => if i < e && e <= s.len() {
                let j = skip_ws(s, e);
                if e <= j && j < s.len() {
                    if s[j] == 44 {
                        match parse_items(s, j + 1) {
                            Some((rest, e2)) => Some((seq![v] + rest, e2)),
                            None => None,
                        }
                    } else if s[j] == 93 {
                        Some((seq![v], j + 1))
                    } else {
                        None
                    }
                } else {
                    None
                }
            } else {
                None
            },
            None => None,
        }
    }
}

/// Parsed non-empty member list of an object, starting right after `{` or
/// after a separating comma; the members and the position after `}`.
pub open spec fn parse_pairs(s: Seq<u8>, i: int) -> Option<(Seq<(Seq<char>, JsonV)>, int)>
    decreases s.len() - i, 1int,
{
    if !(0 <= i <= s.len()) {
        None
    } else {
        let j = skip_ws(s, i);
        if !(i <= j && j < s.len() && s[j] == 34) {
            None
        } else {
            match parse_str_body(s, j + 1) {
                Some((kb, e1)) => if j + 1 < e1 && e1 <= s.len() && valid_utf8(kb) {
                    let key = decode_utf8(kb);
                    let j2 = skip_ws(s, e1);
                    if e1 <= j2 && j2 < s.len() && s[j2] == 58 {
                        match parse_value(s, j2 + 1) {
                            Some((v, e2)) => if j2 + 1 <= e2 && e2 <= s.len() {
                                let j3 = skip_ws(s, e2);
                                if e2 <= j3 && j3 < s.len() {
                                    if s[j3] == 44 {
                                        match parse_pairs(s, j3 + 1) {
                                            Some((rest, e3)) => Some(
                                                (seq![(key, v)] + rest, e3),
                                            ),
                                            None => None,
                                        }
                                    } else if s[j3] == 125 {
                                        Some((seq![(key, v)], j3 + 1))
                                    } else {
                                        None
                                    }
                                } else {
                                    None
                                }
                            } else {
                                None
                            },
                            None => None,
                        }
                    } else {
                        None
                    }
                } else {
                    None
                },
                None => None,
            }
        }
    }
}

/// Parsed whole document: one value, with nothing but whitespace after it.
pub open spec fn parse_doc(s: Seq<u8>) -> Option<JsonV> {
    match parse_value(s, 0) {
        Some((v, e)) => if 0 <= e <= s.len() && skip_ws(s, e) == s.len() {
            Some(v)
        } else {
            None
        },
        None => None,
    }
}

} // verus!

verus! {

// ---------------------------------------------------------------------------
// Parsing: exec
// ---------------------------------------------------------------------------

/// Relies on std's `String::from_utf8`: it returns the string whose UTF-8
/// encoding is the given bytes, exactly when the bytes are valid UTF-8.
#[verifier::external_body]
pub(crate) fn string_from_utf8(bytes: Vec<u8>) -> (r: Option<String>)
    ensures
        r is Some <==> valid_utf8(bytes@),
        r matches Some(s) ==> s@ == decode_utf8(bytes@),
{
    match String::from_utf8(bytes) {
        Ok(s) => Some(s),
        Err(_) => None,
    }
}

/// First position at or after `i` holding no whitespace.
fn skip_ws_exec(s: &[u8], i: usize) -> (r: usize)
    requires
        i <= s@.len(),
    ensures
        r as int == skip_ws(s@, i as int),
        i <= r <= s@.len(),
{
    let mut cur: usize = i;
    while cur < s.len() && (s[cur] == 32 || s[cur] == 9 || s[cur] == 10 || s[cur] == 13)
        invariant
            i <= cur <= s@.len(),
            skip_ws(s@, i as int) == skip_ws(s@, cur as int),
        decreases s@.len() - cur,
    {
        cur = cur + 1;
    }
    cur
}

/// Value of an ASCII hex digit, or 16 when the byte is no hex digit.
fn hex_val_exec(b: u8) -> (r: u32)
    ensures
        r == hex_val(b),
{
    if 48 <= b && b <= 57 {
        (b - 48) as u32
    } else if 97 <= b && b <= 102 {
        (b - 87) as u32
    } else if 65 <= b && b <= 70 {
        (b - 55) as u32
    } else {
        16
    }
}

/// Body of a string literal starting right after the opening quote.
#[verifier::loop_isolation(false)]
fn parse_str_body_exec(s: &[u8], i: usize) -> (r: Option<(Vec<u8>, usize)>)
    requires
        i <= s@.len(),
    ensures
        match r {
            Some((bs, e)) => parse_str_body(s@, i as int) == Some((bs@, e as int)) && i < e
                <= s@.len(),
            None => parse_str_body(s@, i as int) is None,
        },
{
    let mut acc: Vec<u8> = Vec::new();
    let mut cur: usize = i;
    loop
        invariant
            i <= cur <= s@.len(),
            parse_str_body(s@, i as int) == str_body_cons(acc@, parse_str_body(s@, cur as int)),
        decreases s@.len() - cur,
    {
        if cur >= s.len() {
            return None;
        }
        let b = s[cur];
        let ghost acc0 = acc@;
        let ghost cur0 = cur as int;
        let ghost delta = Seq::<u8>::empty();
        if b == 34 {
            proof {
                assert(acc@ + Seq::<u8>::empty() =~= acc@);
            }
            return Some((acc, cur + 1));
        } else if b == 92 {
            if cur + 1 >= s.len() {
                return None;
            }
            let e = s[cur + 1];
            if e == 34 || e == 92 || e == 47 {
                acc.push(e);
                cur = cur + 2;
                proof {
                    delta = seq![e];
                }
            } else if e == 110 {
                acc.push(10);
                cur = cur + 2;
                proof {
                    delta = seq![10u8];
                }
            } else if e == 116 {
                acc.push(9);
                cur = cur + 2;
                proof {
                    delta = seq![9u8];
                }
            } else if e == 114 {
                acc.push(13);
                cur = cur + 2;
                proof {
                    delta = seq![13u8];
                }
            } else if e == 98 {
                acc.push(8);
                cur = cur + 2;
                proof {
                    delta = seq![8u8];
                }
            } else if e == 102 {
                acc.push(12);
                cur = cur + 2;
                proof {
                    delta = seq![12u8];
                }
            } else if e == 117 {
                if s.len() - (cur + 1) < 5 {
                    return None;
                }
                let h1 = hex_val_exec(s[cur + 2]);
                let h2 = hex_val_exec(s[cur + 3]);
                let h3 = hex_val_exec(s[cur + 4]);
                let h4 = hex_val_exec(s[cur + 5]);
                if h1 >= 16 || h2 >= 16 || h3 >= 16 || h4 >= 16 {
                    return None;
                }
                let cp: u32 = h1 * 4096 + h2 * 256 + h3 * 16 + h4;
                if 0xD800 <= cp && cp <= 0xDBFF {
                    if s.len() - (cur + 1) < 11 {
                        return None;
                    }
                    if s[cur + 6] != 92 || s[cur + 7] != 117 {
                        return None;
                    }
                    let g1 = hex_val_exec(s[cur + 8]);
                    let g2 = hex_val_exec(s[cur + 9]);
                    let g3 = hex_val_exec(s[cur + 10]);
                    let g4 = hex_val_exec(s[cur + 11]);
                    if g1 >= 16 || g2 >= 16 || g3 >= 16 || g4 >= 16 {
                        return None;
                    }
                    let lo: u32 = g1 * 4096 + g2 * 256 + g3 * 16 + g4;
                    if !(0xDC00 <= lo && lo <= 0xDFFF) {
                        return None;
                    }
                    let cb: u32 = 0x10000 + (cp - 0xD800) * 0x400 + (lo - 0xDC00);
                    acc.push(0xF0u8 | ((cb >> 18u32) & 0x7) as u8);
                    acc.push(0x80u8 | ((cb >> 12u32) & 0x3F) as u8);
                    acc.push(0x80u8 | ((cb >> 6u32) & 0x3F) as u8);
                    acc.push(0x80u8 | (cb & 0x3F) as u8);
                    cur = cur + 12;
                    proof {
                        delta = encode_scalar(cb);
                        assert(acc@ =~= acc0 + delta);
                    }
                } else if 0xDC00 <= cp && cp <= 0xDFFF {
                    return None;
                } else {
                    if cp <= 0x7F {
                        acc.push((cp & 0x7F) as u8);
                    } else if cp <= 0x7FF {
                        acc.push(0xC0u8 | ((cp >> 6u32) & 0x1F) as u8);
                        acc.push(0x80u8 | (cp & 0x3F) as u8);
                    } else {
                        acc.push(0xE0u8 | ((cp >> 12u32) & 0x0F) as u8);
                        acc.push(0x80u8 | ((cp >> 6u32) & 0x3F) as u8);
                        acc.push(0x80u8 | (cp & 0x3F) as u8);
                    }
                    cur = cur + 6;
                    proof {
                        delta = encode_scalar(cp);
                        assert(acc@ =~= acc0 + delta);
                    }
                }
            } else {
                return None;
            }
            proof {
                assert(acc@ =~= acc0 + delta);
                assert(parse_str_body(s@, cur0) == str_body_cons(
                    delta,
                    parse_str_body(s@, cur as int),
                ));
                lemma_str_body_step(s@, i as int, acc0, delta, cur0, cur as int);
            }
        } else if b < 32 {
            return None;
        } else {
            acc.push(b);
            cur = cur + 1;
            proof {
                delta = seq![b];
                assert(acc@ =~= acc0 + delta);
                assert(parse_str_body(s@, cur0) == str_body_cons(
                    delta,
                    parse_str_body(s@, cur as int),
                ));
                lemma_str_body_step(s@, i as int, acc0, delta, cur0, cur as int);
            }
        }
    }
}

/// One decoded step extends the accumulated prefix of a string body.
proof fn lemma_str_body_step(s: Seq<u8>, i: int, acc0: Seq<u8>, d: Seq<u8>, cur0: int, cur1: int)
    requires
        parse_str_body(s, i) == str_body_cons(acc0, parse_str_body(s, cur0)),
        parse_str_body(s, cur0) == str_body_cons(d, parse_str_body(s, cur1)),
    ensures
        parse_str_body(s, i) == str_body_cons(acc0 + d, parse_str_body(s, cur1)),
{
    match parse_str_body(s, cur1) {
        Some((bs, e)) => {
            assert(acc0 + (d + bs) =~= (acc0 + d) + bs);
        },
        None => {},
    }
}

} // verus!

verus! {

/// `digits_end` unfolded one step from the left.
proof fn lemma_digits_end_step(s: Seq<u8>, i: int)
    requires
        0 <= i < s.len(),
        is_digit(s[i]),
    ensures
        digits_end(s, i) == digits_end(s, i + 1),
{
}

/// `digits_val` unfolded one step from the right.
pub proof fn lemma_digits_val_step(s: Seq<u8>, i: int, j: int)
    requires
        0 <= i <= j < s.len(),
        is_digit(s[j]),
    ensures
        digits_val(s, i, j + 1) == digits_val(s, i, j) * 10 + (s[j] - 48),
{
}

/// Parsed number starting at `i`, which must hold `-` or a digit.
#[verifier::loop_isolation(false)]
fn parse_number_exec(s: &[u8], i: usize) -> (r: Option<(Json, usize)>)
    requires
        i < s@.len(),
    ensures
        match r {
            Some((v, e)) => parse_number(s@, i as int) == Some((v.model(), e as int)) && i < e
                <= s@.len(),
            None => parse_number(s@, i as int) is None,
        },
{
    let neg = s[i] == 45;
    let d0: usize = if neg {
        i + 1
    } else {
        i
    };
    if d0 >= s.len() || !(48 <= s[d0] && s[d0] <= 57) {
        return None;
    }
    let mut k: usize = d0;
    let mut acc: u64 = 0;
    let mut over: bool = false;
    while k < s.len() && 48 <= s[k] && s[k] <= 57
        invariant
            d0 <= k <= s@.len(),
            digits_end(s@, d0 as int) == digits_end(s@, k as int),
            !over ==> acc as nat == digits_val(s@, d0 as int, k as int),
            over ==> digits_val(s@, d0 as int, k as int) > 0x8000000000000000,
        decreases s@.len() - k,
    {
        let d = (s[k] - 48) as u64;
        proof {
            lemma_digits_end_step(s@, k as int);
            lemma_digits_val_step(s@, d0 as int, k as int);
        }
        if !over {
            if acc <= (0xFFFFFFFFFFFFFFFFu64 - d) / 10 {
                proof {
                    assert(acc * 10 + d <= 0xFFFFFFFFFFFFFFFF) by (nonlinear_arith)
                        requires
                            acc <= (0xFFFFFFFFFFFFFFFFu64 - d) / 10,
                            d <= 9,
                    ;
                }
                acc = acc * 10 + d;
            } else {
                proof {
                    assert(acc * 10 + d > 0xFFFFFFFFFFFFFFFF) by (nonlinear_arith)
                        requires
                            acc > (0xFFFFFFFFFFFFFFFFu64 - d) / 10,
                            d <= 9,
                    ;
                }
                over = true;
            }
        } else {
            proof {
                assert(digits_val(s@, d0 as int, k as int) * 10 + (s@[k as int] - 48)
                    > 0x8000000000000000) by (nonlinear_arith)
                    requires
                        digits_val(s@, d0 as int, k as int) > 0x8000000000000000,
                ;
            }
        }
        k = k + 1;
    }
    let ie: usize = k;
    let mut integral = true;
    let mut e2: usize = ie;
    if ie < s.len() && s[ie] == 46 {
        if s.len() - ie < 2 || !(48 <= s[ie + 1] && s[ie + 1] <= 57) {
            return None;
        }
        integral = false;
        let mut k2: usize = ie + 1;
        while k2 < s.len() && 48 <= s[k2] && s[k2] <= 57
            invariant
                ie + 1 <= k2 <= s@.len(),
                digits_end(s@, ie as int + 1) == digits_end(s@, k2 as int),
            decreases s@.len() - k2,
        {
            proof {
                lemma_digits_end_step(s@, k2 as int);
            }
            k2 = k2 + 1;
        }
        e2 = k2;
    }
    proof {
        assert(frac_end(s@, ie as int) == e2 as int);
    }
    let ghost fe = frac_end(s@, ie as int);
    if e2 < s.len() && (s[e2] == 101 || s[e2] == 69) {
        let j0: usize = if e2 + 1 < s.len() && (s[e2 + 1] == 43 || s[e2 + 1] == 45) {
            e2 + 2
        } else {
            e2 + 1
        };
        if j0 >= s.len() || !(48 <= s[j0] && s[j0] <= 57) {
            proof {
                assert(exp_end(s@, fe) < 0);
            }
            return None;
        }
        integral = false;
        let mut k3: usize = j0;
        while k3 < s.len() && 48 <= s[k3] && s[k3] <= 57
            invariant
                j0 <= k3 <= s@.len(),
                digits_end(s@, j0 as int) == digits_end(s@, k3 as int),
            decreases s@.len() - k3,
        {
            proof {
                lemma_digits_end_step(s@, k3 as int);
            }
            k3 = k3 + 1;
        }
        e2 = k3;
    }
    proof {
        assert(exp_end(s@, fe) == e2 as int);
    }
    if integral {
        proof {
            assert(e2 == ie);
        }
        let ghost m = digits_val(s@, d0 as int, ie as int) as int;
        if neg {
            if over || acc > 0x8000000000000000u64 {
                return make_num_lexeme(s, i, ie);
            }
            let v: i64 = if acc == 0x8000000000000000u64 {
                i64::MIN
            } else {
                -(acc as i64)
            };
            assert(v as int == -m);
            Some((Json::Int(v), ie))
        } else {
            if over || acc > 0x7FFFFFFFFFFFFFFFu64 {
                return make_num_lexeme(s, i, ie);
            }
            let v: i64 = acc as i64;
            Some((Json::Int(v), ie))
        }
    } else {
        make_num_lexeme(s, i, e2)
    }
}

} // verus!

verus! {

/// Parsed value starting at `i`, leading whitespace allowed.
pub fn parse_value_exec(s: &[u8], i: usize) -> (r: Option<(Json, usize)>)
    requires
        i <= s@.len(),
    ensures
        match r {
            Some((v, e)) => parse_value(s@, i as int) == Some((v.model(), e as int)) && i < e
                <= s@.len(),
            None => parse_value(s@, i as int) is None,
        },
    decreases s@.len() - i, 0int,
{
    let j = skip_ws_exec(s, i);
    if j >= s.len() {
        return None;
    }
    let b = s[j];
    if b == 110 {
        if s.len() - j >= 4 && s[j + 1] == 117 && s[j + 2] == 108 && s[j + 3] == 108 {
            Some((Json::Null, j + 4))
        } else {
            None
        }
    } else if b == 116 {
        if s.len() - j >= 4 && s[j + 1] == 114 && s[j + 2] == 117 && s[j + 3] == 101 {
            Some((Json::Bool(true), j + 4))
        } else {
            None
        }
    } else if b == 102 {
        if s.len() - j >= 5 && s[j + 1] == 97 && s[j + 2] == 108 && s[j + 3] == 115 && s[j + 4]
            == 101 {
            Some((Json::Bool(false), j + 5))
        } else {
            None
        }
    } else if b == 34 {
        match parse_str_body_exec(s, j + 1) {
            Some((bs, e)) => {
                let ghost bsg = bs@;
                match string_from_utf8(bs) {
                    Some(text) => Some((Json::Str(text), e)),
                    None => None,
                }
            },
            None => None,
        }
    } else if b == 91 {
        let j2 = skip_ws_exec(s, j + 1);
        if j2 < s.len() && s[j2] == 93 {
            assert(models_of(Seq::<Json>::empty()) =~= Seq::<JsonV>::empty());
            Some((Json::Arr(Vec::new()), j2 + 1))
        } else {
            match parse_items_exec(s, j + 1) {
                Some((items, e)) => Some((Json::Arr(items), e)),
                None => None,
            }
        }
    } else if b == 123 {
        let j2 = skip_ws_exec(s, j + 1);
        if j2 < s.len() && s[j2] == 125 {
            assert(pair_models_of(Seq::<(String, Json)>::empty()) =~= Seq::<
                (Seq<char>, JsonV),
            >::empty());
            Some((Json::Obj(Vec::new()), j2 + 1))
        } else {
            match parse_pairs_exec(s, j + 1) {
                Some((pairs, e)) => Some((Json::Obj(pairs), e)),
                None => None,
            }
        }
    } else if b == 45 || (48 <= b && b <= 57) {
        parse_number_exec(s, j)
    } else {
        None
    }
}

/// Parsed non-empty element list, starting right after `[` or a comma.
fn parse_items_exec(s: &[u8], i: usize) -> (r: Option<(Vec<Json>, usize)>)
    requires
        i <= s@.len(),
    ensures
        match r {
            Some((items, e)) => parse_items(s@, i as int) == Some((models_of(items@), e as int))
                && i < e <= s@.len(),
            None => parse_items(s@, i as int) is None,
        },
    decreases s@.len() - i, 1int,
{
    match parse_value_exec(s, i) {
        None => None,
        Some((v, e)) => {
            let j = skip_ws_exec(s, e);
            if j >= s.len() {
                return None;
            }
            if s[j] == 44 {
                match parse_items_exec(s, j + 1) {
                    None => None,
                    Some((rest, e2)) => {
                        let mut items = rest;
                        let ghost items0 = items@;
                        items.insert(0, v);
                        proof {
                            assert(items@ =~= seq![v] + items0);
                            lemma_models_of(items@);
                            lemma_models_of(items0);
                            assert(models_of(items@) =~= seq![v.model()] + models_of(items0));
                        }
                        Some((items, e2))
                    },
                }
            } else if s[j] == 93 {
                let mut items: Vec<Json> = Vec::new();
                items.push(v);
                proof {
                    lemma_models_of(items@);
                    assert(models_of(items@) =~= seq![v.model()]);
                }
                Some((items, j + 1))
            } else {
                None
            }
        },
    }
}

/// Parsed non-empty member list, starting right after `{` or a comma.
fn parse_pairs_exec(s: &[u8], i: usize) -> (r: Option<(Vec<(String, Json)>, usize)>)
    requires
        i <= s@.len(),
    ensures
        match r {
            Some((pairs, e)) => parse_pairs(s@, i as int) == Some(
                (pair_models_of(pairs@), e as int),
            ) && i < e <= s@.len(),
            None => parse_pairs(s@, i as int) is None,
        },
    decreases s@.len() - i, 1int,
{
    let j = skip_ws_exec(s, i);
    if j >= s.len() {
        return None;
    }
    if s[j] != 34 {
        return None;
    }
    match parse_str_body_exec(s, j + 1) {
        None => None,
        Some((kb, e1)) => {
            match string_from_utf8(kb) {
                None => None,
                Some(key) => {
                    let j2 = skip_ws_exec(s, e1);
                    if j2 >= s.len() {
                        return None;
                    }
                    if s[j2] != 58 {
                        return None;
                    }
                    match parse_value_exec(s, j2 + 1) {
                        None => None,
                        Some((v, e2)) => {
                            let j3 = skip_ws_exec(s, e2);
                            if j3 >= s.len() {
                                return None;
                            }
                            if s[j3] == 44 {
                                match parse_pairs_exec(s, j3 + 1) {
                                    None => None,
                                    Some((rest, e3)) => {
                                        let mut pairs = rest;
                                        let ghost pairs0 = pairs@;
                                        pairs.insert(0, (key, v));
                                        proof {
                                            assert(pairs@ =~= seq![(key, v)] + pairs0);
                                            lemma_pair_models_of(pairs@);
                                            lemma_pair_models_of(pairs0);
                                            assert(pair_models_of(pairs@) =~= seq![
                                                (key@, v.model()),
                                            ] + pair_models_of(pairs0));
                                        }
                                        Some((pairs, e3))
                                    },
                                }
                            } else if s[j3] == 125 {
                                let mut pairs: Vec<(String, Json)> = Vec::new();
                                pairs.push((key, v));
                                proof {
                                    lemma_pair_models_of(pairs@);
                                    assert(pair_models_of(pairs@) =~= seq![(key@, v.model())]);
                                }
                                Some((pairs, j3 + 1))
                            } else {
                                None
                            }
                        },
                    }
                },
            }
        },
    }
}

/// Parse one whole JSON document: one value with only whitespace after it.
pub fn parse_json(s: &[u8]) -> (r: Option<Json>)
    ensures
        match r {
            Some(j) => parse_doc(s@) == Some(j.model()),
            None => parse_doc(s@) is None,
        },
{
    match parse_value_exec(s, 0) {
        None => None,
        Some((v, e)) => {
            let j = skip_ws_exec(s, e);
            if j == s.len() {
                Some(v)
            } else {
                None
            }
        },
    }
}

} // verus!

verus! {

// ---------------------------------------------------------------------------
// Round trip: parsing inverts serialization
// ---------------------------------------------------------------------------

/// The bytes `pat` stand in `s` at position `i`.
pub open spec fn covers(s: Seq<u8>, i: int, pat: Seq<u8>) -> bool {
    0 <= i && i + pat.len() <= s.len() && s.subrange(i, i + pat.len()) == pat
}

/// Indexing into a covered region.
proof fn lemma_covers_index(s: Seq<u8>, i: int, pat: Seq<u8>)
    requires
        covers(s, i, pat),
    ensures
        forall|q: int| 0 <= q < pat.len() ==> s[i + q] == pat[q],
{
    assert forall|q: int| 0 <= q < pat.len() implies s[i + q] == pat[q] by {
        assert(s.subrange(i, i + pat.len())[q] == s[i + q]);
    }
}

/// One byte of a covered region.
proof fn lemma_covers_index_at(s: Seq<u8>, i: int, pat: Seq<u8>, q: int)
    requires
        covers(s, i, pat),
        0 <= q < pat.len(),
    ensures
        s[i + q] == pat[q],
{
    assert(s.subrange(i, i + pat.len())[q] == s[i + q]);
}

/// A covered concatenation splits into two covered regions.
proof fn lemma_covers_split(s: Seq<u8>, i: int, a: Seq<u8>, b: Seq<u8>)
    requires
        covers(s, i, a + b),
    ensures
        covers(s, i, a),
        covers(s, i + a.len(), b),
{
    assert(s.subrange(i, i + a.len()) =~= a) by {
        assert forall|q: int| 0 <= q < a.len() implies s.subrange(i, i + a.len())[q] == a[q] by {
            assert(s.subrange(i, i + (a + b).len())[q] == s[i + q]);
            assert((a + b)[q] == a[q]);
        }
    }
    assert(s.subrange(i + a.len(), i + a.len() + b.len()) =~= b) by {
        assert forall|q: int|
            0 <= q < b.len() implies s.subrange(i + a.len(), i + a.len() + b.len())[q] == b[q] by {
            assert(s.subrange(i, i + (a + b).len())[a.len() + q] == s[i + a.len() + q]);
            assert((a + b)[a.len() + q] == b[q]);
        }
    }
}

/// `dec_digits` yields at least one byte, all decimal digits.
pub proof fn lemma_dec_digits(n: nat)
    ensures
        dec_digits(n).len() >= 1,
        forall|q: int| 0 <= q < dec_digits(n).len() ==> is_digit(#[trigger] dec_digits(n)[q]),
    decreases n,
{
    if n >= 10 {
        lemma_dec_digits(n / 10);
    }
}

/// Over a region of digits with a non-digit (or input end) after it,
/// `digits_end` lands exactly on the boundary.
proof fn lemma_digits_end_region(s: Seq<u8>, i: int, e: int)
    requires
        0 <= i <= e <= s.len(),
        forall|q: int| i <= q < e ==> is_digit(#[trigger] s[q]),
        e == s.len() || !is_digit(s[e]),
    ensures
        digits_end(s, i) == e,
    decreases e - i,
{
    if i < e {
        lemma_digits_end_region(s, i + 1, e);
    }
}

/// Over a region holding `dec_digits(n)`, `digits_val` recovers `n`.
proof fn lemma_digits_val_region(s: Seq<u8>, i: int, n: nat)
    requires
        covers(s, i, dec_digits(n)),
    ensures
        digits_val(s, i, i + dec_digits(n).len()) == n,
    decreases n,
{
    lemma_dec_digits(n);
    lemma_covers_index(s, i, dec_digits(n));
    let ds = dec_digits(n);
    if n < 10 {
        assert(s[i + 0] == dec_digits(n)[0]);
        assert(s[i] == (48 + n) as u8);
        assert(digits_val(s, i, i + 1) == digits_val(s, i, i) * 10 + (s[i] - 48));
    } else {
        let hd = dec_digits(n / 10);
        assert(ds == hd + seq![(48 + (n % 10)) as u8]);
        lemma_covers_split(s, i, hd, seq![(48 + (n % 10)) as u8]);
        lemma_digits_val_region(s, i, n / 10);
        lemma_covers_index_at(s, i + hd.len() as int, seq![(48 + (n % 10)) as u8], 0);
        assert(s[i + hd.len()] == (48 + (n % 10)) as u8);
        assert(digits_val(s, i, i + ds.len()) == digits_val(s, i, i + ds.len() - 1) * 10 + (s[i
            + ds.len() - 1] - 48));
        assert(i + ds.len() - 1 == i + hd.len());
        assert(digits_val(s, i, i + hd.len()) == n / 10);
        assert((n / 10) * 10 + (n % 10) == n) by (nonlinear_arith);
    }
}

/// `skip_ws` does not move off a non-whitespace byte.
proof fn lemma_skip_ws_stop(s: Seq<u8>, i: int)
    requires
        0 <= i,
        i == s.len() || (i < s.len() && !is_ws(s[i])),
    ensures
        skip_ws(s, i) == i,
{
}

/// Over a region holding the escape of `bs` followed by a closing quote,
/// the string-body parser recovers `bs` exactly.
proof fn lemma_parse_str_body_region(s: Seq<u8>, i: int, bs: Seq<u8>)
    requires
        covers(s, i, escape_bytes(bs)),
        i + escape_bytes(bs).len() < s.len(),
        s[i + escape_bytes(bs).len()] == 34,
    ensures
        parse_str_body(s, i) == Some((bs, i + escape_bytes(bs).len() + 1)),
    decreases bs.len(),
{
    let eall = escape_bytes(bs);
    if bs.len() == 0 {
        assert(s[i] == 34);
        assert(parse_str_body(s, i) == Some((Seq::<u8>::empty(), i + 1)));
        assert(bs =~= Seq::<u8>::empty());
    } else {
        let b = bs[0];
        let rest = bs.drop_first();
        let eb = escape_byte(b);
        assert(eall == eb + escape_bytes(rest));
        lemma_covers_split(s, i, eb, escape_bytes(rest));
        lemma_covers_index(s, i, eb);
        lemma_parse_str_body_region(s, i + eb.len(), rest);
        let tail = parse_str_body(s, i + eb.len());
        assert(tail == Some((rest, i + eall.len() + 1)));
        if b == 34 || b == 92 {
            assert(s[i] == 92 && s[i + 1] == b);
            assert(parse_str_body(s, i) == str_body_cons(seq![b], tail));
        } else if b == 10 {
            assert(s[i] == 92 && s[i + 1] == 110);
            assert(parse_str_body(s, i) == str_body_cons(seq![10u8], tail));
        } else if b == 13 {
            assert(s[i] == 92 && s[i + 1] == 114);
            assert(parse_str_body(s, i) == str_body_cons(seq![13u8], tail));
        } else if b == 9 {
            assert(s[i] == 92 && s[i + 1] == 116);
            assert(parse_str_body(s, i) == str_body_cons(seq![9u8], tail));
        } else if b == 8 {
            assert(s[i] == 92 && s[i + 1] == 98);
            assert(parse_str_body(s, i) == str_body_cons(seq![8u8], tail));
        } else if b == 12 {
            assert(s[i] == 92 && s[i + 1] == 102);
            assert(parse_str_body(s, i) == str_body_cons(seq![12u8], tail));
        } else if b < 32 {
            assert(eb.len() == 6);
            assert(s[i] == 92 && s[i + 1] == 117 && s[i + 2] == 48 && s[i + 3] == 48);
            assert(s[i + 4] == hex_digit(b / 16) && s[i + 5] == hex_digit(b % 16));
            lemma_hex_val_of_digit(b / 16);
            lemma_hex_val_of_digit(b % 16);
            assert(hex_val(48) == 0);
            assert(hex_val(s[i + 2]) < 16 && hex_val(s[i + 3]) < 16 && hex_val(s[i + 4]) < 16
                && hex_val(s[i + 5]) < 16);
            let cp = (hex_val(s[i + 2]) * 4096 + hex_val(s[i + 3]) * 256 + hex_val(s[i + 4]) * 16
                + hex_val(s[i + 5])) as u32;
            assert(cp == (b / 16) * 16 + b % 16);
            assert(cp == b) by (nonlinear_arith)
                requires
                    cp == (b / 16) * 16 + b % 16,
            ;
            assert(!(0xD800 <= cp && cp <= 0xDFFF));
            assert(encode_scalar(cp) =~= seq![b]) by {
                assert(vstd::utf8::has_width_1_encoding(cp));
                assert((cp & 0x7F) == cp) by (bit_vector)
                    requires
                        cp < 32,
                ;
            }
            assert(i + 5 < s.len());
            assert(parse_str_body(s, i) == str_body_cons(encode_scalar(cp), tail));
        } else {
            lemma_covers_index_at(s, i, eb, 0);
            assert(s[i] == b);
            assert(b != 34 && b != 92 && b >= 32);
            assert(parse_str_body(s, i) == str_body_cons(seq![b], tail));
        }
        assert(seq![b] + rest =~= bs);
    }
}

/// `hex_val` inverts `hex_digit` below 16.
proof fn lemma_hex_val_of_digit(x: u8)
    requires
        x < 16,
    ensures
        hex_val(hex_digit(x)) == x,
{
}

} // verus!

verus! {

/// Facts about the first byte of a serialized well-formed value: it
/// exists, and it is neither whitespace nor a closing token.
proof fn lemma_ser_first_byte(v: JsonV)
    requires
        wf_json(v),
    ensures
        ser_json(v).len() >= 1,
        !is_ws(ser_json(v)[0]),
        ser_json(v)[0] != 93,
        ser_json(v)[0] != 125,
        ser_json(v)[0] != 44,
        ser_json(v)[0] != 58,
{
    match v {
        JsonV::Int(n) => {
            if n >= 0 {
                lemma_dec_digits(n as nat);
                assert(is_digit(dec_digits(n as nat)[0]));
            } else {
                lemma_dec_digits((-n) as nat);
                assert(ser_json(v)[0] == 45);
            }
        },
        JsonV::Num(lx) => {
            lemma_num_lexeme_facts(lx);
            assert(is_num_byte(ser_json(v)[0]));
            assert(ser_json(v)[0] == 45 || is_digit(ser_json(v)[0]));
        },
        JsonV::Str(cs) => {
            assert(ser_json(v)[0] == 34);
        },
        JsonV::Arr(items) => {
            assert(ser_json(v)[0] == 91);
        },
        JsonV::Obj(pairs) => {
            assert(ser_json(v)[0] == 123);
        },
        _ => {},
    }
}

/// Over a region holding a serialized well-formed value, with no
/// number-extending byte after it, the parser recovers the value exactly.
#[verifier::rlimit(100)]
#[verifier::spinoff_prover]
proof fn lemma_parse_of_ser(s: Seq<u8>, i: int, v: JsonV)
    requires
        wf_json(v),
        covers(s, i, ser_json(v)),
        i + ser_json(v).len() == s.len() || !(is_digit(s[i + ser_json(v).len()]) || s[i
            + ser_json(v).len()] == 46 || s[i + ser_json(v).len()] == 101 || s[i + ser_json(
            v,
        ).len()] == 69),
    ensures
        parse_value(s, i) == Some((v, i + ser_json(v).len())),
    decreases v,
{
    let sv = ser_json(v);
    let e = i + sv.len();
    lemma_ser_first_byte(v);
    lemma_covers_index_at(s, i, sv, 0);
    lemma_skip_ws_stop(s, i);
    match v {
        JsonV::Null => {
            lemma_covers_index_at(s, i, sv, 1);
            lemma_covers_index_at(s, i, sv, 2);
            lemma_covers_index_at(s, i, sv, 3);
            assert(s[i] == 110 && s[i + 1] == 117 && s[i + 2] == 108 && s[i + 3] == 108);
            assert(parse_value(s, i) == Some((JsonV::Null, i + 4)));
        },
        JsonV::Bool(b) => {
            lemma_covers_index_at(s, i, sv, 1);
            lemma_covers_index_at(s, i, sv, 2);
            lemma_covers_index_at(s, i, sv, 3);
            if b {
                assert(s[i] == 116 && s[i + 1] == 114 && s[i + 2] == 117 && s[i + 3] == 101);
            } else {
                lemma_covers_index_at(s, i, sv, 4);
                assert(s[i] == 102 && s[i + 1] == 97 && s[i + 2] == 108 && s[i + 3] == 115 && s[i
                    + 4] == 101);
            }
        },
        JsonV::Int(n) => {
            if n >= 0 {
                let ds = dec_digits(n as nat);
                lemma_dec_digits(n as nat);
                assert forall|q: int| i <= q < e implies is_digit(#[trigger] s[q]) by {
                    lemma_covers_index_at(s, i, ds, q - i);
                }
                lemma_digits_end_region(s, i, e);
                lemma_digits_val_region(s, i, n as nat);
                assert(is_digit(s[i]) && s[i] != 45);
                assert(frac_end(s, e) == e);
                assert(exp_end(s, e) == e);
                assert(parse_number(s, i) == Some((JsonV::Int(n), e)));
            } else {
                let m = (-n) as nat;
                let ds = dec_digits(m);
                assert(ser_int(n) == seq![45u8] + ds);
                lemma_covers_split(s, i, seq![45u8], ds);
                lemma_covers_index_at(s, i, seq![45u8], 0);
                lemma_dec_digits(m);
                assert forall|q: int| i + 1 <= q < e implies is_digit(#[trigger] s[q]) by {
                    lemma_covers_index_at(s, i + 1, ds, q - (i + 1));
                }
                lemma_digits_end_region(s, i + 1, e);
                lemma_digits_val_region(s, i + 1, m);
                assert(s[i] == 45);
                assert(frac_end(s, e) == e);
                assert(exp_end(s, e) == e);
                assert(parse_number(s, i) == Some((JsonV::Int(n), e)));
            }
        },
        JsonV::Num(lx) => {
            lemma_num_lexeme_facts(lx);
            lemma_covers_index(s, i, sv);
            assert(forall|q: int| 0 <= q < sv.len() ==> #[trigger] sv[q] == s[i + q]);
            lemma_parse_number_region(bytes_of_chars(lx), 0, s, i, sv.len() as int);
            assert(chars_of_bytes(s, i, e) == lx);
            assert(parse_number(s, i) == Some((JsonV::Num(lx), e)));
            assert(s[i] == 45 || is_digit(s[i]));
            assert(parse_value(s, i) == Some((JsonV::Num(lx), e)));
        },
        JsonV::Str(cs) => {
            let bs = encode_utf8(cs);
            let esc = escape_bytes(bs);
            assert(sv == seq![34u8] + esc + seq![34u8]);
            lemma_covers_split(s, i, seq![34u8] + esc, seq![34u8]);
            lemma_covers_split(s, i, seq![34u8], esc);
            lemma_covers_index_at(s, i + 1 + esc.len(), seq![34u8], 0);
            assert(s[i + 1 + esc.len()] == 34);
            lemma_parse_str_body_region(s, i + 1, bs);
            vstd::utf8::encode_utf8_valid_utf8(cs);
            vstd::utf8::encode_utf8_decode_utf8(cs);
            assert(valid_utf8(bs));
            assert(decode_utf8(bs) == cs);
            assert(parse_value(s, i) == Some((JsonV::Str(cs), e)));
        },
        JsonV::Arr(items) => {
            assert(sv == seq![91u8] + ser_items(items) + seq![93u8]);
            lemma_covers_split(s, i, seq![91u8] + ser_items(items), seq![93u8]);
            lemma_covers_split(s, i, seq![91u8], ser_items(items));
            lemma_covers_index_at(s, i + 1 + ser_items(items).len(), seq![93u8], 0);
            assert(s[i + 1 + ser_items(items).len()] == 93);
            if items.len() == 0 {
                assert(ser_items(items) == Seq::<u8>::empty());
                assert(s[i + 1] == 93);
                lemma_skip_ws_stop(s, i + 1);
                assert(parse_value(s, i) == Some((JsonV::Arr(items), i + 2)));
            } else {
                assert(decreases_to!(v => items));
                assert(decreases_to!(items => items[0]));
                lemma_ser_first_byte(items[0]);
                assert(ser_items(items)[0] == ser_json(items[0])[0]);
                lemma_covers_index_at(s, i + 1, ser_items(items), 0);
                lemma_skip_ws_stop(s, i + 1);
                assert(skip_ws(s, i + 1) == i + 1);
                assert(s[i + 1] != 93);
                lemma_parse_items_of_ser(s, i + 1, items);
                assert(parse_items(s, i + 1) == Some((items, e)));
                assert(parse_value(s, i) == Some((JsonV::Arr(items), e)));
            }
        },
        JsonV::Obj(pairs) => {
            assert(sv == seq![123u8] + ser_pairs(pairs) + seq![125u8]);
            lemma_covers_split(s, i, seq![123u8] + ser_pairs(pairs), seq![125u8]);
            lemma_covers_split(s, i, seq![123u8], ser_pairs(pairs));
            lemma_covers_index_at(s, i + 1 + ser_pairs(pairs).len(), seq![125u8], 0);
            assert(s[i + 1 + ser_pairs(pairs).len()] == 125);
            if pairs.len() == 0 {
                assert(ser_pairs(pairs) == Seq::<u8>::empty());
                assert(s[i + 1] == 125);
                lemma_skip_ws_stop(s, i + 1);
                assert(parse_value(s, i) == Some((JsonV::Obj(pairs), i + 2)));
            } else {
                assert(ser_pairs(pairs)[0] == ser_str(pairs[0].0)[0]);
                assert(ser_str(pairs[0].0)[0] == 34);
                lemma_covers_index_at(s, i + 1, ser_pairs(pairs), 0);
                lemma_skip_ws_stop(s, i + 1);
                assert(s[i + 1] == 34);
                assert(s[i + 1] != 125);
                lemma_parse_pairs_of_ser(s, i + 1, pairs);
                assert(parse_pairs(s, i + 1) == Some((pairs, e)));
                assert(parse_value(s, i) == Some((JsonV::Obj(pairs), e)));
            }
        },
    }
}

/// Over a region holding a serialized non-empty element list followed by
/// `]`, the list parser recovers the elements exactly.
proof fn lemma_parse_items_of_ser(s: Seq<u8>, i: int, items: Seq<JsonV>)
    requires
        items.len() >= 1,
        forall|k: int| 0 <= k < items.len() ==> wf_json(#[trigger] items[k]),
        covers(s, i, ser_items(items)),
        i + ser_items(items).len() < s.len(),
        s[i + ser_items(items).len()] == 93,
    ensures
        parse_items(s, i) == Some((items, i + ser_items(items).len() + 1)),
    decreases items,
{
    let v0 = items[0];
    let all = ser_items(items);
    let fin = i + all.len();
    if items.len() == 1 {
        assert(all == ser_json(v0));
        assert(decreases_to!(items => items[0]));
        lemma_parse_of_ser(s, i, v0);
        let e0 = i + ser_json(v0).len();
        lemma_ser_first_byte(v0);
        lemma_skip_ws_stop(s, e0);
        assert(parse_items(s, i) == Some((seq![v0], e0 + 1)));
        assert(seq![v0] =~= items);
    } else {
        let rest = items.drop_first();
        assert(all == ser_json(v0) + seq![44u8] + ser_items(rest));
        lemma_covers_split(s, i, ser_json(v0) + seq![44u8], ser_items(rest));
        lemma_covers_split(s, i, ser_json(v0), seq![44u8]);
        let e0 = i + ser_json(v0).len();
        lemma_covers_index_at(s, e0, seq![44u8], 0);
        assert(s[e0] == 44);
        assert(decreases_to!(items => items[0]));
        lemma_parse_of_ser(s, i, v0);
        lemma_ser_first_byte(v0);
        lemma_skip_ws_stop(s, e0);
        assert forall|k: int| 0 <= k < rest.len() implies wf_json(#[trigger] rest[k]) by {
            assert(rest[k] == items[k + 1]);
        }
        assert(decreases_to!(items => rest));
        lemma_parse_items_of_ser(s, e0 + 1, rest);
        assert(parse_items(s, e0 + 1) == Some((rest, fin + 1)));
        assert(parse_items(s, i) == Some((seq![v0] + rest, fin + 1)));
        assert(seq![v0] + rest =~= items);
    }
}

/// Over a region holding a serialized non-empty member list followed by
/// `}`, the member parser recovers the members exactly.
proof fn lemma_parse_pairs_of_ser(s: Seq<u8>, i: int, pairs: Seq<(Seq<char>, JsonV)>)
    requires
        pairs.len() >= 1,
        forall|k: int| 0 <= k < pairs.len() ==> wf_json(#[trigger] pairs[k].1),
        covers(s, i, ser_pairs(pairs)),
        i + ser_pairs(pairs).len() < s.len(),
        s[i + ser_pairs(pairs).len()] == 125,
    ensures
        parse_pairs(s, i) == Some((pairs, i + ser_pairs(pairs).len() + 1)),
    decreases pairs,
{
    let k0 = pairs[0].0;
    let v0 = pairs[0].1;
    let all = ser_pairs(pairs);
    let fin = i + all.len();
    let head = ser_str(k0) + seq![58u8] + ser_json(v0);
    let kb = encode_utf8(k0);
    let esc = escape_bytes(kb);
    assert(ser_str(k0) == seq![34u8] + esc + seq![34u8]);
    if pairs.len() == 1 {
        assert(all == head);
    } else {
        assert(all == head + seq![44u8] + ser_pairs(pairs.drop_first()));
        lemma_covers_split(s, i, head + seq![44u8], ser_pairs(pairs.drop_first()));
        lemma_covers_split(s, i, head, seq![44u8]);
    }
    assert(covers(s, i, head));
    lemma_covers_split(s, i, ser_str(k0) + seq![58u8], ser_json(v0));
    lemma_covers_split(s, i, ser_str(k0), seq![58u8]);
    lemma_covers_split(s, i, seq![34u8] + esc, seq![34u8]);
    lemma_covers_split(s, i, seq![34u8], esc);
    lemma_covers_index_at(s, i, seq![34u8], 0);
    assert(s[i] == 34);
    lemma_skip_ws_stop(s, i);
    lemma_covers_index_at(s, i + 1 + esc.len(), seq![34u8], 0);
    assert(s[i + 1 + esc.len()] == 34);
    lemma_parse_str_body_region(s, i + 1, kb);
    let e1 = i + ser_str(k0).len();
    assert(parse_str_body(s, i + 1) == Some((kb, e1)));
    vstd::utf8::encode_utf8_valid_utf8(k0);
    vstd::utf8::encode_utf8_decode_utf8(k0);
    assert(valid_utf8(kb));
    assert(decode_utf8(kb) == k0);
    lemma_covers_index_at(s, e1, seq![58u8], 0);
    assert(s[e1] == 58);
    lemma_skip_ws_stop(s, e1);
    let e2 = e1 + 1 + ser_json(v0).len();
    if pairs.len() == 1 {
        assert(e2 == fin);
        assert(s[e2] == 125);
    } else {
        lemma_covers_index_at(s, e2, seq![44u8], 0);
        assert(s[e2] == 44);
    }
    assert(decreases_to!(pairs => pairs[0]));
    assert(decreases_to!(pairs[0] => pairs[0].1));
    lemma_parse_of_ser(s, e1 + 1, v0);
    assert(parse_value(s, e1 + 1) == Some((v0, e2)));
    if pairs.len() == 1 {
        lemma_skip_ws_stop(s, e2);
        assert(parse_pairs(s, i) == Some((seq![(k0, v0)], fin + 1)));
        assert(seq![(k0, v0)] =~= pairs);
    } else {
        let rest = pairs.drop_first();
        lemma_skip_ws_stop(s, e2);
        assert forall|k: int| 0 <= k < rest.len() implies wf_json(#[trigger] rest[k].1) by {
            assert(rest[k] == pairs[k + 1]);
        }
        assert(decreases_to!(pairs => rest));
        lemma_parse_pairs_of_ser(s, e2 + 1, rest);
        assert(parse_pairs(s, e2 + 1) == Some((rest, fin + 1)));
        assert(parse_pairs(s, i) == Some((seq![(k0, v0)] + rest, fin + 1)));
        assert(seq![(k0, v0)] + rest =~= pairs);
    }
}

/// Round trip: parsing a serialized well-formed value yields it back.
pub proof fn lemma_json_round_trip(v: JsonV)
    requires
        wf_json(v),
    ensures
        parse_doc(ser_json(v)) == Some(v),
{
    let s = ser_json(v);
    assert(s.subrange(0, s.len() as int) =~= s);
    lemma_parse_of_ser(s, 0, v);
    lemma_skip_ws_stop(s, s.len() as int);
}

} // verus!

verus! {

/// No newline byte anywhere in `s`.
pub open spec fn newline_free(s: Seq<u8>) -> bool {
    forall|q: int| 0 <= q < s.len() ==> s[q] != 10
}

/// Concatenation preserves newline-freedom.
proof fn lemma_newline_free_concat(a: Seq<u8>, b: Seq<u8>)
    requires
        newline_free(a),
        newline_free(b),
    ensures
        newline_free(a + b),
{
    assert forall|q: int| 0 <= q < (a + b).len() implies (a + b)[q] != 10 by {
        if q < a.len() {
            assert((a + b)[q] == a[q]);
        } else {
            assert((a + b)[q] == b[q - a.len()]);
        }
    }
}

/// The escape of one byte holds no newline.
proof fn lemma_escape_byte_newline_free(b: u8)
    ensures
        newline_free(escape_byte(b)),
{
}

/// The escape of any bytes holds no newline.
proof fn lemma_escape_bytes_newline_free(bs: Seq<u8>)
    ensures
        newline_free(escape_bytes(bs)),
    decreases bs.len(),
{
    if bs.len() > 0 {
        lemma_escape_byte_newline_free(bs[0]);
        lemma_escape_bytes_newline_free(bs.drop_first());
        lemma_newline_free_concat(escape_byte(bs[0]), escape_bytes(bs.drop_first()));
    }
}

/// Decimal digits hold no newline.
proof fn lemma_dec_digits_newline_free(n: nat)
    ensures
        newline_free(dec_digits(n)),
{
    lemma_dec_digits(n);
}

/// A serialized well-formed value holds no newline byte: one record, one
/// line.
pub proof fn lemma_ser_json_newline_free(v: JsonV)
    requires
        wf_json(v),
    ensures
        newline_free(ser_json(v)),
    decreases v, 1int,
{
    match v {
        JsonV::Null => {},
        JsonV::Bool(_) => {},
        JsonV::Int(n) => {
            if n >= 0 {
                lemma_dec_digits_newline_free(n as nat);
            } else {
                lemma_dec_digits_newline_free((-n) as nat);
                lemma_newline_free_concat(seq![45u8], dec_digits((-n) as nat));
            }
        },
        JsonV::Num(lx) => {
            lemma_num_lexeme_facts(lx);
        },
        JsonV::Str(cs) => {
            lemma_escape_bytes_newline_free(encode_utf8(cs));
            lemma_newline_free_concat(seq![34u8], escape_bytes(encode_utf8(cs)));
            lemma_newline_free_concat(seq![34u8] + escape_bytes(encode_utf8(cs)), seq![34u8]);
        },
        JsonV::Arr(items) => {
            lemma_ser_items_newline_free(items);
            lemma_newline_free_concat(seq![91u8], ser_items(items));
            lemma_newline_free_concat(seq![91u8] + ser_items(items), seq![93u8]);
        },
        JsonV::Obj(pairs) => {
            lemma_ser_pairs_newline_free(pairs);
            lemma_newline_free_concat(seq![123u8], ser_pairs(pairs));
            lemma_newline_free_concat(seq![123u8] + ser_pairs(pairs), seq![125u8]);
        },
    }
}

/// Serialized well-formed array elements hold no newline byte.
proof fn lemma_ser_items_newline_free(items: Seq<JsonV>)
    requires
        forall|k: int| 0 <= k < items.len() ==> wf_json(#[trigger] items[k]),
    ensures
        newline_free(ser_items(items)),
    decreases items, 0int,
{
    if items.len() == 0 {
    } else if items.len() == 1 {
        lemma_ser_json_newline_free(items[0]);
    } else {
        lemma_ser_json_newline_free(items[0]);
        lemma_ser_items_newline_free(items.drop_first());
        lemma_newline_free_concat(ser_json(items[0]), seq![44u8]);
        lemma_newline_free_concat(
            ser_json(items[0]) + seq![44u8],
            ser_items(items.drop_first()),
        );
    }
}

/// Serialized well-formed object members hold no newline byte.
proof fn lemma_ser_pairs_newline_free(pairs: Seq<(Seq<char>, JsonV)>)
    requires
        forall|k: int| 0 <= k < pairs.len() ==> wf_json(#[trigger] pairs[k].1),
    ensures
        newline_free(ser_pairs(pairs)),
    decreases pairs, 0int,
{
    if pairs.len() == 0 {
    } else {
        let head = ser_str(pairs[0].0) + seq![58u8] + ser_json(pairs[0].1);
        lemma_escape_bytes_newline_free(encode_utf8(pairs[0].0));
        lemma_newline_free_concat(seq![34u8], escape_bytes(encode_utf8(pairs[0].0)));
        lemma_newline_free_concat(
            seq![34u8] + escape_bytes(encode_utf8(pairs[0].0)),
            seq![34u8],
        );
        lemma_ser_json_newline_free(pairs[0].1);
        lemma_newline_free_concat(ser_str(pairs[0].0), seq![58u8]);
        lemma_newline_free_concat(ser_str(pairs[0].0) + seq![58u8], ser_json(pairs[0].1));
        if pairs.len() > 1 {
            lemma_ser_pairs_newline_free(pairs.drop_first());
            lemma_newline_free_concat(head, seq![44u8]);
            lemma_newline_free_concat(head + seq![44u8], ser_pairs(pairs.drop_first()));
        }
    }
}

} // verus!

verus! {

/// Forward characterization of a digit run: everything before the end is a
/// digit, and the end sits on a non-digit or the input's end.
proof fn lemma_digits_end_chars(s: Seq<u8>, i: int)
    requires
        0 <= i <= s.len(),
    ensures
        i <= digits_end(s, i) <= s.len(),
        forall|q: int| i <= q < digits_end(s, i) ==> is_digit(#[trigger] s[q]),
        digits_end(s, i) == s.len() || !is_digit(s[digits_end(s, i)]),
    decreases s.len() - i,
{
    if i < s.len() && is_digit(s[i]) {
        lemma_digits_end_chars(s, i + 1);
    }
}

/// Equal byte regions carry equal digit values.
proof fn lemma_digits_val_region2(s1: Seq<u8>, a1: int, s2: Seq<u8>, a2: int, len: int)
    requires
        0 <= len,
        0 <= a1,
        a1 + len <= s1.len(),
        0 <= a2,
        a2 + len <= s2.len(),
        forall|q: int| 0 <= q < len ==> #[trigger] s1[a1 + q] == s2[a2 + q],
    ensures
        digits_val(s1, a1, a1 + len) == digits_val(s2, a2, a2 + len),
    decreases len,
{
    if len > 0 {
        lemma_digits_val_region2(s1, a1, s2, a2, len - 1);
        assert(s1[a1 + (len - 1)] == s2[a2 + (len - 1)]);
    }
}

/// A byte a JSON number lexeme may hold.
pub open spec fn is_num_byte(b: u8) -> bool {
    is_digit(b) || b == 43 || b == 45 || b == 46 || b == 69 || b == 101
}

/// Every byte a successful number parse consumed is a number byte; the
/// first is a minus sign or a digit.
proof fn lemma_parse_number_chars(s: Seq<u8>, i: int)
    requires
        parse_number(s, i) is Some,
    ensures
        ({
            let e = parse_number(s, i)->Some_0.1;
            &&& i < e <= s.len()
            &&& forall|q: int| i <= q < e ==> is_num_byte(#[trigger] s[q])
            &&& (s[i] == 45 || is_digit(s[i]))
        }),
{
    let e = parse_number(s, i)->Some_0.1;
    let neg = s[i] == 45;
    let d0 = if neg {
        i + 1
    } else {
        i
    };
    assert(d0 < s.len() && is_digit(s[d0]));
    let ie = digits_end(s, d0);
    lemma_digits_end_chars(s, d0);
    let fe = frac_end(s, ie);
    let ee = exp_end(s, fe);
    assert(fe >= 0 && ee >= 0);
    let has_frac = ie < s.len() && s[ie] == 46;
    if has_frac {
        assert(ie + 1 < s.len() && is_digit(s[ie + 1]));
        lemma_digits_end_chars(s, ie + 1);
        assert(fe == digits_end(s, ie + 1));
        assert(fe >= ie + 1);
    } else {
        assert(fe == ie);
    }
    let has_exp = fe < s.len() && (s[fe] == 101 || s[fe] == 69);
    let j = if fe + 1 < s.len() && (s[fe + 1] == 43 || s[fe + 1] == 45) {
        fe + 2
    } else {
        fe + 1
    };
    if has_exp {
        assert(j < s.len() && is_digit(s[j]));
        lemma_digits_end_chars(s, j);
        assert(ee == digits_end(s, j));
        assert(ee >= j);
    } else {
        assert(ee == fe);
    }
    assert(e == ie || e == ee);
    assert forall|q: int| i <= q < e implies is_num_byte(#[trigger] s[q]) by {
        if q == i && neg {
        } else if d0 <= q < ie {
            assert(is_digit(s[q]));
        } else if q == ie {
            if has_frac {
                assert(s[q] == 46);
            } else {
                assert(s[q] == 101 || s[q] == 69);
            }
        } else if ie < q < fe {
            assert(is_digit(s[q]));
        } else if q == fe {
            assert(s[q] == 101 || s[q] == 69);
        } else if q == fe + 1 && j == fe + 2 {
            assert(s[q] == 43 || s[q] == 45);
        } else {
            assert(j <= q < ee);
            assert(is_digit(s[q]));
        }
    }
}

/// A number parse transfers to any equal byte region with a safe boundary:
/// the same value is read, its lexeme taken over the new region.
#[verifier::rlimit(100)]
#[verifier::spinoff_prover]
proof fn lemma_parse_number_region(s1: Seq<u8>, i1: int, s2: Seq<u8>, i2: int, n: int)
    requires
        0 <= i1 && i1 + n <= s1.len(),
        0 <= i2 && i2 + n <= s2.len(),
        forall|q: int| 0 <= q < n ==> #[trigger] s1[i1 + q] == s2[i2 + q],
        parse_number(s1, i1) is Some,
        parse_number(s1, i1)->Some_0.1 == i1 + n,
        i2 + n == s2.len() || !(is_digit(s2[i2 + n]) || s2[i2 + n] == 46 || s2[i2 + n] == 101
            || s2[i2 + n] == 69),
    ensures
        parse_number(s2, i2) == (match parse_number(s1, i1)->Some_0.0 {
            JsonV::Num(_) => Some((JsonV::Num(chars_of_bytes(s2, i2, i2 + n)), i2 + n)),
            other => Some((other, i2 + n)),
        }),
        chars_of_bytes(s2, i2, i2 + n) == chars_of_bytes(s1, i1, i1 + n),
{
    let d = i2 - i1;
    lemma_parse_number_chars(s1, i1);
    assert(n >= 1);
    assert(s1[i1 + 0] == s2[i2 + 0]);
    assert(s2[i2] == s1[i1]);
    let neg = s1[i1] == 45;
    let d0a = if neg {
        i1 + 1
    } else {
        i1
    };
    let d0b = d0a + d;
    assert(d0a < s1.len() && is_digit(s1[d0a]));
    let ie1 = digits_end(s1, d0a);
    lemma_digits_end_chars(s1, d0a);
    let fe1 = frac_end(s1, ie1);
    let ee1 = exp_end(s1, fe1);
    assert(fe1 >= 0 && ee1 >= 0);
    let has_frac = ie1 < s1.len() && s1[ie1] == 46;
    if has_frac {
        assert(ie1 + 1 < s1.len() && is_digit(s1[ie1 + 1]));
        lemma_digits_end_chars(s1, ie1 + 1);
        assert(fe1 == digits_end(s1, ie1 + 1));
        assert(fe1 >= ie1 + 2) by {
            assert(digits_end(s1, ie1 + 1) == digits_end(s1, ie1 + 2));
            lemma_digits_end_chars(s1, ie1 + 2);
        }
    } else {
        assert(fe1 == ie1);
    }
    let has_exp = fe1 < s1.len() && (s1[fe1] == 101 || s1[fe1] == 69);
    let je = if fe1 + 1 < s1.len() && (s1[fe1 + 1] == 43 || s1[fe1 + 1] == 45) {
        fe1 + 2
    } else {
        fe1 + 1
    };
    if has_exp {
        assert(je < s1.len() && is_digit(s1[je]));
        lemma_digits_end_chars(s1, je);
        assert(ee1 == digits_end(s1, je));
        assert(ee1 >= je + 1) by {
            assert(digits_end(s1, je) == digits_end(s1, je + 1));
            lemma_digits_end_chars(s1, je + 1);
        }
    } else {
        assert(ee1 == fe1);
    }
    assert(i1 + n == ie1 || i1 + n == ee1);
    assert(ie1 <= i1 + n && fe1 <= i1 + n && ee1 <= i1 + n);
    assert(fe1 >= ie1 && ee1 >= fe1);
    // the integer digit run transfers
    assert(d0a < i1 + n);
    assert(s2[d0b] == s1[d0a] && is_digit(s2[d0b]));
    assert forall|q: int| d0b <= q < ie1 + d implies is_digit(#[trigger] s2[q]) by {
        assert(s1[i1 + (q - i2)] == s2[q]);
        assert(is_digit(s1[q - d]));
    }
    if ie1 < i1 + n {
        assert(s1[i1 + (ie1 - i1)] == s2[ie1 + d]);
        assert(!is_digit(s2[ie1 + d]));
    }
    lemma_digits_end_region(s2, d0b, ie1 + d);
    let ie2 = ie1 + d;
    assert(digits_end(s2, d0b) == ie2);
    // the fraction transfers
    if !has_frac {
        if ie1 < i1 + n {
            assert(s1[ie1] != 46);
            assert(s1[i1 + (ie1 - i1)] == s2[ie2]);
        }
        assert(frac_end(s2, ie2) == ie2);
    } else {
        assert(ie1 + 1 < i1 + n);
        assert(s1[i1 + (ie1 - i1)] == s2[ie2]);
        assert(s1[i1 + (ie1 + 1 - i1)] == s2[ie2 + 1]);
        assert(s2[ie2] == 46 && is_digit(s2[ie2 + 1]));
        assert forall|q: int| ie2 + 1 <= q < fe1 + d implies is_digit(#[trigger] s2[q]) by {
            assert(s1[i1 + (q - i2)] == s2[q]);
            assert(is_digit(s1[q - d]));
        }
        if fe1 < i1 + n {
            assert(s1[i1 + (fe1 - i1)] == s2[fe1 + d]);
            assert(!is_digit(s2[fe1 + d]));
        }
        lemma_digits_end_region(s2, ie2 + 1, fe1 + d);
        assert(frac_end(s2, ie2) == fe1 + d);
    }
    let fe2 = fe1 + d;
    assert(frac_end(s2, ie2) == fe2);
    // the exponent transfers
    if !has_exp {
        if fe1 < i1 + n {
            assert(s1[fe1] != 101 && s1[fe1] != 69);
            assert(s1[i1 + (fe1 - i1)] == s2[fe2]);
        }
        assert(exp_end(s2, fe2) == fe2);
    } else {
        assert(fe1 < i1 + n);
        assert(je < i1 + n) by {
            assert(ee1 >= je + 1 && ee1 <= i1 + n);
        }
        assert(s1[i1 + (fe1 - i1)] == s2[fe2]);
        assert(s2[fe2] == 101 || s2[fe2] == 69);
        assert(fe1 + 1 < i1 + n);
        assert(s1[i1 + (fe1 + 1 - i1)] == s2[fe2 + 1]);
        let jb = if fe2 + 1 < s2.len() && (s2[fe2 + 1] == 43 || s2[fe2 + 1] == 45) {
            fe2 + 2
        } else {
            fe2 + 1
        };
        assert(jb == je + d);
        assert(s1[i1 + (je - i1)] == s2[jb]);
        assert(is_digit(s2[jb]));
        assert forall|q: int| jb <= q < ee1 + d implies is_digit(#[trigger] s2[q]) by {
            assert(s1[i1 + (q - i2)] == s2[q]);
            assert(is_digit(s1[q - d]));
        }
        if ee1 < i1 + n {
            assert(s1[i1 + (ee1 - i1)] == s2[ee1 + d]);
            assert(!is_digit(s2[ee1 + d]));
        }
        lemma_digits_end_region(s2, jb, ee1 + d);
        assert(exp_end(s2, fe2) == ee1 + d);
    }
    let ee2 = ee1 + d;
    assert(exp_end(s2, fe2) == ee2);
    // the value transfers
    assert(chars_of_bytes(s2, i2, i2 + n) =~= chars_of_bytes(s1, i1, i1 + n)) by {
        assert(forall|q: int|
            0 <= q < n ==> #[trigger] chars_of_bytes(s2, i2, i2 + n)[q] == (s2[i2 + q] as char));
    }
    if ee1 == ie1 {
        assert forall|q: int| 0 <= q < ie1 - d0a implies #[trigger] s1[d0a + q] == s2[
            d0b + q
        ] by {
            assert(s1[i1 + (d0a + q - i1)] == s2[i2 + (d0a + q - i1)]);
        }
        lemma_digits_val_region2(s1, d0a, s2, d0b, ie1 - d0a);
        assert(digits_val(s2, d0b, ie2) == digits_val(s1, d0a, ie1));
    }
}

} // verus!

verus! {

/// ASCII bytes are valid UTF-8 and decode one character per byte.
pub(crate) proof fn lemma_ascii_decode(b: Seq<u8>)
    requires
        forall|q: int| 0 <= q < b.len() ==> #[trigger] b[q] < 128,
    ensures
        valid_utf8(b),
        decode_utf8(b) == chars_of_bytes(b, 0, b.len() as int),
    decreases b.len(),
{
    if b.len() > 0 {
        assert(vstd::utf8::is_leading_byte_width_1(b[0]));
        assert(vstd::utf8::length_of_first_scalar(b) == 1);
        assert(vstd::utf8::pop_first_scalar(b) =~= b.drop_first());
        assert(forall|q: int|
            0 <= q < b.drop_first().len() ==> #[trigger] b.drop_first()[q] == b[q + 1] && b[q + 1]
                < 128);
        lemma_ascii_decode(b.drop_first());
        let b0 = b[0];
        assert((b0 & 0x7F) == b0) by (bit_vector)
            requires
                b0 < 128,
        ;
        assert(vstd::utf8::decode_first_scalar(b) == b[0] as u32);
        assert(decode_utf8(b)[0] == (b[0] as u32) as char);
        assert(decode_utf8(b) =~= chars_of_bytes(b, 0, b.len() as int));
    } else {
        assert(decode_utf8(b) =~= chars_of_bytes(b, 0, 0));
    }
}

/// What a valid number lexeme's characters look like: ASCII number bytes,
/// at least one of them, a minus sign or digit first, and a UTF-8 encoding
/// equal to their bytes.
proof fn lemma_num_lexeme_facts(lx: Seq<char>)
    requires
        num_lexeme_ok(lx),
    ensures
        lx.len() >= 1,
        forall|q: int|
            0 <= q < lx.len() ==> is_num_byte(#[trigger] bytes_of_chars(lx)[q])
                && bytes_of_chars(lx)[q] < 128 && lx[q] == (bytes_of_chars(lx)[q] as char),
        encode_utf8(lx) == bytes_of_chars(lx),
        lx[0] == '-' || ('0' <= lx[0] <= '9'),
        parse_number(bytes_of_chars(lx), 0) == Some((JsonV::Num(lx), lx.len() as int)),
{
    reveal(num_lexeme_ok);
    let b = bytes_of_chars(lx);
    lemma_parse_number_chars(b, 0);
    assert(forall|q: int| 0 <= q < lx.len() ==> is_num_byte(#[trigger] b[q]) && b[q] < 128);
    assert(lx == chars_of_bytes(b, 0, b.len() as int));
    assert forall|q: int| 0 <= q < lx.len() implies lx[q] == (#[trigger] b[q]) as char by {
        assert(chars_of_bytes(b, 0, b.len() as int)[q] == b[q] as char);
    }
    lemma_ascii_num_encode(lx, b);
    assert(lx[0] == b[0] as char);
    if b[0] == 45 {
        assert(lx[0] == '-');
    } else {
        assert(is_digit(b[0]));
        assert('0' <= lx[0] <= '9');
    }
}

/// The UTF-8 encoding of ASCII characters is their bytes.
proof fn lemma_ascii_num_encode(lx: Seq<char>, b: Seq<u8>)
    requires
        b.len() == lx.len(),
        forall|q: int| 0 <= q < lx.len() ==> (#[trigger] b[q]) < 128 && lx[q] == (b[q] as char),
    ensures
        encode_utf8(lx) == b,
    decreases lx.len(),
{
    if lx.len() == 0 {
        assert(encode_utf8(lx) =~= b);
    } else {
        assert((lx[0] as u32) == b[0] as u32);
        assert(vstd::utf8::has_width_1_encoding(lx[0] as u32));
        assert(encode_scalar(lx[0] as u32) == seq![((lx[0] as u32) & 0x7F) as u8]);
        let b0 = b[0];
        assert((((b0 as u32) & 0x7F) as u8) == b0) by (bit_vector)
            requires
                b0 < 128,
        ;
        assert(forall|q: int|
            0 <= q < lx.drop_first().len() ==> (#[trigger] b.drop_first()[q]) < 128
                && lx.drop_first()[q] == (b.drop_first()[q] as char));
        lemma_ascii_num_encode(lx.drop_first(), b.drop_first());
        assert(encode_utf8(lx) =~= b);
    }
}

/// Wrap the consumed bytes of a number parse as a carried lexeme.
#[verifier::rlimit(100)]
#[verifier::spinoff_prover]
fn make_num_lexeme(s: &[u8], i: usize, e: usize) -> (r: Option<(Json, usize)>)
    requires
        i < e <= s@.len(),
        parse_number(s@, i as int) == Some(
            (JsonV::Num(chars_of_bytes(s@, i as int, e as int)), e as int),
        ),
    ensures
        match r {
            Some((v, e2)) => parse_number(s@, i as int) == Some((v.model(), e2 as int)) && i < e2
                <= s@.len(),
            None => parse_number(s@, i as int) is None,
        },
{
    proof {
        lemma_parse_number_chars(s@, i as int);
    }
    let lexb = vstd::slice::slice_subrange(s, i, e);
    proof {
        assert(forall|q: int|
            0 <= q < lexb@.len() ==> #[trigger] lexb@[q] < 128 && is_num_byte(lexb@[q])) by {
            assert(forall|q: int|
                0 <= q < lexb@.len() ==> #[trigger] lexb@[q] == s@[i + q] && is_num_byte(
                    s@[i + q],
                ));
        }
        lemma_ascii_decode(lexb@);
    }
    let owned = vstd::slice::slice_to_vec(lexb);
    let ghost lexbs = lexb@;
    match string_from_utf8(owned) {
        Some(t) => {
            proof {
                assert(t@ =~= chars_of_bytes(s@, i as int, e as int)) by {
                    assert(t@ == chars_of_bytes(lexbs, 0, lexbs.len() as int));
                    assert(forall|q: int|
                        0 <= q < lexbs.len() ==> #[trigger] lexbs[q] == s@[i + q]);
                }
                assert(bytes_of_chars(t@) =~= lexbs) by {
                    assert(forall|q: int|
                        0 <= q < t@.len() ==> #[trigger] t@[q] == (lexbs[q] as char) && lexbs[q]
                            < 256);
                }
                assert(forall|q: int|
                    0 <= q < (e - i) ==> #[trigger] s@[i + q] == bytes_of_chars(t@)[q]);
                lemma_parse_number_region(
                    s@,
                    i as int,
                    bytes_of_chars(t@),
                    0,
                    (e - i) as int,
                );
                assert(chars_of_bytes(bytes_of_chars(t@), 0, (e - i) as int) =~= t@);
                reveal(num_lexeme_ok);
                assert(num_lexeme_ok(t@));
            }
            let nl = NumLexeme::from_checked(t);
            Some((Json::Num(nl), e))
        },
        None => {
            proof {
                assert(false);
            }
            None
        },
    }
}

} // verus!
