//! URL-safe serialization of a name list.
//!
//! Encoding joins the names with newlines, base64-encodes the UTF-8 bytes of
//! the joined text, and then percent-encodes every byte of the base64 text
//! that is not an ASCII letter or digit, so the token can stand alone as a
//! URL query string. Decoding runs the same three steps backwards and
//! reports malformed input instead of guessing: a token that does not
//! percent-plus-base64-decode, or whose payload is not UTF-8, is rejected.
//!
//! The base64 step is done by an outside crate and its output is only named
//! here, not restated; the percent-encoding step is also done by an outside
//! crate, but its effect is short enough to state exactly, so the round trip
//! through it is proved rather than assumed.

use vstd::prelude::*;
use vstd::arithmetic::div_mod::lemma_fundamental_div_mod;
use vstd::string::StrSliceExecFns;
use vstd::utf8::{
    decode_utf8, decode_utf8_encode_utf8, encode_utf8, encode_utf8_decode_utf8,
    encode_utf8_valid_utf8, is_leading_byte_width_1, pop_first_scalar, valid_first_scalar,
    valid_utf8,
};
use base64::Engine;
use crate::text::{joined, lines_of, lines_vec, newline_free, single_empty_entry, join_names};

verus! {

/// ASCII letters and digits: the bytes that percent-encoding leaves as they
/// are.
pub open spec fn is_alnum_byte(b: u8) -> bool {
    (48 <= b <= 57) || (65 <= b <= 90) || (97 <= b <= 122)
}

/// The bytes the base64 step can produce: letters, digits, `+`, `/` and the
/// `=` padding.
pub open spec fn is_base64_byte(b: u8) -> bool {
    is_alnum_byte(b) || b == 43 || b == 47 || b == 61
}

/// Uppercase hexadecimal digit for a value below 16, as a byte.
pub open spec fn hex_digit_upper(v: u8) -> u8
    recommends
        v < 16,
{
    if v < 10 {
        (48 + v) as u8
    } else {
        (55 + v) as u8
    }
}

/// Hexadecimal digit of either case, as percent-decoding accepts it.
pub open spec fn is_hex_byte(b: u8) -> bool {
    (48 <= b <= 57) || (65 <= b <= 70) || (97 <= b <= 102)
}

pub open spec fn hex_value(b: u8) -> u8
    recommends
        is_hex_byte(b),
{
    if 48 <= b <= 57 {
        (b - 48) as u8
    } else if 65 <= b <= 70 {
        (b - 55) as u8
    } else {
        (b - 87) as u8
    }
}

/// Percent-encoding of one byte: letters and digits stand for themselves,
/// every other byte becomes `%` and two uppercase hexadecimal digits.
pub open spec fn pct_byte(b: u8) -> Seq<u8> {
    if is_alnum_byte(b) {
        seq![b]
    } else {
        seq![37u8, hex_digit_upper((b / 16) as u8), hex_digit_upper((b % 16) as u8)]
    }
}

/// Percent-encoding of a byte sequence, byte by byte.
pub open spec fn pct_encoded(s: Seq<u8>) -> Seq<u8>
    decreases s.len(),
{
    if s.len() == 0 {
        Seq::empty()
    } else {
        pct_encoded(s.drop_last()) + pct_byte(s.last())
    }
}

/// Percent-decoding: each `%` followed by two hexadecimal digits of either
/// case yields one byte; everything else, a stray `%` included, passes
/// through unchanged.
pub open spec fn pct_decoded(s: Seq<u8>) -> Seq<u8>
    decreases s.len(),
{
    if s.len() == 0 {
        Seq::empty()
    } else if s[0] == 37 && s.len() >= 3 && is_hex_byte(s[1]) && is_hex_byte(s[2]) {
        seq![(16 * hex_value(s[1]) + hex_value(s[2])) as u8] + pct_decoded(s.skip(3))
    } else {
        seq![s[0]] + pct_decoded(s.skip(1))
    }
}

/// The base64 text, with padding, that the standard alphabet assigns to a
/// byte sequence. The algorithm itself is not restated here: this name is
/// given meaning only by the contracts of the two wrappers below.
pub uninterp spec fn base64_text(bytes: Seq<u8>) -> Seq<u8>;

/// Relies on base64's `STANDARD` engine `encode`: the canonical padded
/// base64 text of the input, empty for empty input, over the standard
/// alphabet plus `=`.
#[verifier::external_body]
fn base64_encode(bytes: &[u8]) -> (r: Vec<u8>)
    ensures
        r@ == base64_text(bytes@),
        bytes@.len() == 0 ==> r@.len() == 0,
        forall|i: int| 0 <= i < r@.len() ==> is_base64_byte(#[trigger] r@[i]),
{
    base64::engine::general_purpose::STANDARD.encode(bytes).into_bytes()
}

/// Relies on base64's `STANDARD` engine `decode`: it accepts exactly the
/// canonical padded encodings (padding is required and stray trailing bits
/// are rejected), and on those it inverts `encode`.
#[verifier::external_body]
fn base64_decode(bytes: &[u8]) -> (r: Option<Vec<u8>>)
    ensures
        r is Some ==> bytes@ == base64_text(r->0@),
        forall|orig: Seq<u8>| bytes@ == #[trigger] base64_text(orig) ==> r is Some && r->0@
            == orig,
{
    base64::engine::general_purpose::STANDARD.decode(bytes).ok()
}

/// Relies on percent-encoding's `percent_encode` with `NON_ALPHANUMERIC`:
/// every byte that is not an ASCII letter or digit, non-ASCII bytes
/// included, becomes `%` plus two uppercase hexadecimal digits.
#[verifier::external_body]
fn percent_encode_bytes(bytes: &[u8]) -> (r: Vec<u8>)
    ensures
        r@ == pct_encoded(bytes@),
{
    percent_encoding::percent_encode(bytes, percent_encoding::NON_ALPHANUMERIC)
        .collect::<String>()
        .into_bytes()
}

/// Relies on percent-encoding's `percent_decode`: each `%` followed by two
/// hexadecimal digits of either case becomes one byte, and any other byte,
/// a `%` without valid digits included, passes through unchanged.
#[verifier::external_body]
fn percent_decode_bytes(bytes: &[u8]) -> (r: Vec<u8>)
    ensures
        r@ == pct_decoded(bytes@),
{
    percent_encoding::percent_decode(bytes).collect()
}

/// Relies on std's `String::from_utf8`: it accepts exactly valid UTF-8 and
/// decodes it to the characters the bytes encode.
#[verifier::external_body]
fn bytes_to_string(bytes: Vec<u8>) -> (r: Option<String>)
    ensures
        r is Some <==> valid_utf8(bytes@),
        r is Some ==> r->0@ == decode_utf8(bytes@),
{
    String::from_utf8(bytes).ok()
}

/// Unfolding `pct_encoded` from the front instead of the back.
proof fn lemma_pct_encoded_first(s: Seq<u8>)
    requires
        s.len() > 0,
    ensures
        pct_encoded(s) == pct_byte(s[0]) + pct_encoded(s.drop_first()),
    decreases s.len(),
{
    if s.len() == 1 {
        assert(s.drop_last() =~= Seq::<u8>::empty());
        assert(s.drop_first() =~= Seq::<u8>::empty());
        assert(pct_encoded(s) =~= pct_byte(s[0]) + pct_encoded(s.drop_first()));
    } else {
        lemma_pct_encoded_first(s.drop_last());
        assert(s.drop_last().drop_first() =~= s.drop_first().drop_last());
        assert(s.drop_first().last() == s.last());
        assert(pct_encoded(s) =~= pct_byte(s[0]) + pct_encoded(s.drop_first()));
    }
}

/// Percent-encoded output is pure ASCII.
proof fn lemma_pct_encoded_ascii(s: Seq<u8>)
    ensures
        forall|i: int| 0 <= i < pct_encoded(s).len() ==> #[trigger] pct_encoded(s)[i] < 128,
    decreases s.len(),
{
    if s.len() > 0 {
        lemma_pct_encoded_ascii(s.drop_last());
        let l = pct_encoded(s.drop_last());
        let e = pct_byte(s.last());
        assert forall|i: int| 0 <= i < pct_encoded(s).len() implies #[trigger] pct_encoded(s)[i]
            < 128 by {
            if i < l.len() {
                assert(pct_encoded(s)[i] == l[i]);
            } else {
                assert(pct_encoded(s)[i] == e[i - l.len()]);
            }
        }
    }
}

/// Decoding undoes encoding, for every byte sequence.
pub proof fn lemma_pct_round_trip(s: Seq<u8>)
    ensures
        pct_decoded(pct_encoded(s)) == s,
    decreases s.len(),
{
    if s.len() > 0 {
        lemma_pct_encoded_first(s);
        let b = s[0];
        let t = pct_encoded(s);
        let rest = pct_encoded(s.drop_first());
        lemma_pct_round_trip(s.drop_first());
        if is_alnum_byte(b) {
            assert(t[0] == b);
            assert(t.skip(1) =~= rest);
            assert(pct_decoded(t) =~= seq![b] + s.drop_first());
            assert(seq![b] + s.drop_first() =~= s);
        } else {
            let h1 = hex_digit_upper((b / 16) as u8);
            let h2 = hex_digit_upper((b % 16) as u8);
            assert(t[0] == 37 && t[1] == h1 && t[2] == h2);
            assert(is_hex_byte(h1) && is_hex_byte(h2));
            assert(hex_value(h1) == b / 16);
            assert(hex_value(h2) == b % 16);
            lemma_fundamental_div_mod(b as int, 16);
            assert(16 * hex_value(h1) + hex_value(h2) == b);
            assert(t.skip(3) =~= rest);
            assert(pct_decoded(t) =~= seq![b] + s.drop_first());
            assert(seq![b] + s.drop_first() =~= s);
        }
    }
}

/// ASCII bytes are valid UTF-8 on their own.
pub proof fn lemma_ascii_valid_utf8(b: Seq<u8>)
    requires
        forall|i: int| 0 <= i < b.len() ==> #[trigger] b[i] < 128,
    ensures
        valid_utf8(b),
    decreases b.len(),
{
    if b.len() > 0 {
        let b0 = b[0];
        assert(is_leading_byte_width_1(b0));
        assert(b0 & 0x7f == b0) by (bit_vector)
            requires
                b0 < 128,
        ;
        assert(valid_first_scalar(b));
        assert(pop_first_scalar(b) =~= b.skip(1));
        lemma_ascii_valid_utf8(b.skip(1));
    }
}

/// The token's bytes: percent-encoded base64 of the joined list's UTF-8.
pub open spec fn token_bytes(names: Seq<Seq<char>>) -> Seq<u8> {
    pct_encoded(base64_text(encode_utf8(joined(names))))
}

/// The token itself, as the characters those ASCII bytes spell.
pub open spec fn encoded_token(names: Seq<Seq<char>>) -> Seq<char> {
    decode_utf8(token_bytes(names))
}

/// The lists that a token can faithfully carry: entries without embedded
/// newlines, and not the one-empty-name list, which joins to the same empty
/// text as the empty list does.
pub open spec fn decodable(names: Seq<Seq<char>>) -> bool {
    newline_free(names) && names != single_empty_entry()
}

/// Why a token was rejected.
#[derive(Clone, Copy, Debug, PartialEq, Eq, Structural)]
pub enum DecodeError {
    /// After percent-decoding, the bytes are not a canonical base64 text.
    InvalidBase64,
    /// The base64 payload is not valid UTF-8.
    InvalidUtf8,
}

/// What the steps of decoding recover from a well-formed token.
proof fn lemma_decode_chain(ns: Seq<Seq<char>>, token: Seq<char>)
    requires
        decodable(ns),
        token == encoded_token(ns),
    ensures
        encode_utf8(token) == token_bytes(ns),
        pct_decoded(token_bytes(ns)) == base64_text(encode_utf8(joined(ns))),
        valid_utf8(encode_utf8(joined(ns))),
        decode_utf8(encode_utf8(joined(ns))) == joined(ns),
        lines_of(joined(ns)) == ns,
{
    let payload = encode_utf8(joined(ns));
    let b64 = base64_text(payload);
    lemma_pct_encoded_ascii(b64);
    lemma_ascii_valid_utf8(pct_encoded(b64));
    decode_utf8_encode_utf8(pct_encoded(b64));
    lemma_pct_round_trip(b64);
    encode_utf8_valid_utf8(joined(ns));
    encode_utf8_decode_utf8(joined(ns));
    crate::text::lemma_lines_of_joined(ns);
}

/// Encode a name list as a URL-safe token.
pub fn encode(names: &Vec<String>) -> (token: String)
    ensures
        token@ == encoded_token(names.deep_view()),
        encode_utf8(token@) == token_bytes(names.deep_view()),
{
    let joined_text = join_names(names);
    let jb = joined_text.as_str().as_bytes_vec();
    let bb = base64_encode(jb.as_slice());
    let tb = percent_encode_bytes(bb.as_slice());
    proof {
        lemma_pct_encoded_ascii(bb@);
        lemma_ascii_valid_utf8(tb@);
        decode_utf8_encode_utf8(tb@);
    }
    let r = bytes_to_string(tb);
    r.unwrap()
}

/// Decode a token back into a name list.
///
/// Success is owed exactly on the tokens that `encode` produces: for every
/// decodable list `ns`, the token `encode` gives for `ns` comes back as
/// `Ok` of that very list. Anything else is rejected with the step that
/// failed; nothing is silently replaced by an empty list.
pub fn decode(token: &str) -> (r: Result<Vec<String>, DecodeError>)
    ensures
        forall|ns: Seq<Seq<char>>|
            decodable(ns) && token@ == #[trigger] encoded_token(ns) ==> (r matches Ok(v)
                && v.deep_view() == ns),
        r matches Ok(v) ==> (exists|bs: Seq<u8>|
            pct_decoded(encode_utf8(token@)) == base64_text(bs) && valid_utf8(bs)
                && v.deep_view() == lines_of(#[trigger] decode_utf8(bs))),
        r is Err ==> !(exists|bs: Seq<u8>|
            pct_decoded(encode_utf8(token@)) == #[trigger] base64_text(bs) && valid_utf8(bs)),
{
    let tb = token.as_bytes_vec();
    let pd = percent_decode_bytes(tb.as_slice());
    let db_opt = base64_decode(pd.as_slice());
    match db_opt {
        Option::None => {
            proof {
                assert forall|ns: Seq<Seq<char>>|
                    decodable(ns) && token@ == #[trigger] encoded_token(ns) implies false by {
                    lemma_decode_chain(ns, token@);
                };
            }
            Result::Err(DecodeError::InvalidBase64)
        },
        Option::Some(db) => {
            let ghost dbv = db@;
            let s_opt = bytes_to_string(db);
            match s_opt {
                Option::None => {
                    proof {
                        assert forall|ns: Seq<Seq<char>>|
                            decodable(ns) && token@ == #[trigger] encoded_token(ns) implies false by {
                            lemma_decode_chain(ns, token@);
                        };
                        assert forall|bs: Seq<u8>|
                            pct_decoded(encode_utf8(token@)) == #[trigger] base64_text(bs) implies !valid_utf8(
                            bs,
                        ) by {
                            assert(dbv == bs);
                        };
                    }
                    Result::Err(DecodeError::InvalidUtf8)
                },
                Option::Some(s) => {
                    let names = lines_vec(s.as_str());
                    proof {
                        assert forall|ns: Seq<Seq<char>>|
                            decodable(ns) && token@ == #[trigger] encoded_token(ns) implies names.deep_view()
                            == ns by {
                            lemma_decode_chain(ns, token@);
                        };
                    }
                    Result::Ok(names)
                },
            }
        },
    }
}

} // verus!
