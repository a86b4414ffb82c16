//! Keys of the routing table: the lowercase hex SHA-1 digest of a text.

use vstd::prelude::*;
use sha1::Digest;
use sha1::Sha1;

verus! {

/// The SHA-1 digest of `data`.
pub uninterp spec fn sha1_digest(data: Seq<u8>) -> Seq<u8>;

/// Calls `<sha1::Sha1 as Digest>::digest` on `data`. Trusted: the result
/// depends on `data` alone, so it is named `sha1_digest`, and it is 20 bytes
/// long, the size of a SHA-1 digest (`OutputSize = U20` in the crate).
#[verifier::external_body]
fn sha1_of(data: &[u8]) -> (r: Vec<u8>)
    ensures
        r@ == sha1_digest(data@),
        r@.len() == 20,
{
    Sha1::digest(data).to_vec()
}

/// The lowercase hex digit of `n < 16`.
pub open spec fn hex_digit(n: int) -> char {
    if n < 10 {
        (('0' as u32) + n) as char
    } else {
        (('a' as u32) + n - 10) as char
    }
}

/// `data` in lowercase hex, two digits per byte, high half first.
pub open spec fn hex_lower(data: Seq<u8>) -> Seq<char>
    decreases data.len(),
{
    if data.len() == 0 {
        Seq::empty()
    } else {
        hex_lower(data.drop_last()) + seq![
            hex_digit(data.last() as int / 16),
            hex_digit(data.last() as int % 16),
        ]
    }
}

/// Calls `hex::encode`. Trusted: its result is `data` written in lowercase
/// hex, each byte as its high then its low half.
#[verifier::external_body]
pub(crate) fn hex_encode(data: &[u8]) -> (r: String)
    ensures
        r@ == hex_lower(data@),
{
    hex::encode(data)
}

/// The key of the text `a` followed by `b`: the lowercase hex SHA-1 digest of
/// its UTF-8 bytes.
pub open spec fn route_key_of(a: Seq<char>, b: Seq<char>) -> Seq<char> {
    hex_lower(sha1_digest(vstd::utf8::encode_utf8(a + b)))
}

/// Whether `c` is one of `0-9a-f`.
pub open spec fn is_lower_hex_digit(c: char) -> bool {
    ('0' <= c && c <= '9') || ('a' <= c && c <= 'f')
}

/// The shape of every key: 40 lowercase hex digits.
pub open spec fn is_route_key(k: Seq<char>) -> bool {
    &&& k.len() == 40
    &&& forall|i: int| 0 <= i < k.len() ==> is_lower_hex_digit(#[trigger] k[i])
}

/// Lowercase hex is made of lowercase hex digits.
pub proof fn lemma_hex_lower_digits(data: Seq<u8>)
    ensures
        forall|i: int| 0 <= i < hex_lower(data).len() ==> is_lower_hex_digit(#[trigger] hex_lower(data)[i]),
    decreases data.len(),
{
    if data.len() > 0 {
        lemma_hex_lower_digits(data.drop_last());
        lemma_hex_lower_len(data.drop_last());
        let h = hex_lower(data);
        let p = hex_lower(data.drop_last());
        let b = data.last() as int;
        assert(0 <= b / 16 < 16 && 0 <= b % 16 < 16);
        assert forall|i: int| 0 <= i < h.len() implies is_lower_hex_digit(#[trigger] h[i]) by {
            if i < p.len() {
                assert(h[i] == p[i]);
            } else if i == p.len() {
                assert(h[i] == hex_digit(b / 16));
            } else {
                assert(h[i] == hex_digit(b % 16));
            }
        }
    }
}

proof fn lemma_hex_digit_code(n: int)
    requires
        0 <= n < 16,
    ensures
        hex_digit(n) as u32 == if n < 10 { 48 + n } else { 87 + n },
{
}

/// Different bytes give different lowercase hex: the hex text determines the
/// bytes.
pub proof fn lemma_hex_lower_injective(x: Seq<u8>, y: Seq<u8>)
    ensures
        hex_lower(x) == hex_lower(y) <==> x == y,
    decreases x.len(),
{
    if hex_lower(x) == hex_lower(y) {
        lemma_hex_lower_len(x);
        lemma_hex_lower_len(y);
        if x.len() > 0 {
            let px = hex_lower(x.drop_last());
            let py = hex_lower(y.drop_last());
            lemma_hex_lower_len(x.drop_last());
            lemma_hex_lower_len(y.drop_last());
            let h = hex_lower(x);
            let bx = x.last() as int;
            let by = y.last() as int;
            assert(h[px.len() as int] == hex_digit(bx / 16));
            assert(hex_lower(y)[py.len() as int] == hex_digit(by / 16));
            assert(h[px.len() + 1int] == hex_digit(bx % 16));
            assert(hex_lower(y)[py.len() + 1int] == hex_digit(by % 16));
            lemma_hex_digit_code(bx / 16);
            lemma_hex_digit_code(by / 16);
            lemma_hex_digit_code(bx % 16);
            lemma_hex_digit_code(by % 16);
            assert(bx / 16 == by / 16);
            assert(bx % 16 == by % 16);
            assert(bx == by);
            assert(px =~= h.take(px.len() as int));
            assert(py =~= hex_lower(y).take(py.len() as int));
            lemma_hex_lower_injective(x.drop_last(), y.drop_last());
            assert(x =~= x.drop_last().push(x.last()));
            assert(y =~= y.drop_last().push(y.last()));
        } else {
            assert(x =~= y);
        }
    }
}

/// Two keys are equal exactly when the SHA-1 digests of the whole UTF-8
/// texts behind them are: every character of `a` and `b` counts.
pub proof fn lemma_route_keys_equal_iff(a1: Seq<char>, b1: Seq<char>, a2: Seq<char>, b2: Seq<char>)
    ensures
        route_key_of(a1, b1) == route_key_of(a2, b2) <==> sha1_digest(
            vstd::utf8::encode_utf8(a1 + b1),
        ) == sha1_digest(vstd::utf8::encode_utf8(a2 + b2)),
{
    lemma_hex_lower_injective(
        sha1_digest(vstd::utf8::encode_utf8(a1 + b1)),
        sha1_digest(vstd::utf8::encode_utf8(a2 + b2)),
    );
}

/// Lowercase hex has two digits per byte.
pub proof fn lemma_hex_lower_len(data: Seq<u8>)
    ensures
        hex_lower(data).len() == 2 * data.len(),
    decreases data.len(),
{
    if data.len() > 0 {
        lemma_hex_lower_len(data.drop_last());
    }
}

/// The key of the text `a` followed by `b`: 40 lowercase hex digits.
pub fn route_key(a: &str, b: &str) -> (r: String)
    ensures
        r@ == route_key_of(a@, b@),
        r@ == hex_lower(sha1_digest(vstd::utf8::encode_utf8(a@ + b@))),
        is_route_key(r@),
{
    let mut joined = String::from_str(a);
    joined.append(b);
    let bytes = joined.as_str().as_bytes();
    let digest = sha1_of(bytes);
    proof {
        lemma_hex_lower_len(digest@);
        lemma_hex_lower_digits(digest@);
    }
    hex_encode(digest.as_slice())
}

} // verus!
