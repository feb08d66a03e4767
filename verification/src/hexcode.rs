//! Lower-case hexadecimal text, as hex headers carry it.

use vstd::prelude::*;
use crate::escape::{escape_seq, lemma_escape_seq_plain, needs_escape};

verus! {

/// The ASCII digit for a value below sixteen, letters in lower case.
pub open spec fn hex_digit(n: int) -> u8 {
    if n < 10 {
        (0x30 + n) as u8
    } else {
        (0x61 + n - 10) as u8
    }
}

/// The value of an ASCII hex digit of either case; `None` for any other byte.
pub open spec fn hex_value(c: u8) -> Option<int> {
    if 0x30 <= c <= 0x39 {
        Some(c - 0x30)
    } else if 0x61 <= c <= 0x66 {
        Some(c - 0x61 + 10)
    } else if 0x41 <= c <= 0x46 {
        Some(c - 0x41 + 10)
    } else {
        None
    }
}

/// Two lower-case digits for each byte of `s`, the high half first.
pub open spec fn hex_encoded(s: Seq<u8>) -> Seq<u8> {
    Seq::new(
        2 * s.len(),
        |i: int|
            if i % 2 == 0 {
                hex_digit(s[i / 2] as int / 16)
            } else {
                hex_digit(s[i / 2] as int % 16)
            },
    )
}

/// Whether `s` is an even number of hex digits.
pub open spec fn hex_decodable(s: Seq<u8>) -> bool {
    &&& s.len() % 2 == 0
    &&& forall|i: int| 0 <= i < s.len() ==> (#[trigger] hex_value(s[i])) is Some
}

/// The bytes that the digit pairs of `s` stand for.
pub open spec fn hex_decoded(s: Seq<u8>) -> Seq<u8> {
    Seq::new(
        s.len() / 2,
        |i: int| (hex_value(s[2 * i]).unwrap() * 16 + hex_value(s[2 * i + 1]).unwrap()) as u8,
    )
}

/// Decoding undoes encoding.
pub proof fn lemma_hex_round_trip(s: Seq<u8>)
    ensures
        hex_decodable(hex_encoded(s)),
        hex_decoded(hex_encoded(s)) == s,
{
    let h = hex_encoded(s);
    assert forall|i: int| 0 <= i < h.len() implies (#[trigger] hex_value(h[i])) is Some by {
        let b = s[i / 2];
    }
    assert(hex_decoded(h) =~= s) by {
        assert forall|i: int| 0 <= i < s.len() implies hex_decoded(h)[i] == s[i] by {
            assert(h[2 * i] == hex_digit(s[i] as int / 16));
            assert(h[2 * i + 1] == hex_digit(s[i] as int % 16));
        }
    }
}

/// Hex text passes through escaping unchanged.
pub proof fn lemma_hex_is_plain(s: Seq<u8>)
    ensures
        escape_seq(hex_encoded(s)) == hex_encoded(s),
{
    let h = hex_encoded(s);
    assert forall|i: int| 0 <= i < h.len() implies !needs_escape(#[trigger] h[i]) by {
        let b = s[i / 2];
    }
    lemma_escape_seq_plain(h);
}

/// Calls `hex::encode`, which writes each byte as two lower-case hex digits,
/// the high half first, and hands the text back as bytes.
#[verifier::external_body]
pub(crate) fn hex_encode(data: &[u8]) -> (r: Vec<u8>)
    ensures
        r@ == hex_encoded(data@),
{
    ::hex::encode(data).into_bytes()
}

/// Calls `hex::decode`, which fails on an odd length and on any byte that
/// is not a hex digit of either case, and otherwise returns one byte for
/// each pair of digits, the high half first.
#[verifier::external_body]
pub(crate) fn hex_decode(data: &[u8]) -> (r: Option<Vec<u8>>)
    ensures
        match r {
            Some(bytes) => hex_decodable(data@) && bytes@ == hex_decoded(data@),
            None => !hex_decodable(data@),
        },
{
    ::hex::decode(data).ok()
}

} // verus!
