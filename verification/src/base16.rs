//! Bytes in hexadecimal.

use crate::text::hex_digit;
use vstd::prelude::*;
use vstd::utf8::{encode_utf8, is_ascii_chars, is_ascii_chars_encode_utf8};

verus! {

/// Bytes in lower-case hexadecimal, two digits each, the high one first.
pub open spec fn hex_of(b: Seq<u8>) -> Seq<char> {
    Seq::new(
        2 * b.len(),
        |i: int|
            if i % 2 == 0 {
                hex_digit(b[i / 2] as int / 16)
            } else {
                hex_digit(b[i / 2] as int % 16)
            },
    )
}

/// Calls `hex::encode`: two lower-case digits for each byte, the high one first.
#[verifier::external_body]
fn hex_encode(b: &[u8]) -> (s: String)
    ensures
        s@ == hex_of(b@),
{
    hex::encode(b)
}

/// Writes bytes in hexadecimal.
pub fn to_hex(b: &[u8]) -> (s: String)
    ensures
        s@ == hex_of(b@),
{
    hex_encode(b)
}

/// Why a text is no hexadecimal.
#[derive(Clone, Copy, Debug, PartialEq, Eq, Structural)]
pub enum NotHex {
    /// It does not have two digits for each byte.
    Length,
    /// The byte there is no digit.
    Digit { c: char, index: usize },
}

/// What a byte stands for as a digit of either case.
pub open spec fn digit_of(b: u8) -> Option<int> {
    if 0x30 <= b <= 0x39 {
        Some(b - 0x30)
    } else if 0x41 <= b <= 0x46 {
        Some(b - 0x41 + 10)
    } else if 0x61 <= b <= 0x66 {
        Some(b - 0x61 + 10)
    } else {
        None
    }
}

/// Where the first byte stands that is no digit.
pub open spec fn bad_digit(b: Seq<u8>) -> Option<int>
    decreases b.len(),
{
    if b.len() == 0 {
        None
    } else if bad_digit(b.drop_last()).is_some() {
        bad_digit(b.drop_last())
    } else if digit_of(b.last()).is_none() {
        Some(b.len() - 1)
    } else {
        None
    }
}

/// What hexadecimal stands for, or why it is none. Of several faults the length comes first, and
/// of several bytes that are no digits the first one.
pub open spec fn hex_value(b: Seq<u8>) -> Result<Seq<u8>, NotHex> {
    if b.len() % 2 != 0 {
        Err(NotHex::Length)
    } else {
        match bad_digit(b) {
            Some(i) => Err(NotHex::Digit { c: b[i] as char, index: i as usize }),
            None => Ok(
                Seq::new(
                    b.len() / 2,
                    |i: int|
                        (16 * digit_of(b[2 * i]).unwrap() + digit_of(
                            b[2 * i + 1],
                        ).unwrap()) as u8,
                ),
            ),
        }
    }
}

/// Calls `hex::decode` on the bytes of the text: digits of both cases are taken, two for each
/// byte, the high one first; an odd number of bytes is refused before any digit is looked at, and
/// the first byte that is no digit is told with its place.
#[verifier::external_body]
fn hex_decode(s: &str) -> (r: Result<Vec<u8>, NotHex>)
    ensures
        match hex_value(encode_utf8(s@)) {
            Ok(b) => r matches Ok(v) && v@ == b,
            Err(e) => r == Err::<Vec<u8>, NotHex>(e),
        },
{
    match hex::decode(s) {
        Ok(v) => Ok(v),
        Err(hex::FromHexError::InvalidHexCharacter { c, index }) => Err(NotHex::Digit { c, index }),
        Err(hex::FromHexError::OddLength) => Err(NotHex::Length),
        Err(hex::FromHexError::InvalidStringLength) => Err(NotHex::Length),
    }
}

/// Reads bytes in hexadecimal of either case.
pub fn from_hex(s: &str) -> (r: Result<Vec<u8>, NotHex>)
    ensures
        match hex_value(encode_utf8(s@)) {
            Ok(b) => r matches Ok(v) && v@ == b,
            Err(e) => r == Err::<Vec<u8>, NotHex>(e),
        },
{
    hex_decode(s)
}

proof fn lemma_no_bad_digit(b: Seq<u8>)
    requires
        forall|i: int| 0 <= i < b.len() ==> digit_of(#[trigger] b[i]).is_some(),
    ensures
        bad_digit(b).is_none(),
    decreases b.len(),
{
    if b.len() > 0 {
        assert forall|i: int| 0 <= i < b.drop_last().len() implies digit_of(
            #[trigger] b.drop_last()[i],
        ).is_some() by {
            assert(b.drop_last()[i] == b[i]);
        }
        lemma_no_bad_digit(b.drop_last());
        assert(b.last() == b[b.len() - 1]);
    }
}

/// Hexadecimal is read back as the bytes it was written of.
pub proof fn lemma_hex_round_trip(b: Seq<u8>)
    ensures
        hex_value(encode_utf8(hex_of(b))) == Ok::<Seq<u8>, NotHex>(b),
{
    let t = hex_of(b);
    let u = encode_utf8(t);
    assert(is_ascii_chars(t));
    is_ascii_chars_encode_utf8(t);
    assert forall|i: int| 0 <= i < u.len() implies digit_of(#[trigger] u[i]) == Some(
        if i % 2 == 0 {
            b[i / 2] as int / 16
        } else {
            b[i / 2] as int % 16
        },
    ) by {
        assert(t[i] as u8 == u[i]);
    }
    lemma_no_bad_digit(u);
    let v = hex_value(u)->Ok_0;
    assert(v.len() == b.len());
    assert forall|i: int| 0 <= i < b.len() implies v[i] == b[i] by {
        assert(digit_of(u[2 * i]) == Some(b[i] as int / 16));
        assert(digit_of(u[2 * i + 1]) == Some(b[i] as int % 16));
    }
    assert(v =~= b);
}

/// Bytes of the same hexadecimal digits are the same.
pub proof fn lemma_hex_pinned(a: Seq<u8>, b: Seq<u8>)
    requires
        hex_of(a) == hex_of(b),
    ensures
        a == b,
{
    lemma_hex_round_trip(a);
    lemma_hex_round_trip(b);
}

} // verus!
