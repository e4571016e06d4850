//! The tag that identifies the proxy to the middle end.

use vstd::prelude::*;
use vstd::string::*;
use vstd::utf8::encode_utf8;

verus! {

/// Why a tag could not be decoded.
#[derive(Clone, Copy, Debug, PartialEq, Eq, Structural)]
pub enum TagError {
    /// The byte at `index` is no hexadecimal digit; `c` is the character with
    /// that code.
    InvalidHexCharacter { c: char, index: usize },
    /// The number of digits is odd.
    OddLength,
    /// The number of digits does not fit a buffer of fixed size.
    InvalidStringLength,
}

/// The value of a hexadecimal digit of either case.
pub open spec fn hex_value(b: u8) -> Option<u8> {
    if 0x30 <= b <= 0x39 {
        Some((b - 0x30) as u8)
    } else if 0x41 <= b <= 0x46 {
        Some((b - 0x41 + 10) as u8)
    } else if 0x61 <= b <= 0x66 {
        Some((b - 0x61 + 10) as u8)
    } else {
        None
    }
}

/// Whether all bytes are hexadecimal digits.
pub open spec fn all_hex(digits: Seq<u8>) -> bool {
    forall|i: int| 0 <= i < digits.len() ==> hex_value(#[trigger] digits[i]) is Some
}

/// The bytes that pairs of hexadecimal digits spell.
pub open spec fn hex_bytes(digits: Seq<u8>) -> Seq<u8> {
    Seq::new(
        digits.len() / 2,
        |i: int|
            (hex_value(digits[2 * i]).unwrap() * 16 + hex_value(
                digits[2 * i + 1],
            ).unwrap()) as u8,
    )
}

/// What decoding the given digits gives.
pub open spec fn decodes_to(digits: Seq<u8>, res: Result<Seq<u8>, TagError>) -> bool {
    match res {
        Ok(bytes) => digits.len() % 2 == 0 && all_hex(digits) && bytes == hex_bytes(digits),
        Err(TagError::OddLength) => digits.len() % 2 == 1,
        Err(TagError::InvalidHexCharacter { c, index }) => {
            &&& digits.len() % 2 == 0
            &&& index < digits.len()
            &&& hex_value(digits[index as int]) is None
            &&& all_hex(digits.take(index as int))
            &&& c as int == digits[index as int]
        },
        Err(TagError::InvalidStringLength) => false,
    }
}

/// Decodes text with `hex::decode`. It gives the bytes that the pairs of digits
/// spell, in either case; an odd number of UTF-8 bytes is refused first, and
/// otherwise the first byte that is no digit is. It never reports a wrong
/// length for a buffer, since it allocates its own.
#[verifier::external_body]
fn hex_decode(text: &str) -> (res: Result<Vec<u8>, TagError>)
    ensures
        decodes_to(
            encode_utf8(text@),
            match res {
                Ok(bytes) => Ok(bytes@),
                Err(e) => Err(e),
            },
        ),
{
    match hex::decode(text) {
        Ok(bytes) => Ok(bytes),
        Err(hex::FromHexError::InvalidHexCharacter { c, index }) => {
            Err(TagError::InvalidHexCharacter { c, index })
        },
        Err(hex::FromHexError::OddLength) => Err(TagError::OddLength),
        Err(hex::FromHexError::InvalidStringLength) => Err(TagError::InvalidStringLength),
    }
}

/// Decodes the configured tag, if there is one.
pub fn decode_ad_tag(ad_tag: Option<&str>) -> (res: Result<Option<Vec<u8>>, TagError>)
    ensures
        match ad_tag {
            None => res matches Ok(None),
            Some(text) => {
                &&& res is Ok <==> encode_utf8(text@).len() % 2 == 0 && all_hex(encode_utf8(text@))
                &&& match res {
                    Ok(Some(bytes)) => decodes_to(encode_utf8(text@), Ok(bytes@)),
                    Ok(None) => false,
                    Err(e) => decodes_to(encode_utf8(text@), Err(e)),
                }
            },
        },
{
    match ad_tag {
        None => Ok(None),
        Some(text) => match hex_decode(text) {
            Ok(bytes) => Ok(Some(bytes)),
            Err(e) => Err(e),
        },
    }
}

/// Whether a byte is the code of a digit of the given value, in either case.
pub open spec fn is_hex_code(code: u8, value: int) -> bool {
    let lower = seq!['0', '1', '2', '3', '4', '5', '6', '7', '8', '9', 'a', 'b', 'c', 'd', 'e', 'f'];
    let upper = seq!['0', '1', '2', '3', '4', '5', '6', '7', '8', '9', 'A', 'B', 'C', 'D', 'E', 'F'];
    0 <= value < 16 && (code == lower[value] as int || code == upper[value] as int)
}

/// Bytes are decoded from two digits each, the upper half first, and from nothing
/// else.
#[verifier::rlimit(40)]
pub proof fn lemma_tag_by_digits(digits: Seq<u8>, bytes: Seq<u8>)
    ensures
        decodes_to(digits, Ok(bytes)) <==> digits.len() == 2 * bytes.len() && forall|i: int|
            0 <= i < bytes.len() ==> is_hex_code(digits[2 * i], #[trigger] bytes[i] as int / 16)
                && is_hex_code(digits[2 * i + 1], bytes[i] as int % 16),
{
    if decodes_to(digits, Ok(bytes)) {
        assert forall|i: int| 0 <= i < bytes.len() implies is_hex_code(
            digits[2 * i],
            #[trigger] bytes[i] as int / 16,
        ) && is_hex_code(digits[2 * i + 1], bytes[i] as int % 16) by {
            assert(hex_value(digits[2 * i]) is Some);
            assert(hex_value(digits[2 * i + 1]) is Some);
            lemma_hex_code(digits[2 * i], hex_value(digits[2 * i]).unwrap() as int);
            lemma_hex_code(digits[2 * i + 1], hex_value(digits[2 * i + 1]).unwrap() as int);
        }
    }
    if digits.len() == 2 * bytes.len() && forall|i: int|
        0 <= i < bytes.len() ==> is_hex_code(digits[2 * i], #[trigger] bytes[i] as int / 16)
            && is_hex_code(digits[2 * i + 1], bytes[i] as int % 16) {
        assert forall|k: int| 0 <= k < digits.len() implies hex_value(
            #[trigger] digits[k],
        ) is Some by {
            let i = k / 2;
            assert(k == 2 * i || k == 2 * i + 1);
            assert(is_hex_code(digits[2 * i], bytes[i] as int / 16));
            lemma_hex_code(digits[2 * i], bytes[i] as int / 16);
            lemma_hex_code(digits[2 * i + 1], bytes[i] as int % 16);
        }
        assert forall|i: int| 0 <= i < bytes.len() implies #[trigger] hex_bytes(digits)[i]
            == bytes[i] by {
            assert(is_hex_code(digits[2 * i], bytes[i] as int / 16));
            lemma_hex_code(digits[2 * i], bytes[i] as int / 16);
            lemma_hex_code(digits[2 * i + 1], bytes[i] as int % 16);
        }
        assert(hex_bytes(digits) =~= bytes);
    }
}

#[verifier::rlimit(40)]
proof fn lemma_hex_code(code: u8, value: int)
    ensures
        is_hex_code(code, value) <==> (hex_value(code) matches Some(v) && v == value),
{
}

/// Decoding gives one result only: text is decoded to bytes or refused for one
/// reason.
pub proof fn lemma_decoding_is_a_function(
    digits: Seq<u8>,
    a: Result<Seq<u8>, TagError>,
    b: Result<Seq<u8>, TagError>,
)
    requires
        decodes_to(digits, a),
        decodes_to(digits, b),
    ensures
        a == b,
{
    if let (
        Err(TagError::InvalidHexCharacter { c: _, index: i }),
        Err(TagError::InvalidHexCharacter { c: _, index: j }),
    ) = (a, b) {
        if i < j {
            assert(digits.take(j as int)[i as int] == digits[i as int]);
        } else if j < i {
            assert(digits.take(i as int)[j as int] == digits[j as int]);
        }
    }
}

} // verus!
