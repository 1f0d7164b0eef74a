//! Hexadecimal text: lowercase encoding and case-insensitive decoding,
//! as the `hex` crate does them.

use vstd::prelude::*;
use vstd::string::StringSliceAdditionalSpecFns;
use vstd::utf8::encode_utf8;

verus! {

/// Why a hex string was refused.
#[derive(Clone, Copy, Debug, PartialEq, Eq)]
pub enum HexError {
    /// A byte that is no hex digit, at the given byte position.
    InvalidHexCharacter { c: char, index: usize },
    /// An odd number of digits.
    OddLength,
    /// The decoded value has the wrong number of bytes.
    InvalidStringLength,
}

/// The lowercase hex digit for `v` in `0..16`.
pub open spec fn hex_digit(v: int) -> char {
    if v < 10 {
        (48 + v) as char
    } else {
        (87 + v) as char
    }
}

/// Two lowercase hex digits per byte, high nibble first.
pub open spec fn hex_lower(bytes: Seq<u8>) -> Seq<char> {
    Seq::new(
        2 * bytes.len(),
        |i: int|
            if i % 2 == 0 {
                hex_digit((bytes[i / 2] / 16) as int)
            } else {
                hex_digit((bytes[i / 2] % 16) as int)
            },
    )
}

/// The value of a hex digit of either case.
pub open spec fn nibble(b: u8) -> Option<int> {
    if 48 <= b <= 57 {
        Some(b - 48)
    } else if 65 <= b <= 70 {
        Some(b - 55)
    } else if 97 <= b <= 102 {
        Some(b - 87)
    } else {
        None
    }
}

/// Position of the first byte from `i` on that is no hex digit (the length
/// when there is none).
pub open spec fn first_non_hex(bytes: Seq<u8>, i: int) -> int
    decreases bytes.len() - i,
{
    if i >= bytes.len() || i < 0 {
        bytes.len() as int
    } else if nibble(bytes[i]) is None {
        i
    } else {
        first_non_hex(bytes, i + 1)
    }
}

/// What decoding the bytes of a hex string gives: an odd length is refused
/// first, then the first byte that is no hex digit.
pub open spec fn hex_decoded(bytes: Seq<u8>) -> Result<Seq<u8>, HexError> {
    let j = first_non_hex(bytes, 0);
    if bytes.len() % 2 != 0 {
        Err(HexError::OddLength)
    } else if j < bytes.len() {
        Err(HexError::InvalidHexCharacter { c: bytes[j] as char, index: j as usize })
    } else {
        Ok(
            Seq::new(
                bytes.len() / 2,
                |i: int| (16 * nibble(bytes[2 * i]).unwrap() + nibble(bytes[2 * i + 1]).unwrap()) as u8,
            ),
        )
    }
}

/// Wraps `hex::encode`: two lowercase hex digits per byte.
#[verifier::external_body]
pub(crate) fn hex_encode(bytes: &[u8]) -> (s: String)
    ensures
        s@ == hex_lower(bytes@),
{
    hex::encode(bytes)
}

/// Wraps `hex::decode` on the bytes of `s`: refuses an odd length, then the
/// first byte that is no hex digit of either case; otherwise one byte per
/// two digits, high nibble first.
#[verifier::external_body]
pub(crate) fn hex_decode(s: &str) -> (r: Result<Vec<u8>, HexError>)
    ensures
        match r {
            Ok(v) => hex_decoded(s.spec_bytes()) == Ok::<Seq<u8>, HexError>(v@),
            Err(e) => hex_decoded(s.spec_bytes()) == Err::<Seq<u8>, HexError>(e),
        },
{
    match hex::decode(s) {
        Ok(v) => Ok(v),
        Err(hex::FromHexError::InvalidHexCharacter { c, index }) => Err(
            HexError::InvalidHexCharacter { c, index },
        ),
        Err(hex::FromHexError::OddLength) => Err(HexError::OddLength),
        Err(hex::FromHexError::InvalidStringLength) => Err(HexError::InvalidStringLength),
    }
}

/// Lowercase hex text is ASCII.
pub proof fn lemma_hex_lower_ascii(bytes: Seq<u8>)
    ensures
        vstd::utf8::is_ascii_chars(hex_lower(bytes)),
        encode_utf8(hex_lower(bytes)).len() == hex_lower(bytes).len(),
        forall|i: int|
            0 <= i < hex_lower(bytes).len() ==> #[trigger] encode_utf8(hex_lower(bytes))[i]
                == hex_lower(bytes)[i] as u8,
{
    let h = hex_lower(bytes);
    assert forall|i: int| 0 <= i < h.len() implies '\0' <= #[trigger] h[i] <= '\u{7f}' by {
        let v = if i % 2 == 0 {
            bytes[i / 2] / 16
        } else {
            bytes[i / 2] % 16
        };
        assert(0 <= v < 16);
    }
    vstd::utf8::is_ascii_chars_encode_utf8(h);
}

/// Decoding lowercase hex text gives back the bytes.
pub proof fn lemma_hex_roundtrip(bytes: Seq<u8>)
    ensures
        hex_decoded(encode_utf8(hex_lower(bytes))) == Ok::<Seq<u8>, HexError>(bytes),
{
    let h = hex_lower(bytes);
    lemma_hex_lower_ascii(bytes);
    let e = encode_utf8(h);
    assert forall|i: int| 0 <= i < e.len() implies #[trigger] nibble(e[i]) == Some(
        if i % 2 == 0 {
            bytes[i / 2] / 16
        } else {
            bytes[i / 2] % 16
        } as int,
    ) by {
        assert(e[i] == h[i] as u8);
    }
    assert forall|i: int| 0 <= i <= e.len() implies first_non_hex(e, i) == e.len() by {
        lemma_first_non_hex_all(e, i);
    }
    assert(first_non_hex(e, 0) == e.len());
    let d = Seq::new(
        e.len() / 2,
        |i: int| (16 * nibble(e[2 * i]).unwrap() + nibble(e[2 * i + 1]).unwrap()) as u8,
    );
    assert forall|i: int| 0 <= i < bytes.len() implies d[i] == bytes[i] by {
        assert(nibble(e[2 * i]) == Some((bytes[i] / 16) as int));
        assert(nibble(e[2 * i + 1]) == Some((bytes[i] % 16) as int));
    }
    assert(d =~= bytes);
}

/// Where every byte from `i` on is a hex digit, none is found.
proof fn lemma_first_non_hex_all(e: Seq<u8>, i: int)
    requires
        0 <= i <= e.len(),
        forall|j: int| 0 <= j < e.len() ==> #[trigger] nibble(e[j]) is Some,
    ensures
        first_non_hex(e, i) == e.len(),
    decreases e.len() - i,
{
    if i < e.len() {
        assert(nibble(e[i]) is Some);
        lemma_first_non_hex_all(e, i + 1);
    }
}

/// `a` and `b` hold the same text.
pub fn str_eq(a: &str, b: &str) -> (r: bool)
    ensures
        r == (a@ == b@),
{
    let x = a.as_bytes();
    let y = b.as_bytes();
    proof {
        vstd::utf8::encode_utf8_decode_utf8(a@);
        vstd::utf8::encode_utf8_decode_utf8(b@);
    }
    if x.len() != y.len() {
        return false;
    }
    let mut i: usize = 0;
    while i < x.len()
        invariant
            x@ == a.spec_bytes(),
            y@ == b.spec_bytes(),
            x@.len() == y@.len(),
            i <= x@.len(),
            forall|j: int| 0 <= j < i ==> x@[j] == y@[j],
        decreases x@.len() - i,
    {
        if x[i] != y[i] {
            return false;
        }
        i = i + 1;
    }
    assert(x@ =~= y@);
    true
}

} // verus!
