//! Hex fields of workload records: an optional `0x` prefix, odd-length input
//! padded with one leading zero nibble, and exact byte lengths per field kind.
use vstd::prelude::*;
use vstd::utf8::is_ascii_chars;

verus! {

broadcast use vstd::string::group_string_axioms;

/// Number of bytes in an account address.
pub const ADDRESS_LEN: usize = 20;

/// Number of bytes in a 256-bit word.
pub const WORD_LEN: usize = 32;

/// Why a field or a record could not be decoded.
#[derive(Debug, Clone, Copy, PartialEq, Eq, Structural)]
pub enum DecodeError {
    /// A character outside `0-9a-fA-F` after the optional prefix.
    InvalidHex,
    /// A fixed-length field decoded to the wrong number of bytes.
    WrongLength { expected: usize, found: usize },
    /// A numeric field decoded to more than 32 bytes.
    NumberTooWide { found: usize },
    /// The record names an operation that does not exist.
    UnknownOperation,
}

/// The byte of an ASCII hex digit, either case.
pub open spec fn is_hex_byte(b: u8) -> bool {
    (48 <= b && b <= 57) || (97 <= b && b <= 102) || (65 <= b && b <= 70)
}

/// A character that is an ASCII hex digit.
pub open spec fn is_hex_char(c: char) -> bool {
    '\0' <= c && c <= '\u{7f}' && is_hex_byte(c as u8)
}

/// The value of a hex digit byte.
pub open spec fn hex_val(b: u8) -> int {
    if 48 <= b && b <= 57 {
        b - 48
    } else if 97 <= b && b <= 102 {
        b - 97 + 10
    } else {
        b - 65 + 10
    }
}

/// Digits that decode as a whole: even in number and all hex digits.
pub open spec fn decodes(d: Seq<u8>) -> bool {
    d.len() % 2 == 0 && forall|i: int| 0 <= i < d.len() ==> #[trigger] is_hex_byte(d[i])
}

/// The bytes that pairs of hex digits stand for, high nibble first.
pub open spec fn hex_pairs(d: Seq<u8>) -> Seq<u8> {
    Seq::new(d.len() / 2, |i: int| (hex_val(d[2 * i]) * 16 + hex_val(d[2 * i + 1])) as u8)
}

/// The bytes of an ASCII string, one per character.
pub open spec fn ascii_of(s: Seq<char>) -> Seq<u8> {
    Seq::new(s.len(), |i: int| s[i] as u8)
}

/// Drops one leading `0x`.
pub open spec fn strip_0x(d: Seq<u8>) -> Seq<u8> {
    if d.len() >= 2 && d[0] == 48 && d[1] == 120 {
        d.subrange(2, d.len() as int)
    } else {
        d
    }
}

/// The hex digits of a field: prefix dropped, odd length padded with `0`.
pub open spec fn hex_digits(s: Seq<char>) -> Seq<u8> {
    let d = strip_0x(ascii_of(s));
    if d.len() % 2 == 1 {
        seq![48u8] + d
    } else {
        d
    }
}

/// The bytes a hex field decodes to, or `None` where it is not hex.
pub open spec fn hex_field(s: Seq<char>) -> Option<Seq<u8>> {
    if is_ascii_chars(s) && decodes(hex_digits(s)) {
        Some(hex_pairs(hex_digits(s)))
    } else {
        None
    }
}

/// A decoded field checked for an exact byte length.
pub open spec fn fixed_field(s: Seq<char>, len: nat) -> Result<Seq<u8>, DecodeError> {
    match hex_field(s) {
        None => Err(DecodeError::InvalidHex),
        Some(b) => if b.len() == len {
            Ok(b)
        } else {
            Err(DecodeError::WrongLength { expected: len as usize, found: b.len() as usize })
        },
    }
}

/// A big-endian number widened to 32 bytes with leading zeros.
pub open spec fn widen(b: Seq<u8>) -> Seq<u8> {
    Seq::new((32 - b.len()) as nat, |i: int| 0u8) + b
}

/// The 32-byte word a numeric field stands for; an empty field is zero.
pub open spec fn numeric_field(s: Seq<char>) -> Result<Seq<u8>, DecodeError> {
    if s.len() == 0 {
        Ok(Seq::new(32, |i: int| 0u8))
    } else {
        match hex_field(s) {
            None => Err(DecodeError::InvalidHex),
            Some(b) => if b.len() <= 32 {
                Ok(widen(b))
            } else {
                Err(DecodeError::NumberTooWide { found: b.len() as usize })
            },
        }
    }
}

/// The bytes a decoding result carries, seen as a sequence.
pub open spec fn view_bytes(r: Result<Vec<u8>, DecodeError>) -> Result<Seq<u8>, DecodeError> {
    match r {
        Ok(v) => Ok(v@),
        Err(e) => Err(e),
    }
}

/// Relies on hex::decode: an even number of hex digits of either case decodes
/// to one byte per pair, high nibble first; anything else is an error.
#[verifier::external_body]
fn decode_pairs(d: &[u8]) -> (r: Result<Vec<u8>, hex::FromHexError>)
    ensures
        r.is_ok() <==> decodes(d@),
        r matches Ok(v) ==> v@ == hex_pairs(d@),
{
    hex::decode(d)
}

#[verifier::external_type_specification]
#[verifier::external_body]
pub struct ExFromHexError(hex::FromHexError);

/// Decodes a hex field: an optional `0x` prefix, then hex digits; an odd
/// number of digits is read as if a `0` stood before them.
pub fn hex_decode(s: &str) -> (r: Result<Vec<u8>, DecodeError>)
    ensures
        r is Ok <==> hex_field(s@) is Some,
        r matches Ok(v) ==> hex_field(s@) == Some(v@),
        r is Err ==> r == Err::<Vec<u8>, DecodeError>(DecodeError::InvalidHex),
{
    if !s.is_ascii() {
        return Err(DecodeError::InvalidHex);
    }
    let bytes = s.as_bytes();
    proof {
        assert(bytes@ =~= ascii_of(s@));
    }
    let n = bytes.len();
    let start: usize = if n >= 2 && bytes[0] == 48 && bytes[1] == 120 {
        2
    } else {
        0
    };
    let ghost stripped = strip_0x(bytes@);
    assert(stripped =~= bytes@.subrange(start as int, n as int));
    let mut digits: Vec<u8> = Vec::new();
    if (n - start) % 2 == 1 {
        digits.push(48u8);
    }
    let ghost lead = digits@;
    let mut i: usize = start;
    while i < n
        invariant
            start <= i <= n,
            n == bytes@.len(),
            digits@ == lead + bytes@.subrange(start as int, i as int),
        decreases n - i,
    {
        digits.push(bytes[i]);
        i = i + 1;
        assert(digits@ =~= lead + bytes@.subrange(start as int, i as int));
    }
    assert(digits@ =~= hex_digits(s@));
    match decode_pairs(digits.as_slice()) {
        Ok(v) => Ok(v),
        Err(_) => Err(DecodeError::InvalidHex),
    }
}

/// Decodes the bytes of a hex field, such as contract code.
pub fn parse_hex(s: &str) -> (r: Result<Vec<u8>, DecodeError>)
    ensures
        r is Ok <==> hex_field(s@) is Some,
        r matches Ok(v) ==> hex_field(s@) == Some(v@),
        r is Err ==> r == Err::<Vec<u8>, DecodeError>(DecodeError::InvalidHex),
{
    hex_decode(s)
}

/// Decodes a 20-byte account address.
pub fn parse_address(s: &str) -> (r: Result<Vec<u8>, DecodeError>)
    ensures
        view_bytes(r) == fixed_field(s@, 20),
{
    fixed_len(s, ADDRESS_LEN)
}

/// Decodes a 32-byte hash or storage slot.
pub fn parse_h256(s: &str) -> (r: Result<Vec<u8>, DecodeError>)
    ensures
        view_bytes(r) == fixed_field(s@, 32),
{
    fixed_len(s, WORD_LEN)
}

fn fixed_len(s: &str, len: usize) -> (r: Result<Vec<u8>, DecodeError>)
    ensures
        view_bytes(r) == fixed_field(s@, len as nat),
{
    match hex_decode(s) {
        Err(e) => Err(e),
        Ok(v) => if v.len() == len {
            Ok(v)
        } else {
            Err(DecodeError::WrongLength { expected: len, found: v.len() })
        },
    }
}

/// Decodes a numeric field as a 32-byte big-endian word; an empty field is
/// zero, and more than 32 significant bytes are refused.
pub fn parse_u256(s: &str) -> (r: Result<Vec<u8>, DecodeError>)
    ensures
        view_bytes(r) == numeric_field(s@),
{
    if s.is_empty() {
        let z: Vec<u8> = zeros(WORD_LEN);
        assert(z@ =~= Seq::new(32, |i: int| 0u8));
        return Ok(z);
    }
    match hex_decode(s) {
        Err(e) => Err(e),
        Ok(v) => {
            if v.len() > WORD_LEN {
                Err(DecodeError::NumberTooWide { found: v.len() })
            } else {
                let mut w: Vec<u8> = zeros(WORD_LEN - v.len());
                let ghost lead = w@;
                let mut i: usize = 0;
                while i < v.len()
                    invariant
                        i <= v@.len(),
                        w@ == lead + v@.subrange(0, i as int),
                    decreases v@.len() - i,
                {
                    w.push(v[i]);
                    i = i + 1;
                    assert(w@ =~= lead + v@.subrange(0, i as int));
                }
                assert(w@ =~= widen(v@));
                Ok(w)
            }
        },
    }
}

/// A vector of `n` zero bytes.
pub fn zeros(n: usize) -> (r: Vec<u8>)
    ensures
        r@ == Seq::new(n as nat, |i: int| 0u8),
{
    let mut r: Vec<u8> = Vec::new();
    while r.len() < n
        invariant
            r@.len() <= n,
            forall|j: int| 0 <= j < r@.len() ==> r@[j] == 0u8,
        decreases n - r@.len(),
    {
        r.push(0u8);
    }
    assert(r@ =~= Seq::new(n as nat, |i: int| 0u8));
    r
}

/// A string of an odd number of hex digits decodes, and to the same bytes as
/// that string with one `0` written before it; the same holds after a `0x`
/// prefix.
pub proof fn lemma_odd_length_pads(d: Seq<char>)
    requires
        d.len() % 2 == 1,
        forall|i: int| 0 <= i < d.len() ==> #[trigger] is_hex_char(d[i]),
    ensures
        hex_field(d) is Some,
        hex_field(d) == hex_field(seq!['0'] + d),
        hex_field(seq!['0', 'x'] + d) == hex_field(seq!['0', 'x', '0'] + d),
{
    let a = ascii_of(d);
    let z = seq!['0'] + d;
    let p = seq!['0', 'x'] + d;
    let pz = seq!['0', 'x', '0'] + d;
    assert forall|i: int| 0 <= i < d.len() implies '\0' <= #[trigger] d[i] <= '\u{7f}' by {
        assert(is_hex_char(d[i]));
    }
    assert forall|i: int| 0 <= i < a.len() implies #[trigger] is_hex_byte(a[i]) by {
        assert(is_hex_char(d[i]));
    }
    assert(is_ascii_chars(d));
    assert(is_ascii_chars(z));
    assert(is_ascii_chars(p));
    assert(is_ascii_chars(pz));
    if a.len() >= 2 {
        assert(is_hex_char(d[1]));
        assert(a[1] != 120u8);
    }
    assert(strip_0x(a) == a);
    assert(hex_digits(d) =~= seq![48u8] + a);
    assert(ascii_of(z) =~= seq![48u8] + a);
    assert(is_hex_char(d[0]));
    assert(ascii_of(z)[1] == d[0] as u8);
    assert(strip_0x(ascii_of(z)) == ascii_of(z));
    assert(hex_digits(z) =~= seq![48u8] + a);
    assert(strip_0x(ascii_of(p)) =~= a);
    assert(hex_digits(p) =~= seq![48u8] + a);
    assert(strip_0x(ascii_of(pz)) =~= seq![48u8] + a);
    assert(hex_digits(pz) =~= seq![48u8] + a);
    let pa = seq![48u8] + a;
    assert forall|i: int| 0 <= i < pa.len() implies #[trigger] is_hex_byte(pa[i]) by {
        if i > 0 {
            assert(pa[i] == a[i - 1]);
        }
    }
    assert(decodes(pa));
}

/// An empty numeric field decodes to the zero word.
pub proof fn lemma_empty_numeric_is_zero()
    ensures
        numeric_field(Seq::empty()) == Ok::<Seq<u8>, DecodeError>(Seq::new(32, |i: int| 0u8)),
{
}

} // verus!
