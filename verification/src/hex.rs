//! Hexadecimal strings to bytes, as EXT-X-KEY IV attributes are written.

use vstd::prelude::*;
use vstd::string::is_ascii;
use vstd::utf8::is_ascii_chars;
use vstd::string::StringSliceAdditionalSpecFns;
use crate::text::chars_of;

verus! {

/// Why a string is not a hex byte string.
#[derive(Debug, Clone, Copy, PartialEq, Eq, Structural)]
pub enum HexError {
    /// The string holds an odd number of bytes.
    OddLength,
    /// Some two-byte chunk is not a hexadecimal byte.
    InvalidDigit,
}

/// The value of a hexadecimal digit (`char::to_digit(16)`).
pub open spec fn hex_digit(c: char) -> Option<nat> {
    if '0' <= c && c <= '9' {
        Some(((c as u32) - ('0' as u32)) as nat)
    } else if 'a' <= c && c <= 'f' {
        Some(((c as u32) - ('a' as u32) + 10) as nat)
    } else if 'A' <= c && c <= 'F' {
        Some(((c as u32) - ('A' as u32) + 10) as nat)
    } else {
        None
    }
}

/// What `u8::from_str_radix(chunk, 16)` gives for a two-character chunk:
/// a leading `+` is a sign, so `+x` reads as the single digit `x`.
pub open spec fn hex_pair(c0: char, c1: char) -> Option<u8> {
    if c0 == '+' {
        match hex_digit(c1) {
            Some(d) => Some(d as u8),
            None => None,
        }
    } else {
        match (hex_digit(c0), hex_digit(c1)) {
            (Some(a), Some(b)) => Some((a * 16 + b) as u8),
            _ => None,
        }
    }
}

/// The byte that the `k`-th two-character chunk of `s` reads as.
pub open spec fn pair_at(s: Seq<char>, k: int) -> Option<u8> {
    hex_pair(s[2 * k], s[2 * k + 1])
}

/// The bytes that an even-length run of hex chunks stands for, if every
/// chunk is a hexadecimal byte.
pub open spec fn hex_decode(s: Seq<char>) -> Option<Seq<u8>> {
    if s.len() % 2 == 0 && (forall|k: int| 0 <= k < s.len() / 2 ==> (#[trigger] pair_at(s, k)) is Some) {
        Some(Seq::new(s.len() / 2, |k: int| pair_at(s, k)->0))
    } else {
        None
    }
}

/// What `hex_to_bytes(s).ok()` gives: the bytes of an ASCII string of hex
/// chunks; nothing for any other string.
pub open spec fn hex_bytes(s: Seq<char>) -> Option<Seq<u8>> {
    if is_ascii_chars(s) {
        hex_decode(s)
    } else {
        None
    }
}

/// The lower-case hexadecimal digit for `n < 16`.
pub open spec fn hex_char(n: nat) -> char {
    if n < 10 {
        ((n + ('0' as u32)) as u32) as char
    } else {
        ((n - 10 + ('a' as u32)) as u32) as char
    }
}

/// Two lower-case hex digits per byte.
pub open spec fn hex_encode(b: Seq<u8>) -> Seq<char> {
    Seq::new(
        2 * b.len(),
        |i: int|
            if i % 2 == 0 {
                hex_char((b[i / 2] / 16) as nat)
            } else {
                hex_char((b[i / 2] % 16) as nat)
            },
    )
}

/// Law: writing bytes as hex digits and reading them back gives the same
/// bytes.
pub proof fn lemma_hex_roundtrip(b: Seq<u8>)
    ensures
        hex_decode(hex_encode(b)) == Some(b),
{
    let s = hex_encode(b);
    assert forall|k: int| 0 <= k < s.len() / 2 implies (#[trigger] pair_at(s, k)) == Some(b[k]) by {
        assert((2 * k) / 2 == k);
        assert((2 * k + 1) / 2 == k);
        assert((2 * k) % 2 == 0);
        assert((2 * k + 1) % 2 == 1);
        let hi = (b[k] / 16) as nat;
        let lo = (b[k] % 16) as nat;
        assert(hex_digit(hex_char(hi)) == Some(hi));
        assert(hex_digit(hex_char(lo)) == Some(lo));
        assert(hi * 16 + lo == b[k]);
    }
    assert(hex_decode(s).unwrap() =~= b);
}

/// The upper-case hexadecimal digit for `n < 16`.
pub open spec fn hex_char_upper(n: nat) -> char {
    if n < 10 {
        ((n + ('0' as u32)) as u32) as char
    } else {
        ((n - 10 + ('A' as u32)) as u32) as char
    }
}

/// Two upper-case hex digits per byte, as an `IV=0X...` attribute may
/// write them.
pub open spec fn hex_encode_upper(b: Seq<u8>) -> Seq<char> {
    Seq::new(
        2 * b.len(),
        |i: int|
            if i % 2 == 0 {
                hex_char_upper((b[i / 2] / 16) as nat)
            } else {
                hex_char_upper((b[i / 2] % 16) as nat)
            },
    )
}

/// Law: bytes written as upper-case hex digits read back as the same
/// bytes, just as with lower-case digits.
pub proof fn lemma_hex_roundtrip_upper(b: Seq<u8>)
    ensures
        hex_decode(hex_encode_upper(b)) == Some(b),
{
    let s = hex_encode_upper(b);
    assert forall|k: int| 0 <= k < s.len() / 2 implies (#[trigger] pair_at(s, k)) == Some(b[k]) by {
        assert((2 * k) / 2 == k);
        assert((2 * k + 1) / 2 == k);
        assert((2 * k) % 2 == 0);
        assert((2 * k + 1) % 2 == 1);
        let hi = (b[k] / 16) as nat;
        let lo = (b[k] % 16) as nat;
        assert(hex_digit(hex_char_upper(hi)) == Some(hi));
        assert(hex_digit(hex_char_upper(lo)) == Some(lo));
        assert(hi * 16 + lo == b[k]);
    }
    assert(hex_decode(s).unwrap() =~= b);
}

/// An ASCII letter in lower case; every other character as it is.
pub open spec fn ascii_lower(c: char) -> char {
    if 'A' <= c && c <= 'Z' {
        ((c as u32) + 32) as char
    } else {
        c
    }
}

/// Law: a hex digit has the same value in either case; `A` to `F` are
/// worth 10 to 15 like `a` to `f`.
pub proof fn lemma_hex_digit_case(c: char)
    ensures
        hex_digit(ascii_lower(c)) == hex_digit(c),
        'A' <= c && c <= 'F' ==> hex_digit(c) == Some(((c as u32) - ('A' as u32) + 10) as nat),
{
}

/// Law: reading hex is blind to case: a string and its lower-case form
/// give the same bytes, or are refused alike.
pub proof fn lemma_hex_decode_case(s: Seq<char>)
    ensures
        hex_decode(s.map_values(|c: char| ascii_lower(c))) == hex_decode(s),
{
    let t = s.map_values(|c: char| ascii_lower(c));
    assert forall|k: int| 0 <= k < s.len() / 2 implies (#[trigger] pair_at(t, k)) == pair_at(s, k) by {
        lemma_hex_digit_case(s[2 * k]);
        lemma_hex_digit_case(s[2 * k + 1]);
        assert(t[2 * k] == ascii_lower(s[2 * k]));
        assert(t[2 * k + 1] == ascii_lower(s[2 * k + 1]));
    }
    assert(t.len() == s.len());
    if hex_decode(s) is Some {
        assert forall|k: int| 0 <= k < t.len() / 2 implies (#[trigger] pair_at(t, k)) is Some by {
            assert(pair_at(s, k) is Some);
        }
        assert(hex_decode(t).unwrap() =~= hex_decode(s).unwrap());
    } else if s.len() % 2 == 0 {
        let k = choose|k: int| 0 <= k < s.len() / 2 && !((#[trigger] pair_at(s, k)) is Some);
        assert(pair_at(t, k) is None);
    }
}

/// The value of a hex digit, if it is one.
fn hex_digit_exec(c: char) -> (r: Option<u8>)
    ensures
        match r {
            Some(d) => hex_digit(c) == Some(d as nat) && d < 16,
            None => hex_digit(c) is None,
        },
{
    if '0' <= c && c <= '9' {
        Some((c as u32 - '0' as u32) as u8)
    } else if 'a' <= c && c <= 'f' {
        Some((c as u32 - 'a' as u32 + 10) as u8)
    } else if 'A' <= c && c <= 'F' {
        Some((c as u32 - 'A' as u32 + 10) as u8)
    } else {
        None
    }
}

/// One two-character chunk read as a base-16 `u8`.
fn hex_pair_exec(c0: char, c1: char) -> (r: Option<u8>)
    ensures
        r == hex_pair(c0, c1),
{
    if c0 == '+' {
        hex_digit_exec(c1)
    } else {
        match (hex_digit_exec(c0), hex_digit_exec(c1)) {
            (Some(a), Some(b)) => Some(a * 16 + b),
            _ => None,
        }
    }
}

/// Converts a hexadecimal string to bytes, two characters per byte:
/// `"0011ff"` gives `[0x00, 0x11, 0xff]`.
///
/// A string of odd byte length is refused first; then each two-byte chunk
/// must be a base-16 `u8` as `u8::from_str_radix` reads it. A string that
/// is not ASCII has some chunk holding a non-ASCII byte, which no such
/// chunk does, so it is refused as an invalid digit.
pub fn hex_to_bytes(s: &str) -> (r: Result<Vec<u8>, HexError>)
    ensures
        s.len() % 2 == 1 ==> r == Err::<Vec<u8>, HexError>(HexError::OddLength),
        s.len() % 2 == 0 && !is_ascii(s) ==> r == Err::<Vec<u8>, HexError>(
            HexError::InvalidDigit,
        ),
        s.len() % 2 == 0 && is_ascii(s) ==> match hex_decode(s@) {
            Some(b) => r matches Ok(v) && v@ == b,
            None => r == Err::<Vec<u8>, HexError>(HexError::InvalidDigit),
        },
        match hex_bytes(s@) {
            Some(b) => r matches Ok(v) && v@ == b,
            None => r is Err,
        },
{
    let cs = chars_of(s);
    if s.is_ascii() {
        assert(s@.len() == s.spec_bytes().len());
        assert(s.spec_bytes().len() == cs.len());
        assert(s.len() == cs.len());
    }
    if s.len() % 2 != 0 {
        return Err(HexError::OddLength);
    }
    if !s.is_ascii() {
        return Err(HexError::InvalidDigit);
    }
    let n = cs.len() / 2;
    let mut out: Vec<u8> = Vec::new();
    let mut k: usize = 0;
    while k < n
        invariant
            cs@ == s@,
            s.len() == cs.len(),
            n == cs@.len() / 2,
            cs@.len() % 2 == 0,
            k <= n,
            out@.len() == k,
            forall|j: int| 0 <= j < k ==> (#[trigger] pair_at(s@, j)) == Some(out@[j]),
        decreases n - k,
    {
        match hex_pair_exec(cs[2 * k], cs[2 * k + 1]) {
            Some(b) => {
                out.push(b);
            },
            None => {
                assert(pair_at(s@, k as int) is None);
                return Err(HexError::InvalidDigit);
            },
        }
        k += 1;
    }
    assert(hex_decode(s@).unwrap() =~= out@);
    Ok(out)
}

} // verus!
