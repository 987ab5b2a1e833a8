//! Decoding of a separator specification into the bytes that follow each match.
//!
//! A specification that starts with `\x` or `\X` is read after that prefix
//! in units of two bytes: a pair of hexadecimal digits stands for one byte,
//! and a further `\x` or `\X` marker stands for none, so that `\x00\x1e`
//! and `\x001e` both give the bytes 0x00 and 0x1e. Any other specification
//! stands for its own UTF-8 bytes.

use vstd::prelude::*;
use vstd::utf8::encode_utf8;

verus! {

/// Why a separator specification was refused.
#[derive(Debug, Clone, Copy, PartialEq, Eq)]
pub enum SeparatorError {
    /// The text after the prefix has an odd number of bytes.
    OddLength,
    /// The unit that starts at this byte offset of the specification is
    /// neither two hexadecimal digits nor a `\x` or `\X` marker.
    InvalidHexByte { offset: usize },
}

/// The specification starts with `\x` or `\X`.
pub open spec fn has_hex_prefix(s: Seq<u8>) -> bool {
    &&& s.len() >= 2
    &&& s[0] == 0x5cu8
    &&& (s[1] == 0x78u8 || s[1] == 0x58u8)
}

pub open spec fn is_hex_digit(b: u8) -> bool {
    ||| 0x30u8 <= b <= 0x39u8
    ||| 0x61u8 <= b <= 0x66u8
    ||| 0x41u8 <= b <= 0x46u8
}

/// The value of a hexadecimal digit, in either case.
pub open spec fn hex_digit_value(b: u8) -> int {
    if 0x30u8 <= b <= 0x39u8 {
        b - 0x30
    } else if 0x61u8 <= b <= 0x66u8 {
        b - 0x61 + 10
    } else {
        b - 0x41 + 10
    }
}

/// Unit `k` of `h` (its bytes `2k` and `2k + 1`) is a further `\x` or `\X`
/// marker, which stands for no byte.
pub open spec fn unit_is_marker(h: Seq<u8>, k: int) -> bool {
    h[2 * k] == 0x5cu8 && (h[2 * k + 1] == 0x78u8 || h[2 * k + 1] == 0x58u8)
}

/// Unit `k` of `h` is two hexadecimal digits.
pub open spec fn unit_is_hex(h: Seq<u8>, k: int) -> bool {
    is_hex_digit(h[2 * k]) && is_hex_digit(h[2 * k + 1])
}

pub open spec fn unit_is_valid(h: Seq<u8>, k: int) -> bool {
    unit_is_marker(h, k) || unit_is_hex(h, k)
}

/// The byte that the digit pair at unit `k` of `h` stands for, high digit first.
pub open spec fn unit_value(h: Seq<u8>, k: int) -> u8 {
    (16 * hex_digit_value(h[2 * k]) + hex_digit_value(h[2 * k + 1])) as u8
}

/// The bytes that the first `n` units of `h` stand for: one for each digit
/// pair, none for each marker.
pub open spec fn decode_units(h: Seq<u8>, n: nat) -> Seq<u8>
    decreases n,
{
    if n == 0 {
        seq![]
    } else {
        decode_units(h, (n - 1) as nat) + if unit_is_marker(h, n - 1) {
            seq![]
        } else {
            seq![unit_value(h, n - 1)]
        }
    }
}

/// Every unit of the even-length text `h` is a marker or a digit pair.
pub open spec fn all_units_valid(h: Seq<u8>) -> bool {
    forall|k: int| 0 <= k < h.len() / 2 ==> #[trigger] unit_is_valid(h, k)
}

/// Unit `k` is the first unit of `h` that is neither a marker nor a digit pair.
pub open spec fn first_bad_unit(h: Seq<u8>, k: int) -> bool {
    &&& 0 <= k < h.len() / 2
    &&& !unit_is_valid(h, k)
    &&& forall|j: int| 0 <= j < k ==> #[trigger] unit_is_valid(h, j)
}

/// The index of the first unit of `h` that is neither a marker nor a digit pair.
pub open spec fn bad_unit_index(h: Seq<u8>) -> int {
    choose|k: int| first_bad_unit(h, k)
}

/// What the specification with UTF-8 bytes `s` decodes to.
pub open spec fn separator_spec(s: Seq<u8>) -> Result<Seq<u8>, SeparatorError> {
    if !has_hex_prefix(s) {
        Ok(s)
    } else {
        let h = s.subrange(2, s.len() as int);
        if h.len() % 2 != 0 {
            Err(SeparatorError::OddLength)
        } else if all_units_valid(h) {
            Ok(decode_units(h, h.len() / 2))
        } else {
            Err(SeparatorError::InvalidHexByte { offset: (2 + 2 * bad_unit_index(h)) as usize })
        }
    }
}

fn hex_digit(b: u8) -> (r: Option<u8>)
    ensures
        r is Some <==> is_hex_digit(b),
        r is Some ==> r->0 == hex_digit_value(b),
{
    if 0x30u8 <= b && b <= 0x39u8 {
        Some(b - 0x30u8)
    } else if 0x61u8 <= b && b <= 0x66u8 {
        Some(b - 0x61u8 + 10)
    } else if 0x41u8 <= b && b <= 0x46u8 {
        Some(b - 0x41u8 + 10)
    } else {
        None
    }
}

/// Decodes a separator specification.
///
/// With a `\x` or `\X` prefix the rest must have even length and consist of
/// units of two hexadecimal digits, each giving one byte, and of further
/// `\x` or `\X` markers; otherwise the result is the specification's own
/// bytes.
pub fn parse_separator(input: &str) -> (r: Result<Vec<u8>, SeparatorError>)
    ensures
        r matches Ok(v) ==> separator_spec(encode_utf8(input@)) == Ok::<Seq<u8>, SeparatorError>(v@),
        r matches Err(e) ==> separator_spec(encode_utf8(input@)) == Err::<Seq<u8>, SeparatorError>(e),
{
    let s = input.as_bytes();
    let n = s.len();
    if !(n >= 2 && s[0] == 0x5cu8 && (s[1] == 0x78u8 || s[1] == 0x58u8)) {
        let mut out: Vec<u8> = Vec::new();
        let mut i: usize = 0;
        while i < n
            invariant
                n == s@.len(),
                i <= n,
                out@ == s@.subrange(0, i as int),
            decreases n - i,
        {
            out.push(s[i]);
            i = i + 1;
            assert(out@ =~= s@.subrange(0, i as int));
        }
        assert(s@.subrange(0, n as int) =~= s@);
        return Ok(out);
    }
    let ghost h = s@.subrange(2, n as int);
    if (n - 2) % 2 != 0 {
        return Err(SeparatorError::OddLength);
    }
    let mut out: Vec<u8> = Vec::new();
    let mut i: usize = 2;
    while i < n
        invariant
            n == s@.len(),
            s@ == encode_utf8(input@),
            h == s@.subrange(2, n as int),
            has_hex_prefix(s@),
            2 <= i <= n,
            i % 2 == 0,
            n % 2 == 0,
            forall|k: int| 0 <= k < (i - 2) / 2 ==> #[trigger] unit_is_valid(h, k),
            out@ == decode_units(h, ((i - 2) / 2) as nat),
        decreases n - i,
    {
        let k: usize = (i - 2) / 2;
        assert(h[2 * k] == s@[i as int] && h[2 * k + 1] == s@[i + 1]);
        if s[i] == 0x5cu8 && (s[i + 1] == 0x78u8 || s[i + 1] == 0x58u8) {
            i = i + 2;
        } else {
            let hi = hex_digit(s[i]);
            let lo = hex_digit(s[i + 1]);
            match (hi, lo) {
                (Some(a), Some(b)) => {
                    out.push(16 * a + b);
                    i = i + 2;
                },
                _ => {
                    assert(first_bad_unit(h, k as int));
                    let ghost c = bad_unit_index(h);
                    assert(c == k) by {
                        if c < k {
                            assert(unit_is_valid(h, c));
                        } else if c > k {
                            assert(unit_is_valid(h, k as int));
                        }
                    }
                    assert(!all_units_valid(h));
                    assert(2 + 2 * c == i);
                    return Err(SeparatorError::InvalidHexByte { offset: i });
                },
            }
        }
    }
    Ok(out)
}

} // verus!
