//! Hex text encoding and decoding, as used for subscriber signing keys: the
//! exact meaning is pinned down by spec functions, and the work is done by
//! the `hex` crate behind trusted wrappers.

use vstd::prelude::*;

verus! {

/// Error from decoding hex text, mirroring the failure cases of
/// `hex::FromHexError`.
#[derive(Clone, Copy, PartialEq, Eq, Structural, Debug)]
pub enum HexError {
    InvalidChar,
    OddLength,
    InvalidLength,
}

/// `b` is the ASCII code of a hex digit.
pub open spec fn is_hex_digit(b: u8) -> bool {
    (48 <= b <= 57) || (97 <= b <= 102) || (65 <= b <= 70)
}

/// The value of the hex digit with ASCII code `b`.
pub open spec fn hex_digit_val(b: u8) -> u8
    recommends
        is_hex_digit(b),
{
    if 48 <= b <= 57 {
        (b - 48) as u8
    } else if 97 <= b <= 102 {
        (b - 87) as u8
    } else {
        (b - 55) as u8
    }
}

/// `s` is a decodable hex text: even length, hex digits only.
pub open spec fn hex_valid(s: Seq<u8>) -> bool {
    s.len() % 2 == 0 && forall|i: int| 0 <= i < s.len() ==> is_hex_digit(#[trigger] s[i])
}

/// The bytes encoded by the hex text `s`: one byte per digit pair.
pub open spec fn hex_bytes(s: Seq<u8>) -> Seq<u8>
    recommends
        hex_valid(s),
{
    Seq::new(
        (s.len() / 2) as nat,
        |i: int| (hex_digit_val(s[2 * i]) * 16 + hex_digit_val(s[2 * i + 1])) as u8,
    )
}

/// The lowercase hex digit for a value below 16.
pub open spec fn hex_char_of(v: u8) -> char
    recommends
        v < 16,
{
    if v == 0 {
        '0'
    } else if v == 1 {
        '1'
    } else if v == 2 {
        '2'
    } else if v == 3 {
        '3'
    } else if v == 4 {
        '4'
    } else if v == 5 {
        '5'
    } else if v == 6 {
        '6'
    } else if v == 7 {
        '7'
    } else if v == 8 {
        '8'
    } else if v == 9 {
        '9'
    } else if v == 10 {
        'a'
    } else if v == 11 {
        'b'
    } else if v == 12 {
        'c'
    } else if v == 13 {
        'd'
    } else if v == 14 {
        'e'
    } else {
        'f'
    }
}

/// The lowercase hex text for the bytes `s`: two digits per byte, high
/// nibble first.
pub open spec fn hex_of(s: Seq<u8>) -> Seq<char> {
    Seq::new(
        (2 * s.len()) as nat,
        |i: int|
            if i % 2 == 0 {
                hex_char_of(s[i / 2] / 16)
            } else {
                hex_char_of((s[i / 2] % 16) as u8)
            },
    )
}

/// Relies on `hex::decode`: an even-length text of hex digits decodes to one
/// byte per digit pair; an odd-length text fails with `OddLength` before any
/// digit is checked, and any other invalid text fails with `InvalidChar`.
#[verifier::external_body]
pub fn hex_decode(data: &[u8]) -> (r: Result<Vec<u8>, HexError>)
    ensures
        match r {
            Ok(v) => hex_valid(data@) && v@ == hex_bytes(data@),
            Err(e) => {
                &&& !hex_valid(data@)
                &&& (e == HexError::OddLength <==> data@.len() % 2 != 0)
                &&& e != HexError::InvalidLength
            },
        },
{
    match hex::decode(data) {
        Ok(v) => Ok(v),
        Err(hex::FromHexError::InvalidHexCharacter { .. }) => Err(HexError::InvalidChar),
        Err(hex::FromHexError::OddLength) => Err(HexError::OddLength),
        Err(hex::FromHexError::InvalidStringLength) => Err(HexError::InvalidLength),
    }
}

/// Relies on `hex::encode`: two lowercase hex digits per input byte, high
/// nibble first.
#[verifier::external_body]
pub fn hex_encode(data: &[u8]) -> (r: String)
    ensures
        r@ == hex_of(data@),
{
    hex::encode(data)
}


/// The decimal digits of `n`, most significant first, without sign.
pub open spec fn decimal_digits(n: nat) -> Seq<u8>
    decreases n,
{
    if n < 10 {
        seq![(48 + n) as u8]
    } else {
        decimal_digits(n / 10).push((48 + n % 10) as u8)
    }
}

/// The decimal text of `n`: a minus sign for a negative value, then the
/// digits of its magnitude.
pub open spec fn decimal_of(n: int) -> Seq<u8> {
    if n < 0 {
        seq![45u8] + decimal_digits((-n) as nat)
    } else {
        decimal_digits(n as nat)
    }
}

/// Formats `n` as decimal text, as the signed payload's timestamp needs.
pub fn decimal_i64(n: i64) -> (r: Vec<u8>)
    ensures
        r@ == decimal_of(n as int),
{
    let negative = n < 0;
    let mag: u64 = if n < 0 {
        (-(n as i128)) as u64
    } else {
        n as u64
    };
    let mut digits: Vec<u8> = Vec::new();
    let mut m: u64 = mag;
    loop
        invariant_except_break
            digits@.len() == 0 ==> m == mag,
            digits@.len() > 0 ==> m > 0,
            digits@.len() > 0 ==> decimal_digits(mag as nat) == (if m == 0 {
                digits@.reverse()
            } else {
                decimal_digits(m as nat) + digits@.reverse()
            }),
        ensures
            decimal_digits(mag as nat) == digits@.reverse(),
        decreases m,
    {
        let ghost pre = digits@;
        let d: u8 = 48 + (m % 10) as u8;
        digits.push(d);
        proof {
            assert(digits@.reverse() =~= seq![d] + pre.reverse());
            if pre.len() == 0 {
                assert(digits@.reverse() =~= seq![d]);
            }
        }
        let m2 = m / 10;
        proof {
            if m >= 10 {
                assert(decimal_digits(m as nat) == decimal_digits((m as nat) / 10).push(
                    (48 + (m as nat) % 10) as u8,
                ));
                assert(decimal_digits(m2 as nat).push(d) + pre.reverse() =~= decimal_digits(
                    m2 as nat,
                ) + (seq![d] + pre.reverse()));
                if pre.len() == 0 {
                    assert(decimal_digits(mag as nat) =~= decimal_digits(m2 as nat)
                        + digits@.reverse());
                }
            } else {
                assert(decimal_digits(m as nat) =~= seq![d]);
                if pre.len() == 0 {
                    assert(decimal_digits(mag as nat) == decimal_digits(m as nat));
                }
                assert(decimal_digits(mag as nat) == digits@.reverse());
            }
            if m >= 10 {
                assert(m2 >= 1) by (nonlinear_arith)
                    requires
                        m2 == m / 10,
                        m >= 10,
                ;
            }
        }
        m = m2;
        if m == 0 {
            break ;
        }
    }
    let mut out: Vec<u8> = Vec::new();
    if negative {
        out.push(45);
    }
    let ghost head: Seq<u8> = if negative {
        seq![45u8]
    } else {
        Seq::<u8>::empty()
    };
    proof {
        assert(out@ =~= head);
    }
    let total = digits.len();
    let mut i: usize = 0;
    while i < total
        invariant
            total == digits@.len(),
            i <= total,
            out@ == head + digits@.reverse().take(i as int),
        decreases total - i,
    {
        out.push(digits[total - 1 - i]);
        proof {
            assert(digits@.reverse()[i as int] == digits@[total - 1 - i]);
            assert(out@ =~= head + digits@.reverse().take(i + 1));
        }
        i += 1;
    }
    proof {
        assert(digits@.reverse().take(total as int) =~= digits@.reverse());
        if negative {
            assert(mag as nat == (-(n as int)) as nat);
            assert(out@ =~= seq![45u8] + decimal_digits((-(n as int)) as nat));
        } else {
            assert(mag as nat == n as nat);
            assert(out@ =~= decimal_digits(n as nat));
        }
    }
    out
}

} // verus!
