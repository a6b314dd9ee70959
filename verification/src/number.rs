//! Decimal text and machine integers.
//!
//! The encoder writes machine integers as decimal text; the decoder reads a
//! number literal and picks the narrowest machine integer that holds it
//! exactly. Both directions are stated over the same notion of the value of a
//! run of decimal digits.

use vstd::prelude::*;
use vstd::string::*;

verus! {

/// The character of one decimal digit.
pub open spec fn digit_char(d: nat) -> char {
    if d == 0 {
        '0'
    } else if d == 1 {
        '1'
    } else if d == 2 {
        '2'
    } else if d == 3 {
        '3'
    } else if d == 4 {
        '4'
    } else if d == 5 {
        '5'
    } else if d == 6 {
        '6'
    } else if d == 7 {
        '7'
    } else if d == 8 {
        '8'
    } else {
        '9'
    }
}

/// The decimal text of a natural number: no sign, no leading zero but for
/// zero itself.
pub open spec fn decimal(n: nat) -> Seq<char>
    decreases n,
{
    if n < 10 {
        seq![digit_char(n)]
    } else {
        decimal(n / 10).push(digit_char(n % 10))
    }
}

/// The decimal text of an integer: a minus sign before the magnitude of a
/// negative one.
pub open spec fn signed_decimal(i: int) -> Seq<char> {
    if i < 0 {
        seq!['-'] + decimal((-i) as nat)
    } else {
        decimal(i as nat)
    }
}

fn digit_text(d: u64) -> (r: &'static str)
    requires
        d < 10,
    ensures
        r@ == seq![digit_char(d as nat)],
{
    proof {
        reveal_strlit("0");
        reveal_strlit("1");
        reveal_strlit("2");
        reveal_strlit("3");
        reveal_strlit("4");
        reveal_strlit("5");
        reveal_strlit("6");
        reveal_strlit("7");
        reveal_strlit("8");
        reveal_strlit("9");
    }
    let r = if d == 0 {
        "0"
    } else if d == 1 {
        "1"
    } else if d == 2 {
        "2"
    } else if d == 3 {
        "3"
    } else if d == 4 {
        "4"
    } else if d == 5 {
        "5"
    } else if d == 6 {
        "6"
    } else if d == 7 {
        "7"
    } else if d == 8 {
        "8"
    } else {
        "9"
    };
    assert(r@ =~= seq![digit_char(d as nat)]);
    r
}

/// Appends the decimal text of `n` to `out`.
pub fn push_unsigned(out: &mut String, n: u64)
    ensures
        final(out)@ == old(out)@ + decimal(n as nat),
    decreases n,
{
    if n >= 10 {
        push_unsigned(out, n / 10);
    }
    out.append(digit_text(n % 10));
    assert(out@ =~= old(out)@ + decimal(n as nat));
}

/// Appends the decimal text of `n` to `out`, with a minus sign where `n` is
/// negative.
pub fn push_signed(out: &mut String, n: i64)
    ensures
        final(out)@ == old(out)@ + signed_decimal(n as int),
{
    if n < 0 {
        proof {
            reveal_strlit("-");
        }
        out.append("-");
        let magnitude: u64 = if n == i64::MIN {
            0x8000_0000_0000_0000
        } else {
            (-n) as u64
        };
        push_unsigned(out, magnitude);
        assert(out@ =~= old(out)@ + signed_decimal(n as int));
    } else {
        push_unsigned(out, n as u64);
    }
}

/// Whether a byte is an ASCII decimal digit.
pub open spec fn is_digit(b: u8) -> bool {
    0x30 <= b && b <= 0x39
}

/// Whether every byte of `s` from `start` up to `end` is a decimal digit.
pub open spec fn all_digits(s: Seq<u8>, start: int, end: int) -> bool {
    forall|i: int| start <= i < end ==> is_digit(#[trigger] s[i])
}

/// The number that the digits of `s` from `start` up to `end` write in base
/// ten. A byte that is no digit counts as zero.
pub open spec fn digits_value(s: Seq<u8>, start: int, end: int) -> nat
    decreases end - start,
{
    if end <= start {
        0
    } else {
        digits_value(s, start, end - 1) * 10 + (if is_digit(s[end - 1]) {
            (s[end - 1] - 0x30) as nat
        } else {
            0
        })
    }
}

/// The integer that a literal writes: one or more decimal digits, with or
/// without a minus sign before them. Any other text writes no integer.
pub open spec fn integer_value(s: Seq<u8>) -> Option<int> {
    if s.len() >= 1 && all_digits(s, 0, s.len() as int) {
        Some(digits_value(s, 0, s.len() as int) as int)
    } else if s.len() >= 2 && s[0] == 0x2d && all_digits(s, 1, s.len() as int) {
        Some(-(digits_value(s, 1, s.len() as int) as int))
    } else {
        None
    }
}

/// What a number literal is to the machine.
#[derive(Clone, Copy, Debug, PartialEq, Eq, Structural)]
pub enum IntegerLiteral {
    /// An integer from zero to the largest unsigned 64-bit integer.
    Unsigned(u64),
    /// A negative integer down to the smallest signed 64-bit integer.
    Signed(i64),
    /// An integer that no 64-bit machine integer holds.
    Oversized,
    /// No integer: the literal has a fraction or an exponent, or is no number.
    NotInteger,
}

/// The narrowest machine integer that holds a literal exactly: unsigned
/// where the integer is not negative, signed otherwise.
pub open spec fn integer_literal(s: Seq<u8>) -> IntegerLiteral {
    match integer_value(s) {
        None => IntegerLiteral::NotInteger,
        Some(v) => if 0 <= v <= u64::MAX {
            IntegerLiteral::Unsigned(v as u64)
        } else if i64::MIN <= v < 0 {
            IntegerLiteral::Signed(v as i64)
        } else {
            IntegerLiteral::Oversized
        },
    }
}

enum Magnitude {
    Invalid,
    Fits(u64),
    Overflow,
}

/// Reads the digits of `bytes` from `start` to the end.
fn scan_digits(bytes: &[u8], start: usize) -> (r: Magnitude)
    requires
        start <= bytes@.len(),
    ensures
        r is Invalid <==> !(start < bytes@.len() && all_digits(bytes@, start as int, bytes@.len() as int)),
        r matches Magnitude::Fits(v) ==> v == digits_value(bytes@, start as int, bytes@.len() as int),
        r is Overflow ==> digits_value(bytes@, start as int, bytes@.len() as int) > u64::MAX,
{
    let len = bytes.len();
    if start >= len {
        return Magnitude::Invalid;
    }
    let mut i: usize = start;
    let mut acc: u64 = 0;
    let mut overflow = false;
    while i < len
        invariant
            start <= i <= len,
            len == bytes@.len(),
            all_digits(bytes@, start as int, i as int),
            !overflow ==> acc == digits_value(bytes@, start as int, i as int),
            overflow ==> digits_value(bytes@, start as int, i as int) > u64::MAX,
        decreases len - i,
    {
        let b = bytes[i];
        if b < 0x30 || b > 0x39 {
            assert(!is_digit(bytes@[i as int]));
            return Magnitude::Invalid;
        }
        let d: u64 = (b - 0x30) as u64;
        if !overflow {
            if acc > (u64::MAX - d) / 10 {
                overflow = true;
            } else {
                acc = acc * 10 + d;
            }
        }
        i = i + 1;
    }
    if overflow {
        Magnitude::Overflow
    } else {
        Magnitude::Fits(acc)
    }
}

/// Reads a number literal as a machine integer.
pub fn scan_literal(literal: &str) -> (r: IntegerLiteral)
    ensures
        r == integer_literal(literal.spec_bytes()),
{
    let bytes = literal.as_bytes();
    let len = bytes.len();
    if len == 0 {
        return IntegerLiteral::NotInteger;
    }
    if bytes[0] == 0x2d {
        assert(!is_digit(bytes@[0]));
        match scan_digits(bytes, 1) {
            Magnitude::Invalid => IntegerLiteral::NotInteger,
            Magnitude::Overflow => IntegerLiteral::Oversized,
            Magnitude::Fits(m) => {
                if m == 0 {
                    IntegerLiteral::Unsigned(0)
                } else if m < 0x8000_0000_0000_0000 {
                    IntegerLiteral::Signed(-(m as i64))
                } else if m == 0x8000_0000_0000_0000 {
                    IntegerLiteral::Signed(i64::MIN)
                } else {
                    IntegerLiteral::Oversized
                }
            },
        }
    } else {
        match scan_digits(bytes, 0) {
            Magnitude::Invalid => IntegerLiteral::NotInteger,
            Magnitude::Overflow => IntegerLiteral::Oversized,
            Magnitude::Fits(m) => IntegerLiteral::Unsigned(m),
        }
    }
}

/// The end of the longest run of decimal digits of `s` that starts at
/// `from`: the place of the first byte from there on that is no digit, or the
/// end of `s`.
pub open spec fn digit_run_end(s: Seq<u8>, from: int) -> int
    decreases s.len() - from,
{
    if 0 <= from < s.len() && is_digit(s[from]) {
        digit_run_end(s, from + 1)
    } else {
        from
    }
}

/// Whether `s` is a JSON number and nothing else: an optional minus sign; an
/// integer part that is one or more digits, with no zero before another
/// digit; an optional fraction, a point and one or more digits; an optional
/// exponent, `e` or `E`, an optional sign and one or more digits.
pub open spec fn is_number_literal(s: Seq<u8>) -> bool {
    let len = s.len() as int;
    let a: int = if len > 0 && s[0] == 0x2d {
        1
    } else {
        0
    };
    let b = digit_run_end(s, a);
    let has_fraction = b < len && s[b] == 0x2e;
    let c = if has_fraction {
        digit_run_end(s, b + 1)
    } else {
        b
    };
    let has_exponent = c < len && (s[c] == 0x65 || s[c] == 0x45);
    let d = if has_exponent && c + 1 < len && (s[c + 1] == 0x2b || s[c + 1] == 0x2d) {
        c + 2
    } else {
        c + 1
    };
    let e = if has_exponent {
        digit_run_end(s, d)
    } else {
        c
    };
    &&& a < b
    &&& s[a] == 0x30 ==> b == a + 1
    &&& has_fraction ==> b + 1 < c
    &&& has_exponent ==> d < e
    &&& e == len
}

/// Finds the end of the run of digits that starts at `from`.
fn digit_run(bytes: &[u8], from: usize) -> (end: usize)
    requires
        from <= bytes@.len(),
    ensures
        end == digit_run_end(bytes@, from as int),
        from <= end <= bytes@.len(),
{
    let len = bytes.len();
    let mut i: usize = from;
    while i < len && bytes[i] >= 0x30 && bytes[i] <= 0x39
        invariant
            from <= i <= len,
            len == bytes@.len(),
            digit_run_end(bytes@, from as int) == digit_run_end(bytes@, i as int),
        decreases len - i,
    {
        i = i + 1;
    }
    i
}

/// Tests whether a text is a JSON number and nothing else.
pub fn is_json_number(text: &str) -> (r: bool)
    ensures
        r == is_number_literal(text.spec_bytes()),
{
    let bytes = text.as_bytes();
    let len = bytes.len();
    let a: usize = if len > 0 && bytes[0] == 0x2d {
        1
    } else {
        0
    };
    let b = digit_run(bytes, a);
    if b == a {
        return false;
    }
    if bytes[a] == 0x30 && b != a + 1 {
        return false;
    }
    let has_fraction = b < len && bytes[b] == 0x2e;
    let c = if has_fraction {
        digit_run(bytes, b + 1)
    } else {
        b
    };
    if has_fraction && c == b + 1 {
        return false;
    }
    let has_exponent = c < len && (bytes[c] == 0x65 || bytes[c] == 0x45);
    if !has_exponent {
        return c == len;
    }
    let d = if c + 1 < len && (bytes[c + 1] == 0x2b || bytes[c + 1] == 0x2d) {
        c + 2
    } else {
        c + 1
    };
    let e = digit_run(bytes, d);
    d < e && e == len
}

} // verus!
