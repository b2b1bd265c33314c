//! Text and numbers as the bytes that go to the serial port.
use vstd::prelude::*;
use crate::bytes;

verus! {

/// The bytes of a text.
pub open spec fn text(s: Seq<char>) -> Seq<u8> {
    vstd::utf8::encode_utf8(s)
}

/// Appends a text.
pub fn push_text(out: &mut Vec<u8>, s: &str)
    ensures
        final(out)@ == old(out)@ + text(s@),
{
    bytes::push_all(out, s.as_bytes());
}

/// The decimal digits of a number.
pub open spec fn decimal(n: nat) -> Seq<u8>
    decreases n,
{
    if n < 10 {
        seq![(0x30 + n) as u8]
    } else {
        decimal(n / 10).push((0x30 + n % 10) as u8)
    }
}

/// Appends a number.
pub fn push_decimal(out: &mut Vec<u8>, n: u64)
    ensures
        final(out)@ == old(out)@ + decimal(n as nat),
    decreases n,
{
    if n >= 10 {
        push_decimal(out, n / 10);
    }
    out.push(0x30 + (n % 10) as u8);
    assert(out@ =~= old(out)@ + decimal(n as nat));
}

/// The digits of a number that may be negative.
pub open spec fn signed(n: int) -> Seq<u8> {
    if n < 0 {
        seq![0x2Du8] + decimal((-n) as nat)
    } else {
        decimal(n as nat)
    }
}

/// Appends a number that may be negative.
pub fn push_signed(out: &mut Vec<u8>, n: i32)
    ensures
        final(out)@ == old(out)@ + signed(n as int),
{
    if n < 0 {
        out.push(0x2D);
        let magnitude = (-(n as i64)) as u64;
        push_decimal(out, magnitude);
    } else {
        push_decimal(out, n as u64);
    }
    assert(out@ =~= old(out)@ + signed(n as int));
}

/// A hexadecimal digit, in lower case.
pub open spec fn hex_digit(d: int) -> u8 {
    if d < 10 {
        (0x30 + d) as u8
    } else {
        (0x57 + d) as u8
    }
}

/// The two hexadecimal digits of a byte.
pub open spec fn hex2(b: u8) -> Seq<u8> {
    seq![hex_digit(b as int / 16), hex_digit(b as int % 16)]
}

fn nibble(d: u8) -> (r: u8)
    requires
        d < 16,
    ensures
        r == hex_digit(d as int),
{
    if d < 10 {
        0x30 + d
    } else {
        0x57 + d
    }
}

/// Appends a byte in hexadecimal.
pub fn push_hex2(out: &mut Vec<u8>, b: u8)
    ensures
        final(out)@ == old(out)@ + hex2(b),
{
    out.push(nibble(b / 16));
    out.push(nibble(b % 16));
    assert(out@ =~= old(out)@ + hex2(b));
}

/// The hexadecimal digits of a number.
pub open spec fn hex(n: nat) -> Seq<u8>
    decreases n,
{
    if n < 16 {
        seq![hex_digit(n as int)]
    } else {
        hex(n / 16).push(hex_digit((n % 16) as int))
    }
}

/// Appends a number in hexadecimal.
pub fn push_hex(out: &mut Vec<u8>, n: u64)
    ensures
        final(out)@ == old(out)@ + hex(n as nat),
    decreases n,
{
    if n >= 16 {
        push_hex(out, n / 16);
    }
    out.push(nibble((n % 16) as u8));
    assert(out@ =~= old(out)@ + hex(n as nat));
}

/// The four hexadecimal digits of a 16-bit number.
pub open spec fn hex4(n: u16) -> Seq<u8> {
    hex2((n / 0x100) as u8) + hex2((n % 0x100) as u8)
}

/// Appends a 16-bit number in hexadecimal.
pub fn push_hex4(out: &mut Vec<u8>, n: u16)
    ensures
        final(out)@ == old(out)@ + hex4(n),
{
    push_hex2(out, (n / 0x100) as u8);
    push_hex2(out, (n % 0x100) as u8);
    assert(out@ =~= old(out)@ + hex4(n));
}

/// `s`, with blanks up to a width.
pub open spec fn left_aligned(s: Seq<u8>, width: nat) -> Seq<u8> {
    if s.len() >= width {
        s
    } else {
        s + Seq::new((width - s.len()) as nat, |i: int| 0x20u8)
    }
}

/// Appends a number, with blanks up to a width.
pub fn push_left_aligned(out: &mut Vec<u8>, n: u64, width: usize)
    ensures
        final(out)@ == old(out)@ + left_aligned(decimal(n as nat), width as nat),
{
    let mut digits: Vec<u8> = Vec::new();
    push_decimal(&mut digits, n);
    assert(digits@ =~= decimal(n as nat));
    while digits.len() < width
        invariant
            left_aligned(digits@, width as nat) == left_aligned(decimal(n as nat), width as nat),
        ensures
            digits@ == left_aligned(decimal(n as nat), width as nat),
        decreases width - digits@.len(),
    {
        let ghost before = digits@;
        digits.push(0x20);
        assert(left_aligned(digits@, width as nat) =~= left_aligned(before, width as nat));
    }
    out.append(&mut digits);
}

/// A truth value in words.
pub open spec fn truth(b: bool) -> Seq<u8> {
    if b {
        text("true"@)
    } else {
        text("false"@)
    }
}

/// Appends a truth value.
pub fn push_truth(out: &mut Vec<u8>, b: bool)
    ensures
        final(out)@ == old(out)@ + truth(b),
{
    if b {
        push_text(out, "true");
    } else {
        push_text(out, "false");
    }
}

// --- laws --------------------------------------------------------------------------

/// The number that decimal digits stand for.
pub open spec fn value_of(digits: Seq<u8>) -> int
    decreases digits.len(),
{
    if digits.len() == 0 {
        0
    } else {
        10 * value_of(digits.drop_last()) + (digits.last() - 0x30)
    }
}

/// The digits of a number stand for that number: only digits, at least one, and
/// no zero in front unless it is the only one.
pub proof fn law_decimal_reads_back(n: nat)
    ensures
        value_of(decimal(n)) == n,
        decimal(n).len() >= 1,
        forall|i: int| 0 <= i < decimal(n).len() ==> 0x30 <= #[trigger] decimal(n)[i] <= 0x39,
        decimal(n)[0] == 0x30 ==> n == 0,
    decreases n,
{
    if n < 10 {
        assert(decimal(n).drop_last() =~= Seq::<u8>::empty());
        assert(value_of(decimal(n).drop_last()) == 0);
    } else {
        law_decimal_reads_back(n / 10);
        assert(decimal(n).drop_last() =~= decimal(n / 10));
    }
}

/// What a hexadecimal digit stands for, in lower case.
pub open spec fn digit_value(c: u8) -> int {
    if 0x30 <= c <= 0x39 {
        c - 0x30
    } else if 0x61 <= c <= 0x66 {
        c - 0x61 + 10
    } else {
        -1
    }
}

/// What a row of hexadecimal digits stands for.
pub open spec fn hex_value_of(digits: Seq<u8>) -> int
    decreases digits.len(),
{
    if digits.len() == 0 {
        0
    } else {
        16 * hex_value_of(digits.drop_last()) + digit_value(digits.last())
    }
}

/// A number in hexadecimal reads back as itself, in lower case digits and without
/// leading zeros.
pub proof fn law_hex_reads_back(n: nat)
    ensures
        hex_value_of(hex(n)) == n,
        hex(n).len() >= 1,
        forall|i: int| 0 <= i < hex(n).len() ==> 0 <= digit_value(#[trigger] hex(n)[i]) < 16,
        hex(n)[0] == 0x30 ==> n == 0,
    decreases n,
{
    reveal_with_fuel(hex_value_of, 2);
    if n >= 16 {
        law_hex_reads_back(n / 16);
        assert(hex(n).drop_last() =~= hex(n / 16));
    }
}

/// Two digits stand for a byte and four for a word of 16 bits.
pub proof fn law_short_hex_reads_back(b: u8, w: u16)
    ensures
        hex2(b).len() == 2,
        digit_value(hex2(b)[0]) * 16 + digit_value(hex2(b)[1]) == b,
        hex4(w).len() == 4,
        digit_value(hex4(w)[0]) * 0x1000 + digit_value(hex4(w)[1]) * 0x100 + digit_value(hex4(w)[2])
            * 0x10 + digit_value(hex4(w)[3]) == w,
{
}

/// A signed number is its value, after a minus sign if it is below zero.
pub proof fn law_signed_reads_back(n: int)
    ensures
        n >= 0 ==> value_of(signed(n)) == n && 0x30 <= signed(n)[0] <= 0x39,
        n < 0 ==> signed(n)[0] == 0x2D && value_of(signed(n).skip(1)) == -n,
{
    if n >= 0 {
        law_decimal_reads_back(n as nat);
    } else {
        law_decimal_reads_back((-n) as nat);
        assert(signed(n).skip(1) =~= decimal((-n) as nat));
    }
}

/// A text in a column starts with the text itself and is followed by blanks up
/// to the width; it is never cut.
pub proof fn law_columns_are_filled_with_blanks(s: Seq<u8>, width: nat)
    ensures
        left_aligned(s, width).take(s.len() as int) == s,
        left_aligned(s, width).len() >= width,
        left_aligned(s, width).len() == s.len() || left_aligned(s, width).len() == width,
        forall|i: int|
            s.len() <= i < left_aligned(s, width).len() ==> #[trigger] left_aligned(s, width)[i]
                == 0x20,
{
    assert(left_aligned(s, width).take(s.len() as int) =~= s);
}

} // verus!
