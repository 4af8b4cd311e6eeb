//! Text fields of the report: decimal and hexadecimal numbers, and right
//! alignment.

use vstd::prelude::*;

verus! {

/// The upper-case digit that stands for `d`, for `d` below sixteen.
pub open spec fn digit_char(d: nat) -> char {
    if d == 0 {
        '0'
    } else if d == 1 {
        '1'
    } else if d == 2 {
        '2'
    } else if d == 3 {
        '3'
    } else if d == 4 {
        '4'
    } else if d == 5 {
        '5'
    } else if d == 6 {
        '6'
    } else if d == 7 {
        '7'
    } else if d == 8 {
        '8'
    } else if d == 9 {
        '9'
    } else if d == 10 {
        'A'
    } else if d == 11 {
        'B'
    } else if d == 12 {
        'C'
    } else if d == 13 {
        'D'
    } else if d == 14 {
        'E'
    } else {
        'F'
    }
}

/// The decimal digits of `n`, without leading zeros.
pub open spec fn decimal(n: nat) -> Seq<char>
    decreases n,
{
    if n < 10 {
        seq![digit_char(n)]
    } else {
        decimal(n / 10).push(digit_char(n % 10))
    }
}

/// The lowest `width` hexadecimal digits of `n`, leading zeros kept.
pub open spec fn hex(n: nat, width: nat) -> Seq<char>
    decreases width,
{
    if width == 0 {
        Seq::empty()
    } else {
        hex(n / 16, (width - 1) as nat).push(digit_char(n % 16))
    }
}

/// `count` spaces.
pub open spec fn spaces(count: nat) -> Seq<char> {
    Seq::new(count, |i: int| ' ')
}

/// `field` aligned to the right in a column of `width` characters; a longer
/// field is kept whole.
pub open spec fn pad_left(field: Seq<char>, width: nat) -> Seq<char> {
    if field.len() < width {
        spaces((width - field.len()) as nat) + field
    } else {
        field
    }
}

/// One digit, as text.
pub fn digit(d: u8) -> (s: &'static str)
    requires
        d < 16,
    ensures
        s@ == seq![digit_char(d as nat)],
{
    proof {
        reveal_strlit("0");
        reveal_strlit("1");
        reveal_strlit("2");
        reveal_strlit("3");
        reveal_strlit("4");
        reveal_strlit("5");
        reveal_strlit("6");
        reveal_strlit("7");
        reveal_strlit("8");
        reveal_strlit("9");
        reveal_strlit("A");
        reveal_strlit("B");
        reveal_strlit("C");
        reveal_strlit("D");
        reveal_strlit("E");
        reveal_strlit("F");
    }
    match d {
        0 => "0",
        1 => "1",
        2 => "2",
        3 => "3",
        4 => "4",
        5 => "5",
        6 => "6",
        7 => "7",
        8 => "8",
        9 => "9",
        10 => "A",
        11 => "B",
        12 => "C",
        13 => "D",
        14 => "E",
        _ => "F",
    }
}

/// Appends the decimal digits of `n`.
fn push_decimal(out: &mut String, n: u128)
    ensures
        final(out)@ == old(out)@ + decimal(n as nat),
    decreases n,
{
    if n < 10 {
        out.append(digit(n as u8));
    } else {
        push_decimal(out, n / 10);
        out.append(digit((n % 10) as u8));
        assert(out@ =~= old(out)@ + decimal(n as nat));
    }
}

/// Number of spaces that align the decimal digits of `n` to the right in
/// `width` columns.
fn decimal_padding(n: u128, width: usize) -> (pad: usize)
    ensures
        pad == if decimal(n as nat).len() < width {
            width - decimal(n as nat).len()
        } else {
            0
        },
{
    if width == 0 {
        return 0;
    }
    let mut rest: u128 = n;
    let mut pad: usize = width - 1;
    while rest >= 10 && pad > 0
        invariant
            pad < width,
            decimal(n as nat).len() == width - pad - 1 + decimal(rest as nat).len(),
        decreases rest,
    {
        rest = rest / 10;
        pad = pad - 1;
    }
    pad
}

/// Appends `count` spaces.
fn push_spaces(out: &mut String, count: usize)
    ensures
        final(out)@ == old(out)@ + spaces(count as nat),
{
    let mut done: usize = 0;
    proof {
        reveal_strlit(" ");
    }
    assert(out@ =~= old(out)@ + spaces(0));
    while done < count
        invariant
            done <= count,
            " "@ == seq![' '],
            out@ == old(out)@ + spaces(done as nat),
        decreases count - done,
    {
        out.append(" ");
        done = done + 1;
        assert(out@ =~= old(out)@ + spaces(done as nat));
    }
}

/// `n` in decimal, without padding.
pub fn decimal_text(n: u64) -> (s: String)
    ensures
        s@ == decimal(n as nat),
{
    let mut s = String::new();
    push_decimal(&mut s, n as u128);
    assert(s@ =~= decimal(n as nat));
    s
}

/// `n` in decimal, aligned to the right in `width` columns.
pub fn decimal_column(n: u64, width: usize) -> (s: String)
    ensures
        s@ == pad_left(decimal(n as nat), width as nat),
{
    let mut s = String::new();
    let pad: usize = decimal_padding(n as u128, width);
    push_spaces(&mut s, pad);
    push_decimal(&mut s, n as u128);
    assert(s@ =~= pad_left(decimal(n as nat), width as nat));
    s
}

/// Appends the lowest `width` hexadecimal digits of `n`.
fn push_hex(out: &mut String, n: u32, width: usize)
    ensures
        final(out)@ == old(out)@ + hex(n as nat, width as nat),
    decreases width,
{
    if width > 0 {
        push_hex(out, n / 16, width - 1);
        out.append(digit((n % 16) as u8));
    }
    assert(out@ =~= old(out)@ + hex(n as nat, width as nat));
}

/// A guest address: eight hexadecimal digits.
pub fn address_text(pc: u32) -> (s: String)
    ensures
        s@ == hex(pc as nat, 8),
{
    let mut s = String::new();
    push_hex(&mut s, pc, 8);
    assert(s@ =~= hex(pc as nat, 8));
    s
}

/// A guest opcode or extension word: four hexadecimal digits.
pub fn word_text(word: u16) -> (s: String)
    ensures
        s@ == hex(word as nat, 4),
{
    let mut s = String::new();
    push_hex(&mut s, word as u32, 4);
    assert(s@ =~= hex(word as nat, 4));
    s
}

/// A number of hundredths, written with two decimals.
pub open spec fn hundredths(n: nat) -> Seq<char> {
    decimal(n / 100) + "."@ + seq![digit_char(n / 10 % 10), digit_char(n % 10)]
}

/// Appends `n` hundredths, written with two decimals.
fn push_hundredths(out: &mut String, n: u128)
    ensures
        final(out)@ == old(out)@ + hundredths(n as nat),
{
    push_decimal(out, n / 100);
    out.append(".");
    out.append(digit((n / 10 % 10) as u8));
    out.append(digit((n % 10) as u8));
    assert(out@ =~= old(out)@ + hundredths(n as nat));
}

/// `n` hundredths, without padding.
pub fn hundredths_text(n: u128) -> (s: String)
    ensures
        s@ == hundredths(n as nat),
{
    let mut s = String::new();
    push_hundredths(&mut s, n);
    assert(s@ =~= hundredths(n as nat));
    s
}

/// `n` hundredths, aligned to the right in `width` columns.
pub fn hundredths_column(n: u128, width: usize) -> (s: String)
    ensures
        s@ == pad_left(hundredths(n as nat), width as nat),
{
    let mut s = String::new();
    proof {
        reveal_strlit(".");
    }
    if width > 3 {
        let pad: usize = decimal_padding(n / 100, width - 3);
        push_spaces(&mut s, pad);
    }
    push_hundredths(&mut s, n);
    assert(s@ =~= pad_left(hundredths(n as nat), width as nat));
    s
}

} // verus!
