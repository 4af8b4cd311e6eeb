//! What a text reads as: numbers, columns, and one part after another.
//!
//! These relations say what a reader takes from a text. They do not say how the
//! text comes about.

use crate::text;
use vstd::prelude::*;

verus! {

/// The value of a digit, or -1 of another character.
pub open spec fn digit_value(c: char) -> int {
    if '0' as int <= c as int <= '9' as int {
        c as int - '0' as int
    } else if 'A' as int <= c as int <= 'F' as int {
        c as int - 'A' as int + 10
    } else {
        -1
    }
}

/// Whether all characters are digits of a base.
pub open spec fn are_digits(t: Seq<char>, base: int) -> bool {
    forall|i: int| 0 <= i < t.len() ==> 0 <= digit_value(#[trigger] t[i]) < base
}

/// The number that digits stand for, the last one being the lowest.
pub open spec fn value(t: Seq<char>, base: int) -> int
    decreases t.len(),
{
    if t.len() == 0 {
        0
    } else {
        value(t.drop_last(), base) * base + digit_value(t.last())
    }
}

/// Whether a text is `n` in decimal, without leading zeros.
pub open spec fn is_decimal(t: Seq<char>, n: nat) -> bool {
    &&& t.len() > 0
    &&& are_digits(t, 10)
    &&& t.len() > 1 ==> t[0] != '0'
    &&& value(t, 10) == n
}

/// Whether a text is `n` in `width` hexadecimal digits.
pub open spec fn is_hex(t: Seq<char>, width: nat, n: nat) -> bool {
    &&& t.len() == width
    &&& are_digits(t, 16)
    &&& value(t, 16) == n
}

/// Whether a text is `n` hundredths: a decimal number, a point, two digits.
pub open spec fn is_hundredths(t: Seq<char>, n: nat) -> bool {
    &&& t.len() >= 4
    &&& t[t.len() - 3] == '.'
    &&& exists|whole: nat|
        (#[trigger] is_decimal(t.take(t.len() - 3), whole)) && n == 100 * whole + value(
            t.skip(t.len() - 2),
            10,
        )
    &&& are_digits(t.skip(t.len() - 2), 10)
}

/// What can be read in a place of a text.
pub type Part = spec_fn(Seq<char>) -> bool;

/// Whether a text is a part behind spaces that fill it up to `width`
/// characters, with no space where the part alone takes as many.
pub open spec fn is_right_aligned(t: Seq<char>, width: nat, part: Part) -> bool {
    exists|pad: int|
        {
            &&& 0 <= pad <= t.len()
            &&& forall|i: int| 0 <= i < pad ==> t[i] == ' '
            &&& part(#[trigger] t.skip(pad))
            &&& t.len() >= width
            &&& pad > 0 ==> t.len() == width
        }
}

/// Exactly these characters.
pub open spec fn literal(s: Seq<char>) -> Part {
    |t: Seq<char>| t == s
}

/// A decimal number.
pub open spec fn plain(n: nat) -> Part {
    |t: Seq<char>| is_decimal(t, n)
}

/// A decimal number aligned to the right.
pub open spec fn number(width: nat, n: nat) -> Part {
    |t: Seq<char>| is_right_aligned(t, width, plain(n))
}

/// A guest address: eight hexadecimal digits.
pub open spec fn address(pc: u32) -> Part {
    |t: Seq<char>| is_hex(t, 8, pc as nat)
}

/// A guest word: four hexadecimal digits.
pub open spec fn word(word: u16) -> Part {
    |t: Seq<char>| is_hex(t, 4, word as nat)
}

/// A text made of dashes.
pub open spec fn are_dashes(t: Seq<char>, count: nat) -> bool {
    t.len() == count && forall|i: int| 0 <= i < count ==> t[i] == '-'
}

/// An address, or eight dashes where there is none.
pub open spec fn address_or_dashes(pc: Option<u32>) -> Part {
    |t: Seq<char>|
        match pc {
            Some(pc) => is_hex(t, 8, pc as nat),
            None => are_dashes(t, 8),
        }
}

/// A word, or four dashes where there is none.
pub open spec fn word_or_dashes(word: Option<u16>) -> Part {
    |t: Seq<char>|
        match word {
            Some(word) => is_hex(t, 4, word as nat),
            None => are_dashes(t, 4),
        }
}

/// Whether a text is made of parts, one after another.
#[verifier::opaque]
pub open spec fn in_turn(t: Seq<char>, parts: Seq<Part>) -> bool
    decreases parts.len(),
{
    if parts.len() == 0 {
        t.len() == 0
    } else {
        exists|cut: int|
            {
                &&& 0 <= cut <= t.len()
                &&& in_turn(#[trigger] t.take(cut), parts.drop_last())
                &&& (parts.last())(t.skip(cut))
            }
    }
}

/// No parts make no text.
pub proof fn lemma_no_parts()
    ensures
        in_turn(Seq::empty(), Seq::empty()),
{
    reveal(in_turn);
}

/// One part.
pub proof fn lemma_first(piece: Seq<char>, part: Part) -> (r: (Seq<char>, Seq<Part>))
    requires
        part(piece),
    ensures
        r.0 == piece,
        r.1 == Seq::<Part>::empty().push(part),
        in_turn(r.0, r.1),
{
    lemma_no_parts();
    let none = Seq::<char>::empty();
    let r = lemma_one_more(none, Seq::empty(), piece, part);
    assert(none + piece =~= piece);
    r
}

/// Parts followed by one more.
pub proof fn lemma_one_more(t: Seq<char>, parts: Seq<Part>, piece: Seq<char>, part: Part) -> (r: (
    Seq<char>,
    Seq<Part>,
))
    requires
        in_turn(t, parts),
        part(piece),
    ensures
        r.0 == t + piece,
        r.1 == parts.push(part),
        in_turn(r.0, r.1),
{
    reveal(in_turn);
    let u = t + piece;
    let all = parts.push(part);
    let cut = t.len() as int;
    assert(u.take(cut) =~= t);
    assert(u.skip(cut) =~= piece);
    assert(all.drop_last() =~= parts);
    assert(in_turn(u.take(cut), all.drop_last()) && (all.last())(u.skip(cut)));
    (u, all)
}

/// A digit reads as the number that it stands for.
pub proof fn law_digit_reads_back(d: nat)
    requires
        d < 16,
    ensures
        digit_value(text::digit_char(d)) == d,
{
}

/// One more digit behind others.
proof fn lemma_push_digit(t: Seq<char>, d: nat, base: int)
    requires
        d < base <= 16,
        are_digits(t, base),
    ensures
        are_digits(t.push(text::digit_char(d)), base),
        value(t.push(text::digit_char(d)), base) == value(t, base) * base + d,
{
    let u = t.push(text::digit_char(d));
    law_digit_reads_back(d);
    assert(u.drop_last() =~= t);
    assert forall|i: int| 0 <= i < u.len() implies 0 <= digit_value(#[trigger] u[i]) < base by {
        if i < t.len() {
            assert(u[i] == t[i]);
        }
    }
}

/// A number written in decimal reads back.
pub proof fn law_decimal_reads_back(n: nat)
    ensures
        is_decimal(text::decimal(n), n),
    decreases n,
{
    let t = text::decimal(n);
    if n < 10 {
        lemma_push_digit(Seq::empty(), n, 10);
        assert(t =~= Seq::<char>::empty().push(text::digit_char(n)));
    } else {
        law_decimal_reads_back(n / 10);
        let front = text::decimal(n / 10);
        lemma_push_digit(front, n % 10, 10);
        assert(t[0] == front[0]);
        if front.len() == 1 {
            assert(front.drop_last() =~= Seq::empty());
            assert(value(front.drop_last(), 10) == 0);
            assert(digit_value(front[0]) == n / 10);
        }
    }
}

/// The lowest digits of a number, as text.
proof fn lemma_hex_value(n: nat, width: nat)
    ensures
        text::hex(n, width).len() == width,
        are_digits(text::hex(n, width), 16),
        n < vstd::arithmetic::power::pow(16, width) ==> value(text::hex(n, width), 16) == n,
    decreases width,
{
    vstd::arithmetic::power::lemma_pow0(16);
    if width > 0 {
        let rest = (width - 1) as nat;
        lemma_hex_value(n / 16, rest);
        lemma_push_digit(text::hex(n / 16, rest), n % 16, 16);
        reveal(vstd::arithmetic::power::pow);
        if n < vstd::arithmetic::power::pow(16, width) {
            assert(vstd::arithmetic::power::pow(16, width) == 16 * vstd::arithmetic::power::pow(
                16,
                rest,
            ));
            assert(n / 16 < vstd::arithmetic::power::pow(16, rest));
        }
    }
}

/// An address written in eight hexadecimal digits reads back.
pub proof fn law_address_reads_back(pc: u32)
    ensures
        is_hex(text::hex(pc as nat, 8), 8, pc as nat),
{
    reveal_with_fuel(vstd::arithmetic::power::pow, 9);
    assert(vstd::arithmetic::power::pow(16, 8) == 0x1_0000_0000);
    lemma_hex_value(pc as nat, 8);
}

/// A word written in four hexadecimal digits reads back.
pub proof fn law_word_reads_back(word: u16)
    ensures
        is_hex(text::hex(word as nat, 4), 4, word as nat),
{
    reveal_with_fuel(vstd::arithmetic::power::pow, 9);
    assert(vstd::arithmetic::power::pow(16, 4) == 0x1_0000);
    lemma_hex_value(word as nat, 4);
}

/// A number is its hundreds and its two lowest digits.
proof fn lemma_two_digits(n: nat)
    ensures
        n == 100 * (n / 100) + (n / 10 % 10 * 10 + n % 10),
{
}

/// A number of hundredths reads back.
pub proof fn law_hundredths_read_back(n: nat)
    ensures
        is_hundredths(text::hundredths(n), n),
{
    let t = text::hundredths(n);
    let front = text::decimal(n / 100);
    let tens = (n / 10 % 10) as nat;
    let ones = (n % 10) as nat;
    law_decimal_reads_back(n / 100);
    let none = Seq::<char>::empty();
    lemma_push_digit(none, tens, 10);
    let one = none.push(text::digit_char(tens));
    lemma_push_digit(one, ones, 10);
    let two = one.push(text::digit_char(ones));
    reveal_strlit(".");
    assert(t =~= front + seq!['.'] + two);
    assert(t.skip(t.len() - 2) =~= two);
    assert(t.take(t.len() - 3) =~= front);
    assert(value(none, 10) == 0);
    lemma_two_digits(n);
    assert(is_decimal(t.take(t.len() - 3), n / 100));
}

/// A text that was aligned to the right is so.
pub proof fn law_padding_aligns(field: Seq<char>, width: nat, part: Part)
    requires
        part(field),
    ensures
        is_right_aligned(text::pad_left(field, width), width, part),
{
    let t = text::pad_left(field, width);
    let pad = t.len() - field.len();
    assert(t.skip(pad) =~= field);
}

/// A number aligned to the right reads back.
pub proof fn law_number_reads_back(n: nat, width: nat)
    ensures
        number(width, n)(text::pad_left(text::decimal(n), width)),
{
    law_decimal_reads_back(n);
    law_padding_aligns(text::decimal(n), width, plain(n));
}

/// Decimal digits read as one number only.
pub proof fn law_decimal_unambiguous(m: nat, n: nat)
    requires
        text::decimal(m) == text::decimal(n),
    ensures
        m == n,
{
    law_decimal_reads_back(m);
    law_decimal_reads_back(n);
}

} // verus!
