//! How close the written averages and percentages are to the exact ratios.

use crate::double;
use vstd::arithmetic::div_mod;
use vstd::arithmetic::power2;
use vstd::prelude::*;

verus! {

/// Rounding moves a ratio by at most one half.
proof fn lemma_round_bounds(n: nat, d: nat)
    requires
        d > 0,
    ensures
        2 * (double::round_half_even(n, d) * d) <= 2 * n + d,
        2 * n <= 2 * (double::round_half_even(n, d) * d) + d,
{
    let q = n / d;
    div_mod::lemma_fundamental_div_mod(n as int, d as int);
    assert(q * d == d * q) by (nonlinear_arith);
    assert((q + 1) * d == q * d + d) by (nonlinear_arith);
}

/// The nearest binary64 number is within a relative error of two to the power
/// of -53, or within one unit.
proof fn lemma_nearest_bounds(x: nat, d: nat)
    requires
        d > 0,
    ensures
        double::nearest_double(x, d) * d * 0x20_0000_0000_0000 <= x * 0x20_0000_0000_0001 + d
            * 0x20_0000_0000_0000,
        x * 0x1F_FFFF_FFFF_FFFF <= double::nearest_double(x, d) * d * 0x20_0000_0000_0000 + d
            * 0x20_0000_0000_0000,
{
    let k = double::excess_bits(x, d);
    let p = power2::pow2(k);
    let step = d * p;
    let r = double::round_half_even(x, step);
    let v = double::nearest_double(x, d);
    power2::lemma_pow2_pos(k);
    double::lemma_excess_bits_bounds(x, d);
    assert(step > 0) by (nonlinear_arith)
        requires
            d > 0,
            p > 0,
            step == d * p,
    ;
    assert(step * 0x20_0000_0000_0000 <= 2 * x + d * 0x20_0000_0000_0000) by {
        if k == 0 {
            power2::lemma2_to64();
            assert(step == d) by (nonlinear_arith)
                requires
                    step == d * p,
                    p == 1,
            ;
        } else {
            let half = power2::pow2((k - 1) as nat);
            power2::lemma_pow2_unfold(k);
            assert(step == 2 * (d * half)) by (nonlinear_arith)
                requires
                    step == d * p,
                    p == 2 * half,
            ;
        }
    }
    lemma_round_bounds(x, step);
    assert(v * d == r * step) by (nonlinear_arith)
        requires
            v == r * p,
            step == d * p,
    ;
}

/// Whether `v` is `n` up to a relative error of ten to the power of -14.
spec fn close(v: nat, n: nat) -> bool {
    &&& v * 100_000_000_000_000 <= n * 100_000_000_000_001
    &&& n * 99_999_999_999_999 <= v * 100_000_000_000_000
}

/// The number one has more units than a count can have.
proof fn lemma_one_is_large()
    ensures
        double::one() > 0x1_0000_0000_0000_0000,
{
    power2::lemma2_to64();
    power2::lemma2_to64_rest();
    power2::lemma_pow2_strictly_increases(64, 1074);
}

/// A whole number and its binary64 number are close.
proof fn lemma_int_close(n: nat)
    ensures
        close(double::double_of_int(n), n * double::one()),
{
    let exact = n * double::one();
    lemma_one_is_large();
    if n == 0 {
        assert(exact == 0);
        assert(double::excess_bits(0, 1) == 0);
        power2::lemma2_to64();
        assert(double::double_of_int(n) == 0);
    } else {
        assert(exact > 0x1_0000_0000_0000_0000) by (nonlinear_arith)
            requires
                n > 0,
                double::one() > 0x1_0000_0000_0000_0000,
                exact == n * double::one(),
        ;
        lemma_nearest_bounds(exact, 1);
    }
}

/// One hundred times a whole number and what binary64 makes of it are close.
proof fn lemma_hundredfold_close(n: nat)
    ensures
        close(
            double::double_times_hundred(double::double_of_int(n)),
            (100 * n) * double::one(),
        ),
{
    let exact = n * double::one();
    let a = double::double_of_int(n);
    lemma_one_is_large();
    assert((100 * n) * double::one() == 100 * exact) by (nonlinear_arith)
        requires
            exact == n * double::one(),
    ;
    if n == 0 {
        assert(exact == 0);
        assert(double::excess_bits(0, 1) == 0);
        power2::lemma2_to64();
        assert(a == 0);
        assert(double::double_times_hundred(a) == 0);
    } else {
        assert(exact > 0x1_0000_0000_0000_0000) by (nonlinear_arith)
            requires
                n > 0,
                double::one() > 0x1_0000_0000_0000_0000,
                exact == n * double::one(),
        ;
        lemma_nearest_bounds(exact, 1);
        lemma_nearest_bounds(a * 100, 1);
    }
}

/// Whether `h` hundredths are `n / d` up to half a hundredth, and beyond that
/// up to a part in ten to the power of 12 of the ratio and of a hundredth.
pub open spec fn accurate(h: nat, n: nat, d: nat) -> bool {
    &&& 2 * (h * d) * 1_000_000_000_000 <= (200 * n + d) * 1_000_000_000_001
    &&& 200 * n * 999_999_999_999 <= 2 * (h * d) * 1_000_000_000_000 + d * 1_000_000_000_001
}

/// Binary64 numbers close to two whole numbers have an accurate quotient.
proof fn lemma_quotient_accurate(a: nat, b: nat, n: nat, d: nat)
    requires
        d > 0,
        close(a, n * double::one()),
        close(b, d * double::one()),
    ensures
        accurate(double::double_to_hundredths(double::double_quotient(a, b)), n, d),
{
    let o = double::one();
    let q = double::double_quotient(a, b);
    let h = double::double_to_hundredths(q);
    lemma_one_is_large();
    assert(d * o >= o) by (nonlinear_arith)
        requires
            d > 0,
    ;
    assert(b > 0);
    lemma_nearest_bounds(a * o, b);
    lemma_round_bounds(q * 100, o);
    lemma_quotient_upper(a, b, n, d, o, q, h);
    lemma_quotient_lower(a, b, n, d, o, q, h);
}

/// The upper bound of an accurate quotient, in units of which `o` make one.
proof fn lemma_quotient_upper(a: nat, b: nat, n: nat, d: nat, o: nat, q: nat, h: nat)
    requires
        d > 0,
        o > 0x1_0000_0000_0000_0000,
        a * 100_000_000_000_000 <= (n * o) * 100_000_000_000_001,
        b * 100_000_000_000_000 <= (d * o) * 100_000_000_000_001,
        (d * o) * 99_999_999_999_999 <= b * 100_000_000_000_000,
        q * b * 0x20_0000_0000_0000 <= a * o * 0x20_0000_0000_0001 + b * 0x20_0000_0000_0000,
        2 * (h * o) <= 2 * (q * 100) + o,
    ensures
        2 * (h * d) * 1_000_000_000_000 <= (200 * n + d) * 1_000_000_000_001,
{
    let x = q * d;
    let y = n * o;
    let z = d * o;
    // The quotient against the exact one, both times `o`.
    assert((x * 99_999_999_999_999) * o <= q * b * 100_000_000_000_000) by (nonlinear_arith)
        requires
            z * 99_999_999_999_999 <= b * 100_000_000_000_000,
            z == d * o,
            x == q * d,
    ;
    assert(a * o * 100_000_000_000_000 <= (y * 100_000_000_000_001) * o) by (nonlinear_arith)
        requires
            a * 100_000_000_000_000 <= y * 100_000_000_000_001,
            o > 0,
    ;
    assert(b * 100_000_000_000_000 <= (d * 100_000_000_000_001) * o) by (nonlinear_arith)
        requires
            b * 100_000_000_000_000 <= z * 100_000_000_000_001,
            z == d * o,
    ;
    let xo = (x * 99_999_999_999_999) * o;
    let yo = (y * 100_000_000_000_001) * o;
    let zo = (d * 100_000_000_000_001) * o;
    assert(xo * 0x20_0000_0000_0000 <= yo * 0x20_0000_0000_0001 + zo * 0x20_0000_0000_0000);
    let left = x * 99_999_999_999_999 * 0x20_0000_0000_0000;
    let right = y * 100_000_000_000_001 * 0x20_0000_0000_0001 + d * 100_000_000_000_001
        * 0x20_0000_0000_0000;
    assert(left * o <= right * o) by (nonlinear_arith)
        requires
            xo * 0x20_0000_0000_0000 <= yo * 0x20_0000_0000_0001 + zo * 0x20_0000_0000_0000,
            xo == (x * 99_999_999_999_999) * o,
            yo == (y * 100_000_000_000_001) * o,
            zo == (d * 100_000_000_000_001) * o,
            left == x * 99_999_999_999_999 * 0x20_0000_0000_0000,
            right == y * 100_000_000_000_001 * 0x20_0000_0000_0001 + d * 100_000_000_000_001
                * 0x20_0000_0000_0000,
    ;
    lemma_cancel(left, right, o);
    // The hundredths against the exact ones.
    let w = h * d;
    assert(2 * (w * o) <= 200 * x + z) by (nonlinear_arith)
        requires
            2 * (h * o) <= 2 * (q * 100) + o,
            w == h * d,
            x == q * d,
            z == d * o,
    ;
    let wo = w * o;
    assert(z >= d * 0x1_0000_0000_0000_0000) by (nonlinear_arith)
        requires
            z == d * o,
            o > 0x1_0000_0000_0000_0000,
    ;
    assert(2 * wo * 1_000_000_000_000 <= (200 * y + z) * 1_000_000_000_001);
    let above = (200 * n + d) * 1_000_000_000_001;
    let below = 2 * w * 1_000_000_000_000;
    assert(below * o <= above * o) by (nonlinear_arith)
        requires
            2 * wo * 1_000_000_000_000 <= (200 * y + z) * 1_000_000_000_001,
            wo == w * o,
            y == n * o,
            z == d * o,
            above == (200 * n + d) * 1_000_000_000_001,
            below == 2 * w * 1_000_000_000_000,
    ;
    lemma_cancel(below, above, o);
}

/// The lower bound of an accurate quotient, in units of which `o` make one.
proof fn lemma_quotient_lower(a: nat, b: nat, n: nat, d: nat, o: nat, q: nat, h: nat)
    requires
        d > 0,
        o > 0x1_0000_0000_0000_0000,
        (n * o) * 99_999_999_999_999 <= a * 100_000_000_000_000,
        b * 100_000_000_000_000 <= (d * o) * 100_000_000_000_001,
        a * o * 0x1F_FFFF_FFFF_FFFF <= q * b * 0x20_0000_0000_0000 + b * 0x20_0000_0000_0000,
        2 * (q * 100) <= 2 * (h * o) + o,
    ensures
        200 * n * 999_999_999_999 <= 2 * (h * d) * 1_000_000_000_000 + d * 1_000_000_000_001,
{
    let x = q * d;
    let y = n * o;
    let z = d * o;
    // The quotient against the exact one, both times `o`.
    assert(q * b * 100_000_000_000_000 <= (x * 100_000_000_000_001) * o) by (nonlinear_arith)
        requires
            b * 100_000_000_000_000 <= z * 100_000_000_000_001,
            z == d * o,
            x == q * d,
    ;
    assert((y * 99_999_999_999_999) * o <= a * o * 100_000_000_000_000) by (nonlinear_arith)
        requires
            y * 99_999_999_999_999 <= a * 100_000_000_000_000,
            o > 0,
    ;
    assert(b * 100_000_000_000_000 <= (d * 100_000_000_000_001) * o) by (nonlinear_arith)
        requires
            b * 100_000_000_000_000 <= z * 100_000_000_000_001,
            z == d * o,
    ;
    let xo = (x * 100_000_000_000_001) * o;
    let yo = (y * 99_999_999_999_999) * o;
    let zo = (d * 100_000_000_000_001) * o;
    assert(yo * 0x1F_FFFF_FFFF_FFFF <= xo * 0x20_0000_0000_0000 + zo * 0x20_0000_0000_0000);
    let left = y * 99_999_999_999_999 * 0x1F_FFFF_FFFF_FFFF;
    let right = x * 100_000_000_000_001 * 0x20_0000_0000_0000 + d * 100_000_000_000_001
        * 0x20_0000_0000_0000;
    assert(left * o <= right * o) by (nonlinear_arith)
        requires
            yo * 0x1F_FFFF_FFFF_FFFF <= xo * 0x20_0000_0000_0000 + zo * 0x20_0000_0000_0000,
            xo == (x * 100_000_000_000_001) * o,
            yo == (y * 99_999_999_999_999) * o,
            zo == (d * 100_000_000_000_001) * o,
            left == y * 99_999_999_999_999 * 0x1F_FFFF_FFFF_FFFF,
            right == x * 100_000_000_000_001 * 0x20_0000_0000_0000 + d * 100_000_000_000_001
                * 0x20_0000_0000_0000,
    ;
    lemma_cancel(left, right, o);
    // The hundredths against the exact ones.
    let w = h * d;
    assert(200 * x <= 2 * (w * o) + z) by (nonlinear_arith)
        requires
            2 * (q * 100) <= 2 * (h * o) + o,
            w == h * d,
            x == q * d,
            z == d * o,
    ;
    let wo = w * o;
    assert(z >= d * 0x1_0000_0000_0000_0000) by (nonlinear_arith)
        requires
            z == d * o,
            o > 0x1_0000_0000_0000_0000,
    ;
    assert(200 * y * 999_999_999_999 <= 2 * wo * 1_000_000_000_000 + z * 1_000_000_000_001);
    let above = 2 * w * 1_000_000_000_000 + d * 1_000_000_000_001;
    let below = 200 * n * 999_999_999_999;
    assert(below * o <= above * o) by (nonlinear_arith)
        requires
            200 * y * 999_999_999_999 <= 2 * wo * 1_000_000_000_000 + z * 1_000_000_000_001,
            wo == w * o,
            y == n * o,
            z == d * o,
            above == 2 * w * 1_000_000_000_000 + d * 1_000_000_000_001,
            below == 200 * n * 999_999_999_999,
    ;
    lemma_cancel(below, above, o);
}

/// A common factor of both sides can be left out.
proof fn lemma_cancel(left: nat, right: nat, factor: nat)
    by (nonlinear_arith)
    requires
        factor > 0,
        left * factor <= right * factor,
    ensures
        left <= right,
{
}

/// A written average is the exact ratio, up to rounding.
pub proof fn law_average_accurate(total: nat, count: nat)
    requires
        count > 0,
    ensures
        accurate(double::average_hundredths(total, count), total, count),
{
    lemma_int_close(total);
    lemma_int_close(count);
    lemma_quotient_accurate(
        double::double_of_int(total),
        double::double_of_int(count),
        total,
        count,
    );
}

/// A written percentage is the exact one, up to rounding.
pub proof fn law_percent_accurate(part: nat, total: nat)
    requires
        total > 0,
    ensures
        accurate(double::percent_hundredths(part, total), 100 * part, total),
{
    lemma_hundredfold_close(part);
    lemma_int_close(total);
    lemma_quotient_accurate(
        double::double_times_hundred(double::double_of_int(part)),
        double::double_of_int(total),
        100 * part,
        total,
    );
}

/// A share of a total is written as at most 100.00 percent.
pub proof fn law_percent_at_most_hundred(part: nat, total: nat)
    requires
        part <= total,
    ensures
        double::percent_hundredths(part, total) <= 10_000,
{
    if total > 0 {
        law_percent_accurate(part, total);
        let h = double::percent_hundredths(part, total);
        let w = h * total;
        assert(h <= 10_000) by (nonlinear_arith)
            requires
                2 * w * 1_000_000_000_000 <= (200 * (100 * part) + total) * 1_000_000_000_001,
                part <= total,
                total > 0,
                w == h * total,
        ;
    }
}

} // verus!
