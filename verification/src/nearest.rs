//! The written ratios are those of binary64 arithmetic: every result is the
//! nearest number there is, halves to even.

use crate::double;
use vstd::arithmetic::div_mod;
use vstd::arithmetic::power2;
use vstd::prelude::*;

verus! {

/// `m` times two to the power of `k`.
pub open spec fn scaled(m: nat, k: nat) -> nat {
    m * power2::pow2(k)
}

/// Whether a number of units is a binary64 number: at most 53 significant
/// bits.
pub open spec fn representable(v: nat) -> bool {
    exists|m: nat, k: nat| m < 0x20_0000_0000_0000 && v == #[trigger] scaled(m, k)
}

/// How far `v` is from `x / d`, times `d`.
pub open spec fn distance(v: nat, x: nat, d: nat) -> nat {
    if v * d <= x {
        (x - v * d) as nat
    } else {
        (v * d - x) as nat
    }
}

/// How far two numbers are apart.
pub open spec fn apart(v: nat, w: nat) -> nat {
    if v <= w {
        (w - v) as nat
    } else {
        (v - w) as nat
    }
}

/// Whether `v` is the binary64 number nearest to `x / d`: no other one is
/// nearer, and where another one is as near, `v` is the even multiple of their
/// difference.
pub open spec fn is_nearest(v: nat, x: nat, d: nat) -> bool {
    &&& representable(v)
    &&& forall|w: nat| #[trigger]
        representable(w) ==> {
            &&& distance(v, x, d) <= distance(w, x, d)
            &&& w != v && distance(v, x, d) == distance(w, x, d) ==> v % (2 * apart(v, w)) == 0
        }
}

/// Whether `r` is the whole number nearest to `n / d`, halves to even.
pub open spec fn is_rounded(r: nat, n: nat, d: nat) -> bool {
    &&& 2 * distance(r, n, d) <= d
    &&& 2 * distance(r, n, d) == d ==> r % 2 == 0
}

/// Whether `h` is a binary64 number in hundredths, to a whole number of them.
pub open spec fn in_hundredths(h: nat, q: nat) -> bool {
    is_rounded(h, 100 * q, power2::pow2(1074))
}

/// Whether `h` hundredths are the quotient of two binary64 numbers, to two
/// decimals.
pub open spec fn is_ratio(h: nat, a: nat, b: nat) -> bool {
    exists|q: nat| is_nearest(q, a * power2::pow2(1074), b) && #[trigger] in_hundredths(h, q)
}

/// Whether `a` is a whole number in binary64.
pub open spec fn is_converted(a: nat, n: nat) -> bool {
    is_nearest(a, n * power2::pow2(1074), 1)
}

/// Whether `m` is one hundred times a binary64 number, in binary64.
pub open spec fn is_hundredfold(m: nat, a: nat) -> bool {
    is_nearest(m, a * 100, 1)
}

/// Whether `h` hundredths are what binary64 arithmetic makes of `total` per
/// `count`, to two decimals; what is counted zero times has zero.
pub open spec fn is_average(h: nat, total: nat, count: nat) -> bool {
    if count == 0 {
        h == 0
    } else {
        exists|a: nat, b: nat|
            is_converted(a, total) && is_converted(b, count) && #[trigger] is_ratio(h, a, b)
    }
}

/// Whether `h` hundredths are what binary64 arithmetic makes of `part` in
/// percent of `total`, to two decimals; of nothing it is zero.
pub open spec fn is_percentage(h: nat, part: nat, total: nat) -> bool {
    if total == 0 {
        h == 0
    } else {
        exists|a: nat, m: nat, b: nat|
            {
                &&& is_converted(a, part)
                &&& #[trigger] is_hundredfold(m, a)
                &&& is_converted(b, total)
                &&& #[trigger] is_ratio(h, m, b)
            }
    }
}

/// Rounding gives the nearest whole number, halves to even.
pub proof fn law_rounded_to_nearest(n: nat, d: nat)
    requires
        d > 0,
    ensures
        is_rounded(double::round_half_even(n, d), n, d),
{
    let q = n / d;
    let r = n % d;
    div_mod::lemma_fundamental_div_mod(n as int, d as int);
    assert(q * d == d * q) by (nonlinear_arith);
    assert((q + 1) * d == q * d + d) by (nonlinear_arith);
}

/// No whole number is nearer than a rounded one, and one as near differs by
/// one.
proof fn lemma_rounded_is_nearest(r: nat, n: nat, d: nat, w: nat)
    requires
        d > 0,
        is_rounded(r, n, d),
    ensures
        distance(r, n, d) <= distance(w, n, d),
        w != r && distance(r, n, d) == distance(w, n, d) ==> apart(r, w) == 1 && r % 2 == 0,
{
    if w > r {
        let e = (w - r) as nat;
        assert(w * d == r * d + e * d) by (nonlinear_arith)
            requires
                w == r + e,
        ;
        assert(e * d >= d) by (nonlinear_arith)
            requires
                e >= 1,
        ;
        if e > 1 {
            assert(e * d >= 2 * d) by (nonlinear_arith)
                requires
                    e >= 2,
            ;
        }
    } else if w < r {
        let e = (r - w) as nat;
        assert(r * d == w * d + e * d) by (nonlinear_arith)
            requires
                r == w + e,
        ;
        assert(e * d >= d) by (nonlinear_arith)
            requires
                e >= 1,
        ;
        if e > 1 {
            assert(e * d >= 2 * d) by (nonlinear_arith)
                requires
                    e >= 2,
            ;
        }
    }
}

/// Counting in steps of `p` does not change a distance.
proof fn lemma_distance_steps(r: nat, p: nat, x: nat, d: nat)
    ensures
        distance(r * p, x, d) == distance(r, x, d * p),
{
    assert((r * p) * d == r * (d * p)) by (nonlinear_arith);
}

/// The nearest binary64 number is so.
pub proof fn law_nearest_double(x: nat, d: nat)
    requires
        d > 0,
    ensures
        is_nearest(double::nearest_double(x, d), x, d),
{
    let k = double::excess_bits(x, d);
    let p = power2::pow2(k);
    let step = d * p;
    let r = double::round_half_even(x, step);
    let v = double::nearest_double(x, d);
    power2::lemma_pow2_pos(k);
    double::lemma_excess_bits_bounds(x, d);
    assert(step > 0) by (nonlinear_arith)
        requires
            d > 0,
            p > 0,
            step == d * p,
    ;
    law_rounded_to_nearest(x, step);
    lemma_distance_steps(r, p, x, d);
    assert(v == r * p);
    assert(r <= 0x20_0000_0000_0000) by (nonlinear_arith)
        requires
            step > 0,
            x < 0x20_0000_0000_0000 * step,
            2 * (r * step) <= 2 * x + step,
    ;
    if r < 0x20_0000_0000_0000 {
        assert(v == scaled(r, k));
    } else {
        power2::lemma_pow2_unfold(k + 1);
        assert(v == 0x10_0000_0000_0000 * power2::pow2(k + 1)) by (nonlinear_arith)
            requires
                v == r * p,
                r == 0x20_0000_0000_0000,
                power2::pow2(k + 1) == 2 * p,
        ;
        assert(v == scaled(0x10_0000_0000_0000, k + 1));
    }
    assert(representable(v));
    assert forall|w: nat| #[trigger] representable(w) implies {
        &&& distance(v, x, d) <= distance(w, x, d)
        &&& w != v && distance(v, x, d) == distance(w, x, d) ==> v % (2 * apart(v, w)) == 0
    } by {
        lemma_against(x, d, k, r, w);
    }
}

/// A rounded number of steps against another binary64 number.
proof fn lemma_against(x: nat, d: nat, k: nat, r: nat, w: nat)
    requires
        d > 0,
        is_rounded(r, x, d * power2::pow2(k)),
        k > 0 ==> x >= 0x20_0000_0000_0000 * (d * power2::pow2((k - 1) as nat)),
        representable(w),
    ensures
        ({
            let v = r * power2::pow2(k);
            &&& distance(v, x, d) <= distance(w, x, d)
            &&& w != v && distance(v, x, d) == distance(w, x, d) ==> v % (2 * apart(v, w)) == 0
        }),
{
    let p = power2::pow2(k);
    let step = d * p;
    let v = r * p;
    power2::lemma_pow2_pos(k);
    assert(step > 0) by (nonlinear_arith)
        requires
            d > 0,
            p > 0,
            step == d * p,
    ;
    lemma_distance_steps(r, p, x, d);
    let (m, j) = choose|m: nat, j: nat|
        m < 0x20_0000_0000_0000 && w == #[trigger] scaled(m, j);
    if j >= k {
        let steps = m * power2::pow2((j - k) as nat);
        power2::lemma_pow2_adds(k, (j - k) as nat);
        assert(w == steps * p) by (nonlinear_arith)
            requires
                w == m * power2::pow2(j),
                power2::pow2(j) == p * power2::pow2((j - k) as nat),
                steps == m * power2::pow2((j - k) as nat),
        ;
        lemma_distance_steps(steps, p, x, d);
        lemma_rounded_is_nearest(r, x, step, steps);
        if w != v && distance(v, x, d) == distance(w, x, d) {
            assert(apart(v, w) == p) by (nonlinear_arith)
                requires
                    v == r * p,
                    w == steps * p,
                    apart(r, steps) == 1,
                    p > 0,
                    apart(v, w) == (if v <= w {
                        w - v
                    } else {
                        v - w
                    }),
                    apart(r, steps) == (if r <= steps {
                        steps - r
                    } else {
                        r - steps
                    }),
            ;
            let half = r / 2;
            assert(v == half * (2 * p)) by (nonlinear_arith)
                requires
                    v == r * p,
                    r == 2 * half,
            ;
            div_mod::lemma_mod_multiples_basic(half as int, (2 * p) as int);
        }
    } else {
        // Finer steps reach only below the numbers in question.
        let half = power2::pow2((k - 1) as nat);
        power2::lemma_pow2_unfold(k);
        power2::lemma_pow2_pos(j);
        if j < k - 1 {
            power2::lemma_pow2_strictly_increases(j, (k - 1) as nat);
        }
        let edge: nat = 0x10_0000_0000_0000;
        assert(w < edge * p) by (nonlinear_arith)
            requires
                m < 0x20_0000_0000_0000,
                w == m * power2::pow2(j),
                0 < power2::pow2(j) <= half,
                p == 2 * half,
                edge == 0x10_0000_0000_0000,
        ;
        let u = edge * p;
        assert(u * d <= x) by (nonlinear_arith)
            requires
                x >= 0x20_0000_0000_0000 * (d * half),
                p == 2 * half,
                u == 0x10_0000_0000_0000 * p,
        ;
        assert(w * d < u * d) by (nonlinear_arith)
            requires
                w < u,
                d > 0,
        ;
        lemma_distance_steps(edge, p, x, d);
        lemma_rounded_is_nearest(r, x, step, edge);
    }
}

/// A written average is the binary64 one, to two decimals.
pub proof fn law_average_of_doubles(total: nat, count: nat)
    ensures
        is_average(double::average_hundredths(total, count), total, count),
{
    let one = power2::pow2(1074);
    power2::lemma_pow2_pos(1074);
    if count > 0 {
        let a = double::double_of_int(total);
        let b = double::double_of_int(count);
        let q = double::double_quotient(a, b);
        law_nearest_double(total * one, 1);
        law_nearest_double(count * one, 1);
        lemma_positive(count);
        law_nearest_double(a * one, b);
        law_rounded_to_nearest(q * 100, one);
        assert(in_hundredths(double::average_hundredths(total, count), q));
        assert(is_ratio(double::average_hundredths(total, count), a, b));
    }
}

/// A written percentage is the binary64 one, to two decimals.
pub proof fn law_percentage_of_doubles(part: nat, total: nat)
    ensures
        is_percentage(double::percent_hundredths(part, total), part, total),
{
    let one = power2::pow2(1074);
    power2::lemma_pow2_pos(1074);
    if total > 0 {
        let a = double::double_of_int(part);
        let m = double::double_times_hundred(a);
        let b = double::double_of_int(total);
        let q = double::double_quotient(m, b);
        law_nearest_double(part * one, 1);
        law_nearest_double(a * 100, 1);
        law_nearest_double(total * one, 1);
        lemma_positive(total);
        law_nearest_double(m * one, b);
        law_rounded_to_nearest(q * 100, one);
        assert(in_hundredths(double::percent_hundredths(part, total), q));
        assert(is_hundredfold(m, a));
        assert(is_ratio(double::percent_hundredths(part, total), m, b));
    }
}

/// The binary64 number of a positive whole number is positive.
proof fn lemma_positive(n: nat)
    requires
        n > 0,
    ensures
        double::double_of_int(n) > 0,
{
    let one = power2::pow2(1074);
    let x = n * one;
    power2::lemma2_to64();
    power2::lemma_pow2_pos(1074);
    law_nearest_double(x, 1);
    assert(x > 0) by (nonlinear_arith)
        requires
            n > 0,
            one > 0,
            x == n * one,
    ;
    assert(representable(1)) by {
        assert(scaled(1, 0) == 1);
    }
}

} // verus!
