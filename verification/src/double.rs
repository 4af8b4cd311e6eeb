//! Ratios in binary64 arithmetic, written with two decimals.
//!
//! A non-negative binary64 number is a whole number of units of
//! two to the power of -1074. The model computes in such units: every
//! operation takes the exact result and rounds it to a number of at most
//! 53 significant bits, halves to even.

use vstd::arithmetic::div_mod;
use vstd::arithmetic::power2;
use vstd::prelude::*;

verus! {

/// `n / d` rounded to a whole number, halves to even.
pub open spec fn round_half_even(n: nat, d: nat) -> nat {
    let q = n / d;
    let r = n % d;
    if 2 * r > d || (2 * r == d && q % 2 == 1) {
        q + 1
    } else {
        q
    }
}

/// The number of low bits that `x / d` has beyond 53: the least `k` for which
/// `x / d` is below two to the power of `53 + k`.
pub open spec fn excess_bits(x: nat, d: nat) -> nat
    decreases x - d,
{
    if d == 0 || x < 0x20_0000_0000_0000 * d {
        0
    } else {
        1 + excess_bits(x, 2 * d)
    }
}

/// The binary64 number nearest to `x / d` units, in units.
pub open spec fn nearest_double(x: nat, d: nat) -> nat {
    let k = excess_bits(x, d);
    round_half_even(x, d * power2::pow2(k)) * power2::pow2(k)
}

/// The units in the number one.
pub open spec fn one() -> nat {
    power2::pow2(1074)
}

/// A whole number converted to binary64.
pub open spec fn double_of_int(n: nat) -> nat {
    nearest_double(n * one(), 1)
}

/// The product of a binary64 number and one hundred.
pub open spec fn double_times_hundred(a: nat) -> nat {
    nearest_double(a * 100, 1)
}

/// The quotient of two binary64 numbers.
pub open spec fn double_quotient(a: nat, b: nat) -> nat {
    nearest_double(a * one(), b)
}

/// A binary64 number rounded to two decimals, in hundredths.
pub open spec fn double_to_hundredths(a: nat) -> nat {
    round_half_even(a * 100, one())
}

/// `total` per `count` in binary64, rounded to hundredths; zero when there is
/// nothing to divide by.
pub open spec fn average_hundredths(total: nat, count: nat) -> nat {
    if count == 0 {
        0
    } else {
        double_to_hundredths(double_quotient(double_of_int(total), double_of_int(count)))
    }
}

/// `part` as a percentage of `total` in binary64, rounded to hundredths; zero
/// when the total is zero.
pub open spec fn percent_hundredths(part: nat, total: nat) -> nat {
    if total == 0 {
        0
    } else {
        double_to_hundredths(
            double_quotient(double_times_hundred(double_of_int(part)), double_of_int(total)),
        )
    }
}

/// Rounding looks at the ratio alone.
proof fn lemma_round_scale(n: nat, d: nat, c: nat)
    requires
        d > 0,
        c > 0,
    ensures
        round_half_even(n * c, d * c) == round_half_even(n, d),
{
    let q = n / d;
    let r = n % d;
    div_mod::lemma_fundamental_div_mod(n as int, d as int);
    assert(n * c == q * (d * c) + r * c) by (nonlinear_arith)
        requires
            n == d * q + r,
    ;
    assert(0 <= r * c < d * c) by (nonlinear_arith)
        requires
            0 <= r < d,
            c > 0,
    ;
    div_mod::lemma_fundamental_div_mod_converse(
        (n * c) as int,
        (d * c) as int,
        q as int,
        (r * c) as int,
    );
    assert((2 * (r * c) > d * c) == (2 * r > d)) by (nonlinear_arith)
        requires
            c > 0,
    ;
    assert((2 * (r * c) == d * c) == (2 * r == d)) by (nonlinear_arith)
        requires
            c > 0,
    ;
}

/// A ratio that is a whole number rounds to itself.
proof fn lemma_round_exact(q: nat, d: nat)
    requires
        d > 0,
    ensures
        round_half_even(q * d, d) == q,
{
    div_mod::lemma_fundamental_div_mod_converse((q * d) as int, d as int, q as int, 0);
}

/// What the number of excess bits means.
pub proof fn lemma_excess_bits_bounds(x: nat, d: nat)
    requires
        d > 0,
    ensures
        x < 0x20_0000_0000_0000 * (d * power2::pow2(excess_bits(x, d))),
        excess_bits(x, d) > 0 ==> x >= 0x20_0000_0000_0000 * (d * power2::pow2(
            (excess_bits(x, d) - 1) as nat,
        )),
    decreases x - d,
{
    let k = excess_bits(x, d);
    power2::lemma2_to64();
    if x < 0x20_0000_0000_0000 * d {
        assert(k == 0);
        assert(d * 1 == d);
    } else {
        lemma_excess_bits_bounds(x, 2 * d);
        let j = excess_bits(x, 2 * d);
        assert(k == j + 1);
        power2::lemma_pow2_unfold(k);
        assert(2 * d * power2::pow2(j) == d * (2 * power2::pow2(j))) by (nonlinear_arith);
        if j > 0 {
            power2::lemma_pow2_unfold(j);
            assert(2 * d * power2::pow2((j - 1) as nat) == d * (2 * power2::pow2((j - 1) as nat)))
                by (nonlinear_arith);
        } else {
            assert(d * 1 == d);
        }
    }
}

/// The bounds determine the number of excess bits.
proof fn lemma_excess_bits_unique(x: nat, d: nat, k: nat)
    requires
        d > 0,
        x < 0x20_0000_0000_0000 * (d * power2::pow2(k)),
        k > 0 ==> x >= 0x20_0000_0000_0000 * (d * power2::pow2((k - 1) as nat)),
    ensures
        excess_bits(x, d) == k,
    decreases k,
{
    power2::lemma2_to64();
    if k == 0 {
        assert(d * 1 == d);
    } else {
        let j = (k - 1) as nat;
        power2::lemma_pow2_unfold(k);
        assert(2 * d * power2::pow2(j) == d * (2 * power2::pow2(j))) by (nonlinear_arith);
        if j > 0 {
            power2::lemma_pow2_unfold(j);
            assert(2 * d * power2::pow2((j - 1) as nat) == d * (2 * power2::pow2((j - 1) as nat)))
                by (nonlinear_arith);
        } else {
            assert(d * 1 == d);
        }
        lemma_excess_bits_unique(x, 2 * d, j);
        power2::lemma_pow2_pos(j);
        assert(d * power2::pow2(j) >= d) by (nonlinear_arith)
            requires
                power2::pow2(j) >= 1,
        ;
    }
}

/// Scaling a ratio by a power of two scales its nearest binary64 number, when
/// the ratio fills 53 bits or is a whole number.
proof fn lemma_nearest_scaled(n: nat, d: nat, j: nat)
    requires
        d > 0,
        excess_bits(n, d) > 0 || n % d == 0,
    ensures
        nearest_double(n * power2::pow2(j), d) == round_half_even(
            n,
            d * power2::pow2(excess_bits(n, d)),
        ) * power2::pow2(excess_bits(n, d) + j),
{
    let s = excess_bits(n, d);
    let p = power2::pow2(j);
    let x = n * p;
    power2::lemma_pow2_pos(j);
    power2::lemma_pow2_pos(s);
    lemma_excess_bits_bounds(n, d);
    if s > 0 {
        power2::lemma_pow2_adds(s, j);
        power2::lemma_pow2_adds((s - 1) as nat, j);
        assert((s - 1) as nat + j == (s + j - 1) as nat);
        let hi = power2::pow2(s);
        let lo = power2::pow2((s - 1) as nat);
        assert(d * (hi * p) == (d * hi) * p) by (nonlinear_arith);
        assert(d * (lo * p) == (d * lo) * p) by (nonlinear_arith);
        assert(x < 0x20_0000_0000_0000 * ((d * hi) * p)) by (nonlinear_arith)
            requires
                x == n * p,
                n < 0x20_0000_0000_0000 * (d * hi),
                p > 0,
        ;
        assert(x >= 0x20_0000_0000_0000 * ((d * lo) * p)) by (nonlinear_arith)
            requires
                x == n * p,
                n >= 0x20_0000_0000_0000 * (d * lo),
                p > 0,
        ;
        lemma_excess_bits_unique(x, d, s + j);
        assert(d * hi > 0) by (nonlinear_arith)
            requires
                d > 0,
                hi > 0,
        ;
        lemma_round_scale(n, d * hi, p);
    } else {
        let q = n / d;
        power2::lemma2_to64();
        div_mod::lemma_fundamental_div_mod(n as int, d as int);
        assert(n == q * d) by (nonlinear_arith)
            requires
                n == d * q + 0,
        ;
        assert(power2::pow2(s) == 1);
        assert(d * 1 == d);
        lemma_round_exact(q, d);
        let k = excess_bits(x, d);
        lemma_excess_bits_bounds(x, d);
        if k > j {
            let top = power2::pow2((k - 1) as nat);
            if k - 1 > j {
                power2::lemma_pow2_strictly_increases(j, (k - 1) as nat);
            }
            assert(n * p < 0x20_0000_0000_0000 * (d * top)) by (nonlinear_arith)
                requires
                    n < 0x20_0000_0000_0000 * d,
                    p <= top,
                    p > 0,
            ;
            assert(false);
        }
        let m = power2::pow2((j - k) as nat);
        power2::lemma_pow2_adds((j - k) as nat, k);
        power2::lemma_pow2_pos(k);
        let w = power2::pow2(k);
        assert(x == (q * m) * (d * w)) by (nonlinear_arith)
            requires
                x == n * p,
                n == q * d,
                p == m * w,
        ;
        assert(d * w > 0) by (nonlinear_arith)
            requires
                d > 0,
                w > 0,
        ;
        lemma_round_exact(q * m, d * w);
        assert((q * m) * w == q * p) by (nonlinear_arith)
            requires
                p == m * w,
        ;
        assert(0 + j == j);
    }
}

/// A common factor of a ratio does not change its nearest binary64 number.
proof fn lemma_nearest_common_factor(x: nat, d: nat, c: nat)
    requires
        d > 0,
        c > 0,
    ensures
        nearest_double(x * c, d * c) == nearest_double(x, d),
{
    let k = excess_bits(x, d);
    let p = power2::pow2(k);
    power2::lemma_pow2_pos(k);
    lemma_excess_bits_bounds(x, d);
    assert(d * c * p == (d * p) * c) by (nonlinear_arith);
    assert(d * c > 0) by (nonlinear_arith)
        requires
            d > 0,
            c > 0,
    ;
    assert(d * p > 0) by (nonlinear_arith)
        requires
            d > 0,
            p > 0,
    ;
    assert(x * c < 0x20_0000_0000_0000 * ((d * p) * c)) by (nonlinear_arith)
        requires
            x < 0x20_0000_0000_0000 * (d * p),
            c > 0,
    ;
    if k > 0 {
        let lo = power2::pow2((k - 1) as nat);
        assert(d * c * lo == (d * lo) * c) by (nonlinear_arith);
        assert(x * c >= 0x20_0000_0000_0000 * ((d * lo) * c)) by (nonlinear_arith)
            requires
                x >= 0x20_0000_0000_0000 * (d * lo),
                c > 0,
        ;
    }
    lemma_excess_bits_unique(x * c, d * c, k);
    lemma_round_scale(x, d * p, c);
}

/// `mantissa` times two to the power of `exponent`.
struct Double {
    mantissa: u64,
    exponent: i32,
}

impl Double {
    /// The value in units.
    spec fn units(self) -> nat {
        (self.mantissa * power2::pow2((1074 + self.exponent) as nat)) as nat
    }

    /// The mantissa has at most 53 bits, and the exponent is far from the ends
    /// of the range.
    spec fn within(self, low: int, high: int) -> bool {
        &&& self.mantissa <= 0x20_0000_0000_0000
        &&& low <= self.exponent <= high
    }
}

/// `n / d` rounded to a whole number, halves to even.
fn round_div(n: u128, d: u128) -> (m: u128)
    requires
        d > 0,
    ensures
        m == round_half_even(n as nat, d as nat),
{
    let q: u128 = n / d;
    let r: u128 = n % d;
    if r > d - r || (r == d - r && q % 2 == 1) {
        assert(q <= n / 2) by (nonlinear_arith)
            requires
                q == n / d,
                d >= 2,
        ;
        q + 1
    } else {
        q
    }
}

/// Rounds `n / d` to at most 53 bits; gives the mantissa and the number of
/// bits dropped.
fn round_ratio(n: u128, d: u128) -> (r: (u64, u32))
    requires
        d > 0,
    ensures
        r.1 == excess_bits(n as nat, d as nat),
        r.0 == round_half_even(n as nat, d as nat * power2::pow2(r.1 as nat)),
        r.0 <= 0x20_0000_0000_0000,
        r.1 <= 75,
{
    let mut scaled: u128 = d;
    let mut shift: u32 = 0;
    proof {
        power2::lemma2_to64();
        assert(d * 1 == d);
    }
    while n / scaled >= 0x20_0000_0000_0000
        invariant
            d > 0,
            scaled > 0,
            shift <= 75,
            scaled == d * power2::pow2(shift as nat),
            excess_bits(n as nat, d as nat) == shift + excess_bits(n as nat, scaled as nat),
        decreases n - scaled,
    {
        proof {
            div_mod::lemma_fundamental_div_mod(n as int, scaled as int);
            let q = n as int / scaled as int;
            assert(n >= 0x20_0000_0000_0000 * scaled) by (nonlinear_arith)
                requires
                    n >= scaled * q,
                    q >= 0x20_0000_0000_0000,
                    scaled > 0,
            ;
            power2::lemma_pow2_unfold(shift as nat + 1);
            assert(2 * scaled == d * (2 * power2::pow2(shift as nat))) by (nonlinear_arith)
                requires
                    scaled == d * power2::pow2(shift as nat),
            ;
            if shift == 75 {
                power2::lemma2_to64();
                power2::lemma_pow2_adds(64, 11);
                assert(scaled >= power2::pow2(75)) by (nonlinear_arith)
                    requires
                        scaled == d * power2::pow2(75),
                        d >= 1,
                ;
                assert(false);
            }
        }
        scaled = 2 * scaled;
        shift = shift + 1;
    }
    assert(n < 0x20_0000_0000_0000 * scaled) by {
        div_mod::lemma_fundamental_div_mod(n as int, scaled as int);
        assert(n < 0x20_0000_0000_0000 * scaled) by (nonlinear_arith)
            requires
                n == scaled * (n as int / scaled as int) + n as int % scaled as int,
                n as int / scaled as int <= 0x1F_FFFF_FFFF_FFFF,
                (n as int % (scaled as int)) < scaled,
        ;
    }
    let m: u128 = round_div(n, scaled);
    (m as u64, shift)
}

/// A ratio below two to the power of `53 + b` drops at most `b` bits.
proof fn lemma_excess_bits_at_most(x: nat, d: nat, b: nat)
    requires
        d > 0,
        x < 0x20_0000_0000_0000 * (d * power2::pow2(b)),
    ensures
        excess_bits(x, d) <= b,
{
    let k = excess_bits(x, d);
    lemma_excess_bits_bounds(x, d);
    if k > b {
        if k - 1 > b {
            power2::lemma_pow2_strictly_increases(b, (k - 1) as nat);
        }
        let top = power2::pow2((k - 1) as nat);
        assert(d * power2::pow2(b) <= d * top) by (nonlinear_arith)
            requires
                power2::pow2(b) <= top,
        ;
    }
}

/// A whole number in binary64.
fn from_int(n: u64) -> (v: Double)
    ensures
        v.units() == double_of_int(n as nat),
        v.within(0, 11),
        v.mantissa == 0 <==> n == 0,
{
    let (mantissa, shift) = round_ratio(n as u128, 1);
    proof {
        power2::lemma2_to64();
        lemma_excess_bits_at_most(n as nat, 1, 11);
        lemma_nearest_scaled(n as nat, 1, 1074);
        lemma_excess_bits_bounds(n as nat, 1);
        let k = shift as nat;
        power2::lemma_pow2_pos(k);
        let w = 1 * power2::pow2(k);
        assert(w == power2::pow2(k));
        if n > 0 {
            if k == 0 {
                lemma_round_exact(n as nat, 1);
            } else {
                power2::lemma_pow2_unfold(k);
                assert(n as nat / w >= 1) by (nonlinear_arith)
                    requires
                        n >= w,
                        w > 0,
                ;
            }
        } else {
            lemma_round_exact(0, w);
        }
    }
    Double { mantissa, exponent: shift as i32 }
}

/// One hundred times a number that came from an integer.
fn times_hundred(a: Double) -> (v: Double)
    requires
        a.within(0, 11),
    ensures
        v.units() == double_times_hundred(a.units()),
        v.within(0, 18),
{
    let n: u128 = a.mantissa as u128 * 100;
    let (mantissa, shift) = round_ratio(n, 1);
    proof {
        power2::lemma2_to64();
        lemma_excess_bits_at_most(n as nat, 1, 7);
        let j = (1074 + a.exponent) as nat;
        lemma_nearest_scaled(n as nat, 1, j);
        assert(n * power2::pow2(j) == a.mantissa * power2::pow2(j) * 100) by (nonlinear_arith)
            requires
                n == a.mantissa * 100,
        ;
        assert(shift as nat + j == (1074 + (a.exponent + shift)) as nat);
    }
    Double { mantissa, exponent: a.exponent + shift as i32 }
}

/// The quotient of two numbers.
fn quotient(a: Double, b: Double) -> (v: Double)
    requires
        a.within(0, 18),
        b.within(0, 11),
        b.mantissa > 0,
    ensures
        v.units() == double_quotient(a.units(), b.units()),
        v.within(-200, 19),
{
    let ghost c = power2::pow2((1074 + b.exponent) as nat);
    let ghost d = b.units();
    proof {
        power2::lemma2_to64();
        power2::lemma_pow2_pos((1074 + b.exponent) as nat);
        assert(d == b.mantissa * c);
        assert(d > 0) by (nonlinear_arith)
            requires
                d == b.mantissa * c,
                b.mantissa > 0,
                c > 0,
        ;
    }
    if a.mantissa == 0 {
        proof {
            assert(a.units() == 0) by (nonlinear_arith)
                requires
                    a.units() == 0 * power2::pow2((1074 + a.exponent) as nat),
            ;
            assert(0 * one() == 0);
            assert(d * 1 == d);
            lemma_round_exact(0, d);
        }
        return Double { mantissa: 0, exponent: 0 };
    }
    let mut m: u64 = a.mantissa;
    let mut e: i32 = a.exponent;
    while m < 0x10_0000_0000_0000
        invariant
            0 < m <= 0x20_0000_0000_0000,
            0 <= a.exponent <= 18,
            a.exponent - 52 <= e <= a.exponent,
            m >= power2::pow2((a.exponent - e) as nat),
            a.units() == m * power2::pow2((1074 + e) as nat),
        decreases 0x20_0000_0000_0000 - m,
    {
        proof {
            if e == a.exponent - 52 {
                power2::lemma2_to64();
                power2::lemma_pow2_adds(32, 20);
                assert(false);
            }
            power2::lemma_pow2_unfold((1074 + e) as nat);
            power2::lemma_pow2_unfold((a.exponent - e + 1) as nat);
            assert(m * (2 * power2::pow2((1074 + e - 1) as nat)) == (2 * m) * power2::pow2(
                (1074 + e - 1) as nat,
            )) by (nonlinear_arith);
        }
        m = 2 * m;
        e = e - 1;
    }
    let n: u128 = m as u128 * 0x400_0000_0000_0000_0000;
    let (mantissa, shift) = round_ratio(n, b.mantissa as u128);
    proof {
        let j = (1000 + e - b.exponent) as nat;
        let p = power2::pow2(j);
        let mb = b.mantissa as nat;
        power2::lemma_pow2_adds(64, 10);
        let t = power2::pow2(74);
        assert(t == 0x400_0000_0000_0000_0000);
        lemma_excess_bits_bounds(n as nat, mb);
        assert(mb * 1 == mb);
        assert(shift > 0);
        lemma_nearest_scaled(n as nat, mb, j);
        lemma_nearest_common_factor(n as nat * p, mb, c);
        let f = power2::pow2((1074 + e) as nat);
        power2::lemma_pow2_adds((1074 + e) as nat, 1074);
        power2::lemma_pow2_adds(74, j);
        power2::lemma_pow2_adds(74 + j, (1074 + b.exponent) as nat);
        assert(74 + j + (1074 + b.exponent) as nat == (1074 + e) as nat + 1074);
        assert(a.units() * one() == (n as nat * p) * c) by (nonlinear_arith)
            requires
                a.units() == m * f,
                n == m * t,
                f * one() == (t * p) * c,
        ;
        assert(shift as nat + j == (1074 + (e - b.exponent - 74 + shift)) as nat);
    }
    Double { mantissa, exponent: e - b.exponent - 74 + shift as i32 }
}

/// `n` times two to the power of `e`.
fn scale_up(n: u128, e: u32) -> (r: u128)
    requires
        n * power2::pow2(e as nat) <= u128::MAX,
    ensures
        r == n * power2::pow2(e as nat),
{
    let mut r: u128 = n;
    let mut done: u32 = 0;
    proof {
        power2::lemma2_to64();
        assert(n * 1 == n);
    }
    while done < e
        invariant
            done <= e,
            r == n * power2::pow2(done as nat),
            n * power2::pow2(e as nat) <= u128::MAX,
        decreases e - done,
    {
        proof {
            power2::lemma_pow2_unfold((done + 1) as nat);
            if done + 1 < e {
                power2::lemma_pow2_strictly_increases((done + 1) as nat, e as nat);
            }
            let p = power2::pow2(done as nat);
            assert(2 * r == n * (2 * p)) by (nonlinear_arith)
                requires
                    r == n * p,
            ;
            assert(n * (2 * p) <= n * power2::pow2(e as nat)) by (nonlinear_arith)
                requires
                    2 * p <= power2::pow2(e as nat),
            ;
        }
        r = 2 * r;
        done = done + 1;
    }
    r
}

/// Rounds to two decimals; the result is in hundredths.
fn to_hundredths(v: Double) -> (r: u128)
    requires
        v.within(-200, 19),
    ensures
        r == double_to_hundredths(v.units()),
{
    let n: u128 = v.mantissa as u128 * 100;
    proof {
        power2::lemma2_to64();
        power2::lemma2_to64_rest();
        power2::lemma_pow2_adds(64, 36);
        power2::lemma_pow2_pos(1074);
    }
    if v.exponent >= 0 {
        let e: u32 = v.exponent as u32;
        proof {
            let p = power2::pow2(e as nat);
            if e < 19 {
                power2::lemma_pow2_strictly_increases(e as nat, 19);
            }
            assert(n * p <= 0x20_0000_0000_0000 * 100 * 0x8_0000) by (nonlinear_arith)
                requires
                    n <= 0x20_0000_0000_0000 * 100,
                    p <= 0x8_0000,
            ;
            power2::lemma_pow2_adds(1074, e as nat);
            assert((v.mantissa * (one() * p)) * 100 == (n * p) * one()) by (nonlinear_arith)
                requires
                    n == v.mantissa * 100,
            ;
            lemma_round_exact((n * p) as nat, one());
        }
        scale_up(n, e)
    } else {
        let t: u32 = (-v.exponent) as u32;
        let ghost c = power2::pow2((1074 - t) as nat);
        let ghost p = power2::pow2(t as nat);
        proof {
            power2::lemma_pow2_adds(t as nat, (1074 - t) as nat);
            power2::lemma_pow2_pos((1074 - t) as nat);
            power2::lemma_pow2_pos(t as nat);
            assert((v.mantissa * c) * 100 == n * c) by (nonlinear_arith)
                requires
                    n == v.mantissa * 100,
            ;
            lemma_round_scale(n as nat, p, c);
        }
        if t >= 100 {
            proof {
                if t > 100 {
                    power2::lemma_pow2_strictly_increases(100, t as nat);
                }
                div_mod::lemma_fundamental_div_mod_converse(n as int, p as int, 0, n as int);
            }
            0
        } else {
            proof {
                power2::lemma_pow2_strictly_increases(t as nat, 100);
                assert(1 * p == p);
            }
            let d: u128 = scale_up(1, t);
            round_div(n, d)
        }
    }
}

/// `total` per `count`, in hundredths; zero when `count` is zero.
pub fn average(total: u64, count: u64) -> (r: u128)
    ensures
        r == average_hundredths(total as nat, count as nat),
{
    if count == 0 {
        0
    } else {
        to_hundredths(quotient(from_int(total), from_int(count)))
    }
}

/// `part` as a percentage of `total`, in hundredths; zero when `total` is
/// zero.
pub fn percent(part: u64, total: u64) -> (r: u128)
    ensures
        r == percent_hundredths(part as nat, total as nat),
{
    if total == 0 {
        0
    } else {
        to_hundredths(quotient(times_hundred(from_int(part)), from_int(total)))
    }
}

} // verus!
