//! Rounding to 53 significant bits, as the results of 64-bit floating-point
//! arithmetic are rounded.
//!
//! A floating-point number is held as a count of some unit that is a power of
//! two and divides every number in question. What such an operation gives is
//! then the exact result, rounded to the nearest count with no more than 53
//! significant bits; of two that are as near, to the even one.
use vstd::arithmetic::div_mod::{lemma_fundamental_div_mod, lemma_fundamental_div_mod_converse};
use vstd::arithmetic::power2::pow2;
use vstd::prelude::*;

verus! {

/// The smallest number with more than 53 bits: 2^53.
pub const WHOLE: u128 = 9_007_199_254_740_992;

/// The largest count that is rounded here: 2^125.
pub const LARGEST: u128 = 42_535_295_865_117_307_932_921_825_928_971_026_432;

/// `n / d`, rounded to the nearest integer; of two that are as near, to the even
/// one.
pub open spec fn half_even(n: int, d: int) -> int {
    let q = n / d;
    let r = n % d;
    if 2 * r < d || 2 * r == d && q % 2 == 0 {
        q
    } else {
        q + 1
    }
}

/// The smallest power of two of which `n` holds fewer than 2^53: the distance
/// between neighbouring numbers of 53 significant bits at `n`.
pub open spec fn grain(n: nat) -> nat
    decreases n,
{
    if n < WHOLE {
        1
    } else {
        2 * grain(n / 2)
    }
}

/// `n / d`, if that is at least 2^52, to 53 significant bits.
pub open spec fn rounded_ratio(n: nat, d: nat) -> int {
    let g = grain(n / d);
    half_even(n as int, (d * g) as int) * g
}

/// `n` to 53 significant bits.
pub open spec fn rounded(n: int) -> int {
    if n < 0 {
        -rounded_ratio((-n) as nat, 1)
    } else {
        rounded_ratio(n as nat, 1)
    }
}

/// How `n` compares with its grain.
proof fn lemma_grain(n: nat)
    ensures
        grain(n) >= 1,
        n < WHOLE * grain(n),
        n >= WHOLE ==> WHOLE * grain(n) <= 2 * n,
        n < WHOLE ==> grain(n) == 1,
    decreases n,
{
    if n >= WHOLE {
        lemma_grain(n / 2);
    }
}

/// Rounding changes a number by no more than one part in 2^53, and not at all if
/// it has no more than 53 bits.
pub proof fn lemma_rounded_close(n: int)
    ensures
        -WHOLE < n < WHOLE ==> rounded(n) == n,
        n >= 0 ==> rounded(n) >= 0 && -n <= WHOLE * (rounded(n) - n) <= n,
        n <= 0 ==> rounded(n) <= 0 && n <= WHOLE * (rounded(n) - n) <= -n,
{
    let m = (if n < 0 {
        -n
    } else {
        n
    }) as nat;
    let g = grain(m) as int;
    let h = half_even(m as int, g);
    let r = h * g;
    lemma_grain(m);
    lemma_fundamental_div_mod(m as int, g);
    let q = m as int / g;
    let rest = m as int % g;
    assert(g * q == q * g && (q + 1) * g == q * g + g) by (nonlinear_arith);
    assert(0 <= q) by (nonlinear_arith)
        requires
            q == m as int / g,
            m >= 0,
            g >= 1,
    ;
    assert(0 <= q * g) by (nonlinear_arith)
        requires
            q >= 0,
            g >= 1,
    ;
    assert(-g <= 2 * (r - m) <= g);
    if m < WHOLE {
        assert(g == 1);
        assert(r == m);
    }
    assert(-m <= WHOLE * (r - m) <= m);
    assert(rounded_ratio(m, 1) == r);
}

/// Rounding a ratio changes it by no more than one part in 2^53.
pub proof fn lemma_ratio_close(n: nat, d: nat)
    requires
        d > 0,
        d * 4_503_599_627_370_496 <= n,
    ensures
        -n <= WHOLE * (rounded_ratio(n, d) * d - n) <= n,
        rounded_ratio(n, d) >= 0,
{
    let g = grain(n / d) as int;
    let step = d * g;
    let h = half_even(n as int, step);
    lemma_grain(n / d);
    assert(d * (n / d) <= n) by (nonlinear_arith)
        requires
            d > 0,
    ;
    assert(step * 4_503_599_627_370_496 <= n) by {
        if n / d >= WHOLE {
            assert(2 * g * 4_503_599_627_370_496 <= 2 * (n / d));
            assert(d * (g * 4_503_599_627_370_496) <= d * (n / d)) by (nonlinear_arith)
                requires
                    g * 4_503_599_627_370_496 <= n / d,
                    d > 0,
            ;
            assert(d * (g * 4_503_599_627_370_496) == step * 4_503_599_627_370_496)
                by (nonlinear_arith)
                requires
                    step == d * g,
            ;
        } else {
            assert(step == d) by (nonlinear_arith)
                requires
                    step == d * g,
                    g == 1,
            ;
        }
    }
    assert(step > 0) by (nonlinear_arith)
        requires
            step == d * g,
            d > 0,
            g >= 1,
    ;
    lemma_fundamental_div_mod(n as int, step);
    let q = n as int / step;
    assert(q >= 0) by (nonlinear_arith)
        requires
            q == n as int / step,
            n >= 0,
            step > 0,
    ;
    assert(step * q == q * step && (q + 1) * step == q * step + step) by (nonlinear_arith);
    assert(-step <= 2 * (h * step - n) <= step);
    assert(h * step == (h * g) * d) by (nonlinear_arith)
        requires
            step == d * g,
    ;
    assert(rounded_ratio(n, d) == h * g);
    assert(h * g >= 0) by (nonlinear_arith)
        requires
            h >= 0,
            g >= 1,
    ;
}

/// Rounding is to the nearest number of 53 significant bits: with `g` the power of
/// two for which such numbers at `n` are the multiples of `g`, the result is one of
/// them, none is nearer, and of two that are as near it is the even multiple. A
/// negative number is rounded as its opposite.
pub proof fn lemma_rounded_is_nearest(n: int, m: int) -> (g: int)
    requires
        n >= 9_007_199_254_740_992,
    ensures
        exists|k: nat| g == #[trigger] pow2(k),
        4_503_599_627_370_496 * g <= n < 9_007_199_254_740_992 * g,
        rounded(n) % g == 0,
        m * g <= n ==> n - m * g >= rounded(n) - n && n - m * g >= n - rounded(n),
        m * g >= n ==> m * g - n >= rounded(n) - n && m * g - n >= n - rounded(n),
        2 * (rounded(n) - n) == g || 2 * (n - rounded(n)) == g ==> (rounded(n) / g) % 2 == 0,
        rounded(-n) == -rounded(n),
{
    let g = grain(n as nat) as int;
    lemma_grain(n as nat);
    let k = lemma_grain_is_power(n as nat);
    lemma_fundamental_div_mod(n, g);
    let q = n / g;
    let r = n % g;
    let h = half_even(n, g);
    assert(rounded(n) == h * g);
    assert(q * g == g * q && (q + 1) * g == q * g + g && g * h == h * g) by (nonlinear_arith);
    lemma_fundamental_div_mod_converse(h * g, g, h, 0);
    if m <= q {
        assert(m * g <= q * g) by (nonlinear_arith)
            requires
                m <= q,
                g >= 1,
        ;
    } else {
        assert(m * g >= (q + 1) * g) by (nonlinear_arith)
            requires
                m >= q + 1,
                g >= 1,
        ;
    }
    g
}

/// So is the rounding of a ratio: with `g` the power of two for which numbers of 53
/// significant bits at `n / d` are the multiples of `g`, the result is one of them,
/// none is nearer, and of two that are as near it is the even multiple.
pub proof fn lemma_ratio_is_nearest(n: nat, d: nat, m: int) -> (g: int)
    requires
        d > 0,
        n / d >= 4_503_599_627_370_496,
    ensures
        exists|k: nat| g == #[trigger] pow2(k),
        4_503_599_627_370_496 * g <= n / d < 9_007_199_254_740_992 * g,
        rounded_ratio(n, d) % g == 0,
        ({
            let off = rounded_ratio(n, d) * d - n;
            &&& (m * g) * d <= n ==> n - (m * g) * d >= off && n - (m * g) * d >= -off
            &&& (m * g) * d >= n ==> (m * g) * d - n >= off && (m * g) * d - n >= -off
            &&& 2 * off == d * g || -2 * off == d * g ==> (rounded_ratio(n, d) / g) % 2 == 0
        }),
{
    let g = grain(n / d) as int;
    let step = d * g;
    let h = half_even(n as int, step);
    lemma_grain(n / d);
    let k = lemma_grain_is_power(n / d);
    assert(step > 0) by (nonlinear_arith)
        requires
            step == d * g,
            d > 0,
            g >= 1,
    ;
    lemma_fundamental_div_mod(n as int, step);
    let q = n as int / step;
    assert(step * q == q * step && (q + 1) * step == q * step + step) by (nonlinear_arith);
    assert((h * g) * d == h * step && (m * g) * d == m * step && g * h == h * g)
        by (nonlinear_arith)
        requires
            step == d * g,
    ;
    assert(rounded_ratio(n, d) == h * g);
    lemma_fundamental_div_mod_converse(h * g, g, h, 0);
    if m <= q {
        assert(m * step <= q * step) by (nonlinear_arith)
            requires
                m <= q,
                step > 0,
        ;
    } else {
        assert(m * step >= (q + 1) * step) by (nonlinear_arith)
            requires
                m >= q + 1,
                step > 0,
        ;
    }
    g
}

/// A grain is a power of two.
proof fn lemma_grain_is_power(n: nat) -> (k: nat)
    ensures
        grain(n) == pow2(k),
    decreases n,
{
    if n < WHOLE {
        vstd::arithmetic::power2::lemma2_to64();
        0
    } else {
        let k = lemma_grain_is_power(n / 2);
        vstd::arithmetic::power2::lemma_pow2_unfold(k + 1);
        k + 1
    }
}

/// Rounding a number from 2^55 to 2^57: to multiples of eight in the lower half of
/// that range in bits, and of sixteen in the upper.
pub proof fn lemma_rounded_between(n: int)
    requires
        36_028_797_018_963_968 <= n < 144_115_188_075_855_872,
    ensures
        n < 72_057_594_037_927_936 ==> rounded(n) == half_even(n, 8) * 8,
        n >= 72_057_594_037_927_936 ==> rounded(n) == half_even(n, 16) * 16,
{
    reveal_with_fuel(grain, 6);
    assert(grain(n as nat) == if n < 72_057_594_037_927_936 {
        8nat
    } else {
        16nat
    });
}

/// The grain of `n`.
fn grain_of(n: u128) -> (g: u128)
    requires
        n <= LARGEST,
    ensures
        g == grain(n as nat),
        1 <= g <= LARGEST,
{
    let mut g: u128 = 1;
    let mut rest: u128 = n;
    while rest >= WHOLE
        invariant
            1 <= g <= LARGEST,
            g * grain(rest as nat) == grain(n as nat),
            g * rest <= n <= LARGEST,
        decreases rest,
    {
        let half = rest / 2;
        assert(2 * g * half <= g * rest) by (nonlinear_arith)
            requires
                2 * half <= rest,
                g >= 1,
        ;
        assert(2 * g * grain(half as nat) == g * (2 * grain(half as nat))) by (nonlinear_arith);
        assert(2 * g <= 2 * g * half) by (nonlinear_arith)
            requires
                half >= 1,
                g >= 1,
        ;
        g = 2 * g;
        rest = half;
    }
    assert(g * grain(rest as nat) == g) by (nonlinear_arith)
        requires
            grain(rest as nat) == 1,
    ;
    g
}

/// The number `q + r / d` to 53 significant bits, if it is at least 2^52 or `r` is
/// zero.
pub(crate) fn round_parts(q: u128, r: u128, d: u128) -> (out: u128)
    requires
        q <= LARGEST,
        r < d <= 1_000_000_000,
    ensures
        out == rounded_ratio((q * d + r) as nat, d as nat),
        out <= 2 * q + 1,
{
    let g = grain_of(q);
    let high = q / g;
    let low = q % g;
    proof {
        let n = q * d + r;
        lemma_grain(q as nat);
        lemma_fundamental_div_mod_converse(n, d as int, q as int, r as int);
        lemma_fundamental_div_mod(q as int, g as int);
        let rest = low * d + r;
        assert(n == (d * g) * high + rest) by (nonlinear_arith)
            requires
                n == q * d + r,
                q == g * high + low,
                rest == low * d + r,
        ;
        assert(0 <= rest < d * g) by (nonlinear_arith)
            requires
                rest == low * d + r,
                0 <= low < g,
                0 <= r < d,
        ;
        lemma_fundamental_div_mod_converse(n, d * g, high as int, rest);
        assert(d * g <= 1_000_000_000 * g) by (nonlinear_arith)
            requires
                0 < d <= 1_000_000_000,
                g >= 1,
        ;
        assert(WHOLE * g <= 2 * q || g == 1);
        assert(low * d <= d * g) by (nonlinear_arith)
            requires
                0 <= low < g,
                0 < d,
        ;
        assert(high * g <= q) by (nonlinear_arith)
            requires
                q == g * high + low,
                0 <= low,
        ;
        assert((high + 1) * g == high * g + g) by (nonlinear_arith);
    }
    let rest = low * d + r;
    let step = d * g;
    let whole = if 2 * rest < step || 2 * rest == step && high % 2 == 0 {
        high
    } else {
        high + 1
    };
    whole * g
}

/// `n` to 53 significant bits.
pub(crate) fn round(n: i128) -> (r: i128)
    requires
        -LARGEST <= n <= LARGEST,
    ensures
        r == rounded(n as int),
        n >= 0 ==> 0 <= r,
        -2 * LARGEST <= r <= 2 * LARGEST,
{
    proof {
        lemma_rounded_close(n as int);
    }
    if n < 0 {
        -(round_parts((-n) as u128, 0, 1) as i128)
    } else {
        round_parts(n as u128, 0, 1) as i128
    }
}

} // verus!
