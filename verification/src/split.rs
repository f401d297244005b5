//! Splitting a length by a percentage.
//!
//! A split hands the first part `total * (ratio / 100)` pixels, where the
//! quotient and the product are each rounded as IEEE 754 double precision
//! rounds them (to the nearest value with 53 significant bits, ties to
//! even) and the result is cut down to a whole number.  The rounding makes
//! the share differ from the exact `total * ratio / 100` now and then:
//! 29 percent of 100 are 28.  This module computes the share with integers
//! alone and proves the result to be the one just described.

use vstd::prelude::*;

verus! {

/// Two to the power of `k`.
pub open spec fn two_pow(k: nat) -> nat
    decreases k,
{
    if k == 0 {
        1
    } else {
        2 * two_pow((k - 1) as nat)
    }
}

/// The fraction `n / d` rounded to the nearest whole number, a tie going to
/// the even neighbour.
pub open spec fn nearest_even(n: nat, d: nat) -> nat
    recommends
        d > 0,
{
    let q = n / d;
    let rem = n % d;
    if 2 * rem < d || (2 * rem == d && q % 2 == 0) {
        q
    } else {
        q + 1
    }
}

/// The number of low bits a number has to lose to fit into 53 bits.
pub open spec fn excess_bits(n: nat) -> nat
    decreases n,
{
    if n < 0x20_0000_0000_0000 {
        0
    } else {
        1 + excess_bits(n / 2)
    }
}

/// A number rounded to 53 significant bits.
pub open spec fn rounded(n: nat) -> nat {
    let unit = two_pow(excess_bits(n));
    nearest_even(n, unit) * unit
}

/// For a ratio between 1 and 99, the `e` with `100 <= ratio * 2^e < 200`:
/// the fraction `ratio / 100` lies between `2^-e` and `2^(1-e)`.
pub open spec fn binade(ratio: int) -> nat {
    if ratio >= 50 {
        1
    } else if ratio >= 25 {
        2
    } else if ratio >= 13 {
        3
    } else if ratio >= 7 {
        4
    } else if ratio >= 4 {
        5
    } else if ratio >= 2 {
        6
    } else {
        7
    }
}

/// For a ratio between 1 and 99, the double nearest to `ratio / 100`, as a
/// multiple of `2^-(52 + binade(ratio))`.
pub open spec fn factor_mantissa(ratio: int) -> nat {
    nearest_even((ratio * two_pow(52 + binade(ratio))) as nat, 100)
}

/// The first part of `total` when it is split by `ratio` percent.  A ratio
/// below zero counts as zero, one above a hundred as a hundred.
pub open spec fn spec_share(total: nat, ratio: int) -> nat {
    if ratio <= 0 {
        0
    } else if ratio >= 100 {
        total
    } else {
        rounded(total * factor_mantissa(ratio)) / two_pow(52 + binade(ratio))
    }
}

proof fn lemma_two_pow_values()
    ensures
        two_pow(0) == 1,
        two_pow(1) == 2,
        two_pow(2) == 4,
        two_pow(3) == 8,
        two_pow(4) == 16,
        two_pow(5) == 32,
        two_pow(6) == 64,
        two_pow(7) == 128,
        two_pow(52) == 0x10_0000_0000_0000,
        two_pow(53) == 0x20_0000_0000_0000,
{
    reveal_with_fuel(two_pow, 54);
}

proof fn lemma_two_pow_sum(a: nat, b: nat)
    ensures
        two_pow(a + b) == two_pow(a) * two_pow(b),
    decreases a,
{
    if a == 0 {
        assert(two_pow(a + b) == 1 * two_pow(b));
    } else {
        lemma_two_pow_sum((a - 1) as nat, b);
        assert(two_pow(a + b) == 2 * two_pow((a - 1 + b) as nat));
        assert(2 * (two_pow((a - 1) as nat) * two_pow(b)) == (2 * two_pow((a - 1) as nat)) * two_pow(b))
            by (nonlinear_arith);
    }
}

proof fn lemma_two_pow_monotone(a: nat, b: nat)
    requires
        a <= b,
    ensures
        two_pow(a) <= two_pow(b),
        two_pow(a) >= 1,
    decreases b,
{
    if a < b {
        lemma_two_pow_monotone(a, (b - 1) as nat);
    } else if a > 0 {
        lemma_two_pow_monotone((a - 1) as nat, (a - 1) as nat);
    }
}

/// Rounding to a multiple of `unit` never passes a multiple of `unit`.
proof fn lemma_nearest_even_bounded(n: nat, unit: nat, bound: nat)
    requires
        unit > 0,
        n <= bound * unit,
    ensures
        nearest_even(n, unit) <= bound,
{
    let q = n / unit;
    let rem = n % unit;
    assert(n == unit * q + rem && 0 <= rem < unit) by {
        vstd::arithmetic::div_mod::lemma_fundamental_div_mod(n as int, unit as int);
    }
    if q >= bound {
        assert(q == bound && rem == 0) by (nonlinear_arith)
            requires
                q >= bound,
                unit > 0,
                rem >= 0,
                unit * q + rem <= bound * unit,
        ;
    }
}

/// The mantissa of a ratio between 1 and 99 has at most 53 bits and does
/// not exceed the unit it is counted in.
proof fn lemma_mantissa_bounds(ratio: int)
    requires
        0 < ratio < 100,
    ensures
        factor_mantissa(ratio) <= two_pow(53),
        factor_mantissa(ratio) <= two_pow(52 + binade(ratio)),
        two_pow(52 + binade(ratio)) >= two_pow(53),
{
    let e = binade(ratio);
    let unit = two_pow(52 + e);
    lemma_two_pow_values();
    lemma_two_pow_sum(52, e);
    lemma_two_pow_monotone(53, 52 + e);
    assert(ratio * two_pow(e) <= 200) by {
        if ratio >= 50 {
            assert(ratio * 2 <= 200);
        } else if ratio >= 25 {
            assert(ratio * 4 <= 200);
        } else if ratio >= 13 {
            assert(ratio * 8 <= 200);
        } else if ratio >= 7 {
            assert(ratio * 16 <= 200);
        } else if ratio >= 4 {
            assert(ratio * 32 <= 200);
        } else if ratio >= 2 {
            assert(ratio * 64 <= 200);
        } else {
            assert(ratio * 128 <= 200);
        }
    }
    assert(ratio * unit <= two_pow(53) * 100) by (nonlinear_arith)
        requires
            unit == two_pow(52) * two_pow(e),
            two_pow(53) == 2 * two_pow(52),
            ratio * two_pow(e) <= 200,
    ;
    lemma_nearest_even_bounded((ratio * unit) as nat, 100, two_pow(53));
}

/// A number below `2^(53 + k)` has at most `k` excess bits.
proof fn lemma_excess_bits_bounded(n: nat, k: nat)
    requires
        n < two_pow(53 + k),
    ensures
        excess_bits(n) <= k,
    decreases k,
{
    lemma_two_pow_values();
    if n >= 0x20_0000_0000_0000 {
        if k > 0 {
            assert(two_pow(53 + k) == 2 * two_pow((53 + k - 1) as nat));
            lemma_excess_bits_bounded(n / 2, (k - 1) as nat);
        }
    }
}

/// A 16-bit length times a mantissa is rounded by dropping at most 16 bits,
/// and rounding it never passes a multiple of `2^width` for `width >= 53`.
proof fn lemma_rounded_bounded(total: nat, m: nat, width: nat)
    requires
        total <= 0xffff,
        m <= two_pow(53),
        m <= two_pow(width),
        width >= 53,
    ensures
        excess_bits(total * m) <= 16,
        rounded(total * m) <= total * two_pow(width),
{
    let n = total * m;
    let unit = two_pow(width);
    lemma_two_pow_values();
    lemma_two_pow_sum(53, 16);
    assert(two_pow(16) == 0x1_0000) by {
        reveal_with_fuel(two_pow, 17);
    }
    assert(n < two_pow(53 + 16)) by (nonlinear_arith)
        requires
            n == total * m,
            total <= 0xffff,
            m <= two_pow(53),
            two_pow(53 + 16) == two_pow(53) * 0x1_0000,
            two_pow(53) >= 1,
    ;
    lemma_excess_bits_bounded(n, 16);
    let s = excess_bits(n);
    let step = two_pow(s);
    let rest = two_pow((width - s) as nat);
    lemma_two_pow_sum((width - s) as nat, s);
    lemma_two_pow_monotone(0, s);
    assert(unit == rest * step);
    assert(n <= (total * rest) * step) by (nonlinear_arith)
        requires
            n == total * m,
            m <= unit,
            unit == rest * step,
    ;
    lemma_nearest_even_bounded(n, step, total * rest);
    assert(nearest_even(n, step) * step <= total * unit) by (nonlinear_arith)
        requires
            nearest_even(n, step) <= total * rest,
            unit == rest * step,
    ;
}

/// The share of a length never exceeds the length.
pub proof fn lemma_share_bounded(total: nat, ratio: int)
    requires
        total <= 0xffff,
    ensures
        spec_share(total, ratio) <= total,
{
    if 0 < ratio < 100 {
        let unit = two_pow(52 + binade(ratio));
        let n = total * factor_mantissa(ratio);
        lemma_mantissa_bounds(ratio);
        lemma_rounded_bounded(total, factor_mantissa(ratio), 52 + binade(ratio));
        lemma_two_pow_monotone(0, 52 + binade(ratio));
        assert(rounded(n) / unit <= total) by {
            vstd::arithmetic::div_mod::lemma_div_is_ordered(
                rounded(n) as int,
                (total * unit) as int,
                unit as int,
            );
            vstd::arithmetic::div_mod::lemma_div_multiples_vanish(total as int, unit as int);
        }
    }
}

/// Rounding `n / d` to the nearest whole number is off by half at most.
proof fn lemma_nearest_even_close(n: nat, d: nat)
    requires
        d > 0,
    ensures
        2 * n - d <= 2 * (nearest_even(n, d) * d) <= 2 * n + d,
{
    let q = n / d;
    let rem = n % d;
    assert(n == d * q + rem && 0 <= rem < d) by {
        vstd::arithmetic::div_mod::lemma_fundamental_div_mod(n as int, d as int);
    }
    assert((q + 1) * d == d * q + d && q * d == d * q) by (nonlinear_arith);
}

/// The share is the exact percentage rounded down, or one less than that:
/// rounding twice on the way costs less than one pixel.
pub proof fn lemma_share_near_exact(total: nat, ratio: int)
    requires
        total <= 0xffff,
        0 <= ratio <= 100,
    ensures
        (total * ratio) / 100 - 1 <= spec_share(total, ratio) <= (total * ratio) / 100,
{
    let exact = total * ratio;
    if ratio == 0 {
        assert(total * 0 == 0);
    } else if ratio == 100 {
        assert((total * 100) / 100 == total) by {
            vstd::arithmetic::div_mod::lemma_div_multiples_vanish(total as int, 100);
        }
    } else {
        let unit = two_pow(52 + binade(ratio));
        let m = factor_mantissa(ratio);
        let n = total * m;
        let step = two_pow(excess_bits(n));
        let kept = nearest_even(n, step) * step;
        let q = exact / 100;
        lemma_mantissa_bounds(ratio);
        lemma_rounded_bounded(total, m, 52 + binade(ratio));
        lemma_two_pow_values();
        lemma_two_pow_monotone(0, excess_bits(n));
        lemma_two_pow_monotone(excess_bits(n), 16);
        assert(two_pow(16) == 0x1_0000) by {
            reveal_with_fuel(two_pow, 17);
        }
        lemma_nearest_even_close((ratio * unit) as nat, 100);
        lemma_nearest_even_close(n, step);
        assert(exact == 100 * q + exact % 100 && 0 <= exact % 100 < 100) by {
            vstd::arithmetic::div_mod::lemma_fundamental_div_mod(exact, 100);
        }
        // 100 * n lies within 50 * total of exact * unit.
        assert(100 * n - exact * unit <= 50 * total && exact * unit - 100 * n <= 50 * total)
            by (nonlinear_arith)
            requires
                n == total * m,
                exact == total * ratio,
                2 * (ratio * unit) - 100 <= 2 * (m * 100) <= 2 * (ratio * unit) + 100,
                total >= 0,
        ;
        assert(exact * unit <= 100 * q * unit + 99 * unit && exact * unit >= 100 * q * unit)
            by (nonlinear_arith)
            requires
                exact == 100 * q + exact % 100,
                0 <= exact % 100 < 100,
                unit >= 0,
        ;
        assert(kept < (q + 1) * unit && kept >= (q - 1) * unit) by (nonlinear_arith)
            requires
                100 * n - exact * unit <= 50 * total,
                exact * unit - 100 * n <= 50 * total,
                2 * n - step <= 2 * kept <= 2 * n + step,
                exact * unit <= 100 * q * unit + 99 * unit,
                exact * unit >= 100 * q * unit,
                total <= 0xffff,
                step <= 0x1_0000,
                unit >= 0x20_0000_0000_0000,
        ;
        assert(kept / unit <= q) by {
            if kept / unit >= q + 1 {
                vstd::arithmetic::div_mod::lemma_fundamental_div_mod(kept as int, unit as int);
                assert(unit * (kept / unit) >= unit * (q + 1)) by (nonlinear_arith)
                    requires
                        kept / unit >= q + 1,
                        unit > 0,
                ;
                assert(unit * (q + 1) == (q + 1) * unit) by (nonlinear_arith);
            }
        }
        assert(kept / unit >= q - 1) by {
            if kept / unit < q - 1 {
                vstd::arithmetic::div_mod::lemma_fundamental_div_mod(kept as int, unit as int);
                assert(unit * (kept / unit) + unit <= unit * (q - 1)) by (nonlinear_arith)
                    requires
                        kept / unit + 1 <= q - 1,
                        unit > 0,
                ;
                assert(unit * (q - 1) == (q - 1) * unit) by (nonlinear_arith);
            }
        }
    }
}

/// Rounds `n / d` to the nearest whole number, a tie going to the even
/// neighbour.
fn round_to_even(n: u128, d: u128) -> (r: u128)
    requires
        d > 0,
        n / d < u128::MAX,
    ensures
        r == nearest_even(n as nat, d as nat),
{
    let q = n / d;
    let rem = n % d;
    if rem < d - rem || (rem == d - rem && q % 2 == 0) {
        q
    } else {
        q + 1
    }
}

/// The first part of `total` when it is split by `ratio` percent.
pub fn share(total: u16, ratio: i8) -> (part: u16)
    ensures
        part == spec_share(total as nat, ratio as int),
        part <= total,
{
    proof {
        lemma_share_bounded(total as nat, ratio as int);
    }
    if ratio <= 0 {
        return 0;
    }
    if ratio >= 100 {
        return total;
    }
    let doubling: u128 = if ratio >= 50 {
        2
    } else if ratio >= 25 {
        4
    } else if ratio >= 13 {
        8
    } else if ratio >= 7 {
        16
    } else if ratio >= 4 {
        32
    } else if ratio >= 2 {
        64
    } else {
        128
    };
    let unit: u128 = 0x10_0000_0000_0000u128 * doubling;
    proof {
        lemma_two_pow_values();
        lemma_two_pow_sum(52, binade(ratio as int));
        lemma_mantissa_bounds(ratio as int);
        assert(unit == two_pow(52 + binade(ratio as int)));
    }
    let mantissa = round_to_even(ratio as u128 * unit, 100);
    assert(total * mantissa <= 0xffff * 0x20_0000_0000_0000) by (nonlinear_arith)
        requires
            total <= 0xffff,
            mantissa <= 0x20_0000_0000_0000,
    ;
    let n: u128 = total as u128 * mantissa;
    proof {
        lemma_rounded_bounded(total as nat, mantissa as nat, 52 + binade(ratio as int));
        assert(total * unit <= 0xffff * 0x800_0000_0000_0000) by (nonlinear_arith)
            requires
                total <= 0xffff,
                unit <= 0x800_0000_0000_0000,
        ;
    }
    let mut rest: u128 = n;
    let mut step: u128 = 1;
    let ghost mut dropped: nat = 0;
    while rest >= 0x20_0000_0000_0000
        invariant
            excess_bits(n as nat) == dropped + excess_bits(rest as nat),
            excess_bits(n as nat) <= 16,
            step == two_pow(dropped),
            step <= 0x1_0000,
        decreases rest,
    {
        proof {
            lemma_two_pow_monotone(dropped + 1, 16);
            assert(two_pow(16) == 0x1_0000) by {
                reveal_with_fuel(two_pow, 17);
            }
            dropped = dropped + 1;
        }
        rest = rest / 2;
        step = step * 2;
    }
    proof {
        lemma_two_pow_monotone(0, dropped);
    }
    assert(n / step <= n) by {
        vstd::arithmetic::div_mod::lemma_div_is_ordered_by_denominator(n as int, 1, step as int);
    }
    let kept = round_to_even(n, step);
    let part = kept * step / unit;
    assert(kept * step == rounded(n as nat));
    assert(part == spec_share(total as nat, ratio as int));
    part as u16
}

} // verus!
