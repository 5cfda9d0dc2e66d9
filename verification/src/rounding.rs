//! Rounding of an exact ratio to the nearest binary64 magnitude.
//!
//! A finite binary64 magnitude is a whole number of *units* of 2^-1074, the
//! smallest positive binary64 number. Its *code* is the number that its sixty-three
//! bits below the sign hold. Codes below 2^53 stand for as many units; every
//! further 2^52 codes double the step from one magnitude to the next. The code of
//! infinity follows that of the greatest finite magnitude.
use vstd::arithmetic::div_mod::{
    lemma_fundamental_div_mod, lemma_fundamental_div_mod_converse, lemma_mod_bound,
};
use vstd::arithmetic::power2::{lemma_pow2_pos, lemma_pow2_unfold, pow2};
use vstd::prelude::*;

use crate::natural::Natural;

verus! {

/// The number of codes that share one step size (2^52).
pub const BINADE: u64 = 0x0010_0000_0000_0000;

/// The number of codes at the start that stand for as many units (2^53).
pub const EXACT_CODES: u64 = 0x0020_0000_0000_0000;

/// The code of infinity.
pub const INFINITY_CODE: u64 = 0x7ff0_0000_0000_0000;

/// The magnitude, in units, that `code` stands for.
pub open spec fn units(code: nat) -> nat
    decreases code,
{
    if code < EXACT_CODES {
        code
    } else {
        2 * units((code - BINADE) as nat)
    }
}

/// The integer nearest to `num / den`, the even one of two that are equally near.
pub open spec fn round_half_even(num: nat, den: nat) -> nat {
    let quotient = num / den;
    let twice_rest = 2 * (num % den);
    if twice_rest < den || (twice_rest == den && quotient % 2 == 0) {
        quotient
    } else {
        quotient + 1
    }
}

/// The code nearest to `num / den` units, with no upper end to the codes.
pub open spec fn nearest_code_unbounded(num: nat, den: nat) -> nat
    decreases num - den,
    when den > 0
{
    if num < den * EXACT_CODES {
        round_half_even(num, den)
    } else {
        BINADE as nat + nearest_code_unbounded(num, 2 * den)
    }
}

/// The code of the binary64 magnitude nearest to `num / den` units; of two that are
/// equally near, the even one; infinity where the result would lie beyond the
/// greatest finite magnitude.
pub open spec fn nearest_code(num: nat, den: nat) -> nat {
    let code = nearest_code_unbounded(num, den);
    if code < INFINITY_CODE {
        code
    } else {
        INFINITY_CODE as nat
    }
}

/// Names the quotient and the remainder of `num` by `den`.
pub(crate) proof fn lemma_quotient(num: nat, den: nat, q: nat, r: nat)
    requires
        num == q * den + r,
        r < den,
    ensures
        num / den == q,
        num % den == r,
{
    lemma_fundamental_div_mod_converse(num as int, den as int, q as int, r as int);
}

/// Splits `num` into its quotient and its remainder by `den`.
pub(crate) proof fn lemma_split(num: nat, den: nat)
    requires
        den > 0,
    ensures
        num == (num / den) * den + num % den,
        num % den < den,
{
    lemma_fundamental_div_mod(num as int, den as int);
    lemma_mod_bound(num as int, den as int);
    assert((num / den) * den == den * (num / den)) by (nonlinear_arith);
}

pub(crate) proof fn lemma_round_half_even_scales(num: nat, den: nat, k: nat)
    requires
        den > 0,
        k > 0,
    ensures
        round_half_even(k * num, k * den) == round_half_even(num, den),
{
    let q = num / den;
    let r = num % den;
    lemma_split(num, den);
    assert(k * num == q * (k * den) + k * r) by (nonlinear_arith)
        requires
            num == q * den + r,
    ;
    assert(k * r < k * den) by (nonlinear_arith)
        requires
            r < den,
            k > 0,
    ;
    lemma_quotient(k * num, k * den, q, k * r);
    assert(2 * (k * r) < k * den <==> 2 * r < den) by (nonlinear_arith)
        requires
            k > 0,
    ;
    assert(2 * (k * r) == k * den <==> 2 * r == den) by (nonlinear_arith)
        requires
            k > 0,
    ;
}

pub(crate) proof fn lemma_round_half_even_monotone(x: nat, y: nat, den: nat)
    requires
        den > 0,
        x <= y,
    ensures
        round_half_even(x, den) <= round_half_even(y, den),
{
    lemma_split(x, den);
    lemma_split(y, den);
    let qx = x / den;
    let qy = y / den;
    let rx = x % den;
    let ry = y % den;
    assert(qx <= qy) by (nonlinear_arith)
        requires
            qx * den + rx <= qy * den + ry,
            ry < den,
            rx >= 0,
    ;
    if qx == qy {
        assert(rx <= ry);
    }
}

/// No integer is nearer to `num / den` than the rounded one.
pub(crate) proof fn lemma_round_half_even_is_nearest(num: nat, den: nat, k: nat)
    requires
        den > 0,
    ensures
        distance(num, round_half_even(num, den) * den) <= distance(num, k * den),
{
    lemma_split(num, den);
    let q = num / den;
    let r = num % den;
    assert((q + 1) * den == q * den + den) by (nonlinear_arith);
    if k <= q {
        assert(k * den <= q * den) by (nonlinear_arith)
            requires
                k <= q,
        ;
    } else {
        assert(k * den >= (q + 1) * den) by (nonlinear_arith)
            requires
                k >= q + 1,
        ;
    }
}

/// How far apart two naturals lie.
pub open spec fn distance(x: nat, y: nat) -> nat {
    if x <= y {
        (y - x) as nat
    } else {
        (x - y) as nat
    }
}

/// Only the ratio matters, not how it is written.
pub(crate) proof fn lemma_nearest_scales(num: nat, den: nat, k: nat)
    requires
        den > 0,
        k > 0,
    ensures
        k * den > 0,
        nearest_code_unbounded(k * num, k * den) == nearest_code_unbounded(num, den),
    decreases num - den,
{
    assert(k * den > 0) by (nonlinear_arith)
        requires
            k > 0,
            den > 0,
    ;
    assert(k * num < (k * den) * EXACT_CODES <==> num < den * EXACT_CODES) by (nonlinear_arith)
        requires
            k > 0,
    ;
    if num < den * EXACT_CODES {
        lemma_round_half_even_scales(num, den, k);
    } else {
        lemma_nearest_scales(num, 2 * den, k);
        assert(k * (2 * den) == 2 * (k * den)) by (nonlinear_arith);
    }
}

/// A ratio of at least `k` units does not round below `k`.
pub(crate) proof fn lemma_nearest_lower_bound(num: nat, den: nat, k: nat)
    requires
        den > 0,
        k <= EXACT_CODES,
        num >= k * den,
    ensures
        nearest_code_unbounded(num, den) >= k,
    decreases num - den,
{
    if num < den * EXACT_CODES {
        lemma_split(num, den);
        let q = num / den;
        let r = num % den;
        assert(q >= k) by (nonlinear_arith)
            requires
                q * den + r >= k * den,
                r < den,
        ;
    } else {
        assert(num >= BINADE as nat * (2 * den)) by (nonlinear_arith)
            requires
                num >= den * EXACT_CODES,
        ;
        lemma_nearest_lower_bound(num, 2 * den, BINADE as nat);
    }
}

/// A ratio below 2^53 units rounds to 2^53 at most.
pub(crate) proof fn lemma_nearest_upper_bound(num: nat, den: nat)
    requires
        den > 0,
        num < den * EXACT_CODES,
    ensures
        nearest_code_unbounded(num, den) == round_half_even(num, den),
        round_half_even(num, den) <= EXACT_CODES,
{
    lemma_split(num, den);
    let q = num / den;
    let r = num % den;
    assert(q < EXACT_CODES) by (nonlinear_arith)
        requires
            q * den + r < den * EXACT_CODES,
            r >= 0,
    ;
}

pub(crate) proof fn lemma_nearest_monotone_same_den(x: nat, y: nat, den: nat)
    requires
        den > 0,
        x <= y,
    ensures
        nearest_code_unbounded(x, den) <= nearest_code_unbounded(y, den),
    decreases y - den,
{
    if y < den * EXACT_CODES {
        lemma_round_half_even_monotone(x, y, den);
    } else if x < den * EXACT_CODES {
        lemma_nearest_upper_bound(x, den);
        assert(y >= EXACT_CODES as nat * den) by (nonlinear_arith)
            requires
                y >= den * EXACT_CODES,
        ;
        lemma_nearest_lower_bound(y, den, EXACT_CODES as nat);
    } else {
        lemma_nearest_monotone_same_den(x, y, 2 * den);
    }
}

/// Rounding keeps the order of two ratios.
pub proof fn lemma_nearest_monotone(a: nat, b: nat, c: nat, d: nat)
    requires
        b > 0,
        d > 0,
        a * d <= c * b,
    ensures
        nearest_code_unbounded(a, b) <= nearest_code_unbounded(c, d),
        nearest_code(a, b) <= nearest_code(c, d),
{
    lemma_nearest_scales(a, b, d);
    lemma_nearest_scales(c, d, b);
    assert(d * a == a * d) by (nonlinear_arith);
    assert(b * c == c * b) by (nonlinear_arith);
    assert(d * b == b * d) by (nonlinear_arith);
    lemma_nearest_monotone_same_den(a * d, c * b, b * d);
}

/// A magnitude that has a code rounds to it.
pub proof fn lemma_nearest_exact(code: nat, den: nat)
    requires
        den > 0,
    ensures
        nearest_code_unbounded(units(code) * den, den) == code,
    decreases code,
{
    if code < EXACT_CODES {
        assert(code * den < den * EXACT_CODES) by (nonlinear_arith)
            requires
                code < EXACT_CODES,
                den > 0,
        ;
        lemma_quotient(code * den, den, code, 0);
    } else {
        let less = (code - BINADE) as nat;
        lemma_units_lower_bound(less, BINADE as nat);
        assert(units(code) * den >= den * EXACT_CODES) by (nonlinear_arith)
            requires
                units(code) == 2 * units(less),
                units(less) >= BINADE,
        ;
        assert(units(code) * den == units(less) * (2 * den)) by (nonlinear_arith)
            requires
                units(code) == 2 * units(less),
        ;
        lemma_nearest_exact(less, 2 * den);
    }
}

pub(crate) proof fn lemma_units_lower_bound(code: nat, k: nat)
    requires
        k <= code,
        k <= EXACT_CODES,
    ensures
        units(code) >= k,
    decreases code,
{
    if code >= EXACT_CODES {
        lemma_units_lower_bound((code - BINADE) as nat, BINADE as nat);
    }
}

/// The magnitudes grow with their codes.
pub proof fn lemma_units_increase(low: nat, high: nat)
    requires
        low < high,
    ensures
        units(low) < units(high),
    decreases high,
{
    if high >= EXACT_CODES {
        lemma_units_lower_bound((high - BINADE) as nat, BINADE as nat);
        if low >= EXACT_CODES {
            lemma_units_increase((low - BINADE) as nat, (high - BINADE) as nat);
        }
    }
}

/// No magnitude is nearer to `num / den` units than the one that rounding picks.
pub proof fn lemma_nearest_is_nearest(num: nat, den: nat, other: nat)
    requires
        den > 0,
    ensures
        distance(num, units(nearest_code_unbounded(num, den)) * den) <= distance(
            num,
            units(other) * den,
        ),
    decreases num - den,
{
    let code = nearest_code_unbounded(num, den);
    if num < den * EXACT_CODES {
        lemma_nearest_upper_bound(num, den);
        assert(units(code) == code) by {
            reveal_with_fuel(units, 2);
        }
        lemma_round_half_even_is_nearest(num, den, units(other));
    } else {
        let half = nearest_code_unbounded(num, 2 * den);
        assert(num >= BINADE as nat * (2 * den)) by (nonlinear_arith)
            requires
                num >= den * EXACT_CODES,
        ;
        lemma_nearest_lower_bound(num, 2 * den, BINADE as nat);
        assert(units(code) * den == units(half) * (2 * den)) by (nonlinear_arith)
            requires
                units(code) == 2 * units(half),
        ;
        if other >= EXACT_CODES {
            let less = (other - BINADE) as nat;
            lemma_nearest_is_nearest(num, 2 * den, less);
            assert(units(other) * den == units(less) * (2 * den)) by (nonlinear_arith)
                requires
                    units(other) == 2 * units(less),
            ;
        } else {
            lemma_nearest_is_nearest(num, 2 * den, BINADE as nat);
            assert(units(BINADE as nat) * (2 * den) == den * EXACT_CODES) by (nonlinear_arith)
                requires
                    units(BINADE as nat) == BINADE,
            ;
            assert(units(other) * den <= den * EXACT_CODES) by (nonlinear_arith)
                requires
                    units(other) <= EXACT_CODES,
            ;
        }
    }
}

/// The code nearest to `num / den * 2^shift` units.
pub open spec fn nearest_code_shifted(num: nat, den: nat, shift: int) -> nat {
    if shift >= 0 {
        nearest_code(num * pow2(shift as nat), den)
    } else {
        nearest_code(num, den * pow2((-shift) as nat))
    }
}

/// Doubling a magnitude that has all its bits moves its code up by a binade.
pub(crate) proof fn lemma_nearest_lifts(num: nat, den: nat, shift: nat)
    requires
        den > 0,
        num >= den * BINADE,
    ensures
        nearest_code_unbounded(num * pow2(shift), den) == shift * BINADE + nearest_code_unbounded(
            num,
            den,
        ),
    decreases shift,
{
    if shift == 0 {
        vstd::arithmetic::power2::lemma2_to64();
        assert(num * pow2(0) == num) by (nonlinear_arith)
            requires
                pow2(0) == 1,
        ;
    } else {
        let less = (shift - 1) as nat;
        lemma_pow2_unfold(shift);
        lemma_pow2_pos(less);
        let whole = num * pow2(shift);
        let half = num * pow2(less);
        assert(whole == 2 * half) by (nonlinear_arith)
            requires
                whole == num * pow2(shift),
                half == num * pow2(less),
                pow2(shift) == 2 * pow2(less),
        ;
        assert(half >= den * BINADE) by (nonlinear_arith)
            requires
                half == num * pow2(less),
                num >= den * BINADE,
                pow2(less) >= 1,
        ;
        assert(whole >= den * EXACT_CODES);
        lemma_nearest_scales(half, den, 2);
        lemma_nearest_lifts(num, den, less);
    }
}

/// A ratio of less than half a unit rounds to nothing.
pub(crate) proof fn lemma_nearest_vanishes(num: nat, den: nat)
    requires
        2 * num < den,
    ensures
        nearest_code_unbounded(num, den) == 0,
        nearest_code(num, den) == 0,
{
    assert(num < den * EXACT_CODES) by (nonlinear_arith)
        requires
            num < den,
    ;
    lemma_quotient(num, den, 0, num);
}

/// The code nearest to the ratio of two naturals, in units.
pub fn round_naturals(num: &Natural, den: &Natural) -> (code: u64)
    requires
        den@ > 0,
    ensures
        code == nearest_code(num@, den@),
{
    let ghost mut step: nat = den@;
    let mut reach = den.copy();
    reach.mul_add(0x400_0000, 0);
    reach.mul_add(0x800_0000, 0);
    let mut base: u64 = 0;
    assert(reach@ == step * EXACT_CODES);
    while !num.is_below(&reach)
        invariant
            den@ > 0,
            step > 0,
            reach@ == step * EXACT_CODES,
            base < INFINITY_CODE,
            nearest_code_unbounded(num@, den@) == base + nearest_code_unbounded(num@, step),
        decreases INFINITY_CODE - base,
    {
        proof {
            assert(nearest_code_unbounded(num@, step) == BINADE as nat + nearest_code_unbounded(
                num@,
                2 * step,
            ));
        }
        if base >= INFINITY_CODE - BINADE {
            return INFINITY_CODE;
        }
        base = base + BINADE;
        reach.mul_add(2, 0);
        proof {
            step = 2 * step;
        }
    }
    let mut rest = num.copy();
    let mut quotient: u64 = 0;
    let mut left: u32 = 53;
    proof {
        vstd::arithmetic::power2::lemma2_to64_rest();
        assert(reach@ == step * pow2(53));
        assert(num@ == quotient * reach@ + rest@);
    }
    while left > 0
        invariant
            left <= 53,
            step > 0,
            reach@ == step * pow2(left as nat),
            num@ == quotient * reach@ + rest@,
            rest@ < reach@,
            num@ < step * EXACT_CODES,
        decreases left,
    {
        let ghost prior = reach@;
        let ghost half = (step * pow2((left - 1) as nat)) as nat;
        proof {
            lemma_pow2_unfold(left as nat);
            assert(prior == 2 * half) by (nonlinear_arith)
                requires
                    prior == step * pow2(left as nat),
                    half == step * pow2((left - 1) as nat),
                    pow2(left as nat) == 2 * pow2((left - 1) as nat),
            ;
            lemma_pow2_pos((left - 1) as nat);
            assert(half >= step) by (nonlinear_arith)
                requires
                    half == step * pow2((left - 1) as nat),
                    pow2((left - 1) as nat) >= 1,
            ;
            assert(2 * quotient < EXACT_CODES) by (nonlinear_arith)
                requires
                    quotient * prior <= num@,
                    prior >= 2 * step,
                    num@ < step * EXACT_CODES,
                    step > 0,
            ;
        }
        let _odd = reach.divide(2);
        assert(reach@ == half);
        let ghost doubled = 2 * quotient;
        assert(quotient * prior == doubled * half) by (nonlinear_arith)
            requires
                prior == 2 * half,
                doubled == 2 * quotient,
        ;
        quotient = 2 * quotient;
        if !rest.is_below(&reach) {
            rest.subtract(&reach);
            assert((doubled + 1) * half == doubled * half + half) by (nonlinear_arith);
            quotient = quotient + 1;
        }
        left -= 1;
    }
    proof {
        vstd::arithmetic::power2::lemma2_to64();
        assert(reach@ == step) by (nonlinear_arith)
            requires
                reach@ == step * pow2(0),
                pow2(0) == 1,
        ;
        lemma_quotient(num@, step, quotient as nat, rest@);
        lemma_nearest_upper_bound(num@, step);
        assert(quotient <= EXACT_CODES);
    }
    rest.mul_add(2, 0);
    let up: bool = if rest.is_below(&reach) {
        false
    } else if reach.is_below(&rest) {
        true
    } else {
        quotient % 2 == 1
    };
    finish(base, quotient, up)
}

/// Puts a code together, with infinity as its upper end.
fn finish(base: u64, quotient: u64, up: bool) -> (code: u64)
    requires
        base <= INFINITY_CODE,
        quotient <= EXACT_CODES,
    ensures
        code as int == {
            let exact = base + quotient + if up {
                1int
            } else {
                0int
            };
            if exact < INFINITY_CODE {
                exact
            } else {
                INFINITY_CODE as int
            }
        },
{
    let rounded: u64 = if up {
        quotient + 1
    } else {
        quotient
    };
    let exact: u64 = base + rounded;
    if exact < INFINITY_CODE {
        exact
    } else {
        INFINITY_CODE
    }
}

/// The code nearest to `num / den * 2^shift` units.
pub fn round_shifted(num: u128, den: u64, shift: i32) -> (code: u64)
    requires
        num < 0x4000_0000_0000_0000_0000_0000_0000,
        den > 0,
    ensures
        code == nearest_code_shifted(num as nat, den as nat, shift as int),
{
    if num == 0 {
        proof {
            let p = if shift >= 0 {
                pow2(shift as nat)
            } else {
                pow2((-shift) as nat)
            };
            lemma_pow2_pos(if shift >= 0 {
                shift as nat
            } else {
                (-shift) as nat
            });
            assert(0 * p == 0) by (nonlinear_arith);
            assert(den * p > 0) by (nonlinear_arith)
                requires
                    den > 0,
                    p > 0,
            ;
            if shift >= 0 {
                lemma_nearest_vanishes(0, den as nat);
            } else {
                lemma_nearest_vanishes(0, (den * p) as nat);
            }
        }
        return 0;
    }
    let mut base: u64 = 0;
    let mut over: u128 = num;
    let mut under: u128 = den as u128;
    let ghost whole = if shift >= 0 {
        nearest_code_unbounded(num as nat * pow2(shift as nat), den as nat)
    } else {
        nearest_code_unbounded(num as nat, den as nat * pow2((-shift) as nat))
    };
    if shift >= 0 {
        let mut left: i32 = shift;
        proof {
            assert(den as u128 * EXACT_CODES as u128 <= 0x1f_ffff_ffff_ffff_ffe0_0000_0000_0000)
                by (nonlinear_arith)
                requires
                    den <= 0xffff_ffff_ffff_ffff,
                    EXACT_CODES == 0x20_0000_0000_0000,
            ;
        }
        let reach: u128 = den as u128 * EXACT_CODES as u128;
        while left > 0 && over < reach
            invariant
                0 <= left <= shift,
                reach <= 0x1f_ffff_ffff_ffff_ffe0_0000_0000_0000,
                0 < over < 0x40_0000_0000_0000_0000_0000_0000_0000,
                num as nat * pow2(shift as nat) == over as nat * pow2(left as nat),
            decreases left,
        {
            proof {
                lemma_pow2_unfold(left as nat);
                let p = pow2((left - 1) as nat);
                assert(over as nat * (2 * p) == (2 * over) as nat * p) by (nonlinear_arith);
            }
            over = 2 * over;
            left -= 1;
        }
        if left > 0 {
            proof {
                assert(over >= under * BINADE) by (nonlinear_arith)
                    requires
                        over >= den * EXACT_CODES,
                        under == den,
                        EXACT_CODES == 2 * BINADE,
                ;
                lemma_nearest_lifts(over as nat, under as nat, left as nat);
            }
            if left >= 2047 {
                assert(left as nat * BINADE >= 2047 * BINADE) by (nonlinear_arith)
                    requires
                        left >= 2047,
                ;
                return INFINITY_CODE;
            }
            base = left as u64 * BINADE;
        } else {
            proof {
                vstd::arithmetic::power2::lemma2_to64();
                assert(over as nat * pow2(0) == over) by (nonlinear_arith)
                    requires
                        pow2(0) == 1,
                ;
            }
        }
    } else {
        let mut left: i32 = shift;
        while left < 0
            invariant
                shift <= left <= 0,
                over == num,
                0 < num < 0x4000_0000_0000_0000_0000_0000_0000,
                0 < under < 0x1_0000_0000_0000_0000_0000_0000_0000,
                shift < 0,
                den as nat * pow2((-shift) as nat) == under as nat * pow2((-left) as nat),
            decreases -left,
        {
            if under > 2 * over {
                proof {
                    let p = pow2((-left) as nat);
                    lemma_pow2_pos((-left) as nat);
                    assert(under as nat * p >= under) by (nonlinear_arith)
                        requires
                            p >= 1,
                    ;
                    lemma_nearest_vanishes(num as nat, under as nat * p);
                }
                return 0;
            }
            proof {
                lemma_pow2_unfold((-left) as nat);
                let p = pow2((-left - 1) as nat);
                assert(under as nat * (2 * p) == (2 * under) as nat * p) by (nonlinear_arith);
            }
            under = 2 * under;
            left += 1;
        }
        proof {
            vstd::arithmetic::power2::lemma2_to64();
            assert(under as nat * pow2(0) == under) by (nonlinear_arith)
                requires
                    pow2(0) == 1,
            ;
        }
    }
    while over / under >= EXACT_CODES as u128
        invariant
            0 < under < 0x1_0000_0000_0000_0000_0000_0000_0000,
            0 < over < 0x40_0000_0000_0000_0000_0000_0000_0000,
            base < INFINITY_CODE,
            whole == base + nearest_code_unbounded(over as nat, under as nat),
            nearest_code_shifted(num as nat, den as nat, shift as int) == if whole < INFINITY_CODE {
                whole
            } else {
                INFINITY_CODE as nat
            },
        decreases INFINITY_CODE - base,
    {
        proof {
            lemma_split(over as nat, under as nat);
            assert(over >= under * EXACT_CODES) by (nonlinear_arith)
                requires
                    over >= (over / under) * under,
                    over / under >= EXACT_CODES,
            ;
        }
        if base >= INFINITY_CODE - BINADE {
            return INFINITY_CODE;
        }
        base = base + BINADE;
        under = 2 * under;
    }
    proof {
        lemma_split(over as nat, under as nat);
        let q = over / under;
        let r = over % under;
        assert(over < under * EXACT_CODES) by (nonlinear_arith)
            requires
                over == q * under + r,
                r < under,
                q + 1 <= EXACT_CODES,
        ;
    }
    let quotient: u64 = (over / under) as u64;
    let twice: u128 = 2 * (over % under);
    let up: bool = if twice < under {
        false
    } else if twice > under {
        true
    } else {
        quotient % 2 == 1
    };
    finish(base, quotient, up)
}

} // verus!
