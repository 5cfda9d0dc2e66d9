//! What holds of binary64 arithmetic: every result is the number nearest to the exact one.
use vstd::arithmetic::power2::{lemma_pow2_pos, pow2};
use vstd::prelude::*;

use crate::binary64;
use crate::binary64::{Binary64, UNIT_EXPONENT};
use crate::rounding;
use crate::rounding::{BINADE, EXACT_CODES, INFINITY_CODE};

verus! {

/// Whether `code` is that of the magnitude nearest to `num / den` units, and the even one of
/// two that are equally near. Infinity stands in the place of 2^1024.
pub open spec fn is_nearest(code: nat, num: nat, den: nat) -> bool {
    if code < INFINITY_CODE {
        forall|other: nat|
            {
                let here = rounding::distance(num, rounding::units(code) * den);
                let there = rounding::distance(num, #[trigger] rounding::units(other) * den);
                &&& here <= there
                &&& here == there && other != code ==> code % 2 == 0
            }
    } else {
        let end = pow2(1024) * binary64::one_units() * den;
        &&& code == INFINITY_CODE
        &&& num >= end || forall|other: nat|
            other < INFINITY_CODE ==> rounding::distance(num, end) <= rounding::distance(
                num,
                #[trigger] rounding::units(other) * den,
            )
    }
}

/// A code stands for its significand times a power of two.
pub proof fn law_magnitudes(significand: nat, shift: nat)
    requires
        significand < 0x20_0000_0000_0000,
        shift > 0 ==> significand >= 0x10_0000_0000_0000,
    ensures
        rounding::units((shift * 0x10_0000_0000_0000 + significand) as nat) == significand * pow2(
            shift,
        ),
{
    binary64::lemma_split_units(significand, shift);
}

/// Of two integers that are equally near the even one is taken.
proof fn lemma_integer_tie(num: nat, den: nat, other: nat)
    requires
        den > 0,
        other != rounding::round_half_even(num, den),
        rounding::distance(num, rounding::round_half_even(num, den) * den) == rounding::distance(
            num,
            other * den,
        ),
    ensures
        rounding::round_half_even(num, den) % 2 == 0,
{
    rounding::lemma_split(num, den);
    let q = num / den;
    let r = num % den;
    assert((q + 1) * den == q * den + den) by (nonlinear_arith);
    if other < q {
        assert(other * den <= q * den - den) by (nonlinear_arith)
            requires
                other + 1 <= q,
        ;
    } else if other > q + 1 {
        assert(other * den >= (q + 1) * den + den) by (nonlinear_arith)
            requires
                other >= q + 2,
        ;
    }
}

/// Of two magnitudes that are equally near the even one is taken.
proof fn lemma_nearest_tie(num: nat, den: nat, other: nat)
    requires
        den > 0,
        other != rounding::nearest_code_unbounded(num, den),
        rounding::distance(
            num,
            rounding::units(rounding::nearest_code_unbounded(num, den)) * den,
        ) == rounding::distance(num, rounding::units(other) * den),
    ensures
        rounding::nearest_code_unbounded(num, den) % 2 == 0,
    decreases num - den,
{
    let code = rounding::nearest_code_unbounded(num, den);
    let edge = EXACT_CODES as nat;
    assert(rounding::units(edge) == edge) by {
        reveal_with_fuel(rounding::units, 2);
    }
    rounding::lemma_nearest_is_nearest(num, den, edge);
    if num < den * EXACT_CODES {
        rounding::lemma_nearest_upper_bound(num, den);
        assert(rounding::units(code) == code);
        if other <= edge {
            assert(rounding::units(other) == other);
            lemma_integer_tie(num, den, other);
        } else {
            rounding::lemma_units_increase(edge, other);
            let far = rounding::units(other);
            assert(far * den > edge * den && edge * den > num) by (nonlinear_arith)
                requires
                    far > edge,
                    num < den * edge,
            ;
        }
    } else if other >= edge {
        let half = (other - BINADE) as nat;
        let rest = rounding::nearest_code_unbounded(num, 2 * den);
        assert(num >= BINADE as nat * (2 * den)) by (nonlinear_arith)
            requires
                num >= den * EXACT_CODES,
                EXACT_CODES == 2 * BINADE,
        ;
        rounding::lemma_nearest_lower_bound(num, 2 * den, BINADE as nat);
        let u = rounding::units(half);
        let v = rounding::units(rest);
        assert((2 * u) * den == u * (2 * den) && (2 * v) * den == v * (2 * den))
            by (nonlinear_arith);
        lemma_nearest_tie(num, 2 * den, half);
    } else {
        assert(rounding::units(other) == other);
        assert(other * den < edge * den && edge * den <= num) by (nonlinear_arith)
            requires
                other < edge,
                den > 0,
                num >= den * edge,
        ;
    }
}

/// Rounding gives the nearest magnitude.
pub proof fn law_rounding_is_nearest(num: nat, den: nat)
    requires
        den > 0,
    ensures
        is_nearest(rounding::nearest_code(num, den), num, den),
{
    let code = rounding::nearest_code_unbounded(num, den);
    if code < INFINITY_CODE {
        assert forall|other: nat|
            {
                let here = rounding::distance(num, rounding::units(code) * den);
                let there = rounding::distance(num, #[trigger] rounding::units(other) * den);
                &&& here <= there
                &&& here == there && other != code ==> code % 2 == 0
            } by {
            rounding::lemma_nearest_is_nearest(num, den, other);
            let here = rounding::distance(num, rounding::units(code) * den);
            let there = rounding::distance(num, rounding::units(other) * den);
            if here == there && other != code {
                lemma_nearest_tie(num, den, other);
            }
        }
    } else {
        let top = INFINITY_CODE as nat;
        crate::decimal::lemma_infinity_units();
        let end = rounding::units(top) * den;
        if num < end {
            rounding::lemma_nearest_exact(top, 1);
            let u = rounding::units(top);
            assert(u * 1 == u);
            assert(num * 1 <= u * den);
            rounding::lemma_nearest_monotone(num, den, u, 1);
            assert(code == top);
            assert forall|other: nat| other < INFINITY_CODE implies rounding::distance(num, end)
                <= rounding::distance(num, #[trigger] rounding::units(other) * den) by {
                rounding::lemma_nearest_is_nearest(num, den, other);
            }
        }
    }
}

/// The product of finite numbers is the number nearest to the exact product, with the sign
/// of the product.
pub proof fn law_product_is_nearest(x: Binary64, y: Binary64)
    requires
        x.is_finite(),
        y.is_finite(),
    ensures
        binary64::product(x, y).is_negative() == (x.is_negative() != y.is_negative()),
        is_nearest(
            binary64::product(x, y).code(),
            x.units() * y.units(),
            binary64::one_units(),
        ),
{
    lemma_pow2_pos(UNIT_EXPONENT as nat);
    law_rounding_is_nearest(x.units() * y.units(), binary64::one_units());
}

/// The quotient of finite numbers is the number nearest to the exact quotient, with the sign
/// of the quotient.
pub proof fn law_quotient_is_nearest(x: Binary64, y: Binary64)
    requires
        x.is_finite(),
        y.is_finite(),
        !y.is_zero(),
    ensures
        binary64::quotient(x, y).is_negative() == (x.is_negative() != y.is_negative()),
        is_nearest(
            binary64::quotient(x, y).code(),
            x.units() * binary64::one_units(),
            y.units(),
        ),
{
    rounding::lemma_units_lower_bound(y.code(), 1);
    law_rounding_is_nearest(x.units() * binary64::one_units(), y.units());
}

/// The sum of finite numbers that are not negative is the number nearest to the exact sum.
pub proof fn law_sum_is_nearest(x: Binary64, y: Binary64)
    requires
        x.is_finite() && !x.is_negative(),
        y.is_finite() && !y.is_negative(),
    ensures
        !binary64::sum(x, y).is_negative(),
        is_nearest(binary64::sum(x, y).code(), x.units() + y.units(), 1),
{
    law_rounding_is_nearest(x.units() + y.units(), 1);
}

/// An integer becomes the number nearest to it.
pub proof fn law_integer_is_nearest(n: nat)
    ensures
        !binary64::nearest_to_integer(n).is_negative(),
        is_nearest(binary64::nearest_to_integer(n).code(), n * binary64::one_units(), 1),
{
    law_rounding_is_nearest(n * binary64::one_units(), 1);
}

/// NaN spreads, and infinity and zero multiply and divide as limits do.
pub proof fn law_special_values(x: Binary64, y: Binary64)
    ensures
        x.is_nan() || y.is_nan() ==> binary64::product(x, y).is_nan() && binary64::quotient(
            x,
            y,
        ).is_nan() && binary64::sum(x, y).is_nan(),
        x.is_infinite() && y.is_zero() ==> binary64::product(x, y).is_nan() && binary64::product(
            y,
            x,
        ).is_nan(),
        x.is_infinite() && y.is_infinite() ==> binary64::quotient(x, y).is_nan(),
        x.is_zero() && y.is_zero() ==> binary64::quotient(x, y).is_nan(),
        x.is_infinite() && !y.is_nan() && !y.is_zero() ==> {
            let p = binary64::product(x, y);
            let q = binary64::product(y, x);
            &&& p.is_infinite() && p.is_negative() == (x.is_negative() != y.is_negative())
            &&& q.is_infinite() && q.is_negative() == (x.is_negative() != y.is_negative())
        },
        x.is_infinite() && y.is_finite() ==> {
            let q = binary64::quotient(x, y);
            q.is_infinite() && q.is_negative() == (x.is_negative() != y.is_negative())
        },
        x.is_finite() && y.is_infinite() ==> {
            let q = binary64::quotient(x, y);
            q.is_zero() && q.is_negative() == (x.is_negative() != y.is_negative())
        },
        x.is_finite() && !x.is_zero() && y.is_zero() ==> {
            let q = binary64::quotient(x, y);
            q.is_infinite() && q.is_negative() == (x.is_negative() != y.is_negative())
        },
        !x.is_nan() && !y.is_nan() && (x.is_infinite() || y.is_infinite()) ==> binary64::sum(
            x,
            y,
        ).is_infinite(),
{
}

/// Cutting keeps the whole part of a number from 0 up to the end of `u64`; what is greater
/// becomes the end, and NaN and what is below 0 become 0.
pub proof fn law_cut_is_whole_part(x: Binary64)
    ensures
        ({
            let n = binary64::saturated_integer(x);
            let one = binary64::one_units();
            &&& x.is_nan() || x.is_negative() ==> n == 0
            &&& !x.is_negative() && x.is_infinite() ==> n == u64::MAX
            &&& !x.is_negative() && x.is_finite() ==> n * one <= x.units() && (x.units() < (n + 1)
                * one || n == u64::MAX)
        }),
{
    let one = binary64::one_units();
    lemma_pow2_pos(UNIT_EXPONENT as nat);
    rounding::lemma_split(x.units(), one);
    let q = x.units() / one;
    let n = binary64::saturated_integer(x) as nat;
    assert((q + 1) * one == q * one + one) by (nonlinear_arith);
    assert(n <= q ==> n * one <= q * one) by (nonlinear_arith);
}

/// The greater of two numbers is one of them and no less than the other.
pub proof fn law_greater_is_greatest(x: Binary64, y: Binary64)
    ensures
        ({
            let z = binary64::greater(x, y);
            &&& z == x || z == y
            &&& x.is_nan() ==> z == y
            &&& y.is_nan() ==> z == x || z.is_nan()
            &&& !x.is_nan() && !y.is_nan() ==> z.signed_code() >= x.signed_code()
                && z.signed_code() >= y.signed_code()
        }),
{
}

/// Numbers are equal where their bits are the same or both are 0; NaN equals nothing.
pub proof fn law_equal_numbers(x: Binary64, y: Binary64)
    ensures
        binary64::equal_numbers(x, y) <==> !x.is_nan() && !y.is_nan() && (x.bits == y.bits || (
        x.is_zero() && y.is_zero())),
{
}

/// The codes order the magnitudes.
pub proof fn law_codes_order_magnitudes(x: Binary64, y: Binary64)
    ensures
        x.code() < y.code() <==> x.units() < y.units(),
{
    if x.code() < y.code() {
        rounding::lemma_units_increase(x.code(), y.code());
    } else if y.code() < x.code() {
        rounding::lemma_units_increase(y.code(), x.code());
    }
}

/// The sign bit is the highest; the code of the magnitude is the rest. Codes beyond that of
/// infinity are NaN.
pub proof fn law_bits(x: Binary64)
    ensures
        x.is_negative() <==> x.bits >= 0x8000_0000_0000_0000,
        x.is_negative() ==> x.code() + 0x8000_0000_0000_0000 == x.bits,
        !x.is_negative() ==> x.code() == x.bits,
        x.is_nan() <==> x.code() > 0x7ff0_0000_0000_0000,
        x.is_infinite() <==> x.code() == 0x7ff0_0000_0000_0000,
        x.is_finite() <==> x.code() < 0x7ff0_0000_0000_0000,
        x.is_zero() <==> x.code() == 0,
        x.units() == rounding::units(x.code()),
        binary64::one_units() == pow2(1074),
        !x.is_negative() ==> x.signed_code() == x.code(),
        x.is_negative() ==> x.signed_code() == -x.code(),
{
}

} // verus!
