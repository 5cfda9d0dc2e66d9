//! How near the numbers of the Brutal controller are to the exact ones.
use vstd::arithmetic::power2::{lemma_pow2_adds, lemma_pow2_pos, lemma_pow2_strictly_increases, pow2};
use vstd::prelude::*;

use crate::binary64;
use crate::binary64::{Binary64, UNIT_EXPONENT};
use crate::congestion_control;
use crate::congestion_control::ControllerState;
use crate::controller_laws;
use crate::decimal;
use crate::rounding;
use crate::rounding::{BINADE, EXACT_CODES, INFINITY_CODE};
use crate::time;
use crate::time::NANOS_PER_SEC;

verus! {

/// `base` to the power of `exponent`.
pub open spec fn power(base: nat, exponent: nat) -> nat
    decreases exponent,
{
    if exponent == 0 {
        1
    } else {
        base * power(base, (exponent - 1) as nat)
    }
}

/// Whether `x` is `num / den` up to so many roundings, each of which may be off by one part
/// in 2^53.
pub open spec fn is_within(x: nat, num: nat, den: nat, roundings: nat) -> bool {
    &&& num * power(0x1f_ffff_ffff_ffff, roundings) <= x * den * power(
        0x20_0000_0000_0000,
        roundings,
    )
    &&& x * den * power(0x20_0000_0000_0000, roundings) <= num * power(
        0x20_0000_0000_0001,
        roundings,
    )
}

proof fn lemma_power_adds(base: nat, j: nat, k: nat)
    ensures
        power(base, j + k) == power(base, j) * power(base, k),
    decreases j,
{
    if j == 0 {
        assert(1 * power(base, k) == power(base, k));
    } else {
        let less = (j - 1) as nat;
        lemma_power_adds(base, less, k);
        let (p, q) = (power(base, less), power(base, k));
        assert((base * p) * q == base * (p * q)) by (nonlinear_arith);
    }
}

proof fn lemma_power_positive(base: nat, k: nat)
    requires
        base > 0,
    ensures
        power(base, k) > 0,
    decreases k,
{
    if k > 0 {
        lemma_power_positive(base, (k - 1) as nat);
        let p = power(base, (k - 1) as nat);
        assert(base * p > 0) by (nonlinear_arith)
            requires
                base > 0,
                p > 0,
        ;
    }
}

/// Products of near numbers are near.
proof fn lemma_within_product(
    x: nat,
    num: nat,
    den: nat,
    j: nat,
    y: nat,
    other_num: nat,
    other_den: nat,
    k: nat,
)
    requires
        is_within(x, num, den, j),
        is_within(y, other_num, other_den, k),
    ensures
        is_within(x * y, num * other_num, den * other_den, j + k),
{
    let low = 0x1f_ffff_ffff_ffffnat;
    let mid = 0x20_0000_0000_0000nat;
    let high = 0x20_0000_0000_0001nat;
    lemma_power_adds(low, j, k);
    lemma_power_adds(mid, j, k);
    lemma_power_adds(high, j, k);
    let (a, b) = (power(low, j), power(low, k));
    let (c, d) = (power(mid, j), power(mid, k));
    let (e, f) = (power(high, j), power(high, k));
    assert((num * other_num) * (a * b) == (num * a) * (other_num * b)) by (nonlinear_arith);
    assert((num * other_num) * (e * f) == (num * e) * (other_num * f)) by (nonlinear_arith);
    assert((x * y) * (den * other_den) * (c * d) == (x * den * c) * (y * other_den * d))
        by (nonlinear_arith);
    lemma_ordered_products(num * a, x * den * c, other_num * b, y * other_den * d);
    lemma_ordered_products(x * den * c, num * e, y * other_den * d, other_num * f);
}

proof fn lemma_ordered_products(a: nat, b: nat, c: nat, d: nat)
    by (nonlinear_arith)
    requires
        a <= b,
        c <= d,
    ensures
        a * c <= b * d,
{
}

/// A rounding of what is near is near.
proof fn lemma_within_rounded(x: nat, num: nat, den: nat, k: nat, y: nat, factor: nat, divisor: nat)
    requires
        is_within(x, num, den, k),
        is_within(y, x * factor, divisor, 1),
    ensures
        is_within(y, num * factor, den * divisor, k + 1),
{
    let low = 0x1f_ffff_ffff_ffffnat;
    let mid = 0x20_0000_0000_0000nat;
    let high = 0x20_0000_0000_0001nat;
    reveal_with_fuel(power, 2);
    let (a, c, e) = (power(low, k), power(mid, k), power(high, k));
    assert(power(low, k + 1) == low * a && power(mid, k + 1) == mid * c && power(high, k + 1)
        == high * e);
    assert(power(low, 1) == low && power(mid, 1) == mid && power(high, 1) == high);
    let v = x * den * c;
    // The chain from below.
    assert((num * factor) * (low * a) == (num * a) * (factor * low)) by (nonlinear_arith);
    assert(v * (factor * low) == ((x * factor) * low) * (den * c)) by (nonlinear_arith)
        requires
            v == x * den * c,
    ;
    assert(y * (den * divisor) * (mid * c) == (y * divisor * mid) * (den * c))
        by (nonlinear_arith);
    lemma_ordered_products(num * a, v, factor * low, factor * low);
    lemma_ordered_products((x * factor) * low, y * divisor * mid, den * c, den * c);
    // The chain from above.
    assert((num * factor) * (high * e) == (num * e) * (factor * high)) by (nonlinear_arith);
    assert(v * (factor * high) == ((x * factor) * high) * (den * c)) by (nonlinear_arith)
        requires
            v == x * den * c,
    ;
    lemma_ordered_products(v, num * e, factor * high, factor * high);
    lemma_ordered_products(y * divisor * mid, (x * factor) * high, den * c, den * c);
}

/// Sums of near numbers are near.
proof fn lemma_within_sum(x: nat, num: nat, y: nat, other_num: nat, den: nat, k: nat)
    requires
        is_within(x, num, den, k),
        is_within(y, other_num, den, k),
    ensures
        is_within(x + y, num + other_num, den, k),
{
    let a = power(0x1f_ffff_ffff_ffff, k);
    let c = power(0x20_0000_0000_0000, k);
    let e = power(0x20_0000_0000_0001, k);
    assert((num + other_num) * a == num * a + other_num * a) by (nonlinear_arith);
    assert((num + other_num) * e == num * e + other_num * e) by (nonlinear_arith);
    assert((x + y) * den * c == x * den * c + y * den * c) by (nonlinear_arith);
}

/// Common factors of the ratio do not matter.
proof fn lemma_within_scaled(x: nat, num: nat, den: nat, k: nat, factor: nat)
    requires
        factor > 0,
    ensures
        is_within(x, num * factor, den * factor, k) <==> is_within(x, num, den, k),
{
    let a = power(0x1f_ffff_ffff_ffff, k);
    let c = power(0x20_0000_0000_0000, k);
    let e = power(0x20_0000_0000_0001, k);
    assert((num * factor) * a == (num * a) * factor) by (nonlinear_arith);
    assert((num * factor) * e == (num * e) * factor) by (nonlinear_arith);
    assert(x * (den * factor) * c == (x * den * c) * factor) by (nonlinear_arith);
    lemma_order_scaled(num * a, x * den * c, factor);
    lemma_order_scaled(x * den * c, num * e, factor);
}

proof fn lemma_order_scaled(a: nat, b: nat, factor: nat)
    by (nonlinear_arith)
    requires
        factor > 0,
    ensures
        a * factor <= b * factor <==> a <= b,
{
}

/// What one rounding may be off by.
proof fn lemma_one_rounding(x: nat, num: nat, den: nat)
    ensures
        is_within(x, num, den, 1) <==> num * 0x1f_ffff_ffff_ffff <= (x * den) * 0x20_0000_0000_0000
            && (x * den) * 0x20_0000_0000_0000 <= num * 0x20_0000_0000_0001,
{
    lemma_power_one(0x1f_ffff_ffff_ffff);
    lemma_power_one(0x20_0000_0000_0000);
    lemma_power_one(0x20_0000_0000_0001);
}

proof fn lemma_power_one(base: nat)
    ensures
        power(base, 1) == base,
{
    reveal_with_fuel(power, 2);
    assert(base * 1 == base);
}

/// A ratio that is no less than the least normal magnitude is rounded by half a step at most,
/// which is no more than one part in 2^53 of it.
proof fn lemma_rounding_unbounded(num: nat, den: nat)
    requires
        den > 0,
        num >= den * BINADE,
    ensures
        is_within(rounding::units(rounding::nearest_code_unbounded(num, den)), num, den, 1),
    decreases num - den,
{
    let code = rounding::nearest_code_unbounded(num, den);
    lemma_one_rounding(rounding::units(code), num, den);
    if num < den * EXACT_CODES {
        rounding::lemma_nearest_upper_bound(num, den);
        assert(rounding::units(code) == code) by {
            reveal_with_fuel(rounding::units, 2);
        }
        rounding::lemma_split(num, den);
        let q = num / den;
        assert((q + 1) * den == q * den + den) by (nonlinear_arith);
        let here = code * den;
        assert(2 * here <= 2 * num + den && 2 * num <= 2 * here + den);
        assert(den * BINADE == BINADE * den) by (nonlinear_arith);
    } else {
        let rest = rounding::nearest_code_unbounded(num, 2 * den);
        assert(num >= (2 * den) * BINADE) by (nonlinear_arith)
            requires
                num >= den * EXACT_CODES,
                EXACT_CODES == 2 * BINADE,
        ;
        assert((2 * den) * BINADE == BINADE as nat * (2 * den)) by (nonlinear_arith);
        rounding::lemma_nearest_lower_bound(num, 2 * den, BINADE as nat);
        lemma_rounding_unbounded(num, 2 * den);
        let u = rounding::units(rest);
        lemma_one_rounding(u, num, 2 * den);
        assert((2 * u) * den == u * (2 * den)) by (nonlinear_arith);
    }
}

/// A ratio between two powers of two is rounded to a finite number between them that is near
/// it.
proof fn lemma_rounding(num: nat, den: nat, low: nat, high: nat)
    requires
        den > 0,
        num == 0 || num >= den * pow2(low),
        num <= den * pow2(high),
        52 <= low <= high <= 2000,
    ensures
        ({
            let code = rounding::nearest_code(num, den);
            let x = rounding::units(code);
            &&& code < INFINITY_CODE
            &&& x == 0 <==> num == 0
            &&& num > 0 ==> x >= pow2(low)
            &&& x <= pow2(high)
            &&& is_within(x, num, den, 1)
        }),
{
    crate::window_laws::lemma_rounded_below(num, den, high);
    lemma_pow2_pos(low);
    if num == 0 {
        rounding::lemma_nearest_vanishes(0, den);
        lemma_one_rounding(0, 0, den);
        assert(0 * den == 0);
    } else {
        let bound = pow2(low);
        assert(1 * bound == bound);
        controller_laws::lemma_exact_multiple(1, low);
        assert(bound * den <= num * 1) by (nonlinear_arith)
            requires
                num >= den * bound,
        ;
        rounding::lemma_nearest_monotone(bound, 1, num, den);
        controller_laws::lemma_units_ordered(
            rounding::nearest_code(bound, 1),
            rounding::nearest_code(num, den),
        );
        vstd::arithmetic::power2::lemma2_to64_rest();
        if low > 52 {
            lemma_pow2_strictly_increases(52, low);
        }
        assert(num >= den * BINADE) by (nonlinear_arith)
            requires
                num >= den * bound,
                bound >= BINADE,
        ;
        lemma_rounding_unbounded(num, den);
    }
}

/// An integer up to 2^110 is near its number.
proof fn lemma_integer_within(n: nat, high: nat)
    requires
        n <= pow2(high),
        high <= 110,
    ensures
        ({
            let x = binary64::nearest_to_integer(n);
            &&& x.is_finite() && !x.is_negative()
            &&& n == 0 <==> x.units() == 0
            &&& n > 0 ==> x.units() >= binary64::one_units()
            &&& x.units() <= pow2(high + 1074)
            &&& is_within(x.units(), n * binary64::one_units(), 1, 1)
        }),
{
    let one = binary64::one_units();
    lemma_pow2_pos(UNIT_EXPONENT as nat);
    lemma_pow2_adds(high, 1074);
    assert(n * one <= 1 * pow2(high + 1074)) by (nonlinear_arith)
        requires
            n <= pow2(high),
            pow2(high + 1074) == pow2(high) * one,
    ;
    assert(n > 0 ==> n * one >= 1 * pow2(1074)) by (nonlinear_arith)
        requires
            one == pow2(1074),
    ;
    assert(n == 0 <==> n * one == 0) by (nonlinear_arith)
        requires
            one > 0,
    ;
    lemma_rounding(n * one, 1, 1074, high + 1074);
}

/// A fraction of a second is near its exact value.
proof fn lemma_fraction_within(rest: nat)
    requires
        rest < NANOS_PER_SEC,
    ensures
        ({
            let f = binary64::quotient(
                binary64::nearest_to_integer(rest),
                binary64::nearest_to_integer(NANOS_PER_SEC as nat),
            );
            &&& f.is_finite() && !f.is_negative()
            &&& rest == 0 <==> f.units() == 0
            &&& rest > 0 ==> f.units() >= pow2(1044)
            &&& f.units() <= binary64::one_units()
            &&& is_within(f.units(), rest * binary64::one_units(), NANOS_PER_SEC as nat, 1)
        }),
{
    let one = binary64::one_units();
    let all = NANOS_PER_SEC as nat;
    lemma_pow2_pos(UNIT_EXPONENT as nat);
    controller_laws::lemma_exact_multiple(rest, UNIT_EXPONENT as nat);
    controller_laws::lemma_exact_multiple(all, UNIT_EXPONENT as nat);
    let x = binary64::nearest_to_integer(rest);
    let y = binary64::nearest_to_integer(all);
    assert(all * one > 0) by (nonlinear_arith)
        requires
            all == 1_000_000_000,
            one > 0,
    ;
    assert(!y.is_zero());
    vstd::arithmetic::power2::lemma2_to64();
    lemma_pow2_adds(30, 1044);
    lemma_pow2_pos(1044);
    let step = pow2(1044);
    let num = x.units() * one;
    let den = y.units();
    assert(num > 0 ==> num >= den * step) by (nonlinear_arith)
        requires
            num == (rest * one) * one,
            den == all * one,
            all == 1_000_000_000,
            one == 0x4000_0000 * step,
    ;
    assert(num == 0 <==> rest == 0) by (nonlinear_arith)
        requires
            num == (rest * one) * one,
            one > 0,
    ;
    assert(num <= den * pow2(1074)) by (nonlinear_arith)
        requires
            num == (rest * one) * one,
            den == all * one,
            one == pow2(1074),
            rest <= all,
    ;
    lemma_rounding(num, den, 1044, 1074);
    let f = binary64::quotient(x, y);
    lemma_within_scaled(f.units(), rest * one, all, 1, one);
}

/// A span in seconds is near its exact value.
proof fn lemma_seconds_within(nanos: nat)
    requires
        nanos / (NANOS_PER_SEC as nat) <= u64::MAX,
    ensures
        ({
            let s = time::seconds(nanos);
            &&& s.is_finite() && !s.is_negative()
            &&& nanos == 0 <==> s.units() == 0
            &&& nanos > 0 ==> s.units() >= pow2(1044)
            &&& s.units() <= pow2(1139)
            &&& is_within(s.units(), nanos * binary64::one_units(), NANOS_PER_SEC as nat, 2)
        }),
{
    let one = binary64::one_units();
    let all = NANOS_PER_SEC as nat;
    rounding::lemma_split(nanos, all);
    let whole = nanos / all;
    let rest = nanos % all;
    let x = binary64::nearest_to_integer(whole);
    let f = binary64::quotient(
        binary64::nearest_to_integer(rest),
        binary64::nearest_to_integer(all),
    );
    vstd::arithmetic::power2::lemma2_to64();
    lemma_pow2_adds(30, 1044);
    lemma_pow2_adds(64, 1074);
    lemma_pow2_adds(1, 1138);
    lemma_pow2_pos(1044);
    lemma_pow2_pos(1074);
    lemma_integer_within(whole, 64);
    lemma_fraction_within(rest);
    lemma_within_scaled(x.units(), whole * one, 1, 1, all);
    assert((whole * one) * all == (whole * all) * one) by (nonlinear_arith);
    assert(1 * all == all);
    lemma_within_sum(x.units(), (whole * all) * one, f.units(), rest * one, all, 1);
    assert((whole * all) * one + rest * one == nanos * one) by (nonlinear_arith)
        requires
            nanos == whole * all + rest,
    ;
    let total = x.units() + f.units();
    assert(1 * pow2(1044) == pow2(1044) && 1 * pow2(1139) == pow2(1139));
    assert(pow2(1074) <= pow2(1138));
    lemma_rounding(total, 1, 1044, 1139);
    assert(total * 1 == total && all * 1 == all && (nanos * one) * 1 == nanos * one);
    lemma_within_rounded(total, nanos * one, all, 1, time::seconds(nanos).units(), 1, 1);
}

/// Whether a number lies between 2^-300 and 2^300.
pub open spec fn is_moderate(x: Binary64) -> bool {
    !x.is_negative() && x.is_finite() && pow2(774) <= x.units() <= pow2(1374)
}

proof fn lemma_power_bounds(a: nat, b: nat, i: nat, j: nat)
    requires
        a <= pow2(i),
        b <= pow2(j),
    ensures
        a * b <= pow2(i + j),
{
    lemma_pow2_adds(i, j);
    lemma_ordered_products(a, pow2(i), b, pow2(j));
}

proof fn lemma_power_bounds_below(a: nat, b: nat, i: nat, j: nat)
    requires
        a >= pow2(i),
        b >= pow2(j),
    ensures
        a * b >= pow2(i + j),
{
    lemma_pow2_adds(i, j);
    lemma_ordered_products(pow2(i), a, pow2(j), b);
}

/// The window before its bounds is near bandwidth times RTT times gain, divided by the rate
/// and by eight.
proof fn lemma_product_within(bps: u64, rtt: nat, gain: Binary64, rate: Binary64)
    requires
        is_moderate(gain),
        is_moderate(rate),
        rtt / (NANOS_PER_SEC as nat) <= u64::MAX,
    ensures
        ({
            let p = congestion_control::bandwidth_delay_product(bps, rtt, gain, rate);
            &&& p.is_finite() && !p.is_negative()
            &&& is_within(
                p.units(),
                bps as nat * rtt * gain.units() * binary64::one_units(),
                8 * NANOS_PER_SEC as nat * rate.units(),
                7,
            )
        }),
{
    let one = binary64::one_units();
    let all = NANOS_PER_SEC as nat;
    let x = binary64::nearest_to_integer(bps as nat);
    let s = time::seconds(rtt);
    let flight = binary64::product(x, s);
    let gained = binary64::product(flight, gain);
    let rated = binary64::quotient(gained, rate);
    let eight = binary64::nearest_to_integer(8);
    let p = binary64::quotient(rated, eight);
    let (g, r) = (gain.units(), rate.units());
    let b = bps as nat;
    vstd::arithmetic::power2::lemma2_to64();
    lemma_pow2_pos(1074);
    lemma_pow2_pos(774);
    lemma_integer_within(b, 64);
    lemma_seconds_within(rtt);
    lemma_within_product(x.units(), b * one, 1, 1, s.units(), rtt * one, all, 2);
    // Bandwidth times RTT.
    let n1 = x.units() * s.units();
    lemma_power_bounds(x.units(), s.units(), 1138, 1139);
    lemma_pow2_adds(1074, 1203);
    lemma_pow2_adds(1074, 1044);
    if n1 > 0 {
        assert(x.units() > 0 && s.units() > 0) by (nonlinear_arith)
            requires
                n1 == x.units() * s.units(),
                n1 > 0,
        ;
        lemma_power_bounds_below(x.units(), s.units(), 1074, 1044);
    }
    lemma_rounding(n1, one, 1044, 1203);
    let m1 = (b * one) * (rtt * one);
    assert(n1 * 1 == n1 && m1 * 1 == m1);
    lemma_within_rounded(n1, m1, 1 * all, 3, flight.units(), 1, one);
    let f = flight.units();
    // Times the gain.
    let n2 = f * g;
    lemma_power_bounds(f, g, 1203, 1374);
    lemma_pow2_adds(1074, 1503);
    lemma_pow2_adds(1074, 744);
    if n2 > 0 {
        assert(f > 0) by (nonlinear_arith)
            requires
                n2 == f * g,
                n2 > 0,
        ;
        lemma_power_bounds_below(f, g, 1044, 774);
    }
    lemma_rounding(n2, one, 744, 1503);
    lemma_within_rounded(f, m1, all * one, 4, gained.units(), g, one);
    // Divided by the rate.
    let u = gained.units();
    let n3 = u * one;
    assert(!rate.is_zero());
    lemma_power_bounds(u, one, 1503, 1074);
    lemma_power_bounds_below(r, pow2(1803), 774, 1803);
    if n3 > 0 {
        assert(u > 0) by (nonlinear_arith)
            requires
                n3 == u * one,
                n3 > 0,
        ;
        lemma_power_bounds_below(u, one, 744, 1074);
        lemma_power_bounds(r, pow2(444), 1374, 444);
    }
    lemma_rounding(n3, r, 444, 1803);
    lemma_within_rounded(u, m1 * g, (all * one) * one, 5, rated.units(), one, r);
    // Divided by eight.
    let v = rated.units();
    let n4 = v * one;
    controller_laws::lemma_eight();
    controller_laws::lemma_exact_multiple(8, UNIT_EXPONENT as nat);
    let e = eight.units();
    lemma_pow2_adds(3, 1074);
    assert(e == pow2(1077));
    lemma_power_bounds(v, one, 1803, 1074);
    lemma_pow2_adds(1077, 1800);
    lemma_pow2_adds(1077, 441);
    if n4 > 0 {
        assert(v > 0) by (nonlinear_arith)
            requires
                n4 == v * one,
                n4 > 0,
        ;
        lemma_power_bounds_below(v, one, 444, 1074);
    }
    lemma_rounding(n4, e, 441, 1800);
    let n = (m1 * g) * one;
    let d = ((all * one) * one) * r;
    lemma_within_rounded(v, n, d, 6, p.units(), one, e);
    // The units cancel out.
    let cube = one * one * one;
    assert(cube > 0) by (nonlinear_arith)
        requires
            cube == one * one * one,
            one > 0,
    ;
    assert(n * one == (b * rtt * g * one) * cube) by (nonlinear_arith)
        requires
            n == (((b * one) * (rtt * one)) * g) * one,
            cube == one * one * one,
    ;
    assert(d * e == (8 * all * r) * cube) by (nonlinear_arith)
        requires
            d == ((all * one) * one) * r,
            e == 8 * one,
            cube == one * one * one,
    ;
    lemma_within_scaled(p.units(), b * rtt * g * one, 8 * all * r, 7, cube);
}

/// The window is bandwidth times RTT times gain, divided by the rate, in bytes: cut to a
/// whole number, held to the range of `u64` and to at least the minimum and the MTU, and
/// exact up to seven roundings. The rate is 1 without compensation; with it, it is the
/// greater of the ACK rate and the configured minimum. Gain and rate are to lie between
/// 2^-300 and 2^300.
pub proof fn law_window_is_bandwidth_delay_product(state: ControllerState, rate: Binary64)
    requires
        is_moderate(state.config.cwnd_gain),
        is_moderate(rate),
        !state.config.enable_ack_rate_compensation ==> rate.bits == 0x3ff0_0000_0000_0000,
        state.config.enable_ack_rate_compensation ==> {
            let (measured, minimum) = (state.ack_rate, state.config.min_ack_rate);
            ||| rate == measured && (minimum.is_nan() || minimum.signed_code()
                <= measured.signed_code())
            ||| rate == minimum && (measured.is_nan() || measured.signed_code()
                < minimum.signed_code())
        },
        state.current_rtt() / 1_000_000_000 <= u64::MAX,
    ensures
        ({
            let cwnd = state.called_for_cwnd();
            let num = state.target_bps() * state.current_rtt() * state.config.cwnd_gain.units();
            let den = 8_000_000_000 * rate.units();
            &&& cwnd >= state.config.min_window && cwnd >= state.mtu
            &&& cwnd == state.config.min_window || cwnd == state.mtu || cwnd * den * power(
                0x20_0000_0000_0000,
                7,
            ) <= num * power(0x20_0000_0000_0001, 7)
            &&& cwnd == u64::MAX || num * power(0x1f_ffff_ffff_ffff, 7) < (cwnd + 1) * den * power(
                0x20_0000_0000_0000,
                7,
            )
        }),
{
    let one = binary64::one_units();
    let gain = state.config.cwnd_gain;
    let cwnd = state.called_for_cwnd() as nat;
    let p = congestion_control::bandwidth_delay_product(
        state.target_bps(),
        state.current_rtt(),
        gain,
        rate,
    );
    let q = binary64::saturated_integer(p) as nat;
    let num = (state.target_bps() * state.current_rtt() * gain.units()) as nat;
    let den = (8_000_000_000 * rate.units()) as nat;
    assert(state.effective_ack_rate() == rate);
    lemma_product_within(state.target_bps(), state.current_rtt(), gain, rate);
    crate::binary64_laws::law_cut_is_whole_part(p);
    lemma_pow2_pos(1074);
    lemma_pow2_pos(774);
    lemma_power_positive(0x20_0000_0000_0000, 7);
    let (a, c, e) = (
        power(0x1f_ffff_ffff_ffff, 7),
        power(0x20_0000_0000_0000, 7),
        power(0x20_0000_0000_0001, 7),
    );
    let x = p.units();
    assert(q * den * c <= num * e) by (nonlinear_arith)
        requires
            q * one <= x,
            x * den * c <= (num * one) * e,
            one > 0,
    {
        assert((q * den * c) * one == (q * one) * (den * c));
        assert((q * one) * (den * c) <= x * (den * c));
        assert((num * e) * one == (num * one) * e);
        assert(x * (den * c) == x * den * c);
    }
    if cwnd < u64::MAX {
        assert(q <= cwnd);
        assert(q < u64::MAX);
        assert(num * a < (q + 1) * den * c) by (nonlinear_arith)
            requires
                x < (q + 1) * one,
                (num * one) * a <= x * den * c,
                one > 0,
                den > 0,
                c > 0,
        {
            assert((num * a) * one == (num * one) * a);
            assert(den * c > 0);
            assert(x * (den * c) == x * den * c);
            assert(x * (den * c) < ((q + 1) * one) * (den * c));
            assert(((q + 1) * den * c) * one == ((q + 1) * one) * (den * c));
        }
        assert((q + 1) * den * c <= (cwnd + 1) * den * c) by (nonlinear_arith)
            requires
                q <= cwnd,
        ;
    }
}

/// The smoothed RTT is seven eighths of the old one and one eighth of the sample: cut to a
/// whole nanosecond, held to the range of `u64`, and exact up to three roundings.
pub proof fn law_smoothing_is_near(srtt: nat, sample: nat)
    requires
        srtt / 1_000_000_000 <= u64::MAX,
        sample / 1_000_000_000 <= u64::MAX,
    ensures
        ({
            let result = congestion_control::smoothed(Some(srtt), sample);
            let sum = 7 * srtt + sample;
            &&& result * 8 * power(0x20_0000_0000_0000, 3) <= sum * power(0x20_0000_0000_0001, 3)
            &&& result == u64::MAX || sum * power(0x1f_ffff_ffff_ffff, 3) < (result + 1) * 8
                * power(0x20_0000_0000_0000, 3)
        }),
{
    let one = binary64::one_units();
    let eighth = pow2(1071);
    vstd::arithmetic::power2::lemma2_to64();
    vstd::arithmetic::power2::lemma2_to64_rest();
    lemma_pow2_adds(3, 1071);
    lemma_pow2_pos(1071);
    lemma_pow2_adds(64, 30);
    congestion_control::lemma_shares();
    binary64::lemma_split_units(0x1c_0000_0000_0000, 1021);
    binary64::lemma_split_units(0x10_0000_0000_0000, 1019);
    lemma_pow2_adds(50, 1021);
    lemma_pow2_adds(52, 1019);
    let seven = decimal::decimal_number(875, -3);
    let single = decimal::decimal_number(125, -3);
    assert(seven.units() == 7 * eighth);
    assert(single.units() == eighth);
    lemma_share_within(seven, 7, srtt);
    lemma_share_within(single, 1, sample);
    let kept = binary64::product(seven, binary64::nearest_to_integer(srtt));
    let added = binary64::product(single, binary64::nearest_to_integer(sample));
    let (x, y) = (kept.units(), added.units());
    lemma_within_sum(x, (7 * srtt) * eighth, y, (1 * sample) * eighth, 1, 2);
    let sum = 7 * srtt + sample;
    let total = x + y;
    assert((7 * srtt) * eighth + (1 * sample) * eighth == sum * eighth) by (nonlinear_arith)
        requires
            sum == 7 * srtt + sample,
    ;
    assert(1 * pow2(1000) == pow2(1000) && 1 * pow2(1200) == pow2(1200));
    lemma_pow2_strictly_increases(1000, 1071);
    lemma_pow2_strictly_increases(1172, 1199);
    vstd::arithmetic::power2::lemma_pow2_unfold(1200);
    lemma_rounding(total, 1, 1000, 1200);
    let all = binary64::sum(kept, added);
    assert(total * 1 == total && (sum * eighth) * 1 == sum * eighth);
    lemma_within_rounded(total, sum * eighth, 1, 2, all.units(), 1, 1);
    crate::binary64_laws::law_cut_is_whole_part(all);
    let result = congestion_control::smoothed(Some(srtt), sample);
    let z = all.units();
    let (a, c, e) = (
        power(0x1f_ffff_ffff_ffff, 3),
        power(0x20_0000_0000_0000, 3),
        power(0x20_0000_0000_0001, 3),
    );
    lemma_power_positive(0x20_0000_0000_0000, 3);
    assert(result * 8 * c <= sum * e) by (nonlinear_arith)
        requires
            result * one <= z,
            one == 8 * eighth,
            eighth > 0,
            z * 1 * c <= (sum * eighth) * e,
    {
        assert((result * 8 * c) * eighth == (result * one) * c);
        assert((result * one) * c <= z * c);
        assert((sum * e) * eighth == (sum * eighth) * e);
    }
    if result < u64::MAX {
        assert(sum * a < (result + 1) * 8 * c) by (nonlinear_arith)
            requires
                z < (result + 1) * one,
                one == 8 * eighth,
                eighth > 0,
                c > 0,
                (sum * eighth) * a <= z * 1 * c,
        {
            assert((sum * a) * eighth == (sum * eighth) * a);
            assert(z * c < ((result + 1) * one) * c);
            assert(((result + 1) * 8 * c) * eighth == ((result + 1) * one) * c);
        }
    }
}

/// A few eighths of a span are near their exact value.
proof fn lemma_share_within(share: Binary64, eighths: nat, n: nat)
    requires
        !share.is_negative(),
        share.is_finite(),
        1 <= eighths <= 7,
        share.units() == eighths * pow2(1071),
        n / 1_000_000_000 <= u64::MAX,
    ensures
        ({
            let x = binary64::product(share, binary64::nearest_to_integer(n));
            &&& x.is_finite() && !x.is_negative()
            &&& x.units() == 0 || x.units() >= pow2(1071)
            &&& x.units() <= pow2(1172)
            &&& is_within(x.units(), (eighths * n) * pow2(1071), 1, 2)
        }),
{
    let one = binary64::one_units();
    let eighth = pow2(1071);
    let y = binary64::nearest_to_integer(n);
    let u = y.units();
    vstd::arithmetic::power2::lemma2_to64();
    lemma_pow2_adds(3, 1071);
    lemma_pow2_adds(64, 30);
    lemma_pow2_pos(1071);
    lemma_pow2_adds(98, 1074);
    lemma_pow2_strictly_increases(94, 95);
    lemma_integer_within(n, 95);
    lemma_pow2_adds(1074, 1172);
    lemma_pow2_adds(1074, 1071);
    let num = share.units() * u;
    lemma_power_bounds(share.units(), u, 1074, 1169);
    lemma_pow2_strictly_increases(1169, 1172);
    lemma_pow2_strictly_increases(1074 + 1169, 1074 + 1172);
    if num > 0 {
        assert(u > 0) by (nonlinear_arith)
            requires
                num == share.units() * u,
                num > 0,
        ;
        lemma_ordered_products(eighth, share.units(), pow2(1074), u);
        assert(eighth * pow2(1074) == one * eighth) by (nonlinear_arith)
            requires
                one == pow2(1074),
        ;
    }
    lemma_rounding(num, one, 1071, 1172);
    let x = binary64::product(share, y);
    // The share as a factor, the units as a divisor.
    assert(num == u * share.units()) by (nonlinear_arith)
        requires
            num == share.units() * u,
    ;
    lemma_within_rounded(u, n * one, 1, 1, x.units(), share.units(), one);
    assert((n * one) * (eighths * eighth) == ((eighths * n) * eighth) * one) by (nonlinear_arith);
    lemma_within_scaled(x.units(), (eighths * n) * eighth, 1, 2, one);
}

/// A span of time in seconds is exact up to two roundings, and whole seconds are the integer.
pub proof fn law_seconds_are_near(nanos: nat)
    requires
        nanos / 1_000_000_000 <= u64::MAX,
    ensures
        time::seconds(nanos).is_finite() && !time::seconds(nanos).is_negative(),
        is_within(
            time::seconds(nanos).units(),
            nanos * binary64::one_units(),
            1_000_000_000,
            2,
        ),
        nanos % 1_000_000_000 == 0 ==> time::seconds(nanos) == binary64::nearest_to_integer(
            nanos / 1_000_000_000,
        ),
{
    lemma_seconds_within(nanos);
    lemma_fraction_within(nanos % 1_000_000_000);
    let x = binary64::nearest_to_integer(nanos / 1_000_000_000);
    binary64::lemma_integer_is_finite(nanos / 1_000_000_000);
    rounding::lemma_nearest_exact(x.code(), 1);
    assert(x.units() * 1 == x.units());
}

/// The second of a point of time is the number of whole seconds since the start; before the
/// start it is 0.
pub proof fn law_seconds_since_start(state: ControllerState, now: nat)
    ensures
        state.base_time <= now ==> state.second_of(now) * 1_000_000_000 <= now - state.base_time
            < (state.second_of(now) + 1) * 1_000_000_000,
        now < state.base_time ==> state.second_of(now) == 0,
{
}

/// The measured ACK rate is the share of acknowledged packets among all. With fewer packets
/// than asked for it is 1. With up to 2^53 packets it is the number nearest to the share; with
/// more it is off by three roundings at most.
pub proof fn law_measured_rate(acked: nat, lost: nat, min_sample_count: u64)
    requires
        acked + lost <= u64::MAX,
    ensures
        ({
            let rate = congestion_control::measured_ack_rate(acked, lost, min_sample_count);
            let total = acked + lost;
            let one = binary64::one_units();
            &&& total < min_sample_count ==> rate.bits == 0x3ff0_0000_0000_0000
            &&& 0 < total && min_sample_count <= total ==> {
                &&& rate.is_finite() && !rate.is_negative()
                &&& total <= 0x20_0000_0000_0000 ==> crate::binary64_laws::is_nearest(
                    rate.code(),
                    acked * one,
                    total,
                )
                &&& rate.units() * total * 0x1f_ffff_ffff_ffff * 0x20_0000_0000_0000 <= acked * one
                    * 0x20_0000_0000_0001 * 0x20_0000_0000_0001
                &&& acked * one * 0x1f_ffff_ffff_ffff * 0x1f_ffff_ffff_ffff <= rate.units() * total
                    * 0x20_0000_0000_0001 * 0x20_0000_0000_0000
            }
        }),
{
    let rate = congestion_control::measured_ack_rate(acked, lost, min_sample_count);
    let total = acked + lost;
    let one = binary64::one_units();
    if 0 < total && min_sample_count <= total {
        let x = binary64::nearest_to_integer(acked);
        let y = binary64::nearest_to_integer(total);
        let (u, v) = (x.units(), y.units());
        vstd::arithmetic::power2::lemma2_to64();
        lemma_pow2_pos(1074);
        lemma_integer_within(acked, 64);
        lemma_integer_within(total, 64);
        assert(!y.is_zero());
        lemma_power_bounds(u, one, 1138, 1074);
        lemma_power_bounds_below(v, pow2(1138), 1074, 1138);
        if u > 0 {
            lemma_power_bounds_below(u, one, 1074, 1074);
            lemma_power_bounds(v, pow2(1010), 1138, 1010);
        }
        assert(u == 0 ==> u * one == 0) by (nonlinear_arith);
        lemma_rounding(u * one, v, 1010, 1138);
        let z = rate.units();
        assert(rate == binary64::quotient(x, y));
        lemma_one_rounding(u, acked * one, 1);
        lemma_one_rounding(v, total * one, 1);
        lemma_one_rounding(z, u * one, v);
        let low = 0x1f_ffff_ffff_ffffnat;
        let mid = 0x20_0000_0000_0000nat;
        let high = 0x20_0000_0000_0001nat;
        assert(u * 1 == u && v * 1 == v);
        lemma_rate_above(z, u, v, acked, total, one, low, mid, high);
        lemma_rate_below(z, u, v, acked, total, one, low, mid, high);
        if total <= 0x20_0000_0000_0000 {
            crate::bandwidth_laws::law_small_integers_are_exact(acked);
            crate::bandwidth_laws::law_small_integers_are_exact(total);
            assert((acked * one) * one == one * (acked * one) && total * one == one * total)
                by (nonlinear_arith);
            rounding::lemma_nearest_scales(acked * one, total, one);
            crate::binary64_laws::law_rounding_is_nearest(acked * one, total);
        }
    }
}

proof fn lemma_rate_above(
    z: nat,
    u: nat,
    v: nat,
    acked: nat,
    total: nat,
    one: nat,
    low: nat,
    mid: nat,
    high: nat,
)
    requires
        one > 0,
        (z * v) * mid <= (u * one) * high,
        u * mid <= (acked * one) * high,
        (total * one) * low <= v * mid,
    ensures
        z * total * low * mid <= acked * one * high * high,
{
    assert((z * total * low * mid) * one == (z * ((total * one) * low)) * mid) by (nonlinear_arith);
    lemma_ordered_products(z, z, (total * one) * low, v * mid);
    lemma_ordered_products(z * ((total * one) * low), z * (v * mid), mid, mid);
    assert((z * (v * mid)) * mid == ((z * v) * mid) * mid) by (nonlinear_arith);
    lemma_ordered_products((z * v) * mid, (u * one) * high, mid, mid);
    assert(((u * one) * high) * mid == (u * mid) * (one * high)) by (nonlinear_arith);
    lemma_ordered_products(u * mid, (acked * one) * high, one * high, one * high);
    assert(((acked * one) * high) * (one * high) == (acked * one * high * high) * one)
        by (nonlinear_arith);
    lemma_order_scaled(z * total * low * mid, acked * one * high * high, one);
}

proof fn lemma_rate_below(
    z: nat,
    u: nat,
    v: nat,
    acked: nat,
    total: nat,
    one: nat,
    low: nat,
    mid: nat,
    high: nat,
)
    requires
        one > 0,
        (u * one) * low <= (z * v) * mid,
        (acked * one) * low <= u * mid,
        v * mid <= (total * one) * high,
    ensures
        acked * one * low * low <= z * total * high * mid,
{
    assert((acked * one * low * low) * one == ((acked * one) * low) * (one * low))
        by (nonlinear_arith);
    lemma_ordered_products((acked * one) * low, u * mid, one * low, one * low);
    assert((u * mid) * (one * low) == ((u * one) * low) * mid) by (nonlinear_arith);
    lemma_ordered_products((u * one) * low, (z * v) * mid, mid, mid);
    assert(((z * v) * mid) * mid == (z * mid) * (v * mid)) by (nonlinear_arith);
    lemma_ordered_products(z * mid, z * mid, v * mid, (total * one) * high);
    assert((z * mid) * ((total * one) * high) == (z * total * high * mid) * one)
        by (nonlinear_arith);
    lemma_order_scaled(acked * one * low * low, z * total * high * mid, one);
}

/// Bandwidth times RTT is 0 where one of them is, and a finite number above 2^-31 elsewhere.
proof fn lemma_flight(bps: u64, rtt: nat)
    requires
        rtt / (NANOS_PER_SEC as nat) <= u64::MAX,
    ensures
        ({
            let flight = binary64::product(
                binary64::nearest_to_integer(bps as nat),
                time::seconds(rtt),
            );
            &&& flight.is_finite() && !flight.is_negative()
            &&& flight.is_zero() <==> bps == 0 || rtt == 0
            &&& bps > 0 && rtt > 0 ==> flight.units() >= pow2(1044)
        }),
{
    let one = binary64::one_units();
    let x = binary64::nearest_to_integer(bps as nat);
    let s = time::seconds(rtt);
    let n = x.units() * s.units();
    vstd::arithmetic::power2::lemma2_to64();
    lemma_pow2_pos(1074);
    lemma_pow2_pos(1044);
    lemma_integer_within(bps as nat, 64);
    lemma_seconds_within(rtt);
    lemma_power_bounds(x.units(), s.units(), 1138, 1139);
    lemma_pow2_adds(1074, 1203);
    lemma_pow2_adds(1074, 1044);
    if bps > 0 && rtt > 0 {
        lemma_power_bounds_below(x.units(), s.units(), 1074, 1044);
        lemma_pow2_pos(1074 + 1044);
    } else {
        assert(n == 0) by (nonlinear_arith)
            requires
                n == x.units() * s.units(),
                x.units() == 0 || s.units() == 0,
        ;
    }
    lemma_rounding(n, one, 1044, 1203);
    let flight = binary64::product(x, s);
    if flight.code() > 0 {
        rounding::lemma_units_lower_bound(flight.code(), 1);
    }
}

/// Where there is no bandwidth, no RTT or no gain, where the rate is infinite, where one of
/// them is NaN, or where gain and rate differ in sign, the window is what its bounds ask for.
/// Where the gain is infinite otherwise, or nothing arrives, the window has no end.
pub proof fn law_window_at_the_ends(state: ControllerState)
    requires
        state.current_rtt() / 1_000_000_000 <= u64::MAX,
    ensures
        ({
            let gain = state.config.cwnd_gain;
            let rate = state.effective_ack_rate();
            let bounds = crate::event_laws::max_of(state.config.min_window, state.mtu);
            let worthless = state.target_bps() == 0 || state.current_rtt() == 0 || gain.is_nan()
                || gain.is_zero() || rate.is_nan() || rate.is_infinite() || gain.is_negative()
                != rate.is_negative();
            &&& worthless ==> state.called_for_cwnd() == bounds
            &&& !worthless && gain.is_infinite() ==> state.called_for_cwnd() == u64::MAX
            &&& !worthless && rate.is_zero() && gain.units() >= pow2(774)
                ==> state.called_for_cwnd() == u64::MAX
        }),
{
    let one = binary64::one_units();
    let gain = state.config.cwnd_gain;
    let rate = state.effective_ack_rate();
    let eight = binary64::nearest_to_integer(8);
    let flight = binary64::product(
        binary64::nearest_to_integer(state.target_bps() as nat),
        time::seconds(state.current_rtt()),
    );
    lemma_pow2_pos(1074);
    lemma_flight(state.target_bps(), state.current_rtt());
    controller_laws::lemma_eight();
    let gained = binary64::product(flight, gain);
    let rated = binary64::quotient(gained, rate);
    if flight.is_zero() || gain.is_zero() {
        let n = flight.units() * gain.units();
        assert(n == 0) by (nonlinear_arith)
            requires
                n == flight.units() * gain.units(),
                flight.units() == 0 || gain.units() == 0,
        ;
        rounding::lemma_nearest_vanishes(0, one);
        assert(gained.is_nan() || gained.is_zero());
        if rate.is_finite() && !rate.is_zero() {
            rounding::lemma_units_lower_bound(rate.code(), 1);
            rounding::lemma_nearest_vanishes(0, rate.units());
        }
        assert(0 * one == 0);
        assert(rated.is_nan() || rated.is_zero());
        crate::window_laws::lemma_nothing_left(rated);
    } else if gain.is_nan() || rate.is_nan() || rate.is_infinite() || gain.is_negative()
        != rate.is_negative() {
        assert(rated.is_nan() || rated.is_zero() || rated.is_negative());
        crate::window_laws::lemma_nothing_left(rated);
    } else if gain.is_infinite() {
        assert(rated.is_infinite());
    } else if rate.is_zero() && gain.units() >= pow2(774) {
        let n = flight.units() * gain.units();
        lemma_power_bounds_below(flight.units(), gain.units(), 1044, 774);
        lemma_pow2_adds(744, 1074);
        controller_laws::lemma_exact_multiple(1, 744);
        lemma_pow2_pos(744);
        let p = pow2(744);
        assert(1 * p == p);
        assert(p * one <= n * 1);
        rounding::lemma_nearest_monotone(p, 1, n, one);
        assert(gained.code() > 0);
        assert(rated.is_infinite());
    }
}

/// A second has a thousand milliseconds of a million nanoseconds each.
pub proof fn law_units_of_time()
    ensures
        time::NANOS_PER_SEC == 1_000_000_000,
        time::NANOS_PER_MILLI == 1_000_000,
        1000 * time::NANOS_PER_MILLI == time::NANOS_PER_SEC,
{
}

} // verus!
