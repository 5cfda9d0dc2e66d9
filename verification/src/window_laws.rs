//! How the window of the Brutal controller depends on bandwidth and RTT.
use vstd::arithmetic::power2::{lemma_pow2_adds, lemma_pow2_pos, lemma_pow2_strictly_increases, pow2};
use vstd::prelude::*;

use crate::binary64;
use crate::binary64::{Binary64, UNIT_EXPONENT};
use crate::congestion_control::ControllerState;
use crate::controller_laws;
use crate::rounding;
use crate::rounding::{BINADE, EXACT_CODES, INFINITY_CODE};
use crate::time;
use crate::time::NANOS_PER_SEC;

verus! {

/// Whether `y` continues `x` away from 0, or `x` is NaN.
spec fn is_grown(x: Binary64, y: Binary64) -> bool {
    x.is_nan() || (!y.is_nan() && x.is_negative() == y.is_negative() && x.code() <= y.code())
}

/// Whether the number is finite and has no sign.
spec fn is_plain(x: Binary64) -> bool {
    !x.is_negative() && x.is_finite()
}

/// A ratio below a power of two is rounded to a number that is not above it.
pub(crate) proof fn lemma_rounded_below(num: nat, den: nat, shift: nat)
    requires
        den > 0,
        num <= den * pow2(shift),
        shift <= 2000,
    ensures
        rounding::nearest_code(num, den) < INFINITY_CODE,
        rounding::units(rounding::nearest_code(num, den)) <= pow2(shift),
{
    let bound = pow2(shift);
    assert(1 * bound == bound);
    assert(num * 1 <= bound * den) by (nonlinear_arith)
        requires
            num <= den * bound,
    ;
    controller_laws::lemma_exact_multiple(1, shift);
    rounding::lemma_nearest_monotone(num, den, bound, 1);
    controller_laws::lemma_units_ordered(
        rounding::nearest_code(num, den),
        rounding::nearest_code(bound, 1),
    );
}

/// Products grow with a finite number other than 0 and with the factor.
proof fn lemma_product_grows(x: Binary64, y: Binary64, factor: Binary64, greater_factor: Binary64)
    requires
        is_plain(x),
        is_plain(y),
        0 < x.code() <= y.code(),
        is_grown(factor, greater_factor),
    ensures
        is_grown(binary64::product(x, factor), binary64::product(y, greater_factor)),
{
    if factor.is_finite() && greater_factor.is_finite() {
        let one = binary64::one_units();
        lemma_pow2_pos(UNIT_EXPONENT as nat);
        controller_laws::lemma_units_ordered(x.code(), y.code());
        controller_laws::lemma_units_ordered(factor.code(), greater_factor.code());
        let f = factor.units();
        let g = greater_factor.units();
        assert((x.units() * f) * one <= (y.units() * g) * one) by (nonlinear_arith)
            requires
                x.units() <= y.units(),
                f <= g,
        ;
        rounding::lemma_nearest_monotone(x.units() * f, one, y.units() * g, one);
    }
}

/// Quotients of a number other than 0 grow with the number and with less of a divisor.
proof fn lemma_quotient_grows(x: Binary64, y: Binary64, divisor: Binary64, less: Binary64)
    requires
        is_grown(x, y),
        !x.is_zero() || divisor == less,
        is_grown(less, divisor),
        !less.is_nan(),
        !divisor.is_infinite(),
    ensures
        is_grown(binary64::quotient(x, divisor), binary64::quotient(y, less)),
{
    if x.is_finite() && y.is_finite() && !less.is_zero() {
        let one = binary64::one_units();
        let d = divisor.units();
        let e = less.units();
        rounding::lemma_units_lower_bound(less.code(), 1);
        controller_laws::lemma_units_ordered(less.code(), divisor.code());
        controller_laws::lemma_units_ordered(x.code(), y.code());
        assert((x.units() * one) * e <= (y.units() * one) * d) by (nonlinear_arith)
            requires
                x.units() <= y.units(),
                e <= d,
        ;
        rounding::lemma_nearest_monotone(x.units() * one, d, y.units() * one, e);
    }
}

/// The nanoseconds beyond whole seconds, as a fraction of a second.
spec fn fraction(rest: nat) -> Binary64 {
    binary64::quotient(
        binary64::nearest_to_integer(rest),
        binary64::nearest_to_integer(NANOS_PER_SEC as nat),
    )
}

/// Fractions are less than 1 and grow with the nanoseconds.
proof fn lemma_fraction(low: nat, high: nat)
    requires
        low <= high < NANOS_PER_SEC,
    ensures
        is_plain(fraction(low)),
        is_plain(fraction(high)),
        fraction(low).code() <= fraction(high).code(),
        fraction(high).units() < binary64::one_units(),
{
    let one = binary64::one_units();
    let all = NANOS_PER_SEC as nat;
    let x = binary64::nearest_to_integer(low);
    let y = binary64::nearest_to_integer(high);
    let z = binary64::nearest_to_integer(all);
    lemma_pow2_pos(UNIT_EXPONENT as nat);
    controller_laws::lemma_exact_multiple(low, UNIT_EXPONENT as nat);
    controller_laws::lemma_exact_multiple(high, UNIT_EXPONENT as nat);
    controller_laws::lemma_exact_multiple(all, UNIT_EXPONENT as nat);
    assert(z.units() > 0 && z.code() > 0) by {
        assert(all * one > 0) by (nonlinear_arith)
            requires
                all == 1_000_000_000,
                one > 0,
        ;
    }
    // All fractions are at most 1 - 2^-30.
    let step = pow2(1044);
    let top = 0x3fff_ffff * step;
    vstd::arithmetic::power2::lemma2_to64();
    lemma_pow2_adds(30, 1044);
    lemma_pow2_pos(1044);
    controller_laws::lemma_exact_multiple(0x3fff_ffff, 1044);
    assert((y.units() * one) * 1 <= top * z.units()) by (nonlinear_arith)
        requires
            y.units() == high * one,
            z.units() == all * one,
            high <= 999_999_999,
            all == 1_000_000_000,
            one == 0x4000_0000 * step,
            top == 0x3fff_ffff * step,
    ;
    rounding::lemma_nearest_monotone(y.units() * one, z.units(), top, 1);
    controller_laws::lemma_units_ordered(
        fraction(high).code(),
        rounding::nearest_code(top, 1),
    );
    assert((x.units() * one) * z.units() <= (y.units() * one) * z.units()) by (nonlinear_arith)
        requires
            x.units() == low * one,
            y.units() == high * one,
            low <= high,
    ;
    rounding::lemma_nearest_monotone(x.units() * one, z.units(), y.units() * one, z.units());
}

/// Beyond 2^53 a fraction is lost in the rounding.
proof fn lemma_fraction_is_lost(whole: nat, rest: nat)
    requires
        EXACT_CODES <= whole <= u64::MAX,
        rest < binary64::one_units(),
    ensures
        rounding::nearest_code(binary64::nearest_to_integer(whole).units() + rest, 1)
            == binary64::nearest_to_integer(whole).code(),
{
    let one = binary64::one_units();
    let x = binary64::nearest_to_integer(whole);
    binary64::lemma_integer_is_finite(whole);
    // 2^53 has a step of two.
    let shift = (UNIT_EXPONENT + 1) as nat;
    lemma_pow2_adds(1, UNIT_EXPONENT as nat);
    vstd::arithmetic::power2::lemma2_to64();
    let least = EXACT_CODES as nat * one;
    assert(BINADE * pow2(shift) == least) by (nonlinear_arith)
        requires
            pow2(shift) == 2 * one,
            least == EXACT_CODES * one,
            EXACT_CODES == 2 * BINADE,
    ;
    binary64::lemma_split_units(BINADE as nat, shift);
    let code = (shift * BINADE + BINADE) as nat;
    rounding::lemma_nearest_exact(code, 1);
    assert(least * 1 == least);
    controller_laws::lemma_integers_ordered(EXACT_CODES as nat, whole);
    assert(code < INFINITY_CODE);
    assert(x.code() >= code);
    let field = x.code() / BINADE as nat;
    let steps = (field - 1) as nat;
    let significand = (x.code() % BINADE as nat + BINADE) as nat;
    rounding::lemma_split(x.code(), BINADE as nat);
    assert(steps * BINADE + significand == x.code()) by (nonlinear_arith)
        requires
            x.code() == field * BINADE + x.code() % BINADE as nat,
            significand == x.code() % BINADE as nat + BINADE,
            steps == field - 1,
    ;
    binary64::lemma_split_units(significand, steps);
    if steps > shift {
        lemma_pow2_strictly_increases(shift, steps);
    }
    binary64::lemma_absorbed(significand, steps, rest);
}

/// A longer span has no fewer seconds.
proof fn lemma_seconds_grow(low: nat, high: nat)
    requires
        low <= high,
        high / (NANOS_PER_SEC as nat) <= u64::MAX,
    ensures
        is_plain(time::seconds(low)),
        is_plain(time::seconds(high)),
        time::seconds(low).code() <= time::seconds(high).code(),
        time::seconds(high).units() <= pow2(1139),
{
    let one = binary64::one_units();
    let all = NANOS_PER_SEC as nat;
    let (a, b) = (low / all, high / all);
    let (r, s) = (low % all, high % all);
    let x = binary64::nearest_to_integer(a);
    let y = binary64::nearest_to_integer(b);
    vstd::arithmetic::power2::lemma2_to64();
    lemma_pow2_adds(64, UNIT_EXPONENT as nat);
    lemma_pow2_adds(1, 1138);
    lemma_pow2_pos(UNIT_EXPONENT as nat);
    binary64::lemma_integer_is_finite(a);
    binary64::lemma_integer_is_finite(b);
    controller_laws::lemma_integers_ordered(a, b);
    controller_laws::lemma_units_ordered(x.code(), y.code());
    lemma_fraction(0, r);
    lemma_fraction(0, s);
    let f = fraction(r);
    let g = fraction(s);
    // Both sums are bounded.
    assert(b * one <= 1 * pow2(1138)) by (nonlinear_arith)
        requires
            b <= u64::MAX,
            pow2(1138) == 0x1_0000_0000_0000_0000 * one,
    ;
    lemma_rounded_below(b * one, 1, 1138);
    assert(one <= pow2(1138)) by (nonlinear_arith)
        requires
            pow2(1138) == 0x1_0000_0000_0000_0000 * one,
    ;
    lemma_rounded_below(y.units() + g.units(), 1, 1139);
    lemma_rounded_below(x.units() + f.units(), 1, 1139);
    if a == b {
        lemma_fraction(r, s);
        controller_laws::lemma_units_ordered(f.code(), g.code());
        rounding::lemma_nearest_monotone(x.units() + f.units(), 1, y.units() + g.units(), 1);
    } else {
        // The whole seconds alone are no more than the greater sum.
        rounding::lemma_nearest_exact(y.code(), 1);
        assert(y.units() * 1 == y.units());
        rounding::lemma_nearest_monotone(y.units(), 1, y.units() + g.units(), 1);
        if a < EXACT_CODES {
            controller_laws::lemma_exact_multiple(a, UNIT_EXPONENT as nat);
            assert(a * one + one == (a + 1) * one) by (nonlinear_arith);
            rounding::lemma_nearest_monotone(x.units() + f.units(), 1, (a + 1) * one, 1);
            controller_laws::lemma_integers_ordered(a + 1, b);
        } else {
            lemma_fraction_is_lost(a, f.units());
        }
    }
}

/// Bits in flight: bandwidth times RTT.
spec fn flight(bps: u64, rtt: nat) -> Binary64 {
    binary64::product(binary64::nearest_to_integer(bps as nat), time::seconds(rtt))
}

/// More bandwidth and a longer RTT make more bits in flight.
proof fn lemma_flight_grows(low: u64, short: nat, high: u64, long: nat)
    requires
        low <= high,
        short <= long,
        long / (NANOS_PER_SEC as nat) <= u64::MAX,
    ensures
        is_plain(flight(low, short)),
        is_plain(flight(high, long)),
        flight(low, short).code() <= flight(high, long).code(),
{
    let one = binary64::one_units();
    let x = binary64::nearest_to_integer(low as nat);
    let y = binary64::nearest_to_integer(high as nat);
    let s = time::seconds(short);
    let t = time::seconds(long);
    vstd::arithmetic::power2::lemma2_to64();
    lemma_pow2_pos(UNIT_EXPONENT as nat);
    lemma_pow2_adds(64, UNIT_EXPONENT as nat);
    lemma_pow2_adds(1138, 1139);
    lemma_pow2_adds(1203, UNIT_EXPONENT as nat);
    binary64::lemma_integer_is_finite(low as nat);
    binary64::lemma_integer_is_finite(high as nat);
    controller_laws::lemma_integers_ordered(low as nat, high as nat);
    controller_laws::lemma_units_ordered(x.code(), y.code());
    lemma_seconds_grow(short, long);
    controller_laws::lemma_units_ordered(s.code(), t.code());
    assert(high * one <= 1 * pow2(1138)) by (nonlinear_arith)
        requires
            high <= u64::MAX,
            pow2(1138) == 0x1_0000_0000_0000_0000 * one,
    ;
    lemma_rounded_below(high as nat * one, 1, 1138);
    assert(y.units() * t.units() <= one * pow2(1203)) by (nonlinear_arith)
        requires
            y.units() <= pow2(1138),
            t.units() <= pow2(1139),
            pow2(1138) * pow2(1139) == pow2(1203) * one,
    ;
    lemma_rounded_below(y.units() * t.units(), one, 1203);
    assert((x.units() * s.units()) * one <= (y.units() * t.units()) * one) by (nonlinear_arith)
        requires
            x.units() <= y.units(),
            s.units() <= t.units(),
    ;
    rounding::lemma_nearest_monotone(
        x.units() * s.units(),
        one,
        y.units() * t.units(),
        one,
    );
}

/// Whether the second gain is no less than the first, for windows that are divided by the
/// given rate. A gain below 0 counts as less only where the rate is not below 0.
pub open spec fn is_gain_no_less(low: Binary64, high: Binary64, rate: Binary64) -> bool {
    low == high || {
        &&& !low.is_nan()
        &&& !high.is_nan()
        &&& low.signed_code() <= high.signed_code()
        &&& !low.is_negative() || !rate.is_negative()
    }
}

/// Whether the second of two rates is no greater than the first; where they differ, neither
/// is NaN or below 0.
pub open spec fn is_rate_no_greater(low: Binary64, high: Binary64) -> bool {
    low == high || {
        &&& !low.is_nan() && !low.is_negative()
        &&& !high.is_nan() && !high.is_negative()
        &&& high.code() <= low.code()
    }
}

/// Nothing is left of 0 or of NaN.
pub(crate) proof fn lemma_nothing_left(x: Binary64)
    requires
        x.is_nan() || x.is_zero() || x.is_negative(),
    ensures
        binary64::saturated_integer(binary64::quotient(x, binary64::nearest_to_integer(8))) == 0,
{
    let one = binary64::one_units();
    let eight = binary64::nearest_to_integer(8);
    controller_laws::lemma_eight();
    if x.is_zero() {
        assert(0 * one == 0);
        rounding::lemma_nearest_vanishes(0, eight.units());
        lemma_pow2_pos(UNIT_EXPONENT as nat);
        rounding::lemma_quotient(0, one, 0, 0);
    }
}

/// The window grows with the bandwidth, the RTT, the gain, the configured minimum and the
/// MTU, and as the ACK rate that it is divided by falls: where none of the former is less
/// and the rate is no greater, the window is no smaller.
pub proof fn law_window_grows(low: ControllerState, high: ControllerState)
    requires
        low.target_bps() <= high.target_bps(),
        low.current_rtt() <= high.current_rtt(),
        low.config.min_window <= high.config.min_window,
        low.mtu <= high.mtu,
        is_gain_no_less(low.config.cwnd_gain, high.config.cwnd_gain, low.effective_ack_rate()),
        is_rate_no_greater(low.effective_ack_rate(), high.effective_ack_rate()),
        high.current_rtt() / (NANOS_PER_SEC as nat) <= u64::MAX,
    ensures
        low.called_for_cwnd() <= high.called_for_cwnd(),
{
    let gain = low.config.cwnd_gain;
    let greater_gain = high.config.cwnd_gain;
    let rate = low.effective_ack_rate();
    let less_rate = high.effective_ack_rate();
    let eight = binary64::nearest_to_integer(8);
    let one = binary64::one_units();
    let a = flight(low.target_bps(), low.current_rtt());
    let b = flight(high.target_bps(), high.current_rtt());
    lemma_flight_grows(
        low.target_bps(),
        low.current_rtt(),
        high.target_bps(),
        high.current_rtt(),
    );
    lemma_pow2_pos(UNIT_EXPONENT as nat);
    assert(0 * one == 0);
    let c = binary64::product(a, gain);
    let d = binary64::product(b, greater_gain);
    let x = binary64::quotient(c, rate);
    let y = binary64::quotient(d, less_rate);
    controller_laws::lemma_eight();
    if c.is_zero() || c.is_nan() || rate.is_infinite() || rate.is_nan() || c.is_negative()
        != rate.is_negative() {
        if c.is_zero() && rate.is_finite() && !rate.is_zero() {
            rounding::lemma_units_lower_bound(rate.code(), 1);
            rounding::lemma_nearest_vanishes(0, rate.units());
        }
        lemma_nothing_left(x);
    } else {
        if a.is_zero() || gain.is_zero() {
            assert(a.units() * gain.units() == 0) by (nonlinear_arith)
                requires
                    a.units() == 0 || gain.units() == 0,
            ;
            rounding::lemma_nearest_vanishes(0, one);
        }
        lemma_product_grows(a, b, gain, greater_gain);
        lemma_quotient_grows(c, d, rate, less_rate);
        lemma_quotient_grows(x, y, eight, eight);
        controller_laws::lemma_cut_ordered(
            binary64::quotient(x, eight),
            binary64::quotient(y, eight),
        );
    }
}

/// A lower ACK rate makes the window no narrower. Rates below the configured minimum count
/// as the minimum.
pub proof fn law_lower_ack_rate_widens(state: ControllerState, lower: Binary64, higher: Binary64)
    requires
        !lower.is_nan() && !lower.is_negative(),
        !higher.is_nan() && !higher.is_negative(),
        lower.code() <= higher.code(),
        state.current_rtt() / (NANOS_PER_SEC as nat) <= u64::MAX,
    ensures
        (ControllerState { ack_rate: lower, ..state }).called_for_cwnd() >= (ControllerState {
            ack_rate: higher,
            ..state
        }).called_for_cwnd(),
        state.config.enable_ack_rate_compensation && !state.config.min_ack_rate.is_nan()
            && higher.signed_code() <= state.config.min_ack_rate.signed_code() ==> (
        ControllerState { ack_rate: lower, ..state }).called_for_cwnd() == (ControllerState {
            ack_rate: higher,
            ..state
        }).called_for_cwnd(),
{
    law_window_grows(
        ControllerState { ack_rate: higher, ..state },
        ControllerState { ack_rate: lower, ..state },
    );
}

} // verus!
