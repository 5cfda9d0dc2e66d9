//! What holds of the Brutal controller whatever happens.
use vstd::arithmetic::power2::{lemma_pow2_adds, lemma_pow2_pos, pow2};
use vstd::prelude::*;

use crate::binary64;
use crate::binary64::{Binary64, ONE_BITS, UNIT_EXPONENT};
use crate::congestion_control;
use crate::congestion_control::{BrutalConfig, ControllerState, SlotCounts, SLOT_COUNT};
use crate::decimal;
use crate::rounding;
use crate::rounding::{EXACT_CODES, INFINITY_CODE};

verus! {

/// Sending, acknowledging and losing packets leave the window as it is: losses do not
/// shrink it.
pub proof fn law_window_survives_losses(state: ControllerState, bytes: u64, rtt: nat)
    ensures
        state.after_loss(bytes).cwnd == state.cwnd,
        state.after_sent(bytes).cwnd == state.cwnd,
        state.after_ack(bytes, rtt).cwnd == state.cwnd,
{
}

/// The window is the one that the state calls for when a controller starts, when a round
/// of acknowledgements ends and when the MTU changes; sending and losing packets keep it
/// so.
pub proof fn law_window_is_called_for(
    state: ControllerState,
    config: BrutalConfig,
    now: nat,
    mtu: u16,
    bytes: u64,
)
    ensures
        congestion_control::initial_state(config, now, mtu).cwnd
            == congestion_control::initial_state(config, now, mtu).called_for_cwnd(),
        state.after_end_acks(now).cwnd == state.after_end_acks(now).called_for_cwnd(),
        state.after_mtu_update(mtu).cwnd == state.after_mtu_update(mtu).called_for_cwnd(),
        state.cwnd == state.called_for_cwnd() ==> {
            &&& state.after_sent(bytes).cwnd == state.after_sent(bytes).called_for_cwnd()
            &&& state.after_loss(bytes).cwnd == state.after_loss(bytes).called_for_cwnd()
        },
{
}

/// Whether the window holds at least the configured minimum and one packet.
pub open spec fn is_window_bounded(state: ControllerState) -> bool {
    state.cwnd >= state.config.min_window && state.cwnd >= state.mtu
}

/// The window never falls below the configured minimum, nor below one packet.
pub proof fn law_window_stays_bounded(
    state: ControllerState,
    config: BrutalConfig,
    now: nat,
    mtu: u16,
    bytes: u64,
    rtt: nat,
)
    ensures
        is_window_bounded(congestion_control::initial_state(config, now, mtu)),
        is_window_bounded(state) ==> {
            &&& is_window_bounded(state.after_sent(bytes))
            &&& is_window_bounded(state.after_ack(bytes, rtt))
            &&& is_window_bounded(state.after_loss(bytes))
        },
        is_window_bounded(state.after_end_acks(now)),
        is_window_bounded(state.after_mtu_update(mtu)),
{
}

/// Bytes that were sent and then acknowledged or lost are no longer in flight; the others
/// still are.
pub proof fn law_settled_bytes_leave(state: ControllerState, bytes: u64, rtt: nat)
    requires
        state.bytes_in_flight + bytes <= u64::MAX,
    ensures
        state.after_sent(bytes).after_ack(bytes, rtt).bytes_in_flight == state.bytes_in_flight,
        state.after_sent(bytes).after_loss(bytes).bytes_in_flight == state.bytes_in_flight,
{
}

/// The end of a round of acknowledgements changes neither what is in flight nor the RTT,
/// and starts a new batch.
pub proof fn law_round_starts_new_batch(state: ControllerState, now: nat)
    ensures
        state.after_end_acks(now).acked_packets_in_batch == 0,
        state.after_end_acks(now).lost_packets_in_batch == 0,
        state.after_end_acks(now).bytes_in_flight == state.bytes_in_flight,
        state.after_end_acks(now).smoothed_rtt == state.smoothed_rtt,
        state.after_end_acks(now).config == state.config,
{
}

/// Packets are counted generously: together they hold the bytes, and one packet less would
/// not.
pub proof fn law_packets_hold_the_bytes(bytes: u64, mtu: u64)
    requires
        mtu > 0,
    ensures
        congestion_control::packets(bytes, mtu) * mtu >= bytes,
        bytes > 0 ==> (congestion_control::packets(bytes, mtu) - 1) * mtu < bytes,
{
    let n = (bytes + mtu - 1) as nat;
    let q = congestion_control::packets(bytes, mtu);
    rounding::lemma_split(n, mtu as nat);
    assert((q - 1) * mtu == q * mtu - mtu) by (nonlinear_arith);
}

/// Whether each slot that holds packets is the one for its second, and none lies ahead.
pub open spec fn are_slots_placed(slots: Seq<SlotCounts>, now: nat) -> bool {
    &&& slots.len() == SLOT_COUNT
    &&& forall|i: int|
        0 <= i < slots.len() ==> (#[trigger] slots[i]).timestamp_sec <= now && (
        slots[i].timestamp_sec as int % SLOT_COUNT as int == i || (slots[i].ack_count == 0
            && slots[i].loss_count == 0))
}

/// The first of the last five seconds.
pub open spec fn recent_start(now: nat) -> nat {
    if now < 4 {
        0
    } else {
        (now - 4) as nat
    }
}

/// Slots stay placed as time goes on: a round may end in the second of the last one or
/// later, and nothing else touches them.
pub proof fn law_slots_stay_placed(
    state: ControllerState,
    config: BrutalConfig,
    start: nat,
    mtu: u16,
    earlier: nat,
    now: nat,
    bytes: u64,
    rtt: nat,
)
    ensures
        are_slots_placed(congestion_control::initial_state(config, start, mtu).slots, 0),
        are_slots_placed(state.slots, earlier) && earlier <= state.second_of(now) ==> {
            &&& are_slots_placed(state.slots, state.second_of(now))
            &&& are_slots_placed(state.after_end_acks(now).slots, state.second_of(now))
        },
        state.after_sent(bytes).slots == state.slots,
        state.after_ack(bytes, rtt).slots == state.slots,
        state.after_loss(bytes).slots == state.slots,
        state.after_mtu_update(mtu).slots == state.slots,
{
}

/// The packets that count at the end of a round are those of the batch and those of the
/// last five seconds, each of them once.
pub proof fn law_recent_packets_count(state: ControllerState, now: nat)
    requires
        are_slots_placed(state.slots, state.second_of(now)),
    ensures
        state.acks_at(now) == state.acked_packets_in_batch + congestion_control::acks_since(
            state.slots,
            recent_start(state.second_of(now)),
        ),
        state.losses_at(now) == state.lost_packets_in_batch + congestion_control::losses_since(
            state.slots,
            recent_start(state.second_of(now)),
        ),
{
    let ts = state.second_of(now);
    lemma_counts_of_prefix(
        state.slots,
        ts,
        state.acked_packets_in_batch,
        state.lost_packets_in_batch,
        SLOT_COUNT as nat,
    );
    assert(state.slots.take(SLOT_COUNT as int) == state.slots);
    assert(state.slots_at(now).take(SLOT_COUNT as int) == state.slots_at(now));
}

proof fn lemma_counts_of_prefix(
    slots: Seq<SlotCounts>,
    now: nat,
    acked: nat,
    lost: nat,
    n: nat,
)
    requires
        are_slots_placed(slots, now),
        n <= SLOT_COUNT,
    ensures
        ({
            let after = congestion_control::slots_with_batch(slots, now, acked, lost);
            let since = congestion_control::window_start(now);
            let index = now as int % SLOT_COUNT as int;
            let recent = recent_start(now);
            &&& congestion_control::acks_since(after.take(n as int), since)
                == congestion_control::acks_since(slots.take(n as int), recent) + if index < n {
                acked
            } else {
                0
            }
            &&& congestion_control::losses_since(after.take(n as int), since)
                == congestion_control::losses_since(slots.take(n as int), recent) + if index < n {
                lost
            } else {
                0
            }
        }),
    decreases n,
{
    let after = congestion_control::slots_with_batch(slots, now, acked, lost);
    if n > 0 {
        lemma_counts_of_prefix(slots, now, acked, lost, (n - 1) as nat);
        assert(after.take(n as int).drop_last() == after.take(n - 1));
        assert(slots.take(n as int).drop_last() == slots.take(n - 1));
        assert(after.take(n as int).last() == after[n - 1]);
        assert(slots.take(n as int).last() == slots[n - 1]);
        let slot = slots[n - 1];
        let index = now as int % SLOT_COUNT as int;
        assert(slot.timestamp_sec <= now);
        if index == n - 1 {
            // The slot of this second, or one that is at least five seconds old.
            assert(slot.timestamp_sec != now && slot.timestamp_sec as int % SLOT_COUNT as int
                == index ==> slot.timestamp_sec + SLOT_COUNT <= now);
        } else {
            assert(slot.timestamp_sec as int % SLOT_COUNT as int == n - 1
                ==> slot.timestamp_sec + SLOT_COUNT != now);
        }
    }
}

/// The number 1, in units.
pub(crate) proof fn lemma_one()
    ensures
        rounding::units(ONE_BITS as nat) == binary64::one_units(),
        binary64::one_units() > 0,
        rounding::nearest_code(binary64::one_units(), 1) == ONE_BITS,
{
    vstd::arithmetic::power2::lemma2_to64_rest();
    binary64::lemma_split_units(0x10_0000_0000_0000, 1022);
    lemma_pow2_adds(52, 1022);
    lemma_pow2_pos(UNIT_EXPONENT as nat);
    rounding::lemma_nearest_exact(ONE_BITS as nat, 1);
    assert(binary64::one_units() * 1 == binary64::one_units());
}

/// Integers keep their order when they are rounded.
pub(crate) proof fn lemma_integers_ordered(m: nat, n: nat)
    requires
        m <= n,
    ensures
        rounding::nearest_code(m * binary64::one_units(), 1) <= rounding::nearest_code(
            n * binary64::one_units(),
            1,
        ),
{
    let one = binary64::one_units();
    assert((m * one) * 1 <= (n * one) * 1) by (nonlinear_arith)
        requires
            m <= n,
    ;
    rounding::lemma_nearest_monotone(m * one, 1, n * one, 1);
}

/// Magnitudes keep the order of their codes.
pub(crate) proof fn lemma_units_ordered(low: nat, high: nat)
    requires
        low <= high,
    ensures
        rounding::units(low) <= rounding::units(high),
{
    if low < high {
        rounding::lemma_units_increase(low, high);
    }
}

/// Whether a number lies between 0 and 1.
pub open spec fn is_share(x: Binary64) -> bool {
    !x.is_negative() && x.code() <= ONE_BITS
}

/// A part of a whole is a share of it.
pub(crate) proof fn lemma_part_is_share(part: nat, whole: nat)
    requires
        part <= whole,
        0 < whole <= u64::MAX,
    ensures
        is_share(
            binary64::quotient(
                binary64::nearest_to_integer(part),
                binary64::nearest_to_integer(whole),
            ),
        ),
{
    let one = binary64::one_units();
    let x = binary64::nearest_to_integer(part);
    let y = binary64::nearest_to_integer(whole);
    lemma_one();
    lemma_integers_ordered(part, whole);
    lemma_integers_ordered(1, whole);
    assert(1 * one == one);
    binary64::lemma_integer_is_finite(part);
    binary64::lemma_integer_is_finite(whole);
    lemma_units_ordered(x.code(), y.code());
    lemma_units_ordered(1, y.code());
    assert((x.units() * one) * 1 <= one * y.units()) by (nonlinear_arith)
        requires
            x.units() <= y.units(),
    ;
    rounding::lemma_nearest_monotone(x.units() * one, y.units(), one, 1);
}

/// The ACK rate lies between 0 and 1 from the start on. It leaves that range only at the
/// end of a round in which no packet counts and none is asked for.
pub proof fn law_ack_rate_is_share(
    state: ControllerState,
    config: BrutalConfig,
    now: nat,
    mtu: u16,
    bytes: u64,
    rtt: nat,
)
    requires
        state.acks_at(now) + state.losses_at(now) <= u64::MAX,
        state.acks_at(now) + state.losses_at(now) > 0 || state.config.min_sample_count > 0,
    ensures
        is_share(congestion_control::initial_state(config, now, mtu).ack_rate),
        is_share(state.after_end_acks(now).ack_rate),
        state.after_sent(bytes).ack_rate == state.ack_rate,
        state.after_ack(bytes, rtt).ack_rate == state.ack_rate,
        state.after_loss(bytes).ack_rate == state.ack_rate,
        state.after_mtu_update(mtu).ack_rate == state.ack_rate,
{
    let acked = state.acks_at(now);
    let counted = acked + state.losses_at(now);
    if counted > 0 {
        lemma_part_is_share(acked, counted);
    }
}

/// Compensation divides by the ACK rate, held to the configured minimum.
pub proof fn law_ack_rate_is_clamped(state: ControllerState)
    requires
        state.config.enable_ack_rate_compensation,
        !state.config.min_ack_rate.is_nan(),
    ensures
        !state.effective_ack_rate().is_nan(),
        state.effective_ack_rate().signed_code() >= state.config.min_ack_rate.signed_code(),
        state.ack_rate.is_nan() || state.ack_rate.signed_code()
            <= state.config.min_ack_rate.signed_code() ==> state.effective_ack_rate().signed_code()
            == state.config.min_ack_rate.signed_code(),
        !state.ack_rate.is_nan() && state.ack_rate.signed_code()
            >= state.config.min_ack_rate.signed_code() ==> state.effective_ack_rate()
            == state.ack_rate,
{
}

/// Dividing by a share makes no number smaller.
proof fn lemma_share_divides(x: Binary64, share: Binary64)
    requires
        x.is_finite(),
        is_share(share),
        !share.is_zero(),
    ensures
        rounding::nearest_code(x.units() * binary64::one_units(), share.units()) >= x.code(),
{
    let one = binary64::one_units();
    lemma_one();
    lemma_units_ordered(share.code(), ONE_BITS as nat);
    rounding::lemma_units_lower_bound(share.code(), 1);
    rounding::lemma_nearest_exact(x.code(), 1);
    assert(x.units() * 1 == x.units());
    assert(x.units() * share.units() <= (x.units() * one) * 1) by (nonlinear_arith)
        requires
            share.units() <= one,
    ;
    rounding::lemma_nearest_monotone(x.units(), 1, x.units() * one, share.units());
}

/// Dividing by 1 changes nothing but the form of NaN.
proof fn lemma_one_divides(x: Binary64)
    ensures
        !x.is_nan() ==> binary64::quotient(x, Binary64 { bits: ONE_BITS }) == x,
        x.is_nan() ==> binary64::quotient(x, Binary64 { bits: ONE_BITS }).is_nan(),
{
    let one = binary64::one_units();
    lemma_one();
    if x.is_finite() {
        rounding::lemma_nearest_exact(x.code(), one);
    }
}

/// The integer part grows with the number.
pub(crate) proof fn lemma_cut_ordered(x: Binary64, y: Binary64)
    requires
        x.is_nan() || x.is_negative() || (!y.is_nan() && !y.is_negative() && x.code() <= y.code()),
    ensures
        binary64::saturated_integer(x) <= binary64::saturated_integer(y),
{
    if !x.is_nan() && !x.is_negative() && y.is_finite() {
        lemma_units_ordered(x.code(), y.code());
        lemma_pow2_pos(UNIT_EXPONENT as nat);
        vstd::arithmetic::div_mod::lemma_div_is_ordered(
            x.units() as int,
            y.units() as int,
            binary64::one_units() as int,
        );
    }
}

/// The size of 8.
pub(crate) proof fn lemma_eight()
    ensures
        ({
            let eight = binary64::nearest_to_integer(8);
            eight.is_finite() && !eight.is_negative() && eight.units() > 0
        }),
{
    let one = binary64::one_units();
    lemma_one();
    lemma_integers_ordered(1, 8);
    assert(1 * one == one);
    binary64::lemma_integer_is_finite(8);
    rounding::lemma_units_lower_bound(binary64::nearest_to_integer(8).code(), 1);
}

/// A share in the divisor makes the window no smaller.
proof fn lemma_share_keeps_window(x: Binary64, share: Binary64)
    requires
        is_share(share),
    ensures
        ({
            let eight = binary64::nearest_to_integer(8);
            let plain = binary64::quotient(
                binary64::quotient(x, Binary64 { bits: ONE_BITS }),
                eight,
            );
            let divided = binary64::quotient(binary64::quotient(x, share), eight);
            binary64::saturated_integer(plain) <= binary64::saturated_integer(divided)
        }),
{
    let eight = binary64::nearest_to_integer(8);
    let one = binary64::one_units();
    lemma_eight();
    lemma_one_divides(x);
    let a = binary64::quotient(x, Binary64 { bits: ONE_BITS });
    let b = binary64::quotient(x, share);
    let plain = binary64::quotient(a, eight);
    let divided = binary64::quotient(b, eight);
    if x.is_nan() || x.is_negative() {
        assert(plain.is_nan() || plain.is_negative());
    } else if x.is_infinite() {
    } else if share.is_zero() {
        if x.is_zero() {
            assert(a.units() == 0);
            assert(0 * one == 0);
            rounding::lemma_nearest_vanishes(0, eight.units());
            assert(plain.code() == 0);
            lemma_pow2_pos(UNIT_EXPONENT as nat);
            rounding::lemma_quotient(0, one, 0, 0);
            assert(binary64::saturated_integer(plain) == 0);
        }
    } else {
        lemma_share_divides(x, share);
        if b.is_finite() {
            lemma_units_ordered(a.code(), b.code());
            assert((a.units() * one) * eight.units() <= (b.units() * one) * eight.units())
                by (nonlinear_arith)
                requires
                    a.units() <= b.units(),
            ;
            rounding::lemma_nearest_monotone(
                a.units() * one,
                eight.units(),
                b.units() * one,
                eight.units(),
            );
        }
    }
    if !(share.is_zero() && x.is_zero()) {
        lemma_cut_ordered(plain, divided);
    }
}

/// ACK rate compensation never makes the window smaller.
pub proof fn law_compensation_keeps_window(state: ControllerState)
    requires
        is_share(state.ack_rate) || state.ack_rate.is_nan(),
        is_share(state.config.min_ack_rate),
    ensures
        (ControllerState {
            config: BrutalConfig { enable_ack_rate_compensation: true, ..state.config },
            ..state
        }).called_for_cwnd() >= (ControllerState {
            config: BrutalConfig { enable_ack_rate_compensation: false, ..state.config },
            ..state
        }).called_for_cwnd(),
{
    let x = binary64::product(
        binary64::product(
            binary64::nearest_to_integer(state.target_bps() as nat),
            crate::time::seconds(state.current_rtt()),
        ),
        state.config.cwnd_gain,
    );
    lemma_share_keeps_window(x, binary64::greater(state.ack_rate, state.config.min_ack_rate));
}

/// A small multiple of a power of two is a number of its own.
pub(crate) proof fn lemma_exact_multiple(significand: nat, shift: nat)
    requires
        significand < EXACT_CODES,
        shift <= 2000,
    ensures
        ({
            let code = rounding::nearest_code(significand * pow2(shift), 1);
            code < INFINITY_CODE && rounding::units(code) == significand * pow2(shift)
        }),
    decreases shift,
{
    let value = significand * pow2(shift);
    if shift == 0 || significand >= rounding::BINADE {
        binary64::lemma_split_units(significand, shift);
        let code = (shift * rounding::BINADE + significand) as nat;
        assert(code < INFINITY_CODE) by (nonlinear_arith)
            requires
                code == shift * rounding::BINADE + significand,
                shift <= 2000,
                significand < 2 * rounding::BINADE,
                INFINITY_CODE == 2047 * rounding::BINADE,
                rounding::BINADE > 0,
        ;
        rounding::lemma_nearest_exact(code, 1);
        assert(value * 1 == value);
    } else {
        let less = (shift - 1) as nat;
        vstd::arithmetic::power2::lemma_pow2_unfold(shift);
        assert(significand * (2 * pow2(less)) == (2 * significand) * pow2(less))
            by (nonlinear_arith);
        lemma_exact_multiple(2 * significand, less);
    }
}

/// Below 2^50 nanoseconds (about thirteen days) the smoothed RTT is exactly seven eighths
/// of the old one plus one eighth of the sample, cut to a whole nanosecond.
pub proof fn law_smoothing_is_exact(srtt: nat, sample: nat)
    requires
        srtt < 0x4_0000_0000_0000,
        sample < 0x4_0000_0000_0000,
    ensures
        congestion_control::smoothed(Some(srtt), sample) == (7 * srtt + sample) / 8,
{
    let one = binary64::one_units();
    let eighth = pow2(1071);
    lemma_one();
    vstd::arithmetic::power2::lemma2_to64();
    vstd::arithmetic::power2::lemma2_to64_rest();
    lemma_pow2_adds(3, 1071);
    congestion_control::lemma_shares();
    // The shares are seven and one eighth.
    binary64::lemma_split_units(0x1c_0000_0000_0000, 1021);
    binary64::lemma_split_units(0x10_0000_0000_0000, 1019);
    lemma_pow2_adds(50, 1021);
    lemma_pow2_adds(52, 1019);
    let seven = decimal::decimal_number(875, -3);
    let single = decimal::decimal_number(125, -3);
    assert(seven.units() == 7 * eighth);
    assert(single.units() == eighth);
    lemma_exact_multiple(srtt, 1074);
    lemma_exact_multiple(sample, 1074);
    let x = binary64::nearest_to_integer(srtt);
    let y = binary64::nearest_to_integer(sample);
    lemma_exact_share(seven, x, 7, srtt);
    lemma_exact_share(single, y, 1, sample);
    let kept = binary64::product(seven, x);
    let added = binary64::product(single, y);
    let total = 7 * srtt + sample;
    assert(kept.units() + added.units() == total * eighth) by (nonlinear_arith)
        requires
            kept.units() == (7 * srtt) * eighth,
            added.units() == (1 * sample) * eighth,
            total == 7 * srtt + sample,
    ;
    lemma_exact_multiple(total, 1071);
    let all = binary64::sum(kept, added);
    assert(all.units() == total * eighth);
    rounding::lemma_split(total, 8);
    let q = total / 8;
    let r = total % 8;
    lemma_pow2_pos(1071);
    assert(total * eighth == q * one + r * eighth) by (nonlinear_arith)
        requires
            total == q * 8 + r,
            one == 8 * eighth,
    ;
    assert(r * eighth < one) by (nonlinear_arith)
        requires
            r < 8,
            one == 8 * eighth,
            eighth > 0,
    ;
    rounding::lemma_quotient(total * eighth, one, q, r * eighth);
}

/// A share of a small integer is exact.
proof fn lemma_exact_share(share: Binary64, x: Binary64, eighths: nat, n: nat)
    requires
        !share.is_negative(),
        !x.is_negative(),
        share.is_finite(),
        x.is_finite(),
        eighths <= 7,
        n < 0x4_0000_0000_0000,
        share.units() == eighths * pow2(1071),
        x.units() == n * binary64::one_units(),
    ensures
        ({
            let result = binary64::product(share, x);
            &&& result.is_finite()
            &&& !result.is_negative()
            &&& result.units() == (eighths * n) * pow2(1071)
        }),
{
    let one = binary64::one_units();
    let eighth = pow2(1071);
    lemma_one();
    let value = (eighths * n) * eighth;
    assert(eighths * n < EXACT_CODES) by (nonlinear_arith)
        requires
            eighths <= 7,
            n < 0x4_0000_0000_0000,
            EXACT_CODES == 0x20_0000_0000_0000,
    ;
    assert((eighths * eighth) * (n * one) == one * value) by (nonlinear_arith)
        requires
            value == (eighths * n) * eighth,
    ;
    assert(one * 1 == one);
    rounding::lemma_nearest_scales(value, 1, one);
    lemma_exact_multiple(eighths * n, 1071);
}

} // verus!
