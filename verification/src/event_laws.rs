//! What each event changes in the Brutal controller, and what it leaves alone.
use vstd::prelude::*;

use crate::binary64;
use crate::binary64::{Binary64, ONE_BITS};
use crate::binary64_laws;
use crate::congestion_control;
use crate::congestion_control::{BrutalConfig, ControllerState};
use crate::decimal;

verus! {

/// The greater of two integers.
pub open spec fn max_of(a: u64, b: u64) -> u64 {
    if a >= b {
        a
    } else {
        b
    }
}

/// Whether two states go by the same configuration, start, bandwidth, RTT and MTU.
pub open spec fn same_basis(a: ControllerState, b: ControllerState) -> bool {
    &&& a.config == b.config
    &&& a.base_time == b.base_time
    &&& a.bandwidth_hint_bps == b.bandwidth_hint_bps
    &&& a.smoothed_rtt == b.smoothed_rtt
    &&& a.mtu == b.mtu
}

/// A controller starts with its configuration and MTU, at the time it is given, with
/// nothing in flight, no RTT sample, no other bandwidth, a full ACK rate, an empty batch
/// and five empty slots.
pub proof fn law_start(config: BrutalConfig, now: nat, mtu: u16)
    ensures
        ({
            let state = congestion_control::initial_state(config, now, mtu);
            &&& state.config == config
            &&& state.base_time == now
            &&& state.mtu == mtu
            &&& state.bytes_in_flight == 0
            &&& state.smoothed_rtt is None
            &&& state.bandwidth_hint_bps is None
            &&& state.ack_rate == (Binary64 { bits: 0x3ff0_0000_0000_0000 })
            &&& state.slots.len() == 5
            &&& forall|i: int|
                0 <= i < 5 ==> (#[trigger] state.slots[i]).ack_count == 0
                    && state.slots[i].loss_count == 0 && state.slots[i].timestamp_sec == 0
            &&& state.acked_packets_in_batch == 0
            &&& state.lost_packets_in_batch == 0
            &&& state.target_bps() == config.default_bandwidth_bps
            &&& state.current_rtt() == config.initial_rtt@
            &&& state.cwnd == state.called_for_cwnd()
        }),
{
}

/// The controller aims at the bandwidth of its hint, or else at the configured one, and goes
/// by the smoothed RTT, or else by the configured one.
pub proof fn law_basis(state: ControllerState)
    ensures
        state.bandwidth_hint_bps is None ==> state.target_bps()
            == state.config.default_bandwidth_bps,
        state.bandwidth_hint_bps matches Some(bps) ==> state.target_bps() == bps,
        state.smoothed_rtt is None ==> state.current_rtt() == state.config.initial_rtt@,
        state.smoothed_rtt matches Some(rtt) ==> state.current_rtt() == rtt,
{
}

/// No event changes the target bandwidth, the configuration or the start: the target stays
/// the configured bandwidth.
pub proof fn law_target_stays(state: ControllerState, now: nat, mtu: u16, bytes: u64, rtt: nat)
    ensures
        forall|after: ControllerState|
            #![trigger after.target_bps()]
            after == state.after_sent(bytes) || after == state.after_ack(bytes, rtt) || after
                == state.after_loss(bytes) || after == state.after_end_acks(now) || after
                == state.after_mtu_update(mtu) ==> {
                &&& after.target_bps() == state.target_bps()
                &&& after.bandwidth_hint_bps == state.bandwidth_hint_bps
                &&& after.config == state.config
                &&& after.base_time == state.base_time
            },
{
}

/// Sending adds to the bytes in flight, up to the range of `u64`, and does nothing else.
pub proof fn law_sending(state: ControllerState, bytes: u64)
    ensures
        ({
            let after = state.after_sent(bytes);
            &&& state.bytes_in_flight + bytes <= u64::MAX ==> after.bytes_in_flight
                == state.bytes_in_flight + bytes
            &&& state.bytes_in_flight + bytes > u64::MAX ==> after.bytes_in_flight == u64::MAX
            &&& same_basis(after, state)
            &&& after.ack_rate == state.ack_rate
            &&& after.slots == state.slots
            &&& after.acked_packets_in_batch == state.acked_packets_in_batch
            &&& after.lost_packets_in_batch == state.lost_packets_in_batch
            &&& after.cwnd == state.cwnd
        }),
{
}

/// An acknowledgement takes the bytes out of flight, adds their packets to the batch and
/// takes in the RTT sample; the first sample is taken as it is. It does nothing else.
pub proof fn law_acknowledging(state: ControllerState, bytes: u64, rtt: nat)
    ensures
        ({
            let after = state.after_ack(bytes, rtt);
            &&& bytes <= state.bytes_in_flight ==> after.bytes_in_flight == state.bytes_in_flight
                - bytes
            &&& bytes > state.bytes_in_flight ==> after.bytes_in_flight == 0
            &&& after.acked_packets_in_batch == state.acked_packets_in_batch
                + congestion_control::packets(bytes, state.mtu)
            &&& after.lost_packets_in_batch == state.lost_packets_in_batch
            &&& after.smoothed_rtt is Some
            &&& state.smoothed_rtt is None ==> after.smoothed_rtt == Some(rtt)
            &&& state.smoothed_rtt matches Some(old_rtt) ==> after.smoothed_rtt == Some(
                congestion_control::smoothed(Some(old_rtt), rtt),
            )
            &&& after.config == state.config
            &&& after.base_time == state.base_time
            &&& after.bandwidth_hint_bps == state.bandwidth_hint_bps
            &&& after.mtu == state.mtu
            &&& after.ack_rate == state.ack_rate
            &&& after.slots == state.slots
            &&& after.cwnd == state.cwnd
        }),
{
}

/// A loss takes the bytes out of flight and adds their packets to the batch. It does nothing
/// else: bandwidth, RTT and window stay.
pub proof fn law_losing(state: ControllerState, bytes: u64)
    ensures
        ({
            let after = state.after_loss(bytes);
            &&& bytes <= state.bytes_in_flight ==> after.bytes_in_flight == state.bytes_in_flight
                - bytes
            &&& bytes > state.bytes_in_flight ==> after.bytes_in_flight == 0
            &&& after.lost_packets_in_batch == state.lost_packets_in_batch
                + congestion_control::packets(bytes, state.mtu)
            &&& after.acked_packets_in_batch == state.acked_packets_in_batch
            &&& same_basis(after, state)
            &&& after.ack_rate == state.ack_rate
            &&& after.slots == state.slots
            &&& after.cwnd == state.cwnd
        }),
{
}

/// Bytes fill the least number of packets that holds them. Without an MTU each byte is a
/// packet; no bytes fill none.
pub proof fn law_packet_count(bytes: u64, mtu: u64)
    ensures
        congestion_control::packets(0, mtu) == 0,
        congestion_control::packets(bytes, 0) == bytes,
        forall|count: nat| #![trigger (count * mtu)]
            mtu > 0 ==> (congestion_control::packets(bytes, mtu) <= count <==> count * mtu
                >= bytes),
{
    let size = if mtu == 0 {
        1
    } else {
        mtu as nat
    };
    crate::rounding::lemma_quotient((size - 1) as nat, size, 0, (size - 1) as nat);
    crate::rounding::lemma_quotient(bytes as nat, 1, bytes as nat, 0);
    if mtu > 0 {
        crate::controller_laws::law_packets_hold_the_bytes(bytes, mtu);
        let least = congestion_control::packets(bytes, mtu);
        assert forall|count: nat| #![trigger (count * mtu)]
            least <= count <==> count * mtu >= bytes by {
            if least <= count {
                assert(least * mtu <= count * mtu) by (nonlinear_arith)
                    requires
                        least <= count,
                ;
            } else if bytes > 0 {
                assert(count * mtu <= (least - 1) * mtu) by (nonlinear_arith)
                    requires
                        count <= least - 1,
                ;
            } else {
                assert(bytes == 0);
            }
        }
    }
}

/// The end of a round measures the ACK rate, fills the slots, empties the batch and sets the
/// window that the state then calls for. Bandwidth, RTT, MTU and what is in flight stay.
pub proof fn law_ending_a_round(state: ControllerState, now: nat)
    ensures
        ({
            let after = state.after_end_acks(now);
            &&& same_basis(after, state)
            &&& after.bytes_in_flight == state.bytes_in_flight
            &&& after.acked_packets_in_batch == 0
            &&& after.lost_packets_in_batch == 0
            &&& after.target_bps() == state.target_bps()
            &&& after.current_rtt() == state.current_rtt()
            &&& after.cwnd == after.called_for_cwnd()
            &&& after.cwnd == (ControllerState {
                ack_rate: after.ack_rate,
                ..state
            }).called_for_cwnd()
        }),
{
}

/// An MTU change makes the MTU the new one and sets the window that the state then calls
/// for. Bandwidth, RTT, ACK rate, batch and what is in flight stay.
pub proof fn law_changing_the_mtu(state: ControllerState, mtu: u16)
    ensures
        ({
            let after = state.after_mtu_update(mtu);
            &&& after.mtu == mtu
            &&& after.config == state.config
            &&& after.base_time == state.base_time
            &&& after.bandwidth_hint_bps == state.bandwidth_hint_bps
            &&& after.smoothed_rtt == state.smoothed_rtt
            &&& after.bytes_in_flight == state.bytes_in_flight
            &&& after.ack_rate == state.ack_rate
            &&& after.slots == state.slots
            &&& after.acked_packets_in_batch == state.acked_packets_in_batch
            &&& after.lost_packets_in_batch == state.lost_packets_in_batch
            &&& after.target_bps() == state.target_bps()
            &&& after.current_rtt() == state.current_rtt()
            &&& after.effective_ack_rate() == state.effective_ack_rate()
            &&& after.cwnd == after.called_for_cwnd()
        }),
{
}

/// The MTU bounds the window from below and does not bear on it otherwise: the window after
/// a change is the one called for without an MTU, held to at least the new one; so is the
/// one called for before, with the old one.
pub proof fn law_mtu_bounds_the_window(state: ControllerState, mtu: u16)
    ensures
        state.after_mtu_update(mtu).cwnd == max_of(state.after_mtu_update(0).cwnd, mtu as u64),
        state.called_for_cwnd() == max_of(state.after_mtu_update(0).cwnd, state.mtu),
{
}

/// The configured minimum bounds the window from below and does not bear on it otherwise.
pub proof fn law_minimum_bounds_the_window(state: ControllerState, min_window: u64)
    ensures
        (ControllerState {
            config: BrutalConfig { min_window, ..state.config },
            ..state
        }).called_for_cwnd() == max_of(
            (ControllerState {
                config: BrutalConfig { min_window: 0, ..state.config },
                ..state
            }).called_for_cwnd(),
            min_window,
        ),
{
}

/// What is in flight, the batch, the slots, the current window and the start do not bear on
/// the window called for.
pub proof fn law_window_goes_by_the_basis(a: ControllerState, b: ControllerState)
    requires
        same_basis(a, b),
        a.ack_rate == b.ack_rate || !a.config.enable_ack_rate_compensation,
    ensures
        a.called_for_cwnd() == b.called_for_cwnd(),
{
}

/// Without compensation the window does not depend on the ACK rate: it is that of a rate
/// of 1.
pub proof fn law_no_compensation_no_rate(state: ControllerState, rate: Binary64)
    requires
        !state.config.enable_ack_rate_compensation,
    ensures
        state.effective_ack_rate() == (Binary64 { bits: ONE_BITS }),
        (ControllerState { ack_rate: rate, ..state }).called_for_cwnd() == state.called_for_cwnd(),
        state.called_for_cwnd() == (ControllerState {
            ack_rate: Binary64 { bits: ONE_BITS },
            config: BrutalConfig {
                enable_ack_rate_compensation: true,
                min_ack_rate: Binary64 { bits: 0 },
                ..state.config
            },
            ..state
        }).called_for_cwnd(),
{
}

/// Without compensation the end of a round leaves the window where it is while the RTT
/// stays, whatever was lost.
pub proof fn law_losses_do_not_count_without_compensation(
    state: ControllerState,
    sent: u64,
    lost: u64,
    now: nat,
)
    requires
        !state.config.enable_ack_rate_compensation,
        state.cwnd == state.called_for_cwnd(),
    ensures
        state.after_end_acks(now).cwnd == state.cwnd,
        state.after_sent(sent).after_loss(lost).after_end_acks(now).cwnd == state.cwnd,
{
}

/// Sending twice is sending the sum; so is losing, as far as bytes in flight go.
pub proof fn law_bytes_add_up(state: ControllerState, a: u64, b: u64)
    requires
        a + b <= u64::MAX,
    ensures
        state.after_sent(a).after_sent(b) == state.after_sent((a + b) as u64),
        state.after_loss(a).after_loss(b).bytes_in_flight == state.after_loss(
            (a + b) as u64,
        ).bytes_in_flight,
{
}

/// With compensation the window is divided by the greater of the ACK rate and the configured
/// minimum; where one of them is NaN, by the other.
pub proof fn law_compensation_takes_the_greater(state: ControllerState)
    requires
        state.config.enable_ack_rate_compensation,
    ensures
        ({
            let (rate, minimum) = (state.ack_rate, state.config.min_ack_rate);
            &&& rate.is_nan() ==> state.effective_ack_rate() == minimum
            &&& minimum.is_nan() && !rate.is_nan() ==> state.effective_ack_rate() == rate
            &&& !rate.is_nan() && !minimum.is_nan() && rate.signed_code() >= minimum.signed_code()
                ==> state.effective_ack_rate() == rate
            &&& !rate.is_nan() && !minimum.is_nan() && rate.signed_code() < minimum.signed_code()
                ==> state.effective_ack_rate() == minimum
        }),
{
}

/// The default configuration: 100 ms, 16 KB, a gain of 1.25, a least ACK rate of 0.8 from 50
/// packets on, and no compensation.
pub proof fn law_default_config(config: BrutalConfig, bandwidth_bps: u64)
    requires
        congestion_control::is_default_config(config, bandwidth_bps),
    ensures
        config.default_bandwidth_bps == bandwidth_bps,
        config.initial_rtt@ == 100_000_000,
        config.min_window == 16_384,
        config.cwnd_gain.bits == 0x3ff4_0000_0000_0000,
        4 * config.cwnd_gain.units() == 5 * binary64::one_units(),
        config.min_ack_rate.bits == 0x3fe9_9999_9999_999a,
        binary64_laws::is_nearest(config.min_ack_rate.code(), 8 * binary64::one_units(), 10),
        config.min_sample_count == 50,
        !config.enable_ack_rate_compensation,
{
    congestion_control::lemma_default_gain();
    congestion_control::lemma_default_min_ack_rate();
    lemma_gain_units();
    decimal::lemma_decimal_den_positive(-1);
    reveal_with_fuel(decimal::ten_to, 2);
    binary64_laws::law_rounding_is_nearest(8 * binary64::one_units(), 10);
}

/// The size of 1.25.
pub(crate) proof fn lemma_gain_units()
    ensures
        4 * (Binary64 { bits: 0x3ff4_0000_0000_0000 }).units() == 5 * binary64::one_units(),
{
    vstd::arithmetic::power2::lemma2_to64_rest();
    binary64_laws::law_magnitudes(0x14_0000_0000_0000, 1022);
    vstd::arithmetic::power2::lemma_pow2_adds(52, 1022);
    let p = vstd::arithmetic::power2::pow2(1022);
    assert(4 * (0x14_0000_0000_0000 * p) == 5 * (0x10_0000_0000_0000 * p));
}

} // verus!
