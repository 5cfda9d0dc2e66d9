//! The Brutal congestion controller.
//!
//! Brutal derives its congestion window from a bandwidth hint: the window is the
//! bandwidth-delay product, scaled by a gain and, if so configured, by the rate of
//! packets that arrive. Losses do not shrink it.
use std::sync::Arc;

use quinn_proto::RttEstimator;
use vstd::prelude::*;

use crate::binary64;
use crate::binary64::{Binary64, ONE_BITS};
use crate::decimal;
use crate::decimal::{format_number, parse_number};
use crate::rounding;
use crate::text;
use crate::time;
use crate::time::{Duration, Instant};

verus! {

/// The number of seconds for which packets are counted.
pub const SLOT_COUNT: usize = 5;

/// The bits of the number 1.25.
pub const DEFAULT_GAIN_BITS: u64 = 0x3ff4_0000_0000_0000;

/// The bits of the number nearest to 0.8.
pub const DEFAULT_MIN_ACK_RATE_BITS: u64 = 0x3fe9_9999_9999_999a;

/// The bits of the number 0.875.
pub const KEPT_SHARE_BITS: u64 = 0x3fec_0000_0000_0000;

/// The bits of the number 0.125.
pub const SAMPLE_SHARE_BITS: u64 = 0x3fc0_0000_0000_0000;

/// Configuration for the Brutal congestion controller.
#[derive(Debug, Clone, Copy)]
pub struct BrutalConfig {
    /// Default target bandwidth in bits per second.
    pub default_bandwidth_bps: u64,
    /// Initial RTT estimate used before enough RTT samples are available.
    pub initial_rtt: Duration,
    /// Minimum congestion window in bytes.
    pub min_window: u64,
    /// Multiplier applied to BDP when calculating cwnd.
    pub cwnd_gain: Binary64,
    /// Minimum ACK rate clamp (only with ACK rate compensation).
    pub min_ack_rate: Binary64,
    /// Minimum sample count before ACK-rate estimation becomes active.
    pub min_sample_count: u64,
    /// Whether to compensate cwnd by dividing by the ACK rate.
    pub enable_ack_rate_compensation: bool,
}

/// The default configuration, but for the bandwidth.
pub open spec fn is_default_config(config: BrutalConfig, bandwidth_bps: u64) -> bool {
    &&& config.default_bandwidth_bps == bandwidth_bps
    &&& config.initial_rtt@ == 100_000_000
    &&& config.min_window == 16 * 1024
    &&& config.cwnd_gain == decimal::decimal_number(125, -2)
    &&& config.min_ack_rate == decimal::decimal_number(8, -1)
    &&& config.min_sample_count == 50
    &&& !config.enable_ack_rate_compensation
}

impl Default for BrutalConfig {
    fn default() -> (config: Self)
        ensures
            is_default_config(config, 1_000_000),
    {
        proof {
            lemma_default_gain();
            lemma_default_min_ack_rate();
        }
        BrutalConfig {
            default_bandwidth_bps: 1_000_000,
            initial_rtt: Duration::from_millis(100),
            min_window: 16 * 1024,
            cwnd_gain: Binary64::from_bits(DEFAULT_GAIN_BITS),
            min_ack_rate: Binary64::from_bits(DEFAULT_MIN_ACK_RATE_BITS),
            min_sample_count: 50,
            enable_ack_rate_compensation: false,
        }
    }
}

impl BrutalConfig {
    /// The default configuration with another target bandwidth.
    pub fn new(bandwidth_bps: u64) -> (config: Self)
        ensures
            is_default_config(config, bandwidth_bps),
    {
        let mut config = BrutalConfig::default();
        config.default_bandwidth_bps = bandwidth_bps;
        config
    }

    /// Replaces the gain.
    pub fn with_cwnd_gain(self, gain: Binary64) -> (config: Self)
        ensures
            config == (BrutalConfig { cwnd_gain: gain, ..self }),
    {
        let mut config = self;
        config.cwnd_gain = gain;
        config
    }

    /// Switches ACK rate compensation on or off.
    pub fn with_ack_compensate(self, enabled: bool) -> (config: Self)
        ensures
            config == (BrutalConfig { enable_ack_rate_compensation: enabled, ..self }),
    {
        let mut config = self;
        config.enable_ack_rate_compensation = enabled;
        config
    }

    /// Replaces the minimum window.
    pub fn with_min_window(self, bytes: u64) -> (config: Self)
        ensures
            config == (BrutalConfig { min_window: bytes, ..self }),
    {
        let mut config = self;
        config.min_window = bytes;
        config
    }
}

pub(crate) proof fn lemma_default_gain()
    ensures
        (Binary64 { bits: DEFAULT_GAIN_BITS }) == decimal::decimal_number(125, -2),
{
    vstd::arithmetic::power2::lemma2_to64_rest();
    reveal_with_fuel(decimal::ten_to, 4);
    rounding::lemma_quotient(125 * 0x10_0000_0000_0000, 100, 0x14_0000_0000_0000, 0);
    decimal::lemma_decimal_constant(125, 2, 52, 1022, 0x14_0000_0000_0000);
}

pub(crate) proof fn lemma_default_min_ack_rate()
    ensures
        (Binary64 { bits: DEFAULT_MIN_ACK_RATE_BITS }) == decimal::decimal_number(8, -1),
{
    vstd::arithmetic::power2::lemma2_to64_rest();
    reveal_with_fuel(decimal::ten_to, 4);
    decimal::lemma_decimal_constant(8, 1, 53, 1021, 0x19_9999_9999_999a);
}

/// The packets that were counted within one second.
#[derive(Debug, Clone, Copy)]
struct PktInfoSlot {
    timestamp_sec: u64,
    ack_count: u64,
    loss_count: u64,
}

/// What a slot holds: the second since the start, and the packets counted in it.
pub struct SlotCounts {
    pub timestamp_sec: nat,
    pub ack_count: nat,
    pub loss_count: nat,
}

impl View for PktInfoSlot {
    type V = SlotCounts;

    closed spec fn view(&self) -> SlotCounts {
        SlotCounts {
            timestamp_sec: self.timestamp_sec as nat,
            ack_count: self.ack_count as nat,
            loss_count: self.loss_count as nat,
        }
    }
}

/// The state of a controller. Points and spans of time are in nanoseconds.
#[verifier::ext_equal]
pub struct ControllerState {
    pub config: BrutalConfig,
    pub base_time: nat,
    pub mtu: u64,
    pub bytes_in_flight: u64,
    pub smoothed_rtt: Option<nat>,
    pub bandwidth_hint_bps: Option<u64>,
    pub ack_rate: Binary64,
    pub slots: Seq<SlotCounts>,
    pub acked_packets_in_batch: nat,
    pub lost_packets_in_batch: nat,
    pub cwnd: u64,
}

/// `n`, or `bound` where `n` is less.
pub open spec fn at_least(n: u64, bound: u64) -> u64 {
    if n < bound {
        bound
    } else {
        n
    }
}

/// The number of packets of up to `mtu` bytes that `bytes` fill; an MTU of 0 counts as 1.
pub open spec fn packets(bytes: u64, mtu: u64) -> nat {
    let size = if mtu == 0 {
        1
    } else {
        mtu as nat
    };
    ((bytes + size - 1) as nat) / size
}

/// The packets acknowledged in the slots from the second `since` on.
pub open spec fn acks_since(slots: Seq<SlotCounts>, since: nat) -> nat
    decreases slots.len(),
{
    if slots.len() == 0 {
        0
    } else {
        acks_since(slots.drop_last(), since) + if slots.last().timestamp_sec >= since {
            slots.last().ack_count
        } else {
            0
        }
    }
}

/// The packets lost in the slots from the second `since` on.
pub open spec fn losses_since(slots: Seq<SlotCounts>, since: nat) -> nat
    decreases slots.len(),
{
    if slots.len() == 0 {
        0
    } else {
        losses_since(slots.drop_last(), since) + if slots.last().timestamp_sec >= since {
            slots.last().loss_count
        } else {
            0
        }
    }
}

/// The second from which slots count when it is second `now`.
pub open spec fn window_start(now: nat) -> nat {
    if now < SLOT_COUNT {
        0
    } else {
        (now - SLOT_COUNT) as nat
    }
}

/// The slots after a batch of packets was counted in second `now`: the slot of that
/// second takes the batch; where it still holds another second, it starts anew.
pub open spec fn slots_with_batch(
    slots: Seq<SlotCounts>,
    now: nat,
    acked: nat,
    lost: nat,
) -> Seq<SlotCounts> {
    let index = now as int % SLOT_COUNT as int;
    let slot = slots[index];
    slots.update(
        index,
        if slot.timestamp_sec == now {
            SlotCounts {
                timestamp_sec: now,
                ack_count: slot.ack_count + acked,
                loss_count: slot.loss_count + lost,
            }
        } else {
            SlotCounts { timestamp_sec: now, ack_count: acked, loss_count: lost }
        },
    )
}

/// The share of acknowledged packets; 1 where there are too few packets to tell.
pub open spec fn measured_ack_rate(acked: nat, lost: nat, min_sample_count: u64) -> Binary64 {
    if acked + lost < min_sample_count {
        Binary64 { bits: ONE_BITS }
    } else {
        binary64::quotient(
            binary64::nearest_to_integer(acked),
            binary64::nearest_to_integer(acked + lost),
        )
    }
}

/// The smoothed RTT after a sample: seven eighths of the old one and one eighth of the
/// sample.
pub open spec fn smoothed(old: Option<nat>, sample: nat) -> nat {
    match old {
        None => sample,
        Some(srtt) => binary64::saturated_integer(
            binary64::sum(
                binary64::product(
                    decimal::decimal_number(875, -3),
                    binary64::nearest_to_integer(srtt),
                ),
                binary64::product(
                    decimal::decimal_number(125, -3),
                    binary64::nearest_to_integer(sample),
                ),
            ),
        ) as nat,
    }
}

/// The window, before its lower bounds: bandwidth times RTT times gain, divided by the
/// ACK rate, in bytes.
pub open spec fn bandwidth_delay_product(
    bps: u64,
    rtt: nat,
    gain: Binary64,
    ack_rate: Binary64,
) -> Binary64 {
    binary64::quotient(
        binary64::quotient(
            binary64::product(
                binary64::product(binary64::nearest_to_integer(bps as nat), time::seconds(rtt)),
                gain,
            ),
            ack_rate,
        ),
        binary64::nearest_to_integer(8),
    )
}

impl ControllerState {
    /// The bandwidth that the controller aims at.
    pub open spec fn target_bps(self) -> u64 {
        match self.bandwidth_hint_bps {
            Some(bps) => bps,
            None => self.config.default_bandwidth_bps,
        }
    }

    /// The RTT that the controller goes by.
    pub open spec fn current_rtt(self) -> nat {
        match self.smoothed_rtt {
            Some(rtt) => rtt,
            None => self.config.initial_rtt@,
        }
    }

    /// The ACK rate that the window is divided by.
    pub open spec fn effective_ack_rate(self) -> Binary64 {
        if self.config.enable_ack_rate_compensation {
            binary64::greater(self.ack_rate, self.config.min_ack_rate)
        } else {
            Binary64 { bits: ONE_BITS }
        }
    }

    /// The window that the state calls for.
    pub open spec fn called_for_cwnd(self) -> u64 {
        let product = bandwidth_delay_product(
            self.target_bps(),
            self.current_rtt(),
            self.config.cwnd_gain,
            self.effective_ack_rate(),
        );
        at_least(
            at_least(binary64::saturated_integer(product), self.config.min_window),
            self.mtu,
        )
    }

    /// The state with the window that it calls for.
    pub open spec fn with_fresh_cwnd(self) -> ControllerState {
        ControllerState { cwnd: self.called_for_cwnd(), ..self }
    }

    /// The second since the start in which `now` lies.
    pub open spec fn second_of(self, now: nat) -> nat {
        time::whole_seconds_between(self.base_time, now)
    }

    /// The slots after the batch is counted.
    pub open spec fn slots_at(self, now: nat) -> Seq<SlotCounts> {
        slots_with_batch(
            self.slots,
            self.second_of(now),
            self.acked_packets_in_batch,
            self.lost_packets_in_batch,
        )
    }

    /// The packets acknowledged lately, once the batch is counted.
    pub open spec fn acks_at(self, now: nat) -> nat {
        acks_since(self.slots_at(now), window_start(self.second_of(now)))
    }

    /// The packets lost lately, once the batch is counted.
    pub open spec fn losses_at(self, now: nat) -> nat {
        losses_since(self.slots_at(now), window_start(self.second_of(now)))
    }

    /// The state after the batch is counted and the ACK rate is measured.
    pub open spec fn with_ack_rate_at(self, now: nat) -> ControllerState {
        ControllerState {
            slots: self.slots_at(now),
            ack_rate: measured_ack_rate(
                self.acks_at(now),
                self.losses_at(now),
                self.config.min_sample_count,
            ),
            ..self
        }
    }

    /// The state after `bytes` were sent.
    pub open spec fn after_sent(self, bytes: u64) -> ControllerState {
        ControllerState {
            bytes_in_flight: if self.bytes_in_flight + bytes > u64::MAX {
                u64::MAX
            } else {
                (self.bytes_in_flight + bytes) as u64
            },
            ..self
        }
    }

    /// The state after `bytes` left the network.
    pub open spec fn after_settled(self, bytes: u64) -> ControllerState {
        ControllerState {
            bytes_in_flight: if self.bytes_in_flight < bytes {
                0
            } else {
                (self.bytes_in_flight - bytes) as u64
            },
            ..self
        }
    }

    /// The state after `bytes` were acknowledged with an RTT sample.
    pub open spec fn after_ack(self, bytes: u64, rtt: nat) -> ControllerState {
        ControllerState {
            acked_packets_in_batch: self.acked_packets_in_batch + packets(bytes, self.mtu),
            smoothed_rtt: Some(smoothed(self.smoothed_rtt, rtt)),
            ..self.after_settled(bytes)
        }
    }

    /// The state after `bytes` were lost.
    pub open spec fn after_loss(self, bytes: u64) -> ControllerState {
        ControllerState {
            lost_packets_in_batch: self.lost_packets_in_batch + packets(bytes, self.mtu),
            ..self.after_settled(bytes)
        }
    }

    /// The state after the acknowledgements of one packet were all handed over.
    pub open spec fn after_end_acks(self, now: nat) -> ControllerState {
        ControllerState {
            acked_packets_in_batch: 0,
            lost_packets_in_batch: 0,
            ..self.with_ack_rate_at(now).with_fresh_cwnd()
        }
    }

    /// The state after the MTU changed.
    pub open spec fn after_mtu_update(self, mtu: u16) -> ControllerState {
        (ControllerState { mtu: mtu as u64, ..self }).with_fresh_cwnd()
    }
}

/// The RTT estimator of a QUIC connection.
#[verifier::external_type_specification]
#[verifier::external_body]
pub struct ExRttEstimator(RttEstimator);

/// The best RTT estimate that an estimator holds, in nanoseconds.
pub uninterp spec fn best_estimate(estimator: RttEstimator) -> nat;

/// Calls `RttEstimator::get`, which returns the best RTT estimate that the estimator holds:
/// the smoothed RTT, or the latest one while there is none. It depends on the estimator
/// alone. Which of its private fields the estimate comes from is left unsaid.
#[verifier::external_body]
fn get_estimate(estimator: &RttEstimator) -> (rtt: Duration)
    ensures
        rtt@ == best_estimate(*estimator),
{
    let rtt = estimator.get();
    Duration::from_parts(rtt.as_secs(), rtt.subsec_nanos())
}

/// A bandwidth-hint-based congestion controller using a BDP-style window model.
pub struct BrutalController {
    config: Arc<BrutalConfig>,
    base_time: Instant,
    mtu: u64,
    bytes_in_flight: u64,
    smoothed_rtt: Option<Duration>,
    bandwidth_hint_bps: Option<u64>,
    ack_rate: Binary64,
    slots: [PktInfoSlot; SLOT_COUNT],
    acked_packets_in_batch: u64,
    lost_packets_in_batch: u64,
    cwnd: u64,
}

impl View for BrutalController {
    type V = ControllerState;

    closed spec fn view(&self) -> ControllerState {
        ControllerState {
            config: *self.config,
            base_time: self.base_time@,
            mtu: self.mtu,
            bytes_in_flight: self.bytes_in_flight,
            smoothed_rtt: match self.smoothed_rtt {
                Some(rtt) => Some(rtt@),
                None => None,
            },
            bandwidth_hint_bps: self.bandwidth_hint_bps,
            ack_rate: self.ack_rate,
            slots: self.slots@.map_values(|slot: PktInfoSlot| slot@),
            acked_packets_in_batch: self.acked_packets_in_batch as nat,
            lost_packets_in_batch: self.lost_packets_in_batch as nat,
            cwnd: self.cwnd,
        }
    }
}

/// Whether a state has its five slots, and its counts and times fit in the integers that
/// hold them.
pub open spec fn state_fits(state: ControllerState) -> bool {
    &&& state.slots.len() == SLOT_COUNT
    &&& forall|i: int|
        0 <= i < state.slots.len() ==> (#[trigger] state.slots[i]).timestamp_sec <= u64::MAX
            && state.slots[i].ack_count <= u64::MAX && state.slots[i].loss_count <= u64::MAX
    &&& state.acked_packets_in_batch <= u64::MAX
    &&& state.lost_packets_in_batch <= u64::MAX
    &&& state.base_time / (time::NANOS_PER_SEC as nat) <= u64::MAX
    &&& state.current_rtt() / (time::NANOS_PER_SEC as nat) <= u64::MAX
}

/// The state of every controller has its five slots, and its counts and times fit.
pub proof fn law_state_fits(controller: BrutalController)
    ensures
        state_fits(controller@),
{
    time::lemma_instant_fits(controller.base_time);
    time::lemma_span_fits(controller.config.initial_rtt);
    if let Some(rtt) = controller.smoothed_rtt {
        time::lemma_span_fits(rtt);
    }
    assert(controller.slots@.len() == SLOT_COUNT);
    assert forall|i: int| 0 <= i < controller@.slots.len() implies (
    #[trigger] controller@.slots[i]).timestamp_sec <= u64::MAX && controller@.slots[i].ack_count
        <= u64::MAX && controller@.slots[i].loss_count <= u64::MAX by {
        assert(controller@.slots[i] == controller.slots@[i]@);
    }
}

impl Clone for BrutalController {
    fn clone(&self) -> (copy: Self)
        ensures
            copy@ == self@,
    {
        BrutalController {
            config: self.config.clone(),
            base_time: self.base_time,
            mtu: self.mtu,
            bytes_in_flight: self.bytes_in_flight,
            smoothed_rtt: self.smoothed_rtt,
            bandwidth_hint_bps: self.bandwidth_hint_bps,
            ack_rate: self.ack_rate,
            slots: self.slots,
            acked_packets_in_batch: self.acked_packets_in_batch,
            lost_packets_in_batch: self.lost_packets_in_batch,
            cwnd: self.cwnd,
        }
    }
}

/// The state of a controller that starts at `now`.
pub open spec fn initial_state(config: BrutalConfig, now: nat, mtu: u16) -> ControllerState {
    (ControllerState {
        config,
        base_time: now,
        mtu: mtu as u64,
        bytes_in_flight: 0,
        smoothed_rtt: None,
        bandwidth_hint_bps: None,
        ack_rate: Binary64 { bits: ONE_BITS },
        slots: Seq::new(
            SLOT_COUNT as nat,
            |i: int| SlotCounts { timestamp_sec: 0, ack_count: 0, loss_count: 0 },
        ),
        acked_packets_in_batch: 0,
        lost_packets_in_batch: 0,
        cwnd: 0,
    }).with_fresh_cwnd()
}

impl BrutalController {
    /// A controller that starts at `now`.
    pub fn new(config: Arc<BrutalConfig>, now: Instant, current_mtu: u16) -> (controller: Self)
        ensures
            controller@ == initial_state(*config, now@, current_mtu),
    {
        let empty = PktInfoSlot { timestamp_sec: 0, ack_count: 0, loss_count: 0 };
        let mut me = BrutalController {
            config,
            base_time: now,
            mtu: current_mtu as u64,
            bytes_in_flight: 0,
            smoothed_rtt: None,
            bandwidth_hint_bps: None,
            ack_rate: Binary64::from_bits(ONE_BITS),
            slots: [empty, empty, empty, empty, empty],
            acked_packets_in_batch: 0,
            lost_packets_in_batch: 0,
            cwnd: 0,
        };
        me.cwnd = me.compute_cwnd();
        assert(me@.slots == initial_state(*config, now@, current_mtu).slots);
        me
    }

    /// The bandwidth that the controller aims at.
    fn target_bps(&self) -> (bps: u64)
        ensures
            bps == self@.target_bps(),
    {
        match self.bandwidth_hint_bps {
            Some(bps) => bps,
            None => self.config.default_bandwidth_bps,
        }
    }

    /// The RTT that the controller goes by.
    fn current_rtt(&self) -> (rtt: Duration)
        ensures
            rtt@ == self@.current_rtt(),
    {
        match self.smoothed_rtt {
            Some(rtt) => rtt,
            None => self.config.initial_rtt,
        }
    }

    /// The ACK rate that the window is divided by.
    fn effective_ack_rate(&self) -> (rate: Binary64)
        ensures
            rate == self@.effective_ack_rate(),
    {
        if self.config.enable_ack_rate_compensation {
            self.ack_rate.max(self.config.min_ack_rate)
        } else {
            Binary64::from_bits(ONE_BITS)
        }
    }

    /// The window that the state calls for.
    fn compute_cwnd(&self) -> (cwnd: u64)
        ensures
            cwnd == self@.called_for_cwnd(),
    {
        let bps = Binary64::from_integer(self.target_bps() as u128);
        let rtt = self.current_rtt().as_seconds();
        let ack_rate = self.effective_ack_rate();
        let bits = bps.multiply(rtt).multiply(self.config.cwnd_gain).divide(ack_rate);
        let product: u64 = bits.divide(Binary64::from_integer(8)).to_u64();
        let bounded: u64 = if product < self.config.min_window {
            self.config.min_window
        } else {
            product
        };
        if bounded < self.mtu {
            self.mtu
        } else {
            bounded
        }
    }

    /// The number of packets that `bytes` fill.
    fn estimate_packets(&self, bytes: u64) -> (count: u64)
        ensures
            count == packets(bytes, self@.mtu),
    {
        let size: u64 = if self.mtu == 0 {
            1
        } else {
            self.mtu
        };
        let whole: u64 = bytes / size;
        let rest: u64 = bytes % size;
        proof {
            rounding::lemma_split(bytes as nat, size as nat);
            assert((whole + 1) * size == whole * size + size) by (nonlinear_arith);
            if rest > 0 {
                rounding::lemma_quotient(
                    (bytes + size - 1) as nat,
                    size as nat,
                    (whole + 1) as nat,
                    (rest - 1) as nat,
                );
                assert(whole < u64::MAX) by (nonlinear_arith)
                    requires
                        bytes == whole * size + rest,
                        rest > 0,
                        size >= 1,
                        bytes <= u64::MAX,
                ;
            } else {
                rounding::lemma_quotient(
                    (bytes + size - 1) as nat,
                    size as nat,
                    whole as nat,
                    (size - 1) as nat,
                );
            }
        }
        if rest > 0 {
            whole + 1
        } else {
            whole
        }
    }

    /// The second since the start in which `now` lies.
    fn now_sec(&self, now: Instant) -> (sec: u64)
        ensures
            sec == self@.second_of(now@),
    {
        now.saturating_duration_since(self.base_time).as_secs()
    }

    /// Counts the batch and measures the ACK rate.
    fn update_ack_rate(&mut self, now: Instant)
        requires
            old(self)@.acks_at(now@) + old(self)@.losses_at(now@) <= u64::MAX,
        ensures
            final(self)@ == old(self)@.with_ack_rate_at(now@),
    {
        let ghost before = self@;
        let ghost target = before.slots_at(now@);
        let ts: u64 = self.now_sec(now);
        let index: usize = (ts % (SLOT_COUNT as u64)) as usize;
        let since: u64 = if ts < SLOT_COUNT as u64 {
            0
        } else {
            ts - SLOT_COUNT as u64
        };
        proof {
            lemma_counted(target, since as nat, index as int);
        }
        let slot = self.slots[index];
        assert(before.slots[index as int] == slot@);
        let counted = if slot.timestamp_sec == ts {
            PktInfoSlot {
                timestamp_sec: ts,
                ack_count: slot.ack_count + self.acked_packets_in_batch,
                loss_count: slot.loss_count + self.lost_packets_in_batch,
            }
        } else {
            PktInfoSlot {
                timestamp_sec: ts,
                ack_count: self.acked_packets_in_batch,
                loss_count: self.lost_packets_in_batch,
            }
        };
        self.slots[index] = counted;
        assert(self@.slots == target);
        let mut ack: u64 = 0;
        let mut loss: u64 = 0;
        let mut i: usize = 0;
        while i < SLOT_COUNT
            invariant
                i <= SLOT_COUNT,
                self@.slots == target,
                target.len() == SLOT_COUNT,
                ack == acks_since(target.take(i as int), since as nat),
                loss == losses_since(target.take(i as int), since as nat),
                acks_since(target, since as nat) + losses_since(target, since as nat) <= u64::MAX,
            decreases SLOT_COUNT - i,
        {
            let next = self.slots[i];
            proof {
                assert(target[i as int] == next@);
                lemma_counts_grow(target, since as nat, (i + 1) as nat);
                assert(target.take(i + 1).drop_last() == target.take(i as int));
            }
            if next.timestamp_sec >= since {
                ack = ack + next.ack_count;
                loss = loss + next.loss_count;
            }
            i += 1;
        }
        assert(target.take(SLOT_COUNT as int) == target);
        let total: u64 = ack + loss;
        if total < self.config.min_sample_count {
            self.ack_rate = Binary64::from_bits(ONE_BITS);
        } else {
            self.ack_rate =
            Binary64::from_integer(ack as u128).divide(Binary64::from_integer(total as u128));
        }
    }

    /// Sets the window that the state calls for.
    fn refresh_cwnd(&mut self)
        ensures
            final(self)@ == old(self)@.with_fresh_cwnd(),
    {
        self.cwnd = self.compute_cwnd();
    }

    /// Takes in an RTT sample.
    fn update_smoothed_rtt(&mut self, rtt: Duration)
        ensures
            final(self)@ == (ControllerState {
                smoothed_rtt: Some(smoothed(old(self)@.smoothed_rtt, rtt@)),
                ..old(self)@
            }),
    {
        match self.smoothed_rtt {
            None => {
                self.smoothed_rtt = Some(rtt);
            },
            Some(srtt) => {
                // SRTT = (7/8 * SRTT) + (1/8 * Sample)
                proof {
                    lemma_shares();
                }
                let srtt_ns = Binary64::from_integer(srtt.as_nanos());
                let sample_ns = Binary64::from_integer(rtt.as_nanos());
                let kept = Binary64::from_bits(KEPT_SHARE_BITS).multiply(srtt_ns);
                let added = Binary64::from_bits(SAMPLE_SHARE_BITS).multiply(sample_ns);
                self.smoothed_rtt = Some(Duration::from_nanos(kept.add(added).to_u64()));
            },
        }
    }

    /// The window that the state calls for.
    pub fn initial_window(&self) -> (cwnd: u64)
        ensures
            cwnd == self@.called_for_cwnd(),
    {
        self.compute_cwnd()
    }

    /// The window.
    pub fn window(&self) -> (cwnd: u64)
        ensures
            cwnd == self@.cwnd,
    {
        self.cwnd
    }

    /// The bytes that were sent and neither acknowledged nor lost.
    pub fn bytes_in_flight(&self) -> (bytes: u64)
        ensures
            bytes == self@.bytes_in_flight,
    {
        self.bytes_in_flight
    }

    /// Packets were sent.
    pub fn on_sent(&mut self, _now: Instant, bytes: u64, _last_packet_number: u64)
        ensures
            final(self)@ == old(self)@.after_sent(bytes),
    {
        self.bytes_in_flight = self.bytes_in_flight.saturating_add(bytes);
    }

    /// Whether the batch has room for `bytes` more acknowledged bytes.
    pub fn can_ack(&self, bytes: u64) -> (result: bool)
        ensures
            result == (self@.acked_packets_in_batch + packets(bytes, self@.mtu) <= u64::MAX),
    {
        self.estimate_packets(bytes) <= u64::MAX - self.acked_packets_in_batch
    }

    /// Packets were acknowledged; `rtt` estimates the RTT.
    pub fn on_ack(
        &mut self,
        _now: Instant,
        _sent: Instant,
        bytes: u64,
        _app_limited: bool,
        rtt: &RttEstimator,
    )
        requires
            old(self)@.acked_packets_in_batch + packets(bytes, old(self)@.mtu) <= u64::MAX,
        ensures
            final(self)@ == old(self)@.after_ack(bytes, best_estimate(*rtt)),
    {
        self.on_ack_with_rtt(bytes, get_estimate(rtt));
    }

    /// Packets were acknowledged; `rtt` is the current estimate of the RTT.
    pub fn on_ack_with_rtt(&mut self, bytes: u64, rtt: Duration)
        requires
            old(self)@.acked_packets_in_batch + packets(bytes, old(self)@.mtu) <= u64::MAX,
        ensures
            final(self)@ == old(self)@.after_ack(bytes, rtt@),
    {
        self.bytes_in_flight = self.bytes_in_flight.saturating_sub(bytes);
        self.acked_packets_in_batch = self.acked_packets_in_batch + self.estimate_packets(bytes);
        self.update_smoothed_rtt(rtt);
    }

    /// Whether the recent packets can be counted at `now`.
    pub fn can_end_acks(&self, now: Instant) -> (result: bool)
        ensures
            result == (self@.acks_at(now@) + self@.losses_at(now@) <= u64::MAX),
    {
        let ghost target = self@.slots_at(now@);
        let ts: u64 = self.now_sec(now);
        let index: usize = (ts % (SLOT_COUNT as u64)) as usize;
        let since: u64 = if ts < SLOT_COUNT as u64 {
            0
        } else {
            ts - SLOT_COUNT as u64
        };
        let mut total: u128 = 0;
        let mut i: usize = 0;
        while i < SLOT_COUNT
            invariant
                i <= SLOT_COUNT,
                target == self@.slots_at(now@),
                ts == self@.second_of(now@),
                index == ts % (SLOT_COUNT as u64),
                since == window_start(ts as nat),
                total <= 4 * i * u64::MAX,
                total == acks_since(target.take(i as int), since as nat) + losses_since(
                    target.take(i as int),
                    since as nat,
                ),
            decreases SLOT_COUNT - i,
        {
            let slot = self.slots[i];
            assert(self@.slots[i as int] == slot@);
            assert(target.take(i + 1).drop_last() == target.take(i as int));
            assert(target.take(i + 1).last() == target[i as int]);
            let mut counted: u128 = 0;
            if i != index {
                if slot.timestamp_sec >= since {
                    counted = slot.ack_count as u128 + slot.loss_count as u128;
                }
            } else {
                counted = self.acked_packets_in_batch as u128 + self.lost_packets_in_batch as u128;
                if slot.timestamp_sec == ts {
                    counted = counted + slot.ack_count as u128 + slot.loss_count as u128;
                }
            }
            total = total + counted;
            i += 1;
        }
        assert(target.take(SLOT_COUNT as int) == target);
        total <= u64::MAX as u128
    }

    /// The acknowledgements of one packet were all handed over.
    pub fn on_end_acks(
        &mut self,
        now: Instant,
        _in_flight: u64,
        _app_limited: bool,
        _largest_packet_num_acked: Option<u64>,
    )
        requires
            old(self)@.acks_at(now@) + old(self)@.losses_at(now@) <= u64::MAX,
        ensures
            final(self)@ == old(self)@.after_end_acks(now@),
    {
        self.update_ack_rate(now);
        self.refresh_cwnd();
        self.acked_packets_in_batch = 0;
        self.lost_packets_in_batch = 0;
    }

    /// Whether the batch has room for `bytes` more lost bytes.
    pub fn can_lose(&self, bytes: u64) -> (result: bool)
        ensures
            result == (self@.lost_packets_in_batch + packets(bytes, self@.mtu) <= u64::MAX),
    {
        self.estimate_packets(bytes) <= u64::MAX - self.lost_packets_in_batch
    }

    /// Packets were lost. The window stays as it is.
    pub fn on_congestion_event(
        &mut self,
        _now: Instant,
        _sent: Instant,
        _is_persistent_congestion: bool,
        lost_bytes: u64,
    )
        requires
            old(self)@.lost_packets_in_batch + packets(lost_bytes, old(self)@.mtu) <= u64::MAX,
        ensures
            final(self)@ == old(self)@.after_loss(lost_bytes),
    {
        self.bytes_in_flight = self.bytes_in_flight.saturating_sub(lost_bytes);
        if lost_bytes > 0 {
            self.lost_packets_in_batch =
            self.lost_packets_in_batch + self.estimate_packets(lost_bytes);
        } else {
            proof {
                let size = if self@.mtu == 0 {
                    1
                } else {
                    self@.mtu as nat
                };
                rounding::lemma_quotient((size - 1) as nat, size, 0, (size - 1) as nat);
            }
        }
    }

    /// The MTU changed.
    pub fn on_mtu_update(&mut self, new_mtu: u16)
        ensures
            final(self)@ == old(self)@.after_mtu_update(new_mtu),
    {
        self.mtu = new_mtu as u64;
        self.refresh_cwnd();
    }
}

pub(crate) proof fn lemma_shares()
    ensures
        (Binary64 { bits: KEPT_SHARE_BITS }) == decimal::decimal_number(875, -3),
        (Binary64 { bits: SAMPLE_SHARE_BITS }) == decimal::decimal_number(125, -3),
{
    vstd::arithmetic::power2::lemma2_to64_rest();
    reveal_with_fuel(decimal::ten_to, 4);
    rounding::lemma_quotient(875 * 0x20_0000_0000_0000, 1000, 0x1c_0000_0000_0000, 0);
    decimal::lemma_decimal_constant(875, 3, 53, 1021, 0x1c_0000_0000_0000);
    rounding::lemma_quotient(125 * 0x80_0000_0000_0000, 1000, 0x10_0000_0000_0000, 0);
    decimal::lemma_decimal_constant(125, 3, 55, 1019, 0x10_0000_0000_0000);
}

/// A slot that counts is part of the sums.
proof fn lemma_counted(slots: Seq<SlotCounts>, since: nat, index: int)
    requires
        0 <= index < slots.len(),
        slots[index].timestamp_sec >= since,
    ensures
        slots[index].ack_count <= acks_since(slots, since),
        slots[index].loss_count <= losses_since(slots, since),
    decreases slots.len(),
{
    if index < slots.len() - 1 {
        lemma_counted(slots.drop_last(), since, index);
    }
}

/// The sums over the first slots are no more than those over all.
proof fn lemma_counts_grow(slots: Seq<SlotCounts>, since: nat, n: nat)
    requires
        n <= slots.len(),
    ensures
        acks_since(slots.take(n as int), since) <= acks_since(slots, since),
        losses_since(slots.take(n as int), since) <= losses_since(slots, since),
    decreases slots.len(),
{
    if n == slots.len() {
        assert(slots.take(n as int) == slots);
    } else {
        lemma_counts_grow(slots.drop_last(), since, n);
        assert(slots.drop_last().take(n as int) == slots.take(n as int));
    }
}

/// The factor that the last character of a bandwidth stands for: a power of 1024 for a
/// suffix, 1 for a digit.
pub open spec fn bandwidth_factor(last: char) -> Option<nat> {
    if last == 'K' || last == 'k' {
        Some(1024)
    } else if last == 'M' || last == 'm' {
        Some(1024 * 1024)
    } else if last == 'G' || last == 'g' {
        Some(1024 * 1024 * 1024)
    } else if text::is_digit(last) {
        Some(1)
    } else {
        None
    }
}

/// The number in front of the suffix of a bandwidth.
pub open spec fn bandwidth_digits(s: Seq<char>) -> Seq<char> {
    if text::is_digit(s.last()) {
        s
    } else {
        s.drop_last()
    }
}

/// Why a text is no number.
pub open spec fn number_error(s: Seq<char>) -> Seq<char> {
    if s.len() == 0 {
        "cannot parse float from empty string"@
    } else {
        "invalid float literal"@
    }
}

/// Whether a number is 0 or below; false of NaN.
pub open spec fn is_not_positive(x: Binary64) -> bool {
    !x.is_nan() && x.signed_code() <= 0
}

/// The bits per second that a bandwidth text stands for, or the message that says why it
/// stands for none.
pub open spec fn bandwidth(input: Seq<char>) -> Result<u64, Seq<char>> {
    let s = text::trimmed(input);
    if s.len() == 0 {
        Err("empty bandwidth string"@)
    } else {
        match bandwidth_factor(s.last()) {
            None => Err("invalid bandwidth suffix in: "@ + input),
            Some(factor) => match decimal::parsed_number(bandwidth_digits(s)) {
                None => Err(
                    "invalid bandwidth number \""@ + bandwidth_digits(s) + "\": "@
                        + number_error(bandwidth_digits(s)),
                ),
                Some(x) => if is_not_positive(x) {
                    Err("bandwidth must be positive, got "@ + decimal::number_text(x))
                } else {
                    Ok(
                        binary64::saturated_integer(
                            binary64::product(x, binary64::nearest_to_integer(factor)),
                        ),
                    )
                },
            },
        }
    }
}

/// Parse a human-readable bandwidth string into bits per second.
///
/// Supported suffixes:
/// - `K` / `k` for kbps (times 1024)
/// - `M` / `m` for Mbps (times 1024^2)
/// - `G` / `g` for Gbps (times 1024^3)
///
/// Examples: `"100m"`, `"1.5g"`, `"30k"`, `"1000000"` (raw bps)
pub fn parse_bandwidth_bps(input: &str) -> (result: Result<u64, String>)
    ensures
        match result {
            Ok(bps) => bandwidth(input@) == Ok::<u64, Seq<char>>(bps),
            Err(message) => bandwidth(input@) == Err::<u64, Seq<char>>(message@),
        },
{
    let s = text::trim(input);
    let count: usize = s.unicode_len();
    if count == 0 {
        return Err(String::from_str("empty bandwidth string"));
    }
    let last: char = s.get_char(count - 1);
    let (length, factor): (usize, u32) = match last {
        'K' | 'k' => (count - 1, 1024),
        'M' | 'm' => (count - 1, 1024 * 1024),
        'G' | 'g' => (count - 1, 1024 * 1024 * 1024),
        '0'..='9' => (count, 1),
        _ => {
            let mut message = String::from_str("invalid bandwidth suffix in: ");
            message.append(input);
            return Err(message);
        },
    };
    let digits = s.substring_char(0, length);
    assert(digits@ == bandwidth_digits(s@));
    let x = match parse_number(digits) {
        Some(x) => x,
        None => {
            let mut message = String::from_str("invalid bandwidth number \"");
            message.append(digits);
            message.append("\": ");
            if length == 0 {
                message.append("cannot parse float from empty string");
            } else {
                message.append("invalid float literal");
            }
            return Err(message);
        },
    };
    if x.is_at_most(Binary64::from_bits(0)) {
        let mut message = String::from_str("bandwidth must be positive, got ");
        message.append(format_number(x).as_str());
        return Err(message);
    }
    Ok(x.multiply(Binary64::from_integer(factor as u128)).to_u64())
}

} // verus!
