//! What the Brutal controller counts, told from the rounds that went by.
use vstd::prelude::*;

use crate::binary64;
use crate::binary64::{Binary64, ONE_BITS};
use crate::congestion_control;
use crate::congestion_control::{BrutalConfig, ControllerState, SlotCounts, SLOT_COUNT};
use crate::controller_laws;
use crate::rounding;

verus! {

/// A round of acknowledgements: the second since the start in which it ended, and the
/// packets that were acknowledged and lost in it.
pub struct Round {
    pub second: nat,
    pub acked: nat,
    pub lost: nat,
}

/// Whether no round ended in an earlier second than the one before it.
pub open spec fn is_ordered(log: Seq<Round>) -> bool {
    forall|i: int, j: int|
        0 <= i <= j < log.len() ==> (#[trigger] log[i]).second <= (#[trigger] log[j]).second
}

/// The packets acknowledged in the rounds that ended in the seconds from `first` to `last`.
pub open spec fn acked_in(log: Seq<Round>, first: nat, last: nat) -> nat
    decreases log.len(),
{
    if log.len() == 0 {
        0
    } else {
        acked_in(log.drop_last(), first, last) + if first <= log.last().second <= last {
            log.last().acked
        } else {
            0
        }
    }
}

/// The packets lost in the rounds that ended in the seconds from `first` to `last`.
pub open spec fn lost_in(log: Seq<Round>, first: nat, last: nat) -> nat
    decreases log.len(),
{
    if log.len() == 0 {
        0
    } else {
        lost_in(log.drop_last(), first, last) + if first <= log.last().second <= last {
            log.last().lost
        } else {
            0
        }
    }
}

/// The slots of a controller that went through the rounds.
pub open spec fn slots_after(log: Seq<Round>) -> Seq<SlotCounts>
    decreases log.len(),
{
    if log.len() == 0 {
        Seq::new(
            SLOT_COUNT as nat,
            |i: int| SlotCounts { timestamp_sec: 0, ack_count: 0, loss_count: 0 },
        )
    } else {
        congestion_control::slots_with_batch(
            slots_after(log.drop_last()),
            log.last().second,
            log.last().acked,
            log.last().lost,
        )
    }
}

/// The round that ends at `now`.
pub open spec fn round_at(state: ControllerState, now: nat) -> Round {
    Round {
        second: state.second_of(now),
        acked: state.acked_packets_in_batch,
        lost: state.lost_packets_in_batch,
    }
}

/// The slots of a controller are those after the rounds that it went through: it starts
/// with none, the end of a round adds that round, and nothing else touches them.
pub proof fn law_slots_keep_the_rounds(
    state: ControllerState,
    log: Seq<Round>,
    config: BrutalConfig,
    mtu: u16,
    now: nat,
    bytes: u64,
    rtt: nat,
)
    ensures
        congestion_control::initial_state(config, now, mtu).slots == slots_after(Seq::empty()),
        state.slots == slots_after(log) ==> {
            &&& state.after_end_acks(now).slots == slots_after(log.push(round_at(state, now)))
            &&& state.after_sent(bytes).slots == slots_after(log)
            &&& state.after_ack(bytes, rtt).slots == slots_after(log)
            &&& state.after_loss(bytes).slots == slots_after(log)
            &&& state.after_mtu_update(mtu).slots == slots_after(log)
        },
{
    assert(log.push(round_at(state, now)).drop_last() == log);
}

/// The second in which the last round ended.
spec fn last_second(log: Seq<Round>) -> nat {
    if log.len() == 0 {
        0
    } else {
        log.last().second
    }
}

/// A batch adds its packets to those that count from a recent second on.
proof fn lemma_batch_adds(
    slots: Seq<SlotCounts>,
    now: nat,
    acked: nat,
    lost: nat,
    since: nat,
    n: nat,
)
    requires
        controller_laws::are_slots_placed(slots, now),
        controller_laws::recent_start(now) <= since <= now,
        n <= SLOT_COUNT,
    ensures
        ({
            let after = congestion_control::slots_with_batch(slots, now, acked, lost);
            let index = now as int % SLOT_COUNT as int;
            &&& congestion_control::acks_since(after.take(n as int), since)
                == congestion_control::acks_since(slots.take(n as int), since) + if index < n {
                acked
            } else {
                0
            }
            &&& congestion_control::losses_since(after.take(n as int), since)
                == congestion_control::losses_since(slots.take(n as int), since) + if index < n {
                lost
            } else {
                0
            }
        }),
    decreases n,
{
    let after = congestion_control::slots_with_batch(slots, now, acked, lost);
    if n > 0 {
        lemma_batch_adds(slots, now, acked, lost, since, (n - 1) as nat);
        assert(after.take(n as int).drop_last() == after.take(n - 1));
        assert(slots.take(n as int).drop_last() == slots.take(n - 1));
        assert(after.take(n as int).last() == after[n - 1]);
        assert(slots.take(n as int).last() == slots[n - 1]);
        let slot = slots[n - 1];
        let index = now as int % SLOT_COUNT as int;
        assert(slot.timestamp_sec <= now);
        if index == n - 1 {
            // The slot of this second, or one that is at least five seconds old.
            assert(slot.timestamp_sec != now && slot.timestamp_sec as int % SLOT_COUNT as int
                == index ==> slot.timestamp_sec + SLOT_COUNT <= now);
        }
    }
}

/// From a second that is still to come nothing counts.
proof fn lemma_none_since(slots: Seq<SlotCounts>, now: nat, since: nat, n: nat)
    requires
        controller_laws::are_slots_placed(slots, now),
        since > now,
        n <= SLOT_COUNT,
    ensures
        congestion_control::acks_since(slots.take(n as int), since) == 0,
        congestion_control::losses_since(slots.take(n as int), since) == 0,
    decreases n,
{
    if n > 0 {
        lemma_none_since(slots, now, since, (n - 1) as nat);
        assert(slots.take(n as int).drop_last() == slots.take(n - 1));
        assert(slots.take(n as int).last() == slots[n - 1]);
        assert(slots[n - 1].timestamp_sec <= now);
    }
}

proof fn lemma_empty_slots(since: nat, n: nat)
    requires
        n <= SLOT_COUNT,
    ensures
        congestion_control::acks_since(slots_after(Seq::empty()).take(n as int), since) == 0,
        congestion_control::losses_since(slots_after(Seq::empty()).take(n as int), since) == 0,
    decreases n,
{
    let slots = slots_after(Seq::empty());
    if n > 0 {
        lemma_empty_slots(since, (n - 1) as nat);
        assert(slots.take(n as int).drop_last() == slots.take(n - 1));
        assert(slots.take(n as int).last() == slots[n - 1]);
    }
}

/// Rounds that ended earlier do not count.
proof fn lemma_no_round_since(log: Seq<Round>, first: nat, last: nat)
    requires
        forall|i: int| 0 <= i < log.len() ==> (#[trigger] log[i]).second < first,
    ensures
        acked_in(log, first, last) == 0,
        lost_in(log, first, last) == 0,
    decreases log.len(),
{
    if log.len() > 0 {
        let rest = log.drop_last();
        assert forall|i: int| 0 <= i < rest.len() implies (#[trigger] rest[i]).second < first by {
            assert(rest[i] == log[i]);
        }
        lemma_no_round_since(rest, first, last);
        assert(log[log.len() - 1].second < first);
    }
}

/// What the slots hold from a recent second on is what the rounds counted.
proof fn lemma_slots_tell(log: Seq<Round>, since: nat, now: nat)
    requires
        is_ordered(log),
        last_second(log) <= now,
        controller_laws::recent_start(last_second(log)) <= since,
    ensures
        controller_laws::are_slots_placed(slots_after(log), last_second(log)),
        congestion_control::acks_since(slots_after(log), since) == acked_in(log, since, now),
        congestion_control::losses_since(slots_after(log), since) == lost_in(log, since, now),
    decreases log.len(),
{
    let slots = slots_after(log);
    let all = SLOT_COUNT as nat;
    if log.len() == 0 {
        assert(log == Seq::<Round>::empty());
        lemma_empty_slots(since, all);
        assert(slots.take(all as int) == slots);
    } else {
        let rest = log.drop_last();
        let before = slots_after(rest);
        let round = log.last();
        assert forall|i: int, j: int| 0 <= i <= j < rest.len() implies (
        #[trigger] rest[i]).second <= (#[trigger] rest[j]).second by {
            assert(rest[i] == log[i] && rest[j] == log[j]);
        }
        if rest.len() > 0 {
            assert(rest.last() == log[log.len() - 2]);
            assert(log[log.len() - 2].second <= log[log.len() - 1].second);
        }
        assert(last_second(rest) <= round.second);
        lemma_slots_tell(rest, since, now);
        assert(controller_laws::are_slots_placed(before, round.second));
        assert(before.take(all as int) == before);
        assert(slots.take(all as int) == slots);
        if since <= round.second {
            lemma_batch_adds(before, round.second, round.acked, round.lost, since, all);
        } else {
            assert forall|i: int| 0 <= i < log.len() implies (#[trigger] log[i]).second
                < since by {
                assert(log[i].second <= log[log.len() - 1].second);
            }
            lemma_no_round_since(log, since, now);
            lemma_none_since(slots, round.second, since, all);
        }
    }
}

/// At the end of a round exactly the packets of the rounds of the last five seconds count,
/// those of this round among them, each of them once, and the ACK rate is measured by them.
pub proof fn law_last_five_seconds_count(state: ControllerState, log: Seq<Round>, now: nat)
    requires
        state.slots == slots_after(log),
        is_ordered(log.push(round_at(state, now))),
    ensures
        ({
            let rounds = log.push(round_at(state, now));
            let second = state.second_of(now);
            let first = controller_laws::recent_start(second);
            &&& state.acks_at(now) == acked_in(rounds, first, second)
            &&& state.losses_at(now) == lost_in(rounds, first, second)
            &&& state.after_end_acks(now).ack_rate == congestion_control::measured_ack_rate(
                acked_in(rounds, first, second),
                lost_in(rounds, first, second),
                state.config.min_sample_count,
            )
        }),
{
    let round = round_at(state, now);
    let rounds = log.push(round);
    let second = state.second_of(now);
    let first = controller_laws::recent_start(second);
    assert(rounds.drop_last() == log);
    assert(rounds.last() == round);
    assert forall|i: int, j: int| 0 <= i <= j < log.len() implies (#[trigger] log[i]).second <= (
    #[trigger] log[j]).second by {
        assert(rounds[i] == log[i] && rounds[j] == log[j]);
    }
    if log.len() > 0 {
        assert(rounds[log.len() - 1] == log.last());
        assert(rounds[log.len() - 1].second <= rounds[log.len() as int].second);
    }
    lemma_slots_tell(log, first, second);
    controller_laws::law_recent_packets_count(state, now);
}

/// Where no packet of the last five seconds was lost, the ACK rate is 1 at the end of the
/// round.
pub proof fn law_rate_is_one_without_losses(state: ControllerState, log: Seq<Round>, now: nat)
    requires
        state.slots == slots_after(log),
        is_ordered(log.push(round_at(state, now))),
        state.acks_at(now) + state.losses_at(now) <= u64::MAX,
        state.acks_at(now) > 0 || state.config.min_sample_count > 0,
        lost_in(
            log.push(round_at(state, now)),
            controller_laws::recent_start(state.second_of(now)),
            state.second_of(now),
        ) == 0,
    ensures
        state.after_end_acks(now).ack_rate == (Binary64 { bits: ONE_BITS }),
{
    law_last_five_seconds_count(state, log, now);
    let acked = state.acks_at(now);
    if acked > 0 {
        let one = binary64::one_units();
        let x = binary64::nearest_to_integer(acked);
        controller_laws::lemma_one();
        controller_laws::lemma_integers_ordered(1, acked);
        assert(1 * one == one);
        binary64::lemma_integer_is_finite(acked);
        rounding::lemma_units_lower_bound(x.code(), 1);
        rounding::lemma_nearest_exact(ONE_BITS as nat, x.units());
        assert(x.units() * one == one * x.units()) by (nonlinear_arith);
    }
}

/// A batch goes into the slot of its second: it is added to what the slot holds of the same
/// second, and takes the place of what it holds of another. The other slots stay.
pub proof fn law_batch_goes_into_its_slot(
    slots: Seq<SlotCounts>,
    now: nat,
    acked: nat,
    lost: nat,
    i: int,
)
    requires
        slots.len() == 5,
        0 <= i < 5,
    ensures
        ({
            let after = congestion_control::slots_with_batch(slots, now, acked, lost);
            &&& after.len() == 5
            &&& i != now as int % 5 ==> after[i] == slots[i]
            &&& i == now as int % 5 ==> after[i].timestamp_sec == now
            &&& i == now as int % 5 && slots[i].timestamp_sec == now ==> after[i].ack_count
                == slots[i].ack_count + acked && after[i].loss_count == slots[i].loss_count + lost
            &&& i == now as int % 5 && slots[i].timestamp_sec != now ==> after[i].ack_count == acked
                && after[i].loss_count == lost
        }),
{
}

/// Slots count one by one, those from the given second on.
pub proof fn law_slots_add_up(slots: Seq<SlotCounts>, slot: SlotCounts, since: nat)
    ensures
        congestion_control::acks_since(Seq::empty(), since) == 0,
        congestion_control::losses_since(Seq::empty(), since) == 0,
        slot.timestamp_sec >= since ==> {
            &&& congestion_control::acks_since(slots.push(slot), since)
                == congestion_control::acks_since(slots, since) + slot.ack_count
            &&& congestion_control::losses_since(slots.push(slot), since)
                == congestion_control::losses_since(slots, since) + slot.loss_count
        },
        slot.timestamp_sec < since ==> {
            &&& congestion_control::acks_since(slots.push(slot), since)
                == congestion_control::acks_since(slots, since)
            &&& congestion_control::losses_since(slots.push(slot), since)
                == congestion_control::losses_since(slots, since)
        },
{
    assert(slots.push(slot).drop_last() == slots);
}

/// The end of a round puts the batch into the slots and measures the ACK rate by the slots
/// that are at most five seconds old.
pub proof fn law_round_is_counted(state: ControllerState, now: nat)
    ensures
        ({
            let second = state.second_of(now);
            let after = state.after_end_acks(now);
            let start = if second < 5 {
                0
            } else {
                (second - 5) as nat
            };
            let acked = congestion_control::acks_since(after.slots, start);
            let lost = congestion_control::losses_since(after.slots, start);
            &&& after.slots == congestion_control::slots_with_batch(
                state.slots,
                second,
                state.acked_packets_in_batch,
                state.lost_packets_in_batch,
            )
            &&& state.acks_at(now) == acked
            &&& state.losses_at(now) == lost
            &&& after.ack_rate == congestion_control::measured_ack_rate(
                acked,
                lost,
                state.config.min_sample_count,
            )
        }),
{
}

} // verus!
