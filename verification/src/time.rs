//! Spans and points of time.
use vstd::prelude::*;

use crate::binary64;
use crate::binary64::Binary64;

verus! {

/// The number of nanoseconds in a second.
pub const NANOS_PER_SEC: u32 = 1_000_000_000;

/// The number of nanoseconds in a millisecond.
pub const NANOS_PER_MILLI: u32 = 1_000_000;

/// A span of time: whole seconds and the nanoseconds beyond them, which are less than a
/// second. Its view is the number of nanoseconds in all.
#[derive(Clone, Copy, Debug)]
pub struct Duration {
    secs: u64,
    nanos: u32,
}

impl View for Duration {
    type V = nat;

    closed spec fn view(&self) -> nat {
        (self.secs * NANOS_PER_SEC + self.nanos % NANOS_PER_SEC) as nat
    }
}

/// The whole seconds of a span fit in a `u64`.
pub proof fn lemma_span_fits(span: Duration)
    ensures
        span@ / (NANOS_PER_SEC as nat) <= u64::MAX,
{
    let rest = (span.nanos % NANOS_PER_SEC) as nat;
    crate::rounding::lemma_quotient(span@, NANOS_PER_SEC as nat, span.secs as nat, rest);
}

/// A span of so many nanoseconds in seconds: the whole seconds plus the fraction, each
/// rounded.
pub open spec fn seconds(nanos: nat) -> Binary64 {
    binary64::sum(
        binary64::nearest_to_integer(nanos / (NANOS_PER_SEC as nat)),
        binary64::quotient(
            binary64::nearest_to_integer(nanos % (NANOS_PER_SEC as nat)),
            binary64::nearest_to_integer(NANOS_PER_SEC as nat),
        ),
    )
}

impl Duration {
    #[verifier::type_invariant]
    spec fn well_formed(self) -> bool {
        self.nanos < NANOS_PER_SEC
    }

    /// A span of whole milliseconds.
    pub fn from_millis(millis: u64) -> (result: Duration)
        ensures
            result@ == millis * NANOS_PER_MILLI,
    {
        let secs: u64 = millis / 1000;
        let rest: u32 = (millis % 1000) as u32;
        Duration { secs, nanos: rest * NANOS_PER_MILLI }
    }

    /// A span of whole nanoseconds.
    pub fn from_nanos(nanos: u64) -> (result: Duration)
        ensures
            result@ == nanos,
    {
        let per_sec: u64 = NANOS_PER_SEC as u64;
        Duration { secs: nanos / per_sec, nanos: (nanos % per_sec) as u32 }
    }

    /// A span of seconds and of nanoseconds below a second.
    pub fn from_parts(secs: u64, nanos: u32) -> (result: Duration)
        requires
            nanos < NANOS_PER_SEC,
        ensures
            result@ == secs * NANOS_PER_SEC + nanos,
    {
        Duration { secs, nanos }
    }

    /// The whole seconds.
    pub fn as_secs(self) -> (secs: u64)
        ensures
            secs == self@ / (NANOS_PER_SEC as nat),
    {
        proof {
            use_type_invariant(self);
            crate::rounding::lemma_quotient(
                self@,
                NANOS_PER_SEC as nat,
                self.secs as nat,
                self.nanos as nat,
            );
        }
        self.secs
    }

    /// All nanoseconds.
    pub fn as_nanos(self) -> (nanos: u128)
        ensures
            nanos == self@,
            nanos < 0x4000_0000_0000_0000_0000_0000,
    {
        proof {
            use_type_invariant(self);
            assert(self.secs as u128 * NANOS_PER_SEC as u128 <= 0xffff_ffff_ffff_ffff
                * 1_000_000_000) by (nonlinear_arith)
                requires
                    self.secs <= 0xffff_ffff_ffff_ffff,
                    NANOS_PER_SEC == 1_000_000_000,
            ;
        }
        self.secs as u128 * NANOS_PER_SEC as u128 + self.nanos as u128
    }

    /// The span in seconds.
    pub fn as_seconds(self) -> (result: Binary64)
        ensures
            result == seconds(self@),
    {
        proof {
            use_type_invariant(self);
            crate::rounding::lemma_quotient(
                self@,
                NANOS_PER_SEC as nat,
                self.secs as nat,
                self.nanos as nat,
            );
        }
        let whole = Binary64::from_integer(self.secs as u128);
        let nanos = Binary64::from_integer(self.nanos as u128);
        let fraction = nanos.divide(Binary64::from_integer(NANOS_PER_SEC as u128));
        whole.add(fraction)
    }
}

/// A point of time, told by the span since a fixed origin. Its view is the number of
/// nanoseconds since then.
#[derive(Clone, Copy, Debug)]
pub struct Instant {
    since_origin: Duration,
}

impl View for Instant {
    type V = nat;

    closed spec fn view(&self) -> nat {
        self.since_origin@
    }
}

/// The whole seconds since the origin fit in a `u64`.
pub proof fn lemma_instant_fits(point: Instant)
    ensures
        point@ / (NANOS_PER_SEC as nat) <= u64::MAX,
{
    lemma_span_fits(point.since_origin);
}

/// The whole seconds from one point of time to another; 0 where that is not later.
pub open spec fn whole_seconds_between(from: nat, to: nat) -> nat {
    if from <= to {
        (to - from) as nat / (NANOS_PER_SEC as nat)
    } else {
        0
    }
}

impl Instant {
    /// The point of time that lies the given span after the origin.
    pub fn after_origin(since_origin: Duration) -> (result: Instant)
        ensures
            result@ == since_origin@,
    {
        Instant { since_origin }
    }

    /// The span since an earlier point of time; nothing where that is later.
    pub fn saturating_duration_since(self, earlier: Instant) -> (result: Duration)
        ensures
            result@ == if earlier@ <= self@ {
                (self@ - earlier@) as nat
            } else {
                0
            },
    {
        let a = self.since_origin;
        let b = earlier.since_origin;
        proof {
            use_type_invariant(a);
            use_type_invariant(b);
        }
        if a.secs < b.secs || (a.secs == b.secs && a.nanos < b.nanos) {
            Duration { secs: 0, nanos: 0 }
        } else if a.nanos >= b.nanos {
            Duration { secs: a.secs - b.secs, nanos: a.nanos - b.nanos }
        } else {
            Duration { secs: a.secs - b.secs - 1, nanos: a.nanos + NANOS_PER_SEC - b.nanos }
        }
    }
}

} // verus!
