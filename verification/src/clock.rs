//! Readings of the process clocks.

use vstd::prelude::*;
use std::time::Instant;

verus! {

/// A reading of the wall clock and of a monotonic clock.
#[derive(Clone, Copy, Debug, PartialEq, Eq, Structural)]
pub struct Clock {
    /// Seconds since the Unix epoch.
    pub epoch_secs: u64,
    /// Nanoseconds since some fixed instant.
    pub instant_nanos: u64,
}

impl Clock {
    /// The reading for a wall clock at `epoch_secs` and a monotonic clock that
    /// has run for `elapsed_nanos`. After more nanoseconds than fit, the
    /// monotonic one stands still.
    pub fn from_readings(epoch_secs: u64, elapsed_nanos: u128) -> (res: Clock)
        ensures
            res.epoch_secs == epoch_secs,
            res.instant_nanos == (if elapsed_nanos > u64::MAX {
                u64::MAX as u128
            } else {
                elapsed_nanos
            }),
    {
        let instant_nanos: u64 = if elapsed_nanos > u64::MAX as u128 {
            u64::MAX
        } else {
            elapsed_nanos as u64
        };
        Clock { epoch_secs, instant_nanos }
    }
}

/// A monotonic instant of the standard library; only its distance from now is used.
#[verifier::external_type_specification]
#[verifier::external_body]
pub struct ExInstant(std::time::Instant);

/// Reads the monotonic clock with `std::time::Instant::now`. Nothing is claimed
/// of the instant, which depends on when the call is made.
#[verifier::external_body]
fn instant_now() -> Instant {
    Instant::now()
}

/// Nanoseconds that `std::time::Instant::elapsed` gives for `origin`. Nothing
/// is claimed of the number, which depends on when the call is made.
#[verifier::external_body]
fn nanos_since(origin: &Instant) -> u128 {
    origin.elapsed().as_nanos()
}

/// Whole seconds from the Unix epoch to what `std::time::SystemTime::now`
/// gives, or zero for a clock set before the epoch. Nothing is claimed of the
/// number, which depends on when the call is made.
#[verifier::external_body]
pub(crate) fn epoch_secs_now() -> u64 {
    std::time::SystemTime::now()
        .duration_since(std::time::UNIX_EPOCH)
        .unwrap_or_default()
        .as_secs()
}

/// The monotonic part of the latest of some readings; zero before the first.
pub open spec fn latest_nanos(readings: Seq<Clock>) -> u64 {
    if readings.len() == 0 {
        0
    } else {
        readings.last().instant_nanos
    }
}

/// Whether `after` are the readings `before` and one more, which is not before
/// any of them.
pub open spec fn one_more_reading(before: Seq<Clock>, after: Seq<Clock>) -> bool {
    &&& after.len() == before.len() + 1
    &&& after.drop_last() == before
    &&& latest_nanos(before) <= latest_nanos(after)
}

/// One more reading keeps all earlier ones, and none of them is later if each was
/// not before the ones that it followed.
pub proof fn lemma_readings_in_order(before: Seq<Clock>, after: Seq<Clock>, i: int)
    requires
        one_more_reading(before, after),
        0 <= i < before.len(),
        forall|k: int|
            0 <= k < before.len() ==> (#[trigger] before[k]).instant_nanos
                <= before.last().instant_nanos,
    ensures
        after[i] == before[i],
        after[i].instant_nanos <= after.last().instant_nanos,
{
    assert(after.drop_last()[i] == after[i]);
    assert(before[i].instant_nanos <= before.last().instant_nanos);
}

/// The clocks of the process, the monotonic one counted from an origin.
pub(crate) struct ProcessClock {
    origin: Instant,
    latest: u64,
    readings: Ghost<Seq<Clock>>,
}

impl ProcessClock {
    /// All that was read so far, in order.
    pub(crate) closed spec fn readings(&self) -> Seq<Clock> {
        self.readings@
    }

    /// The latest reading is remembered.
    pub(crate) closed spec fn wf(&self) -> bool {
        self.latest == latest_nanos(self.readings@)
    }

    /// A clock that counts from now and was not read yet. Nothing is claimed of
    /// its origin, which depends on when the call is made.
    pub(crate) fn start() -> (res: Self)
        ensures
            res.wf(),
            res.readings() == Seq::<Clock>::empty(),
    {
        ProcessClock { origin: instant_now(), latest: 0, readings: Ghost(Seq::empty()) }
    }

    /// Reads both clocks. What they show depends on when the call is made, but
    /// the monotonic one never shows less than it did before.
    pub(crate) fn read(&mut self) -> (res: Clock)
        requires
            old(self).wf(),
        ensures
            final(self).wf(),
            one_more_reading(old(self).readings(), final(self).readings()),
            res == final(self).readings().last(),
    {
        let shown = Clock::from_readings(epoch_secs_now(), nanos_since(&self.origin));
        let res = self.take(shown);
        assert(self.readings().drop_last() =~= old(self).readings());
        res
    }

    /// Takes what the clocks show as the latest reading; a monotonic clock that
    /// shows less than before counts as standing still.
    fn take(&mut self, shown: Clock) -> (res: Clock)
        requires
            old(self).wf(),
        ensures
            final(self).wf(),
            final(self).readings() == old(self).readings().push(res),
            res.epoch_secs == shown.epoch_secs,
            res.instant_nanos == (if shown.instant_nanos < latest_nanos(old(self).readings()) {
                latest_nanos(old(self).readings())
            } else {
                shown.instant_nanos
            }),
    {
        if shown.instant_nanos > self.latest {
            self.latest = shown.instant_nanos;
        }
        let reading = Clock { epoch_secs: shown.epoch_secs, instant_nanos: self.latest };
        proof {
            self.readings@ = self.readings@.push(reading);
        }
        reading
    }
}

} // verus!
