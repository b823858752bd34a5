//! A small lap timer: it keeps the durations between successive laps in a
//! queue, and hands each one back as it is taken.

use vstd::prelude::*;
use std::collections::VecDeque;
use std::time::{Duration, Instant};

verus! {

/// `std::time::Instant`, a moment of a clock that does not go back. It is
/// carried through and never looked into.
#[verifier::external_type_specification]
#[verifier::external_body]
pub struct ExInstant(Instant);

/// `std::time::Instant::now`: the present moment. Nothing is assumed of
/// it: two calls may give any two moments.
#[verifier::external_body]
fn now() -> Instant {
    Instant::now()
}

/// The difference of two moments of `std::time::Instant`: the time from
/// `earlier` to `later`, which std gives as zero where `earlier` is the
/// later one. Nothing is assumed of the duration.
#[verifier::external_body]
fn elapsed(later: Instant, earlier: Instant) -> Duration {
    later - earlier
}

/// Saves a sequence of durations as laps are taken. Each can be read at
/// once, from the lap that measured it, or later from the queue.
pub struct TimerBuddy {
    last_lap: Instant,
    times: VecDeque<Duration>,
}

impl View for TimerBuddy {
    type V = Seq<Duration>;

    /// The queue of durations that were saved and not yet taken out,
    /// oldest first.
    closed spec fn view(&self) -> Seq<Duration> {
        self.times@
    }
}

impl TimerBuddy {
    /// The moment of the last lap, or of the start if no lap was taken.
    pub closed spec fn last_lap(&self) -> Instant {
        self.last_lap
    }

    /// Starts a timer at the present moment, with an empty queue.
    pub fn start() -> (timer: Self)
        ensures
            timer@.len() == 0,
    {
        TimerBuddy { last_lap: now(), times: VecDeque::new() }
    }

    /// Takes the duration at the front of the queue out, if there is one.
    pub fn pop_front(&mut self) -> (front: Option<Duration>)
        ensures
            match front {
                Some(d) => {
                    &&& old(self)@.len() > 0
                    &&& d == old(self)@[0]
                    &&& final(self)@ == old(self)@.skip(1)
                },
                None => old(self)@.len() == 0 && final(self)@ == old(self)@,
            },
            final(self).last_lap() == old(self).last_lap(),
    {
        let front = self.times.pop_front();
        assert(old(self)@.len() > 0 ==> old(self)@.subrange(1, old(self)@.len() as int) =~= old(
            self,
        )@.skip(1));
        front
    }

    /// Saves the duration from the last lap to the moment `now`, which
    /// becomes the last lap, and returns that duration.
    pub fn lap_at(&mut self, now: Instant) -> (since: Duration)
        ensures
            final(self)@ == old(self)@.push(since),
            final(self).last_lap() == now,
    {
        let since = elapsed(now, self.last_lap);
        self.last_lap = now;
        self.times.push_back(since);
        since
    }

    /// Saves the duration since the last lap at the back of the queue, and
    /// returns it as well, for use at once.
    pub fn lap(&mut self) -> (since: Duration)
        ensures
            final(self)@ == old(self)@.push(since),
    {
        self.lap_at(now())
    }

    /// Consumes the timer and returns the durations left in the queue,
    /// oldest first.
    pub fn times(self) -> (rest: VecDeque<Duration>)
        ensures
            rest@ == self@,
    {
        self.times
    }
}

} // verus!
