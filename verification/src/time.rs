//! Time as the engine sees it, and the recipe that ticks at a fixed period.
//!
//! Instants and durations are counts of nanoseconds; an instant is counted
//! from an origin that the embedding application picks once. The library never
//! waits: an [`Interval`] says until when to sleep, is told when the sleeper
//! woke, and answers with the tick to deliver, if there is one.

use crate::hasher::Hasher;
use crate::subscription::{
    from_recipe, identity_of, lemma_identity_separates_configurations, Recipe, Subscription,
};
use vstd::arithmetic::div_mod::{
    lemma_fundamental_div_mod, lemma_mod_decreases, lemma_mod_multiples_basic, lemma_small_mod,
};
use vstd::arithmetic::mul::{lemma_mul_is_distributive_add, lemma_mul_is_distributive_add_other_way};
use vstd::prelude::*;

verus! {

/// The number of values a 64-bit word can take.
pub const WORD: u128 = 0x1_0000_0000_0000_0000;

/// A span of time, in nanoseconds.
#[derive(Clone, Copy, Debug, PartialEq, Eq)]
pub struct Duration {
    pub nanos: u128,
}

/// A point in time: the nanoseconds that have passed since the origin.
#[derive(Clone, Copy, Debug, PartialEq, Eq)]
pub struct Instant {
    pub nanos: u128,
}

impl Duration {
    /// The span of `millis` milliseconds.
    pub fn from_millis(millis: u64) -> (duration: Duration)
        ensures
            duration.nanos == millis * 1_000_000,
    {
        Duration { nanos: (millis as u128) * 1_000_000 }
    }

    /// The span of `secs` seconds.
    pub fn from_secs(secs: u64) -> (duration: Duration)
        ensures
            duration.nanos == secs * 1_000_000_000,
    {
        Duration { nanos: (secs as u128) * 1_000_000_000 }
    }
}

/// When a periodic source fires next, and how far its firings are apart.
///
/// The firings lie on a grid: the first deadline plus whole periods. A
/// schedule without a deadline has ended: its next firing would lie beyond
/// the last instant that can be written down.
pub struct Schedule {
    pub period: Duration,
    pub deadline: Option<Instant>,
}

/// The instant `nanos` nanoseconds after the origin, if it can be written
/// down.
pub open spec fn instant_at(nanos: int) -> Option<Instant> {
    if 0 <= nanos <= u128::MAX {
        Some(Instant { nanos: nanos as u128 })
    } else {
        None
    }
}

impl Schedule {
    /// The schedule of a source that starts at `now`: it fires first one
    /// period later.
    pub open spec fn starting(now: Instant, period: Duration) -> Schedule {
        Schedule { period, deadline: instant_at(now.nanos + period.nanos) }
    }

    /// The tick that a poll at `now` delivers.
    ///
    /// The pending firing is delivered while it is the only one that has come
    /// due. Before its deadline nothing is delivered; once the firing after it
    /// is due as well, it has been missed and nothing is delivered either.
    pub open spec fn delivered(self, now: Instant) -> Option<Instant> {
        match self.deadline {
            Some(deadline) => if deadline.nanos <= now.nanos < deadline.nanos + self.period.nanos {
                Some(deadline)
            } else {
                None
            },
            None => None,
        }
    }

    /// The schedule after a poll at `now`.
    ///
    /// A poll before the deadline changes nothing. Any other poll moves the
    /// deadline to the first point of the grid that lies after `now`: one
    /// period on where the pending firing was delivered, further where
    /// firings were missed.
    pub open spec fn after(self, now: Instant) -> Schedule {
        match self.deadline {
            Some(deadline) => if now.nanos < deadline.nanos {
                self
            } else {
                let missed = (now.nanos - deadline.nanos) / (self.period.nanos as int);
                Schedule {
                    period: self.period,
                    deadline: instant_at(deadline.nanos + (missed + 1) * self.period.nanos),
                }
            },
            None => self,
        }
    }

    /// The ticks that a series of polls delivers, in order.
    pub open spec fn ticks(self, polls: Seq<Instant>) -> Seq<Instant>
        decreases polls.len(),
    {
        if polls.len() == 0 {
            Seq::empty()
        } else {
            let rest = self.after(polls[0]).ticks(polls.drop_first());
            match self.delivered(polls[0]) {
                Some(tick) => seq![tick] + rest,
                None => rest,
            }
        }
    }
}

/// Whether `tick` is a firing of `schedule`: a point of its grid that is not
/// earlier than its deadline.
pub open spec fn on_grid(schedule: Schedule, tick: Instant) -> bool {
    match schedule.deadline {
        Some(deadline) => {
            &&& deadline.nanos <= tick.nanos
            &&& (tick.nanos - deadline.nanos) % (schedule.period.nanos as int) == 0
        },
        None => false,
    }
}

proof fn lemma_multiples_add(a: int, b: int, p: int)
    requires
        p > 0,
        a % p == 0,
        b % p == 0,
    ensures
        (a + b) % p == 0,
{
    lemma_fundamental_div_mod(a, p);
    lemma_fundamental_div_mod(b, p);
    lemma_mul_is_distributive_add(p, a / p, b / p);
    lemma_mod_multiples_basic(a / p + b / p, p);
}

/// A poll at or after the deadline moves the deadline forward along the
/// grid, past the poll and by no more than one period past it.
proof fn lemma_after_advances(schedule: Schedule, now: Instant)
    requires
        schedule.period.nanos > 0,
        schedule.deadline is Some,
        schedule.deadline.unwrap().nanos <= now.nanos,
    ensures
        match schedule.after(now).deadline {
            Some(next) => {
                &&& now.nanos < next.nanos <= now.nanos + schedule.period.nanos
                &&& on_grid(schedule, next)
                &&& schedule.delivered(now) is Some ==> next.nanos == schedule.deadline.unwrap().nanos
                    + schedule.period.nanos
            },
            None => now.nanos + schedule.period.nanos > u128::MAX,
        },
{
    let deadline = schedule.deadline.unwrap().nanos as int;
    let period = schedule.period.nanos as int;
    let late = now.nanos - deadline;
    let missed = late / period;
    let next = deadline + (missed + 1) * period;
    lemma_fundamental_div_mod(late, period);
    lemma_mul_is_distributive_add_other_way(period, missed, 1);
    lemma_mod_multiples_basic(missed + 1, period);
    if late < period {
        lemma_small_mod(late as nat, period as nat);
    }
}

/// Whatever the polls, every tick delivered is a firing of the schedule, and
/// two ticks in a row are at least one period apart.
pub proof fn lemma_ticks_spaced(schedule: Schedule, polls: Seq<Instant>)
    requires
        schedule.period.nanos > 0,
    ensures
        forall|i: int|
            0 <= i < schedule.ticks(polls).len() ==> on_grid(schedule, #[trigger] schedule.ticks(polls)[i]),
        forall|i: int|
            0 <= i < schedule.ticks(polls).len() - 1 ==> schedule.ticks(polls)[i + 1].nanos - (
            #[trigger] schedule.ticks(polls)[i]).nanos >= schedule.period.nanos,
    decreases polls.len(),
{
    if polls.len() > 0 {
        let now = polls[0];
        let then = schedule.after(now);
        let rest = then.ticks(polls.drop_first());
        let period = schedule.period.nanos as int;
        lemma_ticks_spaced(then, polls.drop_first());
        if schedule.deadline is Some && schedule.deadline.unwrap().nanos <= now.nanos {
            lemma_after_advances(schedule, now);
        }
        assert forall|i: int| 0 <= i < rest.len() implies on_grid(schedule, #[trigger] rest[i]) by {
            if then != schedule {
                let first = schedule.deadline.unwrap().nanos as int;
                let next = then.deadline.unwrap().nanos as int;
                lemma_multiples_add(rest[i].nanos - next, next - first, period);
            }
        }
        match schedule.delivered(now) {
            Some(tick) => {
                let all = seq![tick] + rest;
                lemma_mod_multiples_basic(0, period);
                assert forall|i: int| 0 <= i < all.len() implies on_grid(schedule, #[trigger] all[i]) by {}
                assert forall|i: int| 0 <= i < all.len() - 1 implies all[i + 1].nanos - (
                #[trigger] all[i]).nanos >= period by {}
            },
            None => {},
        }
    }
}

/// A source that is polled once its first period has passed, and before the
/// second has, delivers its first tick: the instant one period after it was
/// started.
pub proof fn lemma_first_tick(start: Instant, period: Duration, now: Instant)
    requires
        period.nanos > 0,
        start.nanos + period.nanos <= now.nanos < start.nanos + 2 * period.nanos,
    ensures
        Schedule::starting(start, period).delivered(now) == Some(
            Instant { nanos: (start.nanos + period.nanos) as u128 },
        ),
{
}

/// Missed ticks are skipped. A poll that comes so late that a later firing is
/// due as well delivers nothing and moves the deadline to the first point of
/// the grid after the poll. Every tick delivered from then on is later than
/// that poll, and a poll at the new deadline delivers exactly one tick.
pub proof fn lemma_missed_ticks_skipped(schedule: Schedule, now: Instant, later: Seq<Instant>)
    requires
        schedule.period.nanos > 0,
        schedule.deadline is Some,
        now.nanos >= schedule.deadline.unwrap().nanos + schedule.period.nanos,
    ensures
        schedule.delivered(now) is None,
        match schedule.after(now).deadline {
            Some(next) => {
                &&& now.nanos < next.nanos <= now.nanos + schedule.period.nanos
                &&& on_grid(schedule, next)
                &&& schedule.ticks(seq![now, next]) == seq![next]
            },
            None => now.nanos + schedule.period.nanos > u128::MAX,
        },
        forall|i: int|
            0 <= i < schedule.ticks(seq![now] + later).len() ==> (#[trigger] schedule.ticks(
                seq![now] + later,
            )[i]).nanos > now.nanos,
{
    let then = schedule.after(now);
    lemma_after_advances(schedule, now);
    assert((seq![now] + later).drop_first() =~= later);
    assert(schedule.ticks(seq![now] + later) == then.ticks(later));
    lemma_ticks_spaced(then, later);
    if then.deadline is Some {
        let next = then.deadline.unwrap();
        let polls = seq![now, next];
        assert(polls.drop_first() =~= seq![next]);
        assert(seq![next].drop_first() =~= Seq::<Instant>::empty());
        assert(then.after(next).ticks(Seq::<Instant>::empty()) =~= Seq::<Instant>::empty());
        assert(schedule.ticks(polls) == then.ticks(seq![next]));
    }
}

/// A periodic source that is running.
pub struct Interval {
    period: Duration,
    deadline: Option<Instant>,
}

impl View for Interval {
    type V = Schedule;

    closed spec fn view(&self) -> Schedule {
        Schedule { period: self.period, deadline: self.deadline }
    }
}

impl Interval {
    #[verifier::type_invariant]
    spec fn inv(self) -> bool {
        self.period.nanos > 0
    }

    /// The instant until which there is nothing to deliver, or `None` when
    /// the source has ended.
    pub fn deadline(&self) -> (deadline: Option<Instant>)
        ensures
            deadline == self@.deadline,
    {
        self.deadline
    }

    /// The time between two firings.
    pub fn period(&self) -> (period: Duration)
        ensures
            period == self@.period,
            period.nanos > 0,
    {
        proof {
            use_type_invariant(self);
        }
        self.period
    }

    /// Takes note that it is `now`, and returns the tick to deliver.
    pub fn tick(&mut self, now: Instant) -> (tick: Option<Instant>)
        ensures
            final(self)@ == old(self)@.after(now),
            tick == old(self)@.delivered(now),
    {
        proof {
            use_type_invariant(&*self);
        }
        let deadline = match self.deadline {
            Some(deadline) => deadline,
            None => {
                return None;
            },
        };
        if now.nanos < deadline.nanos {
            return None;
        }
        let period: u128 = self.period.nanos;
        let late: u128 = now.nanos - deadline.nanos;
        let into_period: u128 = late % period;
        proof {
            lemma_mod_decreases(late as nat, period as nat);
        }
        let boundary: u128 = now.nanos - into_period;
        proof {
            let missed = (late as int) / (period as int);
            lemma_fundamental_div_mod(late as int, period as int);
            lemma_mul_is_distributive_add_other_way(period as int, missed, 1);
        }
        let next = match boundary.checked_add(period) {
            Some(nanos) => Some(Instant { nanos }),
            None => None,
        };
        *self = Interval { period: self.period, deadline: next };
        if late < period {
            Some(deadline)
        } else {
            None
        }
    }
}

/// The word that marks an [`Every`] in a hash.
pub const EVERY_TAG: u64 = 0x4576_6572_7920_7469;

/// The recipe of a source that produces the current instant once per period.
#[derive(Clone, Copy, Debug, PartialEq, Eq)]
pub struct Every(pub Duration);

/// The upper word of a count of nanoseconds.
pub open spec fn high_word(nanos: u128) -> u64 {
    (nanos / WORD) as u64
}

/// The lower word of a count of nanoseconds.
pub open spec fn low_word(nanos: u128) -> u64 {
    (nanos % WORD) as u64
}

impl Recipe for Every {
    open spec fn tag(&self) -> u64 {
        EVERY_TAG
    }

    open spec fn config(&self) -> Seq<u64> {
        seq![high_word(self.0.nanos), low_word(self.0.nanos)]
    }

    fn hash(&self, state: &mut Hasher) {
        state.write_u64(EVERY_TAG);
        state.write_u64((self.0.nanos / WORD) as u64);
        state.write_u64((self.0.nanos % WORD) as u64);
    }
}

/// Two `Every` of the same duration have the same identity. Two of different
/// durations have different identities wherever the durations agree in their
/// upper or in their lower word. Durations below 2^64 nanoseconds, which is
/// more than five hundred years, all agree in the upper one: among them, a
/// different duration is a different identity.
pub proof fn lemma_every_identity(a: Duration, b: Duration)
    ensures
        a == b ==> identity_of(Every(a)) == identity_of(Every(b)),
        a != b && (high_word(a.nanos) == high_word(b.nanos) || low_word(a.nanos) == low_word(b.nanos))
            ==> identity_of(Every(a)) != identity_of(Every(b)),
        a != b && a.nanos < WORD && b.nanos < WORD ==> identity_of(Every(a)) != identity_of(
            Every(b),
        ),
{
    if a != b {
        if high_word(a.nanos) == high_word(b.nanos) {
            lemma_identity_separates_configurations(Every(a), Every(b), 1);
        } else if low_word(a.nanos) == low_word(b.nanos) {
            lemma_identity_separates_configurations(Every(a), Every(b), 0);
        }
    }
}

impl Every {
    /// Starts the source at `now`: the first tick is due one period later.
    /// The recipe is used up; what runs from here on is the interval.
    pub fn stream(self, now: Instant) -> (interval: Interval)
        requires
            self.0.nanos > 0,
        ensures
            interval@ == Schedule::starting(now, self.0),
    {
        let deadline = match now.nanos.checked_add(self.0.nanos) {
            Some(nanos) => Some(Instant { nanos }),
            None => None,
        };
        Interval { period: self.0, deadline }
    }
}

/// The subscription to one tick every `duration`: the first after one
/// `duration` has passed, then one per `duration`.
///
/// The duration is meant to be positive: the recipe of an empty duration can
/// be declared and tracked, but its source cannot be started.
pub fn every(duration: Duration) -> (subscription: Subscription<Every>)
    ensures
        subscription@ == seq![Every(duration)],
{
    from_recipe(Every(duration))
}

} // verus!
