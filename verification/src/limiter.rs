//! Session-wide rate limiter.
//!
//! Pacing every datagram with a timer of its own severely undershoots on
//! platforms with coarse timers.  The limiter therefore schedules bytes against
//! one shared timeline and asks for a sleep only after at least a small quantum
//! has accumulated.  Oversleep is recovered by a bounded catch-up burst, and
//! because all connections of a session share one limiter, the configured speed
//! is a session total rather than a per-connection limit.
//!
//! The limiter reads no clock.  Every time is a number of nanoseconds since an
//! origin that the caller picks once and keeps.

use vstd::prelude::*;

verus! {

/// The least time worth a sleep, in nanoseconds (2 ms).
pub const MIN_SLEEP: u128 = 2_000_000;

/// How far the schedule may lie behind the clock, in nanoseconds (50 ms).
pub const MAX_CATCH_UP: u128 = 50_000_000;

/// What a limiter knows: the rate in bits per second, zero for "no limit", and
/// the time at which the next byte is due.
pub struct Schedule {
    pub rate: nat,
    pub next_send: nat,
}

/// The time that `bytes` bytes take at `rate` bits per second, in nanoseconds:
/// rounded down, but at least one nanosecond and at most what fits in 64 bits.
pub open spec fn interval(rate: nat, bytes: nat) -> nat {
    let exact = bytes * 8_000_000_000 / rate;
    if exact < 1 {
        1
    } else if exact > u64::MAX {
        u64::MAX as nat
    } else {
        exact
    }
}

impl Schedule {
    /// Whether sending `bytes` bytes is subject to the limit at all.
    pub open spec fn limits(self, bytes: nat) -> bool {
        self.rate != 0 && bytes != 0
    }

    /// The time from which the next bytes are counted: the scheduled one, or
    /// `now` where the schedule has fallen too far behind.
    pub open spec fn start(self, now: nat) -> nat {
        if self.next_send + MAX_CATCH_UP < now {
            now
        } else {
            self.next_send
        }
    }

    /// The schedule once `bytes` bytes, sent at `now`, are accounted for.
    pub open spec fn paced(self, now: nat, bytes: nat) -> Schedule {
        if self.limits(bytes) {
            Schedule {
                rate: self.rate,
                next_send: self.start(now) + interval(self.rate, bytes),
            }
        } else {
            self
        }
    }

    /// How long to sleep after sending `bytes` bytes at `now`; zero where the
    /// sender goes on at once.
    pub open spec fn sleep(self, now: nat, bytes: nat) -> nat {
        let due = self.paced(now, bytes).next_send;
        if self.limits(bytes) && due >= now + MIN_SLEEP {
            (due - now) as nat
        } else {
            0
        }
    }
}

/// A rate limiter, shared by all connections of a session.
#[derive(Debug)]
pub struct RateLimiter {
    rate_bps: u32,
    next_send: u128,
}

impl View for RateLimiter {
    type V = Schedule;

    closed spec fn view(&self) -> Schedule {
        Schedule { rate: self.rate_bps as nat, next_send: self.next_send as nat }
    }
}

/// The executable counterpart of [`interval`].
fn interval_nanos(rate_bps: u32, bytes: usize) -> (nanos: u64)
    requires
        rate_bps != 0,
    ensures
        nanos == interval(rate_bps as nat, bytes as nat),
{
    let exact: u128 = bytes as u128 * 8_000_000_000 / rate_bps as u128;
    if exact < 1 {
        1
    } else if exact > u64::MAX as u128 {
        u64::MAX
    } else {
        exact as u64
    }
}

impl RateLimiter {
    /// The rate of a limiter fits in 32 bits and its times in 128.  At such a rate a
    /// byte takes more than a nanosecond, so no interval is rounded up.
    pub proof fn law_in_range(&self)
        ensures
            self@.rate <= u32::MAX,
            self@.next_send <= u128::MAX,
            forall|bytes: nat|
                self@.limits(bytes) ==> #[trigger] interval(self@.rate, bytes) == (if bytes
                    * 8_000_000_000 / self@.rate > u64::MAX {
                    u64::MAX as nat
                } else {
                    bytes * 8_000_000_000 / self@.rate
                }),
    {
        let rate = self@.rate;
        assert forall|bytes: nat| self@.limits(bytes) implies #[trigger] interval(rate, bytes) == (
        if bytes * 8_000_000_000 / rate > u64::MAX {
            u64::MAX as nat
        } else {
            bytes * 8_000_000_000 / rate
        }) by {
            assert(bytes * 8_000_000_000 / rate >= 1) by (nonlinear_arith)
                requires
                    bytes >= 1,
                    1 <= rate <= 0xffff_ffff,
            ;
        }
    }

    /// A limiter for `rate_bps` bits per second whose schedule starts at `now`.
    pub fn new(now: u128, rate_bps: u32) -> (limiter: Self)
        ensures
            limiter@ == (Schedule { rate: rate_bps as nat, next_send: now as nat }),
    {
        RateLimiter { rate_bps, next_send: now }
    }

    /// Reset the schedule when the peer changes the requested rate.
    pub fn set_rate(&mut self, now: u128, rate_bps: u32)
        ensures
            final(self)@ == (Schedule { rate: rate_bps as nat, next_send: now as nat }),
    {
        self.rate_bps = rate_bps;
        self.next_send = now;
    }

    /// The time from which bytes sent at `now` are counted.
    fn start(&self, now: u128) -> (start: u128)
        ensures
            start == self@.start(now as nat),
    {
        match self.next_send.checked_add(MAX_CATCH_UP) {
            Some(limit) => if limit < now { now } else { self.next_send },
            None => self.next_send,
        }
    }

    /// Whether the schedule has room for `bytes` bytes sent at `now`: whether
    /// the time at which the bytes after them are due can be represented.
    pub fn can_pace(&self, now: u128, bytes: usize) -> (fits: bool)
        ensures
            fits == (self@.limits(bytes as nat) ==> self@.paced(
                now as nat,
                bytes as nat,
            ).next_send <= u128::MAX),
    {
        if self.rate_bps == 0 || bytes == 0 {
            return true;
        }
        let nanos: u64 = interval_nanos(self.rate_bps, bytes);
        self.start(now).checked_add(nanos as u128).is_some()
    }

    /// Account for `bytes` bytes just sent at `now`.  The answer is how long to
    /// sleep until their scheduled time, in nanoseconds, or `None` where less
    /// than [`MIN_SLEEP`] has accumulated and the sender goes on at once.
    pub fn pace(&mut self, now: u128, bytes: usize) -> (delay: Option<u128>)
        requires
            old(self)@.limits(bytes as nat) ==> old(self)@.paced(
                now as nat,
                bytes as nat,
            ).next_send <= u128::MAX,
        ensures
            final(self)@ == old(self)@.paced(now as nat, bytes as nat),
            delay is Some == (old(self)@.sleep(now as nat, bytes as nat) > 0),
            delay is Some ==> delay->0 == old(self)@.sleep(now as nat, bytes as nat),
    {
        if self.rate_bps == 0 || bytes == 0 {
            return None;
        }
        let nanos: u64 = interval_nanos(self.rate_bps, bytes);
        self.next_send = self.start(now) + nanos as u128;
        // Sub-millisecond intervals accumulate into a small batch, so that the
        // pace does not depend on the resolution of the system's timer.
        if self.next_send >= now && self.next_send - now >= MIN_SLEEP {
            Some(self.next_send - now)
        } else {
            None
        }
    }
}

/// One call of [`RateLimiter::pace`]: `bytes` bytes, sent at `now`.
pub struct Call {
    pub now: nat,
    pub bytes: nat,
}

/// The schedule after a history of calls, in the order in which they were made.
/// The calls may come from any number of connections.
pub open spec fn run(s: Schedule, calls: Seq<Call>) -> Schedule
    decreases calls.len(),
{
    if calls.len() == 0 {
        s
    } else {
        run(s, calls.drop_last()).paced(calls.last().now, calls.last().bytes)
    }
}

/// The time that all bytes of a history take together.
pub open spec fn scheduled(rate: nat, calls: Seq<Call>) -> nat
    decreases calls.len(),
{
    if calls.len() == 0 {
        0
    } else {
        scheduled(rate, calls.drop_last()) + (if calls.last().bytes == 0 {
            0
        } else {
            interval(rate, calls.last().bytes)
        })
    }
}

/// The bytes of a history.
pub open spec fn total_bytes(calls: Seq<Call>) -> nat
    decreases calls.len(),
{
    if calls.len() == 0 {
        0
    } else {
        total_bytes(calls.drop_last()) + calls.last().bytes
    }
}

/// The time at which the sender of the last bytes of a history goes on.
pub open spec fn finish(s: Schedule, calls: Seq<Call>) -> nat {
    calls.last().now + run(s, calls.drop_last()).sleep(calls.last().now, calls.last().bytes)
}

/// Whether no call of a history found the schedule too far behind the clock.
pub open spec fn on_time(s: Schedule, calls: Seq<Call>) -> bool {
    forall|i: int|
        0 <= i < calls.len() ==> (#[trigger] calls[i]).now <= run(s, calls.take(i)).next_send
            + MAX_CATCH_UP
}

/// All connections share one timeline: however their calls are mixed, the
/// schedule advances by at least the time that all their bytes take together,
/// and the rate stays what it was.
pub proof fn law_one_timeline(s: Schedule, calls: Seq<Call>)
    requires
        s.rate != 0,
    ensures
        run(s, calls).rate == s.rate,
        run(s, calls).next_send >= s.next_send + scheduled(s.rate, calls),
    decreases calls.len(),
{
    if calls.len() > 0 {
        law_one_timeline(s, calls.drop_last());
    }
}

/// The speed is a session total: whoever sends the last bytes of a history does
/// not go on before the time that all bytes of the history take together has
/// passed, but for less than one sleep quantum.
pub proof fn law_session_total(s: Schedule, calls: Seq<Call>)
    requires
        s.rate != 0,
        calls.len() > 0,
        calls.last().bytes != 0,
    ensures
        finish(s, calls) + MIN_SLEEP > s.next_send + scheduled(s.rate, calls),
{
    law_one_timeline(s, calls);
    law_one_timeline(s, calls.drop_last());
}

/// The same in bits: the bits of a history are at most what the rate allows
/// from the start of the schedule to the moment at which the last sender goes
/// on, with one sleep quantum and one nanosecond per call of slack.  A call whose
/// bytes take longer than 64 bits of nanoseconds is scheduled for less than that,
/// so the law leaves such calls out.
pub proof fn law_session_rate(s: Schedule, calls: Seq<Call>)
    requires
        s.rate != 0,
        calls.len() > 0,
        calls.last().bytes != 0,
        forall|i: int|
            0 <= i < calls.len() ==> (#[trigger] calls[i]).bytes * 8_000_000_000 / s.rate
                <= u64::MAX,
    ensures
        total_bytes(calls) * 8_000_000_000 < s.rate * (finish(s, calls) - s.next_send + MIN_SLEEP
            + calls.len()),
{
    law_session_total(s, calls);
    lemma_total_bytes(s.rate, calls);
    let time = scheduled(s.rate, calls) + calls.len();
    let allowed = finish(s, calls) - s.next_send + MIN_SLEEP + calls.len();
    assert(s.rate * time < s.rate * allowed) by (nonlinear_arith)
        requires
            s.rate > 0,
            time < allowed,
    ;
}

/// The bytes of a history, against the time for which they are scheduled.
proof fn lemma_total_bytes(rate: nat, calls: Seq<Call>)
    requires
        rate != 0,
        forall|i: int|
            0 <= i < calls.len() ==> (#[trigger] calls[i]).bytes * 8_000_000_000 / rate
                <= u64::MAX,
    ensures
        total_bytes(calls) * 8_000_000_000 <= rate * (scheduled(rate, calls) + calls.len()),
    decreases calls.len(),
{
    if calls.len() > 0 {
        let rest = calls.drop_last();
        let bytes = calls.last().bytes;
        assert forall|i: int| 0 <= i < rest.len() implies (#[trigger] rest[i]).bytes * 8_000_000_000
            / rate <= u64::MAX by {
            assert(rest[i] == calls[i]);
        }
        lemma_total_bytes(rate, rest);
        let exact = bytes * 8_000_000_000 / rate;
        assert(calls[calls.len() - 1].bytes == bytes);
        assert(bytes * 8_000_000_000 <= rate * (exact + 1)) by (nonlinear_arith)
            requires
                rate > 0,
                exact == bytes * 8_000_000_000 / rate,
        ;
        let step = if bytes == 0 {
            0
        } else {
            interval(rate, bytes)
        };
        assert(bytes * 8_000_000_000 <= rate * (step + 1)) by {
            if bytes != 0 {
                assert(rate * (exact + 1) <= rate * (step + 1)) by (nonlinear_arith)
                    requires
                        exact <= step,
                ;
            }
        }
        let before = scheduled(rate, rest) + rest.len();
        assert(rate * (before + step + 1) == rate * before + rate * (step + 1))
            by (nonlinear_arith);
    }
}

/// A sleep is worth a quantum and ends exactly at the scheduled time; without one,
/// the schedule is less than a quantum ahead of the clock.
pub proof fn law_sleep_reaches_schedule(s: Schedule, now: nat, bytes: nat)
    requires
        s.limits(bytes),
    ensures
        ({
            let sleep = s.sleep(now, bytes);
            let due = s.paced(now, bytes).next_send;
            if sleep > 0 {
                sleep >= MIN_SLEEP && now + sleep == due
            } else {
                due < now + MIN_SLEEP
            }
        }),
{
}

/// After every call that the limit applies to, the schedule lies at most
/// [`MAX_CATCH_UP`] behind the clock.
pub proof fn law_catch_up_bounded(s: Schedule, now: nat, bytes: nat)
    requires
        s.limits(bytes),
    ensures
        s.paced(now, bytes).next_send + MAX_CATCH_UP >= now + interval(s.rate, bytes),
{
}

/// The catch-up burst is bounded: what is sent within a window of `window`
/// nanoseconds, by a history whose last sender is not told to sleep, takes less
/// time at the configured rate than the window, [`MAX_CATCH_UP`] and one sleep
/// quantum together.
pub proof fn law_burst_bounded(s: Schedule, calls: Seq<Call>, window: nat)
    requires
        s.rate != 0,
        calls.len() > 0,
        calls.first().bytes != 0,
        calls.last().bytes != 0,
        calls.last().now <= calls.first().now + window,
        run(s, calls.drop_last()).sleep(calls.last().now, calls.last().bytes) == 0,
    ensures
        scheduled(s.rate, calls) < window + MAX_CATCH_UP + MIN_SLEEP,
{
    lemma_after_first(s, calls);
    law_one_timeline(s, calls.drop_last());
}

/// From its first call on, a history is scheduled no earlier than
/// [`MAX_CATCH_UP`] before the time of that call.
proof fn lemma_after_first(s: Schedule, calls: Seq<Call>)
    requires
        s.rate != 0,
        calls.len() > 0,
        calls.first().bytes != 0,
    ensures
        run(s, calls).rate == s.rate,
        run(s, calls).next_send + MAX_CATCH_UP >= calls.first().now + scheduled(s.rate, calls),
    decreases calls.len(),
{
    law_one_timeline(s, calls.drop_last());
    if calls.len() == 1 {
        assert(calls.drop_last().len() == 0);
        assert(scheduled(s.rate, calls.drop_last()) == 0);
    } else {
        lemma_after_first(s, calls.drop_last());
    }
}

/// While no call comes too late, the schedule advances by exactly the time that
/// the bytes take.
pub proof fn law_on_time_exact(s: Schedule, calls: Seq<Call>)
    requires
        s.rate != 0,
        on_time(s, calls),
    ensures
        run(s, calls) == (Schedule {
            rate: s.rate,
            next_send: s.next_send + scheduled(s.rate, calls),
        }),
    decreases calls.len(),
{
    if calls.len() > 0 {
        let rest = calls.drop_last();
        assert forall|i: int| 0 <= i < rest.len() implies (#[trigger] rest[i]).now <= run(
            s,
            rest.take(i),
        ).next_send + MAX_CATCH_UP by {
            assert(rest[i] == calls[i]);
            assert(rest.take(i) =~= calls.take(i));
        }
        law_on_time_exact(s, rest);
        assert(calls.take(calls.len() - 1) =~= rest);
        assert(calls[calls.len() - 1].now <= run(s, rest).next_send + MAX_CATCH_UP);
    }
}

/// The order in which connections reach the limiter does not matter: the same
/// calls, in any order in which none comes too late, lead to the same schedule.
pub proof fn law_order_irrelevant(s: Schedule, a: Seq<Call>, b: Seq<Call>)
    requires
        s.rate != 0,
        a.to_multiset() == b.to_multiset(),
        on_time(s, a),
        on_time(s, b),
    ensures
        run(s, a) == run(s, b),
{
    law_on_time_exact(s, a);
    law_on_time_exact(s, b);
    lemma_scheduled_multiset(s.rate, a, b);
}

/// [`scheduled`] depends on the calls alone, not on their order.
proof fn lemma_scheduled_multiset(rate: nat, a: Seq<Call>, b: Seq<Call>)
    requires
        a.to_multiset() == b.to_multiset(),
    ensures
        scheduled(rate, a) == scheduled(rate, b),
    decreases a.len(),
{
    broadcast use vstd::seq_lib::group_to_multiset_ensures;

    assert(a.len() == a.to_multiset().len());
    assert(b.len() == b.to_multiset().len());
    if a.len() > 0 {
        let last = a.last();
        assert(a.contains(last)) by {
            assert(a[a.len() - 1] == last);
        }
        assert(a.to_multiset().count(last) > 0);
        assert(b.contains(last));
        let i = choose|i: int| 0 <= i < b.len() && b[i] == last;
        assert(a.drop_last() =~= a.remove(a.len() - 1));
        assert(a.drop_last().to_multiset() =~= a.to_multiset().remove(last));
        assert(b.remove(i).to_multiset() =~= b.to_multiset().remove(last));
        lemma_scheduled_multiset(rate, a.drop_last(), b.remove(i));
        lemma_scheduled_remove(rate, b, i);
    }
}

/// Taking one call out of a history takes its share out of [`scheduled`].
proof fn lemma_scheduled_remove(rate: nat, calls: Seq<Call>, i: int)
    requires
        0 <= i < calls.len(),
    ensures
        scheduled(rate, calls) == scheduled(rate, calls.remove(i)) + (if calls[i].bytes == 0 {
            0
        } else {
            interval(rate, calls[i].bytes)
        }),
    decreases calls.len(),
{
    if i == calls.len() - 1 {
        assert(calls.remove(i) =~= calls.drop_last());
    } else {
        lemma_scheduled_remove(rate, calls.drop_last(), i);
        assert(calls.remove(i).drop_last() =~= calls.drop_last().remove(i));
        assert(calls.remove(i).last() == calls.last());
    }
}

/// A rate of zero means no limit: no history moves the schedule, and nobody is
/// told to sleep.
pub proof fn law_zero_rate_unlimited(s: Schedule, calls: Seq<Call>, now: nat, bytes: nat)
    requires
        s.rate == 0,
    ensures
        run(s, calls) == s,
        run(s, calls).sleep(now, bytes) == 0,
    decreases calls.len(),
{
    if calls.len() > 0 {
        law_zero_rate_unlimited(s, calls.drop_last(), now, bytes);
    }
}

/// A change of rate forgets the past: bytes sent at the moment of the change are
/// followed by exactly the time that they take at the new rate, if that is worth
/// a sleep.
pub proof fn law_set_rate_restarts(rate: nat, now: nat, bytes: nat)
    requires
        rate != 0,
        bytes != 0,
    ensures
        (Schedule { rate, next_send: now }).sleep(now, bytes) == (if interval(rate, bytes)
            >= MIN_SLEEP {
            interval(rate, bytes)
        } else {
            0
        }),
{
}

/// The time that bytes take: the bits of the bytes are sent in it, and not in a
/// nanosecond less, but for the least and the greatest interval.
pub proof fn law_interval_is_time(rate: nat, bytes: nat)
    requires
        rate != 0,
    ensures
        1 <= interval(rate, bytes) <= 0xffff_ffff_ffff_ffff,
        bytes * 8_000_000_000 < rate ==> interval(rate, bytes) == 1,
        rate <= bytes * 8_000_000_000 < rate * 0x1_0000_0000_0000_0000 ==> rate * interval(
            rate,
            bytes,
        ) <= bytes * 8_000_000_000 < rate * (interval(rate, bytes) + 1),
        bytes * 8_000_000_000 >= rate * 0x1_0000_0000_0000_0000 ==> interval(rate, bytes)
            == 0xffff_ffff_ffff_ffff,
{
    let bits = bytes * 8_000_000_000;
    let exact = bits / rate;
    vstd::arithmetic::div_mod::lemma_fundamental_div_mod(bits as int, rate as int);
    assert(rate * (exact + 1) == rate * exact + rate) by (nonlinear_arith);
    if exact < 1 {
        assert(rate * exact == 0) by (nonlinear_arith)
            requires
                exact == 0,
        ;
    } else {
        assert(rate * exact >= rate) by (nonlinear_arith)
            requires
                exact >= 1,
        ;
    }
    if exact >= 0x1_0000_0000_0000_0000 {
        assert(rate * exact >= rate * 0x1_0000_0000_0000_0000) by (nonlinear_arith)
            requires
                exact >= 0x1_0000_0000_0000_0000,
        ;
    } else {
        assert(rate * (exact + 1) <= rate * 0x1_0000_0000_0000_0000) by (nonlinear_arith)
            requires
                exact + 1 <= 0x1_0000_0000_0000_0000,
        ;
    }
}

/// A call that finds the schedule more than 50 ms behind the clock restarts it at
/// the clock.
pub proof fn law_late_call_restarts(s: Schedule, now: nat, bytes: nat)
    requires
        s.rate != 0,
        bytes != 0,
        s.next_send + 50_000_000 < now,
    ensures
        s.paced(now, bytes).rate == s.rate,
        s.paced(now, bytes).next_send == now + interval(s.rate, bytes),
{
}

/// Any other call is scheduled behind the bytes before it.
pub proof fn law_timely_call_follows(s: Schedule, now: nat, bytes: nat)
    requires
        s.rate != 0,
        bytes != 0,
        now <= s.next_send + 50_000_000,
    ensures
        s.paced(now, bytes).rate == s.rate,
        s.paced(now, bytes).next_send == s.next_send + interval(s.rate, bytes),
{
}

/// Without a rate, or without bytes, nothing is scheduled and nobody sleeps.
pub proof fn law_nothing_to_pace(s: Schedule, now: nat, bytes: nat)
    requires
        s.rate == 0 || bytes == 0,
    ensures
        s.paced(now, bytes) == s,
        s.sleep(now, bytes) == 0,
{
}

/// A sender sleeps until its bytes are due, if that is at least 2 ms ahead, and else
/// not at all.
pub proof fn law_sleep_until_due(s: Schedule, now: nat, bytes: nat)
    requires
        s.rate != 0,
        bytes != 0,
    ensures
        ({
            let due = s.paced(now, bytes).next_send;
            &&& due >= now + 2_000_000 ==> now + s.sleep(now, bytes) == due
            &&& due < now + 2_000_000 ==> s.sleep(now, bytes) == 0
        }),
{
}

/// Nobody sleeps longer than the backlog and the bytes just sent take.
pub proof fn law_sleep_bounded(s: Schedule, now: nat, bytes: nat)
    requires
        s.rate != 0,
        bytes != 0,
    ensures
        ({
            let backlog: nat = if s.next_send > now {
                (s.next_send - now) as nat
            } else {
                0
            };
            &&& s.paced(now, bytes).next_send <= now + backlog + interval(s.rate, bytes)
            &&& s.sleep(now, bytes) <= backlog + interval(s.rate, bytes)
        }),
{
}

/// Only differences of time count: on a clock with another origin everything happens
/// at the same moments.
pub proof fn law_origin_irrelevant(s: Schedule, now: nat, bytes: nat, shift: nat)
    ensures
        ({
            let moved = Schedule { rate: s.rate, next_send: s.next_send + shift };
            &&& moved.paced(now + shift, bytes).next_send == s.paced(now, bytes).next_send + shift
            &&& moved.sleep(now + shift, bytes) == s.sleep(now, bytes)
        }),
{
}

/// More bytes never mean an earlier schedule, nor does a later call.
pub proof fn law_schedule_monotone(s: Schedule, now: nat, later: nat, bytes: nat, more: nat)
    requires
        s.rate != 0,
        0 < bytes <= more,
        now <= later,
    ensures
        s.paced(now, bytes).next_send <= s.paced(later, more).next_send,
{
    let (x, y) = (bytes * 8_000_000_000, more * 8_000_000_000);
    vstd::arithmetic::div_mod::lemma_div_is_ordered(x as int, y as int, s.rate as int);
}

} // verus!
