//! Adapter layer between the event loop model and a real runtime.
//!
//! [`EventLoop`] is a pure model over a logical clock. A runtime adapter
//! implements [`LoopDriver`]: it waits (really, or not at all) until a due
//! time and reports the time it reached; [`drive_until_idle`] repeats
//! "run what is ready, wait for the next due timer" until nothing is left.
use crate::event_loop::{EventLoop, Executed, TimerEntry};
use vstd::prelude::*;

verus! {

/// Drives an event loop on some runtime.
///
/// A driver may keep a ghost record of its calls of `wait_until`: the due
/// times it was asked for (`asked`) and the times it reported (`answered`),
/// in call order. Only a driver whose `wait_until` is verified can keep it,
/// and such a driver says so with `records_calls`; for any other driver the
/// record means nothing.
pub trait LoopDriver {
    /// This driver keeps the record `asked`/`answered`. By default it does
    /// not.
    closed spec fn records_calls(&self) -> bool {
        false
    }

    /// The due times this driver was asked to wait for, oldest first (when
    /// it records its calls).
    closed spec fn asked(&self) -> Seq<u64> {
        Seq::empty()
    }

    /// The times this driver reported, in the same order (when it records
    /// its calls).
    closed spec fn answered(&self) -> Seq<u64> {
        Seq::empty()
    }

    /// Waits until logical time `due` and returns the time reached, which is
    /// never earlier than `due`. A real runtime sleeps here. A driver that
    /// records its calls adds this one to its record.
    fn wait_until(&mut self, due: u64) -> (now: u64)
        ensures
            now >= due,
            old(self).records_calls() ==> {
                &&& final(self).records_calls()
                &&& final(self).asked() == old(self).asked().push(due)
                &&& final(self).answered() == old(self).answered().push(now)
            },
    ;
}

/// Driver for tests and simulation: waiting just reports the due time.
pub struct ManualDriver {
    asked: Ghost<Seq<u64>>,
}

impl ManualDriver {
    /// A driver that has not been asked anything yet.
    pub fn new() -> (d: Self)
        ensures
            d.asked() == Seq::<u64>::empty(),
    {
        ManualDriver { asked: Ghost(Seq::empty()) }
    }
}

impl Default for ManualDriver {
    fn default() -> (d: Self)
        ensures
            d.asked() == Seq::<u64>::empty(),
    {
        ManualDriver::new()
    }
}

impl LoopDriver for ManualDriver {
    open spec fn records_calls(&self) -> bool {
        true
    }

    closed spec fn asked(&self) -> Seq<u64> {
        self.asked@
    }

    /// A manual driver reports exactly the times it was asked for.
    open spec fn answered(&self) -> Seq<u64> {
        self.asked()
    }

    fn wait_until(&mut self, due: u64) -> (now: u64)
        ensures
            now == due,
    {
        self.asked = Ghost(self.asked@.push(due));
        due
    }
}

/// The calls recorded in `after` that are not in `before`.
pub open spec fn calls_since(before: Seq<u64>, after: Seq<u64>) -> Seq<u64> {
    after.skip(before.len() as int)
}

/// `d` is the earliest due time of `pool` later than `clock`.
#[verifier::opaque]
pub open spec fn is_next_due(pool: Seq<TimerEntry>, clock: u64, d: u64) -> bool {
    &&& d > clock
    &&& exists|t: TimerEntry| #[trigger] pool.contains(t) && t.due == d
    &&& forall|t: TimerEntry| #[trigger] pool.contains(t) && t.due > clock ==> d <= t.due
}

/// The clock before the `i`-th wait: `start`, then each answer in turn.
pub open spec fn clock_before(start: u64, answers: Seq<u64>, i: int) -> u64 {
    if i == 0 {
        start
    } else {
        answers[i - 1]
    }
}

/// The clock after all the waits `answers`, starting from `start`.
pub open spec fn clock_after(start: u64, answers: Seq<u64>) -> u64 {
    if answers.len() == 0 {
        start
    } else {
        answers.last()
    }
}

/// Waits that drive the timers `pool` from `start`: the `i`-th wait asks for
/// the earliest due time later than the clock reached so far, and the clock
/// then moves to the answer.
pub open spec fn waits_follow(pool: Seq<TimerEntry>, start: u64, asks: Seq<u64>, answers: Seq<u64>) -> bool {
    &&& asks.len() == answers.len()
    &&& forall|i: int| 0 <= i < asks.len() ==> answers[i] >= #[trigger] asks[i]
    &&& forall|i: int| 0 <= i < asks.len() ==> #[trigger] asks[i] > clock_before(start, answers, i)
    &&& forall|i: int| 0 <= i < asks.len() ==> is_next_due(pool, clock_before(start, answers, i), #[trigger] asks[i])
}

/// `s` is strictly increasing.
pub open spec fn strictly_increasing(s: Seq<u64>) -> bool {
    forall|i: int, j: int| 0 <= i < j < s.len() ==> #[trigger] s[i] < #[trigger] s[j]
}

/// `s` lists exactly the due times of `pool` later than `start`.
pub open spec fn lists_later_dues(s: Seq<u64>, pool: Seq<TimerEntry>, start: u64) -> bool {
    forall|x: u64| #[trigger] s.contains(x) <==> (x > start && exists|t: TimerEntry| #[trigger] pool.contains(t) && t.due == x)
}

/// When every answer equals its ask and every timer is due by the final
/// clock, the asks are the distinct due times later than `start`, in
/// ascending order, and the final clock is the later of `start` and the last
/// due time.
pub proof fn lemma_exact_waits(pool: Seq<TimerEntry>, start: u64, asks: Seq<u64>)
    requires
        waits_follow(pool, start, asks, asks),
        forall|t: TimerEntry| #[trigger] pool.contains(t) ==> t.due <= clock_after(start, asks),
    ensures
        strictly_increasing(asks),
        lists_later_dues(asks, pool, start),
        clock_after(start, asks) == start || exists|t: TimerEntry|
            #[trigger] pool.contains(t) && t.due == clock_after(start, asks),
{
    assert forall|i: int, j: int| 0 <= i < j < asks.len() implies #[trigger] asks[i] < #[trigger] asks[j] by {
        lemma_asks_increase(pool, start, asks, i, j);
    }
    assert forall|x: u64| #[trigger] asks.contains(x) <==> (x > start && exists|t: TimerEntry|
        #[trigger] pool.contains(t) && t.due == x) by {
        reveal(is_next_due);
        if asks.contains(x) {
            let i = choose|i: int| 0 <= i < asks.len() && asks[i] == x;
            assert(is_next_due(pool, clock_before(start, asks, i), asks[i]));
            if i > 0 {
                lemma_asks_increase(pool, start, asks, 0, i);
                assert(is_next_due(pool, clock_before(start, asks, 0), asks[0]));
            }
        }
        if x > start && exists|t: TimerEntry| #[trigger] pool.contains(t) && t.due == x {
            let t = choose|t: TimerEntry| #[trigger] pool.contains(t) && t.due == x;
            lemma_due_is_asked(pool, start, asks, t);
        }
    }
    if asks.len() > 0 {
        reveal(is_next_due);
        assert(is_next_due(pool, clock_before(start, asks, asks.len() - 1), asks[asks.len() - 1]));
    }
}

proof fn lemma_asks_increase(pool: Seq<TimerEntry>, start: u64, asks: Seq<u64>, i: int, j: int)
    requires
        waits_follow(pool, start, asks, asks),
        0 <= i < j < asks.len(),
    ensures
        asks[i] < asks[j],
    decreases j - i,
{
    assert(asks[j] > clock_before(start, asks, j));
    if j > i + 1 {
        lemma_asks_increase(pool, start, asks, i, j - 1);
    }
}

proof fn lemma_due_is_asked(pool: Seq<TimerEntry>, start: u64, asks: Seq<u64>, t: TimerEntry)
    requires
        waits_follow(pool, start, asks, asks),
        pool.contains(t),
        t.due > start,
        t.due <= clock_after(start, asks),
    ensures
        asks.contains(t.due),
    decreases asks.len(),
{
    reveal(is_next_due);
    let n = asks.len();
    assert(n > 0);
    let c = clock_before(start, asks, n - 1);
    assert(is_next_due(pool, c, asks[n - 1]));
    if t.due > c {
        assert(asks[n - 1] <= t.due);
        assert(asks[n - 1] == t.due);
    } else {
        let a1 = asks.drop_last();
        assert forall|i: int| 0 <= i < a1.len() implies is_next_due(pool, clock_before(start, a1, i), #[trigger] a1[i]) by {
            assert(a1[i] == asks[i]);
            assert(is_next_due(pool, clock_before(start, asks, i), asks[i]));
            if i > 0 {
                assert(a1[i - 1] == asks[i - 1]);
            }
        }
        assert forall|i: int| 0 <= i < a1.len() implies a1[i] >= #[trigger] a1[i] by {}
        assert forall|i: int| 0 <= i < a1.len() implies #[trigger] a1[i] > clock_before(start, a1, i) by {
            assert(a1[i] == asks[i]);
            assert(asks[i] > clock_before(start, asks, i));
            if i > 0 {
                assert(a1[i - 1] == asks[i - 1]);
            }
        }
        assert(n > 1);
        assert(clock_after(start, a1) == asks[n - 2]);
        lemma_due_is_asked(pool, start, a1, t);
        let k = choose|k: int| 0 <= k < a1.len() && a1[k] == t.due;
        assert(asks[k] == t.due);
    }
}

/// Runs `el` until nothing is pending, letting `driver` decide how time
/// advances to the next due timer.
///
/// The trace is the same as that of [`EventLoop::run_until_idle`]: both
/// queues, then every pending timer in firing order, whatever times the
/// driver reports, and every timer was due by the final clock. Each wait
/// asks the driver for the earliest pending due time later than the clock,
/// and the clock moves to the answer. For a driver that records its calls
/// (see [`LoopDriver`]) this is stated over the record: the final clock is
/// the last answer (or the start clock when nothing was asked), and when the
/// driver answered exactly what it was asked, the asks are the distinct due
/// times later than the start clock in ascending order and the final clock
/// is the one `run_until_idle` reaches.
pub fn drive_until_idle<D: LoopDriver + ?Sized>(el: &mut EventLoop, driver: &mut D) -> (trace: Vec<Executed>)
    requires
        old(el).wf(),
    ensures
        final(el).wf(),
        trace@ == old(el).idle_trace(),
        final(el).next_ticks() == Seq::<u64>::empty(),
        final(el).microtasks() == Seq::<u64>::empty(),
        final(el).timers() == Seq::<TimerEntry>::empty(),
        final(el).timers_scheduled() == old(el).timers_scheduled(),
        final(el).clock() >= old(el).clock(),
        forall|t: TimerEntry| #[trigger] old(el).timers().contains(t) ==> t.due <= final(el).clock(),
        old(driver).records_calls() ==> {
            &&& final(driver).records_calls()
            &&& final(driver).asked().take(old(driver).asked().len() as int) == old(driver).asked()
            &&& final(driver).answered().take(old(driver).answered().len() as int)
                == old(driver).answered()
            &&& waits_follow(
                old(el).timers(),
                old(el).clock(),
                calls_since(old(driver).asked(), final(driver).asked()),
                calls_since(old(driver).answered(), final(driver).answered()),
            )
            &&& final(el).clock() == clock_after(
                old(el).clock(),
                calls_since(old(driver).answered(), final(driver).answered()),
            )
            &&& (calls_since(old(driver).asked(), final(driver).asked()) == calls_since(
                old(driver).answered(),
                final(driver).answered(),
            ) ==> {
                &&& strictly_increasing(calls_since(old(driver).asked(), final(driver).asked()))
                &&& lists_later_dues(
                    calls_since(old(driver).asked(), final(driver).asked()),
                    old(el).timers(),
                    old(el).clock(),
                )
                &&& (final(el).clock() == old(el).clock() || exists|t: TimerEntry|
                    #[trigger] old(el).timers().contains(t) && t.due == final(el).clock())
            })
        },
{
    let mut trace: Vec<Executed> = Vec::new();
    let ghost p0 = old(el).queued_trace();
    let ghost t0 = el.timers();
    let ghost start = el.clock();
    let ghost mut fired: Seq<TimerEntry> = Seq::empty();
    let ghost asked0 = driver.asked();
    let ghost answered0 = driver.answered();
    let ghost mut asks: Seq<u64> = Seq::empty();
    let ghost mut answers: Seq<u64> = Seq::empty();
    proof {
        assert(asked0 + asks =~= asked0);
        assert(answered0 + answers =~= answered0);
        assert(crate::event_loop::timer_trace(fired) =~= Seq::<Executed>::empty());
        assert(trace@ + el.queued_trace() =~= p0 + crate::event_loop::timer_trace(fired));
    }
    loop
        invariant
            el.idle_progress(trace@, fired, t0, p0, start),
            el.timers_scheduled() == old(el).timers_scheduled(),
            t0 == old(el).timers(),
            start == old(el).clock(),
            p0 == old(el).queued_trace(),
            asked0 == old(driver).asked(),
            answered0 == old(driver).answered(),
            old(driver).records_calls() ==> driver.records_calls(),
            old(driver).records_calls() ==> driver.asked() == asked0 + asks,
            old(driver).records_calls() ==> driver.answered() == answered0 + answers,
            waits_follow(t0, start, asks, answers),
            el.clock() == clock_after(start, answers),
        ensures
            el.idle_progress(trace@, fired, t0, p0, start),
            el.timers_scheduled() == old(el).timers_scheduled(),
            old(driver).records_calls() ==> driver.records_calls(),
            old(driver).records_calls() ==> driver.asked() == asked0 + asks,
            old(driver).records_calls() ==> driver.answered() == answered0 + answers,
            waits_follow(t0, start, asks, answers),
            el.clock() == clock_after(start, answers),
            el.queued_trace() == Seq::<Executed>::empty(),
            el.timers() == Seq::<TimerEntry>::empty(),
        decreases el.idle_measure(),
    {
        let ghost measure = el.idle_measure();
        let f2 = el.run_ready_into(&mut trace, Ghost(fired), Ghost(t0), Ghost(p0), Ghost(start));
        proof {
            fired = f2@;
        }
        match el.next_timer_due() {
            Some(due) => {
                let ghost c = el.clock();
                proof {
                    let j = choose|j: int| 0 <= j < el.timers().len() && #[trigger] el.timers()[j].due == due;
                    assert(el.timers().contains(el.timers()[j]));
                    assert(due > c);
                    assert(t0.contains(el.timers()[j]));
                    assert forall|t: TimerEntry| #[trigger] t0.contains(t) && t.due > c implies due <= t.due by {
                        if fired.contains(t) {
                        } else {
                            assert(el.timers().contains(t));
                            let k = choose|k: int| 0 <= k < el.timers().len() && el.timers()[k] == t;
                            assert(due <= el.timers()[k].due);
                        }
                    }
                    reveal(is_next_due);
                    assert(is_next_due(t0, c, due));
                }
                let now = driver.wait_until(due);
                el.advance_to(now);
                proof {
                    let a2 = asks.push(due);
                    let b2 = answers.push(now);
                    if old(driver).records_calls() {
                        assert(driver.asked() =~= asked0 + a2);
                        assert(driver.answered() =~= answered0 + b2);
                    }
                    assert forall|i: int| 0 <= i < a2.len() implies is_next_due(t0, clock_before(start, b2, i), #[trigger] a2[i]) by {
                        if i < asks.len() {
                            assert(a2[i] == asks[i]);
                            assert(is_next_due(t0, clock_before(start, answers, i), asks[i]));
                            if i > 0 {
                                assert(b2[i - 1] == answers[i - 1]);
                            }
                        } else {
                            if i > 0 {
                                assert(b2[i - 1] == answers[i - 1]);
                            }
                        }
                    }
                    assert forall|i: int| 0 <= i < a2.len() implies #[trigger] a2[i] > clock_before(start, b2, i) by {
                        if i < asks.len() {
                            assert(a2[i] == asks[i]);
                            assert(asks[i] > clock_before(start, answers, i));
                        }
                        if i > 0 {
                            assert(b2[i - 1] == answers[i - 1]);
                        }
                    }
                    assert forall|i: int| 0 <= i < a2.len() implies b2[i] >= #[trigger] a2[i] by {
                        if i < asks.len() {
                            assert(a2[i] == asks[i] && b2[i] == answers[i]);
                        }
                    }
                    assert(el.clock() == now);
                    asks = a2;
                    answers = b2;
                    let j = choose|j: int| 0 <= j < el.timers().len() && #[trigger] el.timers()[j].due == due;
                    assert(el.timers()[j].due <= el.clock());
                    assert(crate::event_loop::has_due(el.timers(), el.clock()));
                    assert(el.idle_measure() < measure);
                }
            },
            None => {
                proof {
                    assert(el.timers() =~= Seq::<TimerEntry>::empty());
                }
                break;
            },
        }
    }
    proof {
        el.lemma_idle_progress_done(trace@, fired, t0, p0, start);
        if old(driver).records_calls() {
            assert(calls_since(asked0, driver.asked()) =~= asks);
            assert(calls_since(answered0, driver.answered()) =~= answers);
            assert(driver.asked().take(asked0.len() as int) =~= asked0);
            assert(driver.answered().take(answered0.len() as int) =~= answered0);
            if asks == answers {
                lemma_exact_waits(t0, start, asks);
            }
        }
    }
    trace
}

} // verus!
