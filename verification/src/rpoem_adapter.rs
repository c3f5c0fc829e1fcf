//! Integration boundary for RPoem.
//!
//! RPoem owns I/O and HTTP; this crate owns the Node.js-style ordering model
//! ([`EventLoop`]). [`TaskSubmitter`] is how request handlers submit tasks,
//! and [`RPoemAdapter`] bundles the model with a [`LoopDriver`].
use crate::event_loop::{EventLoop, Executed, TaskId, TimerEntry};
use crate::runtime::{
    calls_since, clock_after, drive_until_idle, lists_later_dues, strictly_increasing, waits_follow,
    LoopDriver,
};
use vstd::prelude::*;

verus! {

/// Submits tasks to an event loop, as an RPoem request handler would.
pub trait TaskSubmitter {
    /// The submitter can take one more timer.
    spec fn accepts_timer(&self) -> bool;

    /// Submits a `process.nextTick(id)` task.
    fn submit_next_tick(&mut self, id: TaskId);

    /// Submits a Promise `then` microtask.
    fn submit_microtask(&mut self, id: TaskId);

    /// Submits a `setTimeout(id, delay_ms)` timer.
    fn submit_timer(&mut self, id: TaskId, delay_ms: u64)
        requires
            old(self).accepts_timer(),
    ;
}

/// An event loop together with the driver that runs it.
pub struct RPoemAdapter<D: LoopDriver> {
    event_loop: EventLoop,
    driver: D,
}

impl<D: LoopDriver> RPoemAdapter<D> {
    /// The event loop inside the adapter.
    pub closed spec fn loop_state(&self) -> EventLoop {
        self.event_loop
    }

    /// The driver inside the adapter.
    pub closed spec fn driver_state(&self) -> D {
        self.driver
    }

    /// An adapter with an empty event loop and the given driver.
    pub fn new(driver: D) -> (a: Self)
        ensures
            a.loop_state().wf(),
            a.loop_state().next_ticks() == Seq::<TaskId>::empty(),
            a.loop_state().microtasks() == Seq::<TaskId>::empty(),
            a.loop_state().timers() == Seq::<TimerEntry>::empty(),
            a.loop_state().clock() == 0,
            a.loop_state().timers_scheduled() == 0,
            a.driver_state() == driver,
    {
        RPoemAdapter { event_loop: EventLoop::new(), driver }
    }

    /// The event loop, for queries other than submitting tasks.
    pub fn event_loop(&self) -> (el: &EventLoop)
        ensures
            *el == self.loop_state(),
    {
        &self.event_loop
    }

    /// Runs the event loop with the driver until nothing is pending.
    pub fn drive_until_idle(&mut self) -> (trace: Vec<Executed>)
        requires
            old(self).loop_state().wf(),
        ensures
            final(self).loop_state().wf(),
            trace@ == old(self).loop_state().idle_trace(),
            final(self).loop_state().next_ticks() == Seq::<TaskId>::empty(),
            final(self).loop_state().microtasks() == Seq::<TaskId>::empty(),
            final(self).loop_state().timers() == Seq::<TimerEntry>::empty(),
            final(self).loop_state().timers_scheduled() == old(self).loop_state().timers_scheduled(),
            final(self).loop_state().clock() >= old(self).loop_state().clock(),
            forall|t: TimerEntry| #[trigger] old(self).loop_state().timers().contains(t)
                ==> t.due <= final(self).loop_state().clock(),
            old(self).driver_state().records_calls() ==> {
                &&& final(self).driver_state().records_calls()
                &&& final(self).driver_state().asked().take(
                    old(self).driver_state().asked().len() as int,
                ) == old(self).driver_state().asked()
                &&& final(self).driver_state().answered().take(
                    old(self).driver_state().answered().len() as int,
                ) == old(self).driver_state().answered()
                &&& waits_follow(
                    old(self).loop_state().timers(),
                    old(self).loop_state().clock(),
                    calls_since(old(self).driver_state().asked(), final(self).driver_state().asked()),
                    calls_since(
                        old(self).driver_state().answered(),
                        final(self).driver_state().answered(),
                    ),
                )
                &&& final(self).loop_state().clock() == clock_after(
                    old(self).loop_state().clock(),
                    calls_since(
                        old(self).driver_state().answered(),
                        final(self).driver_state().answered(),
                    ),
                )
                &&& (calls_since(
                    old(self).driver_state().asked(),
                    final(self).driver_state().asked(),
                ) == calls_since(
                    old(self).driver_state().answered(),
                    final(self).driver_state().answered(),
                ) ==> {
                    &&& strictly_increasing(
                        calls_since(
                            old(self).driver_state().asked(),
                            final(self).driver_state().asked(),
                        ),
                    )
                    &&& lists_later_dues(
                        calls_since(
                            old(self).driver_state().asked(),
                            final(self).driver_state().asked(),
                        ),
                        old(self).loop_state().timers(),
                        old(self).loop_state().clock(),
                    )
                    &&& (final(self).loop_state().clock() == old(self).loop_state().clock()
                        || exists|t: TimerEntry|
                        #[trigger] old(self).loop_state().timers().contains(t)
                            && t.due == final(self).loop_state().clock())
                })
            },
    {
        drive_until_idle(&mut self.event_loop, &mut self.driver)
    }
}

impl<D: LoopDriver> TaskSubmitter for RPoemAdapter<D> {
    open spec fn accepts_timer(&self) -> bool {
        self.loop_state().timers_scheduled() < u64::MAX
    }

    fn submit_next_tick(&mut self, id: TaskId)
        ensures
            final(self).loop_state().next_ticks() == old(self).loop_state().next_ticks().push(id),
            final(self).loop_state().microtasks() == old(self).loop_state().microtasks(),
            final(self).loop_state().timers() == old(self).loop_state().timers(),
            final(self).loop_state().clock() == old(self).loop_state().clock(),
            final(self).loop_state().timers_scheduled() == old(self).loop_state().timers_scheduled(),
            final(self).loop_state().wf() == old(self).loop_state().wf(),
            final(self).driver_state() == old(self).driver_state(),
    {
        self.event_loop.schedule_next_tick(id);
    }

    fn submit_microtask(&mut self, id: TaskId)
        ensures
            final(self).loop_state().next_ticks() == old(self).loop_state().next_ticks(),
            final(self).loop_state().microtasks() == old(self).loop_state().microtasks().push(id),
            final(self).loop_state().timers() == old(self).loop_state().timers(),
            final(self).loop_state().clock() == old(self).loop_state().clock(),
            final(self).loop_state().timers_scheduled() == old(self).loop_state().timers_scheduled(),
            final(self).loop_state().wf() == old(self).loop_state().wf(),
            final(self).driver_state() == old(self).driver_state(),
    {
        self.event_loop.schedule_microtask(id);
    }

    fn submit_timer(&mut self, id: TaskId, delay_ms: u64)
        ensures
            final(self).loop_state().timers() == old(self).loop_state().timers().push(
                TimerEntry {
                    due: if old(self).loop_state().clock() + delay_ms > u64::MAX {
                        u64::MAX
                    } else {
                        (old(self).loop_state().clock() + delay_ms) as u64
                    },
                    seq: old(self).loop_state().timers_scheduled(),
                    id,
                },
            ),
            final(self).loop_state().timers_scheduled() == old(self).loop_state().timers_scheduled() + 1,
            final(self).loop_state().next_ticks() == old(self).loop_state().next_ticks(),
            final(self).loop_state().microtasks() == old(self).loop_state().microtasks(),
            final(self).loop_state().clock() == old(self).loop_state().clock(),
            old(self).loop_state().wf() ==> final(self).loop_state().wf(),
            final(self).driver_state() == old(self).driver_state(),
    {
        self.event_loop.schedule_timer(id, delay_ms);
    }
}

} // verus!
