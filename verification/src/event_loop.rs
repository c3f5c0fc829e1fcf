//! Ordering model of the Node.js event loop.
//!
//! The model tracks which queue a task sits in and in which order tasks run,
//! over a logical clock that the caller advances; nothing here reads real time.
//!
//! - next-tick queue (`process.nextTick`): drained first, completely.
//! - microtask queue (Promise `then`): drained after the next-tick queue.
//! - timer phase (`setTimeout`): due timers run by (due time, registration
//!   order), and after each one both queues are drained again.
//!
//! Running a task means appending its id to the returned trace.
use std::collections::VecDeque;
use vstd::prelude::*;

verus! {

broadcast use vstd::std_specs::vecdeque::group_vec_dequeue_axioms;

/// Identifier of a scheduled task; traces record these ids.
pub type TaskId = u64;

/// The queue a task came from.
#[derive(Debug, Clone, Copy, PartialEq, Eq)]
pub enum TaskKind {
    /// `process.nextTick`.
    NextTick,
    /// A Promise `then` reaction.
    Microtask,
    /// A `setTimeout` callback.
    Timer,
}

/// One entry of an execution trace.
#[derive(Debug, Clone, Copy, PartialEq, Eq)]
pub struct Executed {
    pub kind: TaskKind,
    pub id: TaskId,
}

/// A pending timer: its due time, its registration number and its task id.
#[derive(Debug, Clone, Copy, PartialEq, Eq)]
pub struct TimerEntry {
    /// Logical time at which the timer becomes due.
    pub due: u64,
    /// Registration number, the tie-break between timers due at the same time.
    pub seq: u64,
    pub id: TaskId,
}

/// Timer `a` runs before timer `b`: earlier due time, or the same due time
/// and earlier registration.
pub open spec fn fires_before(a: TimerEntry, b: TimerEntry) -> bool {
    a.due < b.due || (a.due == b.due && a.seq < b.seq)
}

/// Every earlier element of `s` fires before every later one.
pub open spec fn strictly_ordered(s: Seq<TimerEntry>) -> bool {
    forall|i: int, j: int| 0 <= i < j < s.len() ==> fires_before(#[trigger] s[i], #[trigger] s[j])
}

/// `f` lists exactly the timers of `pool` that are due at time `limit`,
/// in firing order.
pub open spec fn is_fire_order(f: Seq<TimerEntry>, pool: Seq<TimerEntry>, limit: u64) -> bool {
    &&& strictly_ordered(f)
    &&& forall|t: TimerEntry| #[trigger] f.contains(t) <==> (pool.contains(t) && t.due <= limit)
}

/// The order in which the timers of `pool` that are due at `limit` fire.
pub open spec fn fire_order(pool: Seq<TimerEntry>, limit: u64) -> Seq<TimerEntry> {
    choose|f: Seq<TimerEntry>| is_fire_order(f, pool, limit)
}

pub open spec fn tick_exec(id: TaskId) -> Executed {
    Executed { kind: TaskKind::NextTick, id }
}

pub open spec fn micro_exec(id: TaskId) -> Executed {
    Executed { kind: TaskKind::Microtask, id }
}

pub open spec fn timer_exec(t: TimerEntry) -> Executed {
    Executed { kind: TaskKind::Timer, id: t.id }
}

/// Trace entries for running the next-tick ids `ids` in order.
pub open spec fn tick_trace(ids: Seq<TaskId>) -> Seq<Executed> {
    ids.map_values(|id: TaskId| tick_exec(id))
}

/// Trace entries for running the microtask ids `ids` in order.
pub open spec fn micro_trace(ids: Seq<TaskId>) -> Seq<Executed> {
    ids.map_values(|id: TaskId| micro_exec(id))
}

/// Trace entries for running the timers `f` in order.
pub open spec fn timer_trace(f: Seq<TimerEntry>) -> Seq<Executed> {
    f.map_values(|t: TimerEntry| timer_exec(t))
}

/// Two firing orders of the same pool are the same sequence: the order in
/// which due timers run is fully determined by their due times and
/// registration numbers.
pub proof fn lemma_fire_order_unique(
    f: Seq<TimerEntry>,
    g: Seq<TimerEntry>,
    pool: Seq<TimerEntry>,
    limit: u64,
)
    requires
        is_fire_order(f, pool, limit),
        is_fire_order(g, pool, limit),
    ensures
        f == g,
{
    lemma_sorted_same_elements_equal(f, g);
}

proof fn lemma_sorted_same_elements_equal(f: Seq<TimerEntry>, g: Seq<TimerEntry>)
    requires
        strictly_ordered(f),
        strictly_ordered(g),
        forall|t: TimerEntry| f.contains(t) <==> g.contains(t),
    ensures
        f == g,
    decreases f.len(),
{
    if f.len() == 0 {
        if g.len() > 0 {
            assert(g.contains(g[0]));
        }
        assert(f =~= g);
    } else {
        assert(f.contains(f[0]));
        let k = choose|k: int| 0 <= k < g.len() && g[k] == f[0];
        assert(g.contains(g[0]));
        let m = choose|m: int| 0 <= m < f.len() && f[m] == g[0];
        if k > 0 {
            assert(fires_before(g[0], g[k]));
            if m > 0 {
                assert(fires_before(f[0], f[m]));
            }
            assert(false);
        }
        let f1 = f.drop_first();
        let g1 = g.drop_first();
        assert forall|t: TimerEntry| f1.contains(t) <==> g1.contains(t) by {
            if f1.contains(t) {
                let i = choose|i: int| 0 <= i < f1.len() && f1[i] == t;
                assert(fires_before(f[0], f[i + 1]));
                assert(g.contains(t));
                let j = choose|j: int| 0 <= j < g.len() && g[j] == t;
                if j == 0 {
                    assert(false);
                }
                assert(g1[j - 1] == t);
            }
            if g1.contains(t) {
                let i = choose|i: int| 0 <= i < g1.len() && g1[i] == t;
                assert(fires_before(g[0], g[i + 1]));
                assert(f.contains(t));
                let j = choose|j: int| 0 <= j < f.len() && f[j] == t;
                if j == 0 {
                    assert(false);
                }
                assert(f1[j - 1] == t);
            }
        }
        assert forall|i: int, j: int| 0 <= i < j < f1.len() implies fires_before(
            #[trigger] f1[i],
            #[trigger] f1[j],
        ) by {
            assert(fires_before(f[i + 1], f[j + 1]));
        }
        assert forall|i: int, j: int| 0 <= i < j < g1.len() implies fires_before(
            #[trigger] g1[i],
            #[trigger] g1[j],
        ) by {
            assert(fires_before(g[i + 1], g[j + 1]));
        }
        lemma_sorted_same_elements_equal(f1, g1);
        assert(f =~= seq![f[0]] + f1);
        assert(g =~= seq![g[0]] + g1);
    }
}

/// Timers that are not yet due at time `now`.
pub open spec fn not_due(now: u64) -> spec_fn(TimerEntry) -> bool {
    |t: TimerEntry| t.due > now
}

proof fn lemma_filter_remove_rejected(s: Seq<TimerEntry>, i: int, p: spec_fn(TimerEntry) -> bool)
    requires
        0 <= i < s.len(),
        !p(s[i]),
    ensures
        s.remove(i).filter(p) == s.filter(p),
{
    let a = s.take(i);
    let x = seq![s[i]];
    let b = s.skip(i + 1);
    assert(s =~= a + x + b);
    assert(s.remove(i) =~= a + b);
    Seq::filter_distributes_over_add(a + x, b, p);
    Seq::filter_distributes_over_add(a, x, p);
    Seq::filter_distributes_over_add(a, b, p);
    reveal_with_fuel(Seq::filter, 2);
    assert(x.drop_last() =~= Seq::<TimerEntry>::empty());
    assert(x.filter(p) =~= Seq::<TimerEntry>::empty());
}

proof fn lemma_filter_keeps_all(s: Seq<TimerEntry>, p: spec_fn(TimerEntry) -> bool)
    requires
        forall|i: int| 0 <= i < s.len() ==> p(#[trigger] s[i]),
    ensures
        s.filter(p) == s,
    decreases s.len(),
{
    reveal(Seq::filter);
    if s.len() > 0 {
        lemma_filter_keeps_all(s.drop_last(), p);
        assert(s.drop_last().push(s.last()) =~= s);
    }
}

/// Registration numbers in `timers` are distinct and all below `next_seq`.
spec fn timers_wf(timers: Seq<TimerEntry>, next_seq: u64) -> bool {
    &&& forall|i: int, j: int|
        0 <= i < timers.len() && 0 <= j < timers.len() && i != j
            ==> #[trigger] timers[i].seq != #[trigger] timers[j].seq
    &&& forall|i: int| 0 <= i < timers.len() ==> #[trigger] timers[i].seq < next_seq
}

/// Some timer in `s` is due at time `now`.
pub open spec fn has_due(s: Seq<TimerEntry>, now: u64) -> bool {
    exists|i: int| 0 <= i < s.len() && #[trigger] s[i].due <= now
}

proof fn lemma_filter_contains_iff(s: Seq<TimerEntry>, p: spec_fn(TimerEntry) -> bool, x: TimerEntry)
    ensures
        s.filter(p).contains(x) <==> (s.contains(x) && p(x)),
{
    broadcast use vstd::seq_lib::group_filter_ensures;
    if s.filter(p).contains(x) {
        s.lemma_filter_contains_rev(p, x);
        let j = choose|j: int| 0 <= j < s.filter(p).len() && s.filter(p)[j] == x;
        s.lemma_filter_pred(p, j);
    }
    if s.contains(x) && p(x) {
        let j = choose|j: int| 0 <= j < s.len() && s[j] == x;
        s.lemma_filter_contains(p, j);
    }
}

proof fn lemma_filter_shrinks(s: Seq<TimerEntry>, p: spec_fn(TimerEntry) -> bool, i: int)
    requires
        0 <= i < s.len(),
        !p(s[i]),
    ensures
        s.filter(p).len() < s.len(),
{
    lemma_filter_remove_rejected(s, i, p);
    s.remove(i).lemma_filter_len(p);
}

/// When no timer of `pool` is due at `limit`, none fires.
pub proof fn lemma_nothing_due_fires_nothing(pool: Seq<TimerEntry>, limit: u64)
    requires
        forall|i: int| 0 <= i < pool.len() ==> #[trigger] pool[i].due > limit,
    ensures
        fire_order(pool, limit) == Seq::<TimerEntry>::empty(),
{
    let e = Seq::<TimerEntry>::empty();
    assert forall|t: TimerEntry| #[trigger] e.contains(t) <==> (pool.contains(t) && t.due <= limit) by {
        if pool.contains(t) {
            let j = choose|j: int| 0 <= j < pool.len() && pool[j] == t;
            assert(pool[j].due > limit);
        }
    }
    assert(is_fire_order(e, pool, limit));
    lemma_fire_order_unique(e, fire_order(pool, limit), pool, limit);
}

/// The event loop model.
///
/// The logical clock is moved forward only by [`EventLoop::advance_to`]
/// (and by [`EventLoop::run_until_idle`], which advances it to due timers).
#[derive(Debug)]
pub struct EventLoop {
    next_tick_queue: VecDeque<TaskId>,
    microtask_queue: VecDeque<TaskId>,
    timers: Vec<TimerEntry>,
    /// Current logical time.
    now: u64,
    /// Registration number that the next timer receives.
    timer_seq: u64,
}

impl EventLoop {
    /// Well-formedness: registration numbers of pending timers are distinct
    /// and all below the number that the next timer will receive.
    pub closed spec fn wf(&self) -> bool {
        timers_wf(self.timers@, self.timer_seq)
    }

    /// Pending next-tick ids, oldest first.
    pub closed spec fn next_ticks(&self) -> Seq<TaskId> {
        self.next_tick_queue@
    }

    /// Pending microtask ids, oldest first.
    pub closed spec fn microtasks(&self) -> Seq<TaskId> {
        self.microtask_queue@
    }

    /// Pending timers, in registration order.
    pub closed spec fn timers(&self) -> Seq<TimerEntry> {
        self.timers@
    }

    /// The logical clock.
    pub closed spec fn clock(&self) -> u64 {
        self.now
    }

    /// How many timers were ever scheduled (the next registration number).
    pub closed spec fn timers_scheduled(&self) -> u64 {
        self.timer_seq
    }

    /// What draining both queues appends to a trace.
    pub open spec fn queued_trace(&self) -> Seq<Executed> {
        tick_trace(self.next_ticks()) + micro_trace(self.microtasks())
    }

    /// What running until idle appends to a trace: both queues, then every
    /// pending timer in firing order.
    pub open spec fn idle_trace(&self) -> Seq<Executed> {
        self.queued_trace() + timer_trace(fire_order(self.timers(), u64::MAX))
    }

    /// An empty event loop at logical time 0.
    pub fn new() -> (el: Self)
        ensures
            el.next_ticks() == Seq::<TaskId>::empty(),
            el.microtasks() == Seq::<TaskId>::empty(),
            el.timers() == Seq::<TimerEntry>::empty(),
            el.clock() == 0,
            el.timers_scheduled() == 0,
            el.wf(),
    {
        EventLoop {
            next_tick_queue: VecDeque::new(),
            microtask_queue: VecDeque::new(),
            timers: Vec::new(),
            now: 0,
            timer_seq: 0,
        }
    }

    /// The current logical time.
    pub fn now(&self) -> (t: u64)
        ensures
            t == self.clock(),
    {
        self.now
    }

    /// `process.nextTick(id)`.
    pub fn schedule_next_tick(&mut self, id: TaskId)
        ensures
            final(self).next_ticks() == old(self).next_ticks().push(id),
            final(self).microtasks() == old(self).microtasks(),
            final(self).timers() == old(self).timers(),
            final(self).clock() == old(self).clock(),
            final(self).timers_scheduled() == old(self).timers_scheduled(),
            final(self).wf() == old(self).wf(),
    {
        self.next_tick_queue.push_back(id);
    }

    /// Queues a Promise `then` reaction.
    pub fn schedule_microtask(&mut self, id: TaskId)
        ensures
            final(self).next_ticks() == old(self).next_ticks(),
            final(self).microtasks() == old(self).microtasks().push(id),
            final(self).timers() == old(self).timers(),
            final(self).clock() == old(self).clock(),
            final(self).timers_scheduled() == old(self).timers_scheduled(),
            final(self).wf() == old(self).wf(),
    {
        self.microtask_queue.push_back(id);
    }

    /// `setTimeout(id, delay_ms)`: due at the current time plus `delay_ms`
    /// (saturating at `u64::MAX`).
    pub fn schedule_timer(&mut self, id: TaskId, delay_ms: u64)
        requires
            old(self).timers_scheduled() < u64::MAX,
        ensures
            final(self).timers() == old(self).timers().push(
                TimerEntry {
                    due: if old(self).clock() + delay_ms > u64::MAX {
                        u64::MAX
                    } else {
                        (old(self).clock() + delay_ms) as u64
                    },
                    seq: old(self).timers_scheduled(),
                    id,
                },
            ),
            final(self).timers_scheduled() == old(self).timers_scheduled() + 1,
            final(self).next_ticks() == old(self).next_ticks(),
            final(self).microtasks() == old(self).microtasks(),
            final(self).clock() == old(self).clock(),
            old(self).wf() ==> final(self).wf(),
    {
        let entry = TimerEntry { due: self.now.saturating_add(delay_ms), seq: self.timer_seq, id };
        self.timer_seq = self.timer_seq + 1;
        self.timers.push(entry);
    }

    /// Moves the logical clock forward to `to`; it never goes back.
    pub fn advance_to(&mut self, to: u64)
        ensures
            final(self).clock() == if to > old(self).clock() {
                to
            } else {
                old(self).clock()
            },
            final(self).next_ticks() == old(self).next_ticks(),
            final(self).microtasks() == old(self).microtasks(),
            final(self).timers() == old(self).timers(),
            final(self).timers_scheduled() == old(self).timers_scheduled(),
            final(self).wf() == old(self).wf(),
    {
        if to > self.now {
            self.now = to;
        }
    }

    /// The earliest due time among pending timers (due or not), or `None`
    /// when no timer is pending.
    pub fn next_timer_due(&self) -> (r: Option<u64>)
        ensures
            r is None <==> self.timers().len() == 0,
            r matches Some(d) ==> {
                &&& exists|i: int| 0 <= i < self.timers().len() && #[trigger] self.timers()[i].due == d
                &&& forall|i: int| 0 <= i < self.timers().len() ==> d <= #[trigger] self.timers()[i].due
            },
    {
        let n = self.timers.len();
        if n == 0 {
            return None;
        }
        let mut best: u64 = self.timers[0].due;
        let mut k: usize = 1;
        while k < n
            invariant
                n == self.timers@.len(),
                1 <= k <= n,
                exists|i: int| 0 <= i < k && #[trigger] self.timers@[i].due == best,
                forall|i: int| 0 <= i < k ==> best <= #[trigger] self.timers@[i].due,
            decreases n - k,
        {
            if self.timers[k].due < best {
                best = self.timers[k].due;
            }
            k = k + 1;
        }
        Some(best)
    }

    /// True when no task of any kind is pending (a timer that is not yet due
    /// still counts as pending).
    pub fn is_idle(&self) -> (b: bool)
        ensures
            b <==> (self.next_ticks().len() == 0 && self.microtasks().len() == 0
                && self.timers().len() == 0),
    {
        self.next_tick_queue.len() == 0 && self.microtask_queue.len() == 0 && self.timers.len() == 0
    }

    /// Drains the next-tick queue, then the microtask queue, appending what
    /// runs to `trace`.
    fn drain_ticks_and_microtasks(&mut self, trace: &mut Vec<Executed>)
        ensures
            final(trace)@ == old(trace)@ + old(self).queued_trace(),
            final(self).next_ticks() == Seq::<TaskId>::empty(),
            final(self).microtasks() == Seq::<TaskId>::empty(),
            final(self).timers() == old(self).timers(),
            final(self).clock() == old(self).clock(),
            final(self).timers_scheduled() == old(self).timers_scheduled(),
    {
        let ghost t0 = trace@;
        let ghost nt0 = self.next_tick_queue@;
        let ghost mt0 = self.microtask_queue@;
        loop
            invariant
                self.timers@ == old(self).timers@,
                self.now == old(self).now,
                self.timer_seq == old(self).timer_seq,
                t0 == old(trace)@,
                nt0 == old(self).next_tick_queue@,
                mt0 == old(self).microtask_queue@,
                self.next_tick_queue@.len() <= nt0.len(),
                self.microtask_queue@.len() <= mt0.len(),
                self.next_tick_queue@ == nt0.subrange(
                    nt0.len() - self.next_tick_queue@.len(),
                    nt0.len() as int,
                ),
                self.microtask_queue@ == mt0.subrange(
                    mt0.len() - self.microtask_queue@.len(),
                    mt0.len() as int,
                ),
                self.next_tick_queue@.len() > 0 ==> self.microtask_queue@ == mt0,
                trace@ == t0 + tick_trace(nt0.subrange(0, nt0.len() - self.next_tick_queue@.len()))
                    + micro_trace(mt0.subrange(0, mt0.len() - self.microtask_queue@.len())),
            ensures
                self.next_tick_queue@.len() == 0,
                self.microtask_queue@.len() == 0,
                self.timers@ == old(self).timers@,
                self.now == old(self).now,
                self.timer_seq == old(self).timer_seq,
                trace@ == t0 + tick_trace(nt0) + micro_trace(mt0),
            decreases self.next_tick_queue@.len() + self.microtask_queue@.len(),
        {
            let ghost k1 = nt0.len() - self.next_tick_queue@.len();
            let ghost k2 = mt0.len() - self.microtask_queue@.len();
            if let Some(id) = self.next_tick_queue.pop_front() {
                trace.push(Executed { kind: TaskKind::NextTick, id });
                proof {
                    assert(id == nt0[k1]);
                    assert(nt0.subrange(0, k1 + 1) =~= nt0.subrange(0, k1).push(id));
                    assert(tick_trace(nt0.subrange(0, k1 + 1)) =~= tick_trace(
                        nt0.subrange(0, k1),
                    ).push(tick_exec(id)));
                    assert(k2 == 0);
                    assert(micro_trace(mt0.subrange(0, 0)) =~= Seq::<Executed>::empty());
                    assert(self.next_tick_queue@ =~= nt0.subrange(
                        nt0.len() - self.next_tick_queue@.len(),
                        nt0.len() as int,
                    ));
                }
                continue;
            }
            if let Some(id) = self.microtask_queue.pop_front() {
                trace.push(Executed { kind: TaskKind::Microtask, id });
                proof {
                    assert(id == mt0[k2]);
                    assert(mt0.subrange(0, k2 + 1) =~= mt0.subrange(0, k2).push(id));
                    assert(micro_trace(mt0.subrange(0, k2 + 1)) =~= micro_trace(
                        mt0.subrange(0, k2),
                    ).push(micro_exec(id)));
                    assert(self.microtask_queue@ =~= mt0.subrange(
                        mt0.len() - self.microtask_queue@.len(),
                        mt0.len() as int,
                    ));
                }
                continue;
            }
            proof {
                assert(nt0.subrange(0, nt0.len() as int) =~= nt0);
                assert(mt0.subrange(0, mt0.len() as int) =~= mt0);
            }
            break;
        }
        proof {
            assert(trace@ =~= old(trace)@ + old(self).queued_trace());
        }
    }

    /// Index of the due timer that fires first, if any timer is due.
    fn min_ready_index(&self) -> (r: Option<usize>)
        requires
            self.wf(),
        ensures
            r is None ==> forall|j: int|
                0 <= j < self.timers@.len() ==> #[trigger] self.timers@[j].due > self.now,
            r matches Some(b) ==> {
                &&& b < self.timers@.len()
                &&& self.timers@[b as int].due <= self.now
                &&& forall|j: int|
                    0 <= j < self.timers@.len() && j != b && #[trigger] self.timers@[j].due <= self.now
                        ==> fires_before(self.timers@[b as int], self.timers@[j])
            },
    {
        let n = self.timers.len();
        let mut best: Option<usize> = None;
        let mut i: usize = 0;
        while i < n
            invariant
                self.wf(),
                n == self.timers@.len(),
                i <= n,
                best is None ==> forall|j: int| 0 <= j < i ==> #[trigger] self.timers@[j].due > self.now,
                best matches Some(b) ==> {
                    &&& b < i
                    &&& self.timers@[b as int].due <= self.now
                    &&& forall|j: int|
                        0 <= j < i && j != b && #[trigger] self.timers@[j].due <= self.now
                            ==> fires_before(self.timers@[b as int], self.timers@[j])
                },
            decreases n - i,
        {
            let t = self.timers[i];
            if t.due <= self.now {
                match best {
                    None => {
                        best = Some(i);
                    },
                    Some(b) => {
                        let bt = self.timers[b];
                        if t.due < bt.due || (t.due == bt.due && t.seq < bt.seq) {
                            best = Some(i);
                        }
                    },
                }
            }
            i = i + 1;
        }
        best
    }

    /// Runs everything that can run at the current logical time and returns
    /// the trace: first both queues are drained, then the due timers run in
    /// firing order, with both queues drained again after each one. Timers
    /// that are not yet due stay pending.
    pub fn run_ready(&mut self) -> (trace: Vec<Executed>)
        requires
            old(self).wf(),
        ensures
            final(self).wf(),
            trace@ == old(self).queued_trace() + timer_trace(
                fire_order(old(self).timers(), old(self).clock()),
            ),
            is_fire_order(
                fire_order(old(self).timers(), old(self).clock()),
                old(self).timers(),
                old(self).clock(),
            ),
            final(self).next_ticks() == Seq::<TaskId>::empty(),
            final(self).microtasks() == Seq::<TaskId>::empty(),
            final(self).timers() == old(self).timers().filter(not_due(old(self).clock())),
            final(self).clock() == old(self).clock(),
            final(self).timers_scheduled() == old(self).timers_scheduled(),
    {
        let mut trace: Vec<Executed> = Vec::new();
        self.drain_ticks_and_microtasks(&mut trace);
        let ghost now = self.now;
        let ghost t0 = self.timers@;
        let ghost p0 = trace@;
        let ghost mut fired: Seq<TimerEntry> = Seq::empty();
        assert(timer_trace(fired) =~= Seq::<Executed>::empty());
        assert(p0 + timer_trace(fired) =~= p0);
        loop
            invariant
                self.wf(),
                self.now == now,
                now == old(self).now,
                self.timer_seq == old(self).timer_seq,
                t0 == old(self).timers@,
                p0 == old(self).queued_trace(),
                self.next_tick_queue@ == Seq::<TaskId>::empty(),
                self.microtask_queue@ == Seq::<TaskId>::empty(),
                trace@ == p0 + timer_trace(fired),
                strictly_ordered(fired),
                forall|t: TimerEntry| #[trigger] fired.contains(t) ==> t0.contains(t) && t.due <= now,
                forall|t: TimerEntry|
                    #[trigger] self.timers@.contains(t) && t.due <= now ==> t0.contains(t),
                forall|t: TimerEntry|
                    #[trigger] t0.contains(t) && t.due <= now ==> fired.contains(t)
                        || self.timers@.contains(t),
                forall|i: int, t: TimerEntry|
                    0 <= i < fired.len() && #[trigger] self.timers@.contains(t) && t.due <= now
                        ==> fires_before(#[trigger] fired[i], t),
                self.timers@.filter(not_due(now)) == t0.filter(not_due(now)),
            ensures
                self.wf(),
                self.now == now,
                self.timer_seq == old(self).timer_seq,
                self.next_tick_queue@ == Seq::<TaskId>::empty(),
                self.microtask_queue@ == Seq::<TaskId>::empty(),
                trace@ == p0 + timer_trace(fired),
                is_fire_order(fired, t0, now),
                self.timers@ == t0.filter(not_due(now)),
            decreases self.timers@.len(),
        {
            match self.min_ready_index() {
                Some(i) => {
                    let ghost before = self.timers@;
                    let entry = self.timers.remove(i);
                    trace.push(Executed { kind: TaskKind::Timer, id: entry.id });
                    proof {
                        assert(entry == before[i as int]);
                        assert(before.remove(i as int) == self.timers@);
                        lemma_filter_remove_rejected(before, i as int, not_due(now));
                        assert forall|t: TimerEntry| #[trigger] self.timers@.contains(t) implies before.contains(t) by {
                            let j = choose|j: int| 0 <= j < self.timers@.len() && self.timers@[j] == t;
                            if j < i {
                                assert(before[j] == t);
                            } else {
                                assert(before[j + 1] == t);
                            }
                        }
                        assert forall|t: TimerEntry| #[trigger] before.contains(t) && t != entry implies self.timers@.contains(t) by {
                            let j = choose|j: int| 0 <= j < before.len() && before[j] == t;
                            if j < i {
                                assert(self.timers@[j] == t);
                            } else if j > i {
                                assert(self.timers@[j - 1] == t);
                            }
                        }
                        assert forall|t: TimerEntry| #[trigger] self.timers@.contains(t) && t.due <= now implies fires_before(entry, t) by {
                            let j = choose|j: int| 0 <= j < self.timers@.len() && self.timers@[j] == t;
                            let k = if j < i { j } else { j + 1 };
                            assert(before[k] == t);
                            assert(k != i);
                        }
                        let f2 = fired.push(entry);
                        assert(before.contains(before[i as int]));
                        assert forall|a: int, b: int| 0 <= a < b < f2.len() implies fires_before(#[trigger] f2[a], #[trigger] f2[b]) by {
                            if b < fired.len() {
                                assert(f2[a] == fired[a] && f2[b] == fired[b]);
                            } else {
                                assert(f2[b] == entry);
                                assert(f2[a] == fired[a]);
                            }
                        }
                        assert(timer_trace(f2) =~= timer_trace(fired).push(timer_exec(entry)));
                        assert forall|t: TimerEntry| #[trigger] f2.contains(t) implies t0.contains(t) && t.due <= now by {
                            let j = choose|j: int| 0 <= j < f2.len() && f2[j] == t;
                            if j < fired.len() {
                                assert(fired[j] == t);
                                assert(fired.contains(t));
                            } else {
                                assert(before.contains(entry));
                            }
                        }
                        assert forall|t: TimerEntry| #[trigger] t0.contains(t) && t.due <= now implies f2.contains(t)
                            || self.timers@.contains(t) by {
                            if t == entry {
                                assert(f2[fired.len() as int] == t);
                            } else if fired.contains(t) {
                                let j = choose|j: int| 0 <= j < fired.len() && fired[j] == t;
                                assert(f2[j] == t);
                            } else {
                                assert(before.contains(t));
                            }
                        }
                        fired = f2;
                    }
                    self.drain_ticks_and_microtasks(&mut trace);
                    proof {
                        assert(trace@ =~= p0 + timer_trace(fired));
                    }
                },
                None => {
                    proof {
                        assert forall|t: TimerEntry| #[trigger] fired.contains(t) <==> (t0.contains(t) && t.due <= now) by {
                            if t0.contains(t) && t.due <= now && self.timers@.contains(t) {
                                let j = choose|j: int| 0 <= j < self.timers@.len() && self.timers@[j] == t;
                                assert(self.timers@[j].due > now);
                            }
                        }
                        lemma_filter_keeps_all(self.timers@, not_due(now));
                    }
                    break;
                },
            }
        }
        proof {
            let f = fire_order(t0, now);
            lemma_fire_order_unique(fired, f, t0, now);
        }
        trace
    }

    /// Progress of a run to idle that started from a state with pending
    /// timers `t0`, queued trace `p0` and clock `start`: `trace` plus what is
    /// still queued is `p0` followed by the timers `fired` so far, in firing
    /// order; every other timer of `t0` is still pending and fires after them.
    pub open spec fn idle_progress(
        &self,
        trace: Seq<Executed>,
        fired: Seq<TimerEntry>,
        t0: Seq<TimerEntry>,
        p0: Seq<Executed>,
        start: u64,
    ) -> bool {
        &&& self.wf()
        &&& trace + self.queued_trace() == p0 + timer_trace(fired)
        &&& strictly_ordered(fired)
        &&& forall|t: TimerEntry| #[trigger] fired.contains(t) ==> t0.contains(t) && t.due <= self.clock()
        &&& forall|t: TimerEntry| #[trigger] self.timers().contains(t) ==> t0.contains(t)
        &&& forall|t: TimerEntry| #[trigger] t0.contains(t) ==> fired.contains(t) || self.timers().contains(t)
        &&& forall|i: int, t: TimerEntry|
            0 <= i < fired.len() && #[trigger] self.timers().contains(t)
                ==> fires_before(#[trigger] fired[i], t)
        &&& self.clock() >= start
    }

    /// Termination measure of a run to idle.
    pub open spec fn idle_measure(&self) -> int {
        self.timers().len() * 2 + if has_due(self.timers(), self.clock()) {
            0int
        } else {
            1int
        }
    }

    /// One round of a run to idle: runs what is ready and appends it to
    /// `trace`, keeping [`EventLoop::idle_progress`].
    pub(crate) fn run_ready_into(
        &mut self,
        trace: &mut Vec<Executed>,
        Ghost(fired): Ghost<Seq<TimerEntry>>,
        Ghost(t0): Ghost<Seq<TimerEntry>>,
        Ghost(p0): Ghost<Seq<Executed>>,
        Ghost(start): Ghost<u64>,
    ) -> (f2: Ghost<Seq<TimerEntry>>)
        requires
            old(self).idle_progress(old(trace)@, fired, t0, p0, start),
        ensures
            final(self).idle_progress(final(trace)@, f2@, t0, p0, start),
            final(self).queued_trace() == Seq::<Executed>::empty(),
            final(self).clock() == old(self).clock(),
            final(self).timers_scheduled() == old(self).timers_scheduled(),
            forall|t: TimerEntry| #[trigger] final(self).timers().contains(t) ==> t.due > final(self).clock(),
            final(self).timers().len() <= old(self).timers().len(),
            has_due(old(self).timers(), old(self).clock()) ==> final(self).timers().len() < old(self).timers().len(),
    {
        let ghost before = self.timers@;
        let ghost now = self.now;
        let ghost q = self.queued_trace();
        let mut ran = self.run_ready();
        let ghost g = fire_order(before, now);
        proof {
            assert forall|t: TimerEntry| #[trigger] self.timers@.contains(t) <==> (before.contains(t) && t.due > now) by {
                lemma_filter_contains_iff(before, not_due(now), t);
            }
            before.lemma_filter_len(not_due(now));
            if has_due(before, now) {
                let k = choose|k: int| 0 <= k < before.len() && #[trigger] before[k].due <= now;
                lemma_filter_shrinks(before, not_due(now), k);
            }
        }
        let ghost tr_before = trace@;
        let ghost ran_v = ran@;
        trace.append(&mut ran);
        let ghost f2 = fired + g;
        proof {
            assert(trace@ == tr_before + ran_v);
            assert(tr_before + q == p0 + timer_trace(fired));
            assert((tr_before + q) + timer_trace(g) =~= tr_before + (q + timer_trace(g)));
            assert(timer_trace(f2) =~= timer_trace(fired) + timer_trace(g));
            assert(self.queued_trace() =~= Seq::<Executed>::empty());
            assert(trace@ + self.queued_trace() =~= p0 + timer_trace(f2));
            assert forall|a: int, b: int| 0 <= a < b < f2.len() implies fires_before(#[trigger] f2[a], #[trigger] f2[b]) by {
                if b < fired.len() {
                    assert(f2[a] == fired[a] && f2[b] == fired[b]);
                } else if a >= fired.len() {
                    assert(f2[a] == g[a - fired.len()] && f2[b] == g[b - fired.len()]);
                } else {
                    assert(f2[a] == fired[a]);
                    assert(f2[b] == g[b - fired.len()]);
                    assert(g.contains(g[b - fired.len()]));
                }
            }
            assert forall|t: TimerEntry| #[trigger] f2.contains(t) implies t0.contains(t) && t.due <= now by {
                let j = choose|j: int| 0 <= j < f2.len() && f2[j] == t;
                if j < fired.len() {
                    assert(fired[j] == t);
                    assert(fired.contains(t));
                } else {
                    assert(g[j - fired.len()] == t);
                    assert(g.contains(t));
                }
            }
            assert forall|t: TimerEntry| #[trigger] t0.contains(t) implies f2.contains(t) || self.timers@.contains(t) by {
                if fired.contains(t) {
                    let j = choose|j: int| 0 <= j < fired.len() && fired[j] == t;
                    assert(f2[j] == t);
                } else if before.contains(t) && t.due <= now {
                    assert(g.contains(t));
                    let j = choose|j: int| 0 <= j < g.len() && g[j] == t;
                    assert(f2[fired.len() + j] == t);
                }
            }
            assert forall|i: int, t: TimerEntry|
                0 <= i < f2.len() && #[trigger] self.timers@.contains(t) implies fires_before(#[trigger] f2[i], t) by {
                if i < fired.len() {
                    assert(f2[i] == fired[i]);
                } else {
                    assert(f2[i] == g[i - fired.len()]);
                    assert(g.contains(g[i - fired.len()]));
                }
            }
        }
        Ghost(f2)
    }

    /// A finished run to idle: the trace is the idle trace of the starting
    /// state and every starting timer is due by the final clock.
    pub(crate) proof fn lemma_idle_progress_done(
        &self,
        trace: Seq<Executed>,
        fired: Seq<TimerEntry>,
        t0: Seq<TimerEntry>,
        p0: Seq<Executed>,
        start: u64,
    )
        requires
            self.idle_progress(trace, fired, t0, p0, start),
            self.timers().len() == 0,
            self.queued_trace() == Seq::<Executed>::empty(),
        ensures
            trace == p0 + timer_trace(fire_order(t0, u64::MAX)),
            is_fire_order(fire_order(t0, u64::MAX), t0, u64::MAX),
            forall|t: TimerEntry| #[trigger] t0.contains(t) ==> t.due <= self.clock(),
    {
        assert(trace + self.queued_trace() =~= trace);
        assert forall|t: TimerEntry| #[trigger] t0.contains(t) implies fired.contains(t) by {
            if self.timers().contains(t) {
                let j = choose|j: int| 0 <= j < self.timers().len() && self.timers()[j] == t;
            }
        }
        assert(is_fire_order(fired, t0, u64::MAX));
        lemma_fire_order_unique(fired, fire_order(t0, u64::MAX), t0, u64::MAX);
    }

    /// Runs until nothing is pending, moving the logical clock forward to the
    /// next due timer whenever nothing else can run. Deterministic.
    ///
    /// The trace holds both queues, then every pending timer in firing
    /// order; the clock ends at the later of its start and the last due time.
    pub fn run_until_idle(&mut self) -> (trace: Vec<Executed>)
        requires
            old(self).wf(),
        ensures
            final(self).wf(),
            trace@ == old(self).idle_trace(),
            is_fire_order(fire_order(old(self).timers(), u64::MAX), old(self).timers(), u64::MAX),
            final(self).next_ticks() == Seq::<TaskId>::empty(),
            final(self).microtasks() == Seq::<TaskId>::empty(),
            final(self).timers() == Seq::<TimerEntry>::empty(),
            final(self).timers_scheduled() == old(self).timers_scheduled(),
            final(self).clock() >= old(self).clock(),
            forall|t: TimerEntry| #[trigger] old(self).timers().contains(t) ==> t.due <= final(self).clock(),
            final(self).clock() == old(self).clock() || exists|t: TimerEntry|
                #[trigger] old(self).timers().contains(t) && t.due == final(self).clock(),
    {
        let mut trace: Vec<Executed> = Vec::new();
        let ghost p0 = old(self).queued_trace();
        let ghost t0 = self.timers@;
        let ghost start = self.now;
        let ghost mut fired: Seq<TimerEntry> = Seq::empty();
        proof {
            assert(timer_trace(fired) =~= Seq::<Executed>::empty());
            assert(trace@ + self.queued_trace() =~= p0 + timer_trace(fired));
        }
        loop
            invariant
                self.idle_progress(trace@, fired, t0, p0, start),
                self.timer_seq == old(self).timer_seq,
                t0 == old(self).timers@,
                start == old(self).now,
                p0 == old(self).queued_trace(),
                self.now == start || exists|t: TimerEntry| #[trigger] t0.contains(t) && t.due == self.now,
            ensures
                self.idle_progress(trace@, fired, t0, p0, start),
                self.timer_seq == old(self).timer_seq,
                self.next_tick_queue@ == Seq::<TaskId>::empty(),
                self.microtask_queue@ == Seq::<TaskId>::empty(),
                self.timers@ == Seq::<TimerEntry>::empty(),
                self.now == start || exists|t: TimerEntry| #[trigger] t0.contains(t) && t.due == self.now,
            decreases self.idle_measure(),
        {
            let ghost measure = self.idle_measure();
            let f2 = self.run_ready_into(&mut trace, Ghost(fired), Ghost(t0), Ghost(p0), Ghost(start));
            proof {
                fired = f2@;
            }
            match self.next_timer_due() {
                Some(due) => {
                    self.advance_to(due);
                    proof {
                        let j = choose|j: int| 0 <= j < self.timers@.len() && #[trigger] self.timers@[j].due == due;
                        assert(self.timers@.contains(self.timers@[j]));
                        assert(self.now == due);
                        assert(has_due(self.timers@, self.now));
                        assert(t0.contains(self.timers@[j]));
                        assert(self.idle_measure() < measure);
                    }
                },
                None => {
                    proof {
                        assert(self.timers@ =~= Seq::<TimerEntry>::empty());
                        assert(self.next_tick_queue@ =~= Seq::<TaskId>::empty());
                        assert(self.microtask_queue@ =~= Seq::<TaskId>::empty());
                    }
                    break;
                },
            }
        }
        proof {
            assert(self.queued_trace() =~= Seq::<Executed>::empty());
            self.lemma_idle_progress_done(trace@, fired, t0, p0, start);
            if self.now != start {
                let t = choose|t: TimerEntry| #[trigger] t0.contains(t) && t.due == self.now;
                assert(old(self).timers().contains(t));
            }
        }
        trace
    }
}

impl Default for EventLoop {
    /// The same as [`EventLoop::new`].
    fn default() -> (el: Self)
        ensures
            el.next_ticks() == Seq::<TaskId>::empty(),
            el.microtasks() == Seq::<TaskId>::empty(),
            el.timers() == Seq::<TimerEntry>::empty(),
            el.clock() == 0,
            el.timers_scheduled() == 0,
            el.wf(),
    {
        EventLoop::new()
    }
}

} // verus!
