use rnodejs::event_loop::{EventLoop, Executed, TaskId, TaskKind};

fn ids(trace: &[Executed]) -> Vec<TaskId> {
    trace.iter().map(|e| e.id).collect()
}

#[test]
fn next_tick_runs_before_microtask() {
    let mut el = EventLoop::new();
    el.schedule_microtask(2);
    el.schedule_next_tick(1);
    let trace = el.run_ready();
    assert_eq!(ids(&trace), vec![1, 2], "nextTick runs before a Promise then");
}

#[test]
fn microtasks_run_before_timers() {
    let mut el = EventLoop::new();
    el.schedule_timer(3, 0);
    el.schedule_microtask(2);
    el.schedule_next_tick(1);
    let trace = el.run_ready();
    assert_eq!(ids(&trace), vec![1, 2, 3]);
}

#[test]
fn timers_fire_in_due_order() {
    let mut el = EventLoop::new();
    el.schedule_timer(20, 20);
    el.schedule_timer(10, 10);
    let trace = el.run_until_idle();
    assert_eq!(ids(&trace), vec![10, 20]);
}

#[test]
fn same_due_timers_fire_in_registration_order() {
    let mut el = EventLoop::new();
    el.schedule_timer(1, 5);
    el.schedule_timer(2, 5);
    el.schedule_timer(3, 5);
    let trace = el.run_until_idle();
    assert_eq!(ids(&trace), vec![1, 2, 3]);
}

#[test]
fn timer_does_not_fire_before_due() {
    let mut el = EventLoop::new();
    el.schedule_timer(1, 100);
    assert!(el.run_ready().is_empty(), "a timer does not run before it is due");
    el.advance_to(99);
    assert!(el.run_ready().is_empty());
    el.advance_to(100);
    assert_eq!(ids(&el.run_ready()), vec![1]);
    assert!(el.is_idle());
}

#[test]
fn ticks_scheduled_during_timer_phase_interleave() {
    let mut el = EventLoop::new();
    el.schedule_timer(1, 0);
    el.schedule_timer(4, 10);
    let t1 = el.run_ready();
    assert_eq!(ids(&t1), vec![1]);
    el.schedule_next_tick(2);
    el.schedule_microtask(3);
    let rest = el.run_until_idle();
    assert_eq!(ids(&rest), vec![2, 3, 4]);
    assert_eq!(
        rest.iter().map(|e| e.kind).collect::<Vec<_>>(),
        vec![TaskKind::NextTick, TaskKind::Microtask, TaskKind::Timer]
    );
}

#[test]
fn next_tick_scheduled_by_microtask_preempts_remaining_microtasks() {
    let mut el = EventLoop::new();
    el.schedule_microtask(3);
    let t = el.run_ready();
    assert_eq!(ids(&t), vec![3]);
    el.schedule_next_tick(9);
    el.schedule_microtask(4);
    let t2 = el.run_ready();
    assert_eq!(ids(&t2), vec![9, 4], "a later nextTick still runs before the microtask");
}

#[test]
fn run_until_idle_auto_advances_time() {
    let mut el = EventLoop::new();
    el.schedule_timer(1, 50);
    el.schedule_timer(2, 200);
    let trace = el.run_until_idle();
    assert_eq!(ids(&trace), vec![1, 2]);
    assert_eq!(el.now(), 200, "the clock ends at the last due time");
    assert!(el.is_idle());
}

#[test]
fn next_timer_due_reports_earliest() {
    let mut el = EventLoop::new();
    assert_eq!(el.next_timer_due(), None);
    el.schedule_timer(1, 30);
    el.schedule_timer(2, 10);
    assert_eq!(el.next_timer_due(), Some(10));
}

#[test]
fn zero_delay_timer_still_after_microtasks() {
    let mut el = EventLoop::new();
    el.schedule_timer(2, 0);
    el.schedule_microtask(1);
    let trace = el.run_until_idle();
    assert_eq!(ids(&trace), vec![1, 2]);
}

#[test]
fn new_loop_is_idle_at_time_zero() {
    let el = EventLoop::new();
    assert!(el.is_idle());
    assert_eq!(el.now(), 0);
    assert_eq!(el.next_timer_due(), None);
}

#[test]
fn advance_to_never_goes_back() {
    let mut el = EventLoop::new();
    el.advance_to(40);
    assert_eq!(el.now(), 40);
    el.advance_to(10);
    assert_eq!(el.now(), 40);
}

#[test]
fn timer_due_time_saturates() {
    let mut el = EventLoop::new();
    el.advance_to(u64::MAX - 5);
    el.schedule_timer(1, 100);
    assert_eq!(el.next_timer_due(), Some(u64::MAX));
    let trace = el.run_until_idle();
    assert_eq!(ids(&trace), vec![1]);
    assert_eq!(el.now(), u64::MAX);
}

#[test]
fn timer_delay_counts_from_current_time() {
    let mut el = EventLoop::new();
    el.advance_to(100);
    el.schedule_timer(1, 5);
    assert_eq!(el.next_timer_due(), Some(105));
    assert!(el.run_ready().is_empty());
    assert!(!el.is_idle());
}

#[test]
fn run_ready_twice_at_same_time_runs_nothing_new() {
    let mut el = EventLoop::new();
    el.schedule_timer(1, 0);
    el.schedule_timer(2, 7);
    el.schedule_microtask(3);
    assert_eq!(ids(&el.run_ready()), vec![3, 1]);
    assert!(el.run_ready().is_empty());
    assert_eq!(el.next_timer_due(), Some(7));
}

#[test]
fn overdue_timers_fire_by_due_then_registration() {
    let mut el = EventLoop::new();
    el.schedule_timer(1, 30);
    el.schedule_timer(2, 10);
    el.schedule_timer(3, 30);
    el.schedule_timer(4, 20);
    el.schedule_timer(5, 10);
    el.advance_to(1000);
    let trace = el.run_ready();
    assert_eq!(ids(&trace), vec![2, 5, 4, 1, 3]);
    assert!(trace.iter().all(|e| e.kind == TaskKind::Timer));
    assert!(el.is_idle());
}

#[test]
fn run_until_idle_keeps_clock_when_no_timer_is_later() {
    let mut el = EventLoop::new();
    el.advance_to(500);
    el.schedule_next_tick(1);
    el.schedule_microtask(2);
    let trace = el.run_until_idle();
    assert_eq!(
        trace,
        vec![
            Executed { kind: TaskKind::NextTick, id: 1 },
            Executed { kind: TaskKind::Microtask, id: 2 },
        ]
    );
    assert_eq!(el.now(), 500);
}

#[test]
fn default_loop_equals_new_loop() {
    let mut el = EventLoop::default();
    assert!(el.is_idle());
    assert_eq!(el.now(), 0);
    el.schedule_timer(1, 0);
    assert_eq!(ids(&el.run_ready()), vec![1]);
}
