use rnodejs::event_loop::{EventLoop, Executed};
use rnodejs::runtime::{drive_until_idle, LoopDriver, ManualDriver};

#[test]
fn manual_driver_matches_run_until_idle() {
    let build = || {
        let mut el = EventLoop::new();
        el.schedule_timer(1, 50);
        el.schedule_next_tick(0);
        el.schedule_timer(2, 100);
        el
    };
    let mut a = build();
    let expected = a.run_until_idle();

    let mut b = build();
    let mut driver = ManualDriver::new();
    let got = drive_until_idle(&mut b, &mut driver);
    assert_eq!(got, expected);
    assert!(b.is_idle());
}

/// A driver that always oversleeps by a fixed amount.
struct LateDriver {
    extra: u64,
}

impl LoopDriver for LateDriver {
    fn wait_until(&mut self, due: u64) -> u64 {
        due + self.extra
    }
}

#[test]
fn late_driver_gives_same_trace_as_run_until_idle() {
    let build = || {
        let mut el = EventLoop::new();
        el.schedule_timer(1, 50);
        el.schedule_timer(2, 60);
        el.schedule_timer(3, 55);
        el.schedule_microtask(9);
        el
    };
    let mut a = build();
    let expected: Vec<Executed> = a.run_until_idle();

    let mut b = build();
    let mut driver = LateDriver { extra: 1000 };
    let got = drive_until_idle(&mut b, &mut driver);
    assert_eq!(got, expected);
    assert_eq!(b.now(), 1050);
    assert_eq!(a.now(), 60);
    assert!(b.is_idle());
}

#[test]
fn manual_driver_reports_due_time() {
    let mut d = ManualDriver::new();
    assert_eq!(d.wait_until(42), 42);
}

#[test]
fn driver_can_be_a_trait_object() {
    let mut el = EventLoop::new();
    el.schedule_timer(5, 20);
    el.schedule_next_tick(4);
    let mut manual = ManualDriver::new();
    let driver: &mut dyn LoopDriver = &mut manual;
    let trace = drive_until_idle(&mut el, driver);
    assert_eq!(trace.iter().map(|e| e.id).collect::<Vec<_>>(), vec![4, 5]);
    assert_eq!(el.now(), 20);
}

/// An exact driver that remembers what it was asked.
struct RecordingDriver {
    asked: Vec<u64>,
}

impl LoopDriver for RecordingDriver {
    fn wait_until(&mut self, due: u64) -> u64 {
        self.asked.push(due);
        due
    }
}

#[test]
fn driver_is_asked_for_each_later_due_time_once_in_order() {
    let mut el = EventLoop::new();
    el.schedule_timer(1, 50);
    el.schedule_next_tick(0);
    el.schedule_timer(2, 100);
    el.schedule_timer(3, 50);
    el.schedule_timer(4, 0);
    let mut driver = RecordingDriver { asked: Vec::new() };
    let trace = drive_until_idle(&mut el, &mut driver);
    assert_eq!(trace.iter().map(|e| e.id).collect::<Vec<_>>(), vec![0, 4, 1, 3, 2]);
    assert_eq!(driver.asked, vec![50, 100]);
    assert_eq!(el.now(), 100);
}

#[test]
fn late_driver_is_asked_only_for_what_is_still_pending() {
    let mut el = EventLoop::new();
    el.schedule_timer(1, 50);
    el.schedule_timer(2, 60);
    el.schedule_timer(3, 5000);
    let mut driver = LateDriver { extra: 1000 };
    let trace = drive_until_idle(&mut el, &mut driver);
    assert_eq!(trace.iter().map(|e| e.id).collect::<Vec<_>>(), vec![1, 2, 3]);
    assert_eq!(el.now(), 6000);
}

#[test]
fn manual_driver_default_reports_due_time() {
    let mut d = ManualDriver::default();
    assert_eq!(d.wait_until(7), 7);
}
