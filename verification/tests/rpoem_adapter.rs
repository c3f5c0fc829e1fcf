use rnodejs::rpoem_adapter::{RPoemAdapter, TaskSubmitter};
use rnodejs::runtime::ManualDriver;

#[test]
fn rpoem_adapter_preserves_ordering_via_task_submitter() {
    let mut adapter = RPoemAdapter::new(ManualDriver::new());
    adapter.submit_timer(3, 0);
    adapter.submit_microtask(2);
    adapter.submit_next_tick(1);

    let trace = adapter.drive_until_idle();
    assert_eq!(trace.iter().map(|e| e.id).collect::<Vec<_>>(), vec![1, 2, 3]);
    assert!(adapter.event_loop().is_idle());
}

#[test]
fn rpoem_adapter_reports_next_timer_due_through_event_loop() {
    let mut adapter = RPoemAdapter::new(ManualDriver::new());
    assert_eq!(adapter.event_loop().next_timer_due(), None);
    adapter.submit_timer(1, 50);
    assert_eq!(adapter.event_loop().next_timer_due(), Some(50));
}

#[test]
fn rpoem_adapter_drives_clock_to_last_timer() {
    let mut adapter = RPoemAdapter::new(ManualDriver::new());
    adapter.submit_timer(7, 30);
    adapter.submit_timer(8, 10);
    let trace = adapter.drive_until_idle();
    assert_eq!(trace.iter().map(|e| e.id).collect::<Vec<_>>(), vec![8, 7]);
    assert_eq!(adapter.event_loop().now(), 30);
}
