use qualetize_gui::engine::Progress;
use qualetize_gui::run_context::RunContext;
use std::sync::atomic::{AtomicBool, Ordering};
use std::sync::mpsc;

#[test]
fn a_report_reaches_the_channel() {
    let cancel = AtomicBool::new(false);
    let (sender, receiver) = mpsc::channel();
    let ctx = RunContext { cancel: &cancel, progress: Some(&sender) };
    ctx.report(Progress { percent: 42, preview: None });
    let received = receiver.try_recv().expect("a report");
    assert_eq!(received.percent, 42);
    assert!(received.preview.is_none());
}

#[test]
fn a_report_without_a_channel_goes_nowhere() {
    let cancel = AtomicBool::new(false);
    let ctx = RunContext { cancel: &cancel, progress: None };
    ctx.report(Progress { percent: 100, preview: None });
}

#[test]
fn a_report_after_the_receiver_is_gone_is_dropped() {
    let cancel = AtomicBool::new(false);
    let (sender, receiver) = mpsc::channel();
    drop(receiver);
    let ctx = RunContext { cancel: &cancel, progress: Some(&sender) };
    ctx.report(Progress { percent: 1, preview: None });
}

#[test]
fn the_cancel_flag_is_read_as_it_stands() {
    let cancel = AtomicBool::new(false);
    let ctx = RunContext { cancel: &cancel, progress: None };
    assert!(!ctx.is_cancelled());
    cancel.store(true, Ordering::Relaxed);
    assert!(ctx.is_cancelled());
}
