//! What a running engine can observe about the outside world: a cancel flag
//! raised by another thread, and an optional channel its progress reports go
//! to.

use vstd::prelude::*;
use std::sync::atomic::AtomicBool;
use std::sync::atomic::Ordering;
use std::sync::mpsc::Sender;
use crate::engine::Progress;

verus! {

/// The sending half of a standard channel (`std::sync::mpsc::Sender`).
#[verifier::external_type_specification]
#[verifier::external_body]
#[verifier::reject_recursive_types(T)]
pub struct ExSender<T>(Sender<T>);

/// Hand `progress` to the channel behind `sender`
/// (`std::sync::mpsc::Sender::send`). A send fails only when the receiver
/// is gone, and that failure is ignored: nobody is left to report to.
#[verifier::external_body]
fn send_progress(sender: &Sender<Progress>, progress: Progress) {
    let _ = sender.send(progress);
}

/// What a running engine can observe about the outside world.
pub struct RunContext<'a> {
    pub cancel: &'a AtomicBool,
    pub progress: Option<&'a Sender<Progress>>,
}

impl<'a> RunContext<'a> {
    /// Whether the run was asked to stop. Another thread raises the flag, so
    /// nothing about the answer is known in advance.
    pub fn is_cancelled(&self) -> bool {
        self.cancel.load(Ordering::Relaxed)
    }

    /// Send `progress` to the host, when the run has somewhere to send it.
    pub fn report(&self, progress: Progress) {
        match self.progress {
            Some(sender) => send_progress(sender, progress),
            None => {},
        }
    }
}

} // verus!
