//! The view the event loop has of the watched child process: its process
//! id and a latch that flips once the process has exited.
//!
//! The embedding program spawns the process and owns the thread that waits
//! on it; that thread stores `true` into the shared flag when the wait
//! returns. This type only reads the latch, so nothing can be promised
//! about the value a given load returns — the flag belongs to another
//! thread — and `has_exited` accordingly has no postcondition.

use std::sync::Arc;
use std::sync::atomic::AtomicBool;
use std::sync::atomic::Ordering;
use vstd::prelude::*;

verus! {

/// A handle on the watched child process.
pub struct ChildProcessState {
    exited: Arc<AtomicBool>,
    pid: u32,
}

impl ChildProcessState {
    /// The process id the handle was created with.
    pub closed spec fn spec_pid(&self) -> u32 {
        self.pid
    }

    /// Wraps the exit latch and process id the embedding program obtained
    /// when it spawned the child.
    pub fn new(exited: Arc<AtomicBool>, pid: u32) -> (r: ChildProcessState)
        ensures
            r.spec_pid() == pid,
    {
        ChildProcessState { exited, pid }
    }

    /// Reads the exit latch. The watcher thread is the only writer and
    /// writes only `true`, so once this returns `true` it stays `true`.
    pub fn has_exited(&self) -> bool {
        self.exited.load(Ordering::SeqCst)
    }

    /// The watched process's id.
    pub fn pid(&self) -> (r: u32)
        ensures
            r == self.spec_pid(),
    {
        self.pid
    }
}

} // verus!
