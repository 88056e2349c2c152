//! Cooperative cancellation: a tree of shared stop flags. Tripping a token
//! sets its own flag and its children's; once tripped, a flag is never
//! cleared. The flags are shared across tasks, so what a load returns is not
//! pinned here: every reader must handle either answer.

use vstd::prelude::*;
use std::sync::atomic::AtomicBool;
use std::sync::atomic::Ordering;
use std::sync::Arc;

verus! {

/// One node of the cancellation tree.
pub struct StopToken {
    is_stopped: Arc<AtomicBool>,
    children: Vec<Arc<AtomicBool>>,
}

impl StopToken {
    /// A fresh root token, not tripped.
    pub fn new() -> StopToken {
        StopToken { is_stopped: Arc::new(AtomicBool::new(false)), children: Vec::new() }
    }

    /// A child token: it starts in the parent's current state and is tripped
    /// whenever the parent trips from now on.
    pub fn child(&mut self) -> StopToken {
        let value = self.is_stopped.load(Ordering::Relaxed);
        let is_stopped = Arc::new(AtomicBool::new(value));
        let flag = is_stopped.clone();
        self.children.push(flag);
        StopToken { is_stopped, children: Vec::new() }
    }

    /// Trips this token and all its children.
    pub fn trigger_stop(&self) {
        self.is_stopped.store(true, Ordering::Relaxed);
        let n = self.children.len();
        let mut i: usize = 0;
        while i < n
            invariant
                i <= n,
                n == self.children@.len(),
            decreases n - i,
        {
            self.children[i].store(true, Ordering::Relaxed);
            i += 1;
        }
    }

    /// Whether this token has been tripped; a tripped token passes the trip
    /// on to its children.
    pub fn stopped(&mut self) -> bool {
        if self.is_stopped.load(Ordering::Relaxed) {
            let n = self.children.len();
            let mut i: usize = 0;
            while i < n
                invariant
                    i <= n,
                    n == self.children@.len(),
                decreases n - i,
            {
                self.children[i].store(true, Ordering::Relaxed);
                i += 1;
            }
            true
        } else {
            false
        }
    }
}

} // verus!
