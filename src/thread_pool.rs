//! Thread pools: a way to run closures on worker threads.

use vstd::prelude::*;
use crate::error::Result;

verus! {

/// A pool of worker threads that runs the closures handed to it.
pub trait ThreadPool {
    /// Creates a pool with `threads` workers, all started at once.
    fn new(threads: u32) -> Result<Self> where Self: Sized;

    /// Runs `job` on some worker. A job that panics leaves the pool with as
    /// many workers as before.
    fn spawn<F>(&self, job: F) where F: FnOnce() + Send + 'static;
}

} // verus!
