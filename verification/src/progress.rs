//! Progress of a running import batch.
//!
//! The writer thread owns a `Progress` and advances it as files are
//! copied; the surrounding program shares it across threads (behind a
//! lock of its own) and polls `bare` on a timer tick.

use vstd::prelude::*;

verus! {

/// A plain snapshot of how far a batch has come.
#[derive(Clone, Copy, Debug)]
pub struct Bare {
    /// Index of the file currently being copied.
    pub file_idx: usize,
    /// How many files the batch holds in all.
    pub file_total: usize,
    /// True once the whole batch has been processed.
    pub done: bool,
}

impl Bare {
    /// A fresh snapshot: nothing copied yet.
    pub fn new(file_total: usize) -> (r: Self)
        ensures
            r.file_idx == 0,
            r.file_total == file_total,
            !r.done,
    {
        Bare { file_idx: 0, file_total, done: false }
    }
}

/// The writer's working view of a batch's progress.
pub struct Progress {
    inner: Bare,
}

impl Progress {
    /// The snapshot this `Progress` currently holds.
    pub closed spec fn spec_bare(&self) -> Bare {
        self.inner
    }

    /// Starts tracking a batch of `file_total` files.
    pub fn new(file_total: usize) -> (r: Self)
        ensures
            r.spec_bare().file_idx == 0,
            r.spec_bare().file_total == file_total,
            !r.spec_bare().done,
    {
        Progress { inner: Bare::new(file_total) }
    }

    /// Records that the file at `file_idx` is being copied now.
    pub fn set_file_idx(&mut self, file_idx: usize)
        ensures
            final (self).spec_bare().file_idx == file_idx,
            final (self).spec_bare().file_total == old(self).spec_bare().file_total,
            final (self).spec_bare().done == old(self).spec_bare().done,
    {
        self.inner.file_idx = file_idx;
    }

    /// Records that the whole batch has been processed.
    pub fn set_done(&mut self)
        ensures
            final (self).spec_bare().done,
            final (self).spec_bare().file_idx == old(self).spec_bare().file_idx,
            final (self).spec_bare().file_total == old(self).spec_bare().file_total,
    {
        self.inner.done = true;
    }

    /// The current snapshot, for display.
    pub fn bare(&self) -> (r: Bare)
        ensures
            r == self.spec_bare(),
    {
        self.inner
    }
}

} // verus!
