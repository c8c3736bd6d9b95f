//! Shell status as reported by OSC 133 and OSC 9;4 sequences.

use vstd::prelude::*;

verus! {

/// An immutable snapshot of shell status, as carried by a `Status` frame.
#[derive(Debug, Clone, Copy, PartialEq, Eq, Structural)]
pub struct StatusSnapshot {
    pub running: bool,
    /// OSC 9;4 progress percentage 0..=100, or `None` when not in a progress
    /// state.
    pub progress: Option<u8>,
}

/// Latest semantic shell status, updated as OSC 133 / 9;4 sequences arrive.
#[derive(Debug, Clone)]
pub struct StatusCache {
    running: bool,
    progress: Option<u8>,
    saw_prompt_marker: bool,
}

/// What a [`StatusCache`] holds.
pub struct StatusView {
    pub running: bool,
    pub progress: Option<u8>,
    pub saw_prompt_marker: bool,
}

impl StatusView {
    /// The status before any sequence has arrived.
    pub open spec fn idle() -> StatusView {
        StatusView { running: false, progress: None, saw_prompt_marker: false }
    }

    /// The part of the status that clients see.
    pub open spec fn snapshot(self) -> StatusSnapshot {
        StatusSnapshot { running: self.running, progress: self.progress }
    }
}

impl View for StatusCache {
    type V = StatusView;

    closed spec fn view(&self) -> StatusView {
        StatusView {
            running: self.running,
            progress: self.progress,
            saw_prompt_marker: self.saw_prompt_marker,
        }
    }
}

impl StatusCache {
    pub fn new() -> (c: Self)
        ensures
            c@ == StatusView::idle(),
    {
        Self { running: false, progress: None, saw_prompt_marker: false }
    }

    pub fn set_running(&mut self, running: bool)
        ensures
            final(self)@ == (StatusView { running, ..old(self)@ }),
    {
        self.running = running;
    }

    pub fn set_progress(&mut self, progress: Option<u8>)
        ensures
            final(self)@ == (StatusView { progress, ..old(self)@ }),
    {
        self.progress = progress;
    }

    /// Latches that an OSC 133 marker has been seen.
    pub fn set_prompt_marker_seen(&mut self)
        ensures
            final(self)@ == (StatusView { saw_prompt_marker: true, ..old(self)@ }),
    {
        self.saw_prompt_marker = true;
    }

    pub fn saw_prompt_marker(&self) -> (r: bool)
        ensures
            r == self@.saw_prompt_marker,
    {
        self.saw_prompt_marker
    }

    pub fn snapshot(&self) -> (s: StatusSnapshot)
        ensures
            s == self@.snapshot(),
    {
        StatusSnapshot { running: self.running, progress: self.progress }
    }
}

impl Default for StatusCache {
    fn default() -> (c: Self)
        ensures
            c@ == StatusView::idle(),
    {
        Self::new()
    }
}

} // verus!
