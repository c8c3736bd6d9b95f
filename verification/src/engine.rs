//! The I/O-free core of a session.

use vstd::prelude::*;

use crate::scanner::{heard, takes_in_units, Scanner, ScannerView};
use crate::status::StatusSnapshot;

verus! {

/// Production soft watermark for an open chunk.
pub const WATERMARK: usize = 131072;

/// Public, I/O-free core of a multiplexer session: feed raw output in, get a
/// faithful sanitized replay and the current shell status out.
pub struct ReplayEngine {
    scanner: Scanner,
}

impl View for ReplayEngine {
    type V = ScannerView;

    closed spec fn view(&self) -> ScannerView {
        self.scanner@
    }
}

impl ReplayEngine {
    pub fn new() -> (e: Self)
        ensures
            e@ == ScannerView::started(WATERMARK as nat),
            e@.wf(),
            e@.between_units(),
            heard(e@.history),
    {
        Self { scanner: Scanner::new(WATERMARK) }
    }

    /// Feed raw terminal output bytes from the PTY.
    pub fn feed(&mut self, bytes: &[u8])
        requires
            old(self)@.wf(),
        ensures
            final(self)@ == old(self)@.feed(bytes@),
            final(self)@.wf(),
            takes_in_units(old(self)@, bytes@, final(self)@),
            heard(old(self)@.history) ==> heard(final(self)@.history),
    {
        self.scanner.feed(bytes);
    }

    /// Full available replay (all chunks since the last purge boundary).
    pub fn replay(&self) -> (out: Vec<u8>)
        requires
            self@.wf(),
        ensures
            out@ == self@.ring.replay_all(),
    {
        self.scanner.replay(usize::MAX)
    }

    /// Replay capped to the most recent `want_chunks` chunks (memory and
    /// scrollback dial). Modes stay correct via the prologue even when capped.
    pub fn replay_capped(&self, want_chunks: usize) -> (out: Vec<u8>)
        requires
            self@.wf(),
        ensures
            out@ == self@.ring.replay(want_chunks as nat),
    {
        self.scanner.replay(want_chunks)
    }

    /// Current shell status for the `STATUS` wire frame.
    pub fn status(&self) -> (s: StatusSnapshot)
        ensures
            s == self@.sink.status.snapshot(),
    {
        self.scanner.status()
    }

    /// Whether this shell marks its prompts: any OSC 133 has been observed.
    pub fn has_prompt_marking(&self) -> (r: bool)
        ensures
            r == self@.sink.status.saw_prompt_marker,
    {
        self.scanner.saw_prompt_marker()
    }
}

impl Default for ReplayEngine {
    fn default() -> (e: Self)
        ensures
            e@ == ScannerView::started(WATERMARK as nat),
            e@.wf(),
            e@.between_units(),
            heard(e@.history),
    {
        Self::new()
    }
}

} // verus!
