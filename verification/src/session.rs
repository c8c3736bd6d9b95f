//! A daemon session: the replayable engine of one shell plus its lifecycle.
//! It holds no PTY; it says what its PTY is to be told, and takes in what its
//! PTY reported.

use vstd::prelude::*;

use crate::engine::{ReplayEngine, WATERMARK};
use crate::protocol::SessionInfo;
use crate::pty::{winsize, DrainResult, Winsize};
use crate::ring::{law_replay_is_the_newest_chunks, pieces};
use crate::scanner::{heard, takes_in_units, ScannerView};
use crate::status::StatusSnapshot;

verus! {

/// Whether the shell child is still alive.
#[derive(Debug, Clone, Copy, PartialEq, Eq, Structural)]
pub enum Lifecycle {
    Live,
    Dead { status: i32 },
}

/// What a `drain` produced, for the server to act on.
#[derive(Debug)]
pub struct DrainOutcome {
    /// Raw live bytes to forward to an attached client as `Data`.
    pub data: Vec<u8>,
    /// Status snapshot after feeding (for `Status` frames).
    pub status: StatusSnapshot,
    /// `Some(code)` if the child exited during this drain.
    pub exit: Option<i32>,
}

/// The replay handshake payload for an attaching client.
#[derive(Debug)]
pub struct AttachReplay {
    /// Prologue + sanitized data (one or more `Data` frames' worth).
    pub data: Vec<u8>,
    /// Current status, sent as a `Status` frame after the data.
    pub status: StatusSnapshot,
}

/// A signal for the process group of a shell.
#[derive(Debug, Clone, Copy, PartialEq, Eq, Structural)]
pub enum GroupSignal {
    /// SIGHUP.
    Hangup,
    /// SIGKILL.
    Kill,
}

/// One shell session.
pub struct Session {
    id: String,
    argv: Vec<String>,
    cwd: String,
    engine: ReplayEngine,
    size: Winsize,
    created_at: u64,
    lifecycle: Lifecycle,
}

/// What a [`Session`] holds.
pub struct SessionView {
    pub id: Seq<char>,
    pub argv: Seq<String>,
    pub cwd: Seq<char>,
    pub engine: ScannerView,
    pub size: Winsize,
    pub created_at: u64,
    pub lifecycle: Lifecycle,
}

/// A size of so many columns and rows.
pub open spec fn size_of(cols: u16, rows: u16) -> Winsize {
    Winsize { ws_row: rows, ws_col: cols, ws_xpixel: 0, ws_ypixel: 0 }
}

/// The engine value once prompt marking has been seen, the foreground value
/// otherwise.
pub open spec fn merged_running(has_marking: bool, engine: bool, foreground: bool) -> bool {
    if has_marking {
        engine
    } else {
        foreground
    }
}

/// The foreground value, which an error makes `false`.
pub open spec fn busy_or_false(busy: Result<bool, i32>) -> bool {
    busy == Ok::<bool, i32>(true)
}

impl SessionView {
    pub open spec fn wf(self) -> bool {
        self.engine.wf()
    }

    pub open spec fn is_dead(self) -> bool {
        self.lifecycle is Dead
    }

    pub open spec fn status(self) -> StatusSnapshot {
        self.engine.sink.status.snapshot()
    }

    pub open spec fn has_prompt_marking(self) -> bool {
        self.engine.sink.status.saw_prompt_marker
    }

    /// The `running` fallback, where asking for the foreground group gave
    /// `busy`.
    pub open spec fn poll_running(self, busy: Result<bool, i32>) -> bool {
        !self.is_dead() && busy_or_false(busy)
    }

    /// The `running` that a listing shows.
    pub open spec fn effective_running(self, busy: Result<bool, i32>) -> bool {
        !self.is_dead() && merged_running(
            self.has_prompt_marking(),
            self.status().running,
            busy_or_false(busy),
        )
    }

    /// The replay for an attaching client; 0 asks for all of it.
    pub open spec fn replay(self, want_chunks: nat) -> Seq<u8> {
        if want_chunks == 0 {
            self.engine.ring.replay_all()
        } else {
            self.engine.ring.replay(want_chunks)
        }
    }

    /// After output of the shell.
    pub open spec fn fed(self, bytes: Seq<u8>) -> SessionView {
        SessionView { engine: self.engine.feed(bytes), ..self }
    }

    /// After a drain that read `bytes`, with the shell exiting as `exit`.
    pub open spec fn drained(self, bytes: Seq<u8>, exit: Option<i32>) -> SessionView {
        SessionView {
            lifecycle: match exit {
                Some(status) => Lifecycle::Dead { status },
                None => self.lifecycle,
            },
            ..self.fed(bytes)
        }
    }
}

impl View for Session {
    type V = SessionView;

    closed spec fn view(&self) -> SessionView {
        SessionView {
            id: self.id@,
            argv: self.argv@,
            cwd: self.cwd@,
            engine: self.engine@,
            size: self.size,
            created_at: self.created_at,
            lifecycle: self.lifecycle,
        }
    }
}

fn copy_strings(list: &Vec<String>) -> (r: Vec<String>)
    ensures
        r@ == list@,
{
    let mut r: Vec<String> = Vec::new();
    let mut i: usize = 0;
    while i < list.len()
        invariant
            i <= list@.len(),
            r@ =~= list@.take(i as int),
        decreases list@.len() - i,
    {
        r.push(list[i].clone());
        i = i + 1;
    }
    assert(r@ =~= list@);
    r
}

/// What is left of the bytes for a PTY of which it took the first `taken`.
pub open spec fn left_over(data: Seq<u8>, taken: nat) -> Seq<u8> {
    if taken <= data.len() {
        data.skip(taken as int)
    } else {
        Seq::empty()
    }
}

/// What is left of the bytes for a PTY of which it took the first `taken`: to
/// be written next, before anything else.
pub fn input_left(data: &[u8], taken: usize) -> (rest: Vec<u8>)
    ensures
        rest@ == left_over(data@, taken as nat),
        taken <= data@.len() ==> data@.take(taken as int) + rest@ == data@,
{
    if taken <= data.len() {
        let rest = vstd::slice::slice_to_vec(vstd::slice::slice_subrange(data, taken, data.len()));
        assert(rest@ =~= data@.skip(taken as int));
        assert(data@.take(taken as int) + rest@ =~= data@);
        rest
    } else {
        Vec::new()
    }
}

impl Session {
    /// A fresh session, with an empty engine, around a shell that has just
    /// been started.
    pub fn open(
        id: String,
        argv: Vec<String>,
        cwd: String,
        cols: u16,
        rows: u16,
        created_at: u64,
    ) -> (s: Self)
        ensures
            s@ == (SessionView {
                id: id@,
                argv: argv@,
                cwd: cwd@,
                engine: ScannerView::started(WATERMARK as nat),
                size: size_of(cols, rows),
                created_at,
                lifecycle: Lifecycle::Live,
            }),
            s@.wf(),
            s@.engine.between_units(),
            heard(s@.engine.history),
    {
        Self {
            id,
            argv,
            cwd,
            engine: ReplayEngine::new(),
            size: winsize(cols, rows),
            created_at,
            lifecycle: Lifecycle::Live,
        }
    }

    pub fn id(&self) -> (r: &str)
        ensures
            r@ == self@.id,
    {
        self.id.as_str()
    }

    pub fn lifecycle(&self) -> (r: Lifecycle)
        ensures
            r == self@.lifecycle,
    {
        self.lifecycle
    }

    pub fn is_dead(&self) -> (r: bool)
        ensures
            r == self@.is_dead(),
    {
        match self.lifecycle {
            Lifecycle::Live => false,
            Lifecycle::Dead { status: _ } => true,
        }
    }

    /// Whether a drain with this result has to be followed by a reap: EOF
    /// means that the shell is terminating.
    pub fn must_reap(&self, drained: &DrainResult) -> (r: bool)
        ensures
            r == (drained.eof && !self@.is_dead()),
    {
        drained.eof && !self.is_dead()
    }

    /// Take in a drain of the PTY: feed the engine, detect exit, and hand on
    /// the live bytes. `reaped` is the outcome of the reap, where there had to
    /// be one; a status that cannot be had (the child was reaped elsewhere)
    /// is reported as 0.
    pub fn drain(&mut self, drained: DrainResult, reaped: Result<Option<i32>, i32>) -> (r: Result<
        DrainOutcome,
        i32,
    >)
        requires
            old(self)@.wf(),
        ensures
            final(self)@.wf(),
            takes_in_units(old(self)@.engine, drained.bytes@, final(self)@.engine),
            heard(old(self)@.engine.history) ==> heard(final(self)@.engine.history),
            ({
                let exiting = drained.eof && !old(self)@.is_dead();
                match reaped {
                    Err(errno) if exiting => {
                        &&& r == Err::<DrainOutcome, i32>(errno)
                        &&& final(self)@ == old(self)@.fed(drained.bytes@)
                    },
                    _ => {
                        let exit = if exiting {
                            Some(
                                match reaped {
                                    Ok(Some(status)) => status,
                                    _ => 0,
                                },
                            )
                        } else {
                            None::<i32>
                        };
                        &&& r matches Ok(out) && out.data@ == drained.bytes@ && out.exit == exit
                            && out.status == final(self)@.status()
                        &&& final(self)@ == old(self)@.drained(drained.bytes@, exit)
                    },
                }
            }),
    {
        let must_reap = self.must_reap(&drained);
        if drained.bytes.len() > 0 {
            self.engine.feed(drained.bytes.as_slice());
        } else {
            proof {
                crate::scanner::lemma_feed_nothing(self.engine@);
                assert(drained.bytes@ =~= Seq::<u8>::empty());
            }
        }
        let mut exit: Option<i32> = None;
        if must_reap {
            let status = match reaped {
                Ok(Some(status)) => status,
                Ok(None) => 0,
                Err(errno) => {
                    return Err(errno);
                },
            };
            self.lifecycle = Lifecycle::Dead { status };
            exit = Some(status);
        }
        Ok(DrainOutcome { data: drained.bytes, status: self.engine.status(), exit })
    }

    /// Keystrokes for the shell: what is to be written to its PTY, all of it
    /// (nothing once dead). Where the PTY takes less, see [`input_left`].
    pub fn write_input(&self, data: Vec<u8>) -> (r: Option<Vec<u8>>)
        ensures
            match r {
                Some(bytes) => !self@.is_dead() && bytes@ == data@,
                None => self@.is_dead(),
            },
    {
        if self.is_dead() {
            None
        } else {
            Some(data)
        }
    }

    /// Update the stored size. The size that the PTY is to be given, with a
    /// SIGWINCH (none once dead).
    pub fn resize(&mut self, cols: u16, rows: u16) -> (r: Option<Winsize>)
        ensures
            final(self)@ == (SessionView { size: size_of(cols, rows), ..old(self)@ }),
            r == if old(self)@.is_dead() {
                None::<Winsize>
            } else {
                Some(size_of(cols, rows))
            },
    {
        self.size = winsize(cols, rows);
        if self.is_dead() {
            None
        } else {
            Some(self.size)
        }
    }

    /// Produce the attach handshake replay. `want_chunks == 0` gives the full
    /// available scrollback (last purge boundary); otherwise cap to the most
    /// recent N.
    #[must_use]
    pub fn replay_for_attach(&self, want_chunks: usize) -> (r: AttachReplay)
        requires
            self@.wf(),
        ensures
            r.data@ == self@.replay(want_chunks as nat),
            r.status == self@.status(),
    {
        let data = if want_chunks == 0 {
            self.engine.replay()
        } else {
            self.engine.replay_capped(want_chunks)
        };
        AttachReplay { data, status: self.engine.status() }
    }

    pub fn status(&self) -> (r: StatusSnapshot)
        ensures
            r == self@.status(),
    {
        self.engine.status()
    }

    /// Whether the foreground process group decides what `running` is, so
    /// that it has to be asked for.
    #[must_use]
    pub fn needs_foreground(&self) -> (r: bool)
        ensures
            r == (!self@.is_dead() && !self@.has_prompt_marking()),
    {
        !self.is_dead() && !self.has_prompt_marking()
    }

    /// `running` fallback, where asking for the foreground process group gave
    /// `busy` (false once dead).
    #[must_use]
    pub fn poll_running(&self, busy: Result<bool, i32>) -> (r: bool)
        ensures
            r == self@.poll_running(busy),
    {
        if self.is_dead() {
            return false;
        }
        match busy {
            Ok(value) => value,
            Err(_) => false,
        }
    }

    /// Effective/merged `running`, matching the semantics the server uses for
    /// STATUS frames: the engine's OSC 133 value once prompt marking has been
    /// seen, otherwise the fallback. A dead session is never running.
    pub fn effective_running(&self, busy: Result<bool, i32>) -> (r: bool)
        ensures
            r == self@.effective_running(busy),
    {
        if self.is_dead() {
            return false;
        }
        if self.has_prompt_marking() {
            self.engine.status().running
        } else {
            self.poll_running(busy)
        }
    }

    /// Whether the shell uses OSC 133 prompt marking (engine latch).
    pub fn has_prompt_marking(&self) -> (r: bool)
        ensures
            r == self@.has_prompt_marking(),
    {
        self.engine.has_prompt_marking()
    }

    /// SIGHUP for the shell's process group (nothing once dead).
    pub fn hangup(&self) -> (r: Option<GroupSignal>)
        ensures
            r == if self@.is_dead() {
                None::<GroupSignal>
            } else {
                Some(GroupSignal::Hangup)
            },
    {
        if self.is_dead() {
            None
        } else {
            Some(GroupSignal::Hangup)
        }
    }

    /// SIGKILL for the shell's process group (nothing once dead).
    pub fn kill(&self) -> (r: Option<GroupSignal>)
        ensures
            r == if self@.is_dead() {
                None::<GroupSignal>
            } else {
                Some(GroupSignal::Kill)
            },
    {
        if self.is_dead() {
            None
        } else {
            Some(GroupSignal::Kill)
        }
    }

    /// Snapshot for the `List`/`Sessions` control reply.
    #[must_use]
    pub fn info(&self, has_client: bool, busy: Result<bool, i32>) -> (r: SessionInfo)
        ensures
            r.session_id@ == self@.id,
            r.argv@ == self@.argv,
            r.cwd@ == self@.cwd,
            r.running == self@.effective_running(busy),
            r.has_client == has_client,
            r.created_at == self@.created_at,
    {
        SessionInfo {
            session_id: self.id.clone(),
            argv: copy_strings(&self.argv),
            cwd: self.cwd.clone(),
            running: self.effective_running(busy),
            has_client,
            created_at: self.created_at,
        }
    }
}

/// A dead session is never running, whatever the foreground group.
pub proof fn law_dead_is_never_running(s: SessionView, busy: Result<bool, i32>)
    requires
        s.is_dead(),
    ensures
        !s.effective_running(busy),
        !s.poll_running(busy),
{
}

/// Once prompt marking has been seen the foreground group no longer matters,
/// and it stays so whatever the shell prints.
pub proof fn law_prompt_marking_is_authoritative(
    s: SessionView,
    bytes: Seq<u8>,
    exit: Option<i32>,
    a: Result<bool, i32>,
    b: Result<bool, i32>,
)
    requires
        s.has_prompt_marking(),
    ensures
        s.drained(bytes, exit).has_prompt_marking(),
        s.drained(bytes, exit).effective_running(a) == s.drained(bytes, exit).effective_running(b),
{
    crate::stream::law_prompt_marker_latches(s.engine, bytes);
}

/// Where the foreground group does not have to be asked for, it makes no
/// difference.
pub proof fn law_foreground_matters_only_if_needed(
    s: SessionView,
    a: Result<bool, i32>,
    b: Result<bool, i32>,
)
    requires
        s.is_dead() || s.has_prompt_marking(),
    ensures
        s.effective_running(a) == s.effective_running(b),
{
}

/// An exit keeps the replay: a dead session replays what it replayed before,
/// with the last output added.
pub proof fn law_exit_keeps_the_replay(
    s: SessionView,
    bytes: Seq<u8>,
    status: i32,
    want_chunks: nat,
)
    ensures
        s.drained(bytes, Some(status)).replay(want_chunks) == s.drained(bytes, None).replay(
            want_chunks,
        ),
        s.drained(bytes, Some(status)).lifecycle == (Lifecycle::Dead { status }),
{
}

/// A client that asks for no number of chunks is sent every byte kept since
/// the last purge, however many chunks there are, behind the prologue of the
/// oldest. One that asks for `want` chunks is sent the prologue and the data
/// of exactly the newest of them, or of all if there are fewer.
pub proof fn law_attach_replays_what_is_asked_for(s: SessionView, want: nat)
    requires
        s.wf(),
    ensures
        ({
            let chunks = s.engine.ring.chunks;
            let n = chunks.len();
            let m = if want == 0 || want >= n {
                n
            } else {
                want
            };
            s.replay(want) == chunks[n - m].prologue + pieces(
                chunks.subrange(n - m, n as int),
            ).flatten()
        }),
        s.replay(0) == s.engine.ring.chunks[0].prologue + s.engine.ring.data(),
{
    let ring = s.engine.ring;
    law_replay_is_the_newest_chunks(ring, want);
    law_replay_is_the_newest_chunks(ring, 0);
    assert(ring.chunks.subrange(0, ring.chunks.len() as int) =~= ring.chunks);
}

/// Every replay ends with the data of the open chunk, and the whole one with
/// all data. As many chunks as there are, or more, are the whole one.
pub proof fn law_replay_ends_with_the_newest_data(s: SessionView, want: nat)
    requires
        s.wf(),
        want > 0,
    ensures
        s.engine.ring.chunks.last().data.is_suffix_of(s.replay(want)),
        s.engine.ring.data().is_suffix_of(s.replay(0)),
        want >= s.engine.ring.chunks.len() ==> s.replay(want) == s.replay(0),
{
    let ring = s.engine.ring;
    let start = ring.replay_start(want);
    let kept = ring.chunks.skip(start);
    let last = ring.chunks.last().data;
    assert(kept.last() == ring.chunks.last());
    let all = s.replay(want);
    assert(all.subrange(all.len() - last.len(), all.len() as int) =~= last);
    let whole = s.replay(0);
    let data = ring.data();
    assert(whole.subrange(whole.len() - data.len(), whole.len() as int) =~= data);
    if want >= ring.chunks.len() {
        crate::ring::law_large_cap_replays_all(ring, want);
    }
}

/// What a listing shows as running: not of a dead session; with prompt marking
/// what the marks said last; otherwise whether something runs in the
/// foreground, which an error leaves at no.
pub proof fn law_running_is_decided_by(s: SessionView, busy: Result<bool, i32>)
    ensures
        s.lifecycle is Dead ==> !s.effective_running(busy) && !s.poll_running(busy),
        s.lifecycle is Live && s.engine.sink.status.saw_prompt_marker ==> s.effective_running(busy)
            == s.engine.sink.status.running,
        s.lifecycle is Live && !s.engine.sink.status.saw_prompt_marker ==> s.effective_running(busy)
            == (busy matches Ok(value) && value),
        s.lifecycle is Live ==> s.poll_running(busy) == (busy matches Ok(value) && value),
        s.status().running == s.engine.sink.status.running,
        s.status().progress == s.engine.sink.status.progress,
{
}

/// Output is fed to the engine, and an exit makes the session dead with its
/// status; nothing else of the session changes.
pub proof fn law_drain_feeds_and_ends(s: SessionView, bytes: Seq<u8>, exit: Option<i32>)
    ensures
        ({
            let t = s.drained(bytes, exit);
            &&& t.engine == s.engine.feed(bytes)
            &&& t.lifecycle == match exit {
                Some(status) => Lifecycle::Dead { status },
                None => s.lifecycle,
            }
            &&& t.id == s.id && t.argv == s.argv && t.cwd == s.cwd && t.size == s.size
                && t.created_at == s.created_at
            &&& t.is_dead() <==> s.lifecycle is Dead || exit is Some
        }),
{
}

/// A size has its columns and rows each in its place.
pub proof fn law_size_keeps_columns_and_rows(cols: u16, rows: u16)
    ensures
        size_of(cols, rows).ws_col == cols,
        size_of(cols, rows).ws_row == rows,
        size_of(cols, rows).ws_xpixel == 0,
        size_of(cols, rows).ws_ypixel == 0,
{
}

/// Input that was not taken stays, all of it and in order.
pub proof fn law_input_left_is_the_rest(data: Seq<u8>, taken: nat)
    ensures
        taken >= data.len() ==> left_over(data, taken).len() == 0,
        taken < data.len() ==> left_over(data, taken).len() == data.len() - taken && forall|i: int|
            0 <= i < data.len() - taken ==> #[trigger] left_over(data, taken)[i] == data[taken + i],
{
}

/// A new session cuts its ring at 128 KiB.
pub proof fn law_chunks_are_cut_at_128_kib(len: nat)
    ensures
        len >= WATERMARK <==> len >= 128 * 1024,
{
}

} // verus!
