//! The decisions of the server: what each event means for a session actor,
//! and what its client is sent. The sockets, queues and clocks are the
//! daemon's.

use vstd::prelude::*;

use crate::bytes::extend_bytes;
use crate::protocol::{
    data_frames, frame_data, frames, payloads, ExitMsg, Frame, FrameView, StatusMsg,
};
use crate::pty::{DrainResult, Winsize};
use crate::scanner::{heard, takes_in_units};
use crate::session::{
    busy_or_false, input_left, left_over, merged_running, size_of, DrainOutcome, GroupSignal,
    Lifecycle, Session, SessionView,
};
use crate::status::StatusSnapshot;

verus! {

/// Tunable runtime knobs. Times are in milliseconds.
#[derive(Debug, Clone, Copy, PartialEq, Eq, Structural)]
pub struct ServerOpts {
    /// How long a dead session is retained awaiting a reattach.
    pub dead_grace: u64,
    /// How long after the last session ends before the daemon self-exits.
    pub exit_grace: u64,
    /// Bounded per-client out-queue depth; overflow forces a detach.
    pub out_queue: usize,
    /// Interval for the foreground `running` fallback poll (shells without
    /// OSC 133).
    pub status_poll: u64,
}

impl Default for ServerOpts {
    fn default() -> (o: Self)
        ensures
            o.dead_grace == 30_000,
            o.exit_grace == 5_000,
            o.out_queue == 1024,
            o.status_poll == 300,
    {
        Self { dead_grace: 30_000, exit_grace: 5_000, out_queue: 1024, status_poll: 300 }
    }
}

/// Effective `running`: the engine's value once the shell has shown OSC 133
/// prompt marking, otherwise the foreground poll value.
pub fn merge_running(has_marking: bool, engine_running: bool, poll_running: bool) -> (r: bool)
    ensures
        r == merged_running(has_marking, engine_running, poll_running),
{
    if has_marking {
        engine_running
    } else {
        poll_running
    }
}

/// The status a client should see. A dead session is never running.
pub open spec fn client_status(s: SessionView, poll_running: bool) -> StatusSnapshot {
    StatusSnapshot {
        running: !s.is_dead() && merged_running(
            s.has_prompt_marking(),
            s.status().running,
            poll_running,
        ),
        progress: s.status().progress,
    }
}

/// Build the STATUS snapshot the client should see: merged `running`, engine
/// `progress`. A dead session is never running.
pub fn effective_status(session: &Session, poll_running: bool) -> (r: StatusSnapshot)
    ensures
        r == client_status(session@, poll_running),
{
    let snap = session.status();
    StatusSnapshot {
        running: !session.is_dead() && merge_running(
            session.has_prompt_marking(),
            snap.running,
            poll_running,
        ),
        progress: snap.progress,
    }
}

/// The value of a `Status` frame.
pub open spec fn status_value(s: StatusSnapshot) -> StatusMsg {
    StatusMsg { running: s.running, progress: s.progress }
}

/// The value of a `Status` frame.
pub fn status_msg(s: StatusSnapshot) -> (m: StatusMsg)
    ensures
        m == status_value(s),
{
    StatusMsg { running: s.running, progress: s.progress }
}

/// Something for the client, in the order in which it is to be sent.
#[derive(Debug, Clone, PartialEq, Eq)]
pub enum Outgoing {
    /// A frame that is ready for the wire.
    Frame(Frame),
    /// A `Status` frame with this value.
    Status(StatusMsg),
    /// An `Exit` frame with this value.
    Exit(ExitMsg),
}

/// What an [`Outgoing`] holds.
pub enum OutgoingView {
    Frame(FrameView),
    Status(StatusMsg),
    Exit(ExitMsg),
}

impl View for Outgoing {
    type V = OutgoingView;

    open spec fn view(&self) -> OutgoingView {
        match *self {
            Outgoing::Frame(f) => OutgoingView::Frame(f@),
            Outgoing::Status(m) => OutgoingView::Status(m),
            Outgoing::Exit(m) => OutgoingView::Exit(m),
        }
    }
}

/// The contents of what is sent.
pub open spec fn outgoing(v: Seq<Outgoing>) -> Seq<OutgoingView> {
    v.map_values(|o: Outgoing| o@)
}

/// `bytes` as `Data` frames.
pub open spec fn outgoing_data(bytes: Seq<u8>) -> Seq<OutgoingView> {
    data_frames(bytes).map_values(|f: FrameView| OutgoingView::Frame(f))
}

/// What an attaching client is sent: the replay, the status, and for a dead
/// session the exit.
pub open spec fn handshake(s: SessionView, want_chunks: nat, poll_running: bool) -> Seq<
    OutgoingView,
> {
    outgoing_data(s.replay(want_chunks)).push(
        OutgoingView::Status(status_value(client_status(s, poll_running))),
    ) + match s.lifecycle {
        Lifecycle::Dead { status } => seq![OutgoingView::Exit(ExitMsg { status })],
        Lifecycle::Live => Seq::empty(),
    }
}

/// What becomes of the actor.
#[derive(Debug, Clone, Copy, PartialEq, Eq, Structural)]
pub enum Fate {
    /// It goes on.
    Continue,
    /// It ends, and with it the session.
    End,
}

/// One session actor: the session, and what is known of its single client.
pub struct Actor {
    session: Session,
    /// Whether a client is attached.
    client: bool,
    /// Last status sent to the current client, so live drains only send a
    /// status when it actually changes. Without it, a redundant status sent
    /// just before a takeover would linger in the old client's socket.
    last_status: Option<StatusSnapshot>,
    /// Latest foreground fallback result (used until OSC 133 prompt marking
    /// shows).
    poll_running: bool,
    /// Set once a close arrives; the next drain that detects the exit ends
    /// the actor (instead of arming dead-session retention).
    closing: bool,
    /// A SIGKILL escalation is due.
    kill_armed: bool,
    /// The dead-session retention runs out.
    grace_armed: bool,
    /// Input that the PTY has not taken yet, oldest first.
    unwritten: Vec<u8>,
}

/// What an [`Actor`] holds.
pub struct ActorView {
    pub session: SessionView,
    pub client: bool,
    pub last_status: Option<StatusSnapshot>,
    pub poll_running: bool,
    pub closing: bool,
    pub kill_armed: bool,
    pub grace_armed: bool,
    pub unwritten: Seq<u8>,
}

impl ActorView {
    /// Only a dead session is retained.
    pub open spec fn wf(self) -> bool {
        self.session.wf() && (self.grace_armed ==> self.session.is_dead())
    }

    /// An actor around a session, without a client.
    pub open spec fn started(session: SessionView) -> ActorView {
        ActorView {
            session,
            client: false,
            last_status: None,
            poll_running: false,
            closing: false,
            kill_armed: false,
            grace_armed: false,
            unwritten: Seq::empty(),
        }
    }

    /// The foreground fallback decides what `running` is.
    pub open spec fn polls(self) -> bool {
        self.client && !self.session.is_dead() && !self.session.has_prompt_marking()
    }

    /// The actor with the foreground fallback brought up to date, and the
    /// status if it differs from the one the client has.
    pub open spec fn refreshed(self, busy: Result<bool, i32>) -> (ActorView, Option<StatusMsg>) {
        let poll_running = if self.polls() {
            self.session.poll_running(busy)
        } else {
            self.poll_running
        };
        let status = client_status(self.session, poll_running);
        if !self.client {
            (self, None)
        } else if self.last_status == Some(status) {
            (ActorView { poll_running, ..self }, None)
        } else {
            (
                ActorView { poll_running, last_status: Some(status), ..self },
                Some(status_value(status)),
            )
        }
    }

    /// The actor after a client has attached.
    pub open spec fn attached(
        self,
        cols: u16,
        rows: u16,
        busy: Result<bool, i32>,
    ) -> ActorView {
        let poll_running = if self.session.has_prompt_marking() {
            self.poll_running
        } else {
            self.session.poll_running(busy)
        };
        let session = SessionView { size: size_of(cols, rows), ..self.session };
        ActorView {
            session,
            client: true,
            last_status: Some(client_status(session, poll_running)),
            poll_running,
            ..self
        }
    }
}

impl View for Actor {
    type V = ActorView;

    closed spec fn view(&self) -> ActorView {
        ActorView {
            session: self.session@,
            client: self.client,
            last_status: self.last_status,
            poll_running: self.poll_running,
            closing: self.closing,
            kill_armed: self.kill_armed,
            grace_armed: self.grace_armed,
            unwritten: self.unwritten@,
        }
    }
}

/// What an attach asks of the daemon.
#[derive(Debug, Clone, PartialEq, Eq)]
pub struct Attached {
    /// The size to give the PTY, with a SIGWINCH, before anything is sent.
    pub resize: Option<Winsize>,
    /// What to send the new client, which replaces any earlier one.
    pub send: Vec<Outgoing>,
    pub fate: Fate,
}

/// What a close asks of the daemon.
#[derive(Debug, Clone, Copy, PartialEq, Eq, Structural)]
pub struct Closed {
    /// The signal to send to the shell's process group.
    pub signal: Option<GroupSignal>,
    /// When to escalate, in milliseconds from now.
    pub escalate_after: Option<u32>,
    /// The exit to send to the client, which is then let go.
    pub exit: Option<ExitMsg>,
    pub fate: Fate,
}

/// What the exit of a shell asks of the daemon.
#[derive(Debug, Clone, Copy, PartialEq, Eq, Structural)]
pub struct Exited {
    /// The exit to send to the client.
    pub exit: Option<ExitMsg>,
    /// Whether the dead session is now retained for a reattach.
    pub retain: bool,
    pub fate: Fate,
}

/// What a drain asks of the daemon.
#[derive(Debug, Clone, PartialEq, Eq)]
pub struct Forwarded {
    /// What to send to the client, in order.
    pub send: Vec<Outgoing>,
    /// Whether the dead session is now retained for a reattach.
    pub retain: bool,
    pub fate: Fate,
}

/// What the client is sent after a drain: the output, the status if it
/// changed, and the exit if there was one. Without a client, nothing.
pub open spec fn forwarded(
    a: ActorView,
    data: Seq<u8>,
    exit: Option<i32>,
    busy: Result<bool, i32>,
) -> Seq<OutgoingView> {
    if !a.client {
        Seq::empty()
    } else {
        outgoing_data(data) + match a.refreshed(busy).1 {
            Some(m) => seq![OutgoingView::Status(m)],
            None => Seq::empty(),
        } + match exit {
            Some(status) => seq![OutgoingView::Exit(ExitMsg { status })],
            None => Seq::empty(),
        }
    }
}

impl Actor {
    pub fn new(session: Session) -> (a: Self)
        requires
            session@.wf(),
        ensures
            a@ == ActorView::started(session@),
            a@.wf(),
    {
        let a = Self {
            session,
            client: false,
            last_status: None,
            poll_running: false,
            closing: false,
            kill_armed: false,
            grace_armed: false,
            unwritten: Vec::new(),
        };
        assert(a@.unwritten =~= Seq::<u8>::empty());
        a
    }

    pub fn session(&self) -> (s: &Session)
        ensures
            s@ == self@.session,
    {
        &self.session
    }

    /// Whether a client is attached.
    pub fn has_client(&self) -> (r: bool)
        ensures
            r == self@.client,
    {
        self.client
    }

    /// Whether output of the shell is waited for.
    pub fn wants_output(&self) -> (r: bool)
        ensures
            r == !self@.session.is_dead(),
    {
        !self.session.is_dead()
    }

    /// Whether the end of dead-session retention is waited for.
    pub fn wants_grace(&self) -> (r: bool)
        ensures
            r == self@.grace_armed,
    {
        self.grace_armed
    }

    /// Whether the time to escalate a close is waited for.
    pub fn wants_kill(&self) -> (r: bool)
        ensures
            r == self@.kill_armed,
    {
        self.kill_armed
    }

    /// Whether the foreground process group decides what `running` is, for
    /// the client that is attached.
    pub fn wants_poll(&self) -> (r: bool)
        ensures
            r == self@.polls(),
    {
        self.client && !self.session.is_dead() && !self.session.has_prompt_marking()
    }

    /// Keystrokes from the client: they are to be written to the PTY behind
    /// what it has not taken yet (nothing once dead).
    pub fn on_input(&mut self, data: Vec<u8>)
        requires
            old(self)@.wf(),
        ensures
            final(self)@ == old(self)@.after(ActorEvent::Input { data: data@ }),
            final(self)@.wf(),
    {
        if let Some(bytes) = self.session.write_input(data) {
            extend_bytes(&mut self.unwritten, bytes.as_slice());
        }
    }

    /// What is to be written to the PTY next.
    pub fn unwritten(&self) -> (r: &[u8])
        ensures
            r@ == self@.unwritten,
    {
        self.unwritten.as_slice()
    }

    /// Whether it is waited for that the PTY takes input.
    pub fn wants_write(&self) -> (r: bool)
        ensures
            r == (!self@.session.is_dead() && self@.unwritten.len() > 0),
    {
        !self.session.is_dead() && self.unwritten.len() > 0
    }

    /// The PTY took the first `taken` bytes of what was to be written.
    pub fn on_written(&mut self, taken: usize)
        requires
            old(self)@.wf(),
        ensures
            final(self)@ == old(self)@.after(ActorEvent::Written { taken: taken as nat }),
            final(self)@.wf(),
    {
        self.unwritten = input_left(self.unwritten.as_slice(), taken);
    }

    /// A resize from the client: the size to give the PTY, with a SIGWINCH.
    pub fn on_resize(&mut self, cols: u16, rows: u16) -> (r: Option<Winsize>)
        requires
            old(self)@.wf(),
        ensures
            final(self)@ == old(self)@.after(ActorEvent::Resize { cols, rows }),
            final(self)@.wf(),
            r == if old(self)@.session.is_dead() {
                None::<Winsize>
            } else {
                Some(size_of(cols, rows))
            },
    {
        self.session.resize(cols, rows)
    }

    /// Force-close: SIGHUP the group now; if it is still alive at the
    /// deadline, escalate to SIGKILL. The session is kept until the shell is
    /// reaped. If the shell was gone already, tell any client and end now.
    pub fn on_close(&mut self, grace_ms: u32) -> (r: Closed)
        requires
            old(self)@.wf(),
        ensures
            final(self)@.wf(),
            final(self)@ == old(self)@.after(ActorEvent::Close { grace_ms }),
            r.signal == if old(self)@.session.is_dead() {
                None::<GroupSignal>
            } else {
                Some(GroupSignal::Hangup)
            },
            r.escalate_after == if grace_ms > 0 {
                Some(grace_ms)
            } else {
                None::<u32>
            },
            match old(self)@.session.lifecycle {
                Lifecycle::Dead { status } => {
                    &&& r.fate == Fate::End
                    &&& r.exit == if old(self)@.client {
                        Some(ExitMsg { status })
                    } else {
                        None::<ExitMsg>
                    }
                },
                Lifecycle::Live => r.fate == Fate::Continue && r.exit is None,
            },
    {
        let signal = self.session.hangup();
        self.closing = true;
        let escalate_after = if grace_ms > 0 {
            self.kill_armed = true;
            Some(grace_ms)
        } else {
            None
        };
        match self.session.lifecycle() {
            Lifecycle::Dead { status } => {
                let exit = if self.client {
                    Some(ExitMsg { status })
                } else {
                    None
                };
                self.client = false;
                Closed { signal, escalate_after, exit, fate: Fate::End }
            },
            Lifecycle::Live => Closed { signal, escalate_after, exit: None, fate: Fate::Continue },
        }
    }

    /// Bind a (re)attaching client: most-recent-wins takeover, replay
    /// handshake. `busy` is the outcome of asking for the foreground process
    /// group; it matters only while the shell has shown no prompt marking.
    /// A dead session has then been told in full, and ends. Once a close has
    /// arrived no client is accepted any more: `None`, and its connection is
    /// to be closed.
    pub fn on_attach(
        &mut self,
        want_chunks: usize,
        cols: u16,
        rows: u16,
        busy: Result<bool, i32>,
    ) -> (r: Option<Attached>)
        requires
            old(self)@.wf(),
        ensures
            final(self)@.wf(),
            final(self)@ == old(self)@.after(ActorEvent::Attach { cols, rows, busy }),
            match r {
                None => old(self)@.closing,
                Some(a) => {
                    &&& !old(self)@.closing
                    &&& a.resize == if old(self)@.session.is_dead() {
                        None::<Winsize>
                    } else {
                        Some(size_of(cols, rows))
                    }
                    &&& outgoing(a.send@) == handshake(
                        old(self)@.session,
                        want_chunks as nat,
                        final(self)@.poll_running,
                    )
                    &&& a.fate == if old(self)@.session.is_dead() {
                        Fate::End
                    } else {
                        Fate::Continue
                    }
                },
            },
    {
        if self.closing {
            return None;
        }
        if !self.session.has_prompt_marking() {
            self.poll_running = self.session.poll_running(busy);
        }
        let resize = self.session.resize(cols, rows);
        let replay = self.session.replay_for_attach(want_chunks);
        let mut send = data_to_send(replay.data.as_slice());
        let status = effective_status(&self.session, self.poll_running);
        let ghost data = outgoing(send@);
        send.push(Outgoing::Status(status_msg(status)));
        assert(outgoing(send@) =~= data.push(OutgoingView::Status(status_value(status))));
        let ghost before_exit = outgoing(send@);
        let fate = match self.session.lifecycle() {
            Lifecycle::Dead { status } => {
                send.push(Outgoing::Exit(ExitMsg { status }));
                assert(outgoing(send@) =~= before_exit + seq![
                    OutgoingView::Exit(ExitMsg { status }),
                ]);
                Fate::End
            },
            Lifecycle::Live => {
                assert(before_exit =~= before_exit + Seq::<OutgoingView>::empty());
                Fate::Continue
            },
        };
        self.client = true;
        self.last_status = Some(status);
        Some(Attached { resize, send, fate })
    }

    /// Output of the shell has been read; see [`Session::drain`]. On an error
    /// the actor ends.
    pub fn on_output(&mut self, drained: DrainResult, reaped: Result<Option<i32>, i32>) -> (r:
        Result<DrainOutcome, i32>)
        requires
            old(self)@.wf(),
        ensures
            final(self)@.wf(),
            takes_in_units(
                old(self)@.session.engine,
                drained.bytes@,
                final(self)@.session.engine,
            ),
            heard(old(self)@.session.engine.history) ==> heard(
                final(self)@.session.engine.history,
            ),
            ({
                let exiting = drained.eof && !old(self)@.session.is_dead();
                match reaped {
                    Err(errno) if exiting => {
                        &&& r == Err::<DrainOutcome, i32>(errno)
                        &&& final(self)@ == (ActorView {
                            session: old(self)@.session.fed(drained.bytes@),
                            ..old(self)@
                        })
                    },
                    _ => {
                        let exit = if exiting {
                            Some(
                                match reaped {
                                    Ok(Some(status)) => status,
                                    _ => 0,
                                },
                            )
                        } else {
                            None::<i32>
                        };
                        &&& r matches Ok(out) && out.data@ == drained.bytes@ && out.exit == exit
                            && out.status == final(self)@.session.status()
                        &&& final(self)@ == old(self)@.after(
                            ActorEvent::Output { bytes: drained.bytes@, exit },
                        )
                    },
                }
            }),
    {
        self.session.drain(drained, reaped)
    }

    /// A frame was offered to the client; `sent` tells whether its queue took
    /// it. A client whose queue is full or closed is let go: the shell is
    /// never stalled by a client.
    pub fn on_offered(&mut self, sent: bool)
        requires
            old(self)@.wf(),
        ensures
            final(self)@ == old(self)@.after(ActorEvent::Offered { sent }),
            final(self)@.wf(),
    {
        if !sent {
            self.client = false;
        }
    }

    /// Bring the status up to date: what to send to the client, if it
    /// changed. `busy` is the outcome of asking for the foreground process
    /// group; it matters only where [`Actor::wants_poll`] holds.
    pub fn refresh_status(&mut self, busy: Result<bool, i32>) -> (r: Option<StatusMsg>)
        requires
            old(self)@.wf(),
        ensures
            final(self)@ == old(self)@.after(ActorEvent::Refresh { busy }),
            r == old(self)@.refreshed(busy).1,
            final(self)@.wf(),
    {
        if !self.client {
            return None;
        }
        if self.wants_poll() {
            self.poll_running = self.session.poll_running(busy);
        }
        let status = effective_status(&self.session, self.poll_running);
        if let Some(last) = self.last_status {
            if last == status {
                return None;
            }
        }
        self.last_status = Some(status);
        Some(status_msg(status))
    }

    /// A drain has been forwarded, in which the shell exited with `exit` or
    /// did not. After a close the actor ends; otherwise the dead session is
    /// retained for a reattach.
    pub fn on_exit(&mut self, exit: Option<i32>) -> (r: Exited)
        requires
            old(self)@.wf(),
            exit matches Some(status) ==> old(self)@.session.lifecycle == (Lifecycle::Dead {
                status,
            }),
        ensures
            final(self)@.wf(),
            match exit {
                None => {
                    &&& final(self)@ == old(self)@
                    &&& r == (Exited { exit: None, retain: false, fate: Fate::Continue })
                },
                Some(status) => {
                    &&& final(self)@ == old(self)@.after(ActorEvent::Exit)
                    &&& r == (Exited {
                        exit: if old(self)@.client {
                            Some(ExitMsg { status })
                        } else {
                            None
                        },
                        retain: !old(self)@.closing,
                        fate: if old(self)@.closing {
                            Fate::End
                        } else {
                            Fate::Continue
                        },
                    })
                },
            },
    {
        match exit {
            None => Exited { exit: None, retain: false, fate: Fate::Continue },
            Some(status) => {
                let exit = if self.client {
                    Some(ExitMsg { status })
                } else {
                    None
                };
                if self.closing {
                    Exited { exit, retain: false, fate: Fate::End }
                } else {
                    self.grace_armed = true;
                    Exited { exit, retain: true, fate: Fate::Continue }
                }
            },
        }
    }

    /// Forward a drain that was taken in by [`Actor::on_output`]. `busy` is the
    /// outcome of asking for the foreground process group; it matters only
    /// where [`Actor::wants_poll`] holds.
    pub fn forward(&mut self, outcome: DrainOutcome, busy: Result<bool, i32>) -> (r: Forwarded)
        requires
            old(self)@.wf(),
            outcome.exit matches Some(status) ==> old(self)@.session.lifecycle == (
            Lifecycle::Dead { status }),
        ensures
            final(self)@.wf(),
            final(self)@ == (if outcome.exit is Some {
                old(self)@.refreshed(busy).0.after(ActorEvent::Exit)
            } else {
                old(self)@.refreshed(busy).0
            }),
            outgoing(r.send@) == forwarded(old(self)@, outcome.data@, outcome.exit, busy),
            r.retain == (outcome.exit is Some && !old(self)@.closing),
            r.fate == if outcome.exit is Some && old(self)@.closing {
                Fate::End
            } else {
                Fate::Continue
            },
    {
        let mut send = if self.client {
            data_to_send(outcome.data.as_slice())
        } else {
            Vec::new()
        };
        let ghost data = outgoing(send@);
        assert(!self@.client ==> data =~= Seq::<OutgoingView>::empty());
        let status = self.refresh_status(busy);
        if let Some(m) = status {
            send.push(Outgoing::Status(m));
            assert(outgoing(send@) =~= data + seq![OutgoingView::Status(m)]);
        } else {
            assert(outgoing(send@) =~= data + Seq::<OutgoingView>::empty());
        }
        let ghost told = outgoing(send@);
        let exited = self.on_exit(outcome.exit);
        if let Some(m) = exited.exit {
            send.push(Outgoing::Exit(m));
            assert(outgoing(send@) =~= told + seq![OutgoingView::Exit(m)]);
        } else {
            assert(outgoing(send@) =~= told + Seq::<OutgoingView>::empty());
        }
        Forwarded { send, retain: exited.retain, fate: exited.fate }
    }

    /// The time to escalate a close has come: if the shell was not reaped,
    /// kill its whole process group. Fires once.
    pub fn on_kill_due(&mut self) -> (r: Option<GroupSignal>)
        requires
            old(self)@.wf(),
        ensures
            final(self)@ == old(self)@.after(ActorEvent::KillDue),
            final(self)@.wf(),
            r == if old(self)@.session.is_dead() {
                None::<GroupSignal>
            } else {
                Some(GroupSignal::Kill)
            },
    {
        self.kill_armed = false;
        self.session.kill()
    }
}

/// `bytes` as `Data` frames to send.
pub fn data_to_send(bytes: &[u8]) -> (r: Vec<Outgoing>)
    ensures
        outgoing(r@) == outgoing_data(bytes@),
{
    let list = frame_data(bytes);
    let ghost all = frames(list@);
    let mut r: Vec<Outgoing> = Vec::new();
    for f in it: list
        invariant
            it.seq() == list@,
            r@.len() == it.index(),
            forall|j: int| 0 <= j < r@.len() ==> (#[trigger] r@[j])@ == OutgoingView::Frame(list@[j]@),
    {
        r.push(Outgoing::Frame(f));
    }
    assert(outgoing(r@) =~= outgoing_data(bytes@));
    r
}

/// What clients are told agrees with what a listing shows, where asking for
/// the foreground process group gave `busy`.
pub proof fn law_status_agrees_with_listing(s: SessionView, busy: Result<bool, i32>)
    ensures
        client_status(s, busy_or_false(busy)).running == s.effective_running(busy),
        s.is_dead() ==> !client_status(s, busy_or_false(busy)).running,
{
}

/// A status is sent once: right after it was sent, or after it was found not
/// to have changed, there is nothing more to send.
pub proof fn law_status_is_sent_once(a: ActorView, busy: Result<bool, i32>)
    ensures
        a.refreshed(busy).0.refreshed(busy) == (a.refreshed(busy).0, None::<StatusMsg>),
{
}

/// The handshake leaves nothing to be said: right after an attach there is no
/// status to send, so a client that is taken over gets nothing further.
pub proof fn law_handshake_carries_the_status(
    a: ActorView,
    cols: u16,
    rows: u16,
    busy: Result<bool, i32>,
)
    ensures
        a.attached(cols, rows, busy).refreshed(busy).1 is None,
        a.attached(cols, rows, busy).client,
{
}

/// The handshake carries the whole replay in `Data` frames, then one status,
/// then the exit status if and only if the session is dead.
pub proof fn law_handshake_carries_the_replay(s: SessionView, want_chunks: nat, poll_running: bool)
    ensures
        ({
            let sent = handshake(s, want_chunks, poll_running);
            let list = data_frames(s.replay(want_chunks));
            let n = list.len() as int;
            &&& sent.take(n) == outgoing_data(s.replay(want_chunks))
            &&& payloads(list) == s.replay(want_chunks)
            &&& sent[n] == OutgoingView::Status(status_value(client_status(s, poll_running)))
            &&& match s.lifecycle {
                Lifecycle::Dead { status } => sent.len() == n + 2 && sent[n + 1]
                    == OutgoingView::Exit(ExitMsg { status }),
                Lifecycle::Live => sent.len() == n + 1,
            }
        }),
{
    let sent = handshake(s, want_chunks, poll_running);
    let list = data_frames(s.replay(want_chunks));
    crate::protocol::law_data_frames_hold_the_output(s.replay(want_chunks));
    assert(sent.take(list.len() as int) =~= outgoing_data(s.replay(want_chunks)));
}

/// Attaching, a client that is let go, and a changed status leave the shell's
/// side of the session as it was, but for its size.
pub proof fn law_clients_do_not_disturb_the_shell(
    a: ActorView,
    cols: u16,
    rows: u16,
    busy: Result<bool, i32>,
)
    ensures
        a.refreshed(busy).0.session == a.session,
        a.attached(cols, rows, busy).session == (SessionView {
            size: size_of(cols, rows),
            ..a.session
        }),
        a.attached(cols, rows, busy).closing == a.closing,
        a.attached(cols, rows, busy).kill_armed == a.kill_armed,
        a.attached(cols, rows, busy).grace_armed == a.grace_armed,
{
}

// ---------------------------------------------------------------------
// The life of an actor
// ---------------------------------------------------------------------
/// Something that happens to an actor.
pub enum ActorEvent {
    /// Keystrokes.
    Input { data: Seq<u8> },
    /// The PTY took input.
    Written { taken: nat },
    /// A resize.
    Resize { cols: u16, rows: u16 },
    /// A close.
    Close { grace_ms: u32 },
    /// A client attaches.
    Attach { cols: u16, rows: u16, busy: Result<bool, i32> },
    /// Output was read, and the shell exited with `exit` or did not.
    Output { bytes: Seq<u8>, exit: Option<i32> },
    /// A frame was offered to the client.
    Offered { sent: bool },
    /// The status was brought up to date.
    Refresh { busy: Result<bool, i32> },
    /// The exit was forwarded.
    Exit,
    /// The time to escalate a close has come.
    KillDue,
}

impl ActorView {
    /// The actor after one event, as the methods of [`Actor`] change it.
    pub open spec fn after(self, event: ActorEvent) -> ActorView {
        match event {
            ActorEvent::Input { data } => ActorView {
                unwritten: if self.session.is_dead() {
                    self.unwritten
                } else {
                    self.unwritten + data
                },
                ..self
            },
            ActorEvent::Written { taken } => ActorView {
                unwritten: left_over(self.unwritten, taken),
                ..self
            },
            ActorEvent::Resize { cols, rows } => ActorView {
                session: SessionView { size: size_of(cols, rows), ..self.session },
                ..self
            },
            ActorEvent::Close { grace_ms } => ActorView {
                closing: true,
                kill_armed: self.kill_armed || grace_ms > 0,
                client: self.client && !self.session.is_dead(),
                ..self
            },
            ActorEvent::Attach { cols, rows, busy } => if self.closing {
                self
            } else {
                self.attached(cols, rows, busy)
            },
            ActorEvent::Output { bytes, exit } => ActorView {
                session: if self.session.is_dead() {
                    self.session.drained(bytes, None)
                } else {
                    self.session.drained(bytes, exit)
                },
                ..self
            },
            ActorEvent::Offered { sent } => ActorView { client: self.client && sent, ..self },
            ActorEvent::Refresh { busy } => self.refreshed(busy).0,
            ActorEvent::Exit => ActorView {
                grace_armed: self.grace_armed || self.session.is_dead() && !self.closing,
                ..self
            },
            ActorEvent::KillDue => ActorView { kill_armed: false, ..self },
        }
    }

    /// The actor after events, in order.
    pub open spec fn after_all(self, events: Seq<ActorEvent>) -> ActorView
        decreases events.len(),
    {
        if events.len() == 0 {
            self
        } else {
            self.after_all(events.drop_last()).after(events.last())
        }
    }
}

/// The bytes that the PTY took in the course of the events, in order.
pub open spec fn written(a: ActorView, events: Seq<ActorEvent>) -> Seq<u8>
    decreases events.len(),
{
    if events.len() == 0 {
        Seq::empty()
    } else {
        let front = events.drop_last();
        let waiting = a.after_all(front).unwritten;
        written(a, front) + match events.last() {
            ActorEvent::Written { taken } => if taken <= waiting.len() {
                waiting.take(taken as int)
            } else {
                waiting
            },
            _ => Seq::empty(),
        }
    }
}

/// The input that came for the shell while it was alive, in order.
pub open spec fn received(a: ActorView, events: Seq<ActorEvent>) -> Seq<u8>
    decreases events.len(),
{
    if events.len() == 0 {
        Seq::empty()
    } else {
        let front = events.drop_last();
        received(a, front) + match events.last() {
            ActorEvent::Input { data } => if a.after_all(front).session.is_dead() {
                Seq::empty()
            } else {
                data
            },
            _ => Seq::empty(),
        }
    }
}

/// Input is forwarded verbatim, however much of it the PTY takes at a time:
/// what it took, with what still waits behind it, is what came, in order.
pub proof fn law_input_is_forwarded_verbatim(a: ActorView, events: Seq<ActorEvent>)
    ensures
        written(a, events) + a.after_all(events).unwritten == a.unwritten + received(a, events),
    decreases events.len(),
{
    if events.len() == 0 {
        assert(written(a, events) + a.unwritten =~= a.unwritten + received(a, events));
    } else {
        let front = events.drop_last();
        law_input_is_forwarded_verbatim(a, front);
        let before = a.after_all(front);
        let after = a.after_all(events);
        assert(written(a, events) + after.unwritten =~= written(a, front) + before.unwritten + (
        match events.last() {
            ActorEvent::Input { data } if !before.session.is_dead() => data,
            _ => Seq::empty(),
        }));
        assert(a.unwritten + received(a, events) =~= a.unwritten + received(a, front) + (
        match events.last() {
            ActorEvent::Input { data } if !before.session.is_dead() => data,
            _ => Seq::empty(),
        }));
    }
}

/// Death and a close are final: no event revives a session, changes its exit
/// status, or takes a close back. A dead session alone is retained.
pub proof fn law_death_and_close_are_final(a: ActorView, events: Seq<ActorEvent>)
    requires
        a.grace_armed ==> a.session.is_dead(),
    ensures
        a.session.is_dead() ==> a.after_all(events).session.lifecycle == a.session.lifecycle,
        a.closing ==> a.after_all(events).closing,
        a.after_all(events).grace_armed ==> a.after_all(events).session.is_dead(),
    decreases events.len(),
{
    if events.len() > 0 {
        law_death_and_close_are_final(a, events.drop_last());
    }
}

/// A shell is never killed unless a close with a grace period asked for it:
/// attaching, detaching, input and closes without grace never arm the kill.
pub proof fn law_kill_needs_a_close_with_grace(a: ActorView, events: Seq<ActorEvent>)
    requires
        !a.kill_armed,
        forall|i: int|
            0 <= i < events.len() ==> (#[trigger] events[i] matches ActorEvent::Close { grace_ms }
                ==> grace_ms == 0),
    ensures
        !a.after_all(events).kill_armed,
    decreases events.len(),
{
    if events.len() > 0 {
        let front = events.drop_last();
        assert forall|i: int| 0 <= i < front.len() implies (
        #[trigger] front[i] matches ActorEvent::Close { grace_ms } ==> grace_ms == 0) by {
            assert(front[i] == events[i]);
        }
        law_kill_needs_a_close_with_grace(a, front);
        assert(events.last() == events[events.len() - 1]);
    }
}

/// Once a close has arrived, no client is bound any more: an actor without a
/// client stays without one.
pub proof fn law_close_keeps_clients_out(a: ActorView, events: Seq<ActorEvent>)
    requires
        a.closing,
        !a.client,
    ensures
        !a.after_all(events).client,
        a.after_all(events).closing,
    decreases events.len(),
{
    if events.len() > 0 {
        law_close_keeps_clients_out(a, events.drop_last());
    }
}

// ---------------------------------------------------------------------
// Event by event
// ---------------------------------------------------------------------
/// What a client is told: a dead session does not run; with prompt marking the
/// marks decide, and otherwise the foreground poll. The progress is that of the
/// engine, and the frame holds both.
pub proof fn law_client_is_told_the_truth(s: SessionView, poll_running: bool)
    ensures
        ({
            let told = status_value(client_status(s, poll_running));
            &&& told.running <==> s.lifecycle is Live && if s.engine.sink.status.saw_prompt_marker {
                s.engine.sink.status.running
            } else {
                poll_running
            }
            &&& told.progress == s.engine.sink.status.progress
        }),
{
}

/// A status is sent if and only if there is a client and it was last told
/// something else. The foreground is asked about only for a live session
/// without prompt marking.
pub proof fn law_status_is_sent_when_it_changes(a: ActorView, busy: Result<bool, i32>)
    ensures
        ({
            let asks = a.session.lifecycle is Live && !a.session.engine.sink.status.saw_prompt_marker;
            let poll = if asks {
                busy matches Ok(value) && value
            } else {
                a.poll_running
            };
            let now = client_status(a.session, poll);
            let (b, sent) = a.refreshed(busy);
            &&& sent is Some <==> a.client && a.last_status != Some(now)
            &&& sent is Some ==> sent->0.running == now.running && sent->0.progress == now.progress
            &&& a.client ==> b.last_status == Some(now) && b.poll_running == poll
            &&& !a.client ==> b == a
            &&& b.session == a.session && b.client == a.client && b.closing == a.closing
                && b.kill_armed == a.kill_armed && b.grace_armed == a.grace_armed && b.unwritten
                == a.unwritten
        }),
{
}

/// A client is bound by an attach that no close came before, and lost by a
/// frame that its queue did not take, or by a close of a dead session; by
/// nothing else.
pub proof fn law_client_comes_and_goes(a: ActorView, event: ActorEvent)
    ensures
        a.after(event).client <==> {
            ||| event is Attach && !a.closing
            ||| a.client && !(event matches ActorEvent::Offered { sent } && !sent) && !(event is Close
                && a.session.lifecycle is Dead)
        },
{
}

/// A close marks the actor as closing; one with a grace period arms the kill,
/// which is fired once. An exit arms the retention of the dead session, unless
/// a close came. Nothing else changes any of these.
pub proof fn law_marks_change_only_for_cause(a: ActorView, event: ActorEvent)
    ensures
        a.after(event).closing <==> a.closing || event is Close,
        a.after(event).kill_armed <==> {
            ||| event matches ActorEvent::Close { grace_ms } && grace_ms > 0
            ||| a.kill_armed && !(event is KillDue)
        },
        a.after(event).grace_armed <==> {
            ||| a.grace_armed
            ||| event is Exit && a.session.lifecycle is Dead && !a.closing
        },
{
}

/// Output is fed to the engine, and the first exit makes the session dead. A
/// resize, and an attach that no close came before, set the size. Nothing else
/// touches the session.
pub proof fn law_session_changes_only_for_cause(a: ActorView, event: ActorEvent)
    ensures
        ({
            let s = a.session;
            let t = a.after(event).session;
            &&& t.id == s.id && t.argv == s.argv && t.cwd == s.cwd && t.created_at == s.created_at
            &&& t.engine == match event {
                ActorEvent::Output { bytes, exit } => s.engine.feed(bytes),
                _ => s.engine,
            }
            &&& t.lifecycle == match event {
                ActorEvent::Output { bytes, exit: Some(status) } if s.lifecycle is Live => Lifecycle::Dead {
                    status,
                },
                _ => s.lifecycle,
            }
            &&& match event {
                ActorEvent::Resize { cols, rows } => t.size.ws_col == cols && t.size.ws_row == rows,
                ActorEvent::Attach { cols, rows, busy } if !a.closing => t.size.ws_col == cols
                    && t.size.ws_row == rows,
                _ => t.size == s.size,
            }
        }),
{
}

/// Input waits behind what waits already, of a live session; what the PTY took
/// is gone from the front. Nothing else touches what waits.
pub proof fn law_waiting_input_changes_only_for_cause(a: ActorView, event: ActorEvent)
    ensures
        ({
            let before = a.unwritten;
            let now = a.after(event).unwritten;
            match event {
                ActorEvent::Input { data } => now == if a.session.lifecycle is Dead {
                    before
                } else {
                    before + data
                },
                ActorEvent::Written { taken } => if taken <= before.len() {
                    before == before.take(taken as int) + now
                } else {
                    now.len() == 0
                },
                _ => now == before,
            }
        }),
{
    if let ActorEvent::Written { taken } = event {
        if taken <= a.unwritten.len() {
            assert(a.unwritten =~= a.unwritten.take(taken as int) + a.unwritten.skip(taken as int));
        }
    }
}

/// The status that an attaching client was sent is remembered as the last.
pub proof fn law_attach_remembers_the_status(
    a: ActorView,
    cols: u16,
    rows: u16,
    busy: Result<bool, i32>,
)
    ensures
        ({
            let b = a.attached(cols, rows, busy);
            let poll = if a.session.engine.sink.status.saw_prompt_marker {
                a.poll_running
            } else {
                a.session.lifecycle is Live && (busy matches Ok(value) && value)
            };
            &&& b.poll_running == poll
            &&& b.last_status == Some(client_status(a.session, poll))
        }),
{
}

/// Output is sent as the `Data` frames that hold it.
pub proof fn law_output_is_sent_as_data(bytes: Seq<u8>, i: int)
    requires
        0 <= i < data_frames(bytes).len(),
    ensures
        outgoing_data(bytes).len() == data_frames(bytes).len(),
        outgoing_data(bytes)[i] == OutgoingView::Frame(data_frames(bytes)[i]),
        data_frames(bytes)[i].ty is Data,
        payloads(data_frames(bytes)) == bytes,
{
    crate::protocol::law_data_frames_hold_the_output(bytes);
}

/// A drain is forwarded to the client as its output, then a status if and only
/// if that changed, then the exit if and only if there was one; without a
/// client nothing is sent.
pub proof fn law_drain_is_forwarded_in_order(
    a: ActorView,
    data: Seq<u8>,
    exit: Option<i32>,
    busy: Result<bool, i32>,
)
    ensures
        ({
            let sent = forwarded(a, data, exit, busy);
            let n = outgoing_data(data).len() as int;
            let told = a.refreshed(busy).1;
            let k = if told is Some {
                n + 1
            } else {
                n
            };
            &&& !a.client ==> sent.len() == 0
            &&& a.client ==> sent.take(n) == outgoing_data(data)
            &&& a.client && told is Some ==> sent[n] == OutgoingView::Status(told->0)
            &&& a.client ==> match exit {
                Some(status) => sent.len() == k + 1 && sent[k] == OutgoingView::Exit(
                    ExitMsg { status },
                ),
                None => sent.len() == k,
            }
        }),
{
    let sent = forwarded(a, data, exit, busy);
    if a.client {
        assert(sent.take(outgoing_data(data).len() as int) =~= outgoing_data(data));
    }
}

/// An actor starts without a client and without anything waiting.
pub proof fn law_actor_starts_alone(session: SessionView)
    ensures
        ({
            let a = ActorView::started(session);
            &&& a.session == session
            &&& !a.client && !a.closing && !a.kill_armed && !a.grace_armed && !a.poll_running
            &&& a.last_status is None
            &&& a.unwritten.len() == 0
        }),
{
}

/// The foreground is polled for a client of a live session without prompt
/// marking, and for no other.
pub proof fn law_foreground_is_polled_for_a_client(a: ActorView)
    ensures
        a.polls() <==> a.client && a.session.lifecycle is Live
            && !a.session.engine.sink.status.saw_prompt_marker,
{
}

/// What the client was last told, and what the last poll found, change only
/// with an attach that no close came before, and with a refresh.
pub proof fn law_memory_changes_only_for_cause(a: ActorView, event: ActorEvent)
    ensures
        ({
            let b = a.after(event);
            match event {
                ActorEvent::Attach { cols, rows, busy } if !a.closing => b.last_status == Some(
                    client_status(a.session, b.poll_running),
                ) && b.poll_running == (if a.session.engine.sink.status.saw_prompt_marker {
                    a.poll_running
                } else {
                    a.session.lifecycle is Live && (busy matches Ok(value) && value)
                }),
                ActorEvent::Refresh { busy } => b == a.refreshed(busy).0,
                _ => b.last_status == a.last_status && b.poll_running == a.poll_running,
            }
        }),
{
}

} // verus!
