//! Becoming the daemon: one lock and one socket decide a spawn race, and the
//! standard streams of the daemon are cut off.

use vstd::prelude::*;

verus! {

/// How far the attempt to become the daemon has come.
#[derive(Debug, Clone, Copy, PartialEq, Eq, Structural)]
pub enum AcquireStage {
    /// The lockfile is being taken.
    Locking,
    /// The lock is held; the socket is being bound.
    Binding,
    /// Something is in the way of the socket; it is being looked at.
    Inspecting,
    /// A stale socket is being removed.
    Unlinking,
    /// The socket is being bound again.
    Rebinding,
    /// The attempt is over.
    Over,
}

/// The outcome of what was last tried.
#[derive(Debug, Clone, Copy, PartialEq, Eq, Structural)]
pub enum AcquireEvent {
    /// It succeeded.
    Succeeded,
    /// The lock is held by another process.
    LockHeld,
    /// There is a file at the path of the socket.
    AddressInUse,
    /// What is in the way is this.
    Leftover { is_socket: bool, owner: u32 },
    /// It failed otherwise.
    Failed,
}

/// What to do next.
#[derive(Debug, Clone, Copy, PartialEq, Eq, Structural)]
pub enum AcquireAction {
    /// Bind the socket.
    Bind,
    /// Look at what is in the way, without following a link.
    Inspect,
    /// Remove what is in the way.
    Unlink,
    /// The socket is bound and the lock held: serve.
    Serve,
    /// Another daemon is running: exit.
    AlreadyRunning,
    /// Refuse: what is in the way is not a socket.
    RefuseNonSocket,
    /// Refuse: the socket belongs to another user.
    RefuseForeign,
    /// Give up with the error of what was last tried.
    Fail,
}

/// What a leftover at the path of the socket means for the user `uid`: only a
/// socket of their own is stale, so a planted file, a directory, or a node of
/// another user is never removed.
pub open spec fn stale_verdict(is_socket: bool, owner: u32, uid: u32) -> AcquireAction {
    if !is_socket {
        AcquireAction::RefuseNonSocket
    } else if owner != uid {
        AcquireAction::RefuseForeign
    } else {
        AcquireAction::Unlink
    }
}

/// One step of the attempt to become the daemon.
pub open spec fn acquire_step(stage: AcquireStage, event: AcquireEvent, uid: u32) -> (
    AcquireStage,
    AcquireAction,
) {
    match (stage, event) {
        (AcquireStage::Locking, AcquireEvent::Succeeded) => (
            AcquireStage::Binding,
            AcquireAction::Bind,
        ),
        (AcquireStage::Locking, AcquireEvent::LockHeld) => (
            AcquireStage::Over,
            AcquireAction::AlreadyRunning,
        ),
        (AcquireStage::Binding, AcquireEvent::Succeeded) => (
            AcquireStage::Over,
            AcquireAction::Serve,
        ),
        (AcquireStage::Binding, AcquireEvent::AddressInUse) => (
            AcquireStage::Inspecting,
            AcquireAction::Inspect,
        ),
        (AcquireStage::Inspecting, AcquireEvent::Leftover { is_socket, owner }) => (
            if stale_verdict(is_socket, owner, uid) == AcquireAction::Unlink {
                AcquireStage::Unlinking
            } else {
                AcquireStage::Over
            },
            stale_verdict(is_socket, owner, uid),
        ),
        (AcquireStage::Unlinking, AcquireEvent::Succeeded) => (
            AcquireStage::Rebinding,
            AcquireAction::Bind,
        ),
        (AcquireStage::Rebinding, AcquireEvent::Succeeded) => (
            AcquireStage::Over,
            AcquireAction::Serve,
        ),
        _ => (AcquireStage::Over, AcquireAction::Fail),
    }
}

/// Decides whether a leftover at the path of the socket may be removed.
pub fn unlink_stale_socket(is_socket: bool, owner: u32, uid: u32) -> (action: AcquireAction)
    ensures
        action == stale_verdict(is_socket, owner, uid),
{
    if !is_socket {
        AcquireAction::RefuseNonSocket
    } else if owner != uid {
        AcquireAction::RefuseForeign
    } else {
        AcquireAction::Unlink
    }
}

/// The attempt of the user `uid` to become the daemon. Holding the lock makes
/// the process authoritative, so a leftover socket is stale.
#[derive(Debug)]
pub struct Acquisition {
    stage: AcquireStage,
    uid: u32,
}

impl Acquisition {
    pub closed spec fn stage(&self) -> AcquireStage {
        self.stage
    }

    pub closed spec fn uid(&self) -> u32 {
        self.uid
    }

    /// An attempt that starts with taking the lock.
    pub fn new(uid: u32) -> (a: Self)
        ensures
            a.stage() == AcquireStage::Locking,
            a.uid() == uid,
    {
        Self { stage: AcquireStage::Locking, uid }
    }

    /// Takes in the outcome of what was last tried.
    pub fn acquire_daemon(&mut self, event: AcquireEvent) -> (action: AcquireAction)
        ensures
            (final(self).stage(), action) == acquire_step(old(self).stage(), event, old(self).uid()),
            final(self).uid() == old(self).uid(),
    {
        let (stage, action) = match (self.stage, event) {
            (AcquireStage::Locking, AcquireEvent::Succeeded) => (
                AcquireStage::Binding,
                AcquireAction::Bind,
            ),
            (AcquireStage::Locking, AcquireEvent::LockHeld) => (
                AcquireStage::Over,
                AcquireAction::AlreadyRunning,
            ),
            (AcquireStage::Binding, AcquireEvent::Succeeded) => (
                AcquireStage::Over,
                AcquireAction::Serve,
            ),
            (AcquireStage::Binding, AcquireEvent::AddressInUse) => (
                AcquireStage::Inspecting,
                AcquireAction::Inspect,
            ),
            (AcquireStage::Inspecting, AcquireEvent::Leftover { is_socket, owner }) => {
                let action = unlink_stale_socket(is_socket, owner, self.uid);
                if is_socket && owner == self.uid {
                    (AcquireStage::Unlinking, action)
                } else {
                    (AcquireStage::Over, action)
                }
            },
            (AcquireStage::Unlinking, AcquireEvent::Succeeded) => (
                AcquireStage::Rebinding,
                AcquireAction::Bind,
            ),
            (AcquireStage::Rebinding, AcquireEvent::Succeeded) => (
                AcquireStage::Over,
                AcquireAction::Serve,
            ),
            _ => (AcquireStage::Over, AcquireAction::Fail),
        };
        self.stage = stage;
        action
    }
}

/// Only a socket of the user's own is ever removed, and only while the lock
/// is held.
pub proof fn law_only_own_sockets_are_removed(
    stage: AcquireStage,
    event: AcquireEvent,
    uid: u32,
)
    requires
        acquire_step(stage, event, uid).1 == AcquireAction::Unlink,
    ensures
        stage == AcquireStage::Inspecting,
        event == (AcquireEvent::Leftover { is_socket: true, owner: uid }),
{
}

/// Where the standard streams are redirected from the open file `source`.
#[derive(Debug, Clone, PartialEq, Eq)]
pub struct RedirectPlan {
    /// The descriptors to make copies of `source`, in order.
    pub targets: Vec<i32>,
    /// Whether `source` is to be closed at the end, also after an error.
    pub close_source: bool,
}

/// The standard streams other than `source`, in order.
pub open spec fn redirect_targets(source: i32) -> Seq<i32> {
    if source == 0 {
        seq![1i32, 2i32]
    } else if source == 1 {
        seq![0i32, 2i32]
    } else if source == 2 {
        seq![0i32, 1i32]
    } else {
        seq![0i32, 1i32, 2i32]
    }
}

/// Plans the redirection of the three standard streams to the open file
/// `source`. Where the process started with one of them closed, `source` may
/// itself be one of them: it is then left as it is, and not closed.
pub fn redirect_std(source: i32) -> (plan: RedirectPlan)
    ensures
        plan.targets@ == redirect_targets(source),
        plan.close_source == (source > 2),
{
    let mut targets: Vec<i32> = Vec::new();
    if source != 0 {
        targets.push(0);
    }
    if source != 1 {
        targets.push(1);
    }
    if source != 2 {
        targets.push(2);
    }
    assert(targets@ =~= redirect_targets(source));
    RedirectPlan { targets, close_source: source > 2 }
}

/// Every standard stream ends up redirected and open: it is a copy of the
/// source, or the source itself, which then stays open.
pub proof fn law_every_stream_is_redirected(source: i32, stream: i32)
    requires
        0 <= stream <= 2,
    ensures
        redirect_targets(source).contains(stream) || source == stream && !(source > 2),
        !redirect_targets(source).contains(source),
{
    let t = redirect_targets(source);
    if source != stream {
        assert(t.contains(stream)) by {
            assert(t[0] == stream || t[1] == stream || t[2] == stream);
        }
    }
}

/// A leftover is removed if and only if it is a socket of the user's own; what
/// is no socket is refused as such, whoever owns it, and another user's socket
/// as foreign.
pub proof fn law_stale_socket_is_removed(is_socket: bool, owner: u32, uid: u32)
    ensures
        stale_verdict(is_socket, owner, uid) == AcquireAction::Unlink <==> is_socket && owner
            == uid,
        stale_verdict(is_socket, owner, uid) == AcquireAction::RefuseNonSocket <==> !is_socket,
        stale_verdict(is_socket, owner, uid) == AcquireAction::RefuseForeign <==> is_socket
            && owner != uid,
        acquire_step(
            AcquireStage::Inspecting,
            AcquireEvent::Leftover { is_socket, owner },
            uid,
        ).1 == stale_verdict(is_socket, owner, uid),
{
}

/// The stage after outcomes, from the start.
pub open spec fn stage_after(events: Seq<AcquireEvent>, uid: u32) -> AcquireStage
    decreases events.len(),
{
    if events.len() == 0 {
        AcquireStage::Locking
    } else {
        acquire_step(stage_after(events.drop_last(), uid), events.last(), uid).0
    }
}

/// What is done after the last of the outcomes.
pub open spec fn action_after(events: Seq<AcquireEvent>, uid: u32) -> AcquireAction
    recommends
        events.len() > 0,
{
    acquire_step(stage_after(events.drop_last(), uid), events.last(), uid).1
}

/// The outcomes are those of a start that ends in serving: the lock is taken
/// and the socket bound, at once or after a stale socket of the user's own was
/// removed.
pub open spec fn leads_to_serving(events: Seq<AcquireEvent>, uid: u32) -> bool {
    ||| events == seq![AcquireEvent::Succeeded, AcquireEvent::Succeeded]
    ||| events == seq![
        AcquireEvent::Succeeded,
        AcquireEvent::AddressInUse,
        AcquireEvent::Leftover { is_socket: true, owner: uid },
        AcquireEvent::Succeeded,
        AcquireEvent::Succeeded,
    ]
}

/// What outcomes lead to each stage.
proof fn lemma_stages(events: Seq<AcquireEvent>, uid: u32)
    ensures
        ({
            let stage = stage_after(events, uid);
            let ok = AcquireEvent::Succeeded;
            let own = AcquireEvent::Leftover { is_socket: true, owner: uid };
            let used = AcquireEvent::AddressInUse;
            &&& stage == AcquireStage::Locking <==> events.len() == 0
            &&& stage == AcquireStage::Binding <==> events =~= seq![ok]
            &&& stage == AcquireStage::Inspecting <==> events =~= seq![ok, used]
            &&& stage == AcquireStage::Unlinking <==> events =~= seq![ok, used, own]
            &&& stage == AcquireStage::Rebinding <==> events =~= seq![ok, used, own, ok]
        }),
    decreases events.len(),
{
    let ok = AcquireEvent::Succeeded;
    let own = AcquireEvent::Leftover { is_socket: true, owner: uid };
    let used = AcquireEvent::AddressInUse;
    if events.len() > 0 {
        let front = events.drop_last();
        lemma_stages(front, uid);
        assert(events =~= front.push(events.last()));
        assert(seq![ok].drop_last() =~= Seq::empty());
        assert(seq![ok, used].drop_last() =~= seq![ok]);
        assert(seq![ok, used, own].drop_last() =~= seq![ok, used]);
        assert(seq![ok, used, own, ok].drop_last() =~= seq![ok, used, own]);
    }
}

/// A process serves if and only if it holds the lock and has bound the socket,
/// at once or after it removed a stale socket of the user's own.
pub proof fn law_daemon_serves_with_lock_and_socket(events: Seq<AcquireEvent>, uid: u32)
    requires
        events.len() > 0,
    ensures
        action_after(events, uid) == AcquireAction::Serve <==> leads_to_serving(events, uid),
        action_after(events, uid) == AcquireAction::AlreadyRunning <==> events == seq![
            AcquireEvent::LockHeld,
        ],
{
    let ok = AcquireEvent::Succeeded;
    let own = AcquireEvent::Leftover { is_socket: true, owner: uid };
    let used = AcquireEvent::AddressInUse;
    let front = events.drop_last();
    lemma_stages(front, uid);
    assert(events =~= front.push(events.last()));
    assert(seq![ok, ok].drop_last() =~= seq![ok]);
    assert(seq![ok, used, own, ok, ok].drop_last() =~= seq![ok, used, own, ok]);
    assert(seq![AcquireEvent::LockHeld].drop_last() =~= Seq::empty());
    if action_after(events, uid) == AcquireAction::Serve {
        if stage_after(front, uid) == AcquireStage::Binding {
            assert(front =~= seq![ok]);
            assert(events =~= seq![ok, ok]);
        } else {
            assert(front =~= seq![ok, used, own, ok]);
            assert(events =~= seq![ok, used, own, ok, ok]);
        }
    }
    if action_after(events, uid) == AcquireAction::AlreadyRunning {
        assert(events =~= seq![AcquireEvent::LockHeld]);
    }
}

/// A failure ends the attempt with its error, whatever was tried.
pub proof fn law_failure_ends_the_attempt(stage: AcquireStage, uid: u32)
    ensures
        acquire_step(stage, AcquireEvent::Failed, uid) == (
            AcquireStage::Over,
            AcquireAction::Fail,
        ),
{
}

/// Only the standard streams are redirected, each once and in order.
pub proof fn law_only_standard_streams_are_redirected(source: i32)
    ensures
        forall|i: int|
            0 <= i < redirect_targets(source).len() ==> 0 <= #[trigger] redirect_targets(source)[i]
                <= 2,
        forall|i: int, j: int|
            0 <= i < j < redirect_targets(source).len() ==> #[trigger] redirect_targets(source)[i]
                < #[trigger] redirect_targets(source)[j],
{
}

/// Each step is taken when it is due, and only then: the socket is bound with
/// the lock held, and again once a stale one is removed; what is in the way of
/// it is looked at, and then removed or refused by what it is. Everything else
/// is a failure.
pub proof fn law_steps_are_taken_when_due(events: Seq<AcquireEvent>, uid: u32)
    requires
        events.len() > 0,
    ensures
        ({
            let action = action_after(events, uid);
            let ok = AcquireEvent::Succeeded;
            let used = AcquireEvent::AddressInUse;
            let own = AcquireEvent::Leftover { is_socket: true, owner: uid };
            let looked = events.len() == 3 && events[0] == ok && events[1] == used && events[2] is Leftover;
            &&& action == AcquireAction::Bind <==> events == seq![ok] || events == seq![
                ok,
                used,
                own,
                ok,
            ]
            &&& action == AcquireAction::Inspect <==> events == seq![ok, used]
            &&& action == AcquireAction::Unlink <==> events == seq![ok, used, own]
            &&& action == AcquireAction::RefuseNonSocket <==> looked
                && !events[2]->Leftover_is_socket
            &&& action == AcquireAction::RefuseForeign <==> looked && events[2]->Leftover_is_socket
                && events[2]->Leftover_owner != uid
        }),
{
    let ok = AcquireEvent::Succeeded;
    let own = AcquireEvent::Leftover { is_socket: true, owner: uid };
    let used = AcquireEvent::AddressInUse;
    let front = events.drop_last();
    let stage = stage_after(front, uid);
    lemma_stages(front, uid);
    assert(events =~= front.push(events.last()));
    assert(seq![ok].drop_last() =~= Seq::empty());
    assert(seq![ok, used].drop_last() =~= seq![ok]);
    assert(seq![ok, used, own].drop_last() =~= seq![ok, used]);
    assert(seq![ok, used, own, ok].drop_last() =~= seq![ok, used, own]);
    if stage == AcquireStage::Locking {
        assert(front =~= Seq::empty());
        assert(events =~= seq![events.last()]);
    } else if stage == AcquireStage::Binding {
        assert(front =~= seq![ok]);
        assert(events =~= seq![ok, events.last()]);
    } else if stage == AcquireStage::Inspecting {
        assert(front =~= seq![ok, used]);
        assert(events =~= seq![ok, used, events.last()]);
        assert(events[0] == ok && events[1] == used);
    } else if stage == AcquireStage::Unlinking {
        assert(front =~= seq![ok, used, own]);
        assert(events =~= seq![ok, used, own, events.last()]);
    } else if stage == AcquireStage::Rebinding {
        assert(front =~= seq![ok, used, own, ok]);
        assert(events.len() == 5);
    }
    if events.len() == 3 && events[0] == ok && events[1] == used {
        assert(front =~= seq![ok, used]);
    }
}

} // verus!
