//! When the daemon exits by itself: after the first session has existed and
//! the registry has then stayed empty for a grace period.

use vstd::prelude::*;

verus! {

/// How far the watcher has come.
#[derive(Debug, Clone, Copy, PartialEq, Eq, Structural)]
pub enum IdlePhase {
    /// No session has existed yet.
    Starting,
    /// Sessions have existed.
    Watching,
    /// The registry was empty, and the grace period runs.
    Grace,
}

/// What made the watcher look at the registry.
#[derive(Debug, Clone, Copy, PartialEq, Eq, Structural)]
pub enum IdleEvent {
    /// The session set changed, or the watcher was told to look.
    Changed,
    /// The whole grace period has run, and the session set did not change.
    GraceOver,
}

/// What to do next.
#[derive(Debug, Clone, Copy, PartialEq, Eq, Structural)]
pub enum IdleAction {
    /// Look at the registry again at once.
    Look,
    /// Wait until the session set changes, then look.
    WaitForChange,
    /// Let the grace period run, or wait until the session set changes,
    /// whichever comes first, then look.
    SleepGrace,
    /// Exit.
    Exit,
}

/// One look at the registry.
pub open spec fn idle_step(phase: IdlePhase, event: IdleEvent, empty: bool) -> (
    IdlePhase,
    IdleAction,
) {
    match phase {
        IdlePhase::Starting => if empty {
            (IdlePhase::Starting, IdleAction::WaitForChange)
        } else {
            (IdlePhase::Watching, IdleAction::Look)
        },
        IdlePhase::Grace if event == IdleEvent::GraceOver && empty => (
            IdlePhase::Grace,
            IdleAction::Exit,
        ),
        // A change ends the grace period; it starts anew if the registry is
        // empty again.
        _ => if empty {
            (IdlePhase::Grace, IdleAction::SleepGrace)
        } else {
            (IdlePhase::Watching, IdleAction::WaitForChange)
        },
    }
}

/// Decides when the daemon should exit by itself.
#[derive(Debug)]
pub struct IdleWatcher {
    phase: IdlePhase,
}

impl View for IdleWatcher {
    type V = IdlePhase;

    closed spec fn view(&self) -> IdlePhase {
        self.phase
    }
}

impl IdleWatcher {
    pub fn new() -> (w: Self)
        ensures
            w@ == IdlePhase::Starting,
    {
        Self { phase: IdlePhase::Starting }
    }

    /// Takes in a look at the registry: what led to it, and whether the
    /// registry is empty.
    pub fn wait_until_idle(&mut self, event: IdleEvent, empty: bool) -> (action: IdleAction)
        ensures
            (final(self)@, action) == idle_step(old(self)@, event, empty),
    {
        if self.phase == IdlePhase::Starting {
            if empty {
                return IdleAction::WaitForChange;
            }
            self.phase = IdlePhase::Watching;
            return IdleAction::Look;
        }
        if self.phase == IdlePhase::Grace && event == IdleEvent::GraceOver && empty {
            return IdleAction::Exit;
        }
        if empty {
            self.phase = IdlePhase::Grace;
            IdleAction::SleepGrace
        } else {
            self.phase = IdlePhase::Watching;
            IdleAction::WaitForChange
        }
    }
}

/// A look at the registry: what led to it, and whether it is empty.
pub struct Glance {
    pub event: IdleEvent,
    pub empty: bool,
}

/// The phase after looks at the registry.
pub open spec fn idle_phase(looks: Seq<Glance>) -> IdlePhase
    decreases looks.len(),
{
    if looks.len() == 0 {
        IdlePhase::Starting
    } else {
        idle_step(idle_phase(looks.drop_last()), looks.last().event, looks.last().empty).0
    }
}

/// What is done after the last of the looks.
pub open spec fn idle_action(looks: Seq<Glance>) -> IdleAction
    recommends
        looks.len() > 0,
{
    idle_step(idle_phase(looks.drop_last()), looks.last().event, looks.last().empty).1
}

/// Some look found a session.
pub open spec fn session_seen(looks: Seq<Glance>) -> bool {
    exists|i: int| 0 <= i < looks.len() && !(#[trigger] looks[i]).empty
}

/// The phases say what has been seen.
proof fn lemma_phase_remembers(looks: Seq<Glance>)
    ensures
        idle_phase(looks) != IdlePhase::Starting ==> session_seen(looks),
        idle_phase(looks) == IdlePhase::Grace ==> looks.len() > 0 && looks.last().empty && (
        idle_action(looks) == IdleAction::SleepGrace || idle_action(looks) == IdleAction::Exit),
    decreases looks.len(),
{
    if looks.len() > 0 {
        let front = looks.drop_last();
        lemma_phase_remembers(front);
        if session_seen(front) {
            let k = choose|k: int| 0 <= k < front.len() && !(#[trigger] front[k]).empty;
            assert(!looks[k].empty);
        }
        if !looks.last().empty {
            assert(!looks[looks.len() - 1].empty);
        }
    }
}

/// The daemon exits only after a session has existed, and only if the registry
/// was empty when the grace period began, no change came while it ran, and the
/// registry was empty when it was over.
pub proof fn law_exit_only_when_idle(looks: Seq<Glance>)
    requires
        looks.len() > 0,
        idle_action(looks) == IdleAction::Exit,
    ensures
        session_seen(looks),
        looks.len() >= 2,
        looks[looks.len() - 1].event == IdleEvent::GraceOver,
        looks[looks.len() - 1].empty,
        looks[looks.len() - 2].empty,
        idle_action(looks.drop_last()) == IdleAction::SleepGrace || idle_action(looks.drop_last())
            == IdleAction::Exit,
{
    let front = looks.drop_last();
    lemma_phase_remembers(front);
    let k = choose|k: int| 0 <= k < front.len() && !(#[trigger] front[k]).empty;
    assert(!looks[k].empty);
    assert(front.last() == looks[looks.len() - 2]);
}

/// A change never lets the daemon exit: a session that came and went while the
/// grace period ran makes it start anew.
pub proof fn law_change_ends_the_grace(looks: Seq<Glance>, empty: bool)
    ensures
        idle_action(looks.push(Glance { event: IdleEvent::Changed, empty })) != IdleAction::Exit,
        idle_phase(looks) == IdlePhase::Grace && empty ==> idle_action(
            looks.push(Glance { event: IdleEvent::Changed, empty }),
        ) == IdleAction::SleepGrace,
{
    let more = looks.push(Glance { event: IdleEvent::Changed, empty });
    assert(more.drop_last() =~= looks);
}

/// Once a session has existed, a registry that is found empty and then stays
/// so for the grace period lets the daemon exit.
pub proof fn law_idle_daemon_exits(looks: Seq<Glance>, event: IdleEvent)
    requires
        idle_phase(looks) != IdlePhase::Starting,
    ensures
        idle_action(
            looks.push(Glance { event, empty: true }).push(
                Glance { event: IdleEvent::GraceOver, empty: true },
            ),
        ) == IdleAction::Exit,
{
    let once = looks.push(Glance { event, empty: true });
    let twice = once.push(Glance { event: IdleEvent::GraceOver, empty: true });
    assert(once.drop_last() =~= looks);
    assert(twice.drop_last() =~= once);
}

/// As long as no session has existed, the daemon stays.
pub proof fn law_fresh_daemon_stays(looks: Seq<Glance>)
    requires
        looks.len() > 0,
        forall|i: int| 0 <= i < looks.len() ==> (#[trigger] looks[i]).empty,
    ensures
        idle_action(looks) == IdleAction::WaitForChange,
{
    let front = looks.drop_last();
    assert(looks[looks.len() - 1].empty);
    lemma_phase_remembers(front);
    assert forall|i: int| 0 <= i < front.len() implies (#[trigger] front[i]).empty by {
        assert(looks[i].empty);
    }
}

/// Each look has its consequence: before a session has been seen the daemon
/// waits for one, and looks again at the first; from then on a registry with
/// sessions is waited on, and an empty one is given the grace period, or is
/// left if it was empty before and stayed so for all of the period.
pub proof fn law_each_look_has_its_consequence(looks: Seq<Glance>)
    requires
        looks.len() > 0,
    ensures
        !looks.last().empty ==> idle_action(looks) == (if session_seen(looks.drop_last()) {
            IdleAction::WaitForChange
        } else {
            IdleAction::Look
        }),
        looks.last().empty && !session_seen(looks) ==> idle_action(looks)
            == IdleAction::WaitForChange,
        looks.last().empty && session_seen(looks) ==> idle_action(looks) == (if looks.last().event
            == IdleEvent::GraceOver && looks[looks.len() - 2].empty {
            IdleAction::Exit
        } else {
            IdleAction::SleepGrace
        }),
        idle_phase(looks) != IdlePhase::Starting <==> session_seen(looks),
    decreases looks.len(),
{
    let front = looks.drop_last();
    lemma_seen_means_started(front);
    lemma_seen_means_started(looks);
    lemma_phase_remembers(front);
    if session_seen(looks) && looks.last().empty {
        let k = choose|k: int| 0 <= k < looks.len() && !(#[trigger] looks[k]).empty;
        assert(!front[k].empty);
        assert(session_seen(front));
        assert(front.last() == looks[looks.len() - 2]);
        lemma_grace_after_empty(front);
    }
}

/// Behind an empty look, with a session seen, the grace period runs; behind
/// any other it does not.
proof fn lemma_grace_after_empty(looks: Seq<Glance>)
    requires
        looks.len() > 0,
        session_seen(looks),
    ensures
        idle_phase(looks) == IdlePhase::Grace <==> looks.last().empty,
{
    let front = looks.drop_last();
    lemma_seen_means_started(front);
    lemma_phase_remembers(looks);
    if looks.last().empty {
        let k = choose|k: int| 0 <= k < looks.len() && !(#[trigger] looks[k]).empty;
        assert(!front[k].empty);
    }
}

proof fn lemma_seen_means_started(looks: Seq<Glance>)
    ensures
        idle_phase(looks) != IdlePhase::Starting <==> session_seen(looks),
    decreases looks.len(),
{
    lemma_phase_remembers(looks);
    if looks.len() > 0 && session_seen(looks) {
        let front = looks.drop_last();
        lemma_seen_means_started(front);
        let k = choose|k: int| 0 <= k < looks.len() && !(#[trigger] looks[k]).empty;
        if k < front.len() {
            assert(!front[k].empty);
        }
    }
}

} // verus!
