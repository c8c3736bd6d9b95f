use jftermd::idle::{IdleAction, IdleEvent, IdleWatcher};

#[test]
fn a_fresh_daemon_stays() {
    let mut w = IdleWatcher::new();
    for _ in 0..3 {
        assert_eq!(w.wait_until_idle(IdleEvent::Changed, true), IdleAction::WaitForChange);
    }
}

#[test]
fn idle_watcher_waits_for_a_session_then_for_the_grace() {
    let mut w = IdleWatcher::new();
    assert_eq!(w.wait_until_idle(IdleEvent::Changed, true), IdleAction::WaitForChange);
    assert_eq!(w.wait_until_idle(IdleEvent::Changed, false), IdleAction::Look);
    assert_eq!(w.wait_until_idle(IdleEvent::Changed, true), IdleAction::SleepGrace);
    assert_eq!(w.wait_until_idle(IdleEvent::GraceOver, false), IdleAction::WaitForChange);
    assert_eq!(w.wait_until_idle(IdleEvent::Changed, true), IdleAction::SleepGrace);
    assert_eq!(w.wait_until_idle(IdleEvent::GraceOver, true), IdleAction::Exit);
}

#[test]
fn the_daemon_exits_after_a_quiet_grace_period() {
    let mut w = IdleWatcher::new();
    assert_eq!(w.wait_until_idle(IdleEvent::Changed, false), IdleAction::Look);
    assert_eq!(w.wait_until_idle(IdleEvent::Changed, false), IdleAction::WaitForChange);
    assert_eq!(w.wait_until_idle(IdleEvent::Changed, true), IdleAction::SleepGrace);
    assert_eq!(w.wait_until_idle(IdleEvent::GraceOver, true), IdleAction::Exit);
}

#[test]
fn a_session_that_came_and_went_starts_the_grace_anew() {
    let mut w = IdleWatcher::new();
    w.wait_until_idle(IdleEvent::Changed, false);
    assert_eq!(w.wait_until_idle(IdleEvent::Changed, true), IdleAction::SleepGrace);
    assert_eq!(w.wait_until_idle(IdleEvent::Changed, true), IdleAction::SleepGrace);
    assert_eq!(w.wait_until_idle(IdleEvent::Changed, false), IdleAction::WaitForChange);
    assert_eq!(w.wait_until_idle(IdleEvent::Changed, true), IdleAction::SleepGrace);
    assert_eq!(w.wait_until_idle(IdleEvent::GraceOver, true), IdleAction::Exit);
}
