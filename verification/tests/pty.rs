use jftermd::pty::{
    foreground_busy, plan_spawn, try_reap, winsize, DrainResult, DrainStep, GroupOutcome,
    ReadOutcome, ReapStep, SpawnError, Tries, WaitOutcome,
};

fn argv(parts: &[&str]) -> Vec<String> {
    parts.iter().map(|s| s.to_string()).collect()
}

fn vars(pairs: &[(&str, &str)]) -> Vec<(String, String)> {
    pairs.iter().map(|(k, v)| (k.to_string(), v.to_string())).collect()
}

#[test]
fn winsize_has_no_pixels() {
    let w = winsize(80, 24);
    assert_eq!((w.ws_col, w.ws_row, w.ws_xpixel, w.ws_ypixel), (80, 24, 0, 0));
}

#[test]
fn spawn_forces_the_terminal_variables() {
    let env = vars(&[("HOME", "/root"), ("TERM", "dumb"), ("A", "ä"), ("COLORTERM", "no")]);
    let plan = plan_spawn(&argv(&["sh", "-c", "ls"]), &env, b"/tmp").unwrap();
    assert_eq!(plan.argv, vec![b"sh".to_vec(), b"-c".to_vec(), b"ls".to_vec()]);
    assert_eq!(
        plan.env,
        vec![
            b"HOME=/root".to_vec(),
            "A=ä".as_bytes().to_vec(),
            b"TERM=xterm-256color".to_vec(),
            b"COLORTERM=truecolor".to_vec(),
        ]
    );
    assert_eq!(plan.cwd, b"/tmp".to_vec());
}

#[test]
fn spawn_refuses_nul_and_empty_argv() {
    let none = vars(&[]);
    assert_eq!(plan_spawn(&argv(&[]), &none, b"/"), Err(SpawnError::EmptyArgv));
    assert_eq!(plan_spawn(&argv(&["a", "b\0c"]), &none, b"/"), Err(SpawnError::Nul(1)));
    let bad = vars(&[("X", "1"), ("Y", "\0")]);
    assert_eq!(plan_spawn(&argv(&["a"]), &bad, b"/"), Err(SpawnError::Nul(2)));
    let hidden = vars(&[("TERM", "\0")]);
    assert!(plan_spawn(&argv(&["a"]), &hidden, b"/").is_ok());
    assert_eq!(plan_spawn(&argv(&["a"]), &none, b"/x\0"), Err(SpawnError::Nul(2)));
    assert_eq!(plan_spawn(&argv(&["\0"]), &bad, b"\0"), Err(SpawnError::Nul(0)));
}

#[test]
fn drain_reads_until_nothing_is_left() {
    let mut d = DrainResult::default();
    assert_eq!(d.step(ReadOutcome::Bytes, b"ab"), DrainStep::More);
    assert_eq!(d.step(ReadOutcome::Interrupted, b""), DrainStep::More);
    assert_eq!(d.step(ReadOutcome::Bytes, b"c"), DrainStep::More);
    assert_eq!(d.step(ReadOutcome::WouldBlock, b""), DrainStep::Done);
    assert_eq!(d, DrainResult { bytes: b"abc".to_vec(), eof: false });
}

#[test]
fn drain_sees_the_end() {
    let mut d = DrainResult::default();
    assert_eq!(d.step(ReadOutcome::Bytes, b""), DrainStep::Done);
    assert!(d.eof);
    let mut d = DrainResult::default();
    assert_eq!(d.step(ReadOutcome::Bytes, b"x"), DrainStep::More);
    assert_eq!(d.step(ReadOutcome::InputOutput, b""), DrainStep::Done);
    assert_eq!(d, DrainResult { bytes: b"x".to_vec(), eof: true });
    assert_eq!(d.step(ReadOutcome::Other(9), b""), DrainStep::Failed(9));
}

#[test]
fn reap_never_makes_up_a_code() {
    assert_eq!(try_reap(WaitOutcome::Exited(7)), Ok(Some(7)));
    assert_eq!(try_reap(WaitOutcome::Signaled(9)), Ok(Some(137)));
    assert_eq!(try_reap(WaitOutcome::NotTerminal), Ok(None));
    assert_eq!(try_reap(WaitOutcome::NoChild), Ok(None));
    assert_eq!(try_reap(WaitOutcome::Other(22)), Err(22));
}

#[test]
fn blocking_reap_waits_a_bounded_time() {
    let mut tries = Tries::new();
    let mut waits = 0;
    while tries.any_left() {
        assert_eq!(tries.reap_blocking(WaitOutcome::NotTerminal), ReapStep::Wait);
        waits += 1;
    }
    assert_eq!(waits, 200);
    assert_eq!(Tries::new().reap_blocking(WaitOutcome::Exited(3)), ReapStep::Done(Some(3)));
    assert_eq!(Tries::new().reap_blocking(WaitOutcome::Signaled(1)), ReapStep::Done(Some(129)));
    assert_eq!(Tries::new().reap_blocking(WaitOutcome::NoChild), ReapStep::Done(None));
    assert_eq!(Tries::new().reap_blocking(WaitOutcome::Other(5)), ReapStep::Failed(5));
}

#[test]
fn the_shell_is_waited_for_until_it_leads_its_group() {
    let mut tries = Tries::new();
    assert!(tries.await_own_process_group(GroupOutcome::Group(10), 42));
    assert!(tries.await_own_process_group(GroupOutcome::Other, 42));
    assert!(!tries.await_own_process_group(GroupOutcome::Group(42), 42));
    assert!(!tries.await_own_process_group(GroupOutcome::Gone, 42));
}

#[test]
fn foreground_is_busy_when_another_group_has_it() {
    assert!(foreground_busy(43, 42));
    assert!(!foreground_busy(42, 42));
}
