use jftermd::pty::{winsize, DrainResult};
use jftermd::session::{input_left, GroupSignal, Lifecycle, Session};

fn argv(parts: &[&str]) -> Vec<String> {
    parts.iter().map(|s| s.to_string()).collect()
}

fn open(id: &str, parts: &[&str], cwd: &str) -> Session {
    Session::open(id.to_string(), argv(parts), cwd.to_string(), 80, 24, 1234)
}

fn output(bytes: &[u8]) -> DrainResult {
    DrainResult { bytes: bytes.to_vec(), eof: false }
}

#[test]
fn open_drains_into_replay_before_attach() {
    let mut s = open("t1", &["sh", "-c", "echo hello; sleep 0.2"], "/");
    let out = s.drain(output(b"hello\r\n"), Ok(None)).unwrap();
    assert_eq!(out.data, b"hello\r\n".to_vec());
    assert_eq!(out.exit, None);
    let replay = s.replay_for_attach(0);
    assert!(replay.data.windows(5).any(|w| w == b"hello"));
}

#[test]
fn input_round_trips() {
    let mut s = open("t2", &["cat"], "/");
    assert_eq!(s.write_input(b"ping\n".to_vec()), Some(b"ping\n".to_vec()));
    s.drain(output(b"ping\r\nping\r\n"), Ok(None)).unwrap();
    assert!(s.replay_for_attach(0).data.windows(4).any(|w| w == b"ping"));
}

#[test]
fn shell_exit_marks_dead_and_keeps_replay() {
    let mut s = open("t3", &["sh", "-c", "echo bye; exit 3"], "/");
    let end = DrainResult { bytes: b"bye\r\n".to_vec(), eof: true };
    assert!(s.must_reap(&end));
    let out = s.drain(end, Ok(Some(3))).unwrap();
    assert_eq!(out.exit, Some(3));
    assert!(s.is_dead());
    assert!(s.replay_for_attach(0).data.windows(3).any(|w| w == b"bye"));
}

#[test]
fn resize_and_info_reflect_state() {
    let mut s = open("t4", &["cat"], "/home");
    assert_eq!(s.resize(120, 40), Some(winsize(120, 40)));
    let info = s.info(true, Ok(false));
    assert_eq!(info.session_id, "t4");
    assert_eq!(info.argv, argv(&["cat"]));
    assert_eq!(info.cwd, "/home");
    assert!(!info.running);
    assert!(info.has_client);
    assert_eq!(info.created_at, 1234);
}

#[test]
fn draining_osc133_latches_has_prompt_marking() {
    let mut s = open("t133", &["sh", "-c", "printf '\\033]133;D\\007'; sleep 0.3"], "/");
    assert!(!s.has_prompt_marking());
    s.drain(output(b"\x1b]133;D\x07"), Ok(None)).unwrap();
    assert!(s.has_prompt_marking());
    // The foreground no longer matters.
    assert!(!s.effective_running(Ok(true)));
    s.drain(output(b"\x1b]133;C\x07"), Ok(None)).unwrap();
    assert!(s.effective_running(Ok(false)));
    assert!(s.status().running);
}

#[test]
fn running_falls_back_to_the_foreground() {
    let s = open("t5", &["bash"], "/");
    assert!(s.needs_foreground());
    assert!(s.effective_running(Ok(true)));
    assert!(!s.effective_running(Ok(false)));
    assert!(!s.effective_running(Err(25)));
    assert!(s.poll_running(Ok(true)));
    assert!(!s.poll_running(Err(25)));
}

#[test]
fn a_dead_session_does_nothing_more() {
    let mut s = open("t6", &["sh"], "/");
    assert_eq!(s.hangup(), Some(GroupSignal::Hangup));
    assert_eq!(s.kill(), Some(GroupSignal::Kill));
    assert_eq!(s.lifecycle(), Lifecycle::Live);
    s.drain(DrainResult { bytes: vec![], eof: true }, Ok(None)).unwrap();
    // The status was lost: reported as 0.
    assert_eq!(s.lifecycle(), Lifecycle::Dead { status: 0 });
    assert_eq!(s.write_input(b"x".to_vec()), None);
    assert_eq!(s.resize(10, 10), None);
    assert_eq!(s.hangup(), None);
    assert_eq!(s.kill(), None);
    assert!(!s.poll_running(Ok(true)));
    assert!(!s.effective_running(Ok(true)));
    assert!(!s.must_reap(&DrainResult { bytes: vec![], eof: true }));
    assert_eq!(s.id(), "t6");
}

#[test]
fn a_failed_reap_keeps_the_output() {
    let mut s = open("t7", &["sh"], "/");
    let end = DrainResult { bytes: b"last".to_vec(), eof: true };
    assert_eq!(s.drain(end, Err(4)).err(), Some(4));
    assert!(!s.is_dead());
    assert_eq!(s.replay_for_attach(0).data, b"last".to_vec());
}

#[test]
fn attach_replay_can_be_capped() {
    let mut s = open("t8", &["sh"], "/");
    s.drain(output(b"\x1b[31m"), Ok(None)).unwrap();
    s.drain(output(&vec![b'x'; 128 * 1024]), Ok(None)).unwrap();
    assert_eq!(s.replay_for_attach(1).data, b"\x1b[0m\x1b[31mxxxxx".to_vec());
    assert_eq!(s.replay_for_attach(0).data.len(), 128 * 1024 + 5);
    assert_eq!(s.replay_for_attach(2).data.len(), 128 * 1024 + 5);
}

#[test]
fn input_that_the_pty_did_not_take_is_left() {
    assert_eq!(input_left(b"abc", 0), b"abc".to_vec());
    assert_eq!(input_left(b"abc", 2), b"c".to_vec());
    assert_eq!(input_left(b"abc", 3), b"".to_vec());
    assert_eq!(input_left(b"abc", 9), b"".to_vec());
}
