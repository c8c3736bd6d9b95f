use jftermd::protocol::{ExitMsg, Frame, FrameType, StatusMsg};
use jftermd::pty::{winsize, DrainResult};
use jftermd::server::{
    data_to_send, effective_status, merge_running, status_msg, Actor, Closed, Exited, Fate,
    Forwarded, Outgoing, ServerOpts,
};
use jftermd::session::{GroupSignal, Session};
use jftermd::StatusSnapshot;

fn actor() -> Actor {
    Actor::new(Session::open(
        "a1".to_string(),
        vec!["sh".to_string()],
        "/".to_string(),
        80,
        24,
        0,
    ))
}

fn output(a: &mut Actor, bytes: &[u8]) {
    let drained = DrainResult { bytes: bytes.to_vec(), eof: false };
    a.on_output(drained, Ok(None)).unwrap();
}

fn exit(a: &mut Actor, bytes: &[u8], code: i32) -> Option<i32> {
    let drained = DrainResult { bytes: bytes.to_vec(), eof: true };
    a.on_output(drained, Ok(Some(code))).unwrap().exit
}

fn status(running: bool) -> Outgoing {
    Outgoing::Status(StatusMsg { running, progress: None })
}

fn data(bytes: &[u8]) -> Outgoing {
    Outgoing::Frame(Frame::new(FrameType::Data, bytes.to_vec()))
}

#[test]
fn merge_running_prefers_engine_when_marked_else_poll() {
    assert!(merge_running(true, true, false)); // marked -> engine
    assert!(!merge_running(true, false, true)); // marked -> engine
    assert!(merge_running(false, false, true)); // unmarked -> poll
    assert!(!merge_running(false, true, false)); // unmarked -> poll
}

#[test]
fn default_options() {
    let o = ServerOpts::default();
    assert_eq!((o.dead_grace, o.exit_grace), (30_000, 5_000));
    assert_eq!((o.out_queue, o.status_poll), (1024, 300));
}

#[test]
fn attach_replays_then_tells_the_status() {
    let mut a = actor();
    output(&mut a, b"HELLO\r\n");
    assert!(!a.has_client());
    let r = a.on_attach(0, 100, 30, Ok(true)).unwrap();
    assert_eq!(r.resize, Some(winsize(100, 30)));
    assert_eq!(r.send, vec![data(b"HELLO\r\n"), status(true)]);
    assert_eq!(r.fate, Fate::Continue);
    assert!(a.has_client());
    // The handshake carried the status: nothing more to say.
    assert_eq!(a.refresh_status(Ok(true)), None);
    assert_eq!(
        a.refresh_status(Ok(false)),
        Some(StatusMsg { running: false, progress: None })
    );
    assert_eq!(a.refresh_status(Ok(false)), None);
}

#[test]
fn no_status_without_a_client() {
    let mut a = actor();
    output(&mut a, b"\x1b]133;C\x07");
    assert_eq!(a.refresh_status(Ok(true)), None);
    assert!(!a.wants_poll());
}

#[test]
fn prompt_marking_stops_the_poll() {
    let mut a = actor();
    a.on_attach(0, 80, 24, Ok(false));
    assert!(a.wants_poll());
    output(&mut a, b"\x1b]133;C\x07");
    assert!(!a.wants_poll());
    assert_eq!(
        a.refresh_status(Ok(false)),
        Some(StatusMsg { running: true, progress: None })
    );
    let snap = effective_status(a.session(), false);
    assert_eq!(snap, StatusSnapshot { running: true, progress: None });
    assert_eq!(status_msg(snap), StatusMsg { running: true, progress: None });
}

#[test]
fn a_full_queue_lets_the_client_go_and_leaves_the_shell() {
    let mut a = actor();
    a.on_attach(0, 80, 24, Ok(false));
    a.on_offered(true);
    assert!(a.has_client());
    a.on_offered(false);
    assert!(!a.has_client());
    assert!(a.wants_output());
    a.on_input(b"x".to_vec());
    assert_eq!(a.unwritten(), b"x");
}

#[test]
fn a_dead_session_is_retained_then_replayed() {
    let mut a = actor();
    let code = exit(&mut a, b"BYE\r\n", 3);
    assert_eq!(code, Some(3));
    assert_eq!(
        a.on_exit(code),
        Exited { exit: None, retain: true, fate: Fate::Continue }
    );
    assert!(a.wants_grace());
    assert!(!a.wants_output());
    let r = a.on_attach(0, 80, 24, Ok(true)).unwrap();
    assert_eq!(r.resize, None);
    assert_eq!(
        r.send,
        vec![data(b"BYE\r\n"), status(false), Outgoing::Exit(ExitMsg { status: 3 })]
    );
    assert_eq!(r.fate, Fate::End);
}

#[test]
fn an_attached_client_is_told_the_exit() {
    let mut a = actor();
    a.on_attach(0, 80, 24, Ok(false));
    let code = exit(&mut a, b"", 7);
    assert_eq!(
        a.on_exit(code),
        Exited { exit: Some(ExitMsg { status: 7 }), retain: true, fate: Fate::Continue }
    );
    assert_eq!(a.on_exit(None), Exited { exit: None, retain: false, fate: Fate::Continue });
}

#[test]
fn close_hangs_up_and_ends_at_the_exit() {
    let mut a = actor();
    let r = a.on_close(0);
    assert_eq!(
        r,
        Closed {
            signal: Some(GroupSignal::Hangup),
            escalate_after: None,
            exit: None,
            fate: Fate::Continue,
        }
    );
    assert!(!a.wants_kill());
    let code = exit(&mut a, b"", 129);
    assert_eq!(a.on_exit(code).fate, Fate::End);
    assert!(!a.wants_grace());
}

#[test]
fn a_session_that_is_being_closed_accepts_no_client() {
    let mut a = actor();
    a.on_close(0);
    assert_eq!(a.on_attach(0, 80, 24, Ok(false)), None);
    assert!(!a.has_client());
    assert!(a.wants_output());
}

#[test]
fn close_with_grace_escalates_once() {
    let mut a = actor();
    assert_eq!(a.on_close(300).escalate_after, Some(300));
    assert!(a.wants_kill());
    assert_eq!(a.on_kill_due(), Some(GroupSignal::Kill));
    assert!(!a.wants_kill());
    exit(&mut a, b"", 137);
    assert_eq!(a.on_kill_due(), None);
}

#[test]
fn close_of_a_dead_session_ends_at_once() {
    let mut a = actor();
    a.on_attach(0, 80, 24, Ok(false));
    exit(&mut a, b"", 5);
    assert_eq!(
        a.on_close(10),
        Closed {
            signal: None,
            escalate_after: Some(10),
            exit: Some(ExitMsg { status: 5 }),
            fate: Fate::End,
        }
    );
    assert!(!a.has_client());
}

#[test]
fn resize_reaches_only_a_live_shell() {
    let mut a = actor();
    assert_eq!(a.on_resize(1, 2), Some(winsize(1, 2)));
    exit(&mut a, b"", 0);
    assert_eq!(a.on_resize(3, 4), None);
    a.on_input(b"x".to_vec());
    assert_eq!(a.unwritten(), b"");
    assert!(!a.wants_write());
}

#[test]
fn a_failed_reap_ends_with_the_error() {
    let mut a = actor();
    let drained = DrainResult { bytes: b"x".to_vec(), eof: true };
    assert_eq!(a.on_output(drained, Err(10)).err(), Some(10));
}

#[test]
fn data_is_sent_in_frames() {
    assert_eq!(data_to_send(b"abc"), vec![data(b"abc")]);
    assert!(data_to_send(b"").is_empty());
}

#[test]
fn death_and_close_are_final() {
    let mut a = actor();
    let code = exit(&mut a, b"", 4);
    a.on_exit(code);
    a.on_resize(1, 1);
    a.on_offered(false);
    a.refresh_status(Ok(true));
    assert_eq!(a.on_close(0).fate, Fate::End);
    assert!(a.session().is_dead());
    assert_eq!(a.on_attach(0, 80, 24, Ok(true)), None);
}

#[test]
fn input_waits_until_the_pty_takes_it() {
    let mut a = actor();
    assert!(!a.wants_write());
    a.on_input(b"hello".to_vec());
    assert!(a.wants_write());
    a.on_written(2);
    assert_eq!(a.unwritten(), b"llo");
    a.on_input(b" you".to_vec());
    assert_eq!(a.unwritten(), b"llo you");
    a.on_written(0);
    assert_eq!(a.unwritten(), b"llo you");
    a.on_written(7);
    assert!(!a.wants_write());
    assert_eq!(a.unwritten(), b"");
}

#[test]
fn a_dead_session_is_told_as_not_running() {
    let mut a = actor();
    output(&mut a, b"\x1b]133;C\x07\x1b]9;4;1;50\x07");
    assert!(effective_status(a.session(), false).running);
    exit(&mut a, b"", 1);
    assert_eq!(
        effective_status(a.session(), true),
        StatusSnapshot { running: false, progress: Some(50) }
    );
    let mut b = actor();
    b.on_attach(0, 80, 24, Ok(true));
    exit(&mut b, b"", 1);
    assert_eq!(
        b.refresh_status(Ok(true)),
        Some(StatusMsg { running: false, progress: None })
    );
}

#[test]
fn a_drain_is_forwarded_in_order() {
    let mut a = actor();
    let drain = |a: &mut Actor, bytes: &[u8], eof: bool| {
        let drained = DrainResult { bytes: bytes.to_vec(), eof };
        a.on_output(drained, Ok(Some(4))).unwrap()
    };
    // Nobody is there to be sent anything.
    let out = drain(&mut a, b"one", false);
    assert_eq!(
        a.forward(out, Ok(true)),
        Forwarded { send: vec![], retain: false, fate: Fate::Continue }
    );
    a.on_attach(0, 80, 24, Ok(false));
    let out = drain(&mut a, b"two", false);
    assert_eq!(a.forward(out, Ok(false)).send, vec![data(b"two")]);
    let out = drain(&mut a, b"three", false);
    assert_eq!(a.forward(out, Ok(true)).send, vec![data(b"three"), status(true)]);
    let out = drain(&mut a, b"four", true);
    assert_eq!(
        a.forward(out, Ok(true)),
        Forwarded {
            send: vec![data(b"four"), status(false), Outgoing::Exit(ExitMsg { status: 4 })],
            retain: true,
            fate: Fate::Continue,
        }
    );
    let mut b = actor();
    b.on_close(0);
    let out = drain(&mut b, b"", true);
    assert_eq!(
        b.forward(out, Ok(false)),
        Forwarded { send: vec![], retain: false, fate: Fate::End }
    );
}
