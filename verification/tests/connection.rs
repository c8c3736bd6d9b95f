use jftermd::connection::{
    answer_hello, asks_for_sessions, classify, read_frame, Command, ConnectionKind, ReaderStep,
};
use jftermd::protocol::{CloseMsg, Frame, FrameType, Hello, Resize};

fn frame(ty: FrameType, payload: &[u8]) -> Frame {
    Frame::new(ty, payload.to_vec())
}

#[test]
fn connections_are_classified_by_their_first_frame() {
    assert_eq!(classify(FrameType::Hello), Some(ConnectionKind::Control));
    assert_eq!(classify(FrameType::AttachOrOpen), Some(ConnectionKind::Session));
    assert_eq!(classify(FrameType::Input), None);
    assert_eq!(classify(FrameType::HelloOk), None);
}

#[test]
fn hello_is_answered_in_the_same_version_only() {
    let hello = |proto_version| Hello { proto_version, daemon_version: "x".to_string() };
    assert_eq!(
        answer_hello(&hello(1), "0.1.0"),
        Some(Hello { proto_version: 1, daemon_version: "0.1.0".to_string() })
    );
    assert_eq!(answer_hello(&hello(99), "0.1.0"), None);
}

#[test]
fn only_list_asks_for_sessions() {
    assert!(asks_for_sessions(FrameType::List));
    assert!(!asks_for_sessions(FrameType::Hello));
}

#[test]
fn session_frames_become_commands() {
    assert_eq!(
        read_frame(frame(FrameType::Input, b"abc"), None, None),
        ReaderStep { command: Some(Command::Input(b"abc".to_vec())), stop: false }
    );
    let resize = Resize { cols: 100, rows: 30 };
    assert_eq!(
        read_frame(frame(FrameType::Resize, b"{}"), Some(resize), None),
        ReaderStep { command: Some(Command::Resize { cols: 100, rows: 30 }), stop: false }
    );
    assert_eq!(
        read_frame(frame(FrameType::Resize, b"junk"), None, None),
        ReaderStep { command: None, stop: false }
    );
    assert_eq!(
        read_frame(frame(FrameType::Close, b""), None, None),
        ReaderStep { command: Some(Command::Close { grace_ms: 0 }), stop: true }
    );
    assert_eq!(
        read_frame(frame(FrameType::Close, b""), None, Some(CloseMsg { grace_ms: 1500 })),
        ReaderStep { command: Some(Command::Close { grace_ms: 1500 }), stop: true }
    );
    assert_eq!(
        read_frame(frame(FrameType::Data, b"x"), None, None),
        ReaderStep { command: None, stop: false }
    );
}
