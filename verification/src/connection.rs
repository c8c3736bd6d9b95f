//! What the frames of a connection mean: how it is classified, and what is
//! done with each frame.

use vstd::prelude::*;

use crate::protocol::{CloseMsg, Frame, FrameType, FrameView, Hello, Resize, PROTO_VERSION};

verus! {

/// The two kinds of connections.
#[derive(Debug, Clone, Copy, PartialEq, Eq, Structural)]
pub enum ConnectionKind {
    Control,
    Session,
}

/// The kind of a connection whose first frame is of type `ty`.
pub open spec fn kind_of(ty: FrameType) -> Option<ConnectionKind> {
    match ty {
        FrameType::Hello => Some(ConnectionKind::Control),
        FrameType::AttachOrOpen => Some(ConnectionKind::Session),
        _ => None,
    }
}

/// Classify a connection by its first frame. A connection that starts with
/// any other frame is closed.
pub fn classify(first: FrameType) -> (r: Option<ConnectionKind>)
    ensures
        r == kind_of(first),
{
    match first {
        FrameType::Hello => Some(ConnectionKind::Control),
        FrameType::AttachOrOpen => Some(ConnectionKind::Session),
        _ => None,
    }
}

/// The answer to a `Hello`: a `HelloOk` with the protocol version and
/// `daemon_version`, or nothing (the connection is closed) if the client
/// speaks another version.
pub fn answer_hello(hello: &Hello, daemon_version: &str) -> (r: Option<Hello>)
    ensures
        match r {
            Some(ok) => {
                &&& hello.proto_version == PROTO_VERSION
                &&& ok.proto_version == PROTO_VERSION
                &&& ok.daemon_version@ == daemon_version@
            },
            None => hello.proto_version != PROTO_VERSION,
        },
{
    if hello.proto_version != PROTO_VERSION {
        None
    } else {
        Some(Hello { proto_version: PROTO_VERSION, daemon_version: daemon_version.to_owned() })
    }
}

/// Whether a frame on a control connection asks for the sessions. All other
/// frames are ignored there.
pub fn asks_for_sessions(ty: FrameType) -> (r: bool)
    ensures
        r == (ty == FrameType::List),
{
    match ty {
        FrameType::List => true,
        _ => false,
    }
}

/// A command of a client to its session.
#[derive(Debug, Clone, PartialEq, Eq)]
pub enum Command {
    /// Raw keystroke bytes.
    Input(Vec<u8>),
    /// A new size.
    Resize { cols: u16, rows: u16 },
    /// Kill the shell and drop the session: SIGHUP, then SIGKILL after
    /// `grace_ms` if still alive (`grace_ms == 0` = SIGHUP only).
    Close { grace_ms: u32 },
}

/// What a [`Command`] holds.
pub enum CommandView {
    Input(Seq<u8>),
    Resize { cols: u16, rows: u16 },
    Close { grace_ms: u32 },
}

impl View for Command {
    type V = CommandView;

    open spec fn view(&self) -> CommandView {
        match *self {
            Command::Input(bytes) => CommandView::Input(bytes@),
            Command::Resize { cols, rows } => CommandView::Resize { cols, rows },
            Command::Close { grace_ms } => CommandView::Close { grace_ms },
        }
    }
}

/// What a frame on a session connection asks for.
#[derive(Debug, Clone, PartialEq, Eq)]
pub struct ReaderStep {
    /// The command to hand to the session.
    pub command: Option<Command>,
    /// Whether the connection is read no further.
    pub stop: bool,
}

/// The command that a frame on a session connection stands for. `resize` and
/// `close` are its value read as one of these, where that succeeded.
pub open spec fn command_of(frame: FrameView, resize: Option<Resize>, close: Option<CloseMsg>) -> Option<
    CommandView,
> {
    match frame.ty {
        FrameType::Input => Some(CommandView::Input(frame.payload)),
        FrameType::Resize => match resize {
            Some(r) => Some(CommandView::Resize { cols: r.cols, rows: r.rows }),
            None => None,
        },
        FrameType::Close => Some(
            CommandView::Close {
                grace_ms: match close {
                    Some(m) => m.grace_ms,
                    None => 0,
                },
            },
        ),
        _ => None,
    }
}

/// Takes in a frame on a session connection. `resize` and `close` are its
/// value read as one of these, where that succeeded. A close with an empty or
/// malformed value counts as one without grace; a malformed resize and all
/// other frames are ignored. Only a close ends the reading.
pub fn read_frame(frame: Frame, resize: Option<Resize>, close: Option<CloseMsg>) -> (r: ReaderStep)
    ensures
        match r.command {
            Some(c) => command_of(frame@, resize, close) == Some(c@),
            None => command_of(frame@, resize, close) is None,
        },
        r.stop == (frame.ty == FrameType::Close),
{
    match frame.ty {
        FrameType::Input => ReaderStep {
            command: Some(Command::Input(frame.payload)),
            stop: false,
        },
        FrameType::Resize => match resize {
            Some(r) => ReaderStep {
                command: Some(Command::Resize { cols: r.cols, rows: r.rows }),
                stop: false,
            },
            None => ReaderStep { command: None, stop: false },
        },
        FrameType::Close => {
            let grace_ms = match close {
                Some(m) => m.grace_ms,
                None => 0,
            };
            ReaderStep { command: Some(Command::Close { grace_ms }), stop: true }
        },
        _ => ReaderStep { command: None, stop: false },
    }
}

/// Only an explicit close frame closes a session: nothing else that a client
/// sends, and nothing it leaves unsaid, does.
pub proof fn law_only_close_closes(
    frame: FrameView,
    resize: Option<Resize>,
    close: Option<CloseMsg>,
)
    ensures
        command_of(frame, resize, close) matches Some(CommandView::Close { .. }) <==> frame.ty
            == FrameType::Close,
{
}

/// The first frame decides: a `Hello` makes a control connection, an
/// `AttachOrOpen` a session connection, and nothing else makes any.
pub proof fn law_first_frame_classifies(ty: FrameType)
    ensures
        kind_of(ty) == Some(ConnectionKind::Control) <==> ty is Hello,
        kind_of(ty) == Some(ConnectionKind::Session) <==> ty is AttachOrOpen,
        kind_of(ty) is None <==> !(ty is Hello) && !(ty is AttachOrOpen),
{
}

/// Input is handed on byte for byte, a size as it was sent, and a close with
/// the grace that was sent, or none where that could not be read. A size that
/// could not be read, and every other frame, is no command.
pub proof fn law_commands_are_handed_on(
    frame: FrameView,
    resize: Option<Resize>,
    close: Option<CloseMsg>,
)
    ensures
        frame.ty is Input ==> command_of(frame, resize, close) == Some(
            CommandView::Input(frame.payload),
        ),
        frame.ty is Resize ==> match resize {
            Some(size) => command_of(frame, resize, close) == Some(
                CommandView::Resize { cols: size.cols, rows: size.rows },
            ),
            None => command_of(frame, resize, close) is None,
        },
        frame.ty is Close ==> match close {
            Some(m) => command_of(frame, resize, close) == Some(
                CommandView::Close { grace_ms: m.grace_ms },
            ),
            None => command_of(frame, resize, close) == Some(CommandView::Close { grace_ms: 0 }),
        },
        command_of(frame, resize, close) is Some ==> frame.ty is Input || frame.ty is Resize
            || frame.ty is Close,
{
}

} // verus!
