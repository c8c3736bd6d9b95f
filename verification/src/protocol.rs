//! TLV wire protocol: `[u8 type][u32 len big-endian][value]`.
//!
//! Hot frames (`Data`/`Input`) carry raw terminal bytes; control frames carry
//! a small JSON value. Pure and I/O-free; the socket layer owns transport.

use vstd::prelude::*;

use crate::bytes::{decimal_text, extend_bytes, push_decimal_text};

verus! {

/// Protocol version carried in `Hello`; a mismatch is rejected by the server.
pub const PROTO_VERSION: u32 = 1;

/// Hard cap on a single frame's value length. Guards against a malformed or
/// hostile length header forcing a giant allocation.
pub const MAX_FRAME_LEN: u32 = 16777216;

/// Compact the read buffer once consumed bytes pass this threshold, so a long
/// run of small frames neither grows the buffer unbounded nor pays an O(n)
/// shift per frame.
const COMPACT_THRESHOLD: usize = 65536;

/// Every wire message is one of these.
#[derive(Debug, Clone, Copy, PartialEq, Eq, Structural)]
pub enum FrameType {
    // Control connection
    Hello,
    HelloOk,
    List,
    Sessions,
    // Session connection (client -> daemon)
    AttachOrOpen,
    Input,
    Resize,
    Close,
    // Session connection (daemon -> client)
    Data,
    Status,
    Exit,
}

impl FrameType {
    /// The type byte on the wire.
    pub open spec fn code(self) -> u8 {
        match self {
            FrameType::Hello => 1,
            FrameType::HelloOk => 2,
            FrameType::List => 3,
            FrameType::Sessions => 4,
            FrameType::AttachOrOpen => 5,
            FrameType::Input => 6,
            FrameType::Resize => 7,
            FrameType::Close => 8,
            FrameType::Data => 9,
            FrameType::Status => 10,
            FrameType::Exit => 11,
        }
    }

    /// The type byte on the wire.
    pub fn to_u8(self) -> (b: u8)
        ensures
            b == self.code(),
    {
        match self {
            FrameType::Hello => 1,
            FrameType::HelloOk => 2,
            FrameType::List => 3,
            FrameType::Sessions => 4,
            FrameType::AttachOrOpen => 5,
            FrameType::Input => 6,
            FrameType::Resize => 7,
            FrameType::Close => 8,
            FrameType::Data => 9,
            FrameType::Status => 10,
            FrameType::Exit => 11,
        }
    }

    /// The frame type with the type byte `b`, if there is one.
    pub fn from_u8(b: u8) -> (r: Option<Self>)
        ensures
            match r {
                Some(ty) => ty.code() == b,
                None => forall|ty: FrameType| (#[trigger] ty.code()) != b,
            },
    {
        match b {
            1 => Some(FrameType::Hello),
            2 => Some(FrameType::HelloOk),
            3 => Some(FrameType::List),
            4 => Some(FrameType::Sessions),
            5 => Some(FrameType::AttachOrOpen),
            6 => Some(FrameType::Input),
            7 => Some(FrameType::Resize),
            8 => Some(FrameType::Close),
            9 => Some(FrameType::Data),
            10 => Some(FrameType::Status),
            11 => Some(FrameType::Exit),
            _ => None,
        }
    }
}

/// The frame type with the type byte `b`, if there is one.
pub open spec fn type_of(b: u8) -> Option<FrameType> {
    if exists|ty: FrameType| (#[trigger] ty.code()) == b {
        Some(choose|ty: FrameType| (#[trigger] ty.code()) == b)
    } else {
        None
    }
}

/// Type bytes are distinct, so reading one back gives the type it was
/// written for.
pub proof fn law_type_bytes_are_distinct(a: FrameType, b: FrameType)
    ensures
        a.code() == b.code() ==> a == b,
        type_of(a.code()) == Some(a),
{
}

/// One decoded frame: a type and its raw value bytes.
#[derive(Debug, Clone, PartialEq, Eq)]
pub struct Frame {
    pub ty: FrameType,
    pub payload: Vec<u8>,
}

/// What a [`Frame`] holds.
#[verifier::ext_equal]
pub struct FrameView {
    pub ty: FrameType,
    pub payload: Seq<u8>,
}

/// `n` as four bytes, the most significant first.
pub open spec fn be_bytes(n: u32) -> Seq<u8> {
    seq![
        (n / 0x1000000) as u8,
        ((n / 0x10000) % 0x100) as u8,
        ((n / 0x100) % 0x100) as u8,
        (n % 0x100) as u8,
    ]
}

/// The number that four bytes stand for, the most significant first.
pub open spec fn be_value(a: u8, b: u8, c: u8, d: u8) -> u32 {
    (a * 0x1000000 + b * 0x10000 + c * 0x100 + d) as u32
}

impl FrameView {
    /// The value fits in a frame.
    pub open spec fn fits(self) -> bool {
        self.payload.len() <= MAX_FRAME_LEN
    }

    /// The frame on the wire.
    pub open spec fn wire(self) -> Seq<u8> {
        seq![self.ty.code()] + be_bytes(self.payload.len() as u32) + self.payload
    }
}

impl View for Frame {
    type V = FrameView;

    open spec fn view(&self) -> FrameView {
        FrameView { ty: self.ty, payload: self.payload@ }
    }
}

impl Frame {
    /// Build a frame from a type and raw value bytes.
    pub fn new(ty: FrameType, payload: Vec<u8>) -> (f: Self)
        ensures
            f.ty == ty,
            f.payload@ == payload@,
    {
        Self { ty, payload }
    }

    /// Serialize to the wire: `[type][len:u32 BE][value]`.
    pub fn encode(&self) -> (out: Vec<u8>)
        requires
            self@.fits(),
        ensures
            out@ == self@.wire(),
    {
        let len = self.payload.len() as u32;
        let mut out: Vec<u8> = Vec::new();
        out.push(self.ty.to_u8());
        out.push((len / 0x1000000) as u8);
        out.push(((len / 0x10000) % 0x100) as u8);
        out.push(((len / 0x100) % 0x100) as u8);
        out.push((len % 0x100) as u8);
        extend_bytes(&mut out, self.payload.as_slice());
        assert(out@ =~= self@.wire());
        out
    }

    /// Build a control frame around an encoded value, or pass on the error of
    /// the encoder.
    pub fn control<E>(ty: FrameType, encoded: Result<Vec<u8>, E>) -> (r: Result<Self, E>)
        ensures
            match encoded {
                Ok(value) => r matches Ok(f) && f.ty == ty && f.payload@ == value@,
                Err(e) => r == Err::<Frame, E>(e),
            },
    {
        match encoded {
            Ok(value) => Ok(Self::new(ty, value)),
            Err(e) => Err(e),
        }
    }
}

/// Errors from decoding a frame stream. Either closes the connection.
#[derive(Debug, Clone, Copy, PartialEq, Eq, Structural)]
pub enum ProtocolError {
    /// Type byte did not map to a known `FrameType`.
    UnknownType(u8),
    /// Declared value length exceeded `MAX_FRAME_LEN`.
    FrameTooLarge(u32),
}

impl ProtocolError {
    /// What went wrong, for people to read.
    pub fn message(&self) -> (s: String)
        ensures
            s@ == match *self {
                ProtocolError::UnknownType(b) => "unknown frame type byte "@ + decimal_text(
                    b as nat,
                ),
                ProtocolError::FrameTooLarge(n) => "frame length "@ + decimal_text(n as nat)
                    + " exceeds cap"@,
            },
    {
        match self {
            ProtocolError::UnknownType(b) => {
                let mut s = "unknown frame type byte ".to_owned();
                push_decimal_text(&mut s, *b as u32);
                s
            },
            ProtocolError::FrameTooLarge(n) => {
                let mut s = "frame length ".to_owned();
                push_decimal_text(&mut s, *n);
                s.append(" exceeds cap");
                s
            },
        }
    }
}

/// What the front of a byte stream holds.
pub enum Decoded {
    /// Not yet a whole frame.
    Incomplete,
    /// Not a frame, whatever follows.
    Invalid(ProtocolError),
    /// A frame, and the bytes behind it.
    Complete(FrameView, Seq<u8>),
}

/// Reads the front of a byte stream. The declared length is checked before
/// the type, and both before the value has arrived.
pub open spec fn decoded(s: Seq<u8>) -> Decoded {
    if s.len() < 5 {
        Decoded::Incomplete
    } else {
        let len = be_value(s[1], s[2], s[3], s[4]);
        if len > MAX_FRAME_LEN {
            Decoded::Invalid(ProtocolError::FrameTooLarge(len))
        } else {
            match type_of(s[0]) {
                None => Decoded::Invalid(ProtocolError::UnknownType(s[0])),
                Some(ty) => if s.len() < 5 + len {
                    Decoded::Incomplete
                } else {
                    Decoded::Complete(
                        FrameView { ty, payload: s.subrange(5, 5 + len) },
                        s.skip(5 + len),
                    )
                },
            }
        }
    }
}

/// Accumulates bytes off a socket and yields whole `Frame`s. Handles frames
/// split across reads and multiple frames in one read.
#[derive(Debug)]
pub struct FrameDecoder {
    buf: Vec<u8>,
    /// Offset of the first unconsumed byte in `buf`. Consumed frames advance
    /// this cursor instead of draining the front (which would be O(n) per
    /// frame); `buf` is compacted only once `pos` crosses `COMPACT_THRESHOLD`.
    pos: usize,
}

impl View for FrameDecoder {
    type V = Seq<u8>;

    /// The bytes that have not been consumed.
    closed spec fn view(&self) -> Seq<u8> {
        self.buf@.skip(self.pos as int)
    }
}

impl FrameDecoder {
    /// The cursor lies within the buffer, and fewer consumed bytes than the
    /// threshold are held on to.
    pub closed spec fn wf(&self) -> bool {
        self.pos <= self.buf@.len() && self.pos < COMPACT_THRESHOLD
    }

    pub fn new() -> (d: Self)
        ensures
            d.wf(),
            d@ == Seq::<u8>::empty(),
    {
        let d = Self { buf: Vec::new(), pos: 0 };
        assert(d@ =~= Seq::<u8>::empty());
        d
    }

    /// Append freshly-read bytes to the internal buffer.
    pub fn push(&mut self, bytes: &[u8])
        requires
            old(self).wf(),
        ensures
            final(self).wf(),
            final(self)@ == old(self)@ + bytes@,
    {
        // Drop already-consumed bytes before appending so the buffer does not
        // grow without bound across many push/next_frame cycles.
        self.compact();
        extend_bytes(&mut self.buf, bytes);
        assert(self@ =~= old(self)@ + bytes@);
    }

    /// Drop consumed bytes from the front of `buf` and reset the cursor.
    fn compact(&mut self)
        requires
            old(self).pos <= old(self).buf@.len(),
        ensures
            final(self).wf(),
            final(self).pos == 0,
            final(self)@ == old(self)@,
    {
        if self.pos == 0 {
            return ;
        }
        let rest = vstd::slice::slice_to_vec(&self.buf[self.pos..self.buf.len()]);
        self.buf = rest;
        self.pos = 0;
        assert(self@ =~= old(self)@);
    }

    /// Pop the next complete frame, or `Ok(None)` if more bytes are needed.
    /// A malformed type byte or oversized length is a hard `Err`.
    pub fn next_frame(&mut self) -> (r: Result<Option<Frame>, ProtocolError>)
        requires
            old(self).wf(),
        ensures
            final(self).wf(),
            match decoded(old(self)@) {
                Decoded::Incomplete => {
                    &&& r == Ok::<Option<Frame>, ProtocolError>(None)
                    &&& final(self)@ == old(self)@
                },
                Decoded::Invalid(e) => {
                    &&& r == Err::<Option<Frame>, ProtocolError>(e)
                    &&& final(self)@ == old(self)@
                },
                Decoded::Complete(frame, rest) => {
                    &&& r matches Ok(Some(f)) && f@ == frame
                    &&& final(self)@ == rest
                },
            },
    {
        let ghost start = self@;
        let avail = self.buf.len() - self.pos;
        if avail < 5 {
            return Ok(None);
        }
        let p = self.pos;
        let ty_byte = self.buf[p];
        let a = self.buf[p + 1] as u32;
        let b = self.buf[p + 2] as u32;
        let c = self.buf[p + 3] as u32;
        let d = self.buf[p + 4] as u32;
        let len: u32 = a * 0x1000000 + b * 0x10000 + c * 0x100 + d;
        assert(len == be_value(start[1], start[2], start[3], start[4]));
        if len > MAX_FRAME_LEN {
            return Err(ProtocolError::FrameTooLarge(len));
        }
        let ty = match FrameType::from_u8(ty_byte) {
            Some(ty) => ty,
            None => {
                return Err(ProtocolError::UnknownType(ty_byte));
            },
        };
        proof {
            law_type_bytes_are_distinct(ty, ty);
        }
        let total = 5 + len as usize;
        if avail < total {
            return Ok(None);
        }
        let payload = vstd::slice::slice_to_vec(&self.buf[p + 5..p + total]);
        assert(payload@ =~= start.subrange(5, 5 + len));
        self.pos = p + total;
        assert(self@ =~= start.skip(5 + len));
        // Reclaim space eagerly once enough has been consumed.
        if self.pos >= COMPACT_THRESHOLD {
            self.compact();
        }
        Ok(Some(Frame::new(ty, payload)))
    }
}

impl Default for FrameDecoder {
    fn default() -> (d: Self)
        ensures
            d.wf(),
            d@ == Seq::<u8>::empty(),
    {
        Self::new()
    }
}

/// `Hello` / `HelloOk` value.
#[derive(Debug, Clone, PartialEq, Eq)]
pub struct Hello {
    pub proto_version: u32,
    pub daemon_version: String,
}

/// One entry in the `Sessions` reply to `List`.
#[derive(Debug, Clone, PartialEq, Eq)]
pub struct SessionInfo {
    pub session_id: String,
    pub argv: Vec<String>,
    pub cwd: String,
    pub running: bool,
    pub has_client: bool,
    pub created_at: u64,
}

/// `AttachOrOpen` value: binds a session connection; opens if unknown.
#[derive(Debug, Clone, PartialEq, Eq)]
pub struct AttachOrOpen {
    pub session_id: String,
    pub cwd: String,
    pub argv: Vec<String>,
    /// `0` = full available scrollback (last purge boundary); else cap.
    pub want_chunks: usize,
    pub cols: u16,
    pub rows: u16,
}

/// `Resize` value.
#[derive(Debug, Clone, Copy, PartialEq, Eq, Structural)]
pub struct Resize {
    pub cols: u16,
    pub rows: u16,
}

/// `Close` value: SIGHUP the shell, then SIGKILL after `grace_ms` if still
/// alive. `grace_ms == 0` = SIGHUP only (no escalation).
#[derive(Debug, Clone, Copy, PartialEq, Eq, Structural)]
pub struct CloseMsg {
    pub grace_ms: u32,
}

/// `Status` value: semantic dot state.
#[derive(Debug, Clone, Copy, PartialEq, Eq, Structural)]
pub struct StatusMsg {
    pub running: bool,
    pub progress: Option<u8>,
}

/// `Exit` value: shell child exited.
#[derive(Debug, Clone, Copy, PartialEq, Eq, Structural)]
pub struct ExitMsg {
    pub status: i32,
}

/// The contents of frames.
pub open spec fn frames(v: Seq<Frame>) -> Seq<FrameView> {
    v.map_values(|f: Frame| f@)
}

/// `bytes` cut into pieces of `MAX_FRAME_LEN` bytes, the last one possibly
/// shorter, each in a `Data` frame.
pub open spec fn data_frames(bytes: Seq<u8>) -> Seq<FrameView>
    decreases bytes.len(),
{
    if bytes.len() == 0 {
        Seq::empty()
    } else if bytes.len() <= MAX_FRAME_LEN {
        seq![FrameView { ty: FrameType::Data, payload: bytes }]
    } else {
        seq![FrameView { ty: FrameType::Data, payload: bytes.take(MAX_FRAME_LEN as int) }]
            + data_frames(bytes.skip(MAX_FRAME_LEN as int))
    }
}

/// Split raw output bytes into one or more `Data` frames, each at most
/// `MAX_FRAME_LEN` bytes, so a large replay never trips the frame cap.
pub fn frame_data(bytes: &[u8]) -> (r: Vec<Frame>)
    ensures
        frames(r@) == data_frames(bytes@),
{
    let mut r: Vec<Frame> = Vec::new();
    let max = MAX_FRAME_LEN as usize;
    let mut i: usize = 0;
    assert(bytes@.skip(0) =~= bytes@);
    assert(frames(r@) + data_frames(bytes@) =~= data_frames(bytes@));
    while i < bytes.len()
        invariant
            i <= bytes@.len(),
            max == MAX_FRAME_LEN,
            frames(r@) + data_frames(bytes@.skip(i as int)) == data_frames(bytes@),
        decreases bytes@.len() - i,
    {
        let end = if bytes.len() - i <= max {
            bytes.len()
        } else {
            i + max
        };
        let ghost rest = bytes@.skip(i as int);
        let ghost before = frames(r@);
        let piece = vstd::slice::slice_to_vec(&bytes[i..end]);
        r.push(Frame::new(FrameType::Data, piece));
        proof {
            let frame = FrameView { ty: FrameType::Data, payload: piece@ };
            assert(frames(r@) =~= before.push(frame));
            assert(bytes@.skip(end as int) =~= rest.skip(end - i));
            if rest.len() <= MAX_FRAME_LEN {
                assert(piece@ =~= rest);
                assert(bytes@.skip(end as int).len() == 0);
                assert(data_frames(rest) =~= seq![frame]);
                assert(frames(r@) + data_frames(bytes@.skip(end as int)) =~= before + seq![frame]);
            } else {
                assert(piece@ =~= rest.take(MAX_FRAME_LEN as int));
                assert(frames(r@) + data_frames(bytes@.skip(end as int)) =~= before + (seq![frame]
                    + data_frames(rest.skip(MAX_FRAME_LEN as int))));
            }
        }
        i = end;
    }
    assert(bytes@.skip(i as int).len() == 0);
    assert(frames(r@) + data_frames(bytes@.skip(i as int)) =~= frames(r@));
    r
}

// ---------------------------------------------------------------------
// Writing and reading
// ---------------------------------------------------------------------
/// Four bytes give back the number they were made from.
proof fn lemma_be_round_trip(n: u32)
    ensures
        be_value(be_bytes(n)[0], be_bytes(n)[1], be_bytes(n)[2], be_bytes(n)[3]) == n,
{
    assert(n == (n / 0x1000000) * 0x1000000 + ((n / 0x10000) % 0x100) * 0x10000 + ((n / 0x100)
        % 0x100) * 0x100 + n % 0x100) by (nonlinear_arith);
}

/// A frame on the wire, with anything behind it, is read back as that frame,
/// and what is behind it is left.
pub proof fn law_decode_inverts_encode(f: FrameView, rest: Seq<u8>)
    requires
        f.fits(),
    ensures
        decoded(f.wire() + rest) == Decoded::Complete(f, rest),
{
    let s = f.wire() + rest;
    let n = f.payload.len();
    lemma_be_round_trip(n as u32);
    law_type_bytes_are_distinct(f.ty, f.ty);
    assert(s[0] == f.ty.code());
    assert(s[1] == be_bytes(n as u32)[0]);
    assert(s[2] == be_bytes(n as u32)[1]);
    assert(s[3] == be_bytes(n as u32)[2]);
    assert(s[4] == be_bytes(n as u32)[3]);
    assert(s.subrange(5, 5 + n as int) =~= f.payload);
    assert(s.skip(5 + n as int) =~= rest);
}

/// As long as the last byte of a frame has not arrived, more is asked for.
pub proof fn law_partial_frame_is_incomplete(f: FrameView, k: int)
    requires
        f.fits(),
        0 <= k < f.wire().len(),
    ensures
        decoded(f.wire().take(k)) == Decoded::Incomplete,
{
    let s = f.wire().take(k);
    let n = f.payload.len();
    lemma_be_round_trip(n as u32);
    law_type_bytes_are_distinct(f.ty, f.ty);
    if k >= 5 {
        assert(s[0] == f.ty.code());
        assert(s[1] == be_bytes(n as u32)[0]);
        assert(s[2] == be_bytes(n as u32)[1]);
        assert(s[3] == be_bytes(n as u32)[2]);
        assert(s[4] == be_bytes(n as u32)[3]);
    }
}

/// What has been read stays read, whatever arrives later: a complete frame
/// keeps its bytes, and an error is final.
pub proof fn law_later_bytes_change_nothing(s: Seq<u8>, more: Seq<u8>)
    ensures
        match decoded(s) {
            Decoded::Incomplete => true,
            Decoded::Invalid(e) => decoded(s + more) == Decoded::Invalid(e),
            Decoded::Complete(frame, rest) => decoded(s + more) == Decoded::Complete(
                frame,
                rest + more,
            ),
        },
{
    if s.len() >= 5 {
        let t = s + more;
        assert(t[0] == s[0] && t[1] == s[1] && t[2] == s[2] && t[3] == s[3] && t[4] == s[4]);
        let len = be_value(s[1], s[2], s[3], s[4]) as int;
        if s.len() >= 5 + len {
            assert(t.subrange(5, 5 + len) =~= s.subrange(5, 5 + len));
            assert(t.skip(5 + len) =~= s.skip(5 + len) + more);
        }
    }
}

/// All frames at the front of a byte stream.
#[verifier::opaque]
pub open spec fn decoded_frames(s: Seq<u8>) -> Seq<FrameView>
    decreases s.len(),
{
    match decoded(s) {
        Decoded::Complete(frame, rest) => if rest.len() < s.len() {
            seq![frame] + decoded_frames(rest)
        } else {
            Seq::empty()
        },
        _ => Seq::empty(),
    }
}

/// What is left behind all frames at the front of a byte stream.
#[verifier::opaque]
pub open spec fn undecoded(s: Seq<u8>) -> Seq<u8>
    decreases s.len(),
{
    match decoded(s) {
        Decoded::Complete(frame, rest) => if rest.len() < s.len() {
            undecoded(rest)
        } else {
            s
        },
        _ => s,
    }
}

/// Frames on the wire, one after the other.
pub open spec fn wire_all(list: Seq<FrameView>) -> Seq<u8>
    decreases list.len(),
{
    if list.len() == 0 {
        Seq::empty()
    } else {
        list[0].wire() + wire_all(list.drop_first())
    }
}

/// A frame in front adds itself to what is read.
proof fn lemma_frame_in_front(f: FrameView, rest: Seq<u8>)
    requires
        f.fits(),
    ensures
        decoded_frames(f.wire() + rest) == seq![f] + decoded_frames(rest),
        undecoded(f.wire() + rest) == undecoded(rest),
{
    reveal(decoded_frames);
    reveal(undecoded);
    law_decode_inverts_encode(f, rest);
    assert(rest.len() < (f.wire() + rest).len());
}

/// There is no frame in nothing.
proof fn lemma_no_frames()
    ensures
        decoded_frames(Seq::empty()) == Seq::<FrameView>::empty(),
        undecoded(Seq::empty()) == Seq::<u8>::empty(),
{
    reveal(decoded_frames);
    reveal(undecoded);
}

/// Frames written one after the other are read back as those frames, with
/// nothing left over.
pub proof fn law_frame_stream_round_trips(list: Seq<FrameView>)
    requires
        forall|i: int| 0 <= i < list.len() ==> (#[trigger] list[i]).fits(),
    ensures
        decoded_frames(wire_all(list)) == list,
        undecoded(wire_all(list)) == Seq::<u8>::empty(),
    decreases list.len(),
{
    if list.len() == 0 {
        lemma_no_frames();
        assert(list =~= Seq::empty());
    } else {
        let rest = list.drop_first();
        assert forall|i: int| 0 <= i < rest.len() implies (#[trigger] rest[i]).fits() by {
            assert(rest[i] == list[i + 1]);
        }
        law_frame_stream_round_trips(rest);
        assert(list[0].fits());
        lemma_frame_in_front(list[0], wire_all(rest));
        assert(seq![list[0]] + rest =~= list);
    }
}

/// It does not matter how a byte stream is split into reads: the frames read
/// from a first part, then those read once the rest has arrived, are the
/// frames of the whole.
pub proof fn law_decoding_ignores_split(a: Seq<u8>, b: Seq<u8>)
    ensures
        decoded_frames(a + b) == decoded_frames(a) + decoded_frames(undecoded(a) + b),
        undecoded(a + b) == undecoded(undecoded(a) + b),
    decreases a.len(),
{
    reveal(decoded_frames);
    reveal(undecoded);
    law_later_bytes_change_nothing(a, b);
    match decoded(a) {
        Decoded::Complete(frame, rest) => {
            assert(rest.len() < a.len());
            assert((rest + b).len() < (a + b).len());
            law_decoding_ignores_split(rest, b);
            assert(decoded_frames(a + b) =~= decoded_frames(a) + decoded_frames(undecoded(a) + b));
        },
        _ => {
            assert(decoded_frames(a) + decoded_frames(undecoded(a) + b) =~= decoded_frames(a + b));
        },
    }
}

/// The values of frames, one after the other.
pub open spec fn payloads(list: Seq<FrameView>) -> Seq<u8>
    decreases list.len(),
{
    if list.len() == 0 {
        Seq::empty()
    } else {
        list[0].payload + payloads(list.drop_first())
    }
}

/// The `Data` frames of some output hold that output, each of them within the
/// cap and none of them empty.
pub proof fn law_data_frames_hold_the_output(bytes: Seq<u8>)
    ensures
        payloads(data_frames(bytes)) == bytes,
        forall|i: int|
            0 <= i < data_frames(bytes).len() ==> {
                &&& (#[trigger] data_frames(bytes)[i]).ty == FrameType::Data
                &&& data_frames(bytes)[i].fits()
                &&& data_frames(bytes)[i].payload.len() > 0
            },
    decreases bytes.len(),
{
    let list = data_frames(bytes);
    if bytes.len() == 0 {
        assert(bytes =~= Seq::<u8>::empty());
    } else if bytes.len() <= MAX_FRAME_LEN {
        reveal_with_fuel(payloads, 2);
        assert(list.drop_first() =~= Seq::<FrameView>::empty());
        assert(payloads(list) =~= bytes);
    } else {
        let rest = bytes.skip(MAX_FRAME_LEN as int);
        law_data_frames_hold_the_output(rest);
        assert(list.drop_first() =~= data_frames(rest));
        assert(bytes.take(MAX_FRAME_LEN as int) + rest =~= bytes);
        assert forall|i: int| 0 <= i < list.len() implies {
            &&& (#[trigger] list[i]).ty == FrameType::Data
            &&& list[i].fits()
            &&& list[i].payload.len() > 0
        } by {
            if i > 0 {
                assert(list[i] == data_frames(rest)[i - 1]);
            }
        }
    }
}

// ---------------------------------------------------------------------
// The layout of a frame
// ---------------------------------------------------------------------
/// The number that bytes stand for, the most significant first: 256 times
/// what all but the last stand for, and the last.
pub open spec fn big_endian(s: Seq<u8>) -> nat
    decreases s.len(),
{
    if s.len() == 0 {
        0
    } else {
        big_endian(s.drop_last()) * 256 + s.last() as nat
    }
}

proof fn lemma_big_endian_of_four(s: Seq<u8>)
    requires
        s.len() == 4,
    ensures
        big_endian(s) == s[0] * 0x1000000 + s[1] * 0x10000 + s[2] * 0x100 + s[3],
{
    let three = s.drop_last();
    let two = three.drop_last();
    let one = two.drop_last();
    assert(one.drop_last() =~= Seq::<u8>::empty());
    reveal_with_fuel(big_endian, 2);
    assert(big_endian(one) == s[0]);
    assert(big_endian(two) == s[0] * 0x100 + s[1]);
    assert(big_endian(three) == s[0] * 0x10000 + s[1] * 0x100 + s[2]);
}

/// A frame on the wire is its type byte, its length in four bytes with the
/// most significant first, and its value.
pub proof fn law_wire_layout(f: FrameView)
    requires
        f.payload.len() <= 16 * 1024 * 1024,
    ensures
        f.wire().len() == 5 + f.payload.len(),
        f.wire()[0] == f.ty.code(),
        big_endian(f.wire().subrange(1, 5)) == f.payload.len(),
        f.wire().skip(5) == f.payload,
{
    let n = f.payload.len() as u32;
    let head = f.wire().subrange(1, 5);
    lemma_big_endian_of_four(head);
    assert(head =~= be_bytes(n));
    assert(n == (n / 0x1000000) * 0x1000000 + ((n / 0x10000) % 0x100) * 0x10000 + ((n / 0x100)
        % 0x100) * 0x100 + n % 0x100) by (nonlinear_arith);
    assert(f.wire().skip(5) =~= f.payload);
}

/// What the front of a byte stream holds is decided by its length field, which
/// is read most significant byte first, and by its type byte, in this order.
pub proof fn law_length_field_decides(s: Seq<u8>)
    requires
        s.len() >= 5,
    ensures
        ({
            let n = big_endian(s.subrange(1, 5));
            if n > 16 * 1024 * 1024 {
                decoded(s) == Decoded::Invalid(ProtocolError::FrameTooLarge(n as u32)) && n
                    <= u32::MAX
            } else if s[0] < 1 || s[0] > 11 {
                decoded(s) == Decoded::Invalid(ProtocolError::UnknownType(s[0]))
            } else if s.len() < 5 + n {
                decoded(s) == Decoded::Incomplete
            } else {
                &&& decoded(s) matches Decoded::Complete(frame, rest)
                &&& frame.ty.code() == s[0]
                &&& frame.payload == s.subrange(5, 5 + n as int)
                &&& rest == s.skip(5 + n as int)
            }
        }),
{
    let head = s.subrange(1, 5);
    lemma_big_endian_of_four(head);
    assert(head[0] == s[1] && head[1] == s[2] && head[2] == s[3] && head[3] == s[4]);
    law_type_numbers(s[0], FrameType::Hello);
    if 1 <= s[0] <= 11 {
        let ty = lemma_type_exists(s[0]);
        law_type_bytes_are_distinct(ty, ty);
    } else {
        assert forall|ty: FrameType| (#[trigger] ty.code()) != s[0] by {
            law_type_numbers(s[0], ty);
        }
    }
}

proof fn lemma_type_exists(b: u8) -> (ty: FrameType)
    requires
        1 <= b <= 11,
    ensures
        ty.code() == b,
{
    if b == 1 {
        FrameType::Hello
    } else if b == 2 {
        FrameType::HelloOk
    } else if b == 3 {
        FrameType::List
    } else if b == 4 {
        FrameType::Sessions
    } else if b == 5 {
        FrameType::AttachOrOpen
    } else if b == 6 {
        FrameType::Input
    } else if b == 7 {
        FrameType::Resize
    } else if b == 8 {
        FrameType::Close
    } else if b == 9 {
        FrameType::Data
    } else if b == 10 {
        FrameType::Status
    } else {
        FrameType::Exit
    }
}

/// Fewer bytes than a header are not yet a frame.
pub proof fn law_header_is_five_bytes(s: Seq<u8>)
    ensures
        s.len() < 5 ==> decoded(s) == Decoded::Incomplete,
{
}

/// The type bytes: those of the control connection are 1 to 4, those that a
/// client sends on a session connection 5 to 8, and those that it is sent
/// there 9 to 11.
pub proof fn law_type_numbers(b: u8, ty: FrameType)
    ensures
        ty.code() == b <==> {
            ||| b == 1 && ty is Hello
            ||| b == 2 && ty is HelloOk
            ||| b == 3 && ty is List
            ||| b == 4 && ty is Sessions
            ||| b == 5 && ty is AttachOrOpen
            ||| b == 6 && ty is Input
            ||| b == 7 && ty is Resize
            ||| b == 8 && ty is Close
            ||| b == 9 && ty is Data
            ||| b == 10 && ty is Status
            ||| b == 11 && ty is Exit
        },
        type_of(b) == Some(ty) <==> ty.code() == b,
        type_of(b) is None <==> b == 0 || b > 11,
{
    if 1 <= b <= 11 {
        let own = lemma_type_exists(b);
        assert(own.code() == b);
    }
    assert forall|other: FrameType| 1 <= #[trigger] other.code() <= 11 by {}
}

/// Output is cut into as few `Data` frames as the cap allows: all but the last
/// are full.
pub proof fn law_all_but_the_last_frame_are_full(bytes: Seq<u8>)
    ensures
        forall|i: int|
            0 <= i < data_frames(bytes).len() - 1 ==> (#[trigger] data_frames(
                bytes,
            )[i]).payload.len() == 16 * 1024 * 1024,
        data_frames(bytes).len() == 0 <==> bytes.len() == 0,
    decreases bytes.len(),
{
    if bytes.len() > MAX_FRAME_LEN {
        let rest = bytes.skip(MAX_FRAME_LEN as int);
        law_all_but_the_last_frame_are_full(rest);
        let list = data_frames(bytes);
        assert forall|i: int| 0 <= i < list.len() - 1 implies (#[trigger] list[i]).payload.len()
            == 16 * 1024 * 1024 by {
            if i > 0 {
                assert(list[i] == data_frames(rest)[i - 1]);
            }
        }
    }
}

/// The version that is spoken.
pub proof fn law_protocol_is_version_one(v: u32)
    ensures
        v == PROTO_VERSION <==> v == 1,
{
}

/// A value fits in a frame if and only if it is no longer than 16 MiB.
pub proof fn law_frames_hold_16_mib(f: FrameView)
    ensures
        f.fits() <==> f.payload.len() <= 16 * 1024 * 1024,
{
}

} // verus!
