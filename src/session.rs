//! Message reassembly and the closing handshake: a state machine that takes
//! one frame at a time and says what to hand the application and what to
//! send back.
use crate::frame::{
    close_code_of, continuation_chunks, encode_frame, fin_bit, fragment_plan, is_control,
    lemma_round_trip, opcode_bits, opcode_of, opcode_value, payload_of, push_bytes, rsv_bit,
    u16_be_bytes, Fragment, Frame, Opcode, MAX_HEADER_SIZE,
};
use vstd::prelude::*;
use vstd::utf8::valid_utf8;

verus! {

/// The close code for a protocol violation.
pub const PROTOCOL_ERROR: u16 = 1002;

/// The close code for a Text message that is not UTF-8.
pub const INVALID_PAYLOAD: u16 = 1007;

/// The largest payload of a control frame.
pub const MAX_CONTROL_PAYLOAD: usize = 125;

/// The type of a data message.
#[derive(Debug, Clone, Copy, PartialEq, Eq, Structural)]
pub enum DataKind {
    Text,
    Binary,
}

/// Where the closing handshake stands.
#[derive(Debug, Clone, Copy, PartialEq, Eq, Structural)]
pub enum CloseState {
    Open,
    /// This side has sent its Close and waits for the peer's.
    CloseSent,
    Closed,
}

/// A complete data message. A Text message's payload is valid UTF-8.
#[derive(Debug, PartialEq, Eq)]
pub struct Message {
    pub kind: DataKind,
    pub payload: Vec<u8>,
}

/// What the caller is to do after a frame.
#[derive(Debug, PartialEq, Eq)]
pub enum Outcome {
    /// Nothing to deliver or send.
    Nothing,
    /// Hand this complete message to the application.
    Message(Message),
    /// Send a Pong carrying these bytes.
    Pong(Vec<u8>),
    /// The peer broke the protocol: send a Close with this code, then wait
    /// for the peer's Close.
    Fail(u16),
    /// The peer closed: send a Close with this code (an empty one when there
    /// is none). The connection is closed.
    Echo(Option<u16>),
    /// The peer answered this side's Close; nothing more to send. The
    /// connection is closed with the given code.
    Closed(Option<u16>),
}

/// The fields of a frame that the session reads.
pub struct FrameInfo {
    pub fin: bool,
    pub rsv1: bool,
    pub rsv2: bool,
    pub rsv3: bool,
    pub opcode: Opcode,
    /// The payload with the mask taken off.
    pub payload: Seq<u8>,
}

pub open spec fn frame_info(w: Seq<u8>) -> FrameInfo {
    FrameInfo {
        fin: fin_bit(w),
        rsv1: rsv_bit(w, 64),
        rsv2: rsv_bit(w, 32),
        rsv3: rsv_bit(w, 16),
        opcode: opcode_of(opcode_bits(w)),
        payload: payload_of(w),
    }
}

/// The abstract state of a session.
pub struct SessionView {
    /// The type of the fragmented message in progress, if any.
    pub continuation: Option<DataKind>,
    /// The payload of that message so far.
    pub buffer: Seq<u8>,
    pub state: CloseState,
    /// The code the connection closes, or is closing, with.
    pub code: Option<u16>,
}

pub enum OutcomeView {
    Nothing,
    Message(DataKind, Seq<u8>),
    Pong(Seq<u8>),
    Fail(u16),
    Echo(Option<u16>),
    Closed(Option<u16>),
}

impl View for Outcome {
    type V = OutcomeView;

    open spec fn view(&self) -> OutcomeView {
        match self {
            Outcome::Nothing => OutcomeView::Nothing,
            Outcome::Message(m) => OutcomeView::Message(m.kind, m.payload@),
            Outcome::Pong(p) => OutcomeView::Pong(p@),
            Outcome::Fail(c) => OutcomeView::Fail(*c),
            Outcome::Echo(c) => OutcomeView::Echo(*c),
            Outcome::Closed(c) => OutcomeView::Closed(*c),
        }
    }
}

/// No reserved bit set, a known opcode, and a control frame unfragmented
/// with at most 125 payload bytes.
pub open spec fn frame_is_valid(f: FrameInfo) -> bool {
    &&& !f.rsv1 && !f.rsv2 && !f.rsv3
    &&& !(f.opcode is Invalid)
    &&& is_control(f.opcode) ==> f.fin && f.payload.len() <= MAX_CONTROL_PAYLOAD
}

/// Sends Close(`code`) and waits for the peer's Close; any partial message is dropped.
pub open spec fn fail_with(code: u16) -> (SessionView, OutcomeView) {
    (
        SessionView {
            continuation: None,
            buffer: Seq::empty(),
            state: CloseState::CloseSent,
            code: Some(code),
        },
        OutcomeView::Fail(code),
    )
}

/// Hands out a complete message, after checking that a Text one is UTF-8.
pub open spec fn deliver(s: SessionView, kind: DataKind, data: Seq<u8>) -> (
    SessionView,
    OutcomeView,
) {
    if kind == DataKind::Text && !valid_utf8(data) {
        fail_with(INVALID_PAYLOAD)
    } else {
        (s, OutcomeView::Message(kind, data))
    }
}

/// What one frame does to a session, and what comes of it.
pub open spec fn step(s: SessionView, f: FrameInfo) -> (SessionView, OutcomeView) {
    match s.state {
        CloseState::Closed => (s, OutcomeView::Nothing),
        CloseState::CloseSent => if f.opcode == Opcode::Close {
            (SessionView { state: CloseState::Closed, ..s }, OutcomeView::Closed(s.code))
        } else {
            (s, OutcomeView::Nothing)
        },
        CloseState::Open => if !frame_is_valid(f) {
            fail_with(PROTOCOL_ERROR)
        } else {
            match f.opcode {
                Opcode::Ping => (s, OutcomeView::Pong(f.payload)),
                Opcode::Close => {
                    let code = close_code_of(f.payload);
                    (
                        SessionView { state: CloseState::Closed, code, ..s },
                        OutcomeView::Echo(code),
                    )
                },
                Opcode::Text | Opcode::Binary => {
                    let kind = if f.opcode == Opcode::Text {
                        DataKind::Text
                    } else {
                        DataKind::Binary
                    };
                    if s.continuation is Some {
                        fail_with(PROTOCOL_ERROR)
                    } else if f.fin {
                        deliver(s, kind, f.payload)
                    } else {
                        (
                            SessionView { continuation: Some(kind), buffer: f.payload, ..s },
                            OutcomeView::Nothing,
                        )
                    }
                },
                Opcode::Continuation => match s.continuation {
                    None => fail_with(PROTOCOL_ERROR),
                    Some(kind) => {
                        let data = s.buffer + f.payload;
                        if f.fin {
                            deliver(
                                SessionView { continuation: None, buffer: Seq::empty(), ..s },
                                kind,
                                data,
                            )
                        } else {
                            (SessionView { buffer: data, ..s }, OutcomeView::Nothing)
                        }
                    },
                },
                _ => (s, OutcomeView::Nothing),
            }
        },
    }
}

/// Relies on std::str::from_utf8, which succeeds exactly on valid UTF-8.
#[verifier::external_body]
fn is_utf8(b: &[u8]) -> (r: bool)
    ensures
        r == valid_utf8(b@),
{
    std::str::from_utf8(b).is_ok()
}

/// The reassembly and closing-handshake state of one connection.
pub struct Session {
    continuation: Option<DataKind>,
    buffer: Vec<u8>,
    state: CloseState,
    code: Option<u16>,
}

impl View for Session {
    type V = SessionView;

    closed spec fn view(&self) -> SessionView {
        SessionView {
            continuation: self.continuation,
            buffer: self.buffer@,
            state: self.state,
            code: self.code,
        }
    }
}

impl Session {
    /// An open session with no message in progress.
    pub fn new() -> (r: Session)
        ensures
            r@ == (SessionView {
                continuation: None,
                buffer: Seq::empty(),
                state: CloseState::Open,
                code: None,
            }),
    {
        Session { continuation: None, buffer: Vec::new(), state: CloseState::Open, code: None }
    }

    pub fn state(&self) -> (r: CloseState)
        ensures
            r == self@.state,
    {
        self.state
    }

    /// The code the connection closed, or is closing, with.
    pub fn negotiated_code(&self) -> (r: Option<u16>)
        ensures
            r == self@.code,
    {
        self.code
    }

    fn fail(&mut self, code: u16) -> (r: Outcome)
        ensures
            (final(self)@, r@) == fail_with(code),
    {
        self.continuation = None;
        self.buffer = Vec::new();
        self.state = CloseState::CloseSent;
        self.code = Some(code);
        Outcome::Fail(code)
    }

    fn deliver(&mut self, kind: DataKind, data: Vec<u8>) -> (r: Outcome)
        ensures
            (final(self)@, r@) == deliver(old(self)@, kind, data@),
    {
        if matches!(kind, DataKind::Text) && !is_utf8(data.as_slice()) {
            self.fail(INVALID_PAYLOAD)
        } else {
            Outcome::Message(Message { kind, payload: data })
        }
    }

    /// This side starts the closing handshake with `code`. Returns whether a
    /// Close should be sent: only an open session sends one.
    pub fn start_close(&mut self, code: Option<u16>) -> (r: bool)
        ensures
            r == (old(self)@.state == CloseState::Open),
            r ==> final(self)@ == (SessionView {
                state: CloseState::CloseSent,
                code,
                ..old(self)@
            }),
            !r ==> final(self)@ == old(self)@,
    {
        match self.state {
            CloseState::Open => {
                self.state = CloseState::CloseSent;
                self.code = code;
                true
            },
            _ => false,
        }
    }

    /// The stream ended: the connection is closed, however far the handshake had got.
    pub fn on_eof(&mut self)
        ensures
            final(self)@ == (SessionView { state: CloseState::Closed, ..old(self)@ }),
    {
        self.state = CloseState::Closed;
    }

    /// Takes one frame, in arrival order, and says what to do about it.
    pub fn on_frame(&mut self, frame: &Frame) -> (r: Outcome)
        ensures
            (final(self)@, r@) == step(old(self)@, frame_info(frame.wire())),
            r@ matches OutcomeView::Pong(p) ==> p.len() <= MAX_CONTROL_PAYLOAD,
    {
        match self.state {
            CloseState::Closed => {
                return Outcome::Nothing;
            },
            CloseState::CloseSent => {
                if frame.is_close() {
                    self.state = CloseState::Closed;
                    return Outcome::Closed(self.code);
                }
                return Outcome::Nothing;
            },
            CloseState::Open => {},
        }
        let opcode = frame.opcode();
        let payload = frame.unmasked_data();
        let fin = frame.fin();
        let valid = !frame.rsv1() && !frame.rsv2() && !frame.rsv3() && !matches!(
            opcode,
            Opcode::Invalid(_)
        ) && (!opcode.is_control() || (fin && payload.len() <= MAX_CONTROL_PAYLOAD));
        if !valid {
            return self.fail(PROTOCOL_ERROR);
        }
        match opcode {
            Opcode::Ping => Outcome::Pong(payload),
            Opcode::Pong => Outcome::Nothing,
            Opcode::Close => {
                let code = if payload.len() >= 2 {
                    Some((payload[0] as u16) * 0x100 + (payload[1] as u16))
                } else {
                    None
                };
                self.state = CloseState::Closed;
                self.code = code;
                Outcome::Echo(code)
            },
            Opcode::Text | Opcode::Binary => {
                let kind = if matches!(opcode, Opcode::Text) {
                    DataKind::Text
                } else {
                    DataKind::Binary
                };
                if self.continuation.is_some() {
                    self.fail(PROTOCOL_ERROR)
                } else if fin {
                    self.deliver(kind, payload)
                } else {
                    self.continuation = Some(kind);
                    self.buffer = payload;
                    Outcome::Nothing
                }
            },
            Opcode::Continuation => match self.continuation {
                None => self.fail(PROTOCOL_ERROR),
                Some(kind) => {
                    push_bytes(&mut self.buffer, payload.as_slice());
                    if fin {
                        let mut data: Vec<u8> = Vec::new();
                        core::mem::swap(&mut data, &mut self.buffer);
                        self.continuation = None;
                        self.deliver(kind, data)
                    } else {
                        Outcome::Nothing
                    }
                },
            },
            Opcode::Invalid(_) => Outcome::Nothing,
        }
    }
}

impl Outcome {
    /// The frame to send back for this outcome, masked with `mask`: a Pong
    /// for a Ping, a Close with the code for a failure or an echo (an empty
    /// Close when the peer gave no code), and none otherwise.
    pub fn reply_frame(&self, mask: Option<u32>) -> (r: Option<Vec<u8>>)
        requires
            self@ matches OutcomeView::Pong(p) ==> p.len() <= MAX_CONTROL_PAYLOAD,
        ensures
            match self@ {
                OutcomeView::Pong(p) => r matches Some(f) && f@ == encode_frame(true, 0xA, p, mask),
                OutcomeView::Fail(c) => r matches Some(f) && f@ == encode_frame(
                    true,
                    0x8,
                    u16_be_bytes(c as int),
                    mask,
                ),
                OutcomeView::Echo(Some(c)) => r matches Some(f) && f@ == encode_frame(
                    true,
                    0x8,
                    u16_be_bytes(c as int),
                    mask,
                ),
                OutcomeView::Echo(None) => r matches Some(f) && f@ == encode_frame(
                    true,
                    0x8,
                    Seq::empty(),
                    mask,
                ),
                _ => r is None,
            },
    {
        match self {
            Outcome::Pong(p) => Some(Frame::new_pong(Some(p.as_slice()), mask)),
            Outcome::Fail(c) => Some(Frame::new_close(Some(*c), mask)),
            Outcome::Echo(Some(c)) => Some(Frame::new_close(Some(*c), mask)),
            Outcome::Echo(None) => Some(Frame::new_close_empty(mask)),
            _ => None,
        }
    }
}

// ---------------------------------------------------------------------------
// Laws of the session, over frames as the encoder builds them.
// ---------------------------------------------------------------------------

/// A frame built by the encoder reads back with the fields it was built from.
pub proof fn lemma_info_of_encoded(fin: bool, opcode: u8, payload: Seq<u8>, mask: Option<u32>)
    requires
        opcode < 16,
        payload.len() + MAX_HEADER_SIZE <= isize::MAX,
    ensures
        frame_info(encode_frame(fin, opcode, payload, mask)) == (FrameInfo {
            fin,
            rsv1: false,
            rsv2: false,
            rsv3: false,
            opcode: opcode_of(opcode),
            payload,
        }),
{
    lemma_round_trip(fin, opcode, payload, mask);
}

/// An open session with no fragmented message in progress.
pub open spec fn idle(s: SessionView) -> bool {
    s.state == CloseState::Open && s.continuation is None && s.buffer == Seq::<u8>::empty()
}

/// A Text message sent as a first frame and two continuations comes out as
/// one Text message holding the three payloads in order, and only after the
/// last frame.
pub proof fn lemma_three_fragments(
    s: SessionView,
    p1: Seq<u8>,
    p2: Seq<u8>,
    p3: Seq<u8>,
    m1: Option<u32>,
    m2: Option<u32>,
    m3: Option<u32>,
)
    requires
        idle(s),
        valid_utf8(p1 + p2 + p3),
        p1.len() + MAX_HEADER_SIZE <= isize::MAX,
        p2.len() + MAX_HEADER_SIZE <= isize::MAX,
        p3.len() + MAX_HEADER_SIZE <= isize::MAX,
    ensures
        ({
            let (s1, o1) = step(s, frame_info(encode_frame(false, 0x1, p1, m1)));
            let (s2, o2) = step(s1, frame_info(encode_frame(false, 0x0, p2, m2)));
            let (s3, o3) = step(s2, frame_info(encode_frame(true, 0x0, p3, m3)));
            &&& o1 == OutcomeView::Nothing
            &&& o2 == OutcomeView::Nothing
            &&& o3 == OutcomeView::Message(DataKind::Text, p1 + p2 + p3)
            &&& idle(s3)
        }),
{
    lemma_info_of_encoded(false, 0x1, p1, m1);
    lemma_info_of_encoded(false, 0x0, p2, m2);
    lemma_info_of_encoded(true, 0x0, p3, m3);
}

/// A final Binary frame is delivered as it stands; a Continuation right
/// after it, with no fragmented message open, fails the connection with
/// 1002 and delivers nothing.
pub proof fn lemma_stray_continuation(
    s: SessionView,
    p: Seq<u8>,
    q: Seq<u8>,
    fin: bool,
    m1: Option<u32>,
    m2: Option<u32>,
)
    requires
        idle(s),
        p.len() + MAX_HEADER_SIZE <= isize::MAX,
        q.len() + MAX_HEADER_SIZE <= isize::MAX,
    ensures
        ({
            let (s1, o1) = step(s, frame_info(encode_frame(true, 0x2, p, m1)));
            let (s2, o2) = step(s1, frame_info(encode_frame(fin, 0x0, q, m2)));
            &&& o1 == OutcomeView::Message(DataKind::Binary, p)
            &&& o2 == OutcomeView::Fail(PROTOCOL_ERROR)
            &&& s2.state == CloseState::CloseSent
            &&& s2.code == Some(PROTOCOL_ERROR)
        }),
{
    lemma_info_of_encoded(true, 0x2, p, m1);
    lemma_info_of_encoded(fin, 0x0, q, m2);
}

/// A Text message that is not UTF-8 fails the connection with 1007, whether
/// it came in one frame or ended a fragmented one.
pub proof fn lemma_invalid_text(s: SessionView, p: Seq<u8>, mask: Option<u32>)
    requires
        s.state == CloseState::Open,
        p.len() + MAX_HEADER_SIZE <= isize::MAX,
    ensures
        s.continuation is None && !valid_utf8(p) ==> step(
            s,
            frame_info(encode_frame(true, 0x1, p, mask)),
        ) == fail_with(INVALID_PAYLOAD),
        s.continuation == Some(DataKind::Text) && !valid_utf8(s.buffer + p) ==> step(
            s,
            frame_info(encode_frame(true, 0x0, p, mask)),
        ) == fail_with(INVALID_PAYLOAD),
        step(s, frame_info(encode_frame(true, 0x1, p, mask))).1 == OutcomeView::Fail(
            INVALID_PAYLOAD,
        ) ==> !valid_utf8(p),
{
    lemma_info_of_encoded(true, 0x1, p, mask);
    lemma_info_of_encoded(true, 0x0, p, mask);
}

/// A Ping on an open connection is answered at once with a Pong carrying
/// the same payload, and the session does not change, even in the middle of
/// a fragmented message.
pub proof fn lemma_ping_pong(s: SessionView, p: Seq<u8>, mask: Option<u32>)
    requires
        s.state == CloseState::Open,
        p.len() <= MAX_CONTROL_PAYLOAD,
    ensures
        step(s, frame_info(encode_frame(true, 0x9, p, mask))) == (s, OutcomeView::Pong(p)),
{
    lemma_info_of_encoded(true, 0x9, p, mask);
}

/// The peer's Close on an open connection closes it: with the peer's code,
/// echoed back; with an empty payload, no code, and an empty Close back.
pub proof fn lemma_peer_close(s: SessionView, code: u16, mask: Option<u32>)
    requires
        s.state == CloseState::Open,
    ensures
        ({
            let close = encode_frame(true, 0x8, u16_be_bytes(code as int), mask);
            let (s1, o1) = step(s, frame_info(close));
            &&& s1.state == CloseState::Closed
            &&& s1.code == Some(code)
            &&& o1 == OutcomeView::Echo(Some(code))
        }),
        ({
            let (s2, o2) = step(s, frame_info(encode_frame(true, 0x8, Seq::empty(), mask)));
            &&& s2.state == CloseState::Closed
            &&& s2.code == None::<u16>
            &&& o2 == OutcomeView::Echo(None)
        }),
{
    lemma_info_of_encoded(true, 0x8, u16_be_bytes(code as int), mask);
    lemma_info_of_encoded(true, 0x8, Seq::empty(), mask);
}

/// After this side's Close, the peer's Close completes the handshake and
/// keeps the code this side sent; anything else is drained.
pub proof fn lemma_close_acknowledged(s: SessionView, f: FrameInfo)
    requires
        s.state == CloseState::CloseSent,
    ensures
        f.opcode == Opcode::Close ==> step(s, f) == (
            SessionView { state: CloseState::Closed, ..s },
            OutcomeView::Closed(s.code),
        ),
        f.opcode != Opcode::Close ==> step(s, f) == (s, OutcomeView::Nothing),
{
}

/// A session fed `fs` in order: the state after the last frame and what
/// came of each frame.
pub open spec fn run(s: SessionView, fs: Seq<FrameInfo>) -> (SessionView, Seq<OutcomeView>)
    decreases fs.len(),
{
    if fs.len() == 0 {
        (s, Seq::empty())
    } else {
        let (s1, o) = step(s, fs[0]);
        let (s2, os) = run(s1, fs.drop_first());
        (s2, seq![o] + os)
    }
}

/// The frame that carries fragment `f` of `msg`, as a receiver reads it.
pub open spec fn fragment_info(f: Fragment, msg: Seq<u8>, mask: Option<u32>) -> FrameInfo {
    frame_info(
        encode_frame(
            f.fin,
            opcode_value(f.opcode),
            msg.subrange(f.start as int, f.start + f.len),
            mask,
        ),
    )
}

pub open spec fn fragment_infos(plan: Seq<Fragment>, msg: Seq<u8>, mask: Option<u32>) -> Seq<
    FrameInfo,
> {
    plan.map_values(|f: Fragment| fragment_info(f, msg, mask))
}

pub open spec fn data_opcode(kind: DataKind) -> Opcode {
    if kind == DataKind::Text {
        Opcode::Text
    } else {
        Opcode::Binary
    }
}

proof fn lemma_run_continuations(
    s: SessionView,
    kind: DataKind,
    msg: Seq<u8>,
    start: int,
    max: int,
    mask: Option<u32>,
)
    requires
        s.state == CloseState::Open,
        s.continuation == Some(kind),
        0 < max,
        0 <= start,
        msg.len() + MAX_HEADER_SIZE <= isize::MAX,
        s.buffer == msg.subrange(0, if start < msg.len() { start } else { msg.len() as int }),
    ensures
        ({
            let fs = fragment_infos(continuation_chunks(start, msg.len() as int, max), msg, mask);
            let (s1, outs) = run(s, fs);
            &&& s1 == SessionView { buffer: msg, ..s }
            &&& outs.len() == fs.len()
            &&& forall|i: int| 0 <= i < outs.len() ==> outs[i] == OutcomeView::Nothing
        }),
    decreases (if start < msg.len() {
        msg.len() - start
    } else {
        0
    }),
{
    let total = msg.len() as int;
    let chunks = continuation_chunks(start, total, max);
    let fs = fragment_infos(chunks, msg, mask);
    if start >= total {
        assert(s.buffer =~= msg);
        assert(fs =~= Seq::<FrameInfo>::empty());
    } else {
        let len = if total - start < max {
            total - start
        } else {
            max
        };
        let c = chunks[0];
        let rest = continuation_chunks(start + max, total, max);
        assert(chunks =~= seq![c] + rest);
        let piece = msg.subrange(start, start + len);
        lemma_info_of_encoded(false, 0x0, piece, mask);
        assert(fs[0] == fragment_info(c, msg, mask));
        let s1 = SessionView { buffer: s.buffer + piece, ..s };
        assert(step(s, fs[0]) == (s1, OutcomeView::Nothing));
        let next = if start + max < total {
            start + max
        } else {
            total
        };
        assert(s1.buffer =~= msg.subrange(0, next));
        assert(fs.drop_first() =~= fragment_infos(rest, msg, mask));
        lemma_run_continuations(s1, kind, msg, start + max, max, mask);
    }
}

/// What the fragment law states, for a given plan.
pub open spec fn reassembles(
    s: SessionView,
    kind: DataKind,
    msg: Seq<u8>,
    plan: Seq<Fragment>,
    mask: Option<u32>,
) -> bool {
    let (s1, outs) = run(s, fragment_infos(plan, msg, mask));
    &&& s1 == s
    &&& outs.len() == plan.len()
    &&& outs.last() == OutcomeView::Message(kind, msg)
    &&& forall|i: int| 0 <= i < outs.len() - 1 ==> outs[i] == OutcomeView::Nothing
}

/// A message cut into frames by `fragment_plan` and encoded comes out of an
/// idle session as that same message, of the same type, at its last frame;
/// the frames before it deliver nothing, and the session is idle again.
pub proof fn lemma_fragments_reassemble(
    s: SessionView,
    kind: DataKind,
    msg: Seq<u8>,
    max: usize,
    mask: Option<u32>,
)
    requires
        idle(s),
        max > 0,
        msg.len() + MAX_HEADER_SIZE <= isize::MAX,
        kind == DataKind::Text ==> valid_utf8(msg),
    ensures
        reassembles(
            s,
            kind,
            msg,
            fragment_plan(data_opcode(kind), msg.len() as int, max as int),
            mask,
        ),
{
    if msg.len() < max {
        lemma_single_fragment(s, kind, msg, max, mask);
    } else {
        lemma_many_fragments(s, kind, msg, max, mask);
    }
}

proof fn lemma_single_fragment(
    s: SessionView,
    kind: DataKind,
    msg: Seq<u8>,
    max: usize,
    mask: Option<u32>,
)
    requires
        idle(s),
        msg.len() < max,
        msg.len() + MAX_HEADER_SIZE <= isize::MAX,
        kind == DataKind::Text ==> valid_utf8(msg),
    ensures
        reassembles(
            s,
            kind,
            msg,
            fragment_plan(data_opcode(kind), msg.len() as int, max as int),
            mask,
        ),
{
    let total = msg.len() as int;
    let op = data_opcode(kind);
    let plan = fragment_plan(op, total, max as int);
    let fs = fragment_infos(plan, msg, mask);
    lemma_info_of_encoded(true, opcode_value(op), msg.subrange(0, total), mask);
    assert(msg.subrange(0, total) =~= msg);
    assert(fs.len() == 1);
    assert(fs[0] == fragment_info(plan[0], msg, mask));
    assert(opcode_of(opcode_value(op)) == op);
    assert(step(s, fs[0]) == (s, OutcomeView::Message(kind, msg)));
    assert(fs.drop_first() =~= Seq::<FrameInfo>::empty());
    assert(run(s, fs.drop_first()) == (s, Seq::<OutcomeView>::empty()));
    assert(run(s, fs).1 =~= seq![OutcomeView::Message(kind, msg)]);
}

proof fn lemma_many_fragments(
    s: SessionView,
    kind: DataKind,
    msg: Seq<u8>,
    max: usize,
    mask: Option<u32>,
)
    requires
        idle(s),
        max > 0,
        msg.len() >= max,
        msg.len() + MAX_HEADER_SIZE <= isize::MAX,
        kind == DataKind::Text ==> valid_utf8(msg),
    ensures
        reassembles(
            s,
            kind,
            msg,
            fragment_plan(data_opcode(kind), msg.len() as int, max as int),
            mask,
        ),
{
    let total = msg.len() as int;
    let op = data_opcode(kind);
    let plan = fragment_plan(op, total, max as int);
    let fs = fragment_infos(plan, msg, mask);
    let first = msg.subrange(0, max as int);
    let chunks = continuation_chunks(max as int, total, max as int);
    let last = Fragment {
        opcode: Opcode::Continuation,
        fin: true,
        start: total as usize,
        len: 0,
    };
    let mid = fragment_infos(chunks, msg, mask);
    let last_info = fragment_info(last, msg, mask);
    let s1 = SessionView { continuation: Some(kind), buffer: first, ..s };
    let s2 = SessionView { buffer: msg, ..s1 };
    let message = OutcomeView::Message(kind, msg);
    assert(step(s, fs[0]) == (s1, OutcomeView::Nothing)) by {
        lemma_info_of_encoded(false, opcode_value(op), first, mask);
        assert(plan[0] == Fragment { opcode: op, fin: false, start: 0, len: max });
        assert(opcode_of(opcode_value(op)) == op);
    }
    assert(fs.drop_first() =~= mid + seq![last_info]) by {
        assert(plan =~= seq![plan[0]] + chunks + seq![last]);
    }
    assert(last_info == FrameInfo {
        fin: true,
        rsv1: false,
        rsv2: false,
        rsv3: false,
        opcode: Opcode::Continuation,
        payload: Seq::empty(),
    }) by {
        lemma_info_of_encoded(true, 0x0, msg.subrange(total, total), mask);
        assert(msg.subrange(total, total) =~= Seq::<u8>::empty());
    }
    assert(run(s2, seq![last_info]) == (s, seq![message])) by {
        assert(s2.buffer + Seq::<u8>::empty() =~= msg);
        assert(SessionView { continuation: None, buffer: Seq::empty(), ..s2 } == s);
        assert(step(s2, last_info) == (s, message));
        assert(seq![last_info].drop_first() =~= Seq::<FrameInfo>::empty());
        assert(run(s, Seq::<FrameInfo>::empty()) == (s, Seq::<OutcomeView>::empty()));
        assert(seq![message] + Seq::<OutcomeView>::empty() =~= seq![message]);
    }
    lemma_run_continuations(s1, kind, msg, max as int, max as int, mask);
    lemma_run_append(s1, mid, seq![last_info]);
    let tail_outs = run(s1, fs.drop_first()).1;
    assert(tail_outs == run(s1, mid).1 + seq![message]);
    let outs = run(s, fs).1;
    assert(outs == seq![OutcomeView::Nothing] + tail_outs);
    assert(run(s, fs).0 == s);
    assert(outs.last() == message);
    assert forall|i: int| 0 <= i < outs.len() - 1 implies outs[i] == OutcomeView::Nothing by {
        if i > 0 {
            assert(outs[i] == tail_outs[i - 1]);
            assert(tail_outs[i - 1] == run(s1, mid).1[i - 1]);
        }
    }
}

/// Running two batches of frames one after the other is running them together.
proof fn lemma_run_append(s: SessionView, a: Seq<FrameInfo>, b: Seq<FrameInfo>)
    ensures
        ({
            let (s1, oa) = run(s, a);
            let (s2, ob) = run(s1, b);
            run(s, a + b) == (s2, oa + ob)
        }),
    decreases a.len(),
{
    if a.len() == 0 {
        assert(a + b =~= b);
        assert(Seq::<OutcomeView>::empty() + run(s, b).1 =~= run(s, b).1);
    } else {
        let (s1, o) = step(s, a[0]);
        assert((a + b).drop_first() =~= a.drop_first() + b);
        lemma_run_append(s1, a.drop_first(), b);
        let (sa, oa) = run(s1, a.drop_first());
        let (sb, ob) = run(sa, b);
        assert(seq![o] + (oa + ob) =~= (seq![o] + oa) + ob);
    }
}

} // verus!
