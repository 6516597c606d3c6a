//! Application messages: assembling them from frames and splitting them into frames.

use vstd::prelude::*;
use vstd::slice::{slice_subrange, slice_to_vec};
use vstd::utf8::valid_utf8;
use crate::error::{close_code_of, ProtocolError};
use crate::frame::{Frame, FrameModel, Opcode};

verus! {

/// Whether the bytes are well-formed UTF-8: a run of Unicode scalars, each
/// in its shortest encoding, with no surrogates.
pub open spec fn utf8_valid(b: Seq<u8>) -> bool {
    valid_utf8(b)
}

/// Relies on std::str::from_utf8: it accepts exactly the well-formed UTF-8
/// byte strings.
#[verifier::external_body]
fn is_utf8(b: &[u8]) -> (r: bool)
    ensures
        r == utf8_valid(b@),
{
    std::str::from_utf8(b).is_ok()
}

/// A complete application message. Text payloads are UTF-8 bytes.
#[derive(Clone, Debug, PartialEq, Eq)]
pub enum Message {
    Text(Vec<u8>),
    Binary(Vec<u8>),
    Ping(Vec<u8>),
    Pong(Vec<u8>),
    /// A status code and a UTF-8 reason, or nothing.
    Close(Option<(u16, Vec<u8>)>),
}

pub enum MessageModel {
    Text(Seq<u8>),
    Binary(Seq<u8>),
    Ping(Seq<u8>),
    Pong(Seq<u8>),
    Close(Option<(u16, Seq<u8>)>),
}

impl View for Message {
    type V = MessageModel;

    open spec fn view(&self) -> MessageModel {
        match self {
            Message::Text(b) => MessageModel::Text(b@),
            Message::Binary(b) => MessageModel::Binary(b@),
            Message::Ping(b) => MessageModel::Ping(b@),
            Message::Pong(b) => MessageModel::Pong(b@),
            Message::Close(None) => MessageModel::Close(None),
            Message::Close(Some((c, r))) => MessageModel::Close(Some((*c, r@))),
        }
    }
}

/// The close codes that may be sent and received.
pub open spec fn valid_close_code(c: u16) -> bool {
    (1000 <= c <= 1011 && c != 1005 && c != 1006) || (3000 <= c <= 4999)
}

pub fn is_valid_close_code(c: u16) -> (r: bool)
    ensures
        r == valid_close_code(c),
{
    (1000 <= c && c <= 1011 && c != 1005 && c != 1006) || (3000 <= c && c <= 4999)
}

/// The message that a Close payload carries.
pub open spec fn close_of(p: Seq<u8>) -> Result<MessageModel, ProtocolError> {
    if p.len() == 0 {
        Ok(MessageModel::Close(None))
    } else if p.len() == 1 {
        Err(ProtocolError::InvalidCloseCode)
    } else {
        let code = (p[0] * 256 + p[1]) as u16;
        let reason = p.skip(2);
        if !valid_close_code(code) {
            Err(ProtocolError::InvalidCloseCode)
        } else if !utf8_valid(reason) {
            Err(ProtocolError::InvalidUtf8)
        } else {
            Ok(MessageModel::Close(Some((code, reason))))
        }
    }
}

/// Where the assembler stands between frames.
#[derive(Clone, Copy, Debug, PartialEq, Eq, Structural)]
pub enum Partial {
    Idle,
    InText,
    InBinary,
}

pub struct AssemblerModel {
    pub state: Partial,
    pub buffer: Seq<u8>,
    pub max: nat,
}

/// What one frame does to the assembler: its next state and what it yields.
/// On an error the assembler is left as it was.
pub open spec fn step(a: AssemblerModel, f: FrameModel) -> (
    AssemblerModel,
    Result<Option<MessageModel>, ProtocolError>,
) {
    let p = f.payload;
    if f.opcode.is_control() {
        if !f.fin {
            (a, Err(ProtocolError::BadFragmentation))
        } else if p.len() > 125 {
            (a, Err(ProtocolError::BadControlSize))
        } else if f.opcode is Ping {
            (a, Ok(Some(MessageModel::Ping(p))))
        } else if f.opcode is Pong {
            (a, Ok(Some(MessageModel::Pong(p))))
        } else {
            match close_of(p) {
                Ok(m) => (a, Ok(Some(m))),
                Err(e) => (a, Err(e)),
            }
        }
    } else if f.opcode is Continuation {
        if a.state is Idle {
            (a, Err(ProtocolError::UnexpectedContinuation))
        } else if a.buffer.len() + p.len() > a.max {
            (a, Err(ProtocolError::TooBig))
        } else {
            let all = a.buffer + p;
            if !f.fin {
                (AssemblerModel { buffer: all, ..a }, Ok(None))
            } else {
                let done = AssemblerModel { state: Partial::Idle, buffer: Seq::empty(), ..a };
                if a.state is InBinary {
                    (done, Ok(Some(MessageModel::Binary(all))))
                } else if utf8_valid(all) {
                    (done, Ok(Some(MessageModel::Text(all))))
                } else {
                    (a, Err(ProtocolError::InvalidUtf8))
                }
            }
        }
    } else {
        if !(a.state is Idle) {
            (a, Err(ProtocolError::UnexpectedNewData))
        } else if p.len() > a.max {
            (a, Err(ProtocolError::TooBig))
        } else if !f.fin {
            (
                AssemblerModel {
                    state: if f.opcode is Text { Partial::InText } else { Partial::InBinary },
                    buffer: p,
                    ..a
                },
                Ok(None),
            )
        } else if f.opcode is Binary {
            (a, Ok(Some(MessageModel::Binary(p))))
        } else if utf8_valid(p) {
            (a, Ok(Some(MessageModel::Text(p))))
        } else {
            (a, Err(ProtocolError::InvalidUtf8))
        }
    }
}

pub open spec fn opt_view(r: Result<Option<Message>, ProtocolError>) -> Result<
    Option<MessageModel>,
    ProtocolError,
> {
    match r {
        Ok(Some(m)) => Ok(Some(m@)),
        Ok(None) => Ok(None),
        Err(e) => Err(e),
    }
}

/// The default ceiling on an assembled message: 64 MiB.
pub const DEFAULT_MAX_MESSAGE: usize = 64 * 1024 * 1024;

/// Puts frames together into messages.
pub struct Assembler {
    pub state: Partial,
    pub buffer: Vec<u8>,
    pub max_message: usize,
}

impl View for Assembler {
    type V = AssemblerModel;

    open spec fn view(&self) -> AssemblerModel {
        AssemblerModel { state: self.state, buffer: self.buffer@, max: self.max_message as nat }
    }
}

pub open spec fn idle(max: nat) -> AssemblerModel {
    AssemblerModel { state: Partial::Idle, buffer: Seq::empty(), max }
}

impl Assembler {
    /// Nothing buffered when idle, and never more than the ceiling.
    pub open spec fn wf(&self) -> bool {
        &&& self.state is Idle ==> self.buffer@.len() == 0
        &&& self.buffer@.len() <= self.max_message
    }

    /// An idle assembler whose messages may hold up to `max_message` bytes.
    pub fn new(max_message: usize) -> (r: Assembler)
        ensures
            r@ == idle(max_message as nat),
            r.wf(),
    {
        Assembler { state: Partial::Idle, buffer: Vec::new(), max_message }
    }

    pub fn state(&self) -> (r: Partial)
        ensures
            r == self@.state,
    {
        self.state
    }

    /// Takes in one frame, and yields the message that it completes, if any.
    pub fn push(&mut self, frame: Frame) -> (r: Result<Option<Message>, ProtocolError>)
        requires
            old(self).wf(),
        ensures
            final(self).wf(),
            (final(self)@, opt_view(r)) == step(old(self)@, frame@),
    {
        let n = frame.payload.len();
        if frame.opcode.is_control_op() {
            if !frame.fin {
                return Err(ProtocolError::BadFragmentation);
            }
            if n > 125 {
                return Err(ProtocolError::BadControlSize);
            }
            match frame.opcode {
                Opcode::Ping => Ok(Some(Message::Ping(frame.payload))),
                Opcode::Pong => Ok(Some(Message::Pong(frame.payload))),
                _ => match parse_close(&frame.payload) {
                    Ok(m) => Ok(Some(m)),
                    Err(e) => Err(e),
                },
            }
        } else if frame.opcode == Opcode::Continuation {
            if self.state == Partial::Idle {
                return Err(ProtocolError::UnexpectedContinuation);
            }
            if n > self.max_message - self.buffer.len() {
                return Err(ProtocolError::TooBig);
            }
            if !frame.fin {
                let mut p = frame.payload;
                self.buffer.append(&mut p);
                return Ok(None);
            }
            let mut all = slice_to_vec(self.buffer.as_slice());
            let mut p = frame.payload;
            all.append(&mut p);
            if self.state == Partial::InText && !is_utf8(all.as_slice()) {
                return Err(ProtocolError::InvalidUtf8);
            }
            let msg = if self.state == Partial::InBinary {
                Message::Binary(all)
            } else {
                Message::Text(all)
            };
            self.state = Partial::Idle;
            self.buffer = Vec::new();
            Ok(Some(msg))
        } else {
            if self.state != Partial::Idle {
                return Err(ProtocolError::UnexpectedNewData);
            }
            if n > self.max_message {
                return Err(ProtocolError::TooBig);
            }
            if !frame.fin {
                self.state = if frame.opcode == Opcode::Text {
                    Partial::InText
                } else {
                    Partial::InBinary
                };
                self.buffer = frame.payload;
                return Ok(None);
            }
            if frame.opcode == Opcode::Binary {
                Ok(Some(Message::Binary(frame.payload)))
            } else if is_utf8(frame.payload.as_slice()) {
                Ok(Some(Message::Text(frame.payload)))
            } else {
                Err(ProtocolError::InvalidUtf8)
            }
        }
    }
}

/// Reads the payload of a Close frame.
pub fn parse_close(p: &Vec<u8>) -> (r: Result<Message, ProtocolError>)
    ensures
        match (r, close_of(p@)) {
            (Ok(m), Ok(mm)) => m@ == mm,
            (Err(e), Err(ee)) => e == ee,
            _ => false,
        },
{
    let n = p.len();
    if n == 0 {
        return Ok(Message::Close(None));
    }
    if n == 1 {
        return Err(ProtocolError::InvalidCloseCode);
    }
    let code: u16 = p[0] as u16 * 256 + p[1] as u16;
    if !is_valid_close_code(code) {
        return Err(ProtocolError::InvalidCloseCode);
    }
    let mut reason: Vec<u8> = Vec::new();
    let mut i: usize = 2;
    while i < n
        invariant
            2 <= i <= n,
            n == p@.len(),
            reason@ == p@.subrange(2, i as int),
        decreases n - i,
    {
        reason.push(p[i]);
        i = i + 1;
        assert(reason@ =~= p@.subrange(2, i as int));
    }
    assert(reason@ =~= p@.skip(2));
    if !is_utf8(reason.as_slice()) {
        return Err(ProtocolError::InvalidUtf8);
    }
    Ok(Message::Close(Some((code, reason))))
}


/// An unmasked frame without reserved bits.
pub open spec fn plain_frame(fin: bool, op: Opcode, p: Seq<u8>) -> FrameModel {
    FrameModel {
        fin,
        rsv1: false,
        rsv2: false,
        rsv3: false,
        opcode: op,
        mask: None,
        payload: p,
    }
}

/// The data frames that carry `p` in pieces of at most `t` bytes: the first
/// with opcode `op`, the rest as continuations, FIN on the last only.
pub open spec fn fragments(op: Opcode, p: Seq<u8>, t: nat) -> Seq<FrameModel>
    decreases p.len(),
{
    if p.len() <= t || t == 0 {
        seq![plain_frame(true, op, p)]
    } else {
        seq![plain_frame(false, op, p.take(t as int))] + fragments(
            Opcode::Continuation,
            p.skip(t as int),
            t,
        )
    }
}

/// The payload of a Close message: the code big-endian, then the reason.
pub open spec fn close_payload(c: Option<(u16, Seq<u8>)>) -> Seq<u8> {
    match c {
        None => Seq::empty(),
        Some((code, reason)) => seq![(code / 256) as u8, (code % 256) as u8] + reason,
    }
}

/// The frames that send `m` with fragment threshold `t`; control messages
/// are never split and are refused over 125 bytes.
pub open spec fn frames_of(m: MessageModel, t: nat) -> Result<Seq<FrameModel>, ProtocolError> {
    match m {
        MessageModel::Text(p) => Ok(fragments(Opcode::Text, p, t)),
        MessageModel::Binary(p) => Ok(fragments(Opcode::Binary, p, t)),
        MessageModel::Ping(p) => if p.len() > 125 {
            Err(ProtocolError::BadControlSize)
        } else {
            Ok(seq![plain_frame(true, Opcode::Ping, p)])
        },
        MessageModel::Pong(p) => if p.len() > 125 {
            Err(ProtocolError::BadControlSize)
        } else {
            Ok(seq![plain_frame(true, Opcode::Pong, p)])
        },
        MessageModel::Close(c) => if close_payload(c).len() > 125 {
            Err(ProtocolError::BadControlSize)
        } else {
            Ok(seq![plain_frame(true, Opcode::Close, close_payload(c))])
        },
    }
}

pub open spec fn frame_views(fs: Seq<Frame>) -> Seq<FrameModel> {
    fs.map_values(|f: Frame| f@)
}

fn plain(fin: bool, opcode: Opcode, payload: Vec<u8>) -> (r: Frame)
    ensures
        r@ == plain_frame(fin, opcode, payload@),
{
    Frame { fin, rsv1: false, rsv2: false, rsv3: false, opcode, mask: None, payload }
}

/// Splits `p` into data frames of at most `t` bytes each.
fn fragment(op: Opcode, p: &Vec<u8>, t: usize) -> (r: Vec<Frame>)
    requires
        t >= 1,
    ensures
        frame_views(r@) == fragments(op, p@, t as nat),
{
    let n = p.len();
    let mut out: Vec<Frame> = Vec::new();
    let mut pos: usize = 0;
    let mut cur = op;
    assert(frame_views(out@) =~= Seq::<FrameModel>::empty());
    assert(p@.skip(0) =~= p@);
    while n - pos > t
        invariant
            pos <= n,
            n == p@.len(),
            t >= 1,
            frame_views(out@) + fragments(cur, p@.skip(pos as int), t as nat) == fragments(
                op,
                p@,
                t as nat,
            ),
        decreases n - pos,
    {
        let ghost q = p@.skip(pos as int);
        let piece = slice_to_vec(slice_subrange(p.as_slice(), pos, pos + t));
        assert(piece@ =~= q.take(t as int));
        let f = plain(false, cur, piece);
        let ghost before = out@;
        out.push(f);
        assert(frame_views(out@) =~= frame_views(before).push(f@));
        assert(q.skip(t as int) =~= p@.skip(pos + t));
        pos = pos + t;
        cur = Opcode::Continuation;
    }
    let last = slice_to_vec(slice_subrange(p.as_slice(), pos, n));
    assert(last@ =~= p@.skip(pos as int));
    let f = plain(true, cur, last);
    let ghost before = out@;
    out.push(f);
    assert(frame_views(out@) =~= frame_views(before).push(f@));
    assert(frame_views(out@) =~= fragments(op, p@, t as nat));
    out
}

/// The frames that send `m`, splitting data messages into pieces of at most
/// `threshold` bytes.
pub fn serialize(m: &Message, threshold: usize) -> (r: Result<Vec<Frame>, ProtocolError>)
    requires
        threshold >= 1,
    ensures
        match frames_of(m@, threshold as nat) {
            Ok(fs) => r matches Ok(v) && frame_views(v@) == fs,
            Err(e) => r == Err::<Vec<Frame>, ProtocolError>(e),
        },
{
    match m {
        Message::Text(p) => Ok(fragment(Opcode::Text, p, threshold)),
        Message::Binary(p) => Ok(fragment(Opcode::Binary, p, threshold)),
        Message::Ping(p) | Message::Pong(p) => {
            if p.len() > 125 {
                return Err(ProtocolError::BadControlSize);
            }
            let op = match m {
                Message::Ping(_) => Opcode::Ping,
                _ => Opcode::Pong,
            };
            let v = vec![plain(true, op, slice_to_vec(p.as_slice()))];
            assert(frame_views(v@) =~= seq![plain_frame(true, op, p@)]);
            Ok(v)
        },
        Message::Close(c) => {
            let mut payload: Vec<u8> = Vec::new();
            match c {
                None => {},
                Some((code, reason)) => {
                    if reason.len() > 123 {
                        return Err(ProtocolError::BadControlSize);
                    }
                    payload.push((*code / 256) as u8);
                    payload.push((*code % 256) as u8);
                    let mut rest = slice_to_vec(reason.as_slice());
                    payload.append(&mut rest);
                },
            }
            assert(payload@ =~= close_payload(match c {
                None => None,
                Some((code, reason)) => Some((*code, reason@)),
            }));
            let v = vec![plain(true, Opcode::Close, payload)];
            assert(frame_views(v@) =~= seq![v@[0]@]);
            Ok(v)
        },
    }
}


pub open spec fn opt_seq(o: Option<MessageModel>) -> Seq<MessageModel> {
    match o {
        Some(m) => seq![m],
        None => Seq::empty(),
    }
}

/// Feeds frames one by one to the assembler, collecting the messages that
/// come out, up to the first error.
pub open spec fn feed(a: AssemblerModel, fs: Seq<FrameModel>) -> (
    AssemblerModel,
    Result<Seq<MessageModel>, ProtocolError>,
)
    decreases fs.len(),
{
    if fs.len() == 0 {
        (a, Ok(Seq::empty()))
    } else {
        let (a1, r) = step(a, fs[0]);
        match r {
            Err(e) => (a1, Err(e)),
            Ok(o) => {
                let (a2, rest) = feed(a1, fs.skip(1));
                (
                    a2,
                    match rest {
                        Ok(ms) => Ok(opt_seq(o) + ms),
                        Err(e) => Err(e),
                    },
                )
            },
        }
    }
}

/// A message that can be sent and received under the message ceiling `max`.
pub open spec fn sendable(m: MessageModel, max: nat) -> bool {
    match m {
        MessageModel::Text(p) => utf8_valid(p) && p.len() <= max,
        MessageModel::Binary(p) => p.len() <= max,
        MessageModel::Ping(p) => p.len() <= 125,
        MessageModel::Pong(p) => p.len() <= 125,
        MessageModel::Close(None) => true,
        MessageModel::Close(Some((c, r))) => valid_close_code(c) && utf8_valid(r) && r.len()
            <= 123,
    }
}

/// The frames of all the messages of `ms`, one message after another.
pub open spec fn frames_of_all(ms: Seq<MessageModel>, t: nat) -> Seq<FrameModel>
    decreases ms.len(),
{
    if ms.len() == 0 {
        Seq::empty()
    } else {
        match frames_of(ms[0], t) {
            Ok(fs) => fs + frames_of_all(ms.skip(1), t),
            Err(_) => frames_of_all(ms.skip(1), t),
        }
    }
}

proof fn lemma_feed_one(a: AssemblerModel, f: FrameModel)
    ensures
        feed(a, seq![f]) == (
            step(a, f).0,
            match step(a, f).1 {
                Ok(o) => Ok(opt_seq(o)),
                Err(e) => Err(e),
            },
        ),
{
    let fs = seq![f];
    assert(fs[0] == f);
    assert(fs.skip(1) =~= Seq::<FrameModel>::empty());
    assert(feed(step(a, f).0, fs.skip(1)) == (step(a, f).0, Ok::<
        Seq<MessageModel>,
        ProtocolError,
    >(Seq::empty())));
    match step(a, f).1 {
        Ok(o) => {
            assert(opt_seq(o) + Seq::<MessageModel>::empty() =~= opt_seq(o));
        },
        Err(e) => {},
    }
}

/// Feeding `x + y` is feeding `x`, then `y` from where `x` left off.
proof fn lemma_feed_append(a: AssemblerModel, x: Seq<FrameModel>, y: Seq<FrameModel>)
    requires
        feed(a, x).1 is Ok,
    ensures
        feed(a, x + y) == (
            feed(feed(a, x).0, y).0,
            match feed(feed(a, x).0, y).1 {
                Ok(ms) => Ok(feed(a, x).1->Ok_0 + ms),
                Err(e) => Err(e),
            },
        ),
    decreases x.len(),
{
    if x.len() == 0 {
        assert(x + y =~= y);
        match feed(a, y).1 {
            Ok(ms) => {
                assert(Seq::<MessageModel>::empty() + ms =~= ms);
            },
            Err(_) => {},
        }
    } else {
        assert((x + y)[0] == x[0]);
        assert((x + y).skip(1) =~= x.skip(1) + y);
        let (a1, r) = step(a, x[0]);
        lemma_feed_append(a1, x.skip(1), y);
        let o = r->Ok_0;
        match feed(feed(a, x).0, y).1 {
            Ok(ms) => {
                let m1 = feed(a1, x.skip(1)).1->Ok_0;
                assert(opt_seq(o) + (m1 + ms) =~= (opt_seq(o) + m1) + ms);
            },
            Err(_) => {},
        }
    }
}

/// Continuations carrying `q` after a buffered `a.buffer` finish the message
/// `a.buffer + q`; a text message is accepted exactly when the whole is UTF-8.
proof fn lemma_feed_continuations(a: AssemblerModel, q: Seq<FrameModel>, p: Seq<u8>, t: nat)
    requires
        t >= 1,
        !(a.state is Idle),
        a.buffer.len() + p.len() <= a.max,
        q == fragments(Opcode::Continuation, p, t),
    ensures
        a.state is InBinary ==> feed(a, q) == (
            idle(a.max),
            Ok::<Seq<MessageModel>, ProtocolError>(seq![MessageModel::Binary(a.buffer + p)]),
        ),
        a.state is InText && utf8_valid(a.buffer + p) ==> feed(a, q) == (
            idle(a.max),
            Ok::<Seq<MessageModel>, ProtocolError>(seq![MessageModel::Text(a.buffer + p)]),
        ),
        a.state is InText && !utf8_valid(a.buffer + p) ==> feed(a, q).1 == Err::<
            Seq<MessageModel>,
            ProtocolError,
        >(ProtocolError::InvalidUtf8),
    decreases p.len(),
{
    if p.len() <= t {
        lemma_feed_one(a, plain_frame(true, Opcode::Continuation, p));
        assert(step(a, plain_frame(true, Opcode::Continuation, p)).0 == idle(a.max) || !(
        a.state is InBinary || utf8_valid(a.buffer + p)));
    } else {
        let f = plain_frame(false, Opcode::Continuation, p.take(t as int));
        let rest = fragments(Opcode::Continuation, p.skip(t as int), t);
        assert(q == seq![f] + rest);
        let a1 = AssemblerModel { buffer: a.buffer + p.take(t as int), ..a };
        assert(step(a, f) == (a1, Ok::<Option<MessageModel>, ProtocolError>(None)));
        lemma_feed_one(a, f);
        lemma_feed_append(a, seq![f], rest);
        assert(a1.buffer + p.skip(t as int) =~= a.buffer + p);
        lemma_feed_continuations(a1, rest, p.skip(t as int), t);
        assert(opt_seq(None) =~= Seq::<MessageModel>::empty());
        assert(Seq::<MessageModel>::empty() + seq![MessageModel::Binary(a.buffer + p)] =~= seq![
            MessageModel::Binary(a.buffer + p),
        ]);
        assert(Seq::<MessageModel>::empty() + seq![MessageModel::Text(a.buffer + p)] =~= seq![
            MessageModel::Text(a.buffer + p),
        ]);
    }
}

proof fn lemma_data_message(op: Opcode, p: Seq<u8>, t: nat, max: nat)
    requires
        t >= 1,
        p.len() <= max,
        op is Text || op is Binary,
    ensures
        op is Binary ==> feed(idle(max), fragments(op, p, t)) == (
            idle(max),
            Ok::<Seq<MessageModel>, ProtocolError>(seq![MessageModel::Binary(p)]),
        ),
        op is Text && utf8_valid(p) ==> feed(idle(max), fragments(op, p, t)) == (
            idle(max),
            Ok::<Seq<MessageModel>, ProtocolError>(seq![MessageModel::Text(p)]),
        ),
        op is Text && !utf8_valid(p) ==> feed(idle(max), fragments(op, p, t)).1 == Err::<
            Seq<MessageModel>,
            ProtocolError,
        >(ProtocolError::InvalidUtf8),
{
    let a = idle(max);
    if p.len() <= t {
        lemma_feed_one(a, plain_frame(true, op, p));
    } else {
        let f = plain_frame(false, op, p.take(t as int));
        let rest = fragments(Opcode::Continuation, p.skip(t as int), t);
        assert(fragments(op, p, t) == seq![f] + rest);
        let a1 = AssemblerModel {
            state: if op is Text { Partial::InText } else { Partial::InBinary },
            buffer: p.take(t as int),
            max,
        };
        assert(step(a, f) == (a1, Ok::<Option<MessageModel>, ProtocolError>(None)));
        lemma_feed_one(a, f);
        lemma_feed_append(a, seq![f], rest);
        assert(a1.buffer + p.skip(t as int) =~= p);
        lemma_feed_continuations(a1, rest, p.skip(t as int), t);
        assert(opt_seq(None) =~= Seq::<MessageModel>::empty());
        assert(Seq::<MessageModel>::empty() + seq![MessageModel::Binary(p)] =~= seq![
            MessageModel::Binary(p),
        ]);
        assert(Seq::<MessageModel>::empty() + seq![MessageModel::Text(p)] =~= seq![
            MessageModel::Text(p),
        ]);
    }
}

proof fn lemma_one_message(m: MessageModel, t: nat, max: nat)
    requires
        t >= 1,
        sendable(m, max),
    ensures
        frames_of(m, t) is Ok,
        feed(idle(max), frames_of(m, t)->Ok_0) == (
            idle(max),
            Ok::<Seq<MessageModel>, ProtocolError>(seq![m]),
        ),
{
    match m {
        MessageModel::Text(p) => {
            lemma_data_message(Opcode::Text, p, t, max);
        },
        MessageModel::Binary(p) => {
            lemma_data_message(Opcode::Binary, p, t, max);
        },
        MessageModel::Ping(p) => {
            lemma_feed_one(idle(max), plain_frame(true, Opcode::Ping, p));
        },
        MessageModel::Pong(p) => {
            lemma_feed_one(idle(max), plain_frame(true, Opcode::Pong, p));
        },
        MessageModel::Close(c) => {
            let p = close_payload(c);
            match c {
                None => {},
                Some((code, reason)) => {
                    assert(p.skip(2) =~= reason);
                    assert(p[0] * 256 + p[1] == code);
                },
            }
            assert(close_of(p) == Ok::<MessageModel, ProtocolError>(m));
            lemma_feed_one(idle(max), plain_frame(true, Opcode::Close, p));
        },
    }
}

/// Assembling the frames that `serialize` gives for a run of messages, with
/// any threshold of one byte or more, gives back exactly those messages and
/// leaves the assembler idle.
pub proof fn lemma_assemble_serialize(ms: Seq<MessageModel>, t: nat, max: nat)
    requires
        t >= 1,
        forall|i: int| 0 <= i < ms.len() ==> sendable(#[trigger] ms[i], max),
    ensures
        feed(idle(max), frames_of_all(ms, t)) == (
            idle(max),
            Ok::<Seq<MessageModel>, ProtocolError>(ms),
        ),
    decreases ms.len(),
{
    if ms.len() == 0 {
        assert(ms =~= Seq::<MessageModel>::empty());
    } else {
        let m = ms[0];
        lemma_one_message(m, t, max);
        let fs = frames_of(m, t)->Ok_0;
        let tail = ms.skip(1);
        assert forall|i: int| 0 <= i < tail.len() implies sendable(#[trigger] tail[i], max) by {
            assert(tail[i] == ms[i + 1]);
        }
        lemma_assemble_serialize(tail, t, max);
        lemma_feed_append(idle(max), fs, frames_of_all(tail, t));
        assert(seq![m] + tail =~= ms);
    }
}


/// The pieces `ps` one after another.
pub open spec fn joined(ps: Seq<Seq<u8>>) -> Seq<u8>
    decreases ps.len(),
{
    if ps.len() == 0 {
        Seq::empty()
    } else {
        ps[0] + joined(ps.skip(1))
    }
}

/// The frames that carry one message in the pieces `ps`, cut wherever the
/// sender likes: the first with opcode `op`, the rest as continuations, FIN on
/// the last only.
pub open spec fn frames_of_pieces(op: Opcode, ps: Seq<Seq<u8>>) -> Seq<FrameModel>
    decreases ps.len(),
{
    if ps.len() <= 1 {
        seq![plain_frame(true, op, joined(ps))]
    } else {
        seq![plain_frame(false, op, ps[0])] + frames_of_pieces(Opcode::Continuation, ps.skip(1))
    }
}

proof fn lemma_pieces_continue(a: AssemblerModel, ps: Seq<Seq<u8>>)
    requires
        !(a.state is Idle),
        a.buffer.len() + joined(ps).len() <= a.max,
    ensures
        a.state is InBinary ==> feed(a, frames_of_pieces(Opcode::Continuation, ps)) == (
            idle(a.max),
            Ok::<Seq<MessageModel>, ProtocolError>(seq![MessageModel::Binary(a.buffer + joined(ps))]),
        ),
        a.state is InText && utf8_valid(a.buffer + joined(ps)) ==> feed(
            a,
            frames_of_pieces(Opcode::Continuation, ps),
        ) == (
            idle(a.max),
            Ok::<Seq<MessageModel>, ProtocolError>(seq![MessageModel::Text(a.buffer + joined(ps))]),
        ),
        a.state is InText && !utf8_valid(a.buffer + joined(ps)) ==> feed(
            a,
            frames_of_pieces(Opcode::Continuation, ps),
        ).1 == Err::<Seq<MessageModel>, ProtocolError>(ProtocolError::InvalidUtf8),
    decreases ps.len(),
{
    if ps.len() <= 1 {
        lemma_feed_one(a, plain_frame(true, Opcode::Continuation, joined(ps)));
    } else {
        let f = plain_frame(false, Opcode::Continuation, ps[0]);
        let rest = frames_of_pieces(Opcode::Continuation, ps.skip(1));
        let a1 = AssemblerModel { buffer: a.buffer + ps[0], ..a };
        assert(step(a, f) == (a1, Ok::<Option<MessageModel>, ProtocolError>(None)));
        lemma_feed_one(a, f);
        lemma_feed_append(a, seq![f], rest);
        assert(a1.buffer + joined(ps.skip(1)) =~= a.buffer + joined(ps));
        lemma_pieces_continue(a1, ps.skip(1));
        assert(opt_seq(None) =~= Seq::<MessageModel>::empty());
        assert(Seq::<MessageModel>::empty() + seq![MessageModel::Binary(a.buffer + joined(ps))]
            =~= seq![MessageModel::Binary(a.buffer + joined(ps))]);
        assert(Seq::<MessageModel>::empty() + seq![MessageModel::Text(a.buffer + joined(ps))]
            =~= seq![MessageModel::Text(a.buffer + joined(ps))]);
    }
}

/// A text message cut into pieces at any points, even inside a multi-byte
/// character, is accepted by the assembler exactly when the whole text is
/// UTF-8, and refused as invalid UTF-8 otherwise: the verdict is that of the
/// whole buffer, whatever the cuts.
pub proof fn lemma_text_verdict(ps: Seq<Seq<u8>>, max: nat)
    requires
        joined(ps).len() <= max,
    ensures
        utf8_valid(joined(ps)) ==> feed(idle(max), frames_of_pieces(Opcode::Text, ps)) == (
            idle(max),
            Ok::<Seq<MessageModel>, ProtocolError>(seq![MessageModel::Text(joined(ps))]),
        ),
        !utf8_valid(joined(ps)) ==> feed(idle(max), frames_of_pieces(Opcode::Text, ps)).1
            == Err::<Seq<MessageModel>, ProtocolError>(ProtocolError::InvalidUtf8),
{
    let a = idle(max);
    if ps.len() <= 1 {
        lemma_feed_one(a, plain_frame(true, Opcode::Text, joined(ps)));
    } else {
        let f = plain_frame(false, Opcode::Text, ps[0]);
        let rest = frames_of_pieces(Opcode::Continuation, ps.skip(1));
        let a1 = AssemblerModel { state: Partial::InText, buffer: ps[0], max };
        assert(step(a, f) == (a1, Ok::<Option<MessageModel>, ProtocolError>(None)));
        lemma_feed_one(a, f);
        lemma_feed_append(a, seq![f], rest);
        assert(a1.buffer + joined(ps.skip(1)) =~= joined(ps));
        lemma_pieces_continue(a1, ps.skip(1));
        assert(opt_seq(None) =~= Seq::<MessageModel>::empty());
        assert(Seq::<MessageModel>::empty() + seq![MessageModel::Text(joined(ps))] =~= seq![
            MessageModel::Text(joined(ps)),
        ]);
    }
}

/// The Close message to send before closing the connection on error `e`:
/// 1002 for framing errors, 1007 for bad UTF-8, 1009 for oversize data.
pub fn close_for(e: ProtocolError) -> (r: Message)
    ensures
        r@ == MessageModel::Close(Some((close_code_of(e), Seq::empty()))),
{
    let r = Message::Close(Some((e.close_code(), Vec::new())));
    assert(r@ == MessageModel::Close(Some((close_code_of(e), Seq::<u8>::empty()))));
    r
}

} // verus!
