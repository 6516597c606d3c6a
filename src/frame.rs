//! Encoding and decoding of single frames.

use vstd::prelude::*;
use vstd::slice::{slice_subrange, slice_to_vec};
use crate::error::ProtocolError;
use crate::mask::{apply_mask, masked, lemma_mask_involutive};

verus! {

/// The frame opcodes that the protocol defines.
#[derive(Clone, Copy, Debug, PartialEq, Eq, Structural)]
pub enum Opcode {
    Continuation,
    Text,
    Binary,
    Close,
    Ping,
    Pong,
}

/// The default ceiling on one frame's payload: 64 MiB.
pub const DEFAULT_MAX_PAYLOAD: u64 = 64 * 1024 * 1024;

/// Which end of the connection is reading or writing.
#[derive(Clone, Copy, Debug, PartialEq, Eq, Structural)]
pub enum Role {
    Client,
    Server,
}

pub open spec fn opcode_value(o: Opcode) -> u8 {
    match o {
        Opcode::Continuation => 0,
        Opcode::Text => 1,
        Opcode::Binary => 2,
        Opcode::Close => 8,
        Opcode::Ping => 9,
        Opcode::Pong => 10,
    }
}

pub open spec fn opcode_of(v: u8) -> Option<Opcode> {
    if v == 0 {
        Some(Opcode::Continuation)
    } else if v == 1 {
        Some(Opcode::Text)
    } else if v == 2 {
        Some(Opcode::Binary)
    } else if v == 8 {
        Some(Opcode::Close)
    } else if v == 9 {
        Some(Opcode::Ping)
    } else if v == 10 {
        Some(Opcode::Pong)
    } else {
        None
    }
}

impl Opcode {
    pub open spec fn is_control(self) -> bool {
        self is Close || self is Ping || self is Pong
    }

    /// The four-bit wire value of the opcode.
    pub fn value(&self) -> (r: u8)
        ensures
            r == opcode_value(*self),
    {
        match self {
            Opcode::Continuation => 0,
            Opcode::Text => 1,
            Opcode::Binary => 2,
            Opcode::Close => 8,
            Opcode::Ping => 9,
            Opcode::Pong => 10,
        }
    }

    /// The opcode with wire value `v`, if `v` is not reserved.
    pub fn from_value(v: u8) -> (r: Option<Opcode>)
        ensures
            r == opcode_of(v),
    {
        if v == 0 {
            Some(Opcode::Continuation)
        } else if v == 1 {
            Some(Opcode::Text)
        } else if v == 2 {
            Some(Opcode::Binary)
        } else if v == 8 {
            Some(Opcode::Close)
        } else if v == 9 {
            Some(Opcode::Ping)
        } else if v == 10 {
            Some(Opcode::Pong)
        } else {
            None
        }
    }

    pub fn is_control_op(&self) -> (r: bool)
        ensures
            r == self.is_control(),
    {
        match self {
            Opcode::Close | Opcode::Ping | Opcode::Pong => true,
            _ => false,
        }
    }
}

/// One frame; `payload` is the unmasked application data.
#[derive(Clone, Debug, PartialEq, Eq)]
pub struct Frame {
    pub fin: bool,
    pub rsv1: bool,
    pub rsv2: bool,
    pub rsv3: bool,
    pub opcode: Opcode,
    pub mask: Option<[u8; 4]>,
    pub payload: Vec<u8>,
}

/// The mathematical content of a frame.
pub struct FrameModel {
    pub fin: bool,
    pub rsv1: bool,
    pub rsv2: bool,
    pub rsv3: bool,
    pub opcode: Opcode,
    pub mask: Option<Seq<u8>>,
    pub payload: Seq<u8>,
}

impl View for Frame {
    type V = FrameModel;

    open spec fn view(&self) -> FrameModel {
        FrameModel {
            fin: self.fin,
            rsv1: self.rsv1,
            rsv2: self.rsv2,
            rsv3: self.rsv3,
            opcode: self.opcode,
            mask: match self.mask {
                Some(k) => Some(k@),
                None => None,
            },
            payload: self.payload@,
        }
    }
}

pub open spec fn pow256(k: nat) -> nat
    decreases k,
{
    if k == 0 {
        1
    } else {
        256 * pow256((k - 1) as nat)
    }
}

/// `n` written big-endian in `k` bytes (the high part is cut off if it does not fit).
pub open spec fn be_bytes(n: nat, k: nat) -> Seq<u8>
    decreases k,
{
    if k == 0 {
        Seq::empty()
    } else {
        be_bytes(n / 256, (k - 1) as nat).push((n % 256) as u8)
    }
}

/// The number that the bytes `s` denote, big-endian.
pub open spec fn be_value(s: Seq<u8>) -> nat
    decreases s.len(),
{
    if s.len() == 0 {
        0
    } else {
        be_value(s.drop_last()) * 256 + s.last() as nat
    }
}

/// The seven-bit length field for a payload of `n` bytes (minimal encoding).
pub open spec fn len_field(n: nat) -> nat {
    if n < 126 {
        n
    } else if n < 65536 {
        126
    } else {
        127
    }
}

/// How many bytes of extended length follow the seven-bit length field `l7`.
pub open spec fn ext_size(l7: nat) -> nat {
    if l7 == 126 {
        2
    } else if l7 == 127 {
        8
    } else {
        0
    }
}

pub open spec fn first_byte(f: FrameModel) -> nat {
    (if f.fin { 128nat } else { 0nat }) + (if f.rsv1 { 64nat } else { 0nat }) + (if f.rsv2 {
        32nat
    } else {
        0nat
    }) + (if f.rsv3 { 16nat } else { 0nat }) + opcode_value(f.opcode) as nat
}

pub open spec fn key_bytes(f: FrameModel) -> Seq<u8> {
    match f.mask {
        Some(k) => k,
        None => Seq::empty(),
    }
}

pub open spec fn wire_payload(f: FrameModel) -> Seq<u8> {
    match f.mask {
        Some(k) => masked(f.payload, k),
        None => f.payload,
    }
}

/// The wire bytes of frame `f`.
pub open spec fn encoding(f: FrameModel) -> Seq<u8> {
    let n = f.payload.len();
    let l7 = len_field(n);
    seq![first_byte(f) as u8, ((if f.mask is Some { 128nat } else { 0nat }) + l7) as u8]
        + be_bytes(n, ext_size(l7)) + key_bytes(f) + wire_payload(f)
}

/// A frame that the encoder can write: a four-byte key if any, a length under 2^63.
pub open spec fn encodable(f: FrameModel) -> bool {
    &&& f.payload.len() < 0x8000_0000_0000_0000
    &&& (f.mask matches Some(k) ==> k.len() == 4)
}

/// What decoding a buffer gives.
pub enum Decoding {
    NeedMore,
    Failed(ProtocolError),
    Decoded(FrameModel, nat),
}

/// The frame at the start of `b`, as read by `role` with a payload ceiling of `max`.
pub open spec fn decoding(b: Seq<u8>, role: Role, max: nat) -> Decoding {
    if b.len() < 2 {
        Decoding::NeedMore
    } else {
        let b0 = b[0];
        let b1 = b[1];
        let fin = b0 >= 128;
        let rsv = b0 % 128 >= 16;
        let op = opcode_of(b0 % 16);
        let has_mask = b1 >= 128;
        let l7 = (b1 % 128) as nat;
        let e = ext_size(l7) as int;
        let ext = ext_size(l7);
        if rsv {
            Decoding::Failed(ProtocolError::BadRsv)
        } else if op is None {
            Decoding::Failed(ProtocolError::BadOpcode)
        } else if op->0.is_control() && !fin {
            Decoding::Failed(ProtocolError::BadFragmentation)
        } else if op->0.is_control() && l7 > 125 {
            Decoding::Failed(ProtocolError::BadControlSize)
        } else if has_mask != (role is Server) {
            Decoding::Failed(ProtocolError::MaskPolicyViolation)
        } else if b.len() < 2 + ext {
            Decoding::NeedMore
        } else if l7 == 127 && b[2] >= 128 {
            Decoding::Failed(ProtocolError::LengthOverflow)
        } else {
            let n = if l7 < 126 { l7 } else { be_value(b.subrange(2, 2 + e)) };
            let h: int = 2 + e + if has_mask { 4int } else { 0int };
            if n > max {
                Decoding::Failed(ProtocolError::TooBig)
            } else if b.len() < h + n {
                Decoding::NeedMore
            } else {
                let key = b.subrange(2 + e, h);
                let data = b.subrange(h, h + n);
                Decoding::Decoded(
                    FrameModel {
                        fin,
                        rsv1: false,
                        rsv2: false,
                        rsv3: false,
                        opcode: op->0,
                        mask: if has_mask { Some(key) } else { None },
                        payload: if has_mask { masked(data, key) } else { data },
                    },
                    (h + n) as nat,
                )
            }
        }
    }
}


/// Appends `n` written big-endian in `k` bytes.
fn push_be(dst: &mut Vec<u8>, n: u64, k: usize)
    requires
        k <= 8,
    ensures
        final(dst)@ == old(dst)@ + be_bytes(n as nat, k as nat),
    decreases k,
{
    if k > 0 {
        push_be(dst, n / 256, k - 1);
        dst.push((n % 256) as u8);
        proof {
            let a = old(dst)@;
            let t = be_bytes((n / 256) as nat, (k - 1) as nat);
            assert((a + t).push((n % 256) as u8) =~= a + t.push((n % 256) as u8));
        }
    }
}

/// The first two bytes of the wire form of `frame`.
fn header_bytes(frame: &Frame) -> (r: (u8, u8))
    ensures
        r.0 as nat == first_byte(frame@),
        r.1 as nat == (if frame.mask is Some { 128nat } else { 0nat }) + len_field(
            frame.payload@.len(),
        ),
{
    let n = frame.payload.len();
    let mut b0: u8 = frame.opcode.value();
    if frame.fin {
        b0 = b0 + 128;
    }
    if frame.rsv1 {
        b0 = b0 + 64;
    }
    if frame.rsv2 {
        b0 = b0 + 32;
    }
    if frame.rsv3 {
        b0 = b0 + 16;
    }
    let l7: u8 = if n < 126 {
        n as u8
    } else if n < 65536 {
        126
    } else {
        127
    };
    let b1: u8 = if frame.mask.is_some() {
        128 + l7
    } else {
        l7
    };
    (b0, b1)
}

/// Appends the wire form of `frame` to `dst`, masking the payload with the
/// frame's key if it has one.
#[verifier::rlimit(50)]
pub fn encode(frame: &Frame, dst: &mut Vec<u8>)
    requires
        frame.payload@.len() < 0x8000_0000_0000_0000,
    ensures
        final(dst)@ == old(dst)@ + encoding(frame@),
{
    let n = frame.payload.len();
    let (b0, b1) = header_bytes(frame);
    let ghost start = dst@;
    dst.push(b0);
    dst.push(b1);
    let ghost l7 = len_field(n as nat);
    if n >= 126 && n < 65536 {
        push_be(dst, n as u64, 2);
    } else if n >= 65536 {
        push_be(dst, n as u64, 8);
    }
    let ghost with_len = dst@;
    assert(with_len =~= start + seq![b0, b1] + be_bytes(n as nat, ext_size(l7)));
    let mut data = slice_to_vec(frame.payload.as_slice());
    match frame.mask {
        Some(key) => {
            dst.push(key[0]);
            dst.push(key[1]);
            dst.push(key[2]);
            dst.push(key[3]);
            assert(dst@ =~= with_len + key@);
            apply_mask(key, &mut data);
        },
        None => {},
    }
    let ghost with_key = dst@;
    assert(with_key =~= start + seq![b0, b1] + be_bytes(n as nat, ext_size(l7)) + key_bytes(frame@));
    dst.append(&mut data);
    assert(dst@ =~= old(dst)@ + encoding(frame@));
}

/// The bytes `src[lo..hi]` as a vector.
fn copy_range(src: &[u8], lo: usize, hi: usize) -> (r: Vec<u8>)
    requires
        lo <= hi <= src@.len(),
    ensures
        r@ == src@.subrange(lo as int, hi as int),
{
    slice_to_vec(slice_subrange(src, lo, hi))
}

proof fn lemma_be_value_bound(s: Seq<u8>)
    ensures
        be_value(s) < pow256(s.len()),
    decreases s.len(),
{
    if s.len() > 0 {
        lemma_be_value_bound(s.drop_last());
        let v = be_value(s.drop_last());
        let p = pow256((s.len() - 1) as nat);
        assert(v * 256 + s.last() < p * 256) by (nonlinear_arith)
            requires
                v < p,
                s.last() < 256,
        ;
    }
}

/// Reads `k` bytes of `src` from `at` as a big-endian number.
fn read_be(src: &[u8], at: usize, k: usize) -> (r: u64)
    requires
        k <= 8,
        at + k <= src@.len(),
    ensures
        r as nat == be_value(src@.subrange(at as int, at + k)),
{
    let len = src.len();
    let mut v: u64 = 0;
    let mut i: usize = 0;
    while i < k
        invariant
            i <= k <= 8,
            at + k <= src@.len(),
            len == src@.len(),
            v as nat == be_value(src@.subrange(at as int, at + i)),
        decreases k - i,
    {
        proof {
            lemma_be_value_bound(src@.subrange(at as int, at + i));
            lemma_pow256_mono(i as nat, 7);
            reveal_with_fuel(pow256, 8);
            assert(pow256(7) == 0x100_0000_0000_0000nat);
            let w = v as nat;
            let c = src@[at + i] as nat;
            assert(w * 256 + c < 0x1_0000_0000_0000_0000nat) by (nonlinear_arith)
                requires
                    w < 0x100_0000_0000_0000nat,
                    c < 256,
            ;
            assert(src@.subrange(at as int, at + i + 1).drop_last() =~= src@.subrange(
                at as int,
                at + i,
            ));
        }
        let byte = src[at + i];
        v = v * 256 + byte as u64;
        i = i + 1;
    }
    v
}

proof fn lemma_pow256_mono(a: nat, b: nat)
    requires
        a <= b,
    ensures
        pow256(a) <= pow256(b),
    decreases b,
{
    if a < b {
        lemma_pow256_mono(a, (b - 1) as nat);
    }
}

/// Reads the frame at the start of `src`.
///
/// `Ok(None)` means that `src` does not yet hold the whole frame; on
/// `Ok(Some((f, used)))` the frame took the first `used` bytes.
pub fn decode(src: &[u8], role: Role, max_payload: u64) -> (r: Result<
    Option<(Frame, usize)>,
    ProtocolError,
>)
    ensures
        match decoding(src@, role, max_payload as nat) {
            Decoding::NeedMore => r == Ok::<Option<(Frame, usize)>, ProtocolError>(None),
            Decoding::Failed(e) => r == Err::<Option<(Frame, usize)>, ProtocolError>(e),
            Decoding::Decoded(f, used) => r matches Ok(Some((g, u))) && g@ == f && u == used,
        },
{
    if src.len() < 2 {
        return Ok(None);
    }
    let b0 = src[0];
    let b1 = src[1];
    let fin = b0 >= 128;
    let op = Opcode::from_value(b0 % 16);
    let has_mask = b1 >= 128;
    let l7 = b1 % 128;
    let ext: usize = if l7 == 126 {
        2
    } else if l7 == 127 {
        8
    } else {
        0
    };
    if b0 % 128 >= 16 {
        return Err(ProtocolError::BadRsv);
    }
    let opcode = match op {
        Some(o) => o,
        None => {
            return Err(ProtocolError::BadOpcode);
        },
    };
    if opcode.is_control_op() && !fin {
        return Err(ProtocolError::BadFragmentation);
    }
    if opcode.is_control_op() && l7 > 125 {
        return Err(ProtocolError::BadControlSize);
    }
    let server = match role {
        Role::Server => true,
        Role::Client => false,
    };
    if has_mask != server {
        return Err(ProtocolError::MaskPolicyViolation);
    }
    if src.len() < 2 + ext {
        return Ok(None);
    }
    if l7 == 127 && src[2] >= 128 {
        return Err(ProtocolError::LengthOverflow);
    }
    let n: u64 = if l7 < 126 {
        l7 as u64
    } else {
        read_be(src, 2, ext)
    };
    let h: usize = if has_mask {
        2 + ext + 4
    } else {
        2 + ext
    };
    if n > max_payload {
        return Err(ProtocolError::TooBig);
    }
    if src.len() < h || ((src.len() - h) as u64) < n {
        return Ok(None);
    }
    let end = h + n as usize;
    let mut payload = copy_range(src, h, end);
    let mask = if has_mask {
        let key: [u8; 4] = [src[2 + ext], src[3 + ext], src[4 + ext], src[5 + ext]];
        assert(key@ =~= src@.subrange(2 + ext, h as int));
        apply_mask(key, &mut payload);
        Some(key)
    } else {
        None
    };
    let frame = Frame { fin, rsv1: false, rsv2: false, rsv3: false, opcode, mask, payload };
    Ok(Some((frame, end)))
}


proof fn lemma_be_bytes_len(n: nat, k: nat)
    ensures
        be_bytes(n, k).len() == k,
    decreases k,
{
    if k > 0 {
        lemma_be_bytes_len(n / 256, (k - 1) as nat);
    }
}

proof fn lemma_be_round_trip(n: nat, k: nat)
    requires
        n < pow256(k),
    ensures
        be_value(be_bytes(n, k)) == n,
    decreases k,
{
    if k > 0 {
        let s = be_bytes(n, k);
        assert(n / 256 < pow256((k - 1) as nat));
        lemma_be_round_trip(n / 256, (k - 1) as nat);
        assert(s.drop_last() =~= be_bytes(n / 256, (k - 1) as nat));
    }
}

proof fn lemma_be_value_lead(s: Seq<u8>)
    requires
        s.len() >= 1,
    ensures
        be_value(s) >= s[0] * pow256((s.len() - 1) as nat),
    decreases s.len(),
{
    let t = s.drop_last();
    assert(be_value(s) == be_value(t) * 256 + s.last());
    if s.len() > 1 {
        lemma_be_value_lead(t);
        assert(t[0] == s[0]);
        let a = be_value(t);
        let p = pow256((t.len() - 1) as nat);
        let c = s[0] as nat;
        assert(a * 256 >= c * p * 256) by (nonlinear_arith)
            requires
                a >= c * p,
        ;
        assert(pow256((s.len() - 1) as nat) == 256 * p);
        assert(c * pow256((s.len() - 1) as nat) == c * p * 256) by (nonlinear_arith)
            requires
                pow256((s.len() - 1) as nat) == 256 * p,
        ;
        assert(be_value(s) >= c * pow256((s.len() - 1) as nat));
        assert(be_value(s) >= s[0] * pow256((s.len() - 1) as nat));
    } else {
        assert(t.len() == 0);
        assert(pow256((s.len() - 1) as nat) == 1);
        assert(be_value(t) == 0);
        assert(s.last() == s[0]);
        assert(be_value(s) >= s[0] * pow256((s.len() - 1) as nat));
    }
}

/// A frame that obeys the framing rules for the receiving `role` and the
/// payload ceiling `max`.
pub open spec fn well_formed(f: FrameModel, role: Role, max: nat) -> bool {
    &&& encodable(f)
    &&& !f.rsv1 && !f.rsv2 && !f.rsv3
    &&& f.opcode.is_control() ==> f.fin && f.payload.len() <= 125
    &&& (f.mask is Some <==> role is Server)
    &&& f.payload.len() <= max
}

proof fn lemma_header_bytes(f: FrameModel)
    requires
        !f.rsv1 && !f.rsv2 && !f.rsv3,
        f.payload.len() < 0x8000_0000_0000_0000,
    ensures
        ({
            let b0 = first_byte(f) as u8;
            let b1 = ((if f.mask is Some { 128nat } else { 0nat }) + len_field(
                f.payload.len(),
            )) as u8;
            &&& (b0 >= 128) == f.fin
            &&& b0 % 128 < 16
            &&& opcode_of(b0 % 16) == Some(f.opcode)
            &&& (b1 >= 128) == (f.mask is Some)
            &&& (b1 % 128) as nat == len_field(f.payload.len())
        }),
{
}

/// The length fields of the wire form of `f` give its payload length back.
proof fn lemma_length_fields(n: nat, b: Seq<u8>)
    requires
        n < 0x8000_0000_0000_0000,
        b.subrange(2, 2 + ext_size(len_field(n)) as int) == be_bytes(n, ext_size(len_field(n))),
        b.len() >= 2 + ext_size(len_field(n)),
    ensures
        len_field(n) == 127 ==> b[2] < 128,
        len_field(n) >= 126 ==> be_value(b.subrange(2, 2 + ext_size(len_field(n)) as int)) == n,
{
    let l7 = len_field(n);
    let en = ext_size(l7);
    let ext = be_bytes(n, en);
    lemma_be_bytes_len(n, en);
    reveal_with_fuel(pow256, 9);
    assert(pow256(2) == 65536);
    assert(pow256(7) == 0x100_0000_0000_0000nat);
    assert(pow256(8) == 0x1_0000_0000_0000_0000nat);
    if en > 0 {
        lemma_be_round_trip(n, en);
    }
    if l7 == 127 {
        lemma_be_value_lead(ext);
        assert(ext[0] == b.subrange(2, 10)[0]);
        if ext[0] >= 128 {
            assert(ext[0] * pow256(7) >= 128 * pow256(7)) by (nonlinear_arith)
                requires
                    ext[0] >= 128,
            ;
        }
    }
}

/// Decoding the wire form of a well-formed frame, with any bytes after it,
/// gives the same frame back and consumes exactly its wire form.
pub proof fn lemma_decode_encode(f: FrameModel, rest: Seq<u8>, role: Role, max: nat)
    requires
        well_formed(f, role, max),
    ensures
        decoding(encoding(f) + rest, role, max) == Decoding::Decoded(f, encoding(f).len()),
{
    let n = f.payload.len();
    let l7 = len_field(n);
    let en = ext_size(l7);
    let e = en as int;
    let ext = be_bytes(n, en);
    let key = key_bytes(f);
    let b = encoding(f) + rest;
    lemma_be_bytes_len(n, en);
    lemma_header_bytes(f);
    assert(b.subrange(2, 2 + e) =~= ext);
    lemma_length_fields(n, b);
    let h: int = 2 + e + key.len();
    assert(b.subrange(2 + e, h) =~= key);
    let data = wire_payload(f);
    assert(b.subrange(h, h + n) =~= data);
    match f.mask {
        Some(k) => {
            lemma_mask_involutive(f.payload, k);
        },
        None => {},
    }
    assert(encoding(f).len() == h + n);
    let d = decoding(b, role, max);
    assert(d matches Decoding::Decoded(g, u) && u == h + n && g.payload == f.payload);
}

/// A frame with reserved bits set, a reserved opcode, a control opcode
/// without FIN, or a control payload over 125 bytes is refused.
pub proof fn lemma_decode_refuses(b: Seq<u8>, role: Role, max: nat)
    requires
        b.len() >= 2,
        b[0] % 128 >= 16 || opcode_of(b[0] % 16) is None || (opcode_of(b[0] % 16) matches Some(
            o,
        ) && o.is_control() && (b[0] < 128 || b[1] % 128 > 125)),
    ensures
        decoding(b, role, max) is Failed,
{
}


/// `f` with the mask that `role` must send: the key `key` for a client,
/// none for a server.
pub open spec fn masked_for(f: FrameModel, role: Role, key: Seq<u8>) -> FrameModel {
    FrameModel {
        mask: if role is Client { Some(key) } else { None },
        ..f
    }
}

/// Relies on rand::random: a value drawn from the thread-local generator,
/// which is seeded from the operating system; nothing is known of the value.
pub assume_specification<T>[ rand::random::<T> ]() -> (r: T)
    where
        rand::distributions::Standard: rand::distributions::Distribution<T>,
;

/// Appends the wire form of `frame` as `role` sends it: masked with `key`
/// by a client, unmasked by a server. The frame's own mask is ignored.
pub fn encode_as(role: Role, frame: &Frame, key: [u8; 4], dst: &mut Vec<u8>)
    requires
        frame.payload@.len() < 0x8000_0000_0000_0000,
    ensures
        final(dst)@ == old(dst)@ + encoding(masked_for(frame@, role, key@)),
        final(dst)@[old(dst)@.len() as int + 1] >= 128 <==> role is Client,
{
    let mask = match role {
        Role::Client => Some(key),
        Role::Server => None,
    };
    let f = Frame {
        fin: frame.fin,
        rsv1: frame.rsv1,
        rsv2: frame.rsv2,
        rsv3: frame.rsv3,
        opcode: frame.opcode,
        mask,
        payload: slice_to_vec(frame.payload.as_slice()),
    };
    assert(f@ == masked_for(frame@, role, key@));
    encode(&f, dst);
    assert(dst@[old(dst)@.len() as int + 1] == encoding(f@)[1]);
}

/// Appends the wire form of `frame` as `role` sends it, a client drawing a
/// fresh mask key from the random generator.
pub fn encode_for(role: Role, frame: &Frame, dst: &mut Vec<u8>)
    requires
        frame.payload@.len() < 0x8000_0000_0000_0000,
    ensures
        exists|key: Seq<u8>|
            key.len() == 4 && final(dst)@ == old(dst)@ + encoding(
                #[trigger] masked_for(frame@, role, key),
            ),
        final(dst)@[old(dst)@.len() as int + 1] >= 128 <==> role is Client,
{
    let key: [u8; 4] = rand::random();
    encode_as(role, frame, key, dst);
}

} // verus!
