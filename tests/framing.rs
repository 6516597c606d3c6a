use websocket::error::ProtocolError;
use websocket::frame::{decode, encode, encode_as, encode_for, Frame, Opcode, Role};
use websocket::mask::apply_mask;
use websocket::message::{close_for, parse_close, serialize, Assembler, Message, Partial};

const MAX: u64 = 64 * 1024 * 1024;

fn frame(fin: bool, opcode: Opcode, payload: &[u8]) -> Frame {
    Frame { fin, rsv1: false, rsv2: false, rsv3: false, opcode, mask: None, payload: payload.to_vec() }
}

fn read_all(wire: &[u8], role: Role) -> Result<Vec<Frame>, ProtocolError> {
    let mut out = Vec::new();
    let mut rest = wire;
    while !rest.is_empty() {
        let (f, used) = decode(rest, role, MAX)?.expect("whole frame");
        out.push(f);
        rest = &rest[used..];
    }
    Ok(out)
}

fn assemble(frames: Vec<Frame>) -> Result<Vec<Message>, ProtocolError> {
    let mut a = Assembler::new(MAX as usize);
    let mut out = Vec::new();
    for f in frames {
        if let Some(m) = a.push(f)? {
            out.push(m);
        }
    }
    Ok(out)
}

#[test]
fn single_frame_text() {
    let unmasked = [0x81, 0x05, 0x48, 0x65, 0x6c, 0x6c, 0x6f];
    let frames = read_all(&unmasked, Role::Client).unwrap();
    assert_eq!(assemble(frames).unwrap(), vec![Message::Text(b"Hello".to_vec())]);
    let masked = [0x81, 0x85, 0x37, 0xfa, 0x21, 0x3d, 0x7f, 0x9f, 0x4d, 0x51, 0x58];
    let frames = read_all(&masked, Role::Server).unwrap();
    assert_eq!(frames[0].mask, Some([0x37, 0xfa, 0x21, 0x3d]));
    assert_eq!(frames[0].payload, b"Hello".to_vec());
    assert_eq!(assemble(frames).unwrap(), vec![Message::Text(b"Hello".to_vec())]);
}

#[test]
fn fragmented_text() {
    let wire = [0x01, 0x03, 0x48, 0x65, 0x6c, 0x80, 0x02, 0x6c, 0x6f];
    let frames = read_all(&wire, Role::Client).unwrap();
    assert_eq!(assemble(frames).unwrap(), vec![Message::Text(b"Hello".to_vec())]);

    let injected = [0x01, 0x03, 0x48, 0x65, 0x6c, 0x01, 0x01, 0x58, 0x80, 0x02, 0x6c, 0x6f];
    let frames = read_all(&injected, Role::Client).unwrap();
    assert_eq!(assemble(frames).unwrap_err(), ProtocolError::UnexpectedNewData);
}

#[test]
fn ping_during_fragmented_binary() {
    let wire = [0x02, 0x02, 0xAA, 0xBB, 0x89, 0x00, 0x80, 0x02, 0xCC, 0xDD];
    let frames = read_all(&wire, Role::Client).unwrap();
    assert_eq!(
        assemble(frames).unwrap(),
        vec![Message::Ping(vec![]), Message::Binary(vec![0xAA, 0xBB, 0xCC, 0xDD])]
    );
}

#[test]
fn oversized_control() {
    let mut wire = vec![0x89, 0x7e, 0x00, 0x7e];
    wire.extend(std::iter::repeat(0u8).take(126));
    let err = decode(&wire, Role::Client, MAX).unwrap_err();
    assert_eq!(err, ProtocolError::BadControlSize);
    assert_eq!(err.close_code(), 1002);
    assert_eq!(close_for(err), Message::Close(Some((1002, vec![]))));
}

#[test]
fn bad_utf8_text() {
    let wire = [0x81, 0x02, 0xc3, 0x28];
    let frames = read_all(&wire, Role::Client).unwrap();
    let err = assemble(frames).unwrap_err();
    assert_eq!(err, ProtocolError::InvalidUtf8);
    assert_eq!(err.close_code(), 1007);
    assert_eq!(close_for(err), Message::Close(Some((1007, vec![]))));
    assert_eq!(ProtocolError::TooBig.close_code(), 1009);
}

#[test]
fn encode_decode_round_trip() {
    for len in [0usize, 1, 125, 126, 127, 65535, 65536, 70000] {
        let payload: Vec<u8> = (0..len).map(|i| (i % 251) as u8).collect();
        for (role, mask) in [(Role::Client, None), (Role::Server, Some([1u8, 2, 3, 4]))] {
            let f = Frame {
                fin: len % 2 == 0,
                rsv1: false,
                rsv2: false,
                rsv3: false,
                opcode: Opcode::Binary,
                mask,
                payload: payload.clone(),
            };
            let mut wire = Vec::new();
            encode(&f, &mut wire);
            let header = if len < 126 { 2 } else if len < 65536 { 4 } else { 10 };
            let key = if mask.is_some() { 4 } else { 0 };
            assert_eq!(wire.len(), header + key + len);
            wire.extend_from_slice(&[0x89, 0x00]);
            let (g, used) = decode(&wire, role, MAX).unwrap().unwrap();
            assert_eq!(g, f);
            assert_eq!(used, header + key + len);
        }
    }
}

#[test]
fn encode_exact_bytes() {
    let mut wire = Vec::new();
    encode(&frame(true, Opcode::Text, b"Hello"), &mut wire);
    assert_eq!(wire, vec![0x81, 0x05, 0x48, 0x65, 0x6c, 0x6c, 0x6f]);
    let mut wire = Vec::new();
    let mut f = frame(true, Opcode::Text, b"Hello");
    f.mask = Some([0x37, 0xfa, 0x21, 0x3d]);
    encode(&f, &mut wire);
    assert_eq!(wire, vec![0x81, 0x85, 0x37, 0xfa, 0x21, 0x3d, 0x7f, 0x9f, 0x4d, 0x51, 0x58]);
    let mut wire = Vec::new();
    encode(&frame(false, Opcode::Binary, &[0u8; 300]), &mut wire);
    assert_eq!(&wire[..4], &[0x02, 0x7e, 0x01, 0x2c]);
}

#[test]
fn role_masking() {
    let f = frame(true, Opcode::Text, b"abc");
    let mut wire = Vec::new();
    encode_as(Role::Server, &f, [9, 9, 9, 9], &mut wire);
    assert_eq!(wire, vec![0x81, 0x03, b'a', b'b', b'c']);
    let mut wire = Vec::new();
    encode_as(Role::Client, &f, [1, 2, 3, 4], &mut wire);
    assert_eq!(wire, vec![0x81, 0x83, 1, 2, 3, 4, b'a' ^ 1, b'b' ^ 2, b'c' ^ 3]);
    let mut wire = Vec::new();
    encode_for(Role::Client, &f, &mut wire);
    assert!(wire[1] & 0x80 != 0);
    assert_eq!(wire.len(), 9);
    let (g, _) = decode(&wire, Role::Server, MAX).unwrap().unwrap();
    assert_eq!(g.payload, b"abc".to_vec());
    let mut wire = Vec::new();
    encode_for(Role::Server, &f, &mut wire);
    assert_eq!(wire[1] & 0x80, 0);
}

#[test]
fn mask_exact() {
    let mut data = vec![0x48, 0x65, 0x6c, 0x6c, 0x6f];
    apply_mask([0x37, 0xfa, 0x21, 0x3d], &mut data);
    assert_eq!(data, vec![0x7f, 0x9f, 0x4d, 0x51, 0x58]);
    apply_mask([0x37, 0xfa, 0x21, 0x3d], &mut data);
    assert_eq!(data, b"Hello".to_vec());
}

#[test]
fn decode_refusals() {
    assert_eq!(decode(&[0x83, 0x00], Role::Client, MAX).unwrap_err(), ProtocolError::BadOpcode);
    assert_eq!(decode(&[0xC1, 0x00], Role::Client, MAX).unwrap_err(), ProtocolError::BadRsv);
    assert_eq!(decode(&[0x09, 0x00], Role::Client, MAX).unwrap_err(), ProtocolError::BadFragmentation);
    assert_eq!(
        decode(&[0x81, 0x00], Role::Server, MAX).unwrap_err(),
        ProtocolError::MaskPolicyViolation
    );
    assert_eq!(
        decode(&[0x81, 0x80, 0, 0, 0, 0], Role::Client, MAX).unwrap_err(),
        ProtocolError::MaskPolicyViolation
    );
    assert_eq!(
        decode(&[0x82, 0x7f, 0x80, 0, 0, 0, 0, 0, 0, 0], Role::Client, MAX).unwrap_err(),
        ProtocolError::LengthOverflow
    );
    assert_eq!(decode(&[0x82, 0x7e, 0x01, 0x00], Role::Client, 255).unwrap_err(), ProtocolError::TooBig);
}

#[test]
fn decode_needs_more() {
    assert_eq!(decode(&[], Role::Client, MAX), Ok(None));
    assert_eq!(decode(&[0x81], Role::Client, MAX), Ok(None));
    assert_eq!(decode(&[0x81, 0x05, 0x48], Role::Client, MAX), Ok(None));
    assert_eq!(decode(&[0x82, 0x7e, 0x01], Role::Client, MAX), Ok(None));
}

#[test]
fn assembler_errors() {
    let mut a = Assembler::new(10);
    assert_eq!(a.push(frame(true, Opcode::Continuation, b"x")), Err(ProtocolError::UnexpectedContinuation));
    assert_eq!(a.push(frame(false, Opcode::Binary, b"123456")), Ok(None));
    assert_eq!(a.state(), Partial::InBinary);
    assert_eq!(a.push(frame(true, Opcode::Continuation, b"78901")), Err(ProtocolError::TooBig));
    assert_eq!(a.push(frame(true, Opcode::Continuation, b"7890")), Ok(Some(Message::Binary(b"1234567890".to_vec()))));
    assert_eq!(a.state(), Partial::Idle);
    assert_eq!(a.push(frame(true, Opcode::Text, b"12345678901")), Err(ProtocolError::TooBig));
    assert_eq!(a.push(frame(true, Opcode::Close, &[0x03])), Err(ProtocolError::InvalidCloseCode));
    assert_eq!(a.push(frame(true, Opcode::Close, &[0x03, 0xED])), Err(ProtocolError::InvalidCloseCode));
    assert_eq!(a.push(frame(true, Opcode::Close, &[0x03, 0xE8, 0xff])), Err(ProtocolError::InvalidUtf8));
    assert_eq!(
        a.push(frame(true, Opcode::Close, &[0x03, 0xE8, b'b', b'y', b'e'])),
        Ok(Some(Message::Close(Some((1000, b"bye".to_vec())))))
    );
    assert_eq!(a.push(frame(true, Opcode::Close, &[])), Ok(Some(Message::Close(None))));
    assert_eq!(a.push(frame(true, Opcode::Pong, b"p")), Ok(Some(Message::Pong(b"p".to_vec()))));
    assert_eq!(parse_close(&vec![0x0B, 0xB8]), Ok(Message::Close(Some((3000, vec![])))));
}

#[test]
fn serialize_then_assemble() {
    let messages = vec![
        Message::Text("héllo wörld".as_bytes().to_vec()),
        Message::Binary(vec![1, 2, 3, 4, 5]),
        Message::Ping(b"hi".to_vec()),
        Message::Text(vec![]),
        Message::Close(Some((1000, b"done".to_vec()))),
    ];
    for t in [1usize, 2, 3, 5, 100, usize::MAX] {
        let mut frames = Vec::new();
        for m in &messages {
            frames.extend(serialize(m, t).unwrap());
        }
        let mut wire = Vec::new();
        for f in &frames {
            encode(f, &mut wire);
        }
        assert_eq!(assemble(read_all(&wire, Role::Client).unwrap()).unwrap(), messages);
    }
    let frames = serialize(&Message::Binary(vec![1, 2, 3, 4, 5]), 2).unwrap();
    assert_eq!(frames.len(), 3);
    assert_eq!((frames[0].opcode, frames[0].fin), (Opcode::Binary, false));
    assert_eq!((frames[1].opcode, frames[1].fin), (Opcode::Continuation, false));
    assert_eq!((frames[2].opcode, frames[2].fin), (Opcode::Continuation, true));
    assert_eq!(frames[2].payload, vec![5]);
    assert_eq!(serialize(&Message::Ping(vec![0; 126]), 1000).unwrap_err(), ProtocolError::BadControlSize);
    assert_eq!(
        serialize(&Message::Close(Some((1000, vec![b'a'; 124]))), 1000).unwrap_err(),
        ProtocolError::BadControlSize
    );
    let close = serialize(&Message::Close(Some((1001, b"x".to_vec()))), 1).unwrap();
    assert_eq!(close[0].payload, vec![0x03, 0xE9, b'x']);
}

#[test]
fn utf8_split_inside_code_point() {
    let text = "añb€c".as_bytes().to_vec();
    for t in 1..text.len() + 1 {
        let frames = serialize(&Message::Text(text.clone()), t).unwrap();
        assert_eq!(assemble(frames).unwrap(), vec![Message::Text(text.clone())]);
    }
    let bad = vec![b'a', 0xe2, 0x82];
    let frames = serialize(&Message::Text(bad), 1).unwrap();
    assert_eq!(assemble(frames).unwrap_err(), ProtocolError::InvalidUtf8);
}

#[test]
fn opcode_values() {
    for (op, v) in [
        (Opcode::Continuation, 0u8),
        (Opcode::Text, 1),
        (Opcode::Binary, 2),
        (Opcode::Close, 8),
        (Opcode::Ping, 9),
        (Opcode::Pong, 10),
    ] {
        assert_eq!(op.value(), v);
        assert_eq!(Opcode::from_value(v), Some(op));
    }
    assert_eq!(Opcode::from_value(3), None);
    assert!(Opcode::Ping.is_control_op());
    assert!(!Opcode::Text.is_control_op());
}

#[test]
fn utf8_verdict_at_uneven_cuts() {
    let text = "añb€c".as_bytes().to_vec();
    let cuts: [&[usize]; 4] = [&[1, 3], &[2, 4, 5], &[4], &[1, 2, 3, 4, 5, 6]];
    for points in cuts {
        let mut frames = Vec::new();
        let mut start = 0;
        let mut ends: Vec<usize> = points.to_vec();
        ends.push(text.len());
        for (i, end) in ends.iter().enumerate() {
            let op = if i == 0 { Opcode::Text } else { Opcode::Continuation };
            frames.push(frame(i + 1 == ends.len(), op, &text[start..*end]));
            start = *end;
        }
        assert_eq!(assemble(frames).unwrap(), vec![Message::Text(text.clone())]);
    }
    let frames = vec![
        frame(false, Opcode::Text, &[0xc3]),
        frame(true, Opcode::Continuation, &[0x28]),
    ];
    assert_eq!(assemble(frames).unwrap_err(), ProtocolError::InvalidUtf8);
}
