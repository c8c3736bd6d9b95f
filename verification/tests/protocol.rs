use jftermd::protocol::{
    frame_data, Frame, FrameDecoder, FrameType, ProtocolError, MAX_FRAME_LEN, PROTO_VERSION,
};

const ALL: [FrameType; 11] = [
    FrameType::Hello,
    FrameType::HelloOk,
    FrameType::List,
    FrameType::Sessions,
    FrameType::AttachOrOpen,
    FrameType::Input,
    FrameType::Resize,
    FrameType::Close,
    FrameType::Data,
    FrameType::Status,
    FrameType::Exit,
];

#[test]
fn encode_data_frame_layout() {
    let f = Frame::new(FrameType::Data, b"hi".to_vec());
    // type=9, len=2 big-endian, then payload
    assert_eq!(f.encode(), vec![9, 0, 0, 0, 2, b'h', b'i']);
}

#[test]
fn encode_empty_payload() {
    let f = Frame::new(FrameType::List, Vec::new());
    assert_eq!(f.encode(), vec![3, 0, 0, 0, 0]);
}

#[test]
fn decode_round_trip() {
    let f = Frame::new(FrameType::Data, b"hello".to_vec());
    let mut d = FrameDecoder::new();
    d.push(&f.encode());
    assert_eq!(d.next_frame().unwrap(), Some(f));
    assert_eq!(d.next_frame().unwrap(), None);
}

#[test]
fn decode_partial_then_complete() {
    let wire = Frame::new(FrameType::Input, b"abc".to_vec()).encode();
    let mut d = FrameDecoder::new();
    d.push(&wire[..3]); // header not even complete
    assert_eq!(d.next_frame().unwrap(), None);
    d.push(&wire[3..]);
    assert_eq!(
        d.next_frame().unwrap(),
        Some(Frame::new(FrameType::Input, b"abc".to_vec()))
    );
}

#[test]
fn decode_two_frames_in_one_push() {
    let mut wire = Frame::new(FrameType::Status, b"x".to_vec()).encode();
    wire.extend(Frame::new(FrameType::Exit, b"y".to_vec()).encode());
    let mut d = FrameDecoder::new();
    d.push(&wire);
    assert_eq!(d.next_frame().unwrap().unwrap().ty, FrameType::Status);
    assert_eq!(d.next_frame().unwrap().unwrap().ty, FrameType::Exit);
    assert_eq!(d.next_frame().unwrap(), None);
}

#[test]
fn decode_unknown_type_errors() {
    let mut d = FrameDecoder::new();
    d.push(&[200, 0, 0, 0, 0]);
    assert_eq!(d.next_frame(), Err(ProtocolError::UnknownType(200)));
}

#[test]
fn decode_oversized_length_errors_without_alloc() {
    let mut d = FrameDecoder::new();
    d.push(&[9, 0xFF, 0xFF, 0xFF, 0xFF]); // len ~4 GiB
    assert_eq!(d.next_frame(), Err(ProtocolError::FrameTooLarge(u32::MAX)));
}

#[test]
fn frame_data_splits_oversized_payload_into_max_sized_frames() {
    let big = vec![0xABu8; MAX_FRAME_LEN as usize + 1];
    let frames = frame_data(&big);
    assert_eq!(frames.len(), 2);
    assert_eq!(frames[0].payload.len(), MAX_FRAME_LEN as usize);
    assert_eq!(frames[1].payload.len(), 1);
    assert!(frames.iter().all(|f| f.ty == FrameType::Data));
    let mut joined = Vec::new();
    for f in &frames {
        joined.extend_from_slice(&f.payload);
    }
    assert_eq!(joined, big);
}

#[test]
fn frame_data_empty_input_yields_no_frames() {
    assert!(frame_data(&[]).is_empty());
}

#[test]
fn frame_data_of_exactly_the_cap_is_one_frame() {
    let frames = frame_data(&vec![1u8; MAX_FRAME_LEN as usize]);
    assert_eq!(frames.len(), 1);
    assert_eq!(frames[0].payload.len(), MAX_FRAME_LEN as usize);
}

#[test]
fn type_bytes_are_one_to_eleven() {
    for (i, ty) in ALL.iter().enumerate() {
        assert_eq!(ty.to_u8(), i as u8 + 1);
        assert_eq!(FrameType::from_u8(i as u8 + 1), Some(*ty));
    }
    assert_eq!(FrameType::from_u8(0), None);
    assert_eq!(FrameType::from_u8(12), None);
    assert_eq!(PROTO_VERSION, 1);
    assert_eq!(MAX_FRAME_LEN, 16 * 1024 * 1024);
}

#[test]
fn length_is_checked_before_the_type_and_errors_stay() {
    let mut d = FrameDecoder::default();
    d.push(&[200, 1, 0, 0, 1]);
    assert_eq!(d.next_frame(), Err(ProtocolError::FrameTooLarge(0x01000001)));
    d.push(&Frame::new(FrameType::List, Vec::new()).encode());
    assert_eq!(d.next_frame(), Err(ProtocolError::FrameTooLarge(0x01000001)));
}

#[test]
fn a_frame_of_the_cap_is_accepted() {
    let f = Frame::new(FrameType::Data, vec![7u8; MAX_FRAME_LEN as usize]);
    let wire = f.encode();
    assert_eq!(wire[..5], [9, 1, 0, 0, 0]);
    let mut d = FrameDecoder::new();
    d.push(&wire);
    assert_eq!(d.next_frame(), Ok(Some(f)));
}

#[test]
fn frames_survive_any_split_of_the_stream() {
    let mut wire = Vec::new();
    let mut sent = Vec::new();
    for (i, ty) in ALL.iter().enumerate() {
        let f = Frame::new(*ty, vec![i as u8; i * 3]);
        wire.extend(f.encode());
        sent.push(f);
    }
    for step in 1..20 {
        let mut d = FrameDecoder::new();
        let mut got = Vec::new();
        for part in wire.chunks(step) {
            d.push(part);
            while let Some(f) = d.next_frame().unwrap() {
                got.push(f);
            }
        }
        assert_eq!(got, sent);
    }
}

#[test]
fn many_frames_pass_through_one_decoder() {
    let f = Frame::new(FrameType::Input, vec![5u8; 1000]);
    let mut d = FrameDecoder::new();
    for _ in 0..100 {
        d.push(&f.encode());
    }
    for _ in 0..100 {
        assert_eq!(d.next_frame(), Ok(Some(f.clone())));
    }
    assert_eq!(d.next_frame(), Ok(None));
}

#[test]
fn control_frames_carry_the_encoded_value() {
    let f = Frame::control(FrameType::Resize, serde_json::to_vec(&(80, 24))).unwrap();
    assert_eq!(f, Frame::new(FrameType::Resize, b"[80,24]".to_vec()));
    let bad = std::collections::BTreeMap::from([(vec![1u8], 2u8)]);
    assert!(Frame::control(FrameType::Resize, serde_json::to_vec(&bad)).is_err());
}

#[test]
fn error_messages() {
    assert_eq!(
        ProtocolError::UnknownType(200).message(),
        "unknown frame type byte 200"
    );
    assert_eq!(
        ProtocolError::FrameTooLarge(4294967295).message(),
        "frame length 4294967295 exceeds cap"
    );
    assert_eq!(ProtocolError::UnknownType(0).message(), "unknown frame type byte 0");
}
