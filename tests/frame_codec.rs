use yaws::{ContentLength, Fragment, Frame, Opcode, WsParsingError};

fn payload_of_len(len: usize) -> Vec<u8> {
    (0..len).map(|i| (i % 251) as u8).collect()
}

fn check_round_trip(len: usize, mask: Option<u32>) {
    let payload = payload_of_len(len);
    let wire = Frame::new_binary(&payload, mask);
    let (frame, rest) = Frame::parse_slice(&wire).expect("a complete frame");
    assert!(rest.is_empty());
    assert_eq!(frame.len(), wire.len());
    assert_eq!(frame.data_len(), len);
    assert!(frame.fin());
    assert!(!frame.rsv1() && !frame.rsv2() && !frame.rsv3());
    assert_eq!(frame.opcode(), Opcode::Binary);
    assert_eq!(frame.mask(), mask);
    assert_eq!(frame.has_mask(), mask.is_some());
    let expected_class = if len <= 125 {
        ContentLength::OneByte(len as u8)
    } else if len <= 65535 {
        ContentLength::TwoBytes
    } else {
        ContentLength::EightBytes
    };
    assert_eq!(frame.ContentLengthByte(), expected_class);
    let ext = match expected_class {
        ContentLength::OneByte(_) => 0,
        ContentLength::TwoBytes => 2,
        ContentLength::EightBytes => 8,
    };
    let key = if mask.is_some() { 4 } else { 0 };
    assert_eq!(frame.header_size(), 2 + ext + key);
    assert_eq!(frame.unmasked_data(), payload);
}

#[test]
fn round_trip_at_length_boundaries() {
    for len in [0usize, 1, 125, 126, 65535, 65536, 10_000_000] {
        check_round_trip(len, None);
        check_round_trip(len, Some(0x1234_5678));
    }
}

#[test]
fn masked_binary_round_trip_with_same_key() {
    let payload = b"Hello, masked world".to_vec();
    let key = 0x37fa_213d;
    let wire = Frame::new_binary(&payload, Some(key));
    let (frame, _) = Frame::parse_slice(&wire).unwrap();
    let key_bytes = key.to_be_bytes();
    let on_wire: Vec<u8> = payload
        .iter()
        .enumerate()
        .map(|(i, b)| b ^ key_bytes[i % 4])
        .collect();
    assert_eq!(frame.masked_data(), &on_wire[..]);
    assert_ne!(frame.masked_data(), &payload[..]);
    assert_eq!(frame.unmasked_data(), payload);
}

#[test]
fn exact_wire_bytes_of_small_frames() {
    assert_eq!(Frame::new_text("Hi", None), vec![0x81, 0x02, b'H', b'i']);
    assert_eq!(
        Frame::new_binary(&[1, 2], Some(0x0102_0304)),
        vec![0x82, 0x82, 1, 2, 3, 4, 1 ^ 1, 2 ^ 2]
    );
    let wire = Frame::new_binary(&[0u8; 126], None);
    assert_eq!(&wire[..4], &[0x82, 126, 0x00, 126]);
    let wire = Frame::new_binary(&[0u8; 65536], None);
    assert_eq!(&wire[..10], &[0x82, 127, 0, 0, 0, 0, 0, 1, 0, 0]);
    assert_eq!(Frame::new_ping(None, None), vec![0x89, 0x00]);
    assert_eq!(Frame::new_pong(Some(&[7]), None), vec![0x8a, 0x01, 7]);
}

#[test]
fn build_sets_fin_and_opcode() {
    let wire = Frame::build(Opcode::Continuation, false, b"abc", None);
    assert_eq!(wire, vec![0x00, 0x03, b'a', b'b', b'c']);
    let (frame, _) = Frame::parse_slice(&wire).unwrap();
    assert!(!frame.fin());
    assert!(!frame.is_final());
    assert_eq!(frame.opcode(), Opcode::Continuation);
}

#[test]
fn close_frames_and_codes() {
    let wire = Frame::new_close(Some(1001), Some(0xdead_beef));
    let (frame, _) = Frame::parse_slice(&wire).unwrap();
    assert!(frame.is_close());
    assert_eq!(frame.close_code(), Some(1001));
    let wire = Frame::new_close(None, None);
    assert_eq!(wire, vec![0x88, 0x02, 0x03, 0xe8]);
    let (frame, _) = Frame::parse_slice(&wire).unwrap();
    assert_eq!(frame.close_code(), Some(1000));
    let wire = Frame::new_close_empty(None);
    assert_eq!(wire, vec![0x88, 0x00]);
    let (frame, _) = Frame::parse_slice(&wire).unwrap();
    assert!(frame.is_close());
    assert_eq!(frame.close_code(), None);
    let wire = Frame::new_binary(&[0x03, 0xe8], None);
    let (frame, _) = Frame::parse_slice(&wire).unwrap();
    assert!(!frame.is_close());
    assert_eq!(frame.close_code(), None);
}

#[test]
fn parse_reports_what_is_missing() {
    assert_eq!(Frame::parse_slice(&[]).err(), Some(WsParsingError::IncompleteHeader));
    assert_eq!(Frame::parse_slice(&[0x82]).err(), Some(WsParsingError::IncompleteHeader));
    assert_eq!(
        Frame::parse_slice(&[0x82, 126, 0x01]).err(),
        Some(WsParsingError::IncompleteHeader)
    );
    assert_eq!(
        Frame::parse_slice(&[0x82, 0x85, 1, 2, 3]).err(),
        Some(WsParsingError::IncompleteHeader)
    );
    assert_eq!(
        Frame::parse_slice(&[0x82, 0x05, 1, 2]).err(),
        Some(WsParsingError::IncompleteMessage(3))
    );
    assert_eq!(
        Frame::parse_slice(&[0x82, 126, 0x01, 0x00]).err(),
        Some(WsParsingError::IncompleteMessage(256))
    );
    assert_eq!(
        Frame::parse_slice(&[0x82, 127, 0x80, 0, 0, 0, 0, 0, 0, 1]).err(),
        Some(WsParsingError::InvalidLength)
    );
}

#[test]
fn parse_returns_the_remainder() {
    let mut wire = Frame::new_text("one", None);
    wire.extend_from_slice(&Frame::new_text("two", None));
    wire.push(0x81);
    let (first, rest) = Frame::parse_slice(&wire).unwrap();
    assert_eq!(first.masked_data(), b"one");
    assert_eq!(first.as_bytes(), &wire[..5]);
    let (second, rest) = Frame::parse_slice(rest).unwrap();
    assert_eq!(second.unmasked_data(), b"two".to_vec());
    assert_eq!(rest, &[0x81]);
    let unchecked = Frame::from_slice_unchecked(&wire);
    assert_eq!(unchecked.len(), 5);
}

#[test]
fn reserved_bits_and_opcodes_read_back() {
    let wire = [0xf3u8, 0x00];
    let (frame, _) = Frame::parse_slice(&wire).unwrap();
    assert!(frame.fin() && frame.rsv1() && frame.rsv2() && frame.rsv3());
    assert_eq!(frame.opcode(), Opcode::Invalid(3));
    assert_eq!(Opcode::from_u8(0xA), Opcode::Pong);
    assert_eq!(Opcode::from_u8(0x9), Opcode::Ping);
    assert_eq!(Opcode::Close.as_u8(), 0x8);
    assert!(Opcode::Ping.is_control());
    assert!(!Opcode::Text.is_control());
}

#[test]
fn fragment_plan_for_short_and_long_messages() {
    assert_eq!(
        Frame::fragment_message(Opcode::Binary, 10, 16),
        vec![Fragment { opcode: Opcode::Binary, fin: true, start: 0, len: 10 }]
    );
    assert_eq!(
        Frame::fragment_message(Opcode::Text, 40, 16),
        vec![
            Fragment { opcode: Opcode::Text, fin: false, start: 0, len: 16 },
            Fragment { opcode: Opcode::Continuation, fin: false, start: 16, len: 16 },
            Fragment { opcode: Opcode::Continuation, fin: false, start: 32, len: 8 },
            Fragment { opcode: Opcode::Continuation, fin: true, start: 40, len: 0 },
        ]
    );
    assert_eq!(
        Frame::fragment_message(Opcode::Binary, 32, 16),
        vec![
            Fragment { opcode: Opcode::Binary, fin: false, start: 0, len: 16 },
            Fragment { opcode: Opcode::Continuation, fin: false, start: 16, len: 16 },
            Fragment { opcode: Opcode::Continuation, fin: true, start: 32, len: 0 },
        ]
    );
}
