use yaws::{CloseState, DataKind, Frame, Message, Opcode, Outcome, Session};

fn feed(session: &mut Session, wire: &[u8]) -> Outcome {
    let (frame, rest) = Frame::parse_slice(wire).expect("a complete frame");
    assert!(rest.is_empty());
    session.on_frame(&frame)
}

fn text(s: &[u8]) -> Outcome {
    Outcome::Message(Message { kind: DataKind::Text, payload: s.to_vec() })
}

#[test]
fn text_in_three_fragments_is_reassembled() {
    let mut session = Session::new();
    let first = Frame::build(Opcode::Text, false, b"Hel", Some(1));
    let middle = Frame::build(Opcode::Continuation, false, b"lo, ", Some(2));
    let last = Frame::build(Opcode::Continuation, true, b"world", None);
    assert_eq!(feed(&mut session, &first), Outcome::Nothing);
    assert_eq!(feed(&mut session, &middle), Outcome::Nothing);
    assert_eq!(feed(&mut session, &last), text(b"Hello, world"));
    assert_eq!(session.state(), CloseState::Open);
}

#[test]
fn binary_then_stray_continuation_fails_with_1002() {
    let mut session = Session::new();
    let binary = Frame::new_binary(&[1, 2, 3], None);
    let cont = Frame::build(Opcode::Continuation, true, &[4], None);
    assert_eq!(
        feed(&mut session, &binary),
        Outcome::Message(Message { kind: DataKind::Binary, payload: vec![1, 2, 3] })
    );
    assert_eq!(feed(&mut session, &cont), Outcome::Fail(1002));
    assert_eq!(session.state(), CloseState::CloseSent);
    assert_eq!(session.negotiated_code(), Some(1002));
}

#[test]
fn invalid_utf8_text_fails_with_1007() {
    let mut session = Session::new();
    let bad = Frame::build(Opcode::Text, true, &[0xce, 0xba, 0xff], None);
    assert_eq!(feed(&mut session, &bad), Outcome::Fail(1007));
    assert_eq!(session.state(), CloseState::CloseSent);

    let mut session = Session::new();
    let first = Frame::build(Opcode::Text, false, &[0xce], None);
    let last = Frame::build(Opcode::Continuation, true, &[0x41], None);
    assert_eq!(feed(&mut session, &first), Outcome::Nothing);
    assert_eq!(feed(&mut session, &last), Outcome::Fail(1007));
}

#[test]
fn utf8_split_across_fragments_is_accepted() {
    let mut session = Session::new();
    let first = Frame::build(Opcode::Text, false, &[0xce], None);
    let last = Frame::build(Opcode::Continuation, true, &[0xba], None);
    assert_eq!(feed(&mut session, &first), Outcome::Nothing);
    assert_eq!(feed(&mut session, &last), text("κ".as_bytes()));
}

#[test]
fn ping_gets_pong_with_same_payload() {
    let mut session = Session::new();
    let ping = Frame::new_ping(Some(b"are you there"), Some(99));
    let out = feed(&mut session, &ping);
    assert_eq!(out, Outcome::Pong(b"are you there".to_vec()));
    assert_eq!(session.state(), CloseState::Open);
    assert_eq!(out.reply_frame(None), Some(Frame::new_pong(Some(b"are you there"), None)));
}

#[test]
fn ping_inside_fragmented_message_leaves_it_open() {
    let mut session = Session::new();
    let first = Frame::build(Opcode::Binary, false, b"ab", None);
    let ping = Frame::new_ping(None, None);
    let last = Frame::build(Opcode::Continuation, true, b"cd", None);
    assert_eq!(feed(&mut session, &first), Outcome::Nothing);
    assert_eq!(feed(&mut session, &ping), Outcome::Pong(Vec::new()));
    assert_eq!(
        feed(&mut session, &last),
        Outcome::Message(Message { kind: DataKind::Binary, payload: b"abcd".to_vec() })
    );
}

#[test]
fn peer_close_1000_closes_and_echoes() {
    let mut session = Session::new();
    let close = Frame::new_close(Some(1000), Some(5));
    let out = feed(&mut session, &close);
    assert_eq!(out, Outcome::Echo(Some(1000)));
    assert_eq!(session.state(), CloseState::Closed);
    assert_eq!(session.negotiated_code(), Some(1000));
    assert_eq!(out.reply_frame(None), Some(vec![0x88, 0x02, 0x03, 0xe8]));
}

#[test]
fn peer_close_without_code_is_echoed_empty() {
    let mut session = Session::new();
    let close = Frame::new_close_empty(None);
    let out = feed(&mut session, &close);
    assert_eq!(out, Outcome::Echo(None));
    assert_eq!(session.state(), CloseState::Closed);
    assert_eq!(session.negotiated_code(), None);
    let reply = out.reply_frame(Some(0x0102_0304)).unwrap();
    let (frame, _) = Frame::parse_slice(&reply).unwrap();
    assert!(frame.is_close());
    assert_eq!(frame.data_len(), 0);
    assert_eq!(frame.close_code(), None);
}

#[test]
fn local_close_waits_for_peer() {
    let mut session = Session::new();
    assert!(session.start_close(Some(1001)));
    assert_eq!(session.state(), CloseState::CloseSent);
    assert!(!session.start_close(Some(1000)));
    let data = Frame::new_text("late", None);
    assert_eq!(feed(&mut session, &data), Outcome::Nothing);
    let close = Frame::new_close(Some(1001), None);
    assert_eq!(feed(&mut session, &close), Outcome::Closed(Some(1001)));
    assert_eq!(session.state(), CloseState::Closed);
    assert_eq!(feed(&mut session, &data), Outcome::Nothing);
}

#[test]
fn end_of_stream_closes() {
    let mut session = Session::new();
    session.on_eof();
    assert_eq!(session.state(), CloseState::Closed);
}

#[test]
fn protocol_violations_fail_with_1002() {
    let cases: Vec<Vec<u8>> = vec![
        vec![0xc1, 0x00],
        vec![0xa1, 0x00],
        vec![0x91, 0x00],
        vec![0x83, 0x00],
        Frame::build(Opcode::Ping, false, b"x", None),
        Frame::build(Opcode::Ping, true, &[0u8; 126], None),
    ];
    for wire in cases {
        let mut session = Session::new();
        let out = feed(&mut session, &wire);
        assert_eq!(out, Outcome::Fail(1002));
        assert_eq!(out.reply_frame(None), Some(Frame::new_close(Some(1002), None)));
        assert_eq!(session.state(), CloseState::CloseSent);
    }
}

#[test]
fn new_message_while_fragment_open_fails_with_1002() {
    let mut session = Session::new();
    let first = Frame::build(Opcode::Text, false, b"a", None);
    let second = Frame::new_text("b", None);
    assert_eq!(feed(&mut session, &first), Outcome::Nothing);
    assert_eq!(feed(&mut session, &second), Outcome::Fail(1002));
}

#[test]
fn pong_is_ignored() {
    let mut session = Session::new();
    let pong = Frame::new_pong(Some(b"x"), None);
    let out = feed(&mut session, &pong);
    assert_eq!(out, Outcome::Nothing);
    assert_eq!(out.reply_frame(None), None);
}

#[test]
fn planned_fragments_reassemble_to_the_message() {
    let msg: Vec<u8> = (0..100u32).map(|i| (i * 7) as u8).collect();
    let plan = Frame::fragment_message(Opcode::Binary, msg.len(), 30);
    assert_eq!(plan.len(), 5);
    let mut session = Session::new();
    let mut outcomes = Vec::new();
    for (i, f) in plan.iter().enumerate() {
        let wire = Frame::build(f.opcode, f.fin, &msg[f.start..f.start + f.len], Some(i as u32));
        outcomes.push(feed(&mut session, &wire));
    }
    let last = outcomes.pop().unwrap();
    assert!(outcomes.iter().all(|o| *o == Outcome::Nothing));
    assert_eq!(last, Outcome::Message(Message { kind: DataKind::Binary, payload: msg }));
    assert_eq!(session.state(), CloseState::Open);
}

#[test]
fn euro_sign_split_across_fragments_is_accepted() {
    let euro = "€".as_bytes();
    let mut session = Session::new();
    let first = Frame::build(Opcode::Text, false, &euro[..1], None);
    let last = Frame::build(Opcode::Continuation, true, &euro[1..], None);
    assert_eq!(feed(&mut session, &first), Outcome::Nothing);
    assert_eq!(feed(&mut session, &last), text(euro));
}
