use ns_pixels::zmq::{
    build_ready_body, check_greeting, encode_frame, push_property, read_frame, Action, Error,
    Frame, Outcome, Subscriber, FLAG_COMMAND, FLAG_LONG, FLAG_MORE, GREETING,
};

type Res = Result<Outcome<Vec<Vec<u8>>>, Error<()>>;

/// Hands the bytes that the subscriber asks for, at most `piece` at a time, until
/// something other than `Pending` comes of it.
fn drive(sub: &mut Subscriber<()>, peer: &mut &[u8], sent: &mut Vec<u8>, piece: usize) -> Res {
    loop {
        match sub.action() {
            Action::Write(bytes) => {
                sent.extend(bytes);
                sub.on_written();
            }
            Action::Read(n) => {
                let k = n.min(piece).min(peer.len());
                let (now, later) = peer.split_at(k);
                *peer = later;
                match sub.on_read::<()>(now) {
                    Ok(Outcome::Pending) => {}
                    other => return other,
                }
            }
            Action::Idle => panic!("nothing to do"),
        }
    }
}

fn greeted() -> Vec<u8> {
    let mut peer = GREETING.to_vec();
    peer.extend(encode_frame(FLAG_COMMAND, b"\x05READY"));
    peer
}

fn connected(max: usize) -> Subscriber<()> {
    let mut sub = Subscriber::new((), max);
    let mut sent = Vec::new();
    assert_eq!(drive(&mut sub, &mut greeted().as_slice(), &mut sent, 64), Ok(Outcome::Connected));
    sub
}

#[test]
fn greeting_is_as_the_protocol_wants_it() {
    assert_eq!(&GREETING[..10], &[0xff, 0, 0, 0, 0, 0, 0, 0, 0, 0x7f]);
    assert_eq!(&GREETING[10..12], &[3, 0]);
    assert_eq!(&GREETING[12..16], b"NULL");
    assert!(GREETING[16..].iter().all(|b| *b == 0));
    assert_eq!(check_greeting::<()>(&GREETING), Ok(()));
}

#[test]
fn greetings_are_checked() {
    for (i, wrong) in [(0usize, 0u8), (9, 0), (10, 2)] {
        let mut peer = GREETING;
        peer[i] = wrong;
        assert_eq!(check_greeting::<()>(&peer), Err(Error::InvalidGreeting));
    }
    let mut peer = GREETING;
    peer[12..17].copy_from_slice(b"PLAIN");
    assert_eq!(check_greeting::<()>(&peer), Err(Error::UnsupportedMechanism));
    peer = GREETING;
    peer[10] = 4;
    peer[16] = 1;
    assert_eq!(check_greeting::<()>(&peer), Ok(()));
}

#[test]
fn ready_body_names_the_socket_type() {
    let mut expected = b"\x05READY\x0bSocket-Type\x00\x00\x00\x03SUB".to_vec();
    assert_eq!(build_ready_body(), expected);
    push_property(&mut expected, b"n", &[1; 300]);
    assert_eq!(&expected[25..31], b"\x01n\x00\x00\x01\x2c");
}

#[test]
fn frames_have_short_and_long_headers() {
    assert_eq!(encode_frame(FLAG_LONG | FLAG_MORE, b"ab"), b"\x01\x02ab");
    assert_eq!(encode_frame(0, &[7; 255])[..2], [0, 255]);
    assert_eq!(encode_frame(FLAG_COMMAND, &[7; 256])[..9], [6, 0, 0, 0, 0, 0, 0, 1, 0]);
    assert_eq!(encode_frame(0, &[7; 256]).len(), 265);
}

#[test]
fn frames_read_back() {
    for len in [0usize, 1, 255, 256, 70000] {
        let body: Vec<u8> = (0..len).map(|i| i as u8).collect();
        let bytes = encode_frame(FLAG_MORE, &body);
        let long = if len > 255 { FLAG_LONG } else { 0 };
        assert_eq!(
            whole(read_frame(&bytes, len)),
            Some((FLAG_MORE | long, body.clone()))
        );
        let mut longer = bytes.clone();
        longer.push(99);
        assert_eq!(whole(read_frame(&longer, len)), Some((FLAG_MORE | long, body)));
        if len > 0 {
            assert!(matches!(read_frame(&bytes, len - 1), Frame::TooLarge));
        }
    }
}

fn whole(frame: Frame<Vec<u8>>) -> Option<(u8, Vec<u8>)> {
    match frame {
        Frame::Whole { flags, body } => Some((flags, body)),
        _ => None,
    }
}

#[test]
fn parts_of_a_frame_are_asked_for_in_turn() {
    let bytes = encode_frame(0, b"hello");
    let wanted: Vec<usize> = (0..bytes.len())
        .map(|n| match read_frame(&bytes[..n], 100) {
            Frame::More(k) => k,
            _ => 0,
        })
        .collect();
    assert_eq!(wanted, vec![1, 1, 5, 4, 3, 2, 1]);
    assert!(matches!(read_frame(&[FLAG_LONG], 100), Frame::More(8)));
    // The limit is known before the body is read.
    assert!(matches!(read_frame(&[FLAG_LONG, 0, 0, 0, 0, 0, 0, 1, 0], 255), Frame::TooLarge));
}

#[test]
fn handshake_goes_back_and_forth() {
    for piece in [1, 3, 64] {
        let mut sub = Subscriber::new((), 100);
        let mut sent = Vec::new();
        let answer = drive(&mut sub, &mut greeted().as_slice(), &mut sent, piece);
        assert_eq!(answer, Ok(Outcome::Connected));
        let mut expected = GREETING.to_vec();
        expected.extend(encode_frame(FLAG_COMMAND, &build_ready_body()));
        assert_eq!(sent, expected);
        assert_eq!(sub.action(), Action::Idle);
    }
}

#[test]
fn handshake_can_fail() {
    let mut sent = Vec::new();
    let mut old = GREETING.to_vec();
    old[10] = 1;
    let mut sub = Subscriber::new((), 100);
    assert_eq!(
        drive(&mut sub, &mut old.as_slice(), &mut sent, 64),
        Err(Error::InvalidGreeting)
    );
    assert_eq!(sub.action(), Action::Idle);

    let mut plain = GREETING.to_vec();
    plain[12] = b'X';
    assert_eq!(
        drive(&mut Subscriber::new((), 100), &mut plain.as_slice(), &mut sent, 64),
        Err(Error::UnsupportedMechanism)
    );

    let mut message = GREETING.to_vec();
    message.extend(encode_frame(0, b"hi"));
    assert_eq!(
        drive(&mut Subscriber::new((), 100), &mut message.as_slice(), &mut sent, 64),
        Err(Error::UnexpectedCommand)
    );

    assert_eq!(
        drive(&mut Subscriber::new((), 5), &mut greeted().as_slice(), &mut sent, 64),
        Err(Error::FrameTooLarge)
    );

    assert_eq!(
        drive(&mut Subscriber::new((), 5), &mut &GREETING[..30], &mut sent, 64),
        Err(Error::UnexpectedEof)
    );

    let mut broken = Subscriber::new((), 5);
    assert_eq!(broken.on_failed("reset"), Error::Io("reset"));
    assert_eq!(broken.action(), Action::Idle);
}

#[test]
fn short_bodies_may_have_long_headers() {
    let long = |flags: u8, body: &[u8]| {
        let mut bytes = vec![flags | FLAG_LONG, 0, 0, 0, 0, 0, 0, 0, body.len() as u8];
        bytes.extend_from_slice(body);
        bytes
    };
    assert_eq!(whole(read_frame(&long(0, b"ab"), 2)), Some((FLAG_LONG, b"ab".to_vec())));
    assert!(matches!(read_frame(&long(0, b"abc"), 2), Frame::TooLarge));
    // The whole length counts, also its upper half.
    let huge = [FLAG_LONG, 0, 0, 0, 1, 0, 0, 0, 2, 7, 7];
    assert!(matches!(read_frame(&huge, 100), Frame::TooLarge));

    let mut stream = long(FLAG_MORE, b"a");
    stream.extend(long(FLAG_COMMAND, b"\x04PING"));
    stream.extend(long(0, b""));
    let mut sub = connected(400);
    sub.recv();
    assert_eq!(
        drive(&mut sub, &mut stream.as_slice(), &mut Vec::new(), 3),
        Ok(Outcome::Message(vec![b"a".to_vec(), vec![]]))
    );

    let mut peer = GREETING.to_vec();
    peer.extend(long(FLAG_COMMAND, b"\x05READY"));
    let mut sub = Subscriber::new((), 400);
    assert_eq!(
        drive(&mut sub, &mut peer.as_slice(), &mut Vec::new(), 5),
        Ok(Outcome::Connected)
    );
}

#[test]
fn messages_are_put_together() {
    let mut stream = encode_frame(FLAG_MORE, b"/topic");
    stream.extend(encode_frame(FLAG_COMMAND, b"\x04PING"));
    stream.extend(encode_frame(0, &[5; 300]));
    stream.extend(encode_frame(0, b"next"));
    for piece in [1, 7, 1000] {
        let mut sub = connected(400);
        let mut rest = stream.as_slice();
        let mut sent = Vec::new();
        sub.recv();
        assert_eq!(
            drive(&mut sub, &mut rest, &mut sent, piece),
            Ok(Outcome::Message(vec![b"/topic".to_vec(), vec![5; 300]]))
        );
        assert_eq!(rest, encode_frame(0, b"next").as_slice());
        sub.recv();
        assert_eq!(
            drive(&mut sub, &mut rest, &mut sent, piece),
            Ok(Outcome::Message(vec![b"next".to_vec()]))
        );
        assert!(sent.is_empty());
    }
}

#[test]
fn receiving_can_fail_and_go_on() {
    let mut sub = connected(6);
    let mut sent = Vec::new();
    sub.recv();
    let big = encode_frame(0, b"1234567");
    assert_eq!(
        drive(&mut sub, &mut big.as_slice(), &mut sent, 9),
        Err(Error::FrameTooLarge)
    );
    sub.recv();
    assert_eq!(drive(&mut sub, &mut &[][..], &mut sent, 9), Err(Error::UnexpectedEof));
    sub.recv();
    assert_eq!(
        drive(&mut sub, &mut encode_frame(0, b"ok").as_slice(), &mut sent, 9),
        Ok(Outcome::Message(vec![b"ok".to_vec()]))
    );
}

#[test]
fn subscriptions_are_message_frames() {
    let mut sub = Subscriber::new(17u32, 100);
    assert_eq!(sub.subscribe(b"/RIG"), b"\x00\x05\x01/RIG");
    assert_eq!(sub.unsubscribe(b"/RIG"), b"\x00\x05\x00/RIG");
    assert_eq!(sub.subscribe(b""), b"\x00\x01\x01");
    *sub.socket() += 1;
    assert_eq!(sub.into_inner(), 18);
}
