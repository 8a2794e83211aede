use rotonda::units::bmp_tcp_in::io::{
    bmp_read, check_header, finish_frame, is_readable, judge_frame, parser_steps_over,
    whole_frame, BmpStream, ErrorKind,
    FatalError, IoError, StreamEvent, TracingMode, MAX_BMP_MSG_LEN, MIN_BMP_MSG_LEN,
};
use rotonda::net::{Asn, IpAddr, PeerType};
use rotonda::units::bmp_tcp_out::bmp_builder::{
    build_initiation_message, build_peer_up, build_termination_message, PeerInfo,
};

/// A 5-byte BMP prefix with a given length field.
fn header_with_len(len: u32) -> Vec<u8> {
    let mut buf = vec![3u8]; // version
    buf.extend_from_slice(&len.to_be_bytes());
    buf
}

fn run_bmp_read(input: Vec<u8>) -> Result<(Vec<u8>, u8), IoError> {
    bmp_read(&input, TracingMode::Off)
}

#[test]
fn rejects_length_below_minimum() {
    let err = run_bmp_read(header_with_len(4)).unwrap_err();
    assert_eq!(err.kind(), ErrorKind::InvalidData);
    assert_eq!(err.message(), "BMP message length 4 out of range [6, 2097152]");
}

#[test]
fn rejects_zero_length() {
    let err = run_bmp_read(header_with_len(0)).unwrap_err();
    assert_eq!(err.kind(), ErrorKind::InvalidData);
}

#[test]
fn rejects_length_above_cap() {
    let err = run_bmp_read(header_with_len(u32::MAX)).unwrap_err();
    assert_eq!(err.kind(), ErrorKind::InvalidData);
    let err = run_bmp_read(header_with_len(MAX_BMP_MSG_LEN as u32 + 1)).unwrap_err();
    assert_eq!(err.kind(), ErrorKind::InvalidData);
    let err = run_bmp_read(header_with_len(MAX_BMP_MSG_LEN as u32)).unwrap_err();
    assert_eq!(err.kind(), ErrorKind::UnexpectedEof);
}

#[test]
fn accepts_frame_within_bounds() {
    let mut input = header_with_len(MIN_BMP_MSG_LEN as u32);
    input.push(4u8); // BMP InitiationMessage
    match run_bmp_read(input) {
        Ok((msg, trace)) => {
            assert_eq!(msg.len(), MIN_BMP_MSG_LEN);
            assert_eq!(trace, 0);
        }
        Err(err) => {
            assert_ne!(
                err.kind(),
                ErrorKind::InvalidData,
                "length-check spuriously rejected a {}-byte frame: {}",
                MIN_BMP_MSG_LEN,
                err.message(),
            );
        }
    }
}

#[test]
fn a_stream_that_ends_early_is_an_error() {
    for input in [vec![], vec![3, 0, 0, 0], vec![3, 0, 0, 0, 7, 4]] {
        let err = run_bmp_read(input).unwrap_err();
        assert_eq!(err.kind(), ErrorKind::UnexpectedEof);
        assert_eq!(err.message(), "early eof");
    }
}

#[test]
fn messages_that_parse_come_through_unchanged() {
    let msg = build_initiation_message("router", "a router");
    let mut input = msg.clone();
    input.extend_from_slice(&[1, 2, 3]);
    assert_eq!(run_bmp_read(input).unwrap(), (msg, 0));
    let msg = build_termination_message();
    assert_eq!(run_bmp_read(msg.clone()).unwrap(), (msg, 0));
}

#[test]
fn messages_that_do_not_parse_are_refused() {
    // There is no message type 77.
    let err = run_bmp_read(vec![3, 0, 0, 0, 6, 77]).unwrap_err();
    assert_eq!(err.kind(), ErrorKind::Other);
    assert!(!err.message().is_empty());
    // A Peer Up that is cut short.
    let err = run_bmp_read(vec![3, 0, 0, 0, 6, 3]).unwrap_err();
    assert_eq!(err.kind(), ErrorKind::Other);
}

#[test]
fn the_trace_is_taken_out_of_the_version() {
    let mut msg = build_initiation_message("router", "a router");
    msg[0] = 0x53;
    let (read, trace) = bmp_read(&msg, TracingMode::On).unwrap();
    assert_eq!(trace, 5);
    assert_eq!(read[0], 3);
    let (_, trace) = bmp_read(&msg, TracingMode::IfRequested).unwrap();
    assert_eq!(trace, 5);
    // Without tracing the version is taken as it is.
    let header = check_header(&msg[..5], TracingMode::Off).unwrap();
    assert_eq!((header.version, header.trace_id, header.len), (0x53, 0, msg.len()));
}

#[test]
fn frames_are_judged_by_what_the_parser_says() {
    let ok = judge_frame(vec![1, 2], 7, None).unwrap();
    assert_eq!(ok, (vec![1, 2], 7));
    let err = judge_frame(vec![1, 2], 7, Some("no".to_string())).unwrap_err();
    assert_eq!((err.kind(), err.message()), (ErrorKind::Other, "no"));
}

#[test]
fn open_parameters_must_end_where_they_say() {
    // A Peer Up whose first OPEN has optional parameters of three octets, in
    // which a capabilities parameter announces more than there is.
    let mut body = vec![0u8; 42 + 20];
    body.extend_from_slice(&[0xff; 16]);
    body.extend_from_slice(&[0, 33, 1, 4, 0, 0, 0, 90, 1, 2, 3, 4]);
    body.push(3);
    body.extend_from_slice(&[2, 9, 65, 4]);
    body.extend_from_slice(&[0; 40]);
    let len = 6 + body.len();
    let mut msg = header_with_len(len as u32);
    msg.push(3);
    msg.extend_from_slice(&body);
    assert!(!parser_steps_over(&msg));
    assert!(!is_readable(&msg, TracingMode::Off));
    // A message that is cut short is not handed to the parser.
    assert!(is_readable(&msg[..msg.len() - 1], TracingMode::Off));
    assert!(is_readable(&[], TracingMode::Off));
    assert!(parser_steps_over(&build_termination_message()));
}

#[test]
fn what_is_rejected_earlier_is_rejected_by_the_parser() {
    let peer_up = |version: u8, peer_type: u8| {
        let mut msg = vec![version, 0, 0, 0, 140, 3, peer_type];
        msg.extend_from_slice(&[0; 61]);
        msg.extend_from_slice(&[0xff; 16]);
        msg.extend_from_slice(&[0, 33, 1, 4, 0, 0, 0, 90, 1, 2, 3, 4, 3, 2, 9, 65, 4]);
        msg.resize(140, 0);
        msg
    };
    assert!(!parser_steps_over(&peer_up(3, 0)));
    for (msg, text) in [(peer_up(4, 0), "version"), (peer_up(3, 4), "peer type")] {
        assert!(parser_steps_over(&msg));
        let err = run_bmp_read(msg).unwrap_err();
        assert_eq!(err.kind(), ErrorKind::Other);
        assert!(err.message().contains(text), "{}", err.message());
    }
    let mut msg = peer_up(3, 0);
    msg[70] = 0;
    assert!(run_bmp_read(msg).unwrap_err().message().contains("marker"));
}

#[test]
fn a_frame_is_put_together_again() {
    let msg = build_termination_message();
    let header = check_header(&msg[..5], TracingMode::Off).unwrap();
    let whole = whole_frame(&header, &msg[..5], &msg[5..]);
    assert_eq!(whole, msg);
    assert_eq!(finish_frame(whole, header.trace_id).unwrap(), (msg, 0));
}

#[test]
fn fatal_errors() {
    let fatal = |kind| IoError::new(kind, "x").is_fatal();
    assert!(!fatal(ErrorKind::TimedOut));
    assert!(!fatal(ErrorKind::Interrupted));
    assert!(!fatal(ErrorKind::Other));
    assert!(fatal(ErrorKind::NotFound));
    assert!(fatal(ErrorKind::InvalidData));
    assert!(fatal(ErrorKind::UnexpectedEof));
}

#[test]
fn a_stream_returns_the_last_status_with_a_message() {
    let mut stream: BmpStream<u8> = BmpStream::new();
    assert!(stream.start().is_ok());
    assert!(stream.next(StreamEvent::StatusChanged(1)).is_none());
    assert!(stream.next(StreamEvent::StatusChanged(2)).is_none());
    let item = stream.next(StreamEvent::MessageRead(vec![9], 4)).unwrap().unwrap();
    assert_eq!(item, (Some(vec![9]), Some(2), 4));
    // The status was returned once.
    assert!(stream.start().is_ok());
    let item = stream.next(StreamEvent::MessageRead(vec![8], 0)).unwrap().unwrap();
    assert_eq!(item, (Some(vec![8]), None, 0));
}

#[test]
fn a_stream_ends_with_its_unit_or_a_fatal_error() {
    let mut stream: BmpStream<u8> = BmpStream::new();
    assert!(stream.start().is_ok());
    let item = stream.next(StreamEvent::Terminated).unwrap().unwrap();
    assert_eq!(item, (None, None, 0));
    let err = stream.start().unwrap_err();
    assert_eq!(err.message(), "Internal error: no receiver available");

    let mut stream: BmpStream<u8> = BmpStream::new();
    assert!(stream.start().is_ok());
    let e = IoError::new(ErrorKind::TimedOut, "later");
    assert_eq!(stream.next(StreamEvent::ReadFailed(e)).unwrap().unwrap_err().message(), "later");
    assert!(stream.start().is_ok());
    let e = IoError::new(ErrorKind::UnexpectedEof, "gone");
    assert!(stream.next(StreamEvent::ReadFailed(e)).unwrap().is_err());
    assert!(stream.start().is_err());
}

#[test]
fn damaged_peer_ups_are_read_or_refused() {
    let peer = PeerInfo {
        peer_type: PeerType::GlobalInstance,
        peer_flags: 0,
        peer_distinguisher: [0; 8],
        peer_address: IpAddr::V4(1),
        peer_asn: Asn::from_u32(65000),
        peer_bgp_id: [0; 4],
        admin_label: Some("label".to_string()),
    };
    let msg = build_peer_up(&peer, true);
    let mut x = 0x2545_f491_4f6c_dd1du64;
    let mut read = 0;
    for _ in 0..20_000 {
        let mut damaged = msg.clone();
        for _ in 0..3 {
            x ^= x << 13;
            x ^= x >> 7;
            x ^= x << 17;
            let at = 48 + (x >> 8) as usize % (damaged.len() - 48);
            damaged[at] = if x & 1 == 0 { (x >> 32) as u8 } else { (x >> 32) as u8 % 8 };
        }
        if !is_readable(&damaged, TracingMode::Off) {
            continue;
        }
        if let Ok((whole, _)) = run_bmp_read(damaged.clone()) {
            assert_eq!(whole, damaged);
            read += 1;
        }
    }
    assert!(read > 0);
}

#[test]
fn what_follows_an_open_of_another_size_is_not_looked_at() {
    let peer_up = |stated: u8| {
        let mut msg = vec![3, 0, 0, 0, 140, 3];
        msg.extend_from_slice(&[0; 62]);
        msg.extend_from_slice(&[0xff; 16]);
        msg.extend_from_slice(&[0, stated, 1, 4, 0, 0, 0, 90, 1, 2, 3, 4, 0]);
        // The parameters of the second OPEN go beyond their size.
        msg.extend_from_slice(&[0xff; 16]);
        msg.extend_from_slice(&[0, 33, 1, 4, 0, 0, 0, 90, 1, 2, 3, 4, 3, 2, 9, 65, 4]);
        msg.resize(140, 0);
        msg
    };
    assert!(!parser_steps_over(&peer_up(29)));
    assert!(parser_steps_over(&peer_up(30)));
    let err = run_bmp_read(peer_up(30)).unwrap_err();
    assert!(err.message().contains("do not match"), "{}", err.message());
}
