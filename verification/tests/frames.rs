use f1r3x_serve::ws::{on_message, ReadAction};
use f1r3x_serve::driver::{
    next_step, quiescent_frame, ready_frame, round_frame, scene_frame, stats_frame, Readouts, Step,
};
use f1r3x_serve::session::{Control, Pacing};
use f1r3x_serve::ws::{
    answer_head, bad_request, check_frame, close_frame, encode_frame, ext_len_bytes, head_complete,
    parse_head, parse_upgrade, payload_len, text_frame, unmask, Assembly, Fed, Handshake, Msg,
    MAX_FRAME,
};

const RFC_HEAD: &str = "GET /s/headset-1 HTTP/1.1\r\nHost: x\r\nUpgrade: websocket\r\n\
     Connection: Upgrade\r\nSec-WebSocket-Key: dGhlIHNhbXBsZSBub25jZQ==\r\n\
     Sec-WebSocket-Version: 13\r\n\r\n";

#[test]
fn the_rfc_handshake_is_answered_with_its_accept_value() {
    match answer_head(RFC_HEAD) {
        Handshake::Accept { target, response } => {
            assert_eq!(target, "/s/headset-1");
            assert_eq!(
                response,
                "HTTP/1.1 101 Switching Protocols\r\nUpgrade: websocket\r\nConnection: Upgrade\r\n\
                 Sec-WebSocket-Accept: s3pPLMBiTxaQ9kYGzzhZRbK+xOo=\r\n\r\n"
            );
        }
        Handshake::Refuse => panic!("the RFC example was refused"),
    }
}

#[test]
fn a_head_that_does_not_ask_for_a_websocket_is_refused() {
    let no_upgrade = "GET / HTTP/1.1\r\nSec-WebSocket-Key: abc\r\n\r\n";
    assert!(matches!(answer_head(no_upgrade), Handshake::Refuse));
    let no_key = "GET / HTTP/1.1\r\nUpgrade: websocket\r\n\r\n";
    assert!(matches!(answer_head(no_key), Handshake::Refuse));
    let other = "GET / HTTP/1.1\r\nUpgrade: h2c\r\nSec-WebSocket-Key: abc\r\n\r\n";
    assert!(matches!(answer_head(other), Handshake::Refuse));
    assert_eq!(
        bad_request(),
        "HTTP/1.1 400 Bad Request\r\nContent-Length: 0\r\nConnection: close\r\n\r\n"
    );
}

#[test]
fn headers_are_read_without_regard_to_case_or_spacing() {
    let head = "GET  /s/x  HTTP/1.1\r\nuPgRaDe:   WebSocket  \r\nsec-websocket-KEY:k1\r\n\
                Sec-WebSocket-Key:  k2 \r\nnot a header\r\n\r\n";
    let u = parse_upgrade(head);
    assert_eq!(u.target, "/s/x");
    assert_eq!(u.key.as_deref(), Some("k2"));
    let u = parse_upgrade("GET\r\nUpgrade: websocket\r\nSec-WebSocket-Key: k\r\n\r\n");
    assert_eq!(u.target, "/");
    assert_eq!(u.key.as_deref(), Some("k"));
    // A later Upgrade line overrides an earlier one.
    let u = parse_upgrade("GET / HTTP/1.1\r\nUpgrade: websocket\r\nUpgrade: no\r\nSec-WebSocket-Key: k\r\n\r\n");
    assert!(u.key.is_none());
}

#[test]
fn a_head_ends_at_its_blank_line() {
    assert!(head_complete(b"GET / HTTP/1.1\r\n\r\n"));
    assert!(!head_complete(b"GET / HTTP/1.1\r\n"));
    assert!(!head_complete(b"\r\n"));
    assert!(head_complete(b"\r\n\r\n"));
}

#[test]
fn server_frames_use_the_shortest_length() {
    let f = encode_frame(0x1, &[7u8; 125]);
    assert_eq!(&f[..2], &[0x81, 125]);
    assert_eq!(f.len(), 127);
    let f = encode_frame(0x1, &[7u8; 126]);
    assert_eq!(&f[..4], &[0x81, 126, 0, 126]);
    assert_eq!(f.len(), 130);
    let f = encode_frame(0x2, &vec![7u8; 65535]);
    assert_eq!(&f[..4], &[0x82, 126, 0xff, 0xff]);
    let f = encode_frame(0x2, &vec![7u8; 65536]);
    assert_eq!(&f[..10], &[0x82, 127, 0, 0, 0, 0, 0, 1, 0, 0]);
    assert_eq!(f.len(), 65546);
    assert_eq!(text_frame("hi"), vec![0x81, 2, b'h', b'i']);
    assert_eq!(close_frame(), vec![0x88, 2, 0x03, 0xE8]);
}

#[test]
fn client_frame_heads_are_read() {
    let h = parse_head(0x81, 0x85);
    assert!(h.fin && h.masked);
    assert_eq!((h.opcode, h.len7), (1, 5));
    let h = parse_head(0x02, 0x7E);
    assert!(!h.fin && !h.masked);
    assert_eq!((h.opcode, h.len7), (2, 126));
    assert_eq!(ext_len_bytes(126), 2);
    assert_eq!(ext_len_bytes(127), 8);
    assert_eq!(ext_len_bytes(125), 0);
    assert_eq!(payload_len(5, &[]), 5);
    assert_eq!(payload_len(126, &[0x01, 0x00]), 256);
    assert_eq!(payload_len(127, &[0, 0, 0, 0, 0, 0x80, 0, 1]), 0x80_0001);
}

#[test]
fn oversized_and_unmasked_frames_are_refused() {
    assert_eq!(check_frame(MAX_FRAME + 1, true), Some("frame larger than the accepted maximum"));
    assert_eq!(check_frame(MAX_FRAME, false), Some("client frame was not masked"));
    assert_eq!(check_frame(MAX_FRAME, true), None);
    assert_eq!(MAX_FRAME, 8 << 20);
}

#[test]
fn unmasking_xors_with_the_mask_in_turn() {
    let mask = [0x37u8, 0xfa, 0x21, 0x3d];
    let plain = b"Hello".to_vec();
    let mut p: Vec<u8> = plain.iter().enumerate().map(|(i, b)| b ^ mask[i & 3]).collect();
    unmask(&mut p, &mask);
    assert_eq!(p, plain);
}

#[test]
fn fragments_are_reassembled() {
    let mut a = Assembly::new();
    assert!(matches!(a.feed(false, 0x1, b"hel".to_vec()), Fed::More));
    assert!(matches!(a.feed(false, 0x0, b"l".to_vec()), Fed::More));
    // Control frames are answered at once, in the middle of a message.
    match a.feed(true, 0x9, b"p".to_vec()) {
        Fed::Done(Msg::Ping(p)) => assert_eq!(p, b"p"),
        _ => panic!("a ping was not answered"),
    }
    match a.feed(true, 0x0, b"o".to_vec()) {
        Fed::Done(Msg::Text(t)) => assert_eq!(t, "hello"),
        _ => panic!("the message was not completed"),
    }
    match a.feed(true, 0x2, vec![1, 2]) {
        Fed::Done(Msg::Binary(b)) => assert_eq!(b, vec![1, 2]),
        _ => panic!("a binary frame was not delivered"),
    }
    assert!(matches!(a.feed(true, 0x8, vec![]), Fed::Done(Msg::Close)));
    assert!(matches!(a.feed(true, 0xA, vec![]), Fed::Done(Msg::Pong(_))));
}

#[test]
fn protocol_errors_say_what_went_wrong() {
    let bad = |f: Fed| match f {
        Fed::Bad(m) => m,
        _ => panic!("expected a protocol error"),
    };
    let mut a = Assembly::new();
    assert_eq!(bad(a.feed(true, 0x0, vec![1])), "continuation without a start frame");
    assert_eq!(bad(a.feed(true, 0x3, vec![])), "unknown opcode 0x3");
    assert_eq!(bad(a.feed(true, 0xB, vec![])), "unknown opcode 0xb");
    assert_eq!(bad(a.feed(true, 0x1, vec![0xff, 0xfe])), "text frame was not valid utf-8");
    let mut a = Assembly::new();
    assert!(matches!(a.feed(false, 0x2, vec![0; 8 << 20]), Fed::More));
    assert_eq!(bad(a.feed(false, 0x0, vec![0])), "reassembled message too large");
}

#[test]
fn the_driver_admits_only_what_the_pacing_allows() {
    let mut c = Control::new();
    assert_eq!(next_step(true, &c, false, true, true), Step::Stop);
    assert_eq!(next_step(false, &c, false, true, true), Step::Readouts);
    assert_eq!(next_step(false, &c, false, true, false), Step::Wait);
    c.running = true;
    assert_eq!(next_step(false, &c, false, true, false), Step::Admit);
    assert_eq!(next_step(false, &c, true, true, false), Step::Wait);
    c.record_round(false);
    assert_eq!(c.round, 1);
    assert_eq!(c.in_flight, 1);
    // Lockstep: the next round waits for the acknowledgment.
    assert_eq!(next_step(false, &c, false, true, false), Step::Wait);
    c.ack(1);
    assert_eq!(next_step(false, &c, false, true, false), Step::Admit);
    // A quiescent round stops the run.
    c.record_round(true);
    assert!(!c.running);
    assert_eq!(c.steps_owed, 0);
}

#[test]
fn a_step_admits_exactly_one_round() {
    let mut c = Control::new();
    c.pacing = Pacing::FreeRunning;
    c.step();
    assert!(c.wants_to_advance());
    c.record_round(false);
    assert!(!c.wants_to_advance());
    assert_eq!(c.in_flight, 1);
    c.play();
    assert!(c.wants_to_advance());
    c.pause();
    assert!(!c.running);
    c.clear();
    assert_eq!((c.round, c.in_flight, c.steps_owed), (0, 0, 0));
}

#[test]
fn driver_frames_are_written_exactly() {
    assert_eq!(
        round_frame(3, 4, Pacing::Lockstep, "[]", false, 1, 128, "{}"),
        "{\"t\":\"round\",\"round\":3,\"cores\":4,\"pacing\":\"lockstep\",\"steps\":[],\"quiescent\":false,\"ackRequired\":true,\"inFlight\":1,\"buffer\":1,\"scene\":{}}"
    );
    assert!(round_frame(3, 4, Pacing::FreeRunning, "[]", true, 2, 64, "{}").contains("\"buffer\":64"));
    assert_eq!(quiescent_frame(9), "{\"t\":\"quiescent\",\"round\":9}");
    assert_eq!(scene_frame(2, "{}"), "{\"t\":\"scene\",\"round\":2,\"scene\":{}}");
    assert_eq!(
        ready_frame("e2e-hello", false, 4),
        "{\"t\":\"ready\",\"wire\":1,\"session\":\"e2e-hello\",\"resumed\":false,\"coresMax\":4}"
    );
    let mut c = Control::new();
    c.pacing = Pacing::FreeRunning;
    c.buffer = 0;
    let r = Readouts {
        cores: 2,
        cores_max: 8,
        tick: 5,
        comms: 6,
        steps: 7,
        queued: 1,
        data: 2,
        waiting: 3,
        deploys: 1,
        quiescent: false,
        commits_per_sec: 12,
    };
    assert_eq!(
        stats_frame(&c, &r),
        "{\"t\":\"stats\",\"round\":0,\"tick\":5,\"pacing\":\"free-running\",\"running\":false,\"cores\":2,\"coresMax\":8,\"inFlight\":0,\"buffer\":1,\"admissionOpen\":true,\"commitsPerSec\":12,\"comms\":6,\"steps\":7,\"queued\":1,\"data\":2,\"waiting\":3,\"deploys\":1,\"quiescent\":false}"
    );
}

#[test]
fn what_the_codec_writes_it_reads_back() {
    for n in [0usize, 5, 125, 126, 300, 65535, 65536, 70000] {
        let f = encode_frame(0x2, &vec![9u8; n]);
        let h = parse_head(f[0], f[1]);
        assert!(h.fin && !h.masked);
        assert_eq!(h.opcode, 0x2);
        let k = ext_len_bytes(h.len7);
        assert_eq!(payload_len(h.len7, &f[2..2 + k]), n as u64);
        assert_eq!(f.len(), 2 + k + n);
    }
}

#[test]
fn each_message_has_one_action() {
    assert!(matches!(on_message(Msg::Close), ReadAction::Stop));
    assert!(matches!(on_message(Msg::Pong(vec![1])), ReadAction::Ignore));
    match on_message(Msg::Ping(vec![7, 8])) {
        ReadAction::Pong(p) => assert_eq!(p, vec![7, 8]),
        _ => panic!("a ping was not answered with its payload"),
    }
    match on_message(Msg::Binary(vec![1])) {
        ReadAction::Refuse(e) => assert_eq!(
            e,
            "{\"t\":\"error\",\"code\":\"binary\",\"message\":\"requests are text frames; this protocol has no binary form\"}"
        ),
        _ => panic!("a binary message was not refused"),
    }
    match on_message(Msg::Text("ping".to_string())) {
        ReadAction::Request(r) => assert_eq!(r, "ping"),
        _ => panic!("a text message was not a request"),
    }
}

#[test]
fn control_frames_are_answered_whatever_their_size() {
    let mut a = Assembly::new();
    assert!(matches!(a.feed(false, 0x8, vec![0; (8 << 20) + 1]), Fed::Done(Msg::Close)));
    match a.feed(false, 0x9, vec![0; (8 << 20) + 1]) {
        Fed::Done(Msg::Ping(p)) => assert_eq!(p.len(), (8 << 20) + 1),
        _ => panic!("a large ping was not answered"),
    }
}
