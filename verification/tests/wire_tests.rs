use protohackers::wire::{read_string, text_from_bytes, ClientMsg, ErrorMsg, Heartbeat, Ticket, WriteMsg};

fn bytes_of<M: WriteMsg>(m: &M) -> Vec<u8> {
    let mut out = Vec::new();
    m.write_to(&mut out);
    out
}

#[test]
fn heartbeat_is_one_byte() {
    assert_eq!(bytes_of(&Heartbeat), vec![0x41]);
}

#[test]
fn error_message_bytes() {
    let e = ErrorMsg { msg: "bad".to_string() };
    assert_eq!(bytes_of(&e), vec![0x10, 0x03, b'b', b'a', b'd']);
}

#[test]
fn ticket_bytes() {
    let t = Ticket {
        plate: "UN1X".to_string(),
        road: 66,
        mile1: 100,
        timestamp1: 123456,
        mile2: 110,
        timestamp2: 123816,
        speed: 10000,
    };
    assert_eq!(
        bytes_of(&t),
        vec![
            0x21, 0x04, 0x55, 0x4e, 0x31, 0x58, 0x00, 0x42, 0x00, 0x64, 0x00, 0x01, 0xe2, 0x40,
            0x00, 0x6e, 0x00, 0x01, 0xe3, 0xa8, 0x27, 0x10
        ]
    );
}

#[test]
fn string_write_appends_to_existing_bytes() {
    let mut out = vec![0xaa];
    "hi".to_string().write_to(&mut out);
    assert_eq!(out, vec![0xaa, 0x02, b'h', b'i']);
}

#[test]
fn long_string_length_byte_wraps() {
    let s = "x".repeat(300);
    let out = bytes_of(&s);
    assert_eq!(out.len(), 301);
    assert_eq!(out[0], 44);
}

#[test]
fn non_ascii_string_counts_bytes() {
    let s = "é".to_string();
    assert_eq!(bytes_of(&s), vec![0x02, 0xc3, 0xa9]);
}

#[test]
fn read_plate() {
    let b = [0x20, 0x04, 0x55, 0x4e, 0x31, 0x58, 0x00, 0x00, 0x03, 0xe8];
    match ClientMsg::read_from(&b) {
        Some((ClientMsg::Plate { id, timestamp }, n)) => {
            assert_eq!(id, "UN1X");
            assert_eq!(timestamp, 1000);
            assert_eq!(n, 10);
        }
        _ => panic!("expected a plate"),
    }
}

#[test]
fn read_want_heartbeat() {
    let b = [0x40, 0x00, 0x00, 0x04, 0xdb, 0xff];
    match ClientMsg::read_from(&b) {
        Some((ClientMsg::WantHeartBeat { interval }, n)) => {
            assert_eq!(interval, 1243);
            assert_eq!(n, 5);
        }
        _ => panic!("expected a heartbeat request"),
    }
}

#[test]
fn read_i_am_camera() {
    let b = [0x80, 0x00, 0x42, 0x00, 0x64, 0x00, 0x3c];
    match ClientMsg::read_from(&b) {
        Some((ClientMsg::IAmCamera { road, mile, limit }, n)) => {
            assert_eq!((road, mile, limit, n), (66, 100, 60, 7));
        }
        _ => panic!("expected a camera"),
    }
}

#[test]
fn read_i_am_dispatcher() {
    let b = [0x81, 0x03, 0x00, 0x42, 0x01, 0x70, 0x13, 0x88];
    match ClientMsg::read_from(&b) {
        Some((ClientMsg::IAmDispatcher { roads }, n)) => {
            assert_eq!(roads, vec![66, 368, 5000]);
            assert_eq!(n, 8);
        }
        _ => panic!("expected a dispatcher"),
    }
}

#[test]
fn unknown_type_is_one_byte_unknown_message() {
    let b = [0x99, 0x01, 0x02];
    assert!(matches!(ClientMsg::read_from(&b), Some((ClientMsg::UnknownMsg, 1))));
}

#[test]
fn incomplete_messages_need_more_bytes() {
    assert!(ClientMsg::read_from(&[]).is_none());
    assert!(ClientMsg::read_from(&[0x20, 0x04, 0x55]).is_none());
    assert!(ClientMsg::read_from(&[0x20, 0x01, 0x55, 0x00, 0x00, 0x00]).is_none());
    assert!(ClientMsg::read_from(&[0x40, 0x00]).is_none());
    assert!(ClientMsg::read_from(&[0x80, 0x00, 0x42, 0x00, 0x64, 0x00]).is_none());
    assert!(ClientMsg::read_from(&[0x81]).is_none());
    assert!(ClientMsg::read_from(&[0x81, 0x02, 0x00, 0x42, 0x01]).is_none());
}

#[test]
fn invalid_utf8_plate_is_replaced() {
    let b = [0x20, 0x02, 0x41, 0xff, 0x00, 0x00, 0x00, 0x01];
    match ClientMsg::read_from(&b) {
        Some((ClientMsg::Plate { id, timestamp }, n)) => {
            assert_eq!(id, "A\u{FFFD}");
            assert_eq!(timestamp, 1);
            assert_eq!(n, 8);
        }
        _ => panic!("expected a plate"),
    }
}

#[test]
fn string_roundtrip() {
    for s in ["", "UN1X", "héllo wörld", &"z".repeat(255)] {
        let mut out = Vec::new();
        s.to_string().write_to(&mut out);
        out.extend_from_slice(&[1, 2, 3]);
        let (back, n) = read_string(&out).expect("complete string");
        assert_eq!(back, s);
        assert_eq!(n, out.len() - 3);
    }
}

#[test]
fn decoding_ignores_trailing_bytes() {
    let b = vec![0x81, 0x01, 0x00, 0x07];
    let mut longer = b.clone();
    longer.extend_from_slice(&[0x40, 0x00]);
    match (ClientMsg::read_from(&b), ClientMsg::read_from(&longer)) {
        (Some((ClientMsg::IAmDispatcher { roads: r1 }, n1)), Some((ClientMsg::IAmDispatcher { roads: r2 }, n2))) => {
            assert_eq!(r1, r2);
            assert_eq!(n1, n2);
            assert_eq!(n1, 4);
        }
        _ => panic!("expected dispatchers"),
    }
}

#[test]
fn text_from_bytes_decodes_and_replaces_invalid_sequences() {
    assert_eq!(text_from_bytes("héllo\n".as_bytes()), "héllo\n");
    assert_eq!(text_from_bytes(&[0x61, 0xc3, 0x62]), "a\u{FFFD}b");
    assert_eq!(text_from_bytes(&[]), "");
}
