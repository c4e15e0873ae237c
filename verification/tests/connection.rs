use connect_proxy::connection::{
    handshake_response, relay_step, HeadProgress, HeadReader, ProxyError, RelayAction,
    MAX_HEAD_SIZE,
};

#[test]
fn head_reader_accepts_fragmented_input() {
    let mut reader = HeadReader::new();
    assert!(matches!(reader.feed(b"CONNECT foo"), HeadProgress::NeedMore));
    assert!(matches!(reader.feed(b".com:12"), HeadProgress::NeedMore));
    match reader.feed(b"34 HTTP/1.1\r\n\r\n") {
        HeadProgress::Complete { host, port } => {
            assert_eq!(host, "foo.com");
            assert_eq!(port, 1234u16);
        }
        other => panic!("expected a complete head, got {:?}", other),
    }
}

#[test]
fn head_reader_is_split_insensitive() {
    let full: &[u8] = b"CONNECT foo.com:1234 HTTP/1.1\r\n\r\n";
    for k in 0..full.len() {
        let mut reader = HeadReader::new();
        assert!(matches!(reader.feed(&full[..k]), HeadProgress::NeedMore));
        match reader.feed(&full[k..]) {
            HeadProgress::Complete { host, port } => {
                assert_eq!(host, "foo.com");
                assert_eq!(port, 1234u16);
            }
            other => panic!("expected a complete head, got {:?}", other),
        }
    }
}

#[test]
fn head_reader_reports_malformed_input() {
    let mut reader = HeadReader::new();
    match reader.feed(b"GET / HTTP/1.1\r\n\r\n") {
        HeadProgress::Failed(ProxyError::MalformedHead(_)) => {}
        other => panic!("expected a malformed head, got {:?}", other),
    }
}

#[test]
fn head_reader_rejects_oversized_head() {
    let mut reader = HeadReader::new();
    assert!(matches!(reader.feed(b"CONNECT "), HeadProgress::NeedMore));
    let filler = vec![b'a'; MAX_HEAD_SIZE - 8];
    match reader.feed(&filler) {
        HeadProgress::Failed(ProxyError::OversizedHead) => {}
        other => panic!("expected an oversized head, got {:?}", other),
    }
}

#[test]
fn head_reader_tracks_space_left() {
    let mut reader = HeadReader::new();
    assert_eq!(reader.space_left(), MAX_HEAD_SIZE);
    assert!(matches!(reader.feed(b"CONNECT "), HeadProgress::NeedMore));
    assert_eq!(reader.space_left(), MAX_HEAD_SIZE - 8);
}

#[test]
fn handshake_response_is_byte_exact() {
    assert_eq!(handshake_response(), b"HTTP/1.1 200 OK\r\n\r\n".to_vec());
}

#[test]
fn relay_forwards_read_bytes_in_order() {
    let buf: &[u8] = b"Hello, Internet!";
    match relay_step(buf, 5) {
        RelayAction::Forward(data) => assert_eq!(data, b"Hello".to_vec()),
        RelayAction::HalfClose => panic!("expected the bytes to be forwarded"),
    }
}

#[test]
fn relay_half_closes_on_eof() {
    let buf: &[u8] = b"Hello, Internet!";
    assert!(matches!(relay_step(buf, 0), RelayAction::HalfClose));
}
