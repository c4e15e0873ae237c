use connect_proxy::http::{parse_head, ParseError, ParseHeadResult};

#[test]
fn test_empty() {
    assert_eq!(parse_head(b""), ParseHeadResult::Incomplete);
}

#[test]
fn test_prefix() {
    assert_eq!(parse_head(b"CONNECT foo."), ParseHeadResult::Incomplete);
}

#[test]
fn test_bad_prefix() {
    assert!(matches!(parse_head(b"GET"), ParseHeadResult::Malformed(_)));
}

#[test]
fn test_bad_port_too_large() {
    assert!(matches!(
        parse_head(b"CONNECT foo.com:9999999 HTTP/1.1\r\n\r\n"),
        ParseHeadResult::Malformed(_)
    ));
}

#[test]
fn test_bad_invalid_hostname() {
    assert!(matches!(
        parse_head(b"CONNECT fo/o.c/om:10 HTTP/1.1\r\n\r\n"),
        ParseHeadResult::Malformed(_)
    ));
}

#[test]
fn test_good_no_headers() {
    assert_eq!(
        parse_head(b"CONNECT foo.com:1234 HTTP/1.1\r\n\r\n"),
        ParseHeadResult::Connect {
            host: "foo.com".to_owned(),
            port: 1234u16
        }
    );
}

#[test]
fn test_good_headers() {
    assert_eq!(
        parse_head(b"CONNECT foo.com:1234 HTTP/1.1\r\nProxy-Connection: Keep-Alive\r\n\r\n"),
        ParseHeadResult::Connect {
            host: "foo.com".to_owned(),
            port: 1234u16
        }
    );
}

#[test]
fn test_extra_chars() {
    assert!(matches!(
        parse_head(b"CONNECT foo.com:1234 HTTP/1.1\r\n\r\nUHOH"),
        ParseHeadResult::Malformed(_)
    ));
}

#[test]
fn every_proper_prefix_is_incomplete() {
    let full: &[u8] = b"CONNECT foo.com:1234 HTTP/1.1\r\nProxy-Connection: Keep-Alive\r\n\r\n";
    for k in 0..full.len() {
        assert_eq!(parse_head(&full[..k]), ParseHeadResult::Incomplete);
    }
    assert_eq!(
        parse_head(full),
        ParseHeadResult::Connect {
            host: "foo.com".to_owned(),
            port: 1234u16
        }
    );
}

#[test]
fn rejects_get_request() {
    assert!(matches!(
        parse_head(b"GET / HTTP/1.1\r\n\r\n"),
        ParseHeadResult::Malformed(ParseError::BadMethod)
    ));
}

#[test]
fn port_upper_bound_is_exact() {
    assert_eq!(
        parse_head(b"CONNECT foo.com:65535 HTTP/1.1\r\n\r\n"),
        ParseHeadResult::Connect {
            host: "foo.com".to_owned(),
            port: 65535u16
        }
    );
    assert!(matches!(
        parse_head(b"CONNECT foo.com:65536 HTTP/1.1\r\n\r\n"),
        ParseHeadResult::Malformed(ParseError::PortOutOfRange)
    ));
}

#[test]
fn port_zero_is_accepted() {
    assert_eq!(
        parse_head(b"CONNECT foo.com:0 HTTP/1.1\r\n\r\n"),
        ParseHeadResult::Connect {
            host: "foo.com".to_owned(),
            port: 0u16
        }
    );
}

#[test]
fn rejects_empty_hostname() {
    assert!(matches!(
        parse_head(b"CONNECT :80 HTTP/1.1\r\n\r\n"),
        ParseHeadResult::Malformed(ParseError::BadHost)
    ));
}

#[test]
fn rejects_empty_port() {
    assert!(matches!(
        parse_head(b"CONNECT foo.com: HTTP/1.1\r\n\r\n"),
        ParseHeadResult::Malformed(ParseError::BadPort)
    ));
}

#[test]
fn rejects_wrong_version() {
    assert!(matches!(
        parse_head(b"CONNECT foo.com:80 HTTP/1.0\r\n\r\n"),
        ParseHeadResult::Malformed(ParseError::BadVersion)
    ));
}

#[test]
fn rejects_bare_cr_inside_headers() {
    assert!(matches!(
        parse_head(b"CONNECT foo.com:80 HTTP/1.1\r\nA\rB\r\n\r\n"),
        ParseHeadResult::Malformed(ParseError::BadHeader)
    ));
}

#[test]
fn rejects_bare_lf_at_header_start() {
    assert!(matches!(
        parse_head(b"CONNECT foo.com:80 HTTP/1.1\r\n\n"),
        ParseHeadResult::Malformed(ParseError::BadHeader)
    ));
}

#[test]
fn trailing_bytes_are_named_as_such() {
    assert!(matches!(
        parse_head(b"CONNECT foo.com:1234 HTTP/1.1\r\n\r\nUHOH"),
        ParseHeadResult::Malformed(ParseError::ExtraBytes)
    ));
}

#[test]
fn malformed_outcomes_never_compare_equal() {
    assert_ne!(parse_head(b"GET"), parse_head(b"GET"));
}
