use hickory_sni_proxy::client_hello::{
    build_test_client_hello, extract_sni_from_buffer, sni_from_utf8, MAX_CLIENT_HELLO_BYTES,
};
use hickory_sni_proxy::SniProxyError;

#[test]
fn extracts_sni_from_client_hello() {
    let buf = build_test_client_hello("api.example.com");
    let sni = extract_sni_from_buffer(&buf).unwrap().unwrap();
    assert_eq!(sni, "api.example.com");
}

#[test]
fn returns_none_when_buffer_incomplete() {
    let buf = build_test_client_hello("login.example.com");
    let partial = &buf[..buf.len() - 4];
    assert!(extract_sni_from_buffer(partial).unwrap().is_none());
}

#[test]
fn normalizes_sni_to_lowercase() {
    let buf = build_test_client_hello("API.Example.COM");
    let sni = extract_sni_from_buffer(&buf).unwrap().unwrap();
    assert_eq!(sni, "api.example.com");
}

fn client_hello_error(res: Result<Option<String>, SniProxyError>) -> String {
    match res {
        Err(SniProxyError::ClientHello(msg)) => msg,
        other => panic!("expected a ClientHello error, got {:?}", other),
    }
}

#[test]
fn test_client_hello_layout() {
    let buf = build_test_client_hello("a.b");
    let expected: Vec<u8> = vec![
        0x16, 0x03, 0x01, 0x00, 0x3b, // record header, 59 bytes
        0x01, 0x00, 0x00, 0x37, // ClientHello, 55 bytes
        0x03, 0x03, 0, 0, 0, 0, 0, 0, 0, 0, 0, 0, 0, 0, 0, 0, 0, 0, 0, 0, 0, 0, 0, 0, 0, 0, 0,
        0, 0, 0, 0, 0, 0, 0, // version and random
        0x00, // session id
        0x00, 0x02, 0x00, 0xff, // cipher suites
        0x01, 0x00, // compression
        0x00, 0x0c, // extensions, 12 bytes
        0x00, 0x00, 0x00, 0x08, // server_name, 8 bytes
        0x00, 0x06, 0x00, 0x00, 0x03, b'a', b'.', b'b',
    ];
    assert_eq!(buf, expected);
}

#[test]
fn round_trip_keeps_non_ascii_letters() {
    let buf = build_test_client_hello("Bücher.Example");
    let sni = extract_sni_from_buffer(&buf).unwrap().unwrap();
    assert_eq!(sni, "bücher.example");
}

#[test]
fn round_trip_at_the_longest_host_name() {
    let host = "h".repeat(65479);
    let buf = build_test_client_hello(&host);
    assert_eq!(buf.len(), 5 + 65535);
    assert_eq!(extract_sni_from_buffer(&buf).unwrap().unwrap(), host);
}

#[test]
fn every_incomplete_prefix_waits() {
    let buf = build_test_client_hello("www.example.org");
    for k in 5..buf.len() {
        assert!(extract_sni_from_buffer(&buf[..k]).unwrap().is_none(), "prefix {k}");
    }
}

#[test]
fn short_header_is_an_error() {
    let buf = build_test_client_hello("www.example.org");
    for k in 1..5 {
        let msg = client_hello_error(extract_sni_from_buffer(&buf[..k]));
        assert_eq!(msg, "truncated TLS record header");
    }
    // also after complete records
    let mut two = buf.clone();
    two.extend_from_slice(&[0x16, 0x03]);
    assert_eq!(extract_sni_from_buffer(&two).unwrap().unwrap(), "www.example.org");
    let mut empty_then_cut = vec![0x16, 0x03, 0x01, 0x00, 0x00];
    empty_then_cut.extend_from_slice(&[0x16, 0x03, 0x01]);
    let msg = client_hello_error(extract_sni_from_buffer(&empty_then_cut));
    assert_eq!(msg, "truncated TLS record header");
}

fn record(payload: &[u8]) -> Vec<u8> {
    let mut r = vec![0x16, 0x03, 0x01, (payload.len() >> 8) as u8, payload.len() as u8];
    r.extend_from_slice(payload);
    r
}

#[test]
fn client_hello_split_over_two_records() {
    let h = build_test_client_hello("api.example.com");
    let mut buf = vec![0x16, 0x03, 0x01, 0x00, 0x04];
    buf.extend_from_slice(&h[5..9]);
    buf.extend_from_slice(&[0x16, 0x03, 0x01, 0x00, 0x43]);
    buf.extend_from_slice(&h[9..]);
    assert_eq!(extract_sni_from_buffer(&buf).unwrap().unwrap(), "api.example.com");
}

#[test]
fn client_hello_split_at_every_point() {
    let h = build_test_client_hello("Split.Example.org");
    let hs = &h[5..];
    for j in 0..=hs.len() {
        let mut buf = record(&hs[..j]);
        buf.extend_from_slice(&record(&hs[j..]));
        assert_eq!(extract_sni_from_buffer(&buf).unwrap().unwrap(), "split.example.org", "split {j}");
    }
}

#[test]
fn client_hello_in_one_byte_records() {
    let h = build_test_client_hello("tiny.example");
    let mut buf = Vec::new();
    for b in &h[5..] {
        buf.extend_from_slice(&record(&[*b]));
    }
    assert_eq!(extract_sni_from_buffer(&buf).unwrap().unwrap(), "tiny.example");
    // until the last fragment has arrived there is nothing to route on
    assert!(extract_sni_from_buffer(&buf[..buf.len() - 6]).unwrap().is_none());
}

#[test]
fn found_name_is_stable_when_bytes_follow() {
    let mut buf = build_test_client_hello("stable.example");
    buf.extend_from_slice(&[0x17, 0x03, 0x03, 0x00, 0x01, 0xaa]);
    assert_eq!(extract_sni_from_buffer(&buf).unwrap().unwrap(), "stable.example");
    let mut bad = vec![0x15, 0x03, 0x01, 0x00, 0x00];
    bad.extend_from_slice(&build_test_client_hello("x.example"));
    let msg = client_hello_error(extract_sni_from_buffer(&bad));
    assert_eq!(msg, "expected TLS handshake record (0x16), got 0x15");
}

#[test]
fn empty_buffer_waits() {
    assert!(extract_sni_from_buffer(&[]).unwrap().is_none());
}

#[test]
fn non_handshake_record_is_rejected() {
    let msg = client_hello_error(extract_sni_from_buffer(&[0x17, 0x03, 0x03, 0x00, 0x00]));
    assert_eq!(msg, "expected TLS handshake record (0x16), got 0x17");
    let msg = client_hello_error(extract_sni_from_buffer(&[0x0a, 0x03, 0x03, 0x00, 0x00]));
    assert_eq!(msg, "expected TLS handshake record (0x16), got 0x0a");
}

#[test]
fn second_record_is_checked_after_an_empty_first() {
    let mut buf = vec![0x16, 0x03, 0x01, 0x00, 0x00];
    buf.extend_from_slice(&build_test_client_hello("two.example"));
    assert_eq!(extract_sni_from_buffer(&buf).unwrap().unwrap(), "two.example");
    let mut bad = vec![0x16, 0x03, 0x01, 0x00, 0x00];
    bad.extend_from_slice(&[0x15, 0x03, 0x01, 0x00, 0x00]);
    let msg = client_hello_error(extract_sni_from_buffer(&bad));
    assert_eq!(msg, "expected TLS handshake record (0x16), got 0x15");
}

#[test]
fn other_handshake_messages_are_skipped() {
    let hello = build_test_client_hello("skip.example");
    // a record with a ServerHello-typed message of length 0 before the ClientHello
    let inner = &hello[5..];
    let mut payload = vec![0x02, 0x00, 0x00, 0x00];
    payload.extend_from_slice(inner);
    let mut buf = vec![0x16, 0x03, 0x01, (payload.len() >> 8) as u8, payload.len() as u8];
    buf.extend_from_slice(&payload);
    assert_eq!(extract_sni_from_buffer(&buf).unwrap().unwrap(), "skip.example");
}

#[test]
fn invalid_utf8_host_name_is_an_error() {
    let mut buf = build_test_client_hello("abc");
    let n = buf.len();
    buf[n - 2] = 0xff;
    let msg = client_hello_error(extract_sni_from_buffer(&buf));
    assert_eq!(msg, "invalid SNI UTF-8: invalid utf-8 sequence of 1 bytes from index 1");
}

#[test]
fn sni_from_utf8_lowercases_and_quotes_errors() {
    assert_eq!(sni_from_utf8(Ok("MiXeD.Case")).unwrap().unwrap(), "mixed.case");
    match sni_from_utf8(Err("bad bytes".to_string())) {
        Err(SniProxyError::ClientHello(m)) => assert_eq!(m, "invalid SNI UTF-8: bad bytes"),
        other => panic!("unexpected {:?}", other),
    }
}

#[test]
fn hello_without_server_name_gives_none() {
    let mut buf = build_test_client_hello("abc");
    // the extension type is 16 bytes before the end: make it a different extension
    let n = buf.len();
    let ext_type_at = n - 3 - 3 - 2 - 2 - 2;
    assert_eq!(&buf[ext_type_at..ext_type_at + 2], &[0x00, 0x00]);
    buf[ext_type_at + 1] = 0x10;
    assert!(extract_sni_from_buffer(&buf).unwrap().is_none());
}

#[test]
fn short_client_hello_body_gives_none() {
    // a ClientHello message whose body has only 34 bytes
    let mut buf = vec![0x16, 0x03, 0x01, 0x00, 38, 0x01, 0x00, 0x00, 34];
    buf.extend_from_slice(&[0u8; 34]);
    assert!(extract_sni_from_buffer(&buf).unwrap().is_none());
}

#[test]
fn max_client_hello_bytes_is_16_kib() {
    assert_eq!(MAX_CLIENT_HELLO_BYTES, 16384);
}

#[test]
fn ascii_lowercase_keeps_other_characters() {
    assert_eq!(
        hickory_sni_proxy::text::to_ascii_lowercase("AZaz09-ÄÖ.Ü"),
        "azaz09-ÄÖ.Ü"
    );
    assert_eq!(hickory_sni_proxy::text::to_ascii_lowercase(""), "");
}
