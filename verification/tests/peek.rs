use hickory_sni_proxy::client_hello::build_test_client_hello;
use hickory_sni_proxy::peek::ClientHelloPeek;
use hickory_sni_proxy::SniProxyError;

#[test]
fn hello_in_two_reads() {
    let hello = build_test_client_hello("Split.Example.com");
    let mut peek = ClientHelloPeek::new();
    assert!(peek.check_capacity().is_ok());
    assert!(peek.feed(&hello[..10]).unwrap().is_none());
    assert!(peek.check_capacity().is_ok());
    let sni = peek.feed(&hello[10..]).unwrap().unwrap();
    assert_eq!(sni, "split.example.com");
    assert_eq!(peek.buffered(), &hello[..]);
    assert_eq!(peek.into_buffer(), hello);
}

#[test]
fn empty_read_means_closed() {
    let mut peek = ClientHelloPeek::new();
    peek.feed(&[0x16, 0x03]).unwrap_err();
    let mut peek = ClientHelloPeek::new();
    match peek.feed(&[]) {
        Err(SniProxyError::ClientHello(m)) => assert_eq!(m, "connection closed before ClientHello"),
        other => panic!("unexpected {:?}", other),
    }
    assert!(peek.buffered().is_empty());
}

#[test]
fn full_buffer_is_given_up() {
    let mut peek = ClientHelloPeek::new();
    assert_eq!(peek.room(), 16384);
    // a record header announcing more than 16 KiB, then filler
    let mut first = vec![0x16, 0x03, 0x01, 0xff, 0xff];
    first.extend(vec![0u8; 16378]);
    assert!(peek.feed(&first).unwrap().is_none());
    assert!(peek.check_capacity().is_ok());
    assert_eq!(peek.room(), 1);
    assert!(peek.feed(&[0u8]).unwrap().is_none());
    assert_eq!(peek.room(), 0);
    match peek.check_capacity() {
        Err(SniProxyError::ClientHello(m)) => assert_eq!(m, "ClientHello exceeded 16384 bytes"),
        other => panic!("unexpected {:?}", other),
    }
}

#[test]
fn chunk_past_the_limit_is_refused() {
    let mut peek = ClientHelloPeek::new();
    let mut first = vec![0x16, 0x03, 0x01, 0x3f, 0xfa];
    first.extend(vec![0u8; 16378]);
    assert!(peek.feed(&first).unwrap().is_none());
    let hello = build_test_client_hello("a.b");
    match peek.feed(&hello) {
        Err(SniProxyError::ClientHello(m)) => assert_eq!(m, "ClientHello exceeded 16384 bytes"),
        other => panic!("unexpected {:?}", other),
    }
    assert_eq!(peek.buffered().len(), 16383);
    assert!(peek.buffered().len() <= 16384);
}
