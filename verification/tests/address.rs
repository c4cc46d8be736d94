use maknuuner::address::{listen_address, parse_port, AddressError};

#[test]
fn ports_are_read_as_std_reads_them() {
    for s in ["", "+", "0", "80", "+3000", "65535", "65536", "99999999", "-1", "12a", " 1", "0080"] {
        assert_eq!(parse_port(s), s.parse::<u16>().ok(), "{s:?}");
    }
}

#[test]
fn defaults_and_given_values() {
    let a = listen_address(None, None).unwrap();
    assert_eq!(a.host, "127.0.0.1");
    assert_eq!(a.port, 3000);
    let a = listen_address(Some("0.0.0.0"), Some("8080")).unwrap();
    assert_eq!(a.host, "0.0.0.0");
    assert_eq!(a.port, 8080);
    assert!(matches!(listen_address(None, Some("http")), Err(AddressError::InvalidPort)));
}
