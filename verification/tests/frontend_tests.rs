use ii_delegation::frontend::{check_frontend_length, is_dev_frontend};
use ii_delegation::ipv4::{is_local_ipv4_host, parse_ipv4};
use ii_delegation::types::DelegationError;

fn dev(origin: &str) -> bool {
    is_dev_frontend(&origin.to_string())
}

#[test]
fn insecure_origins_are_dev() {
    assert!(dev("http://anything"));
    assert!(dev("http://example.com"));
    assert!(dev("http://"));
}

#[test]
fn localhost_origins_are_dev() {
    assert!(dev("https://localhost:8000"));
    assert!(dev("https://localhost"));
    assert!(dev("https://app.localhost.example.com"));
    assert!(dev("localhost"));
}

#[test]
fn local_addresses_are_dev() {
    assert!(dev("https://127.0.0.1"));
    assert!(dev("https://127.0.0.1:4943"));
    assert!(dev("https://127.255.255.255"));
    assert!(dev("https://10.0.0.1"));
    assert!(dev("https://10.1.2.3:8080"));
    assert!(dev("https://172.16.0.1"));
    assert!(dev("https://172.31.255.255"));
    assert!(dev("https://192.168.1.1"));
}

#[test]
fn production_origins_are_not_dev() {
    assert!(!dev("https://example.com"));
    assert!(!dev("https://identity.ic0.app"));
    assert!(!dev("https://8.8.8.8"));
    assert!(!dev("https://172.15.0.1"));
    assert!(!dev("https://172.32.0.1"));
    assert!(!dev("https://192.169.1.1"));
    assert!(!dev("https://11.0.0.1"));
    assert!(!dev("https://128.0.0.1"));
    assert!(!dev(""));
    assert!(!dev("https://"));
    assert!(!dev("ftp://127.0.0.1"));
    assert!(!dev("127.0.0.1"));
}

#[test]
fn what_is_no_address_in_canonical_notation_is_not_dev() {
    assert!(!dev("https://127.0.0.01"));
    assert!(!dev("https://127.0.0"));
    assert!(!dev("https://127.0.0.1.1"));
    assert!(!dev("https://127.0.0.1/path"));
    assert!(!dev("https://127.0.0.256"));
    assert!(!dev("https://127.0.0.1 "));
    assert!(!dev("https://010.0.0.1"));
    assert!(!dev("https://10.0.0.1.example.com"));
}

#[test]
fn a_host_ends_at_the_first_colon() {
    assert!(dev("https://10.0.0.1:not-a-port:at-all"));
    assert!(!dev("https://[::1]"));
    assert!(!dev("https://::1"));
    assert!(!dev("https://example.com:127.0.0.1"));
}

#[test]
fn parse_ipv4_reads_canonical_addresses() {
    assert_eq!(parse_ipv4(b"0.0.0.0"), Some((0, 0, 0, 0)));
    assert_eq!(parse_ipv4(b"1.2.3.4"), Some((1, 2, 3, 4)));
    assert_eq!(parse_ipv4(b"255.255.255.255"), Some((255, 255, 255, 255)));
    assert_eq!(parse_ipv4(b"192.168.10.100"), Some((192, 168, 10, 100)));
}

#[test]
fn parse_ipv4_rejects_everything_else() {
    assert_eq!(parse_ipv4(b""), None);
    assert_eq!(parse_ipv4(b"1.2.3"), None);
    assert_eq!(parse_ipv4(b"1.2.3.4.5"), None);
    assert_eq!(parse_ipv4(b"1.2.3."), None);
    assert_eq!(parse_ipv4(b".1.2.3"), None);
    assert_eq!(parse_ipv4(b"1..2.3"), None);
    assert_eq!(parse_ipv4(b"256.1.1.1"), None);
    assert_eq!(parse_ipv4(b"1.1.1.256"), None);
    assert_eq!(parse_ipv4(b"01.1.1.1"), None);
    assert_eq!(parse_ipv4(b"1.1.1.00"), None);
    assert_eq!(parse_ipv4(b"1.1.1.1000"), None);
    assert_eq!(parse_ipv4(b"99999.1.1.1"), None);
    assert_eq!(parse_ipv4(b"1.1.1.1a"), None);
    assert_eq!(parse_ipv4(b"a.1.1.1"), None);
    assert_eq!(parse_ipv4(b"1.1.1.-1"), None);
    assert_eq!(parse_ipv4(b"+1.1.1.1"), None);
    assert_eq!(parse_ipv4(b" 1.1.1.1"), None);
    assert_eq!(parse_ipv4(b"example.com"), None);
}

#[test]
fn parse_ipv4_reads_every_first_and_last_number() {
    for n in 0..=255u8 {
        let text = format!("{}.7.8.{}", n, n);
        assert_eq!(parse_ipv4(text.as_bytes()), Some((n, 7, 8, n)));
    }
}

#[test]
fn local_hosts_are_private_or_loopback_addresses() {
    assert!(is_local_ipv4_host(b"10.255.0.9"));
    assert!(is_local_ipv4_host(b"172.20.1.1"));
    assert!(is_local_ipv4_host(b"192.168.0.0"));
    assert!(is_local_ipv4_host(b"127.1.2.3"));
    assert!(!is_local_ipv4_host(b"1.1.1.1"));
    assert!(!is_local_ipv4_host(b"192.167.0.0"));
    assert!(!is_local_ipv4_host(b"localhost"));
}

#[test]
fn frontends_up_to_255_bytes_are_accepted() {
    assert_eq!(check_frontend_length(&String::new()), Ok(()));
    assert_eq!(check_frontend_length(&"https://example.com".to_string()), Ok(()));
    assert_eq!(check_frontend_length(&"a".repeat(255)), Ok(()));
}

#[test]
fn longer_frontends_are_rejected_with_their_length() {
    assert_eq!(
        check_frontend_length(&"a".repeat(256)),
        Err(DelegationError::FrontendTooLong { length: 256, limit: 255 })
    );
    assert_eq!(
        check_frontend_length(&"a".repeat(1000)),
        Err(DelegationError::FrontendTooLong { length: 1000, limit: 255 })
    );
}

#[test]
fn the_length_of_a_frontend_is_counted_in_bytes() {
    let mut origin = "a".repeat(254);
    origin.push('é');
    assert_eq!(origin.chars().count(), 255);
    assert_eq!(
        check_frontend_length(&origin),
        Err(DelegationError::FrontendTooLong { length: 256, limit: 255 })
    );
}

#[test]
fn a_rejection_names_the_length_and_the_limit() {
    let error = check_frontend_length(&"a".repeat(256)).unwrap_err();
    assert_eq!(error.message(), "frontend hostname 256 exceeds the limit of 255 bytes");
    let error = DelegationError::FrontendTooLong { length: 1000, limit: 255 };
    assert_eq!(error.message(), "frontend hostname 1000 exceeds the limit of 255 bytes");
    let error = DelegationError::FrontendTooLong { length: 0, limit: usize::MAX };
    assert_eq!(
        error.message(),
        format!("frontend hostname 0 exceeds the limit of {} bytes", usize::MAX)
    );
}

#[test]
fn a_missing_capacity_has_its_own_message() {
    assert_eq!(
        DelegationError::OriginCapacityNotSet.message(),
        "the maximum number of latest delegation origins is not set"
    );
}
