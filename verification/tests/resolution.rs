use everscale_address_resolver::resolution::{
    endpoint_from_display, EndpointError, Resolution, ResolvedAddress,
};
use everscale_address_resolver::sweep::{resolution_of, search_result, Lookup, Search};

fn address(ip: &str, port: i32) -> ResolvedAddress {
    ResolvedAddress { ip: ip.to_owned(), port, version: "udp4".to_owned() }
}

#[test]
fn endpoint_is_cut_at_the_last_colon() {
    let read = endpoint_from_display("10.0.0.1:30303").unwrap();
    assert_eq!(read.ip, "10.0.0.1");
    assert_eq!(read.port, 30303);
    assert_eq!(read.version, "udp4");
    let read = endpoint_from_display("::1:80").unwrap();
    assert_eq!(read.ip, "::1");
    assert_eq!(read.port, 80);
    let read = endpoint_from_display(":1").unwrap();
    assert_eq!(read.ip, "");
}

#[test]
fn endpoint_without_port_is_refused() {
    for value in ["", "10.0.0.1", "host"] {
        let error = endpoint_from_display(value).err().unwrap();
        assert_eq!(error, EndpointError::WithoutPort);
        assert_eq!(error.message(value), format!("DHT returned address without port: {value}"));
    }
}

#[test]
fn endpoint_port_agrees_with_std() {
    for port in [
        "0", "1", "00080", "+80", "-80", "-0", "2147483647", "2147483648", "-2147483648",
        "-2147483649", "99999999999999999999", "", "+", "-", "+-1", "8 0", "80x", "x", "\u{e9}",
        "-00000000000000000000002147483648",
    ] {
        let value = format!("1.2.3.4:{port}");
        match (endpoint_from_display(&value), port.parse::<i32>()) {
            (Ok(read), Ok(expected)) => assert_eq!(read.port, expected),
            (Err(error), Err(_)) => {
                assert_eq!(error, EndpointError::InvalidPort);
                assert_eq!(
                    error.message(&value),
                    format!("DHT returned invalid port in {value}")
                );
            }
            _ => panic!("port {port:?}"),
        }
    }
}

#[test]
fn printed_endpoint_is_read_back() {
    for (ip, port) in [("1.2.3.4", 0), ("fe80::1", 65535), ("", i32::MAX)] {
        let read = endpoint_from_display(&format!("{ip}:{port}")).unwrap();
        assert_eq!((read.ip.as_str(), read.port), (ip, port));
    }
}

#[test]
fn printed_negative_port_is_read_back() {
    for (ip, port) in [("1.2.3.4", -1), ("fe80::1", -65535), ("", i32::MIN)] {
        let read = endpoint_from_display(&format!("{ip}:{port}")).unwrap();
        assert_eq!((read.ip.as_str(), read.port), (ip, port));
    }
}

#[test]
fn resolutions() {
    let found = Resolution::resolved(address("1.2.3.4", 5));
    assert_eq!(found.status, "resolved");
    assert_eq!(found.addresses.len(), 1);
    assert_eq!(found.addresses[0].ip, "1.2.3.4");
    assert_eq!(found.error, None);
    assert!(found.is_resolved());

    let failed = Resolution::failed("boom".to_owned());
    assert_eq!(failed.status, "failed");
    assert_eq!(failed.error.as_deref(), Some("boom"));
    assert!(failed.addresses.is_empty());
    assert!(!failed.is_resolved());

    let missing = Resolution::missing_adnl();
    assert_eq!(missing.status, "missing_adnl");
    assert_eq!(missing.error.as_deref(), Some("validator has no adnl_addr in active set"));
    assert!(!missing.is_resolved());

    let invalid = Resolution::invalid_adnl("xyz");
    assert_eq!(invalid.status, "invalid_adnl");
    assert_eq!(invalid.error.as_deref(), Some("adnl_addr must be 32 bytes hex, got xyz"));
    assert!(!invalid.is_resolved());
}

#[test]
fn resolved_without_addresses_is_not_resolved() {
    let odd = Resolution { status: "resolved".to_owned(), addresses: vec![], error: None };
    assert!(!odd.is_resolved());
}

#[test]
fn lookups_become_resolutions() {
    assert!(resolution_of(Lookup::Found(address("1.1.1.1", 1)), 30).is_resolved());
    let failed = resolution_of(Lookup::Failed("no".to_owned()), 30);
    assert_eq!(failed.error.as_deref(), Some("no"));
    let late = resolution_of(Lookup::TimedOut, 30);
    assert_eq!(late.status, "failed");
    assert_eq!(late.error.as_deref(), Some("lookup timed out after 30s"));
}

#[test]
fn search_replies_are_read() {
    assert!(matches!(search_result(Ok(None)), Search::Missing));
    match search_result(Err("down".to_owned())) {
        Search::Failed(error) => assert_eq!(error, "down"),
        _ => panic!("expected an error"),
    }
    match search_result(Ok(Some("9.8.7.6:54".to_owned()))) {
        Search::Found(found) => assert_eq!((found.ip.as_str(), found.port), ("9.8.7.6", 54)),
        _ => panic!("expected an address"),
    }
    match search_result(Ok(Some("9.8.7.6".to_owned()))) {
        Search::Failed(error) => {
            assert_eq!(error, "DHT returned address without port: 9.8.7.6")
        }
        _ => panic!("expected an error"),
    }
    match search_result(Ok(Some("9.8.7.6:p".to_owned()))) {
        Search::Failed(error) => assert_eq!(error, "DHT returned invalid port in 9.8.7.6:p"),
        _ => panic!("expected an error"),
    }
}
