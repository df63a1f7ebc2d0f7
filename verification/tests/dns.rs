use blockcheckw::error::BlockcheckError;
use blockcheckw::network::dns::{after_getent, getent_addresses, is_ipv4, nslookup_addresses, resolution, LookupStep};

#[test]
fn test_is_ipv4_valid() {
    assert!(is_ipv4("192.168.1.1"));
    assert!(is_ipv4("0.0.0.0"));
    assert!(is_ipv4("255.255.255.255"));
    assert!(is_ipv4("1.2.3.4"));
    assert!(is_ipv4("172.67.182.217"));
}

#[test]
fn test_is_ipv4_invalid() {
    assert!(!is_ipv4("256.1.1.1"));
    assert!(!is_ipv4("1.2.3"));
    assert!(!is_ipv4("1.2.3.4.5"));
    assert!(!is_ipv4(""));
    assert!(!is_ipv4("abc.def.ghi.jkl"));
    assert!(!is_ipv4("192.168.1"));
    assert!(!is_ipv4("1.2.3."));
    assert!(!is_ipv4(".1.2.3"));
    assert!(!is_ipv4("rutracker.org"));
    assert!(!is_ipv4("STREAM"));
}

#[test]
fn is_ipv4_follows_u8_parsing() {
    // `u8::from_str` takes a leading plus sign and leading zeros.
    assert!(is_ipv4("+1.2.3.4"));
    assert!(is_ipv4("001.2.3.4"));
    assert!(!is_ipv4("-1.2.3.4"));
    assert!(!is_ipv4(" 1.2.3.4"));
}

fn sorted(mut v: Vec<String>) -> Vec<String> {
    v.sort();
    v
}

#[test]
fn getent_output_is_read_per_line() {
    let out = "172.67.182.217  STREAM rutracker.org\n172.67.182.217  DGRAM\n104.21.32.39    STREAM\nbogus line\n";
    let ips = getent_addresses(0, out).unwrap();
    assert_eq!(sorted(ips), vec!["104.21.32.39", "172.67.182.217"]);
    assert!(getent_addresses(2, out).is_none());
    assert_eq!(getent_addresses(0, "").unwrap().len(), 0);
}

#[test]
fn nslookup_output_is_read_after_name() {
    let out = "Server:\t\t127.0.0.53\nAddress:\t127.0.0.53#53\n\nNon-authoritative answer:\nName:\trutracker.org\nAddress: 104.21.32.39\nName:\trutracker.org\nAddress: 172.67.182.217\n";
    let ips = nslookup_addresses(0, out).unwrap();
    assert_eq!(sorted(ips), vec!["104.21.32.39", "172.67.182.217"]);
    assert!(nslookup_addresses(0, "Server: 1.1.1.1\n").is_none());
    assert!(nslookup_addresses(1, out).is_none());
}

#[test]
fn resolution_outcomes() {
    let ok = resolution("a.b", Some(vec!["1.2.3.4".to_string()])).unwrap();
    assert_eq!(ok, vec!["1.2.3.4"]);
    match resolution("a.b", Some(vec![])) {
        Err(BlockcheckError::DnsNoAddresses { domain }) => assert_eq!(domain, "a.b"),
        other => panic!("unexpected {:?}", other),
    }
    match resolution("a.b", None) {
        Err(BlockcheckError::DnsResolveFailed { domain, reason }) => {
            assert_eq!(domain, "a.b");
            assert_eq!(reason, "getent and nslookup both failed");
        }
        other => panic!("unexpected {:?}", other),
    }
}

#[test]
fn getent_answer_stands_without_nslookup() {
    match after_getent("a.b", Some(vec!["9.9.9.9".to_string()])) {
        LookupStep::Done(Ok(ips)) => assert_eq!(ips, vec!["9.9.9.9"]),
        other => panic!("unexpected {:?}", other),
    }
    match after_getent("a.b", Some(vec![])) {
        LookupStep::Done(Err(BlockcheckError::DnsNoAddresses { domain })) => assert_eq!(domain, "a.b"),
        other => panic!("unexpected {:?}", other),
    }
}

#[test]
fn failed_getent_asks_nslookup() {
    assert!(matches!(after_getent("a.b", None), LookupStep::TryNslookup));
    let out = "Server:\t\t127.0.0.53\nAddress:\t127.0.0.53#53\n\nNon-authoritative answer:\nName:\ta.b\nAddress: 5.6.7.8\n";
    let ips = nslookup_addresses(0, out);
    assert_eq!(resolution("a.b", ips).unwrap(), vec!["5.6.7.8"]);
}
