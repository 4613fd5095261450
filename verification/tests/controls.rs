//! Runtime controls and the networks they ban.

use primed::controls::{in_net, reload, Controls, ControlsError, ControlsFile};
use primed::ip::{endpoint, parse_ip, parse_net, IpAddr};
use primed::names::NameMap;
use primed::startup::base_split;

fn ip(s: &str) -> IpAddr {
    parse_ip(s).unwrap()
}

fn empty_file() -> ControlsFile {
    ControlsFile {
        fee_bps: None,
        stratum_fee_bps: None,
        fee_overrides: NameMap::new(),
        banned_identities: vec![],
        banned_ips: vec![],
        updated: None,
    }
}

#[test]
fn nets_match_hosts_and_prefixes() {
    let c = Controls {
        banned_nets: vec![
            parse_net("203.0.113.9").unwrap(),
            parse_net("198.51.100.0/24").unwrap(),
            parse_net("2001:db8::/32").unwrap(),
        ],
        ..Default::default()
    };
    assert!(c.ip_banned(ip("203.0.113.9")));
    assert!(!c.ip_banned(ip("203.0.113.10")));
    assert!(c.ip_banned(ip("198.51.100.77")));
    assert!(!c.ip_banned(ip("198.51.101.1")));
    assert!(c.ip_banned(ip("2001:db8:1::5")));
    assert!(parse_net("300.1.1.1").is_none());
    assert!(parse_net("10.0.0.0/33").is_none());
}

#[test]
fn a_file_is_validated_and_its_keys_made_canonical() {
    let mut f = empty_file();
    f.fee_bps = Some(150);
    f.fee_overrides.insert("bc1qtest.worker", 50);
    f.banned_identities.push("bc1qbad".to_string());
    f.banned_ips.push("10.0.0.0/8".to_string());
    f.updated = Some("now".to_string());
    let c = Controls::from_file(&f).unwrap();
    assert_eq!(c.fee_bps, Some(150));
    assert_eq!(c.fee_overrides.get("bc1qtest"), Some(50), "override keys drop any .worker suffix");
    assert!(c.identity_banned("bc1qbad"));
    assert!(!c.identity_banned("bc1qgood"));
    assert!(c.ip_banned(ip("10.3.4.5")));
    assert_eq!(c.updated.as_deref(), Some("now"));
}

#[test]
fn a_bad_file_names_what_is_wrong_with_it() {
    let mut f = empty_file();
    f.fee_bps = Some(20_000);
    assert_eq!(Controls::from_file(&f), Err(ControlsError::FeeTooHigh(20_000)));
    let mut f = empty_file();
    f.stratum_fee_bps = Some(10_001);
    assert_eq!(Controls::from_file(&f), Err(ControlsError::FeeTooHigh(10_001)));
    let mut f = empty_file();
    f.fee_overrides.insert("a", 10_000);
    f.fee_overrides.insert("b", 10_001);
    assert_eq!(Controls::from_file(&f), Err(ControlsError::OverrideTooHigh("b".to_string(), 10_001)));
    let mut f = empty_file();
    f.banned_ips.push("nonsense".to_string());
    assert_eq!(Controls::from_file(&f), Err(ControlsError::BadNet("nonsense".to_string())));
}

#[test]
fn live_fees_override_the_configured_ones() {
    let base = base_split(100, 200, 1000, 0);
    let none = Controls::default().split_params(&base);
    assert_eq!((none.fee_bps, none.stratum_fee_bps), (100, 200));
    let mut f = empty_file();
    f.fee_bps = Some(50);
    f.fee_overrides.insert("bc1qpartner", 10);
    let c = Controls::from_file(&f).unwrap();
    let p = c.split_params(&base);
    assert_eq!((p.fee_bps, p.stratum_fee_bps), (50, 200));
    assert_eq!(p.bps_for("bc1qpartner"), (10, 10));
    assert_eq!(p.bps_for("bc1qother"), (200, 50));
    assert_eq!(p.max_outputs, 511);
}

#[test]
fn summary_counts_what_is_loaded() {
    let mut f = empty_file();
    f.fee_bps = Some(150);
    f.banned_identities.push("x".to_string());
    let c = Controls::from_file(&f).unwrap();
    assert_eq!(
        c.summary(),
        "fee=150 stratum_fee=config overrides=0 banned_identities=1 banned_nets=0"
    );
}

#[test]
fn a_bad_file_keeps_the_controls_and_a_missing_one_clears_them() {
    let mut f = empty_file();
    f.fee_bps = Some(150);
    let held = Controls::from_file(&f).unwrap();
    let bad = reload(held.clone(), true, Err(ControlsError::FeeTooHigh(20_000)));
    assert_eq!(bad, held);
    let gone = reload(held.clone(), true, Ok(None));
    assert_eq!(gone, Controls::default());
    let never = reload(held.clone(), false, Ok(None));
    assert_eq!(never, held);
    let mut g = empty_file();
    g.fee_bps = Some(7);
    let new = Controls::from_file(&g).unwrap();
    assert_eq!(reload(held, true, Ok(Some(new.clone()))), new);
}

#[test]
fn prefixes_hold_by_leading_bits_and_kind() {
    assert!(in_net(ip("1.2.3.4"), ip("9.9.9.9"), 0));
    assert!(in_net(ip("10.1.2.3"), ip("10.0.0.0"), 8));
    assert!(!in_net(ip("11.1.2.3"), ip("10.0.0.0"), 8));
    assert!(!in_net(ip("::1"), ip("10.0.0.0"), 0));
    assert!(in_net(ip("2001:db8::1"), ip("2001:db8::1"), 128));
    assert!(!in_net(ip("2001:db8::1"), ip("2001:db8::2"), 128));
}

#[test]
fn addresses_read_as_numbers() {
    assert_eq!(parse_ip("127.0.0.1"), Some(IpAddr::V4(0x7f00_0001)));
    assert_eq!(parse_ip("::"), Some(IpAddr::V6(0)));
    assert_eq!(parse_ip("::1"), Some(IpAddr::V6(1)));
    assert_eq!(parse_ip("1:2:3:4:5:6:7:8"), Some(IpAddr::V6(0x0001_0002_0003_0004_0005_0006_0007_0008)));
    assert_eq!(parse_ip("::ffff:1.2.3.4"), Some(IpAddr::V6(0xffff_0102_0304)));
    assert_eq!(parse_ip("1.2.3"), None);
    assert_eq!(parse_ip("01.2.3.4"), None);
    assert_eq!(parse_ip("1:2:3:4:5:6:7"), None);
    assert_eq!(parse_net("10.0.0.1"), Some((IpAddr::V4(0x0a00_0001), 32)));
    assert_eq!(parse_net("::/0"), Some((IpAddr::V6(0), 0)));
}

#[test]
fn advertised_addresses_split_at_the_last_colon() {
    assert_eq!(endpoint("pool.example:28915", 1), ("pool.example".to_string(), 28915));
    assert_eq!(endpoint("pool.example", 7), ("pool.example".to_string(), 7));
    assert_eq!(endpoint("[::1]:99", 7), ("[::1]".to_string(), 99));
    assert_eq!(endpoint("host:70000", 7), ("host".to_string(), 7));
    assert_eq!(endpoint("host:", 7), ("host".to_string(), 7));
}
