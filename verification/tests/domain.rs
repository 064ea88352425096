use std::str::FromStr;

use kealight::addr::{Ipv4Addr, Ipv4Net};
use kealight::domain::{
    check_conflicts, conflict_reasons, duplicate_hostnames, same_reservation, Conflict, IpRange, Reservation, Subnet,
};

fn cidr(s: &str) -> Ipv4Net {
    Ipv4Net::from_str(s).expect("test cidr")
}

fn r(hw: &str, ip: &str, hostname: Option<&str>) -> Reservation {
    Reservation {
        hw_address: hw.to_string(),
        ip_address: Ipv4Addr::from_str(ip).unwrap(),
        hostname: hostname.map(str::to_string),
    }
}

fn subnet() -> Subnet {
    Subnet {
        cidr: cidr("10.1.0.0/16"),
        pools: vec![IpRange {
            start: Ipv4Addr::from_str("10.1.11.1").unwrap(),
            end: Ipv4Addr::from_str("10.1.11.250").unwrap(),
        }],
        reservations: vec![
            r("1c:69:7a:77:3b:98", "10.1.1.11", Some("chufang-mg4670-3")),
            r("c0:3f:d5:b4:bb:e3", "10.1.1.13", Some("damenjingweishi")),
        ],
    }
}

#[test]
fn no_conflict_for_fresh_unique_reservation() {
    let s = subnet();
    let cand = r("aa:bb:cc:dd:ee:ff", "10.1.2.5", Some("new-host"));
    assert!(check_conflicts(&s, &cand, None).is_empty());
}

#[test]
fn duplicate_hw_address_is_a_conflict() {
    let s = subnet();
    let cand = r("1C:69:7A:77:3B:98", "10.1.2.5", None);
    assert_eq!(check_conflicts(&s, &cand, None), vec![Conflict::DuplicateHwAddress]);
}

#[test]
fn ip_in_use_by_another_reservation_is_a_conflict() {
    let s = subnet();
    let cand = r("aa:bb:cc:dd:ee:ff", "10.1.1.11", None);
    assert_eq!(check_conflicts(&s, &cand, None), vec![Conflict::IpInUse]);
}

#[test]
fn ip_inside_dynamic_pool_is_a_conflict() {
    let s = subnet();
    let cand = r("aa:bb:cc:dd:ee:ff", "10.1.11.100", None);
    assert_eq!(check_conflicts(&s, &cand, None), vec![Conflict::IpInPool]);
}

#[test]
fn ip_outside_subnet_is_a_conflict() {
    let s = subnet();
    let cand = r("aa:bb:cc:dd:ee:ff", "192.168.1.1", None);
    assert_eq!(check_conflicts(&s, &cand, None), vec![Conflict::IpOutOfSubnet]);
}

#[test]
fn editing_a_record_ignores_its_own_identity() {
    let s = subnet();
    let cand = r("1c:69:7a:77:3b:98", "10.1.1.12", Some("chufang-mg4670-3"));
    let conflicts = check_conflicts(&s, &cand, Some(0));
    assert!(conflicts.is_empty(), "editing index 0 with its own MAC/IP must not conflict: {conflicts:?}");
}

#[test]
fn multiple_conflicts_reported_together() {
    let s = subnet();
    // 同時 MAC 重複 index1 且 IP 落在 pool
    let cand = r("c0:3f:d5:b4:bb:e3", "10.1.11.200", None);
    let c = check_conflicts(&s, &cand, None);
    assert!(c.contains(&Conflict::DuplicateHwAddress));
    assert!(c.contains(&Conflict::IpInPool));
}

#[test]
fn ip_range_contains_boundaries() {
    let range = IpRange {
        start: Ipv4Addr::from_str("10.1.11.1").unwrap(),
        end: Ipv4Addr::from_str("10.1.11.250").unwrap(),
    };
    assert!(range.contains(Ipv4Addr::from_str("10.1.11.1").unwrap()));
    assert!(range.contains(Ipv4Addr::from_str("10.1.11.250").unwrap()));
    assert!(!range.contains(Ipv4Addr::from_str("10.1.11.0").unwrap()));
    assert!(!range.contains(Ipv4Addr::from_str("10.1.11.251").unwrap()));
}

#[test]
fn duplicate_hostname_is_a_warning_not_conflict() {
    let s = subnet();
    let cand = r("aa:bb:cc:dd:ee:ff", "10.1.2.5", Some("chufang-mg4670-3"));
    assert!(check_conflicts(&s, &cand, None).is_empty());
    assert_eq!(duplicate_hostnames(&s, &cand, None), vec!["chufang-mg4670-3".to_string()]);
}

#[test]
fn editing_own_hostname_is_not_a_warning() {
    let s = subnet();
    let cand = r("1c:69:7a:77:3b:98", "10.1.1.12", Some("chufang-mg4670-3"));
    assert!(duplicate_hostnames(&s, &cand, Some(0)).is_empty());
}

#[test]
fn conflicts_come_network_first_then_pool_then_list() {
    let mut s = subnet();
    s.pools.push(IpRange {
        start: Ipv4Addr::from_str("192.168.0.0").unwrap(),
        end: Ipv4Addr::from_str("192.168.255.255").unwrap(),
    });
    s.reservations.push(r("aa:aa:aa:aa:aa:aa", "192.168.1.1", None));
    let cand = r("AA:aa:aa:aa:aa:aa", "192.168.1.1", None);
    assert_eq!(
        check_conflicts(&s, &cand, None),
        vec![Conflict::IpOutOfSubnet, Conflict::IpInPool, Conflict::DuplicateHwAddress, Conflict::IpInUse]
    );
    assert_eq!(check_conflicts(&s, &cand, Some(2)), vec![Conflict::IpOutOfSubnet, Conflict::IpInPool]);
}

#[test]
fn every_conflict_has_its_reason() {
    let all = [Conflict::DuplicateHwAddress, Conflict::IpInUse, Conflict::IpInPool, Conflict::IpOutOfSubnet];
    assert_eq!(
        conflict_reasons(&all),
        vec![
            "hw-address 已存在（唯一鍵衝突）",
            "IP 已被其他 reservation 佔用",
            "IP 落在 dynamic pool 範圍內",
            "IP 超出 subnet 範圍",
        ]
    );
    assert!(conflict_reasons(&[]).is_empty());
}

#[test]
fn empty_hostname_is_never_warned_about() {
    let mut s = subnet();
    s.reservations.push(r("02:00:00:00:00:01", "10.1.2.1", Some("")));
    let cand = r("aa:bb:cc:dd:ee:ff", "10.1.2.5", Some(""));
    assert!(duplicate_hostnames(&s, &cand, None).is_empty());
    let cand = r("aa:bb:cc:dd:ee:ff", "10.1.2.5", None);
    assert!(duplicate_hostnames(&s, &cand, None).is_empty());
}

#[test]
fn reservations_are_equal_by_content() {
    let a = r("aa:bb:cc:dd:ee:ff", "10.1.2.5", Some("x"));
    assert!(same_reservation(&a, &a.clone()));
    assert!(!same_reservation(&a, &r("AA:bb:cc:dd:ee:ff", "10.1.2.5", Some("x"))));
    assert!(!same_reservation(&a, &r("aa:bb:cc:dd:ee:ff", "10.1.2.6", Some("x"))));
    assert!(!same_reservation(&a, &r("aa:bb:cc:dd:ee:ff", "10.1.2.5", None)));
    assert!(!same_reservation(&a, &r("aa:bb:cc:dd:ee:ff", "10.1.2.5", Some("y"))));
}

#[test]
fn addresses_are_read_strictly() {
    for good in ["0.0.0.0", "255.255.255.255", "10.1.9.10"] {
        assert_eq!(Ipv4Addr::from_str(good).unwrap().to_string(), good);
    }
    assert_eq!(Ipv4Addr::from_str("1.2.3.4").unwrap().bits, 0x01020304);
    assert_eq!(Ipv4Addr::new(1, 2, 3, 4).octets(), [1, 2, 3, 4]);
    assert_eq!(Ipv4Addr::unspecified().to_string(), "0.0.0.0");
    for bad in ["", "1.2.3", "1.2.3.4.5", "256.1.1.1", "01.2.3.4", "1.2.3.4 ", "1..2.3", "a.b.c.d", "1.2.3.+4", "1.2.3.1000"] {
        assert!(Ipv4Addr::from_str(bad).is_err(), "{bad}");
    }
}

#[test]
fn networks_are_read_as_the_outside_parser_reads_them() {
    assert_eq!(cidr("10.1.0.0/16").to_string(), "10.1.0.0/16");
    assert_eq!(cidr("10.1.2.3/16").to_string(), "10.1.2.3/16");
    assert_eq!(cidr("010.001.000.000/08").to_string(), "10.1.0.0/8");
    for bad in ["10.1.0.0", "10.1.0.0/33", "10.1.0.0/", "10.1.0.0/016", "10.1.0/16", "256.0.0.0/8", "10.1.0.0/16 ", "0010.1.0.0/16"] {
        assert!(Ipv4Net::from_str(bad).is_err(), "{bad}");
    }
}

#[test]
fn networks_hold_the_addresses_with_their_prefix() {
    let ip = |s: &str| Ipv4Addr::from_str(s).unwrap();
    let n = cidr("10.1.2.3/16");
    assert!(n.contains(ip("10.1.0.0")) && n.contains(ip("10.1.255.255")));
    assert!(!n.contains(ip("10.0.255.255")) && !n.contains(ip("10.2.0.0")));
    assert!(cidr("0.0.0.0/0").contains(ip("255.255.255.255")));
    assert!(cidr("10.0.0.7/32").contains(ip("10.0.0.7")) && !cidr("10.0.0.7/32").contains(ip("10.0.0.6")));
}
