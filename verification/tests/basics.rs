use std::str::FromStr;

use kealight::addr::{Ipv4Addr, Ipv4Net};
use kealight::error::error;
use kealight::list::{is_found, match_phrase, page_phrase, search_needle, subnet_dialog};
use kealight::mac::{normalize_mac, normalize_mac_paste};
use kealight::number::{decimal, parse_number};
use kealight::order::{arrange, be_bytes, lex_less, sort_order};
use kealight::query::{leases_th_link, or_empty, LeasesQuery};
use kealight::text::{join, same_ignoring_case, split, split_once, strip, trim, trim_returns, words};

#[test]
fn addresses_are_read_and_written() {
    for text in ["0.0.0.0", "255.255.255.255", "10.1.11.250"] {
        assert_eq!(Ipv4Addr::from_str(text).unwrap().to_string(), text);
    }
    for text in ["", "1.2.3", "1.2.3.4.5", "1.2.3.256", "01.2.3.4", "1.2.3.+4", "1..2.3", " 1.2.3.4", "1.2.3.4000"] {
        assert!(Ipv4Addr::from_str(text).is_err(), "{text}");
    }
    assert_eq!(Ipv4Addr::new(10, 1, 2, 3).bits, 0x0a010203);
    assert_eq!(Ipv4Addr::new(10, 1, 2, 3).octets(), [10, 1, 2, 3]);
    assert_eq!(Ipv4Addr::unspecified().to_string(), "0.0.0.0");
}

#[test]
fn networks_are_read_and_written() {
    assert_eq!(Ipv4Net::from_str("10.1.2.3/16").unwrap().to_string(), "10.1.2.3/16");
    assert_eq!(Ipv4Net::from_str("010.001.0.0/08").unwrap().to_string(), "10.1.0.0/8");
    for text in ["10.1.0.0", "10.1.0.0/", "10.1.0.0/33", "10.1.0.0/016", "10.1.0/16", "10.1.0.0/16 ", "10.1.0.0/16/1", "256.0.0.0/8"] {
        assert!(Ipv4Net::from_str(text).is_err(), "{text}");
    }
}

#[test]
fn networks_of_every_length_hold_their_addresses() {
    let ip = |s: &str| Ipv4Addr::from_str(s).unwrap();
    let net = Ipv4Net::from_str("10.1.2.3/16").unwrap();
    assert!(net.contains(ip("10.1.0.0")) && net.contains(ip("10.1.255.255")));
    assert!(!net.contains(ip("10.0.255.255")) && !net.contains(ip("10.2.0.0")));
    assert!(Ipv4Net::from_str("1.2.3.4/0").unwrap().contains(ip("255.0.0.1")));
    let one = Ipv4Net::from_str("1.2.3.4/32").unwrap();
    assert!(one.contains(ip("1.2.3.4")) && !one.contains(ip("1.2.3.5")));
}

#[test]
fn numbers_are_read_and_written() {
    assert_eq!(decimal(0), "0");
    assert_eq!(decimal(u64::MAX), "18446744073709551615");
    assert_eq!(parse_number("18446744073709551615", u64::MAX), Some(u64::MAX));
    assert_eq!(parse_number("18446744073709551616", u64::MAX), None);
    assert_eq!(parse_number("+007", 7), Some(7));
    assert_eq!(parse_number("8", 7), None);
    for text in ["", "+", "-1", "1 ", "x", "１"] {
        assert_eq!(parse_number(text, u64::MAX), None, "{text}");
    }
}

#[test]
fn texts_are_taken_apart() {
    assert_eq!(trim("\u{3000} a b\t\r\n"), "a b");
    assert_eq!(trim_returns("a\r b\r\r"), "a\r b");
    assert_eq!(split("a,,b,", ','), vec!["a", "", "b", ""]);
    assert_eq!(split("", ','), vec![""]);
    assert_eq!(join(&split("a,,b,", ','), ","), "a,,b,");
    assert_eq!(words(" a\u{a0}b  c\t"), vec!["a", "b", "c"]);
    assert!(words(" \t").is_empty());
    assert_eq!(split_once("a-b-c", '-'), Some(("a".to_string(), "b-c".to_string())));
    assert_eq!(split_once("abc", '-'), None);
    assert_eq!(strip("kea.7.bak", "kea.", ".bak"), Some("7".to_string()));
    assert_eq!(strip("ab", "ab", "b"), None);
    assert!(same_ignoring_case("aB:É", "Ab:É") && !same_ignoring_case("é", "É"));
}

#[test]
fn keys_are_ordered_as_bytes() {
    let keys = vec![vec![2u8], vec![1, 9], vec![1], vec![], vec![1, 9]];
    assert_eq!(sort_order(&keys), vec![3, 2, 1, 4, 0]);
    assert!(lex_less(&keys[2], &keys[1]) && !lex_less(&keys[1], &keys[4]));
    assert_eq!(arrange(&vec![10, 20, 30], &vec![vec![3], vec![1], vec![2]]), vec![20, 30, 10]);
    assert_eq!(be_bytes(258, 4), vec![0, 0, 1, 2]);
}

#[test]
fn hardware_addresses_take_one_form() {
    assert_eq!(normalize_mac("AA-BB-CC-DD-EE-08"), Some("aa:bb:cc:dd:ee:08".into()));
    assert_eq!(normalize_mac("aa:bb:cc:dd:ee:08"), Some("aa:bb:cc:dd:ee:08".into()));
    for text in ["aabbccddee08", "aa:bb:cc:dd:ee", "aa:bb:cc:dd:ee:0g", "aa:bb-cc:dd:ee:08", "aa:bb:cc:dd:ee:008", " aa:bb:cc:dd:ee:08"] {
        assert_eq!(normalize_mac(text), None, "{text}");
    }
    assert_eq!(normalize_mac_paste(" aa:bb:cc:dd:ee:08 "), Some("aa:bb:cc:dd:ee:08".into()));
    assert_eq!(normalize_mac_paste("aabb ccdd ee08"), Some("aa:bb:cc:dd:ee:08".into()));
    assert_eq!(normalize_mac_paste("MAC aabbccddee08"), None);
}

#[test]
fn searches_ignore_case_and_white_space_around() {
    assert_eq!(search_needle(&Some("  ÄB ".into())), "äb");
    assert_eq!(search_needle(&None), "");
    assert!(is_found("", "a", "b", "c") && is_found("b", "a", "abc", "") && !is_found("x", "a", "b", "c"));
    assert_eq!(match_phrase("<x>"), "「&lt;x&gt;」");
    assert_eq!(match_phrase(""), "");
    assert_eq!(page_phrase("", 0, 5), "（第 1 / 5 頁）");
    assert_eq!(page_phrase("x", 0, 5), "");
    assert_eq!(or_empty(&None), "");
}

#[test]
fn the_choice_of_a_subnet_opens_on_request() {
    assert!(subnet_dialog(&[], 0, true).contains("showModal()"));
    assert!(!subnet_dialog(&[], 0, false).contains("showModal()"));
}

#[test]
fn lease_columns_cycle_and_keep_the_filters() {
    let q = |sort: Option<&str>, dir: Option<&str>| LeasesQuery {
        state: Some("all".into()),
        sort: sort.map(str::to_string),
        dir: dir.map(str::to_string),
        ..LeasesQuery::default()
    };
    let none = leases_th_link("address", "address", &q(None, None));
    assert!(none.contains(r#"href="/leases?state=all&amp;sort=address&amp;dir=asc""#), "{none}");
    let asc = leases_th_link("address", "address", &q(Some("address"), Some("asc")));
    assert!(asc.contains(r#"href="/leases?state=all&amp;sort=address&amp;dir=desc""#) && asc.contains("address ▲"), "{asc}");
    let desc = leases_th_link("address", "address", &q(Some("address"), Some("desc")));
    assert!(desc.contains(r#"href="/leases?state=all""#) && desc.contains("address ▼"), "{desc}");
}

#[test]
fn the_third_state_of_a_lease_column_drops_only_the_order() {
    let q = LeasesQuery {
        state: Some("expired".into()),
        sort: Some("address".into()),
        dir: Some("desc".into()),
        ..LeasesQuery::default()
    };
    let link = leases_th_link("address", "address", &q);
    assert!(link.contains("state=expired") && link.contains("address ▼"), "{link}");
    assert!(!link.contains("sort=") && !link.contains("dir="), "{link}");
    let plain = LeasesQuery { state: None, ..q };
    assert!(leases_th_link("address", "address", &plain).contains(r#"href="/leases""#));
}

#[test]
fn errors_show_their_words() {
    assert_eq!(error("x").to_string(), "x");
}
