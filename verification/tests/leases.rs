use std::str::FromStr;

use kealight::addr::Ipv4Addr;
use kealight::leases::{
    is_active, is_expired, matches_state_filter, parse, remaining_text, row_state_label, state_label, unescape_field,
    Lease,
};

const HEADER: &str =
    "address,hwaddr,client_id,valid_lifetime,expire,subnet_id,fqdn_fwd,fqdn_rev,hostname,state,user_context,pool_id\n";

fn file(rows: &str) -> String {
    format!("{HEADER}{rows}")
}

#[test]
fn parses_sample_row() {
    let text = file("10.1.9.9,aa:bb:cc:dd:ee:01,,3600,1900000000,1,1,1,host-a,0,{},0");
    let leases = parse(&text).unwrap();
    assert_eq!(leases.len(), 1);
    let l = &leases[0];
    assert_eq!(l.address.to_string(), "10.1.9.9");
    assert_eq!(l.hwaddr, Some("aa:bb:cc:dd:ee:01".into()));
    assert_eq!(l.client_id, None);
    assert_eq!(l.hostname, Some("host-a".into()));
    assert_eq!(l.subnet_id, Some(1));
    assert_eq!(l.state, 0);
    assert_eq!(l.valid_lifetime, 3600);
    assert_eq!(l.expire, 1900000000);
}

#[test]
fn unescapes_kea_entities_in_fields() {
    let text = file(
        "10.1.9.9,aa:bb:cc:dd:ee:01,,3600,1900000000,1,1,1,three&#x2cexample&#x2ccom,0,{ \"a\": 1&#x2c \"b\": \"c\" },0",
    );
    let leases = parse(&text).unwrap();
    assert_eq!(leases[0].hostname, Some("three,example,com".into()));
}

#[test]
fn dedup_by_address_keeps_last_row() {
    let text = file(
        "10.1.9.9,aa:bb:cc:dd:ee:01,,3600,1900000000,1,1,1,old,0,,0\n10.1.9.9,aa:bb:cc:dd:ee:02,,3600,1900000000,1,1,1,new,0,,0",
    );
    let leases = parse(&text).unwrap();
    assert_eq!(leases.len(), 1);
    assert_eq!(leases[0].hwaddr, Some("aa:bb:cc:dd:ee:02".into()));
    assert_eq!(leases[0].hostname, Some("new".into()));
}

#[test]
fn bad_rows_skipped_good_rows_kept() {
    let text = file(
        "not-an-ip,,,3600,1900000000,1,1,1,bad,0,,0\na,b,c\n10.1.9.9,aa:bb:cc:dd:ee:01,,3600,1900000000,1,1,1,ok,0,,0",
    );
    let leases = parse(&text).unwrap();
    assert_eq!(leases.len(), 1);
    assert_eq!(leases[0].hostname, Some("ok".into()));
}

#[test]
fn header_with_extra_fields_rejected() {
    let text = "a,b,c\n1,2,3";
    assert!(parse(text).is_err(), "表頭不合 12 欄應拒絕");
    assert!(parse("").is_err(), "空檔應拒絕");
}

#[test]
fn active_requires_state_zero_and_future_expire() {
    let base = Lease {
        address: Ipv4Addr::from_str("10.1.9.9").unwrap(),
        hwaddr: None,
        client_id: None,
        hostname: None,
        subnet_id: None,
        state: 0,
        valid_lifetime: 0,
        expire: 2000,
    };
    assert!(is_active(&base, 1000));
    let mut expired = base.clone();
    expired.expire = 1000;
    assert!(!is_active(&expired, 1000), "expire == now 不算作用中");
    assert!(!is_active(&expired, 2000), "過期不算作用中");
    let mut declined = base.clone();
    declined.state = 1;
    assert!(!is_active(&declined, 1000), "declined 不算作用中");
}

#[test]
fn remaining_formats_days_and_hours() {
    assert_eq!(remaining_text(1000, 900), Some("剩餘 0 天 0 時".into()));
    assert_eq!(remaining_text(90000, 0), Some("剩餘 1 天 1 時".into()));
    assert!(remaining_text(100, 200).is_none(), "已過期回 None");
}

fn lease(state: u8, expire: u64) -> Lease {
    Lease {
        address: Ipv4Addr::from_str("10.1.9.9").unwrap(),
        hwaddr: None,
        client_id: None,
        hostname: None,
        subnet_id: None,
        state,
        valid_lifetime: 0,
        expire,
    }
}

#[test]
fn filters_pick_their_states() {
    let all = [lease(0, 2000), lease(0, 1000), lease(1, 2000), lease(2, 2000), lease(3, 2000), lease(4, 2000)];
    let pick = |filter: &str| -> Vec<usize> {
        (0..all.len()).filter(|i| matches_state_filter(&all[*i], filter, 1000)).collect()
    };
    assert_eq!(pick("active"), vec![0]);
    assert_eq!(pick("expired"), vec![1, 3]);
    assert_eq!(pick("declined"), vec![2]);
    assert_eq!(pick("released"), vec![4]);
    assert_eq!(pick("all"), vec![0, 1, 2, 3, 4, 5]);
    assert_eq!(pick("nonsense"), vec![0]);
    assert_eq!(pick(""), vec![0]);
}

#[test]
fn a_lease_is_never_active_and_expired() {
    for state in 0..6u8 {
        for expire in [999u64, 1000, 1001] {
            let l = lease(state, expire);
            assert!(!(is_active(&l, 1000) && is_expired(&l, 1000)));
            assert_eq!(remaining_text(expire, 1000).is_some(), expire > 1000);
        }
    }
}

#[test]
fn states_have_labels() {
    let labels: Vec<&str> = (0..6u8).map(state_label).collect();
    assert_eq!(labels, vec!["已指派", "拒絕", "過期回收", "已釋放", "已註冊", "未知"]);
    assert_eq!(row_state_label(&lease(0, 1000), 1000), "已過期");
    assert_eq!(row_state_label(&lease(0, 1001), 1000), "已指派");
    assert_eq!(row_state_label(&lease(2, 0), 1000), "過期回收");
}

#[test]
fn errors_say_what_is_wrong_with_the_file() {
    assert_eq!(parse("\n  \n").unwrap_err().to_string(), "租用檔內容為空（缺少表頭）");
    assert_eq!(parse("x,y").unwrap_err().to_string(), "租用檔表頭不合法（需 12 欄，首欄 address）");
    assert_eq!(
        parse("addr,b,c,d,e,f,g,h,i,j,k,l").unwrap_err().to_string(),
        "租用檔表頭不合法（需 12 欄，首欄 address）"
    );
}

#[test]
fn leases_stand_where_their_address_first_appeared() {
    let text = file(
        "10.0.0.2,,,1,5,1,0,0,a,0,,0\n10.0.0.1,,,1,5,1,0,0,b,0,,0\n10.0.0.2,,,1,5,1,0,0,c,3,,0\n10.0.0.3,,,1,5,x,0,0,d,0,,0\n",
    );
    let leases = parse(&text).unwrap();
    let seen: Vec<_> = leases.iter().map(|l| (l.address.to_string(), l.hostname.clone().unwrap(), l.state)).collect();
    assert_eq!(
        seen,
        vec![
            ("10.0.0.2".to_string(), "c".to_string(), 3),
            ("10.0.0.1".to_string(), "b".to_string(), 0),
            ("10.0.0.3".to_string(), "d".to_string(), 0),
        ]
    );
    assert_eq!(leases[2].subnet_id, None);
}

#[test]
fn numbers_of_a_row_are_read_strictly() {
    for row in [
        "10.0.0.1,,,-1,5,1,0,0,a,0,,0",
        "10.0.0.1,,,4294967296,5,1,0,0,a,0,,0",
        "10.0.0.1,,,1, 5,1,0,0,a,0,,0",
        "10.0.0.1,,,1,18446744073709551616,1,0,0,a,0,,0",
        "10.0.0.1,,,1,5,1,0,0,a,256,,0",
        "10.0.0.1,,,1,5,1,0,0,a,,,0",
        "10.0.0.01,,,1,5,1,0,0,a,0,,0",
    ] {
        assert!(parse(&file(row)).unwrap().is_empty(), "{row}");
    }
    let l = parse(&file("10.0.0.1,,,+7,5, 3 ,0,0,a,255,,0")).unwrap();
    assert_eq!((l[0].valid_lifetime, l[0].subnet_id, l[0].state), (7, Some(3), 255));
}

#[test]
fn escapes_are_undone_and_the_rest_is_kept() {
    assert_eq!(unescape_field("a&#x2Cb&#x26c"), "a,b&c");
    assert_eq!(unescape_field("&#x2"), "&#x2");
    assert_eq!(unescape_field("&#xzz&#x41"), "&#xzzA");
    assert_eq!(unescape_field(""), "");
    assert_eq!(unescape_field("主機&#x2c甲"), "主機,甲");
    assert_eq!(unescape_field("é漢😀"), "é漢😀");
    assert_eq!(unescape_field("&#x&#x2c"), "&#x,");
}

#[test]
fn hostnames_of_any_script_are_kept() {
    let leases = parse(&file("10.1.9.9,aa:bb:cc:dd:ee:01,,3600,1900000000,1,1,1,主機&#x2c甲,0,,0")).unwrap();
    assert_eq!(leases[0].hostname.as_deref(), Some("主機,甲"));
}
