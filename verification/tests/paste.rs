use std::str::FromStr;

use kealight::addr::{Ipv4Addr, Ipv4Net};
use kealight::domain::{IpRange, Reservation, Subnet};
use kealight::mac::{normalize_mac, normalize_mac_paste};
use kealight::paste::{parse_paste_lines, plan_paste, PasteAction, PasteLine, PasteMutation};

fn r(hw: &str, ip: &str, hostname: Option<&str>) -> Reservation {
    Reservation {
        hw_address: hw.to_string(),
        ip_address: Ipv4Addr::from_str(ip).unwrap(),
        hostname: hostname.map(str::to_string),
    }
}

fn subnet() -> Subnet {
    Subnet {
        cidr: Ipv4Net::from_str("10.1.0.0/16").unwrap(),
        pools: vec![IpRange {
            start: Ipv4Addr::from_str("10.1.11.1").unwrap(),
            end: Ipv4Addr::from_str("10.1.11.250").unwrap(),
        }],
        reservations: vec![
            r("1c:69:7a:77:3b:98", "10.1.1.11", Some("chufang-mg4670-3")),
            r("c0:3f:d5:b4:bb:e3", "10.1.1.13", Some("damenjingweishi")),
        ],
    }
}

#[test]
fn paste_normalizes_dash_bare_and_colon_macs() {
    assert_eq!(normalize_mac_paste("AA-BB-CC-DD-EE-08"), Some("aa:bb:cc:dd:ee:08".into()));
    assert_eq!(normalize_mac_paste("AABBCCDDEEFF"), Some("aa:bb:cc:dd:ee:ff".into()));
    assert_eq!(normalize_mac_paste("AA BB CC DD EE FF"), Some("aa:bb:cc:dd:ee:ff".into()));
    assert_eq!(normalize_mac_paste("aa:bb:cc:dd:ee:01"), Some("aa:bb:cc:dd:ee:01".into()));
    assert_eq!(normalize_mac_paste("not-a-mac"), None);
    assert_eq!(normalize_mac_paste("aabbccddeeff01"), None);
}

#[test]
fn parse_paste_lines_handles_tab_comma_crlf_and_extras() {
    let raw = "aa:bb:cc:dd:ee:a1\t10.1.9.6\thost\r\n\
               aa:bb:cc:dd:ee:a2,10.1.9.7,other\n\
               aa:bb:cc:dd:ee:a3\t10.1.9.8\thost\textra\n\
               \n";
    let lines = parse_paste_lines(raw);
    let candidates: Vec<_> = lines
        .iter()
        .filter_map(|l| match l {
            PasteLine::Candidate { reservation, .. } => Some(reservation.clone()),
            _ => None,
        })
        .collect();
    assert_eq!(candidates.len(), 3, "Tab、逗號退回、CRLF、多餘欄位、空列皆應解析：{lines:?}");
    assert_eq!(candidates[0].hostname.as_deref(), Some("host"));
    assert_eq!(candidates[1].hw_address, "aa:bb:cc:dd:ee:a2");
    assert_eq!(candidates[2].hostname.as_deref(), Some("host"));
}

#[test]
fn parse_paste_lines_skips_header_and_invalid_rows() {
    let raw = "hw-address\tip-address\thostname\n\
               aa:bb:cc:dd:ee:b1\tbad-ip\tx\n\
               aa:bb:cc:dd:ee:b2\t\tx\n\
               aa:bb:cc:dd:ee:b3\t10.1.9.9\tok\n";
    let lines = parse_paste_lines(raw);
    assert!(matches!(lines[0], PasteLine::NotMac), "表頭首欄非 MAC 應靜默跳過");
    assert!(matches!(&lines[1], PasteLine::Invalid { reason, .. } if reason.contains("格式不合法")));
    assert!(matches!(&lines[2], PasteLine::Invalid { reason, .. } if reason.contains("缺少 ip-address")));
    assert!(matches!(&lines[3], PasteLine::Candidate { .. }));
}

#[test]
fn plan_paste_adds_new_and_updates_existing() {
    let s = subnet();
    let raw = "aa:bb:cc:dd:ee:99\t10.1.9.99\tbox1\n\
               1c:69:7a:77:3b:98\t10.1.1.99\trenamed\n\
               c0:3f:d5:b4:bb:e3\t10.1.1.13\tdamenjingweishi\n";
    let plan = plan_paste(&s, raw);
    let actions: Vec<_> = plan.outcomes.iter().map(|o| o.action).collect();
    assert_eq!(actions, vec![PasteAction::Add, PasteAction::Update, PasteAction::NoChange]);
    assert_eq!(plan.mutations.len(), 2);
    let mut added = None;
    let mut updated = None;
    for m in plan.mutations {
        match m {
            PasteMutation::Add { reservation } => added = Some(reservation),
            PasteMutation::Update { index, reservation } => updated = Some((index, reservation)),
        }
    }
    assert_eq!(added.unwrap().hw_address, "aa:bb:cc:dd:ee:99");
    let (idx, r) = updated.unwrap();
    assert_eq!(idx, 0);
    assert_eq!(r.ip_address.to_string(), "10.1.1.99");
    assert_eq!(r.hostname.as_deref(), Some("renamed"));
}

#[test]
fn plan_paste_dedupes_batch_by_mac_last_wins() {
    let s = subnet();
    let raw = "aa:bb:cc:dd:ee:97\t10.1.9.97\tfirst\n\
               aa:bb:cc:dd:ee:97\t10.1.9.98\tsecond\n";
    let plan = plan_paste(&s, raw);
    assert_eq!(plan.outcomes.len(), 1, "同 MAC 兩列應收斂成一筆：{plan:?}");
    assert_eq!(plan.mutations.len(), 1);
    match &plan.mutations[0] {
        PasteMutation::Add { reservation } => {
            assert_eq!(reservation.ip_address.to_string(), "10.1.9.98");
            assert_eq!(reservation.hostname.as_deref(), Some("second"));
        }
        other => panic!("應為新增：{other:?}"),
    }
}

#[test]
fn plan_paste_skips_conflicting_ips() {
    let s = subnet();
    let raw = "aa:bb:cc:dd:ee:90\t10.1.9.90\tok\n\
               aa:bb:cc:dd:ee:91\t10.1.1.11\ttaken\n\
               aa:bb:cc:dd:ee:92\t10.1.11.100\tpooled\n\
               aa:bb:cc:dd:ee:93\t192.168.1.1\toutside\n";
    let plan = plan_paste(&s, raw);
    let skips = plan.outcomes.iter().filter(|o| o.action == PasteAction::Skip).count();
    assert_eq!(skips, 3, "IP 被佔用／pool／範圍外應跳過：{plan:?}");
    assert_eq!(plan.mutations.len(), 1);
    let detail = plan.outcomes[1].detail.as_deref().unwrap();
    assert!(detail.contains("已被其他 reservation 佔用"), "detail: {detail}");
}

#[test]
fn plan_paste_intra_batch_ip_conflict_second_is_skipped() {
    let s = subnet();
    let raw = "aa:bb:cc:dd:ee:80\t10.1.9.80\tbox1\n\
               aa:bb:cc:dd:ee:81\t10.1.9.80\tbox2\n";
    let plan = plan_paste(&s, raw);
    assert_eq!(plan.mutations.len(), 1);
    assert_eq!(plan.outcomes.len(), 2);
    assert_eq!(plan.outcomes[0].action, PasteAction::Add);
    assert_eq!(plan.outcomes[1].action, PasteAction::Skip, "同 IP 後筆應被跳過：{plan:?}");
}

#[test]
fn plan_paste_empty_hostname_clears_on_update() {
    let s = subnet();
    let raw = "1c:69:7a:77:3b:98\t10.1.1.11\t\n";
    let plan = plan_paste(&s, raw);
    assert_eq!(plan.mutations.len(), 1);
    match &plan.mutations[0] {
        PasteMutation::Update { index, reservation } => {
            assert_eq!(*index, 0);
            assert_eq!(reservation.hostname, None);
        }
        other => panic!("空 hostname 覆寫應為更新：{other:?}"),
    }
}

#[test]
fn plan_paste_reports_duplicate_hostnames_as_warning() {
    let s = subnet();
    let raw = "aa:bb:cc:dd:ee:70\t10.1.9.70\tchufang-mg4670-3\n";
    let plan = plan_paste(&s, raw);
    assert_eq!(plan.mutations.len(), 1);
    assert!(plan.warn_hostnames.contains(&"chufang-mg4670-3".to_string()));
}

#[test]
fn plan_paste_counts_silent_header_skips() {
    let s = subnet();
    let raw = "hw-address\tip-address\thostname\n\
               aa:bb:cc:dd:ee:60\t10.1.9.60\tok\n";
    let plan = plan_paste(&s, raw);
    assert_eq!(plan.silent_skipped, 1);
    assert_eq!(plan.mutations.len(), 1);
}

#[test]
fn macs_have_one_form() {
    for s in ["AA:BB:CC:DD:EE:0f", "aa-bb-cc-dd-ee-0F"] {
        assert_eq!(normalize_mac(s), Some("aa:bb:cc:dd:ee:0f".into()));
        assert_eq!(normalize_mac_paste(s), normalize_mac(s));
    }
    for s in ["", "aa:bb:cc:dd:ee", "aa:bb:cc:dd:ee:0", "aa:bb:cc:dd:ee:gg", "aabbccddeeff", " aa:bb:cc:dd:ee:ff", "aa:bb-cc:dd:ee:ff"] {
        assert_eq!(normalize_mac(s), None, "{s}");
    }
    assert_eq!(normalize_mac_paste("  aa:bb:cc:dd:ee:ff\t"), Some("aa:bb:cc:dd:ee:ff".into()));
    assert_eq!(normalize_mac_paste("AABB CCDD\u{3000}EEFF"), Some("aa:bb:cc:dd:ee:ff".into()));
    assert_eq!(normalize_mac_paste("zaabbccddeeffz"), None);
    assert_eq!(normalize_mac_paste("hostname"), None);
}

#[test]
fn pasted_rows_keep_their_numbers_and_columns() {
    let lines = parse_paste_lines("\n  \r\n aa:bb:cc:dd:ee:01 , 10.1.9.1 , a b \nx\naa:bb:cc:dd:ee:02\t10.1.9.x");
    assert_eq!(lines.len(), 3);
    match &lines[0] {
        PasteLine::Candidate { line_no, reservation, raw } => {
            assert_eq!(*line_no, 3);
            assert_eq!(reservation.hw_address, "aa:bb:cc:dd:ee:01");
            assert_eq!(reservation.hostname.as_deref(), Some("a b"));
            assert_eq!((raw.hw.as_str(), raw.ip.as_str(), raw.hostname.as_str()), ("aa:bb:cc:dd:ee:01", "10.1.9.1", "a b"));
        }
        other => panic!("{other:?}"),
    }
    assert!(matches!(lines[1], PasteLine::NotMac));
    match &lines[2] {
        PasteLine::Invalid { line_no, reason, .. } => {
            assert_eq!(*line_no, 5);
            assert_eq!(reason, "ip-address 格式不合法: 10.1.9.x");
        }
        other => panic!("{other:?}"),
    }
}

#[test]
fn outcomes_stand_in_row_order_with_all_reasons() {
    let s = subnet();
    let raw = "aa:bb:cc:dd:ee:01\t10.1.9.1\n\
               aa:bb:cc:dd:ee:02\t\n\
               aa:bb:cc:dd:ee:01\t10.1.9.2\n\
               aa:bb:cc:dd:ee:03\t10.1.1.11\n";
    let plan = plan_paste(&s, raw);
    let seen: Vec<_> = plan.outcomes.iter().map(|o| (o.line_no, o.action)).collect();
    assert_eq!(seen, vec![(2, PasteAction::Skip), (3, PasteAction::Add), (4, PasteAction::Skip)]);
    assert_eq!(plan.outcomes[0].detail.as_deref(), Some("缺少 ip-address"));
    assert!(plan.outcomes[0].reservation.is_none());
    assert_eq!(plan.outcomes[2].detail.as_deref(), Some("IP 已被其他 reservation 佔用"));
    assert_eq!(plan.outcomes[2].reservation.as_ref().unwrap().ip_address.to_string(), "10.1.1.11");
}

#[test]
fn mutations_applied_in_order_give_distinct_reservations() {
    let s = subnet();
    let raw = "1c:69:7a:77:3b:98\t10.1.1.99\ta\n\
               aa:bb:cc:dd:ee:01\t10.1.1.11\tb\n\
               aa:bb:cc:dd:ee:02\t10.1.11.7\tc\n\
               C0-3F-D5-B4-BB-E3\t10.1.1.13\tdamenjingweishi\n";
    let plan = plan_paste(&s, raw);
    let mut list = s.reservations.iter().map(|x| x.clone()).collect::<Vec<_>>();
    for m in plan.mutations {
        match m {
            PasteMutation::Update { index, reservation } => list[index] = reservation,
            PasteMutation::Add { reservation } => list.push(reservation),
        }
    }
    let ips: Vec<_> = list.iter().map(|x| x.ip_address.to_string()).collect();
    assert_eq!(ips, vec!["10.1.1.99", "10.1.1.13", "10.1.1.11"], "先行的更新釋出位址，後列即可使用");
    let actions: Vec<_> = plan.outcomes.iter().map(|o| o.action).collect();
    assert_eq!(actions, vec![PasteAction::Update, PasteAction::Add, PasteAction::Skip, PasteAction::NoChange]);
}

#[test]
fn shared_hostnames_are_named_once_and_only_for_placed_rows() {
    let s = subnet();
    let raw = "aa:bb:cc:dd:ee:01\t10.1.9.1\ttwin\n\
               aa:bb:cc:dd:ee:02\t10.1.9.2\ttwin\n\
               aa:bb:cc:dd:ee:03\t10.1.1.11\tdamenjingweishi\n\
               aa:bb:cc:dd:ee:04\t10.1.9.4\tsingle\n";
    let plan = plan_paste(&s, raw);
    assert_eq!(plan.warn_hostnames, vec!["twin".to_string()]);
}

/// The subnet with the changes of a plan made to it.
fn applied(s: &Subnet, mutations: &[PasteMutation]) -> Subnet {
    let mut after = Subnet {
        cidr: s.cidr.clone(),
        pools: s.pools.iter().map(|p| p.clone()).collect(),
        reservations: s.reservations.iter().map(|x| x.clone()).collect(),
    };
    for m in mutations {
        match m {
            PasteMutation::Update { index, reservation } => after.reservations[*index] = reservation.clone(),
            PasteMutation::Add { reservation } => after.reservations.push(reservation.clone()),
        }
    }
    after
}

#[test]
fn a_second_paste_changes_nothing() {
    let s = subnet();
    let raw = "hw-address\tip-address\thostname\n\
               1C-69-7A-77-3B-98\t10.1.1.99\ttwin\n\
               aa:bb:cc:dd:ee:01\t10.1.1.11\ttwin\n\
               aa:bb:cc:dd:ee:02\t10.1.9.2\n\
               AABBCCDDEE02\t10.1.9.3\tlast\n";
    let first = plan_paste(&s, raw);
    assert!(first.outcomes.iter().all(|o| o.action != PasteAction::Skip));
    assert_eq!(first.mutations.len(), 3);
    assert_eq!(first.silent_skipped, 1);
    assert_eq!(first.warn_hostnames, vec!["twin".to_string()]);
    let after = applied(&s, &first.mutations);
    let again = plan_paste(&after, raw);
    assert!(again.mutations.is_empty());
    assert_eq!(again.outcomes.len(), first.outcomes.len());
    assert!(again.outcomes.iter().all(|o| o.action == PasteAction::NoChange && o.detail.is_none()));
    assert_eq!(again.silent_skipped, first.silent_skipped);
    assert_eq!(again.warn_hostnames, first.warn_hostnames);
}

#[test]
fn addresses_stay_distinct_though_hardware_addresses_are_not() {
    let mut s = subnet();
    s.reservations.push(r("1C:69:7A:77:3B:98", "10.1.1.12", None));
    let raw = "1c:69:7a:77:3b:98\t10.1.1.50\tone\n\
               aa:bb:cc:dd:ee:01\t10.1.1.12\n\
               aa:bb:cc:dd:ee:02\t10.1.1.11\n";
    let plan = plan_paste(&s, raw);
    let actions: Vec<_> = plan.outcomes.iter().map(|o| o.action).collect();
    assert_eq!(actions, vec![PasteAction::Update, PasteAction::Skip, PasteAction::Add]);
    let after = applied(&s, &plan.mutations);
    let ips: Vec<_> = after.reservations.iter().map(|x| x.ip_address.to_string()).collect();
    assert_eq!(ips, vec!["10.1.1.50", "10.1.1.13", "10.1.1.12", "10.1.1.11"]);
    assert_eq!(after.reservations[1], s.reservations[1], "未更新者不變");
    assert_eq!(after.reservations[2], s.reservations[2], "未更新者不變");
}

#[test]
fn hardware_addresses_stay_distinct_though_addresses_are_not() {
    let mut s = subnet();
    s.reservations.push(r("aa:bb:cc:dd:ee:09", "10.1.1.13", None));
    let raw = "AA:BB:CC:DD:EE:09\t10.1.1.14\nc0:3f:d5:b4:bb:e3\t10.1.1.15\naa:bb:cc:dd:ee:0a\t10.1.1.16\n";
    let plan = plan_paste(&s, raw);
    let after = applied(&s, &plan.mutations);
    let hws: Vec<_> = after.reservations.iter().map(|x| x.hw_address.clone()).collect();
    assert_eq!(hws, vec!["1c:69:7a:77:3b:98", "c0:3f:d5:b4:bb:e3", "aa:bb:cc:dd:ee:09", "aa:bb:cc:dd:ee:0a"]);
}

#[test]
fn every_row_is_answered_or_counted() {
    let s = subnet();
    let raw = "name\taddress\n\
               aa:bb:cc:dd:ee:01\t10.1.9.1\n\
               \n\
               aa:bb:cc:dd:ee:02\tnowhere\n\
               aa:bb:cc:dd:ee:01\t10.1.11.7\n\
               ?\t10.1.9.9\n\
               c0:3f:d5:b4:bb:e3\t10.1.1.13\tdamenjingweishi\n";
    let plan = plan_paste(&s, raw);
    let seen: Vec<_> = plan.outcomes.iter().map(|o| (o.line_no, o.action)).collect();
    assert_eq!(seen, vec![(4, PasteAction::Skip), (5, PasteAction::Skip), (7, PasteAction::NoChange)]);
    assert_eq!(plan.silent_skipped, 2);
    assert!(plan.outcomes.iter().all(|o| o.detail.is_some() == (o.action == PasteAction::Skip)));
}
