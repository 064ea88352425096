use std::str::FromStr;

use kealight::addr::Ipv4Addr;
use kealight::backup::{backup, expired_backups};
use kealight::domain::Reservation;
use kealight::file::{file_stat, temporary_name, FileStat, KeaFile, LeaseDb, Metadata, Modified};
use kealight::json::serialize_pretty3;
use kealight::save::{next_step, save_job, Progress, SaveJob, Step};
use kealight::state::AppState;
use serde_json::Value;

/// A configuration with one subnet of 239 reservations.
fn fixture() -> String {
    let mut list = vec![
        entry("1c:69:7a:77:3b:98", "10.1.1.11", "chufang-mg4670-3"),
        entry("c0:3f:d5:b4:bb:e3", "10.1.1.13", "damenjingweishi"),
    ];
    for i in 2..239u32 {
        list.push(entry(
            &format!("02:00:00:00:{:02x}:{:02x}", i / 256, i % 256),
            &format!("10.1.{}.{}", 20 + i / 200, 1 + i % 200),
            &format!("host-{i}"),
        ));
    }
    format!(
        r#"{{ "Dhcp4": {{
  "control-socket": {{ "socket-type": "unix", "socket-name": "/run/kea/kea4-ctrl-socket" }},
  "lease-database": {{ "type": "memfile", "lfc-interval": 3600 }},
  "valid-lifetime": 4000,
  "subnet4": [ {{ "id": 1, "subnet": "10.1.0.0/16",
    "pools": [ {{ "pool": "10.1.11.1 - 10.1.11.250" }} ],
    "reservations": [ {} ] }} ] }} }}"#,
        list.join(",\n")
    )
}

fn entry(hw: &str, ip: &str, host: &str) -> String {
    format!(r#"{{ "hw-address": "{hw}", "ip-address": "{ip}", "hostname": "{host}" }}"#)
}

fn load() -> KeaFile {
    KeaFile::load(&fixture()).unwrap()
}

fn lease_database(f: &mut KeaFile, key: &str, value: &str) {
    f.root
        .get_mut("Dhcp4")
        .unwrap()
        .get_mut("lease-database")
        .unwrap()
        .as_object_mut()
        .unwrap()
        .insert(key.into(), Value::String(value.into()));
}

#[test]
fn update_preserves_unmodeled_fields() {
    let mut f = load();
    f.root
        .get_mut("Dhcp4")
        .and_then(|d| d.get_mut("subnet4"))
        .and_then(Value::as_array_mut)
        .unwrap()[0]
        .get_mut("reservations")
        .and_then(Value::as_array_mut)
        .unwrap()[0]
        .as_object_mut()
        .unwrap()
        .insert("client-classes".into(), Value::String("voip".into()));
    let upd = Reservation {
        hw_address: "1c:69:7a:77:3b:98".into(),
        ip_address: Ipv4Addr::from_str("10.1.1.99").unwrap(),
        hostname: Some("renamed".into()),
    };
    f.update_reservation(0, 0, &upd).unwrap();
    let saved = f.root["Dhcp4"]["subnet4"][0]["reservations"][0].clone();
    assert_eq!(saved["client-classes"], "voip", "未建模欄位必須保留");
    assert_eq!(saved["hw-address"], "1c:69:7a:77:3b:98");
    assert_eq!(saved["ip-address"], "10.1.1.99");
    assert_eq!(saved["hostname"], "renamed");
}

#[test]
fn update_removes_hostname_when_cleared() {
    let mut f = load();
    let upd = Reservation {
        hw_address: "1c:69:7a:77:3b:98".into(),
        ip_address: Ipv4Addr::from_str("10.1.1.11").unwrap(),
        hostname: None,
    };
    f.update_reservation(0, 0, &upd).unwrap();
    let saved = f.root["Dhcp4"]["subnet4"][0]["reservations"][0].clone();
    assert!(saved.get("hostname").is_none());
}

#[test]
fn load_fixture_parses_subnets_and_reservations() {
    let f = load();
    assert_eq!(f.subnet_count(), 1);
    let s = f.subnet(0).expect("subnet 0");
    assert_eq!(s.cidr.to_string(), "10.1.0.0/16");
    assert_eq!(s.reservations.len(), 239);
    assert_eq!(s.pools.len(), 1);
    assert_eq!(s.pools[0].start, Ipv4Addr::from_str("10.1.11.1").unwrap());
    assert_eq!(s.pools[0].end, Ipv4Addr::from_str("10.1.11.250").unwrap());
    let first = &s.reservations[0];
    assert_eq!(first.hw_address, "1c:69:7a:77:3b:98");
    assert_eq!(first.ip_address.to_string(), "10.1.1.11");
    assert_eq!(first.hostname.as_deref(), Some("chufang-mg4670-3"));
}

#[test]
fn serialize_uses_three_space_indent_and_roundtrips() {
    let v: Value = serde_json::from_str(r#"{"Dhcp4":{"a":1,"arr":[{"b":2}]}}"#).unwrap();
    let out = serialize_pretty3(&v);
    assert_eq!(out, "{\n   \"Dhcp4\": {\n      \"a\": 1,\n      \"arr\": [\n         {\n            \"b\": 2\n         }\n      ]\n   }\n}");
    let back: Value = serde_json::from_str(&out).unwrap();
    assert_eq!(back, v);
}

#[test]
fn full_fixture_roundtrips_through_serializer() {
    let f = load();
    let out = serialize_pretty3(&f.root);
    let back: Value = serde_json::from_str(&out).unwrap();
    assert_eq!(back, f.root);
    assert!(out.starts_with("{\n   \"Dhcp4\": {\n"));
}

#[test]
fn add_update_delete_mutate_model() {
    let mut f = load();
    let new = Reservation {
        hw_address: "aa:bb:cc:dd:ee:01".into(),
        ip_address: Ipv4Addr::from_str("10.1.9.9").unwrap(),
        hostname: Some("test-host".into()),
    };
    f.add_reservation(0, &new).unwrap();
    assert_eq!(f.subnet(0).unwrap().reservations.len(), 240);

    let upd = Reservation {
        hw_address: "aa:bb:cc:dd:ee:02".into(),
        ip_address: Ipv4Addr::from_str("10.1.9.10").unwrap(),
        hostname: None,
    };
    f.update_reservation(0, 0, &upd).unwrap();
    let s = f.subnet(0).unwrap();
    assert_eq!(s.reservations[0].hw_address, "aa:bb:cc:dd:ee:02");
    assert_eq!(s.reservations[0].hostname, None);

    f.delete_reservation(0, 0).unwrap();
    assert_eq!(f.subnet(0).unwrap().reservations.len(), 239);
}

#[test]
fn save_writes_parseable_file() {
    let mut f = load();
    f.add_reservation(
        0,
        &Reservation {
            hw_address: "aa:bb:cc:dd:ee:ff".into(),
            ip_address: Ipv4Addr::from_str("10.1.8.8").unwrap(),
            hostname: Some("saved".into()),
        },
    )
    .unwrap();
    let reloaded = KeaFile::load(&f.save()).unwrap();
    assert_eq!(reloaded.subnet(0).unwrap().reservations.len(), 240);
}

#[test]
fn backup_creates_and_prunes() {
    let created = backup(true, "kea.conf", 1700000000).expect("backup created");
    assert_eq!(created, "kea.conf.1700000000.bak");
    let mut names: Vec<String> = vec!["kea.conf".into()];
    for i in 1..=3 {
        names.push(format!("kea.conf.{i}.bak"));
    }
    names.push(created);
    let gone = expired_backups("kea.conf", &names, 2);
    let remain: Vec<_> = names.iter().filter(|n| n.ends_with(".bak") && !gone.contains(n)).collect();
    assert_eq!(remain.len(), 2, "保留 2 份: {remain:?}");
}

#[test]
fn control_socket_read_from_fixture() {
    let f = load();
    let cs = f.control_socket().expect("control socket");
    assert_eq!(cs.socket_type, "unix");
    assert_eq!(cs.socket_name, "/run/kea/kea4-ctrl-socket");
}

#[test]
fn file_stat_missing_returns_none() {
    assert!(file_stat(None).unwrap().is_none());
}

#[test]
fn file_stat_reads_size_and_mtime() {
    let st = file_stat(Some(Metadata { modified: Modified::At(1_700_000_000_000_000_000), size: 5 }))
        .unwrap()
        .expect("stat exists");
    assert_eq!(st.size, 5);
    assert!(st.mtime_ns > 0);
}

#[test]
fn lease_db_default_path_when_memfile_without_name() {
    let f = load();
    match f.lease_db() {
        LeaseDb::Memfile(p) => assert_eq!(p, "/var/lib/kea/kea-leases4.csv"),
        other => panic!("fixture 的 memfile 未宣告 name 應回預設路徑: {other:?}"),
    }
}

#[test]
fn lease_db_rejects_non_memfile() {
    let mut f = load();
    lease_database(&mut f, "type", "mysql");
    match f.lease_db() {
        LeaseDb::Unavailable(msg) => assert!(msg.contains("非 memfile"), "msg: {msg}"),
        other => panic!("非 memfile 應回 Unavailable: {other:?}"),
    }
}

#[test]
fn lease_db_bare_name_joins_default_dir() {
    let mut f = load();
    lease_database(&mut f, "name", "custom.csv");
    match f.lease_db() {
        LeaseDb::Memfile(p) => assert_eq!(p, "/var/lib/kea/custom.csv"),
        other => panic!("裸檔名應與預設目錄組合: {other:?}"),
    }
}

#[test]
fn lease_db_path_with_slash_used_literally() {
    let mut f = load();
    lease_database(&mut f, "name", "/tmp/x/leases.csv");
    match f.lease_db() {
        LeaseDb::Memfile(p) => assert_eq!(p, "/tmp/x/leases.csv"),
        other => panic!("含 / 的 name 應照字面使用: {other:?}"),
    }
}

#[test]
fn subnet_list_carries_ids() {
    let f = load();
    let summaries = f.subnet_list();
    assert_eq!(summaries[0].id, Some(1));
    assert_eq!(summaries[0].cidr, "10.1.0.0/16");
    assert_eq!(summaries[0].reservation_count, 239);
}

#[test]
fn reservation_hwaddrs_collects_all() {
    let f = load();
    let hws = f.reservation_hwaddrs();
    assert_eq!(hws.len(), 239);
    assert!(hws.contains(&"1c:69:7a:77:3b:98".into()));
}

#[test]
fn hwaddrs_are_given_in_small_letters_with_colons() {
    let text = r#"{"Dhcp4":{"subnet4":[{"reservations":[{"hw-address":"AA-BB-CC-DD-EE-01"},{"hw-address":"AA:BB:CC:DD:EE:02"}]},
        {"no":1},{"reservations":[{"x":1},{"hw-address":"ÄB"}]}]}}"#;
    let f = KeaFile::load(text).unwrap();
    assert_eq!(f.reservation_hwaddrs(), vec!["aa:bb:cc:dd:ee:01", "aa:bb:cc:dd:ee:02", "äb"]);
}

#[test]
fn load_says_what_is_wrong() {
    assert_eq!(KeaFile::load("{").err().unwrap().to_string(), "設定檔不是合法 JSON");
    assert_eq!(KeaFile::load("{}").err().unwrap().to_string(), "設定檔缺少 Dhcp4 區塊");
    assert_eq!(KeaFile::load("[]").err().unwrap().to_string(), "設定檔缺少 Dhcp4 區塊");
    assert!(KeaFile::load(r#"{"Dhcp4":null}"#).is_ok());
}

fn res(hw: &str, ip: &str, hostname: Option<&str>) -> Reservation {
    Reservation {
        hw_address: hw.into(),
        ip_address: Ipv4Addr::from_str(ip).unwrap(),
        hostname: hostname.map(str::to_string),
    }
}

#[test]
fn subnets_that_cannot_be_read_say_why() {
    let text = r#"{"Dhcp4":{"subnet4":[{"x":1},{"subnet":"nope"},{"subnet":"10.0.0.0/8"}]}}"#;
    let mut f = KeaFile::load(text).unwrap();
    assert_eq!(f.subnet(0).unwrap_err().to_string(), "subnet 缺少 subnet 欄位");
    assert_eq!(f.subnet(1).unwrap_err().to_string(), "subnet CIDR 不合法: nope");
    assert_eq!(f.subnet(3).unwrap_err().to_string(), "subnet 索引超出範圍: 3");
    let s = f.subnet(2).unwrap();
    assert!(s.pools.is_empty() && s.reservations.is_empty());
    let r = res("aa:bb:cc:dd:ee:01", "10.1.9.9", None);
    assert_eq!(f.add_reservation(2, &r).unwrap_err().to_string(), "subnet 缺少 reservations 陣列");
    assert_eq!(f.add_reservation(9, &r).unwrap_err().to_string(), "subnet 索引超出範圍: 9");
    let list = f.subnet_list();
    assert_eq!((list[0].cidr.as_str(), list[0].id, list[0].reservation_count), ("?", None, 0));
    let mut f = KeaFile::load(r#"{"Dhcp4":{}}"#).unwrap();
    assert_eq!(f.subnet(0).unwrap_err().to_string(), "設定檔缺少 subnet4");
    assert_eq!(f.update_reservation(0, 0, &r).unwrap_err().to_string(), "設定檔缺少 subnet4");
    assert_eq!(f.delete_reservation(0, 0).unwrap_err().to_string(), "設定檔缺少 subnet4");
    assert_eq!(f.subnet_count(), 0);
    assert!(f.subnet_list().is_empty() && f.reservation_hwaddrs().is_empty());
}

#[test]
fn entries_out_of_range_are_refused() {
    let mut f = load();
    let before = f.save();
    let r = res("aa:bb:cc:dd:ee:01", "10.1.9.9", None);
    assert_eq!(f.update_reservation(0, 239, &r).unwrap_err().to_string(), "reservation 索引超出範圍: 239");
    assert_eq!(f.delete_reservation(0, 500).unwrap_err().to_string(), "reservation 索引超出範圍: 500");
    assert_eq!(f.save(), before);
}

#[test]
fn unreadable_entries_and_pools_are_left_out() {
    let text = r#"{"Dhcp4":{"subnet4":[{"subnet":"10.0.0.0/8",
        "pools":[{"pool":"10.0.0.1-10.0.0.9"},{"pool":"10.0.0.0/24"},{"pool":"x - y"},{"p":1}],
        "reservations":[{"hw-address":"a","ip-address":"10.0.0.77"},{"hw-address":"b"},{"hw-address":"c","ip-address":"z"},
            {"hw-address":"d","ip-address":"10.0.0.78","hostname":""}]}]}}"#;
    let s = KeaFile::load(text).unwrap().subnet(0).unwrap();
    assert_eq!(s.pools.len(), 1);
    assert_eq!(s.pools[0].end.to_string(), "10.0.0.9");
    let seen: Vec<_> = s.reservations.iter().map(|r| (r.hw_address.as_str(), r.hostname.as_deref())).collect();
    assert_eq!(seen, vec![("a", None), ("d", Some(""))]);
}

#[test]
fn adding_and_deleting_gives_back_the_file() {
    let mut f = load();
    let before = f.save();
    f.add_reservation(0, &res("aa:bb:cc:dd:ee:01", "10.1.9.9", Some(""))).unwrap();
    let added = f.subnet(0).unwrap().reservations.pop().unwrap();
    assert_eq!(added.hostname, None, "空 hostname 不寫入");
    f.delete_reservation(0, 239).unwrap();
    assert_eq!(f.save(), before);
}

#[test]
fn an_entry_that_is_no_object_stays() {
    let mut f = KeaFile::load(r#"{"Dhcp4":{"subnet4":[{"reservations":[7]}]}}"#).unwrap();
    f.update_reservation(0, 0, &res("aa:bb:cc:dd:ee:01", "10.1.9.9", None)).unwrap();
    assert_eq!(f.root["Dhcp4"]["subnet4"][0]["reservations"][0], 7);
}

#[test]
fn saved_text_is_read_back_whatever_it_holds() {
    let text = r#"{"Dhcp4":{"z":[],"a":{},"t":"q\"b\\n\n\r\t\b\f\u0001/é漢😀","n":[-9223372036854775808,18446744073709551615,0,null,true,false]},"A":[[[{}]]]}"#;
    let f = KeaFile::load(text).unwrap();
    let saved = f.save();
    let back = KeaFile::load(&saved).unwrap();
    assert_eq!(back.root, f.root);
    assert_eq!(back.save(), saved);
    assert!(saved.contains("\"t\": \"q\\\"b\\\\n\\n\\r\\t\\b\\f\\u0001/é漢😀\""), "{saved}");
    assert!(saved.contains("\"a\": {},"), "{saved}");
    assert!(saved.contains("\"z\": []\n"), "{saved}");
}

#[test]
fn keys_are_read_back_whatever_they_hold() {
    let text = r#"{"Dhcp4":{"say \"hi\"":1,"back\\slash":{"line\nbreak":[]},"漢":"é","\u0001":null}}"#;
    let f = KeaFile::load(text).unwrap();
    let saved = f.save();
    assert_eq!(KeaFile::load(&saved).unwrap().root, f.root);
    assert!(saved.contains(r#""say \"hi\"": 1"#), "{saved}");
    assert!(saved.contains(r#""back\\slash": {"#), "{saved}");
    assert!(saved.contains(r#""line\nbreak": []"#), "{saved}");
}

#[test]
fn names_that_the_parser_knows_are_read_back_too() {
    let text = r#"{"Dhcp4":{"n":{"$serde_json::private::Number":"7"},
        "v":{"$a":1,"$serde_json::private::RawValue":"[1]"},"e":{"":0,"$serde_json::private::RawValue":null}}}"#;
    let f = KeaFile::load(text).unwrap();
    assert_eq!(f.root["Dhcp4"]["v"]["$serde_json::private::RawValue"], "[1]");
    let back = KeaFile::load(&f.save()).unwrap();
    assert_eq!(back.root, f.root);
    assert_eq!(back.root["Dhcp4"]["n"]["$serde_json::private::Number"], "7");
}

#[test]
fn edited_files_are_read_back() {
    let text = r#"{"Dhcp4":{"subnet4":[{"subnet":"10.1.0.0/16","reservations":[
        {"hw-address":"aa:bb:cc:dd:ee:01","ip-address":"10.1.9.1","note \"x\"":{"deep":[1,[]]}}]}]}}"#;
    let mut f = KeaFile::load(text).unwrap();
    f.add_reservation(0, &res("aa:bb:cc:dd:ee:02", "10.1.9.2", Some("引\"號\\"))).unwrap();
    assert_eq!(KeaFile::load(&f.save()).unwrap().root, f.root);
    f.update_reservation(0, 0, &res("aa:bb:cc:dd:ee:03", "10.1.9.3", None)).unwrap();
    assert_eq!(KeaFile::load(&f.save()).unwrap().root, f.root);
    f.delete_reservation(0, 1).unwrap();
    let back = KeaFile::load(&f.save()).unwrap();
    assert_eq!(back.root, f.root);
    assert_eq!(back.subnet(0).unwrap().reservations, vec![res("aa:bb:cc:dd:ee:03", "10.1.9.3", None)]);
}

#[test]
fn nesting_up_to_the_limit_is_read_back() {
    let mut text = String::from("1");
    for _ in 0..125 {
        text = format!("[{text}]");
    }
    let f = KeaFile::load(&format!("{{\"Dhcp4\":{{\"x\":{text}}}}}")).unwrap();
    assert_eq!(KeaFile::load(&f.save()).unwrap().root, f.root);
    assert!(KeaFile::load(&format!("{{\"Dhcp4\":{{\"x\":[{text}]}}}}")).is_err());
}

#[test]
fn file_stat_of_odd_times() {
    let at = |modified| file_stat(Some(Metadata { modified, size: 7 }));
    assert_eq!(at(Modified::Unknown).unwrap(), Some(FileStat { mtime_ns: 0, size: 7 }));
    assert_eq!(at(Modified::At(12)).unwrap(), Some(FileStat { mtime_ns: 12, size: 7 }));
    assert_eq!(at(Modified::At(u64::MAX as u128)).unwrap(), Some(FileStat { mtime_ns: u64::MAX, size: 7 }));
    assert_eq!(at(Modified::At(u64::MAX as u128 + 1)).unwrap(), Some(FileStat { mtime_ns: 0, size: 7 }));
    assert_eq!(at(Modified::BeforeEpoch("1s".into())).unwrap_err().to_string(), "讀取修改時間失敗: 1s");
}

#[test]
fn lease_db_without_its_section_says_so() {
    let unavailable = |text: &str| match KeaFile::load(text).unwrap().lease_db() {
        LeaseDb::Unavailable(m) => m,
        other => panic!("{other:?}"),
    };
    assert_eq!(unavailable(r#"{"Dhcp4":{}}"#), "設定檔缺少 lease-database 區段，無法顯示租用");
    assert_eq!(unavailable(r#"{"Dhcp4":{"lease-database":{}}}"#), "設定檔 lease-database 缺少 type，無法顯示租用");
    assert_eq!(
        unavailable(r#"{"Dhcp4":{"lease-database":{"type":"mysql"}}}"#),
        "租用資料庫型別「mysql」非 memfile，無法顯示租用"
    );
}

#[test]
fn backups_of_other_files_do_not_count() {
    assert_eq!(backup(false, "kea.conf", 5), None);
    let names: Vec<String> = ["kea.conf.9.bak", "kea.conf.10.bak", "kea.conf.x.bak", "other.1.bak", "kea.conf.1.bak.old", "kea.conf.+2.bak", "kea.conf..bak"]
        .iter()
        .map(|s| s.to_string())
        .collect();
    assert_eq!(expired_backups("kea.conf", &names, 0), vec!["kea.conf.+2.bak", "kea.conf.9.bak", "kea.conf.10.bak"]);
    assert_eq!(expired_backups("kea.conf", &names, 1), vec!["kea.conf.+2.bak", "kea.conf.9.bak"]);
    assert!(expired_backups("kea.conf", &names, 3).is_empty());
    assert_eq!(temporary_name("kea.conf"), ".kea.conf.tmp");
}

/// A directory in memory: names and what the files hold.
fn save_into(dir: &mut Vec<(String, String)>, job: &SaveJob, seconds: u64) -> Vec<&'static str> {
    let mut taken = Vec::new();
    let exists = dir.iter().any(|(n, _)| *n == job.file_name);
    let mut progress = Progress::Begun { exists, now: Ok(seconds) };
    loop {
        progress = match next_step(job, progress) {
            Step::Copy { to } => {
                taken.push("copy");
                let text = dir.iter().find(|(n, _)| *n == job.file_name).unwrap().1.clone();
                dir.push((to, text));
                Progress::Copied(Ok(()))
            }
            Step::List => {
                taken.push("list");
                Progress::Listed(Ok(dir.iter().map(|(n, _)| n.clone()).collect()))
            }
            Step::Remove { names } => {
                taken.push("remove");
                dir.retain(|(n, _)| !names.contains(n));
                Progress::Removed
            }
            Step::Write { to, text } => {
                taken.push("write");
                dir.push((to, text));
                Progress::Written(Ok(()))
            }
            Step::Replace { from } => {
                taken.push("replace");
                dir.retain(|(n, _)| *n != job.file_name);
                dir.iter_mut().find(|(n, _)| *n == from).unwrap().0 = job.file_name.clone();
                Progress::Replaced(Ok(()))
            }
            Step::Finish(outcome) => {
                outcome.unwrap();
                return taken;
            }
        };
    }
}

#[test]
fn every_save_makes_a_backup_first_and_keeps_the_newest() {
    let text = r#"{"Dhcp4":{}}"#;
    let st = AppState::load("kea.conf".into(), 2, text, Ok(None)).unwrap();
    let job = save_job(&st, "kea.conf");
    let mut dir: Vec<(String, String)> = Vec::new();
    assert_eq!(save_into(&mut dir, &job, 1), vec!["write", "replace"]);
    assert_eq!(dir, vec![("kea.conf".to_string(), st.file.save())]);
    for seconds in [9, 10, 11] {
        assert_eq!(save_into(&mut dir, &job, seconds), vec!["copy", "list", "remove", "write", "replace"]);
    }
    let mut names: Vec<&str> = dir.iter().map(|(n, _)| n.as_str()).collect();
    names.sort();
    assert_eq!(names, vec!["kea.conf", "kea.conf.10.bak", "kea.conf.11.bak"]);
}

#[test]
fn a_save_that_fails_says_where() {
    let job = SaveJob { file_name: "k".into(), keep: 1, text: "t".into() };
    let message = |p: Progress| match next_step(&job, p) {
        Step::Finish(Err(e)) => e.to_string(),
        other => panic!("{other:?}"),
    };
    assert_eq!(message(Progress::Begun { exists: true, now: Err("x".into()) }), "取得時間失敗: x");
    assert_eq!(message(Progress::Copied(Err("/a/k.1.bak".into()))), "建立備份失敗: /a/k.1.bak");
    assert_eq!(message(Progress::Listed(Err("no".into()))), "no");
    assert_eq!(message(Progress::Written(Err("/a/.k.tmp".into()))), "寫入暫存檔失敗: /a/.k.tmp");
    assert_eq!(message(Progress::Replaced(Err("/a/k".into()))), "替換設定檔失敗: /a/k");
    let first = next_step(&job, Progress::Begun { exists: false, now: Err("x".into()) });
    assert!(matches!(first, Step::Write { to, text } if to == ".k.tmp" && text == "t"));
}
