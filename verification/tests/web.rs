use std::str::FromStr;

use kealight::addr::Ipv4Addr;
use kealight::arp::mac_from_arp_table;
use kealight::domain::Reservation;
use kealight::error::KeaError;
use kealight::file::{file_stat, FileStat, KeaFile, LeaseDb, Metadata, Modified};
use kealight::form::{form_html, reservation_from_form, ReservationForm};
use kealight::html::{escape, ok_reload_html, page_window, urlencode};
use kealight::lease_page::lease_sort_key;
use kealight::leases::parse;
use kealight::list::sort_key_bytes;
use kealight::operation::{advance, Action, Event, Operation};
use kealight::query::{
    leases_base_href, leases_page_url, redirect_to_next, subnet_page_url, th_link, LeasesQuery, ListQuery,
};
use kealight::reload::unreachable_error;
use kealight::state::{resolve_external, AppState, Gate, Refresh, Resolution};
use kealight::web::{
    edit_form, external_adopt, external_overwrite, leases_page, new_form, root, subnet_list, Reply,
};
use serde_json::Value;

/// A configuration with one subnet of 239 reservations.
fn fixture() -> String {
    let mut list = vec![
        entry("1c:69:7a:77:3b:98", "10.1.1.11", "chufang-mg4670-3"),
        entry("c0:3f:d5:b4:bb:e3", "10.1.1.13", "damenjingweishi"),
    ];
    for i in 2..239u32 {
        list.push(entry(
            &format!("02:00:00:00:{:02x}:{:02x}", i / 256, i % 256),
            &format!("10.1.{}.{}", 20 + i / 200, 1 + i % 200),
            &format!("host-{i}"),
        ));
    }
    format!(
        r#"{{ "Dhcp4": {{
  "control-socket": {{ "socket-type": "unix", "socket-name": "/run/kea/kea4-ctrl-socket" }},
  "lease-database": {{ "type": "memfile", "lfc-interval": 3600 }},
  "subnet4": [ {{ "id": 1, "subnet": "10.1.0.0/16",
    "pools": [ {{ "pool": "10.1.11.1 - 10.1.11.250" }} ],
    "reservations": [ {} ] }} ] }} }}"#,
        list.join(",\n")
    )
}

fn entry(hw: &str, ip: &str, host: &str) -> String {
    format!(r#"{{ "hw-address": "{hw}", "ip-address": "{ip}", "hostname": "{host}" }}"#)
}

/// The tool with a disk of its own.
struct Site {
    st: AppState,
    disk: Option<String>,
    written: u64,
    leases: Option<String>,
}

fn stat_of(disk: &Option<String>, written: u64) -> Result<Option<FileStat>, KeaError> {
    file_stat(disk.as_ref().map(|t| Metadata { modified: Modified::At(written as u128), size: t.len() as u64 }))
}

fn site_with(text: String) -> Site {
    let disk = Some(text);
    let st = AppState::load("kea-dhcp4.conf".into(), 3, disk.as_ref().unwrap(), stat_of(&disk, 1)).unwrap();
    Site { st, disk, written: 1, leases: None }
}

fn test_app() -> Site {
    site_with(fixture())
}

fn answer(r: Reply) -> (u16, String) {
    match r {
        Reply::Html { status, body } => (status, body),
        Reply::Redirect { to } => (303, to),
    }
}

impl Site {
    fn stat(&self) -> Result<Option<FileStat>, KeaError> {
        stat_of(&self.disk, self.written)
    }

    fn read(&self) -> Option<KeaFile> {
        self.disk.as_ref().and_then(|t| KeaFile::load(t).ok())
    }

    fn write(&mut self, text: String) {
        self.disk = Some(text);
        self.written += 1;
    }

    fn look(&mut self) -> Refresh {
        let stat = self.stat();
        let disk = if self.st.needs_reload(&stat) { self.read() } else { None };
        self.st.refresh_external(&stat, disk)
    }

    fn list(&mut self, q: ListQuery) -> (u16, String) {
        let refresh = self.look();
        answer(subnet_list(&self.st, 0, &q, &refresh))
    }

    fn lease_list(&mut self, q: LeasesQuery) -> (u16, String) {
        let refresh = self.look();
        answer(leases_page(&self.st, &q, &refresh, &self.leases, &Ok(1_700_000_000)))
    }

    fn edit(&mut self, ridx: usize) -> (u16, String) {
        let refresh = self.look();
        answer(edit_form(&self.st, 0, ridx, &refresh, None))
    }

    fn run(&mut self, op: Operation) -> (u16, String) {
        let stat = self.stat();
        let disk = if self.st.needs_reload(&stat) { self.read() } else { None };
        let mut event = Event::Looked { stat, disk };
        loop {
            event = match advance(&mut self.st, &op, event) {
                Action::Answer(reply) => return answer(reply),
                Action::Read => Event::Read { disk: self.read(), stat: self.stat() },
                Action::Overwrite => {
                    let text = self.st.file.save();
                    self.write(text);
                    Event::Overwritten(Ok(self.stat()))
                }
                Action::Save { target } => {
                    let text = self.st.file.save();
                    self.write(text);
                    Event::Saved { outcome: Ok(self.stat()), target }
                }
                Action::Ask(cs) => Event::Answered(Err(unreachable_error(&cs))),
            };
        }
    }

    fn submit(&mut self, ridx: Option<usize>, hw: &str, ip: &str, hostname: Option<&str>, resolve: Option<&str>) -> (u16, String) {
        self.run(Operation::Submit {
            idx: 0,
            ridx,
            form: ReservationForm {
                hw_address: hw.into(),
                ip_address: ip.into(),
                hostname: hostname.map(str::to_string),
                external_resolve: resolve.map(str::to_string),
            },
            peer_mac: None,
        })
    }

    fn create(&mut self, hw: &str, ip: &str) -> (u16, String) {
        self.submit(None, hw, ip, None, None)
    }

    fn reloaded(&self) -> KeaFile {
        KeaFile::load(self.disk.as_ref().unwrap()).unwrap()
    }

    /// Someone else edits the file on disk.
    fn externally_edit(&mut self, hw: &str, ip: &str) {
        let mut f = self.reloaded();
        f.add_reservation(
            0,
            &Reservation {
                hw_address: hw.to_string(),
                ip_address: Ipv4Addr::from_str(ip).unwrap(),
                hostname: Some("external-edit".into()),
            },
        )
        .unwrap();
        let text = f.save();
        self.write(text);
    }
}

fn q(needle: &str) -> ListQuery {
    ListQuery { q: Some(needle.into()), ..ListQuery::default() }
}

fn sorted(field: &str, dir: Option<&str>) -> ListQuery {
    ListQuery { sort: Some(field.into()), dir: dir.map(str::to_string), ..ListQuery::default() }
}

#[test]
fn root_redirects_to_first_subnet() {
    let app = test_app();
    let (status, to) = answer(root(&app.st));
    assert_eq!(status, 303);
    assert_eq!(to, "/subnet/0?pick=1");
}

#[test]
fn subnet_list_page_ok() {
    let mut app = test_app();
    let (status, body) = app.list(ListQuery::default());
    assert_eq!(status, 200);
    assert!(body.contains("10.1.0.0/16"));
    assert!(body.contains("chufang-mg4670-3"));
}

#[test]
fn subnet_list_missing_subnet_is_404() {
    let app = test_app();
    let (status, _) = answer(subnet_list(&app.st, 99, &ListQuery::default(), &Refresh::Unchanged));
    assert_eq!(status, 404);
}

#[test]
fn arp_table_lookup_hits_and_misses() {
    let table = "IP address       HW type     Flags       HW address            Mask     Device\n\
10.1.1.2         0x1         0x2         aa:bb:cc:dd:ee:ff     *        eth0\n\
10.1.1.3         0x1         0x0         00:00:00:00:00:00     *        eth0";
    assert_eq!(mac_from_arp_table(&table, "10.1.1.2"), Some("aa:bb:cc:dd:ee:ff".into()));
    assert!(
        mac_from_arp_table(&table, "10.1.1.3").is_none(),
        "incomplete（00:00:00:00:00:00）應視為查無"
    );
    assert!(mac_from_arp_table(&table, "10.9.9.9").is_none(), "無命中的 IP 應回 None");
}

#[test]
fn form_renders_peer_mac_hint() {
    let html = form_html(0, None, None, &[], &[], Some("aa:bb:cc:dd:ee:ff".into()));
    assert!(html.contains("目前連線主機 MAC：aa:bb:cc:dd:ee:ff（可供手動填入）"), "form: {html}");
    let html = form_html(0, None, None, &[], &[], None);
    assert!(html.contains("無法取得連線主機 MAC（需與本系統同一層網路）"), "form: {html}");
}

#[test]
fn edit_form_shows_peer_mac_hint() {
    let mut app = test_app();
    let (status, body) = app.edit(0);
    assert_eq!(status, 200);
    assert!(body.contains("連線主機 MAC"), "編輯表單應顯示連線主機 MAC 的提示或查無提示：{body}");
}

#[test]
fn search_filters_rows() {
    let mut app = test_app();
    let (status, body) = app.list(q("chufang"));
    assert_eq!(status, 200);
    assert!(body.contains("chufang-mg4670-3"));
    assert!(!body.contains("damenjingweishi"));
}

#[test]
fn searched_list_edit_urls_use_real_indexes() {
    let mut app = test_app();
    let f = app.reloaded();
    let mut needled = None;
    for (i, r) in f.subnet(0).unwrap().reservations.iter().enumerate() {
        if r.hostname.as_deref() == Some("chufang-mg4670-3") {
            needled = Some(i);
            break;
        }
    }
    let ridx = needled.expect("fixture 應含 chufang-mg4670-3");
    let (status, body) = app.list(q("mg4670-3"));
    assert_eq!(status, 200);
    assert!(body.contains(&format!("/subnet/0/res/{ridx}/edit")), "編輯應指向真實索引 {ridx}：{body}");
    assert!(body.contains(&format!("/subnet/0/res/{ridx}/delete")), "刪除應指向真實索引 {ridx}：{body}");
    assert!(!body.contains(&format!("/subnet/0/res/{}/edit", ridx + 1)), "不得以過濾後位置充當索引：{body}");
    assert!(!body.contains(&format!("/subnet/0/res/{}/delete", ridx + 1)), "不得以過濾後位置充當索引：{body}");
}

#[test]
fn new_form_renders() {
    let app = test_app();
    let (status, body) = answer(new_form(&app.st, 0, &Refresh::Unchanged, None));
    assert_eq!(status, 200);
    assert!(body.contains("hw_address"));
}

#[test]
fn sort_by_ip_orders_numerically() {
    let mut app = test_app();
    let f = app.reloaded();
    let mut ips: Vec<(u32, String)> = Vec::new();
    for r in f.subnet(0).unwrap().reservations {
        ips.push((r.ip_address.bits, r.hw_address.clone()));
    }
    ips.sort_by_key(|(v, _)| *v);
    let (_, hw_min) = &ips[0];
    let (_, hw_snd) = &ips[1];
    let (status, body) = app.list(sorted("ip-address", None));
    assert_eq!(status, 200);
    let pos_min = body.find(hw_min.as_str()).expect("最小 IP 應出現於排序頁");
    let pos_snd = body.find(hw_snd.as_str()).expect("第二小 IP 應出現於排序頁");
    assert!(pos_min < pos_snd, "ip-address 應依數值排序：{hw_min} 須先於 {hw_snd}，body: {body}");
}

#[test]
fn sort_header_cycles_and_marks() {
    let mut app = test_app();
    let (status, body) = app.list(sorted("hostname", None));
    assert_eq!(status, 200);
    assert!(body.contains("hostname ▲"), "asc 應標 ▲：{body}");
    assert!(!body.contains("hostname ▼"));
    assert!(body.contains(r##"href="/subnet/0?sort=hostname&dir=desc""##), "升冪再點應切到 desc：{body}");
    let (_, body) = app.list(sorted("hostname", Some("desc")));
    assert!(body.contains("hostname ▼"), "desc 應標 ▼：{body}");
    assert!(body.contains(r##"href="/subnet/0" hx-get="/subnet/0""##), "第三態（再點回無排序）不應帶 sort 參數：{body}");
    let (status, body) = app.list(sorted("evil", None));
    assert_eq!(status, 200);
    assert!(!body.contains(" ▲") && !body.contains(" ▼"), "無效 sort 應忽略且無標記：{body}");
}

#[test]
fn search_input_keeps_current_sort() {
    let mut app = test_app();
    let (status, body) =
        app.list(ListQuery { q: Some("chufang".into()), ..sorted("ip-address", Some("desc")) });
    assert_eq!(status, 200);
    assert!(
        body.contains(r#"hx-vals='{"sort":"ip-address","dir":"desc"}'"#),
        "即時搜尋請求應帶當前排序：{body}"
    );
}

#[test]
fn create_valid_reservation_redirects_and_writes_file() {
    let mut app = test_app();
    let (status, to) = app.submit(None, "aa:bb:cc:dd:ee:01", "10.1.9.9", Some("test-host"), None);
    assert_eq!(status, 303);
    assert_eq!(to, "/subnet/0");
    assert_eq!(app.reloaded().subnet(0).unwrap().reservations.len(), 240);
}

#[test]
fn create_duplicate_mac_rejected_with_conflict_page() {
    let mut app = test_app();
    let (status, body) = app.create("1c:69:7a:77:3b:98", "10.1.9.9");
    assert_eq!(status, 422);
    assert!(body.contains("唯一鍵衝突"), "body: {body}");
}

#[test]
fn create_ip_in_pool_rejected() {
    let mut app = test_app();
    let (status, body) = app.create("aa:bb:cc:dd:ee:02", "10.1.11.50");
    assert_eq!(status, 422);
    assert!(body.contains("dynamic pool"));
}

#[test]
fn malformed_mac_rejected() {
    let mut app = test_app();
    let (status, body) = app.create("not-a-mac", "10.1.9.9");
    assert_eq!(status, 422);
    assert!(body.contains("格式不合法"));
}

#[test]
fn edit_form_renders_existing_values() {
    let mut app = test_app();
    let (status, body) = app.edit(0);
    assert_eq!(status, 200);
    assert!(body.contains("1c:69:7a:77:3b:98"));
}

#[test]
fn update_reservation_redirects_and_writes_file() {
    let mut app = test_app();
    let (status, _) = app.submit(Some(0), "1c:69:7a:77:3b:98", "10.1.1.99", Some("renamed"), None);
    assert_eq!(status, 303);
    let s = app.reloaded().subnet(0).unwrap();
    assert_eq!(s.reservations.len(), 239);
    assert_eq!(s.reservations[0].ip_address.to_string(), "10.1.1.99");
    assert_eq!(s.reservations[0].hostname.as_deref(), Some("renamed"));
}

#[test]
fn update_with_ip_taken_elsewhere_rejected() {
    let mut app = test_app();
    let (status, body) = app.submit(Some(0), "1c:69:7a:77:3b:98", "10.1.1.13", None, None);
    assert_eq!(status, 422);
    assert!(body.contains("IP 已被其他 reservation 佔用"));
}

#[test]
fn delete_reservation_redirects_and_writes_file() {
    let mut app = test_app();
    let (status, _) = app.run(Operation::Delete { idx: 0, ridx: 0, decision: None });
    assert_eq!(status, 303);
    assert_eq!(app.reloaded().subnet(0).unwrap().reservations.len(), 238);
}

#[test]
fn apply_without_pending_changes_does_not_connect() {
    let mut app = test_app();
    let (status, body) = app.run(Operation::Apply { decision: None });
    assert_eq!(status, 200);
    assert!(body.contains("沒有待套用的變更"));
}

#[test]
fn create_with_duplicate_hostname_redirects_with_warning() {
    let mut app = test_app();
    let (status, to) = app.submit(None, "aa:bb:cc:dd:ee:07", "10.1.9.7", Some("chufang-mg4670-3"), None);
    assert_eq!(status, 303);
    assert_eq!(to, "/subnet/0?warn=chufang-mg4670-3");
    let (status, body) = app.list(ListQuery { warn: Some("chufang-mg4670-3".into()), ..ListQuery::default() });
    assert_eq!(status, 200);
    assert!(body.contains("與其他 reservation 重複"), "body: {body}");
}

#[test]
fn apply_button_disabled_without_control_socket() {
    let mut app = test_app();
    app.st.file.root.as_object_mut().unwrap().get_mut("Dhcp4").unwrap().as_object_mut().unwrap().remove("control-socket");
    app.st.saves_since_apply = 1;
    let (status, body) = app.list(ListQuery::default());
    assert_eq!(status, 200);
    assert!(body.contains(r#"title="設定檔未宣告 control-socket，無法套用""#), "body: {body}");
}

#[test]
fn apply_button_carries_the_attribute_exactly_where_it_is_off() {
    let off = r##"<button class="btn primary" disabled hx-post="/apply""##;
    let on = r##"<button class="btn primary" hx-post="/apply""##;
    let mut app = test_app();
    let (_, body) = app.list(ListQuery::default());
    assert!(body.contains(off) && !body.contains(on), "沒有變更可套用：{body}");
    app.st.saves_since_apply = 1;
    let (_, body) = app.list(ListQuery::default());
    assert!(body.contains(on) && !body.contains(off), "body: {body}");
    assert!(body.contains(r#"title="">套用設定</button>"#), "body: {body}");
    app.st.file.root.as_object_mut().unwrap().get_mut("Dhcp4").unwrap().as_object_mut().unwrap().remove("control-socket");
    let (_, body) = app.list(ListQuery::default());
    assert!(body.contains(off) && !body.contains(on), "body: {body}");
    assert!(body.contains(r#"title="設定檔未宣告 control-socket，無法套用">套用設定</button>"#), "body: {body}");
}

/// A subnet whose list holds entries that stand for no reservation.
fn mixed_app() -> Site {
    site_with(
        r#"{"Dhcp4":{"subnet4":[{"subnet":"10.1.0.0/16","pools":[],"reservations":[
            {"client-id":"01:aa","ip-address":"10.1.1.1"},
            {"hw-address":"aa:bb:cc:dd:ee:01","ip-address":"10.1.1.2","client-classes":["voip"]},
            {"hw-address":"aa:bb:cc:dd:ee:02","ip-address":"nowhere"},
            {"hw-address":"aa:bb:cc:dd:ee:03","ip-address":"10.1.1.3"}]}]}}"#
            .into(),
    )
}

fn entries(app: &Site) -> Vec<String> {
    let root = app.reloaded().root;
    let list = root["Dhcp4"]["subnet4"][0]["reservations"].as_array().unwrap().clone();
    list.iter().map(|v| v.to_string()).collect()
}

#[test]
fn the_row_that_is_deleted_is_the_one_that_is_shown() {
    let mut app = mixed_app();
    let before = entries(&app);
    let (_, body) = app.list(ListQuery::default());
    let ask = r#"hx-post="/subnet/0/res/0/delete" hx-confirm="確定刪除 aa:bb:cc:dd:ee:01？""#;
    assert!(body.contains(ask), "body: {body}");
    let (status, to) = app.run(Operation::Delete { idx: 0, ridx: 0, decision: None });
    assert_eq!((status, to.as_str()), (303, "/subnet/0"));
    assert_eq!(entries(&app), vec![before[0].clone(), before[2].clone(), before[3].clone()]);
    let (status, body) = app.run(Operation::Delete { idx: 0, ridx: 1, decision: None });
    assert_eq!(status, 500);
    assert!(body.contains("reservation 索引超出範圍: 1"), "body: {body}");
    app.run(Operation::Delete { idx: 0, ridx: 0, decision: None });
    assert_eq!(entries(&app), vec![before[0].clone(), before[2].clone()]);
}

#[test]
fn the_row_that_is_edited_is_the_one_that_is_shown() {
    let mut app = mixed_app();
    let before = entries(&app);
    let (_, body) = app.edit(1);
    assert!(body.contains("aa:bb:cc:dd:ee:03"), "body: {body}");
    let (status, _) = app.submit(Some(1), "aa:bb:cc:dd:ee:04", "10.1.1.4", Some("moved"), None);
    assert_eq!(status, 303);
    let (status, _) = app.submit(Some(0), "aa:bb:cc:dd:ee:01", "10.1.1.9", None, None);
    assert_eq!(status, 303);
    let after = entries(&app);
    assert_eq!((&after[0], &after[2]), (&before[0], &before[2]));
    let list = app.reloaded().subnet(0).unwrap().reservations;
    assert_eq!(list, vec![r("aa:bb:cc:dd:ee:01", "10.1.1.9", None), r("aa:bb:cc:dd:ee:04", "10.1.1.4", Some("moved"))]);
    assert!(after[1].contains("voip"), "未建模欄位必須保留：{}", after[1]);
    assert_eq!(app.reloaded().place_of_row(0, 1).unwrap(), 3);
    assert_eq!(app.reloaded().place_of_row(0, 2).unwrap_err().to_string(), "reservation 索引超出範圍: 2");
    assert_eq!(app.reloaded().place_of_row(1, 0).unwrap_err().to_string(), "subnet 索引超出範圍: 1");
}

#[test]
fn no_character_has_the_zero_character_as_its_small_letter() {
    let all: Vec<char> = ('\u{1}'..=char::MAX).collect();
    for part in all.chunks(4096) {
        let key = sort_key_bytes(&r("aa", "10.1.1.1", Some(&part.iter().collect::<String>())), "hostname", false, 0);
        assert!(key[1..key.len() - 5].iter().all(|b| *b > 0));
    }
}

#[test]
fn mac_with_dashes_is_normalized() {
    let mut app = test_app();
    let (status, _) = app.create("AA-BB-CC-DD-EE-08", "10.1.9.8");
    assert_eq!(status, 303);
    let last = app.reloaded().subnet(0).unwrap().reservations.last().unwrap().clone();
    assert_eq!(last.hw_address, "aa:bb:cc:dd:ee:08");
}

#[test]
fn saves_increment_pending_and_apply_resets_it() {
    let mut app = test_app();
    app.create("aa:bb:cc:dd:ee:01", "10.1.9.9");
    let (status, body) = app.list(ListQuery::default());
    assert_eq!(status, 200);
    assert!(body.contains("尚未套用"), "body: {body}");

    // 沒有人在 control-socket 回應，reload 應報錯但保持 pending
    let (status, body) = app.run(Operation::Apply { decision: None });
    assert_eq!(status, 200);
    assert!(body.contains("reload 失敗"), "body: {body}");
    assert_eq!(app.st.saves_since_apply, 1);

    let op = Operation::Apply { decision: None };
    let (status, body) = match advance(&mut app.st, &op, Event::Answered(Ok("done".into()))) {
        Action::Answer(reply) => answer(reply),
        other => panic!("{other:?}"),
    };
    assert_eq!(status, 200);
    assert!(body.contains("已套用並 reload 成功：done"), "body: {body}");
    assert_eq!(app.st.saves_since_apply, 0);
}

#[test]
fn apply_ok_response_clears_pending_badge_via_oob() {
    let html = ok_reload_html("Configuration successful.");
    assert!(
        html.contains(r##"<span id="pending-badge" hx-swap-oob="outerHTML"></span>"##),
        "ok 回應應含 OOB 片段：{html}"
    );
}

#[test]
fn pending_badge_marked_for_oob_swap() {
    let mut app = test_app();
    app.create("aa:bb:cc:dd:ee:22", "10.1.9.22");
    let (_, body) = app.list(ListQuery::default());
    assert!(
        body.contains(r##"<span id="pending-badge" class="badge">1 筆變更尚未套用</span>"##),
        "badge 應有固定 id 供 OOB 置換：{body}"
    );
}

#[test]
fn external_change_silently_reloads_when_no_pending() {
    let mut app = test_app();
    app.externally_edit("aa:bb:cc:dd:ee:61", "10.1.9.61");
    let (status, body) = app.list(q("external-edit"));
    assert_eq!(status, 200);
    assert!(body.contains("10.1.9.61"), "無 pending 時外部修改應靜默重載：{body}");
}

#[test]
fn pending_external_change_shows_decision_banner_on_get() {
    let mut app = test_app();
    app.create("aa:bb:cc:dd:ee:62", "10.1.9.62");
    app.externally_edit("aa:bb:cc:dd:ee:63", "10.1.9.63");
    let (status, body) = app.list(ListQuery::default());
    assert_eq!(status, 200);
    assert!(body.contains("設定檔已被外部修改"), "body: {body}");
    assert!(body.contains("捨棄變更重新載入"), "body: {body}");
    assert!(body.contains("以本系統覆寫"), "body: {body}");
    assert!(!body.contains("external-edit"), "有 pending 時不得重載：{body}");
}

#[test]
fn pending_external_change_intercepts_post() {
    let mut app = test_app();
    app.create("aa:bb:cc:dd:ee:62", "10.1.9.62");
    app.externally_edit("aa:bb:cc:dd:ee:63", "10.1.9.63");
    let (status, body) = app.create("aa:bb:cc:dd:ee:64", "10.1.9.64");
    assert_eq!(status, 409);
    assert!(body.contains("設定檔已被外部修改"), "應回傳決策頁：{body}");
    assert!(body.contains(r#"name="external_resolve" value="adopt""#), "body: {body}");
    assert!(body.contains(r#"name="external_resolve" value="overwrite""#), "body: {body}");
    assert!(body.contains("aa:bb:cc:dd:ee:64"), "決策頁應保留原始輸入：{body}");
    let hws = app.reloaded().reservation_hwaddrs();
    assert!(!hws.contains(&"aa:bb:cc:dd:ee:64".into()), "攔截時不得寫入：{hws:?}");
}

#[test]
fn resubmit_with_overwrite_commits_mutation() {
    let mut app = test_app();
    app.create("aa:bb:cc:dd:ee:62", "10.1.9.62");
    app.externally_edit("aa:bb:cc:dd:ee:63", "10.1.9.63");
    let (status, _) = app.submit(None, "aa:bb:cc:dd:ee:64", "10.1.9.64", None, Some("overwrite"));
    assert_eq!(status, 303);
    let hws = app.reloaded().reservation_hwaddrs();
    assert!(hws.contains(&"aa:bb:cc:dd:ee:62".into()), "先前變更應保留：{hws:?}");
    assert!(hws.contains(&"aa:bb:cc:dd:ee:64".into()), "本次變更應寫入：{hws:?}");
    assert!(!hws.contains(&"aa:bb:cc:dd:ee:63".into()), "覆寫後外部版本應被取代：{hws:?}");
}

#[test]
fn resubmit_with_adopt_reloads_then_commits() {
    let mut app = test_app();
    app.create("aa:bb:cc:dd:ee:62", "10.1.9.62");
    app.externally_edit("aa:bb:cc:dd:ee:63", "10.1.9.63");
    let (status, _) = app.submit(None, "aa:bb:cc:dd:ee:64", "10.1.9.64", None, Some("adopt"));
    assert_eq!(status, 303);
    let hws = app.reloaded().reservation_hwaddrs();
    assert!(hws.contains(&"aa:bb:cc:dd:ee:63".into()), "adopt 後外部版本應被採用：{hws:?}");
    assert!(hws.contains(&"aa:bb:cc:dd:ee:64".into()), "本次變更應在外部基底上寫入：{hws:?}");
    assert!(
        hws.contains(&"aa:bb:cc:dd:ee:62".into()),
        "adopt 只捨棄「未套用」狀態；已寫回的變更仍留在磁碟：{hws:?}"
    );
}

#[test]
fn missing_file_warns_but_edits_still_work() {
    let mut app = test_app();
    app.disk = None;
    let (status, body) = app.list(ListQuery::default());
    assert_eq!(status, 200);
    assert!(body.contains("設定檔已被刪除"), "body: {body}");
    let (status, _) = app.create("aa:bb:cc:dd:ee:65", "10.1.9.65");
    assert_eq!(status, 303, "檔案不存在時仍應可編輯（寫回重建）");
    assert!(app.reloaded().reservation_hwaddrs().contains(&"aa:bb:cc:dd:ee:65".into()));
}

#[test]
fn pages_share_tab_strip() {
    let mut app = test_app();
    let (_, body) = app.list(ListQuery::default());
    assert!(body.contains(r##"<nav class="tabs">"##), "子網頁應有分頁列：{body}");
    assert!(body.contains(r##"href="/leases">作用中租用</a>"##), "body: {body}");
    let (_, body) = app.lease_list(LeasesQuery::default());
    assert!(body.contains(r##"<nav class="tabs">"##), "租用頁應有分頁列：{body}");
    assert!(body.contains(r##"href="/subnet/0">保留主機</a>"##), "body: {body}");
}

const LEASES: &str = "address,hwaddr,client_id,valid_lifetime,expire,subnet_id,fqdn_fwd,fqdn_rev,hostname,state,user_context,pool_id
10.1.9.9,1c:69:7a:77:3b:98,,3600,9999999999,1,1,1,host-a,0,,0
10.1.1.13,,41:32:33:34:35:36,3600,9999999999,1,1,1,no-hw,0,,0
10.1.6.30,,,3600,9999999999,1,1,1,resv,0,,0
10.1.8.185,,,3600,1000,1,1,1,old-lease,0,,0";

fn lease_test_app() -> Site {
    let mut app = test_app();
    app.leases = Some(LEASES.into());
    app
}

fn state(s: &str) -> LeasesQuery {
    LeasesQuery { state: Some(s.into()), ..LeasesQuery::default() }
}

#[test]
fn leases_page_renders_rows_filters_and_badges() {
    let mut app = lease_test_app();
    let (status, body) = app.lease_list(LeasesQuery::default());
    assert_eq!(status, 200);
    assert!(body.contains("10.1.9.9"), "body: {body}");
    assert!(body.contains("10.1.6.30"), "body: {body}");
    assert!(body.contains("10.1.0.0/16"), "subnet_id 應對應 CIDR：{body}");
    assert!(body.contains("已指派"), "state 應中文化：{body}");
    assert!(body.contains("剩餘"), "到期應顯示剩餘時間：{body}");
    assert!(body.contains(">保留<"), "對應 reservation 的租用應有保留徽章：{body}");
    assert!(body.contains("作用中"), "預設應顯示作用中：{body}");
    let (_, body) = app.lease_list(state("all"));
    assert!(body.contains("host-a"), "全部含 host-a：{body}");
    assert!(body.contains("old-lease"), "全部含過期列：{body}");
    let (_, body) = app.lease_list(LeasesQuery { q: Some("no-hw".into()), ..LeasesQuery::default() });
    assert!(!body.contains("10.1.9.9"), "搜尋應過濾：{body}");
    assert!(body.contains("10.1.1.13"), "body: {body}");
}

#[test]
fn leases_page_tolerates_empty_query_params() {
    let mut app = lease_test_app();
    let empty = || LeasesQuery { q: Some("".into()), subnet: Some("".into()), ..state("expired") };
    let (status, _) = app.lease_list(empty());
    assert_eq!(status, 200, "空 subnet/q 不得回 400");
    let (status, body) = app.lease_list(LeasesQuery { sort: Some("address".into()), dir: Some("asc".into()), ..empty() });
    assert_eq!(status, 200, "body: {body}");
}

#[test]
fn leases_page_hides_expired_by_default_and_labels_them() {
    let mut app = lease_test_app();
    let (_, body) = app.lease_list(LeasesQuery::default());
    assert!(!body.contains("old-lease"), "預設（作用中）不應含過期列：{body}");
    let (_, body) = app.lease_list(state("expired"));
    assert!(body.contains("old-lease"), "過期篩選應含過期列：{body}");
    assert!(body.contains("10.1.8.185") && body.contains("已過期"), "過期列應顯示「已過期」標籤：{body}");
}

#[test]
fn form_pages_refresh_and_show_external_banner() {
    let mut app = test_app();
    app.create("aa:bb:cc:dd:ee:62", "10.1.9.62");
    app.externally_edit("aa:bb:cc:dd:ee:63", "10.1.9.63");
    let (status, body) = app.edit(0);
    assert_eq!(status, 200);
    assert!(body.contains("設定檔已被外部修改"), "表單頁也應顯示決策橫幅：{body}");
    assert!(body.contains(r##"action="/external/adopt""##), "Table body: {body}");
    assert!(body.contains(r##"action="/external/overwrite""##), "body: {body}");
}

#[test]
fn leases_page_reports_non_memfile_and_missing_file() {
    let mut app = test_app();
    let set = |f: &mut KeaFile, key: &str, value: &str| {
        f.root
            .get_mut("Dhcp4")
            .unwrap()
            .get_mut("lease-database")
            .unwrap()
            .as_object_mut()
            .unwrap()
            .insert(key.into(), Value::String(value.into()));
    };
    // name 指向一個不存在的路徑 → 「租用檔不存在」空狀態
    set(&mut app.st.file, "name", "/tmp/kealight-nope");
    assert!(matches!(app.st.file.lease_db(), LeaseDb::Memfile(p) if p == "/tmp/kealight-nope"));
    let (status, body) = app.lease_list(LeasesQuery::default());
    assert_eq!(status, 200);
    assert!(body.contains("租用檔不存在"), "name 指向不存在的檔案應顯示空狀態：{body}");
    assert!(body.contains("/tmp/kealight-nope"));

    set(&mut app.st.file, "type", "mysql");
    let (_, body) = app.lease_list(LeasesQuery::default());
    assert!(body.contains("非 memfile"), "非 memfile 應顯示空狀態：{body}");
    assert!(body.contains("沒有符合的租用"));
}

#[test]
fn unreadable_leases_and_an_unknown_time_are_told() {
    let mut app = lease_test_app();
    app.leases = Some("junk".into());
    let (status, body) = app.lease_list(LeasesQuery::default());
    assert_eq!(status, 200);
    assert!(body.contains("租用檔無法解析：租用檔表頭不合法"), "body: {body}");
    let reply = leases_page(&app.st, &LeasesQuery::default(), &Refresh::Unchanged, &None, &Err("x".into()));
    let (status, body) = answer(reply);
    assert_eq!(status, 500);
    assert!(body.contains("取得時間失敗: x"));
}

#[test]
fn own_saves_are_not_taken_for_external_changes() {
    let mut app = test_app();
    app.create("aa:bb:cc:dd:ee:01", "10.1.9.1");
    assert_eq!(app.look(), Refresh::Unchanged);
    assert_eq!(app.st.saves_since_apply, 1);
}

#[test]
fn an_unreadable_external_change_keeps_what_is_in_memory() {
    let mut app = test_app();
    app.write("{ broken".into());
    assert_eq!(app.look(), Refresh::ParseError);
    let (_, body) = app.list(ListQuery::default());
    assert!(body.contains("設定檔已被外部修改且無法解析"), "body: {body}");
    assert!(body.contains("chufang-mg4670-3"));
    app.st.baseline_stat = None;
    assert_eq!(app.look(), Refresh::Unchanged, "首次請求建立基準");
}

#[test]
fn decisions_come_from_the_request() {
    let gate = |d: Option<&str>| resolve_external(&Refresh::ExternalChanged, &d.map(str::to_string));
    assert_eq!(gate(Some("adopt")), Gate::Resolve(Resolution::Adopt));
    assert_eq!(gate(Some("overwrite")), Gate::Resolve(Resolution::Overwrite));
    assert_eq!(gate(Some("x")), Gate::Resolve(Resolution::Ask));
    assert_eq!(gate(None), Gate::Resolve(Resolution::Ask));
    assert_eq!(resolve_external(&Refresh::Reloaded, &Some("adopt".into())), Gate::Open);
}

#[test]
fn deleting_and_applying_ask_first_too() {
    let mut app = test_app();
    app.create("aa:bb:cc:dd:ee:62", "10.1.9.62");
    app.externally_edit("aa:bb:cc:dd:ee:63", "10.1.9.63");
    let (status, body) = app.run(Operation::Delete { idx: 0, ridx: 3, decision: None });
    assert_eq!(status, 409);
    assert!(body.contains(r#"action="/subnet/0/res/3/delete?external_resolve=adopt""#), "body: {body}");
    let (status, body) = app.run(Operation::Apply { decision: None });
    assert_eq!(status, 409);
    assert!(body.contains(r#"action="/apply?external_resolve=overwrite""#), "body: {body}");
    let (status, body) = app.run(Operation::Apply { decision: Some("adopt".into()) });
    assert_eq!(status, 200);
    assert!(body.contains("沒有待套用的變更"), "adopt 後無 pending：{body}");
}

#[test]
fn adopting_and_overwriting_lead_back() {
    let mut app = test_app();
    app.create("aa:bb:cc:dd:ee:62", "10.1.9.62");
    let disk = app.read();
    let stat = app.stat();
    let (status, to) = answer(external_adopt(&mut app.st, disk, stat, &Some("/leases".into())));
    assert_eq!((status, to.as_str(), app.st.saves_since_apply), (303, "/leases", 0));
    let (status, body) = answer(external_adopt(&mut app.st, None, Ok(None), &None));
    assert_eq!(status, 500);
    assert!(body.contains("無法重新載入外部版本"));
    let (status, to) = answer(external_overwrite(&mut app.st, Ok(Ok(None)), &Some("//evil".into())));
    assert_eq!((status, to.as_str()), (303, "/subnet/0"));
    let failed = Err(KeaError { message: "no disk".into() });
    let (status, body) = answer(external_overwrite(&mut app.st, failed, &None));
    assert_eq!(status, 500);
    assert!(body.contains("no disk"));
}

#[test]
fn a_failed_save_is_an_error_and_counts_nothing() {
    let mut app = test_app();
    let op = Operation::Delete { idx: 0, ridx: 0, decision: None };
    let failed = Event::Saved { outcome: Err(KeaError { message: "disk full".into() }), target: "/subnet/0".into() };
    let (status, body) = match advance(&mut app.st, &op, failed) {
        Action::Answer(reply) => answer(reply),
        other => panic!("{other:?}"),
    };
    assert_eq!(status, 500);
    assert!(body.contains("disk full"));
    assert_eq!(app.st.saves_since_apply, 0);
}

#[test]
fn missing_targets_are_errors() {
    let mut app = test_app();
    let (status, body) = app.submit(Some(239), "aa:bb:cc:dd:ee:01", "10.1.9.9", None, None);
    assert_eq!(status, 500);
    assert!(body.contains("reservation 不存在"));
    let (status, body) = app.edit(239);
    assert_eq!(status, 500);
    assert!(body.contains("reservation 不存在"));
    let (status, body) = app.run(Operation::Delete { idx: 7, ridx: 0, decision: None });
    assert_eq!(status, 500);
    assert!(body.contains("subnet 索引超出範圍: 7"));
    let (status, body) = answer(new_form(&app.st, 7, &Refresh::Unchanged, None));
    assert_eq!(status, 500);
    assert!(body.contains("subnet 不存在"));
    let (status, body) = answer(root(&site_with(r#"{"Dhcp4":{}}"#.into()).st));
    assert_eq!(status, 500);
    assert!(body.contains("設定檔內沒有 subnet4 區塊"));
    assert!(AppState::load("x".into(), 1, "{}", Ok(None)).is_err());
}

#[test]
fn a_refused_form_says_what_is_wrong_and_shows_what_was_typed() {
    let form = ReservationForm {
        hw_address: "  ".into(),
        ip_address: "<x>".into(),
        hostname: Some(" h ".into()),
        external_resolve: None,
    };
    let (parsed, errors) = reservation_from_form(&form);
    assert_eq!(parsed.unwrap_err().to_string(), "表單不合法");
    assert_eq!(
        errors,
        vec![
            "hw-address 不得為空".to_string(),
            "hw-address 格式不合法（需 6 組十六進位，可用 : 或 - 分隔）: ".to_string(),
            "ip-address 格式不合法: &lt;x&gt;".to_string(),
        ]
    );
    let mut app = test_app();
    let before = app.disk.clone();
    let (status, body) = app.submit(None, " ZZ:ÄÖ ", "1.2.3.4", Some(" h "), None);
    assert_eq!(status, 422);
    assert!(body.contains(r#"name="hw_address" value="zz:äö""#), "body: {body}");
    assert!(body.contains(r#"name="ip_address" value="1.2.3.4""#), "body: {body}");
    assert!(body.contains(r#"name="hostname" value="h""#), "body: {body}");
    assert_eq!(app.disk, before);
}

#[test]
fn texts_are_escaped_for_html_and_urls() {
    assert_eq!(escape(r#"<a href='x'>&"</a>"#), "&lt;a href=&#39;x&#39;&gt;&amp;&quot;&lt;/a&gt;");
    assert_eq!(urlencode("a b/漢~-_.Z9"), "a%20b%2F%E6%BC%A2~-_.Z9");
}

#[test]
fn pages_are_cut_at_fifty_rows() {
    assert_eq!(page_window(0, None, false), (0, 0, 0, 0));
    assert_eq!(page_window(50, Some(3), false), (1, 0, 0, 50));
    assert_eq!(page_window(239, Some(4), false), (5, 4, 200, 239));
    assert_eq!(page_window(239, Some(99), false), (5, 4, 200, 239));
    assert_eq!(page_window(239, Some(2), false), (5, 2, 100, 150));
    assert_eq!(page_window(239, Some(2), true), (1, 0, 0, 239));
    assert_eq!(page_window(usize::MAX, Some(usize::MAX), false).3, usize::MAX);
    let mut app = test_app();
    let (_, body) = app.list(ListQuery { page: Some(4), ..ListQuery::default() });
    assert!(body.contains("共 239 筆符合（第 5 / 5 頁）"), "body: {body}");
    assert!(body.contains("/subnet/0/res/238/edit") && !body.contains("/subnet/0/res/199/edit"));
    assert!(body.contains(r#"<a class="btn primary" href="/subnet/0?page=4">5</a> "#), "body: {body}");
}

#[test]
fn urls_carry_what_is_not_the_default() {
    assert_eq!(subnet_page_url(3, &ListQuery::default()), "/subnet/3");
    let full = ListQuery { q: Some("a&b".into()), page: Some(2), ..sorted("hostname", Some("desc")) };
    assert_eq!(subnet_page_url(3, &full), "/subnet/3?q=a%26b&page=2&sort=hostname&dir=desc");
    let l = LeasesQuery { q: Some("x y".into()), subnet: Some("1".into()), page: Some(3), ..state("all") };
    assert_eq!(leases_page_url(&l, None), "/leases?q=x%20y&state=all&subnet=1&page=3");
    assert_eq!(leases_page_url(&l, Some(0)), "/leases?q=x%20y&state=all&subnet=1");
    assert_eq!(leases_page_url(&LeasesQuery::default(), None), "/leases");
    assert_eq!(leases_base_href(&l), "/leases?q=x%20y&state=all&subnet=1&");
    assert_eq!(leases_base_href(&LeasesQuery::default()), "/leases?");
    assert_eq!(redirect_to_next(&Some("/subnet/1?q=x".into())), "/subnet/1?q=x");
    assert_eq!(redirect_to_next(&Some("https://x".into())), "/subnet/0");
    assert_eq!(redirect_to_next(&None), "/subnet/0");
    assert!(th_link("hostname", "hostname", 0, &None, &None).contains(r#"href="/subnet/0?sort=hostname&dir=asc""#));
}

fn r(hw: &str, ip: &str, hostname: Option<&str>) -> Reservation {
    Reservation {
        hw_address: hw.into(),
        ip_address: Ipv4Addr::from_str(ip).unwrap(),
        hostname: hostname.map(str::to_string),
    }
}

#[test]
fn sort_keys_order_rows() {
    let a = r("AA:bb", "9.1.1.1", Some("Z"));
    let b = r("ab:bb", "10.1.1.1", None);
    assert_eq!(sort_key_bytes(&a, "hw-address", false, 258), [&[0u8][..], b"aa:bb", &[0], &[0, 0, 1, 2]].concat());
    assert_eq!(sort_key_bytes(&a, "ip-address", false, 0), [&[0u8][..], b"009.001.001.001", &[0], &[0, 0, 0, 0]].concat());
    assert_eq!(sort_key_bytes(&a, "hostname", true, 1), vec![0, 255 - b'z', 255, 0, 0, 0, 1]);
    assert_eq!(sort_key_bytes(&b, "hostname", true, 1), vec![1, 255, 0, 0, 0, 1]);
    assert!(sort_key_bytes(&a, "ip-address", false, 9) < sort_key_bytes(&b, "ip-address", false, 0));
    assert!(sort_key_bytes(&a, "ip-address", true, 0) > sort_key_bytes(&b, "ip-address", true, 9));
    for desc in [false, true] {
        assert!(sort_key_bytes(&a, "hostname", desc, 9) < sort_key_bytes(&b, "hostname", desc, 0), "無 hostname 恆排尾");
    }
}

#[test]
fn descending_keys_reverse_ascending_ones() {
    let names = ["a", "ab", "abc", "b", "主", "主機"];
    for (i, short) in names.iter().enumerate() {
        for (j, long) in names.iter().enumerate().skip(i + 1) {
            let x = r("aa:bb", "10.1.1.1", Some(short));
            let y = r("aa:bb", "10.1.1.1", Some(long));
            assert!(sort_key_bytes(&x, "hostname", false, j) < sort_key_bytes(&y, "hostname", false, i), "{short} {long}");
            assert!(sort_key_bytes(&y, "hostname", true, j) < sort_key_bytes(&x, "hostname", true, i), "{short} {long}");
        }
    }
    let mut app = test_app();
    app.submit(None, "aa:bb:cc:dd:ee:01", "10.1.9.1", Some("zza"), None);
    app.submit(None, "aa:bb:cc:dd:ee:02", "10.1.9.2", Some("zzab"), None);
    let mut ahead = |dir: &str| -> bool {
        let (_, body) = app.list(ListQuery {
            q: Some("zza".into()),
            sort: Some("hostname".into()),
            dir: Some(dir.into()),
            ..ListQuery::default()
        });
        body.find(">zza<").unwrap() < body.find(">zzab<").unwrap()
    };
    assert!(ahead("asc"));
    assert!(!ahead("desc"));
}

#[test]
fn lease_keys_order_addresses_as_numbers() {
    let leases = parse(LEASES).unwrap();
    assert_eq!(lease_sort_key(&leases[0], "address", false, 7), vec![0, 10, 1, 9, 9, 0, 0, 0, 0, 7]);
    assert_eq!(lease_sort_key(&leases[1], "hwaddr", false, 1), vec![1, 0, 0, 0, 0, 1]);
    let mut app = lease_test_app();
    let mut places = |dir: &str| -> Vec<usize> {
        let (_, body) = app.lease_list(LeasesQuery { sort: Some("address".into()), dir: Some(dir.into()), ..state("all") });
        ["10.1.1.13", "10.1.6.30", "10.1.8.185", "10.1.9.9"].iter().map(|a| body.find(&format!("<td>{a}</td>")).unwrap()).collect()
    };
    let asc = places("asc");
    assert!(asc[0] < asc[1] && asc[1] < asc[2] && asc[2] < asc[3]);
    let desc = places("desc");
    assert!(desc[0] > desc[1] && desc[1] > desc[2] && desc[2] > desc[3]);
}

#[test]
fn lease_rows_show_whom_they_are_given_to() {
    let mut app = lease_test_app();
    let (_, body) = app.lease_list(state("all"));
    assert!(body.contains("<td>10.1.9.9</td><td>1c:69:7a:77:3b:98</td><td>host-a</td><td>10.1.0.0/16</td><td>已指派</td>"), "body: {body}");
    assert!(body.contains(r#"<td>10.1.1.13</td><td>41:32:33:34:35:36</td><td>no-hw</td>"#), "body: {body}");
    assert!(body.contains(r#"<td>10.1.6.30</td><td><span class="dim">—</span></td><td>resv</td>"#), "body: {body}");
    assert!(body.contains(r#"<td title="租用期 3600 秒">已過期</td>"#), "body: {body}");
    let (_, body) = app.lease_list(LeasesQuery { subnet: Some("2".into()), ..state("all") });
    assert!(body.contains("共 0 筆符合"), "body: {body}");
    let (_, body) = app.lease_list(LeasesQuery { subnet: Some("x".into()), ..state("all") });
    assert!(body.contains("共 4 筆符合"), "不是數字的 subnet 視為全部：{body}");
}
