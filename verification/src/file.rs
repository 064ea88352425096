//! The Kea configuration file: what it says, and the edits that are made to it.
use vstd::prelude::*;
use vstd::string::*;
use vstd::utf8::encode_utf8;

use crate::addr::{ip_of, ip_text, law_ip_round_trip, net_of, Ipv4Addr, Ipv4Net, NetView};
use crate::domain::{views, IpRange, Reservation, ReservationView, Subnet, SubnetView};
use crate::error::{error, KeaError};
use crate::json::{
    array_member, as_array_mut, as_object_mut, before_mark, document, from_text, get, get_array, get_int, get_mut,
    get_text, insert, int_member, json_of, jsons, max_depth, member, members_of, no_members, object_value, parsed,
    raw_mark, readable, remove, serialize_pretty3, text_member, text_value, Json,
};
use crate::mac::{mac_of, normalize_mac};
use crate::number::{dec, decimal};
use crate::text::{
    contains_char, is_empty, lowercase, same, split_first, split_once, texts, to_lowercase, trim, trimmed,
};

verus! {

/// Where Kea takes commands.
#[derive(Debug, PartialEq, Eq)]
pub struct ControlSocket {
    pub socket_name: String,
    pub socket_type: String,
}

/// What a control socket is.
#[verifier::ext_equal]
pub struct SocketView {
    pub name: Seq<char>,
    pub kind: Seq<char>,
}

impl View for ControlSocket {
    type V = SocketView;

    open spec fn view(&self) -> SocketView {
        SocketView { name: self.socket_name@, kind: self.socket_type@ }
    }
}

/// What tells one version of a file from another: when it was changed, and its size.
#[derive(Debug, Clone, Copy, PartialEq, Eq, Structural)]
pub struct FileStat {
    pub mtime_ns: u64,
    pub size: u64,
}

/// When a file was changed, as the system reports it.
#[derive(Debug, PartialEq, Eq)]
pub enum Modified {
    /// The system does not say.
    Unknown,
    /// Before the epoch; the text says by how much.
    BeforeEpoch(String),
    /// So many nanoseconds after the epoch.
    At(u128),
}

/// What the system reports of a file.
#[derive(Debug, PartialEq, Eq)]
pub struct Metadata {
    pub modified: Modified,
    pub size: u64,
}

/// The stat of a file from what the system reports of it; nothing where there is no such file. A
/// time that is not known, or that 64 bits do not hold, counts as zero; a time before the epoch is
/// an error.
pub fn file_stat(found: Option<Metadata>) -> (r: Result<Option<FileStat>, KeaError>)
    ensures
        match found {
            None => r == Ok::<Option<FileStat>, KeaError>(None),
            Some(m) => match m.modified {
                Modified::Unknown => r == Ok::<Option<FileStat>, KeaError>(
                    Some(FileStat { mtime_ns: 0, size: m.size }),
                ),
                Modified::BeforeEpoch(e) => r is Err && r->Err_0.message@ == "讀取修改時間失敗: "@ + e@,
                Modified::At(ns) => r == Ok::<Option<FileStat>, KeaError>(
                    Some(
                        FileStat {
                            mtime_ns: if ns <= u64::MAX {
                                ns as u64
                            } else {
                                0
                            },
                            size: m.size,
                        },
                    ),
                ),
            },
        },
{
    match found {
        None => Ok(None),
        Some(m) => match m.modified {
            Modified::Unknown => Ok(Some(FileStat { mtime_ns: 0, size: m.size })),
            Modified::BeforeEpoch(e) => {
                let mut message: String = "讀取修改時間失敗: ".to_owned();
                message.append(e.as_str());
                Err(KeaError { message })
            },
            Modified::At(ns) => {
                let mtime_ns: u64 = if ns <= u64::MAX as u128 {
                    ns as u64
                } else {
                    0
                };
                Ok(Some(FileStat { mtime_ns, size: m.size }))
            },
        },
    }
}

/// Where the leases are kept.
#[derive(Debug)]
pub enum LeaseDb {
    /// In a file of the memfile backend, at this path.
    Memfile(String),
    /// The configuration does not tell; the text says why.
    Unavailable(String),
}

/// Where the leases are kept.
#[verifier::ext_equal]
pub enum LeaseDbView {
    Memfile(Seq<char>),
    Unavailable(Seq<char>),
}

impl View for LeaseDb {
    type V = LeaseDbView;

    open spec fn view(&self) -> LeaseDbView {
        match self {
            LeaseDb::Memfile(p) => LeaseDbView::Memfile(p@),
            LeaseDb::Unavailable(m) => LeaseDbView::Unavailable(m@),
        }
    }
}

/// A subnet in short.
#[derive(Debug)]
pub struct SubnetSummary {
    pub index: usize,
    pub id: Option<u32>,
    pub cidr: String,
    pub reservation_count: usize,
}

/// A subnet in short.
#[verifier::ext_equal]
pub struct SummaryView {
    pub index: nat,
    pub id: Option<u32>,
    pub cidr: Seq<char>,
    pub reservation_count: nat,
}

impl View for SubnetSummary {
    type V = SummaryView;

    open spec fn view(&self) -> SummaryView {
        SummaryView {
            index: self.index as nat,
            id: self.id,
            cidr: self.cidr@,
            reservation_count: self.reservation_count as nat,
        }
    }
}

/// Subnets in short.
pub open spec fn summary_views(s: Seq<SubnetSummary>) -> Seq<SummaryView> {
    s.map_values(|x: SubnetSummary| x@)
}

/// A Kea configuration.
pub struct KeaFile {
    pub root: serde_json::Value,
}

impl View for KeaFile {
    type V = Json;

    open spec fn view(&self) -> Json {
        json_of(self.root)
    }
}

/// The DHCPv4 block of a configuration.
pub open spec fn dhcp4(root: Json) -> Option<Json> {
    member(root, "Dhcp4"@)
}

/// The subnets of a configuration.
pub open spec fn subnets(root: Json) -> Option<Seq<Json>> {
    match dhcp4(root) {
        Some(d) => array_member(d, "subnet4"@),
        None => None,
    }
}

/// How many elements there are, where there is an array at all.
pub open spec fn count(s: Option<Seq<Json>>) -> nat {
    match s {
        Some(a) => a.len(),
        None => 0,
    }
}

/// A subnet in short. What it does not say is a question mark, no id, and no reservations.
pub open spec fn summary_of(j: Json, index: nat) -> SummaryView {
    SummaryView {
        index,
        id: match int_member(j, "id"@) {
            Some(n) => if 0 <= n <= u32::MAX {
                Some(n as u32)
            } else {
                None
            },
            None => None,
        },
        cidr: match text_member(j, "subnet"@) {
            Some(s) => s,
            None => "?"@,
        },
        reservation_count: count(array_member(j, "reservations"@)),
    }
}

/// The subnets of a configuration in short.
pub open spec fn summaries_of(root: Json) -> Seq<SummaryView> {
    match subnets(root) {
        Some(s) => Seq::new(s.len(), |i: int| summary_of(s[i], i as nat)),
        None => Seq::empty(),
    }
}

/// A hardware address in small letters, with colons between its pairs where it has six of them.
pub open spec fn kept_hw(hw: Seq<char>) -> Seq<char> {
    match mac_of(hw) {
        Some(m) => m,
        None => lowercase(hw),
    }
}

/// The hardware addresses of reservations, in their order.
pub open spec fn list_hwaddrs(list: Seq<Json>) -> Seq<Seq<char>>
    decreases list.len(),
{
    if list.len() == 0 {
        Seq::empty()
    } else {
        let before = list_hwaddrs(list.drop_last());
        match text_member(list.last(), "hw-address"@) {
            Some(hw) => before.push(kept_hw(hw)),
            None => before,
        }
    }
}

/// The hardware addresses of the reservations of subnets, in their order.
pub open spec fn hwaddrs_of(s: Seq<Json>) -> Seq<Seq<char>>
    decreases s.len(),
{
    if s.len() == 0 {
        Seq::empty()
    } else {
        let before = hwaddrs_of(s.drop_last());
        match array_member(s.last(), "reservations"@) {
            Some(list) => before + list_hwaddrs(list),
            None => before,
        }
    }
}

/// The range that a pool's text stands for: two addresses with a hyphen between them.
pub open spec fn pool_of(s: Seq<char>) -> Option<IpRange> {
    match split_first(s, '-') {
        Some((a, b)) => match (ip_of(trimmed(a)), ip_of(trimmed(b))) {
            (Some(start), Some(end)) => Some(
                IpRange { start: Ipv4Addr { bits: start }, end: Ipv4Addr { bits: end } },
            ),
            _ => None,
        },
        None => None,
    }
}

/// The ranges of pools, in their order; what stands for no range is left out.
pub open spec fn pools_of(list: Seq<Json>) -> Seq<IpRange>
    decreases list.len(),
{
    if list.len() == 0 {
        Seq::empty()
    } else {
        let before = pools_of(list.drop_last());
        match text_member(list.last(), "pool"@) {
            Some(s) => match pool_of(s) {
                Some(p) => before.push(p),
                None => before,
            },
            None => before,
        }
    }
}

/// The reservation that a JSON object stands for: it has a hardware address and an address.
pub open spec fn reservation_of(j: Json) -> Option<ReservationView> {
    match (text_member(j, "hw-address"@), text_member(j, "ip-address"@)) {
        (Some(hw), Some(t)) => match ip_of(t) {
            Some(ip) => Some(ReservationView { hw, ip, hostname: text_member(j, "hostname"@) }),
            None => None,
        },
        _ => None,
    }
}

/// Reservations, in their order; what stands for none is left out.
pub open spec fn reservations_of(list: Seq<Json>) -> Seq<ReservationView>
    decreases list.len(),
{
    if list.len() == 0 {
        Seq::empty()
    } else {
        let before = reservations_of(list.drop_last());
        match reservation_of(list.last()) {
            Some(r) => before.push(r),
            None => before,
        }
    }
}

/// The place in a list of the entry that stands for its reservation number `row`: what stands for no
/// reservation is not counted.
pub open spec fn entry_place(list: Seq<Json>, row: nat) -> Option<nat>
    decreases list.len(),
{
    if list.len() == 0 {
        None
    } else if row < reservations_of(list.drop_last()).len() {
        entry_place(list.drop_last(), row)
    } else if row < reservations_of(list).len() {
        Some((list.len() - 1) as nat)
    } else {
        None
    }
}

/// The elements, or none where there is no array.
pub open spec fn elements(s: Option<Seq<Json>>) -> Seq<Json> {
    match s {
        Some(a) => a,
        None => Seq::empty(),
    }
}

/// The subnet that a JSON object stands for, or what is wrong with it.
pub open spec fn subnet_from(j: Json) -> Result<SubnetView, Seq<char>> {
    match text_member(j, "subnet"@) {
        None => Err("subnet 缺少 subnet 欄位"@),
        Some(t) => match net_of(t) {
            None => Err("subnet CIDR 不合法: "@ + t),
            Some((addr, prefix)) => Ok(
                SubnetView {
                    net: NetView { addr, prefix },
                    pools: pools_of(elements(array_member(j, "pools"@))),
                    reservations: reservations_of(elements(array_member(j, "reservations"@))),
                },
            ),
        },
    }
}

/// The subnet at an index, or why there is none.
pub open spec fn subnet_of(root: Json, index: nat) -> Result<SubnetView, Seq<char>> {
    match subnets(root) {
        None => Err("設定檔缺少 subnet4"@),
        Some(s) => if index < s.len() {
            subnet_from(s[index as int])
        } else {
            Err("subnet 索引超出範圍: "@ + dec(index))
        },
    }
}

/// The list of reservations of a subnet, as the configuration holds it, or why there is none.
pub open spec fn reservation_list(root: Json, index: nat) -> Result<Seq<Json>, Seq<char>> {
    match subnets(root) {
        None => Err("設定檔缺少 subnet4"@),
        Some(s) => if index < s.len() {
            match array_member(s[index as int], "reservations"@) {
                Some(list) => Ok(list),
                None => Err("subnet 缺少 reservations 陣列"@),
            }
        } else {
            Err("subnet 索引超出範圍: "@ + dec(index))
        },
    }
}

/// The place of the entry that stands for a reservation of a subnet, or why there is none.
pub open spec fn row_place(root: Json, index: nat, row: nat) -> Result<nat, Seq<char>> {
    match reservation_list(root, index) {
        Err(m) => Err(m),
        Ok(list) => match entry_place(list, row) {
            Some(place) => Ok(place),
            None => Err("reservation 索引超出範圍: "@ + dec(row)),
        },
    }
}

/// An object with a member set.
pub open spec fn with_member(j: Json, key: Seq<char>, v: Json) -> Json {
    match j {
        Json::Object(m) => Json::Object(m.insert(key, v)),
        _ => j,
    }
}

/// A configuration with another list of reservations for a subnet, and nothing else changed.
pub open spec fn with_reservations(root: Json, index: nat, list: Seq<Json>) -> Json {
    let d = dhcp4(root)->0;
    let s = subnets(root)->0;
    with_member(
        root,
        "Dhcp4"@,
        with_member(
            d,
            "subnet4"@,
            Json::Array(
                s.update(index as int, with_member(s[index as int], "reservations"@, Json::Array(list))),
            ),
        ),
    )
}

/// The members of an object with those of a reservation set: its hardware address, its address,
/// and its hostname, which an empty or missing one removes.
pub open spec fn with_fields(m: Map<Seq<char>, Json>, r: ReservationView) -> Map<Seq<char>, Json> {
    let base = m.insert("hw-address"@, Json::Text(r.hw)).insert("ip-address"@, Json::Text(ip_text(r.ip)));
    match r.hostname {
        Some(h) => if h.len() > 0 {
            base.insert("hostname"@, Json::Text(h))
        } else {
            base.remove("hostname"@)
        },
        None => base.remove("hostname"@),
    }
}

/// The JSON object of a reservation.
pub open spec fn reservation_json(r: ReservationView) -> Json {
    Json::Object(with_fields(Map::empty(), r))
}

/// An entry with the members of a reservation set; what is no object stays what it is.
pub open spec fn updated_entry(entry: Json, r: ReservationView) -> Json {
    match entry {
        Json::Object(m) => Json::Object(with_fields(m, r)),
        _ => entry,
    }
}

/// The control socket that a configuration declares.
pub open spec fn socket_of(root: Json) -> Option<SocketView> {
    match dhcp4(root) {
        Some(d) => match member(d, "control-socket"@) {
            Some(cs) => match (text_member(cs, "socket-name"@), text_member(cs, "socket-type"@)) {
                (Some(name), Some(kind)) => Some(SocketView { name, kind }),
                _ => None,
            },
            None => None,
        },
        None => None,
    }
}

/// Where the leases are kept: in a memfile, whose name is taken as it is where it has a slash, and
/// in the default directory otherwise.
pub open spec fn lease_db_of(root: Json) -> LeaseDbView {
    match dhcp4(root) {
        None => LeaseDbView::Unavailable("設定檔缺少 Dhcp4 區段，無法顯示租用"@),
        Some(d) => match member(d, "lease-database"@) {
            None => LeaseDbView::Unavailable("設定檔缺少 lease-database 區段，無法顯示租用"@),
            Some(db) => match text_member(db, "type"@) {
                None => LeaseDbView::Unavailable("設定檔 lease-database 缺少 type，無法顯示租用"@),
                Some(kind) => if kind != "memfile"@ {
                    LeaseDbView::Unavailable("租用資料庫型別「"@ + kind + "」非 memfile，無法顯示租用"@)
                } else {
                    match text_member(db, "name"@) {
                        None => LeaseDbView::Memfile("/var/lib/kea/kea-leases4.csv"@),
                        Some(name) => if name.contains('/') {
                            LeaseDbView::Memfile(name)
                        } else {
                            LeaseDbView::Memfile("/var/lib/kea/"@ + name)
                        },
                    }
                },
            },
        },
    }
}

/// Setting a member to what it is changes nothing.
proof fn lemma_same_member(j: Json, key: Seq<char>)
    requires
        member(j, key) is Some,
    ensures
        with_member(j, key, member(j, key)->0) == j,
        j == Json::Object(j->Object_0),
        Json::Object(j->Object_0.insert(key, member(j, key)->0)) == j,
{
    let m = j->Object_0;
    assert(m.insert(key, m[key]) =~= m);
}

/// Setting the list of reservations to what it is changes nothing.
proof fn lemma_same_list(root: Json, index: nat)
    requires
        reservation_list(root, index) is Ok,
    ensures
        with_reservations(root, index, reservation_list(root, index)->Ok_0) == root,
{
    let d = dhcp4(root)->0;
    let s = subnets(root)->0;
    lemma_same_member(root, "Dhcp4"@);
    lemma_same_member(d, "subnet4"@);
    lemma_same_member(s[index as int], "reservations"@);
    assert(s.update(index as int, s[index as int]) =~= s);
}

/// Reads the text of a pool.
fn parse_pool(s: &str) -> (r: Option<IpRange>)
    ensures
        r == pool_of(s@),
{
    match split_once(s, '-') {
        Some((a, b)) => match (Ipv4Addr::parse(trim(a.as_str()).as_str()), Ipv4Addr::parse(trim(b.as_str()).as_str())) {
            (Some(start), Some(end)) => Some(IpRange { start, end }),
            _ => None,
        },
        None => None,
    }
}

/// Reads a reservation.
fn parse_reservation(v: &serde_json::Value) -> (r: Option<Reservation>)
    ensures
        match r {
            Some(x) => reservation_of(json_of(*v)) == Some(x@),
            None => reservation_of(json_of(*v)) is None,
        },
{
    match (get_text(v, "hw-address"), get_text(v, "ip-address")) {
        (Some(hw), Some(t)) => match Ipv4Addr::parse(t) {
            Some(ip_address) => {
                let hostname: Option<String> = match get_text(v, "hostname") {
                    Some(h) => Some(h.to_owned()),
                    None => None,
                };
                Some(Reservation { hw_address: hw.to_owned(), ip_address, hostname })
            },
            None => None,
        },
        _ => None,
    }
}

/// Reads the pools that can be read.
fn parse_pools(list: &Vec<serde_json::Value>) -> (r: Vec<IpRange>)
    ensures
        r@ == pools_of(jsons(list@)),
{
    let ghost all = jsons(list@);
    let mut out: Vec<IpRange> = Vec::new();
    let mut i: usize = 0;
    while i < list.len()
        invariant
            i <= list@.len(),
            all == jsons(list@),
            out@ == pools_of(all.take(i as int)),
        decreases list@.len() - i,
    {
        assert(all.take(i + 1).drop_last() =~= all.take(i as int));
        assert(all.take(i + 1).last() == json_of(list@[i as int]));
        match get_text(&list[i], "pool") {
            Some(s) => match parse_pool(s) {
                Some(p) => out.push(p),
                None => {},
            },
            None => {},
        }
        i = i + 1;
    }
    assert(all.take(all.len() as int) =~= all);
    out
}

/// Reads the reservations that can be read.
fn parse_reservations(list: &Vec<serde_json::Value>) -> (r: Vec<Reservation>)
    ensures
        views(r@) == reservations_of(jsons(list@)),
{
    let ghost all = jsons(list@);
    let mut out: Vec<Reservation> = Vec::new();
    let mut i: usize = 0;
    assert(views(out@) =~= reservations_of(all.take(0)));
    while i < list.len()
        invariant
            i <= list@.len(),
            all == jsons(list@),
            views(out@) == reservations_of(all.take(i as int)),
        decreases list@.len() - i,
    {
        assert(all.take(i + 1).drop_last() =~= all.take(i as int));
        assert(all.take(i + 1).last() == json_of(list@[i as int]));
        match parse_reservation(&list[i]) {
            Some(r) => {
                let ghost before = out@;
                out.push(r);
                assert(views(out@) =~= views(before).push(r@));
            },
            None => {},
        }
        i = i + 1;
    }
    assert(all.take(all.len() as int) =~= all);
    out
}

/// An entry that stands for a reservation keeps its number whatever follows it.
proof fn lemma_entry_place_stays(list: Seq<Json>, n: int, row: nat)
    requires
        0 <= n <= list.len(),
        row < reservations_of(list.take(n)).len(),
    ensures
        row < reservations_of(list).len(),
        entry_place(list, row) == entry_place(list.take(n), row),
    decreases list.len(),
{
    if n == list.len() {
        assert(list.take(n) =~= list);
    } else {
        assert(list.drop_last().take(n) =~= list.take(n));
        lemma_entry_place_stays(list.drop_last(), n, row);
    }
}

/// Finds the entry that stands for the reservation with a number.
fn find_entry(list: &Vec<serde_json::Value>, row: usize) -> (r: Option<usize>)
    ensures
        match r {
            Some(place) => place < list@.len() && entry_place(jsons(list@), row as nat) == Some(place as nat),
            None => entry_place(jsons(list@), row as nat) is None,
        },
{
    let ghost all = jsons(list@);
    let mut seen: usize = 0;
    let mut i: usize = 0;
    while i < list.len()
        invariant
            i <= list@.len(),
            all == jsons(list@),
            seen == reservations_of(all.take(i as int)).len(),
            seen <= row,
            seen <= i,
            entry_place(all.take(i as int), row as nat) is None,
        decreases list@.len() - i,
    {
        assert(all.take(i + 1).drop_last() =~= all.take(i as int));
        assert(all.take(i + 1).last() == json_of(list@[i as int]));
        if parse_reservation(&list[i]).is_some() {
            if seen == row {
                proof {
                    lemma_entry_place_stays(all, i + 1, row as nat);
                }
                return Some(i);
            }
            seen = seen + 1;
        }
        i = i + 1;
    }
    assert(all.take(all.len() as int) =~= all);
    None
}

/// Reads a subnet.
fn parse_subnet(v: &serde_json::Value) -> (r: Result<Subnet, KeaError>)
    ensures
        match r {
            Ok(s) => subnet_from(json_of(*v)) == Ok::<SubnetView, Seq<char>>(s@),
            Err(e) => subnet_from(json_of(*v)) == Err::<SubnetView, Seq<char>>(e.message@),
        },
{
    let text: &str = match get_text(v, "subnet") {
        Some(t) => t,
        None => {
            return Err(error("subnet 缺少 subnet 欄位"));
        },
    };
    let cidr: Ipv4Net = match Ipv4Net::parse(text) {
        Some(n) => n,
        None => {
            let mut message: String = "subnet CIDR 不合法: ".to_owned();
            message.append(text);
            return Err(KeaError { message });
        },
    };
    let pools: Vec<IpRange> = match get_array(v, "pools") {
        Some(list) => parse_pools(list),
        None => Vec::new(),
    };
    let reservations: Vec<Reservation> = match get_array(v, "reservations") {
        Some(list) => parse_reservations(list),
        None => Vec::new(),
    };
    let subnet: Subnet = Subnet { cidr, pools, reservations };
    assert(subnet@ =~= subnet_from(json_of(*v))->Ok_0);
    Ok(subnet)
}

/// Why there is no subnet at an index.
fn no_subnet(index: usize) -> (r: KeaError)
    ensures
        r.message@ == "subnet 索引超出範圍: "@ + dec(index as nat),
{
    let mut message: String = "subnet 索引超出範圍: ".to_owned();
    message.append(decimal(index as u64).as_str());
    KeaError { message }
}

/// Why there is no reservation at an index.
fn no_reservation(index: usize) -> (r: KeaError)
    ensures
        r.message@ == "reservation 索引超出範圍: "@ + dec(index as nat),
{
    let mut message: String = "reservation 索引超出範圍: ".to_owned();
    message.append(decimal(index as u64).as_str());
    KeaError { message }
}

/// Sets the members of a reservation.
fn set_fields(m: &mut serde_json::Map<String, serde_json::Value>, r: &Reservation)
    ensures
        members_of(*final(m)) == with_fields(members_of(*old(m)), r@),
{
    insert(m, "hw-address", text_value(r.hw_address.as_str()));
    insert(m, "ip-address", text_value(r.ip_address.to_string().as_str()));
    match &r.hostname {
        Some(h) => {
            if is_empty(h.as_str()) {
                remove(m, "hostname");
            } else {
                insert(m, "hostname", text_value(h.as_str()));
            }
        },
        None => {
            remove(m, "hostname");
        },
    }
}

/// The JSON object of a reservation.
fn reservation_to_value(r: &Reservation) -> (v: serde_json::Value)
    ensures
        json_of(v) == reservation_json(r@),
{
    let mut m: serde_json::Map<String, serde_json::Value> = no_members();
    assert(members_of(m) =~= Map::empty());
    set_fields(&mut m, r);
    object_value(m)
}

/// Sets the members of a reservation in an entry, and keeps all its other members.
fn apply_reservation_to_value(slot: &mut serde_json::Value, r: &Reservation)
    ensures
        json_of(*final(slot)) == updated_entry(json_of(*old(slot)), r@),
{
    match as_object_mut(slot) {
        Some(m) => set_fields(m, r),
        None => {},
    }
}

/// The name of the file that a configuration is written to before it takes the place of the old
/// one.
pub fn temporary_name(file_name: &str) -> (r: String)
    ensures
        r@ == "."@ + file_name@ + ".tmp"@,
{
    let mut out: String = ".".to_owned();
    out.append(file_name);
    out.append(".tmp");
    out
}

impl KeaFile {
    /// Reads a configuration: a JSON document with a DHCPv4 block. A configuration is read back
    /// from the text that it is saved as, where it can be read back at all.
    pub fn load(text: &str) -> (r: Result<KeaFile, KeaError>)
        ensures
            match (parsed(text@), r) {
                (None, Err(e)) => e.message@ == "設定檔不是合法 JSON"@,
                (Some(j), Err(e)) => dhcp4(j) is None && e.message@ == "設定檔缺少 Dhcp4 區塊"@,
                (Some(j), Ok(f)) => dhcp4(j) is Some && f@ == j,
                (None, Ok(_)) => false,
            },
            forall|j: Json|
                readable(j, max_depth()) && dhcp4(j) is Some && text@ == #[trigger] document(j) ==> r is Ok
                    && r->Ok_0@ == j,
    {
        match from_text(text) {
            Ok(root) => KeaFile::from_root(root),
            Err(_) => Err(error("設定檔不是合法 JSON")),
        }
    }

    /// Takes a JSON document for a configuration: it has a DHCPv4 block.
    pub fn from_root(root: serde_json::Value) -> (r: Result<KeaFile, KeaError>)
        ensures
            dhcp4(json_of(root)) is Some ==> r is Ok && r->Ok_0@ == json_of(root),
            dhcp4(json_of(root)) is None ==> r is Err && r->Err_0.message@ == "設定檔缺少 Dhcp4 區塊"@,
    {
        match get(&root, "Dhcp4") {
            Some(_) => Ok(KeaFile { root }),
            None => Err(error("設定檔缺少 Dhcp4 區塊")),
        }
    }

    /// The text that the configuration is saved as.
    pub fn save(&self) -> (r: String)
        ensures
            r@ == document(self@),
    {
        serialize_pretty3(&self.root)
    }

    /// The subnets.
    fn subnet4(&self) -> (r: Option<&Vec<serde_json::Value>>)
        ensures
            match r {
                Some(s) => subnets(self@) == Some(jsons(s@)),
                None => subnets(self@) is None,
            },
    {
        match get(&self.root, "Dhcp4") {
            Some(d) => get_array(d, "subnet4"),
            None => None,
        }
    }

    /// How many subnets there are.
    pub fn subnet_count(&self) -> (r: usize)
        ensures
            r == count(subnets(self@)),
    {
        match self.subnet4() {
            Some(s) => s.len(),
            None => 0,
        }
    }

    /// The subnets in short.
    pub fn subnet_list(&self) -> (r: Vec<SubnetSummary>)
        ensures
            summary_views(r@) == summaries_of(self@),
    {
        let mut out: Vec<SubnetSummary> = Vec::new();
        let list: &Vec<serde_json::Value> = match self.subnet4() {
            Some(s) => s,
            None => {
                assert(summary_views(out@) =~= summaries_of(self@));
                return out;
            },
        };
        let ghost all = summaries_of(self@);
        let mut i: usize = 0;
        assert(summary_views(out@) =~= all.take(0));
        while i < list.len()
            invariant
                i <= list@.len(),
                subnets(self@) == Some(jsons(list@)),
                all == summaries_of(self@),
                summary_views(out@) == all.take(i as int),
            decreases list@.len() - i,
        {
            let v: &serde_json::Value = &list[i];
            let cidr: String = match get_text(v, "subnet") {
                Some(s) => s.to_owned(),
                None => "?".to_owned(),
            };
            let id: Option<u32> = match get_int(v, "id") {
                Some(n) => if 0 <= n && n <= u32::MAX as i64 {
                    Some(n as u32)
                } else {
                    None
                },
                None => None,
            };
            let reservation_count: usize = match get_array(v, "reservations") {
                Some(a) => a.len(),
                None => 0,
            };
            let ghost before = out@;
            let entry: SubnetSummary = SubnetSummary { index: i, id, cidr, reservation_count };
            out.push(entry);
            assert(entry@ =~= all[i as int]);
            assert(all.take(i + 1) =~= all.take(i as int).push(all[i as int]));
            assert(summary_views(out@) =~= summary_views(before).push(entry@));
            i = i + 1;
        }
        assert(all.take(all.len() as int) =~= all);
        out
    }

    /// The hardware addresses of all reservations, in small letters with colons.
    pub fn reservation_hwaddrs(&self) -> (r: Vec<String>)
        ensures
            texts(r@) == hwaddrs_of(elements(subnets(self@))),
    {
        let mut out: Vec<String> = Vec::new();
        assert(texts(out@) =~= Seq::<Seq<char>>::empty());
        let list: &Vec<serde_json::Value> = match self.subnet4() {
            Some(s) => s,
            None => {
                return out;
            },
        };
        let ghost all = jsons(list@);
        let mut i: usize = 0;
        assert(all.take(0) =~= Seq::<Json>::empty());
        while i < list.len()
            invariant
                i <= list@.len(),
                all == jsons(list@),
                texts(out@) == hwaddrs_of(all.take(i as int)),
            decreases list@.len() - i,
        {
            assert(all.take(i + 1).drop_last() =~= all.take(i as int));
            assert(all.take(i + 1).last() == json_of(list@[i as int]));
            match get_array(&list[i], "reservations") {
                Some(res) => {
                    let mut more: Vec<String> = hardware_addresses(res);
                    let ghost before = out@;
                    let ghost added = more@;
                    out.append(&mut more);
                    assert(texts(out@) =~= texts(before) + texts(added));
                },
                None => {},
            }
            i = i + 1;
        }
        assert(all.take(all.len() as int) =~= all);
        out
    }

    /// The subnet at an index.
    pub fn subnet(&self, index: usize) -> (r: Result<Subnet, KeaError>)
        ensures
            match r {
                Ok(s) => subnet_of(self@, index as nat) == Ok::<SubnetView, Seq<char>>(s@),
                Err(e) => subnet_of(self@, index as nat) == Err::<SubnetView, Seq<char>>(e.message@),
            },
    {
        match self.subnet4() {
            None => Err(error("設定檔缺少 subnet4")),
            Some(list) => {
                if index < list.len() {
                    assert(jsons(list@)[index as int] == json_of(list@[index as int]));
                    parse_subnet(&list[index])
                } else {
                    Err(no_subnet(index))
                }
            },
        }
    }

    /// The list of reservations of a subnet, to be changed.
    fn reservations_mut(&mut self, index: usize) -> (r: Result<&mut Vec<serde_json::Value>, KeaError>)
        ensures
            match r {
                Ok(list) => reservation_list(old(self)@, index as nat) == Ok::<Seq<Json>, Seq<char>>(jsons(list@))
                    && final(self)@ == with_reservations(old(self)@, index as nat, jsons(final(list)@)),
                Err(e) => reservation_list(old(self)@, index as nat) == Err::<Seq<Json>, Seq<char>>(e.message@)
                    && final(self)@ == old(self)@,
            },
    {
        let ghost root = self@;
        match get_mut(&mut self.root, "Dhcp4") {
            None => Err(error("設定檔缺少 subnet4")),
            Some(d) => {
                proof {
                    lemma_same_member(root, "Dhcp4"@);
                }
                match get_mut(d, "subnet4") {
                    None => Err(error("設定檔缺少 subnet4")),
                    Some(s) => {
                        proof {
                            lemma_same_member(dhcp4(root)->0, "subnet4"@);
                        }
                        match as_array_mut(s) {
                            None => Err(error("設定檔缺少 subnet4")),
                            Some(arr) => {
                                let ghost all = arr@;
                                if index < arr.len() {
                                    assert(jsons(all)[index as int] == json_of(all[index as int]));
                                    assert forall|x: serde_json::Value|
                                        jsons(#[trigger] all.update(index as int, x)) == jsons(all).update(
                                            index as int,
                                            json_of(x),
                                        ) by {
                                        assert(jsons(all.update(index as int, x)) =~= jsons(all).update(
                                            index as int,
                                            json_of(x),
                                        ));
                                    }
                                    assert(jsons(all).update(index as int, jsons(all)[index as int]) =~= jsons(all));
                                    let slot: &mut serde_json::Value = &mut arr[index];
                                    match get_mut(slot, "reservations") {
                                        None => {
                                            Err(error("subnet 缺少 reservations 陣列"))
                                        },
                                        Some(res) => {
                                            proof {
                                                lemma_same_member(json_of(all[index as int]), "reservations"@);
                                            }
                                            match as_array_mut(res) {
                                                None => {
                                                    Err(error("subnet 缺少 reservations 陣列"))
                                                },
                                                Some(list) => Ok(list),
                                            }
                                        },
                                    }
                                } else {
                                    Err(no_subnet(index))
                                }
                            },
                        }
                    },
                }
            },
        }
    }

    /// Adds a reservation at the end of a subnet's list.
    pub fn add_reservation(&mut self, subnet_index: usize, r: &Reservation) -> (res: Result<(), KeaError>)
        ensures
            match reservation_list(old(self)@, subnet_index as nat) {
                Ok(list) => res is Ok && final(self)@ == with_reservations(
                    old(self)@,
                    subnet_index as nat,
                    list.push(reservation_json(r@)),
                ),
                Err(m) => res is Err && res->Err_0.message@ == m && final(self)@ == old(self)@,
            },
    {
        match self.reservations_mut(subnet_index) {
            Ok(list) => {
                let ghost before = list@;
                let v: serde_json::Value = reservation_to_value(r);
                list.push(v);
                assert(jsons(list@) =~= jsons(before).push(json_of(v)));
                Ok(())
            },
            Err(e) => Err(e),
        }
    }

    /// The place of the entry that stands for a reservation of a subnet, given its number among the
    /// subnet's reservations.
    pub fn place_of_row(&self, subnet_index: usize, row: usize) -> (r: Result<usize, KeaError>)
        ensures
            match r {
                Ok(place) => row_place(self@, subnet_index as nat, row as nat) == Ok::<nat, Seq<char>>(place as nat),
                Err(e) => row_place(self@, subnet_index as nat, row as nat) == Err::<nat, Seq<char>>(e.message@),
            },
    {
        match self.subnet4() {
            None => Err(error("設定檔缺少 subnet4")),
            Some(all) => {
                if subnet_index >= all.len() {
                    return Err(no_subnet(subnet_index));
                }
                assert(jsons(all@)[subnet_index as int] == json_of(all@[subnet_index as int]));
                match get_array(&all[subnet_index], "reservations") {
                    None => Err(error("subnet 缺少 reservations 陣列")),
                    Some(list) => match find_entry(list, row) {
                        Some(place) => Ok(place),
                        None => Err(no_reservation(row)),
                    },
                }
            },
        }
    }

    /// Sets what a reservation holds at a place of a subnet's list. All else that stands there is
    /// kept.
    pub fn update_reservation(&mut self, subnet_index: usize, res_index: usize, r: &Reservation) -> (res: Result<
        (),
        KeaError,
    >)
        ensures
            match reservation_list(old(self)@, subnet_index as nat) {
                Ok(list) => if res_index < list.len() {
                    res is Ok && final(self)@ == with_reservations(
                        old(self)@,
                        subnet_index as nat,
                        list.update(res_index as int, updated_entry(list[res_index as int], r@)),
                    )
                } else {
                    res is Err && res->Err_0.message@ == "reservation 索引超出範圍: "@ + dec(res_index as nat)
                        && final(self)@ == old(self)@
                },
                Err(m) => res is Err && res->Err_0.message@ == m && final(self)@ == old(self)@,
            },
    {
        let ghost root = self@;
        match self.reservations_mut(subnet_index) {
            Ok(list) => {
                let ghost before = list@;
                if res_index < list.len() {
                    assert(jsons(before)[res_index as int] == json_of(before[res_index as int]));
                    apply_reservation_to_value(&mut list[res_index], r);
                    assert(jsons(list@) =~= jsons(before).update(
                        res_index as int,
                        updated_entry(json_of(before[res_index as int]), r@),
                    ));
                    Ok(())
                } else {
                    proof {
                        lemma_same_list(root, subnet_index as nat);
                    }
                    Err(no_reservation(res_index))
                }
            },
            Err(e) => Err(e),
        }
    }

    /// Removes an entry of a subnet's list.
    pub fn delete_reservation(&mut self, subnet_index: usize, res_index: usize) -> (res: Result<(), KeaError>)
        ensures
            match reservation_list(old(self)@, subnet_index as nat) {
                Ok(list) => if res_index < list.len() {
                    res is Ok && final(self)@ == with_reservations(
                        old(self)@,
                        subnet_index as nat,
                        list.remove(res_index as int),
                    )
                } else {
                    res is Err && res->Err_0.message@ == "reservation 索引超出範圍: "@ + dec(res_index as nat)
                        && final(self)@ == old(self)@
                },
                Err(m) => res is Err && res->Err_0.message@ == m && final(self)@ == old(self)@,
            },
    {
        let ghost root = self@;
        match self.reservations_mut(subnet_index) {
            Ok(list) => {
                let ghost before = list@;
                if res_index >= list.len() {
                    proof {
                        lemma_same_list(root, subnet_index as nat);
                    }
                    return Err(no_reservation(res_index));
                }
                list.remove(res_index);
                assert(jsons(list@) =~= jsons(before).remove(res_index as int));
                Ok(())
            },
            Err(e) => Err(e),
        }
    }

    /// The control socket that the configuration declares.
    pub fn control_socket(&self) -> (r: Option<ControlSocket>)
        ensures
            match r {
                Some(cs) => socket_of(self@) == Some(cs@),
                None => socket_of(self@) is None,
            },
    {
        match get(&self.root, "Dhcp4") {
            Some(d) => match get(d, "control-socket") {
                Some(cs) => match (get_text(cs, "socket-name"), get_text(cs, "socket-type")) {
                    (Some(name), Some(kind)) => Some(
                        ControlSocket { socket_name: name.to_owned(), socket_type: kind.to_owned() },
                    ),
                    _ => None,
                },
                None => None,
            },
            None => None,
        }
    }

    /// Where the leases are kept.
    pub fn lease_db(&self) -> (r: LeaseDb)
        ensures
            r@ == lease_db_of(self@),
    {
        let d: &serde_json::Value = match get(&self.root, "Dhcp4") {
            Some(d) => d,
            None => {
                return LeaseDb::Unavailable("設定檔缺少 Dhcp4 區段，無法顯示租用".to_owned());
            },
        };
        let db: &serde_json::Value = match get(d, "lease-database") {
            Some(db) => db,
            None => {
                return LeaseDb::Unavailable("設定檔缺少 lease-database 區段，無法顯示租用".to_owned());
            },
        };
        let kind: &str = match get_text(db, "type") {
            Some(t) => t,
            None => {
                return LeaseDb::Unavailable("設定檔 lease-database 缺少 type，無法顯示租用".to_owned());
            },
        };
        if !same(kind, "memfile") {
            let mut message: String = "租用資料庫型別「".to_owned();
            message.append(kind);
            message.append("」非 memfile，無法顯示租用");
            return LeaseDb::Unavailable(message);
        }
        match get_text(db, "name") {
            None => LeaseDb::Memfile("/var/lib/kea/kea-leases4.csv".to_owned()),
            Some(name) => {
                if contains_char(name, '/') {
                    LeaseDb::Memfile(name.to_owned())
                } else {
                    let mut path: String = "/var/lib/kea/".to_owned();
                    path.append(name);
                    LeaseDb::Memfile(path)
                }
            },
        }
    }
}

/// The hardware addresses of reservations.
fn hardware_addresses(list: &Vec<serde_json::Value>) -> (r: Vec<String>)
    ensures
        texts(r@) == list_hwaddrs(jsons(list@)),
{
    let ghost all = jsons(list@);
    let mut out: Vec<String> = Vec::new();
    let mut i: usize = 0;
    assert(texts(out@) =~= list_hwaddrs(all.take(0)));
    while i < list.len()
        invariant
            i <= list@.len(),
            all == jsons(list@),
            texts(out@) == list_hwaddrs(all.take(i as int)),
        decreases list@.len() - i,
    {
        assert(all.take(i + 1).drop_last() =~= all.take(i as int));
        assert(all.take(i + 1).last() == json_of(list@[i as int]));
        match get_text(&list[i], "hw-address") {
            Some(hw) => {
                let kept: String = match normalize_mac(hw) {
                    Some(m) => m,
                    None => to_lowercase(hw),
                };
                let ghost before = out@;
                out.push(kept);
                assert(texts(out@) =~= texts(before).push(kept@));
            },
            None => {},
        }
        i = i + 1;
    }
    assert(all.take(all.len() as int) =~= all);
    out
}

/// What is written of a reservation: an empty hostname is none.
pub open spec fn as_written(r: ReservationView) -> ReservationView {
    ReservationView {
        hostname: match r.hostname {
            Some(h) => if h.len() > 0 {
                Some(h)
            } else {
                None
            },
            None => None,
        },
        ..r
    }
}

/// The names of an entry's members that a reservation sets are different names.
proof fn lemma_field_names()
    ensures
        "hw-address"@ != "ip-address"@,
        "hw-address"@ != "hostname"@,
        "ip-address"@ != "hostname"@,
{
    reveal_strlit("hw-address");
    reveal_strlit("ip-address");
    reveal_strlit("hostname");
    assert("hw-address"@[0] == 'h' && "ip-address"@[0] == 'i' && "hostname"@[1] == 'o' && "hw-address"@[1] == 'w');
}

/// A reservation is read back from an entry that it was set in, whatever else the entry holds.
pub proof fn law_entry_round_trip(m: Map<Seq<char>, Json>, r: ReservationView)
    ensures
        reservation_of(updated_entry(Json::Object(m), r)) == Some(as_written(r)),
        reservation_of(reservation_json(r)) == Some(as_written(r)),
{
    lemma_field_names();
    law_ip_round_trip(r.ip);
}

/// Setting a reservation in an entry keeps all its members but the hardware address, the address
/// and the hostname.
pub proof fn law_update_keeps_other_members(entry: Json, r: ReservationView, key: Seq<char>)
    requires
        key != "hw-address"@,
        key != "ip-address"@,
        key != "hostname"@,
    ensures
        member(updated_entry(entry, r), key) == member(entry, key),
{
}

/// A list of reservations that was set is the list that is found, and the other subnets, the
/// network and the pools of the subnet, and all that stands outside the subnets, are what they
/// were.
pub proof fn law_edit_touches_only_the_list(root: Json, index: nat, list: Seq<Json>)
    requires
        reservation_list(root, index) is Ok,
    ensures
        reservation_list(with_reservations(root, index, list), index) == Ok::<Seq<Json>, Seq<char>>(list),
        count(subnets(with_reservations(root, index, list))) == count(subnets(root)),
        forall|i: nat|
            i != index ==> #[trigger] subnet_of(with_reservations(root, index, list), i) == subnet_of(root, i),
        subnet_of(root, index) matches Ok(s) ==> subnet_of(with_reservations(root, index, list), index) == Ok::<
            SubnetView,
            Seq<char>,
        >(SubnetView { reservations: reservations_of(list), ..s }),
        subnet_of(root, index) matches Err(e) ==> subnet_of(with_reservations(root, index, list), index) == Err::<
            SubnetView,
            Seq<char>,
        >(e),
        socket_of(with_reservations(root, index, list)) == socket_of(root),
        lease_db_of(with_reservations(root, index, list)) == lease_db_of(root),
        forall|k: Seq<char>|
            k != "Dhcp4"@ ==> #[trigger] member(with_reservations(root, index, list), k) == member(root, k),
        forall|k: Seq<char>|
            k != "subnet4"@ ==> #[trigger] member(dhcp4(with_reservations(root, index, list))->0, k) == member(
                dhcp4(root)->0,
                k,
            ),
        forall|k: Seq<char>|
            k != "reservations"@ ==> #[trigger] member(
                subnets(with_reservations(root, index, list))->0[index as int],
                k,
            ) == member(subnets(root)->0[index as int], k),
{
    reveal_strlit("Dhcp4");
    reveal_strlit("subnet4");
    reveal_strlit("reservations");
    reveal_strlit("subnet");
    reveal_strlit("pools");
    reveal_strlit("control-socket");
    reveal_strlit("lease-database");
    assert("subnet4"@.len() == 7 && "control-socket"@.len() == 14 && "lease-database"@.len() == 14);
    assert("reservations"@.len() == 12 && "subnet"@.len() == 6 && "pools"@.len() == 5);
}

/// Setting a list twice is setting it once, and setting it to what it was undoes an edit.
pub proof fn law_edit_undone(root: Json, index: nat, list: Seq<Json>, other: Seq<Json>)
    requires
        reservation_list(root, index) is Ok,
    ensures
        with_reservations(with_reservations(root, index, list), index, other) == with_reservations(root, index, other),
        with_reservations(
            with_reservations(root, index, list),
            index,
            reservation_list(root, index)->Ok_0,
        ) == root,
{
    lemma_set_twice(root, index, list, other);
    lemma_set_twice(root, index, list, reservation_list(root, index)->Ok_0);
    lemma_same_list(root, index);
}

proof fn lemma_set_twice(root: Json, index: nat, list: Seq<Json>, other: Seq<Json>)
    requires
        reservation_list(root, index) is Ok,
    ensures
        with_reservations(with_reservations(root, index, list), index, other) == with_reservations(root, index, other),
{
    let a = with_reservations(root, index, list);
    let d = dhcp4(root)->0;
    let s = subnets(root)->0;
    let m = s[index as int]->Object_0;
    law_edit_touches_only_the_list(root, index, list);
    assert(m.insert("reservations"@, Json::Array(list)).insert("reservations"@, Json::Array(other)) =~= m.insert(
        "reservations"@,
        Json::Array(other),
    ));
    let s1 = subnets(a)->0;
    assert(s1.update(index as int, with_member(s1[index as int], "reservations"@, Json::Array(other))) =~= s.update(
        index as int,
        with_member(s[index as int], "reservations"@, Json::Array(other)),
    ));
    let x = Json::Array(s1);
    let y = Json::Array(s.update(index as int, with_member(s[index as int], "reservations"@, Json::Array(other))));
    assert(d->Object_0.insert("subnet4"@, x).insert("subnet4"@, y) =~= d->Object_0.insert("subnet4"@, y));
    let p = with_member(d, "subnet4"@, x);
    let q = with_member(d, "subnet4"@, y);
    assert(root->Object_0.insert("Dhcp4"@, p).insert("Dhcp4"@, q) =~= root->Object_0.insert("Dhcp4"@, q));
}

/// A reservation that is added stands at the end of the subnet's reservations.
pub proof fn law_added_is_read_back(root: Json, index: nat, r: ReservationView)
    requires
        reservation_list(root, index) is Ok,
        subnet_of(root, index) is Ok,
    ensures
        subnet_of(
            with_reservations(root, index, reservation_list(root, index)->Ok_0.push(reservation_json(r))),
            index,
        ) == Ok::<SubnetView, Seq<char>>(
            SubnetView {
                reservations: subnet_of(root, index)->Ok_0.reservations.push(as_written(r)),
                ..subnet_of(root, index)->Ok_0
            },
        ),
{
    let list = reservation_list(root, index)->Ok_0;
    let after = list.push(reservation_json(r));
    law_edit_touches_only_the_list(root, index, after);
    assert(after.drop_last() =~= list);
    law_entry_round_trip(Map::empty(), r);
}

/// The reservations of two lists, one behind the other.
proof fn lemma_reservations_concat(a: Seq<Json>, b: Seq<Json>)
    ensures
        reservations_of(a + b) == reservations_of(a) + reservations_of(b),
    decreases b.len(),
{
    if b.len() == 0 {
        assert(a + b =~= a);
        assert(reservations_of(a) + reservations_of(b) =~= reservations_of(a));
    } else {
        assert((a + b).drop_last() =~= a + b.drop_last());
        assert((a + b).last() == b.last());
        lemma_reservations_concat(a, b.drop_last());
        assert(reservations_of(a + b) =~= reservations_of(a) + reservations_of(b));
    }
}

/// What stands at the place of a reservation's entry is that entry, and before it stand as many
/// reservations as before the reservation. There is such a place exactly for the reservations that
/// there are.
pub proof fn law_entry_of_row(list: Seq<Json>, row: nat)
    ensures
        entry_place(list, row) is Some <==> row < reservations_of(list).len(),
        match entry_place(list, row) {
            Some(place) => {
                &&& place < list.len()
                &&& reservation_of(list[place as int]) == Some(reservations_of(list)[row as int])
                &&& reservations_of(list.take(place as int)).len() == row
            },
            None => true,
        },
    decreases list.len(),
{
    if list.len() > 0 {
        let front = list.drop_last();
        law_entry_of_row(front, row);
        match entry_place(front, row) {
            Some(place) => {
                assert(front.take(place as int) =~= list.take(place as int));
                assert(front[place as int] == list[place as int]);
                assert(reservations_of(list)[row as int] == reservations_of(front)[row as int]);
            },
            None => {
                assert(list.take(list.len() - 1) =~= front);
            },
        }
    }
}

/// A list is what stands before an entry, the entry, and what stands behind it; and so are its
/// reservations.
proof fn lemma_around_entry(list: Seq<Json>, row: nat)
    requires
        row < reservations_of(list).len(),
    ensures
        ({
            let place = entry_place(list, row)->0 as int;
            let front = reservations_of(list.take(place));
            let rest = reservations_of(list.skip(place + 1));
            &&& 0 <= place < list.len()
            &&& front.len() == row
            &&& reservations_of(list) == front.push(reservations_of(list)[row as int]) + rest
            &&& reservations_of(list.remove(place)) == front + rest
            &&& forall|j: Json|
                reservation_of(j) is Some ==> reservations_of(#[trigger] list.update(place, j)) == front.push(
                    reservation_of(j)->0,
                ) + rest
        }),
{
    law_entry_of_row(list, row);
    let place = entry_place(list, row)->0 as int;
    let front = list.take(place);
    let rest = list.skip(place + 1);
    assert(list.remove(place) =~= front + rest);
    lemma_reservations_concat(front, rest);
    assert forall|j: Json| reservation_of(j) is Some implies reservations_of(#[trigger] list.update(place, j))
        == reservations_of(front).push(reservation_of(j)->0) + reservations_of(rest) by {
        assert(list.update(place, j) =~= front.push(j) + rest);
        assert(front.push(j).drop_last() =~= front);
        lemma_reservations_concat(front.push(j), rest);
    }
    assert(list.update(place, list[place]) =~= list);
}

/// An entry that is updated holds the reservation that it was updated to, at the place of the
/// reservation that it held, and all other reservations stay.
pub proof fn law_updated_is_read_back(root: Json, index: nat, row: nat, r: ReservationView)
    requires
        subnet_of(root, index) is Ok,
        row_place(root, index, row) is Ok,
    ensures
        ({
            let list = reservation_list(root, index)->Ok_0;
            let place = row_place(root, index, row)->Ok_0 as int;
            let after = list.update(place, updated_entry(list[place], r));
            &&& row < subnet_of(root, index)->Ok_0.reservations.len()
            &&& subnet_of(with_reservations(root, index, after), index) == Ok::<SubnetView, Seq<char>>(
                SubnetView {
                    reservations: subnet_of(root, index)->Ok_0.reservations.update(row as int, as_written(r)),
                    ..subnet_of(root, index)->Ok_0
                },
            )
        }),
{
    let list = reservation_list(root, index)->Ok_0;
    law_entry_of_row(list, row);
    let place = entry_place(list, row)->0 as int;
    let after = list.update(place, updated_entry(list[place], r));
    law_edit_touches_only_the_list(root, index, after);
    law_entry_round_trip(list[place]->Object_0, r);
    lemma_around_entry(list, row);
    assert(reservations_of(after) =~= reservations_of(list).update(row as int, as_written(r)));
}

/// An entry that is deleted takes its reservation with it and no other.
pub proof fn law_deleted_is_gone(root: Json, index: nat, row: nat)
    requires
        subnet_of(root, index) is Ok,
        row_place(root, index, row) is Ok,
    ensures
        ({
            let list = reservation_list(root, index)->Ok_0;
            let place = row_place(root, index, row)->Ok_0 as int;
            &&& row < subnet_of(root, index)->Ok_0.reservations.len()
            &&& subnet_of(with_reservations(root, index, list.remove(place)), index) == Ok::<SubnetView, Seq<char>>(
                SubnetView {
                    reservations: subnet_of(root, index)->Ok_0.reservations.remove(row as int),
                    ..subnet_of(root, index)->Ok_0
                },
            )
        }),
{
    let list = reservation_list(root, index)->Ok_0;
    law_entry_of_row(list, row);
    let place = entry_place(list, row)->0 as int;
    law_edit_touches_only_the_list(root, index, list.remove(place));
    lemma_around_entry(list, row);
    assert(reservations_of(list.remove(place)) =~= reservations_of(list).remove(row as int));
}

/// Adding a reservation and deleting it again gives back the configuration.
pub proof fn law_add_then_delete(root: Json, index: nat, r: ReservationView)
    requires
        reservation_list(root, index) is Ok,
    ensures
        ({
            let list = reservation_list(root, index)->Ok_0;
            let added = with_reservations(root, index, list.push(reservation_json(r)));
            reservation_list(added, index) is Ok && with_reservations(
                added,
                index,
                reservation_list(added, index)->Ok_0.remove(list.len() as int),
            ) == root
        }),
{
    let list = reservation_list(root, index)->Ok_0;
    let after = list.push(reservation_json(r));
    law_edit_touches_only_the_list(root, index, after);
    assert(after.remove(list.len() as int) =~= list);
    law_edit_undone(root, index, after, list);
}

/// An object stays readable where a member is set to what is readable.
proof fn lemma_with_member_readable(j: Json, key: Seq<char>, v: Json, depth: nat)
    requires
        depth > 0,
        readable(j, depth),
        key != raw_mark(),
        readable(v, (depth - 1) as nat),
    ensures
        readable(with_member(j, key, v), depth),
{
    if j is Object {
        let m = j->Object_0;
        let after = m.insert(key, v);
        assert(after.dom() =~= m.dom().insert(key));
        if m.contains_key(raw_mark()) {
            let k = choose|k: Seq<char>| #[trigger] m.contains_key(k) && before_mark(k);
            assert(after.contains_key(k));
        }
        assert forall|k: Seq<char>| #[trigger] after.contains_key(k) implies readable(
            after[k],
            (depth - 1) as nat,
        ) by {
            if k != key {
                assert(after[k] == m[k]);
            }
        }
    }
}

/// The names that an edit sets are not the mark of a raw value, and the one that it removes does not
/// come before it.
proof fn lemma_edited_names()
    ensures
        "Dhcp4"@ != raw_mark(),
        "subnet4"@ != raw_mark(),
        "reservations"@ != raw_mark(),
        "hw-address"@ != raw_mark(),
        "ip-address"@ != raw_mark(),
        "hostname"@ != raw_mark(),
        !before_mark("hostname"@),
{
    reveal_strlit("$serde_json::private::RawValue");
    reveal_strlit("Dhcp4");
    reveal_strlit("subnet4");
    reveal_strlit("reservations");
    reveal_strlit("hw-address");
    reveal_strlit("ip-address");
    reveal_strlit("hostname");
    assert(raw_mark()[0] == '$');
    assert("Dhcp4"@[0] == 'D' && "subnet4"@[0] == 's' && "reservations"@[0] == 'r');
    assert("hw-address"@[0] == 'h' && "ip-address"@[0] == 'i' && "hostname"@[0] == 'h');
    assert('$' as u32 == 36 && 'h' as u32 == 104);
    assert((36u32 & 0x7F) as u8 == 36 && (104u32 & 0x7F) as u8 == 104) by (bit_vector);
    assert(encode_utf8(raw_mark())[0] == 36);
    assert(encode_utf8("hostname"@)[0] == 104);
}

/// An entry stays readable where a reservation is set in it.
proof fn lemma_entry_readable(m: Map<Seq<char>, Json>, r: ReservationView, depth: nat)
    requires
        readable(Json::Object(m), depth),
    ensures
        readable(Json::Object(with_fields(m, r)), depth),
{
    lemma_edited_names();
    let hw = Json::Text(r.hw);
    let ip = Json::Text(ip_text(r.ip));
    lemma_with_member_readable(Json::Object(m), "hw-address"@, hw, depth);
    let first = m.insert("hw-address"@, hw);
    lemma_with_member_readable(Json::Object(first), "ip-address"@, ip, depth);
    let base = first.insert("ip-address"@, ip);
    if r.hostname is Some && r.hostname->0.len() > 0 {
        lemma_with_member_readable(Json::Object(base), "hostname"@, Json::Text(r.hostname->0), depth);
    } else {
        let after = base.remove("hostname"@);
        assert(after.dom() =~= base.dom().remove("hostname"@));
        if base.contains_key(raw_mark()) {
            let k = choose|k: Seq<char>| #[trigger] base.contains_key(k) && before_mark(k);
            assert(after.contains_key(k));
        }
        assert forall|k: Seq<char>| #[trigger] after.contains_key(k) implies readable(
            after[k],
            (depth - 1) as nat,
        ) by {
            assert(after[k] == base[k]);
        }
    }
}

/// The entries of a list of reservations stand five levels deep.
proof fn lemma_list_readable(root: Json, index: nat, depth: nat)
    requires
        readable(root, depth),
        reservation_list(root, index) is Ok,
    ensures
        depth >= 5,
        readable(dhcp4(root)->0, (depth - 1) as nat),
        forall|i: int|
            0 <= i < subnets(root)->0.len() ==> readable(#[trigger] subnets(root)->0[i], (depth - 3) as nat),
        forall|i: int|
            0 <= i < reservation_list(root, index)->Ok_0.len() ==> readable(
                #[trigger] reservation_list(root, index)->Ok_0[i],
                (depth - 5) as nat,
            ),
{
    let d = dhcp4(root)->0;
    assert(root->Object_0.contains_key("Dhcp4"@));
    assert(readable(d, (depth - 1) as nat));
    let s = subnets(root)->0;
    assert(d->Object_0.contains_key("subnet4"@));
    assert(readable(Json::Array(s), (depth - 2) as nat));
    let j = s[index as int];
    assert(readable(j, (depth - 3) as nat));
    assert(j->Object_0.contains_key("reservations"@));
    assert(readable(Json::Array(reservation_list(root, index)->Ok_0), (depth - 4) as nat));
}

/// A configuration stays readable where a list of reservations is set that is.
proof fn lemma_edit_readable(root: Json, index: nat, list: Seq<Json>, depth: nat)
    requires
        readable(root, depth),
        reservation_list(root, index) is Ok,
        depth >= 5,
        forall|i: int| 0 <= i < list.len() ==> readable(#[trigger] list[i], (depth - 5) as nat),
    ensures
        readable(with_reservations(root, index, list), depth),
{
    lemma_list_readable(root, index, depth);
    lemma_edited_names();
    let d = dhcp4(root)->0;
    let s = subnets(root)->0;
    let j = with_member(s[index as int], "reservations"@, Json::Array(list));
    assert(readable(Json::Array(list), (depth - 4) as nat));
    lemma_with_member_readable(s[index as int], "reservations"@, Json::Array(list), (depth - 3) as nat);
    let all = Json::Array(s.update(index as int, j));
    assert(readable(all, (depth - 2) as nat));
    lemma_with_member_readable(d, "subnet4"@, all, (depth - 1) as nat);
    lemma_with_member_readable(root, "Dhcp4"@, with_member(d, "subnet4"@, all), depth);
}

/// A configuration that can be read back from the text that it is saved as can still be read back
/// after a reservation was added, updated or deleted.
pub proof fn law_edited_file_is_read_back(root: Json, index: nat, place: int, r: ReservationView)
    requires
        readable(root, max_depth()),
        reservation_list(root, index) is Ok,
    ensures
        ({
            let list = reservation_list(root, index)->Ok_0;
            let added = with_reservations(root, index, list.push(reservation_json(r)));
            let updated = with_reservations(root, index, list.update(place, updated_entry(list[place], r)));
            let deleted = with_reservations(root, index, list.remove(place));
            &&& readable(added, max_depth()) && dhcp4(added) is Some
            &&& 0 <= place < list.len() ==> readable(updated, max_depth()) && dhcp4(updated) is Some
            &&& 0 <= place < list.len() ==> readable(deleted, max_depth()) && dhcp4(deleted) is Some
        }),
{
    let list = reservation_list(root, index)->Ok_0;
    let depth: nat = (max_depth() - 5) as nat;
    lemma_list_readable(root, index, max_depth());
    lemma_entry_readable(Map::empty(), r, depth);
    lemma_edit_readable(root, index, list.push(reservation_json(r)), max_depth());
    if 0 <= place < list.len() {
        if list[place] is Object {
            lemma_entry_readable(list[place]->Object_0, r, depth);
        }
        lemma_edit_readable(root, index, list.update(place, updated_entry(list[place], r)), max_depth());
        lemma_edit_readable(root, index, list.remove(place), max_depth());
    }
}

} // verus!
