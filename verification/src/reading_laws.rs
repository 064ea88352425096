//! What is read from every configuration: nothing that can be read is passed over, and nothing is read
//! that is not there.
use vstd::prelude::*;
use vstd::string::*;

use crate::addr::{ip_of, net_of};
use crate::domain::{IpRange, ReservationView};
use crate::file::{
    dhcp4, elements, entry_place, hwaddrs_of, kept_hw, law_entry_of_row, lease_db_of, list_hwaddrs, pool_of, pools_of,
    reservation_list, reservation_of, reservations_of, socket_of, subnet_of, subnets, summaries_of, LeaseDbView,
    SocketView,
};
use crate::json::{array_member, int_member, member, text_member, Json};
use crate::mac::mac_of;
use crate::text::{lowercase, split_first, trimmed};
use crate::text_laws::law_divided_in_two;

verus! {

/// Whether a value is an object that has a member with a value.
pub open spec fn holds(j: Json, key: Seq<char>, v: Json) -> bool {
    j is Object && j->Object_0.contains_key(key) && j->Object_0[key] == v
}

/// What an object has under a name is found there, and nothing else is.
pub proof fn law_members_are_found(j: Json, key: Seq<char>)
    ensures
        forall|v: Json| #[trigger] holds(j, key, v) <==> member(j, key) == Some(v),
        forall|t: Seq<char>| #[trigger] holds(j, key, Json::Text(t)) <==> text_member(j, key) == Some(t),
        forall|a: Seq<Json>| #[trigger] holds(j, key, Json::Array(a)) <==> array_member(j, key) == Some(a),
        forall|n: int|
            i64::MIN <= n <= i64::MAX ==> (#[trigger] holds(j, key, Json::Int(n)) <==> int_member(j, key) == Some(n)),
        int_member(j, key) matches Some(n) ==> i64::MIN <= n <= i64::MAX,
{
}

/// Whether the subnet at an index of a configuration is this object.
pub open spec fn has_subnet(root: Json, index: nat, j: Json) -> bool {
    exists|d: Json, s: Seq<Json>| #[trigger] has_subnet_in(root, index, j, d, s)
}

/// Whether the subnet at an index of a configuration is this object: `d` is the DHCPv4 block, and `s`
/// its subnets.
pub open spec fn has_subnet_in(root: Json, index: nat, j: Json, d: Json, s: Seq<Json>) -> bool {
    holds(root, "Dhcp4"@, d) && holds(d, "subnet4"@, Json::Array(s)) && index < s.len() && s[index as int] == j
}

/// A subnet is found where it stands.
proof fn lemma_has_subnet(root: Json, index: nat, j: Json)
    ensures
        has_subnet(root, index, j) <==> subnets(root) is Some && index < subnets(root)->0.len() && subnets(
            root,
        )->0[index as int] == j,
{
    law_members_are_found(root, "Dhcp4"@);
    if has_subnet(root, index, j) {
        let (d, s) = choose|d: Json, s: Seq<Json>| #[trigger] has_subnet_in(root, index, j, d, s);
        assert(holds(root, "Dhcp4"@, d));
        law_members_are_found(d, "subnet4"@);
        assert(holds(d, "subnet4"@, Json::Array(s)));
    }
    if subnets(root) is Some && index < subnets(root)->0.len() && subnets(root)->0[index as int] == j {
        let d = dhcp4(root)->0;
        law_members_are_found(d, "subnet4"@);
        assert(has_subnet_in(root, index, j, d, subnets(root)->0));
    }
}

/// A subnet is read exactly where it stands at its index and its network can be read; that network is
/// the one that is read.
pub proof fn law_subnet_is_read(root: Json, index: nat, j: Json, t: Seq<char>)
    requires
        has_subnet(root, index, j),
        holds(j, "subnet"@, Json::Text(t)),
    ensures
        subnet_of(root, index) is Ok <==> net_of(t) is Some,
        subnet_of(root, index) matches Ok(s) ==> net_of(t) == Some((s.net.addr, s.net.prefix)),
{
    lemma_has_subnet(root, index, j);
    law_members_are_found(j, "subnet"@);
}

/// No subnet is read where there is none.
pub proof fn law_no_subnet_is_made_up(root: Json, index: nat)
    requires
        subnet_of(root, index) is Ok,
    ensures
        exists|j: Json, t: Seq<char>| #[trigger] is_named_subnet(root, index, j, t),
{
    let j = subnets(root)->0[index as int];
    let t = text_member(j, "subnet"@)->0;
    lemma_has_subnet(root, index, j);
    law_members_are_found(j, "subnet"@);
    assert(holds(j, "subnet"@, Json::Text(t)));
    assert(is_named_subnet(root, index, j, t));
}

/// Whether the subnet at an index of a configuration is this object, and its network has this text.
pub open spec fn is_named_subnet(root: Json, index: nat, j: Json, t: Seq<char>) -> bool {
    has_subnet(root, index, j) && holds(j, "subnet"@, Json::Text(t))
}

/// Whether an entry of the pools of a subnet is a range: two addresses with a hyphen between them.
pub open spec fn is_pool_entry(entry: Json, a: Seq<char>, b: Seq<char>, first: u32, last: u32) -> bool {
    &&& holds(entry, "pool"@, Json::Text(a + seq!['-'] + b))
    &&& !a.contains('-')
    &&& ip_of(trimmed(a)) == Some(first)
    &&& ip_of(trimmed(b)) == Some(last)
}

/// Every entry of a subnet's pools that is a range is among the pools that are read.
pub proof fn law_every_pool_is_read(
    root: Json,
    index: nat,
    j: Json,
    pools: Seq<Json>,
    k: int,
    a: Seq<char>,
    b: Seq<char>,
    first: u32,
    last: u32,
)
    requires
        subnet_of(root, index) is Ok,
        has_subnet(root, index, j),
        holds(j, "pools"@, Json::Array(pools)),
        0 <= k < pools.len(),
        is_pool_entry(pools[k], a, b, first, last),
    ensures
        exists|i: int|
            0 <= i < subnet_of(root, index)->Ok_0.pools.len() && (#[trigger] subnet_of(
                root,
                index,
            )->Ok_0.pools[i]).start.bits == first && subnet_of(root, index)->Ok_0.pools[i].end.bits == last,
{
    lemma_has_subnet(root, index, j);
    law_members_are_found(j, "pools"@);
    law_members_are_found(pools[k], "pool"@);
    law_divided_in_two(a, b, '-');
    lemma_pool_kept(pools, k);
    let p = pool_of(a + seq!['-'] + b)->0;
    let all = subnet_of(root, index)->Ok_0.pools;
    assert(all == pools_of(pools));
    let i = choose|i: int| 0 <= i < all.len() && all[i] == p;
    assert(all[i].start.bits == first);
}

proof fn lemma_pool_kept(list: Seq<Json>, k: int)
    requires
        0 <= k < list.len(),
        text_member(list[k], "pool"@) is Some,
        pool_of(text_member(list[k], "pool"@)->0) is Some,
    ensures
        pools_of(list).contains(pool_of(text_member(list[k], "pool"@)->0)->0),
    decreases list.len(),
{
    let p = pool_of(text_member(list[k], "pool"@)->0)->0;
    let front = list.drop_last();
    let all = pools_of(list);
    if k < list.len() - 1 {
        assert(front[k] == list[k]);
        lemma_pool_kept(front, k);
        let i = choose|i: int| 0 <= i < pools_of(front).len() && pools_of(front)[i] == p;
        assert(all[i] == p);
    } else {
        assert(all[all.len() - 1] == p);
    }
}

/// Every pool that is read is that of an entry.
pub proof fn law_no_pool_is_made_up(root: Json, index: nat, j: Json, i: int)
    requires
        subnet_of(root, index) is Ok,
        has_subnet(root, index, j),
        0 <= i < subnet_of(root, index)->Ok_0.pools.len(),
    ensures
        exists|pools: Seq<Json>, k: int, t: Seq<char>| #[trigger]
            is_source_of_pool(j, pools, k, t, subnet_of(root, index)->Ok_0.pools[i]),
{
    lemma_has_subnet(root, index, j);
    law_members_are_found(j, "pools"@);
    let pools = elements(array_member(j, "pools"@));
    let k = lemma_pool_source(pools, i);
    law_members_are_found(pools[k], "pool"@);
    let t = text_member(pools[k], "pool"@)->0;
    assert(array_member(j, "pools"@) == Some(pools));
    assert(holds(j, "pools"@, Json::Array(pools)));
    assert(holds(pools[k], "pool"@, Json::Text(t)));
    assert(is_source_of_pool(j, pools, k, t, pools_of(pools)[i]));
}

/// Whether a pool is that of an entry of a subnet.
pub open spec fn is_source_of_pool(j: Json, pools: Seq<Json>, k: int, t: Seq<char>, p: IpRange) -> bool {
    &&& holds(j, "pools"@, Json::Array(pools))
    &&& 0 <= k < pools.len()
    &&& holds(pools[k], "pool"@, Json::Text(t))
    &&& split_first(t, '-') matches Some((a, b)) && ip_of(trimmed(a)) == Some(p.start.bits) && ip_of(trimmed(b))
        == Some(p.end.bits)
}

proof fn lemma_pool_source(list: Seq<Json>, i: int) -> (k: int)
    requires
        0 <= i < pools_of(list).len(),
    ensures
        0 <= k < list.len(),
        text_member(list[k], "pool"@) is Some,
        pool_of(text_member(list[k], "pool"@)->0) == Some(pools_of(list)[i]),
    decreases list.len(),
{
    let front = list.drop_last();
    if i < pools_of(front).len() {
        let k = lemma_pool_source(front, i);
        assert(front[k] == list[k]);
        k
    } else {
        list.len() - 1
    }
}

/// Whether an entry stands for a reservation: it has a hardware address and an address, and a hostname
/// where it has one that is a text.
pub open spec fn is_reservation_entry(entry: Json, r: ReservationView) -> bool {
    &&& holds(entry, "hw-address"@, Json::Text(r.hw))
    &&& exists|t: Seq<char>| #[trigger] holds(entry, "ip-address"@, Json::Text(t)) && ip_of(t) == Some(r.ip)
    &&& forall|h: Seq<char>| #[trigger] holds(entry, "hostname"@, Json::Text(h)) <==> r.hostname == Some(h)
}

/// An entry stands for one reservation at most, and that is the one that is read from it.
pub proof fn law_entry_is_read(entry: Json, r: ReservationView)
    ensures
        is_reservation_entry(entry, r) <==> reservation_of(entry) == Some(r),
{
    law_members_are_found(entry, "hw-address"@);
    law_members_are_found(entry, "ip-address"@);
    law_members_are_found(entry, "hostname"@);
    if is_reservation_entry(entry, r) {
        let t = choose|t: Seq<char>| #[trigger] holds(entry, "ip-address"@, Json::Text(t)) && ip_of(t) == Some(r.ip);
        assert(text_member(entry, "ip-address"@) == Some(t));
        let host = text_member(entry, "hostname"@);
        if host is Some {
            assert(holds(entry, "hostname"@, Json::Text(host->0)));
        } else if r.hostname is Some {
            assert(holds(entry, "hostname"@, Json::Text(r.hostname->0)));
        }
    }
    if reservation_of(entry) == Some(r) {
        let t = text_member(entry, "ip-address"@)->0;
        assert(holds(entry, "ip-address"@, Json::Text(t)));
        assert(holds(entry, "hw-address"@, Json::Text(r.hw)));
    }
}

/// Every entry of a subnet that stands for a reservation is among the reservations that are read, and
/// there are as many of them as such entries.
pub proof fn law_every_reservation_is_read(root: Json, index: nat, j: Json, list: Seq<Json>, k: int, r: ReservationView)
    requires
        subnet_of(root, index) is Ok,
        has_subnet(root, index, j),
        holds(j, "reservations"@, Json::Array(list)),
        0 <= k < list.len(),
        is_reservation_entry(list[k], r),
    ensures
        subnet_of(root, index)->Ok_0.reservations.contains(r),
        subnet_of(root, index)->Ok_0.reservations.len() == list.filter(
            |e: Json| exists|x: ReservationView| is_reservation_entry(e, x),
        ).len(),
{
    lemma_has_subnet(root, index, j);
    law_members_are_found(j, "reservations"@);
    law_entry_is_read(list[k], r);
    lemma_reservation_kept(list, k);
    lemma_reservations_counted(list);
}

/// Whether an entry stands for a reservation.
spec fn stands_for_one() -> spec_fn(Json) -> bool {
    |e: Json| exists|x: ReservationView| is_reservation_entry(e, x)
}

proof fn lemma_reservations_counted(list: Seq<Json>)
    ensures
        reservations_of(list).len() == list.filter(stands_for_one()).len(),
    decreases list.len(),
{
    if list.len() == 0 {
        reveal(Seq::filter);
    } else {
        let front = list.drop_last();
        lemma_reservations_counted(front);
        assert(list =~= front.push(list.last()));
        front.lemma_filter_len_push(stands_for_one(), list.last());
        if reservation_of(list.last()) is Some {
            law_entry_is_read(list.last(), reservation_of(list.last())->0);
        } else if stands_for_one()(list.last()) {
            let x = choose|x: ReservationView| is_reservation_entry(list.last(), x);
            law_entry_is_read(list.last(), x);
        }
    }
}

proof fn lemma_reservation_kept(list: Seq<Json>, k: int)
    requires
        0 <= k < list.len(),
        reservation_of(list[k]) is Some,
    ensures
        reservations_of(list).contains(reservation_of(list[k])->0),
    decreases list.len(),
{
    let r = reservation_of(list[k])->0;
    let front = list.drop_last();
    let all = reservations_of(list);
    if k < list.len() - 1 {
        assert(front[k] == list[k]);
        lemma_reservation_kept(front, k);
        let i = choose|i: int| 0 <= i < reservations_of(front).len() && reservations_of(front)[i] == r;
        assert(all[i] == r);
    } else {
        assert(all[all.len() - 1] == r);
    }
}

/// Every reservation that is read is that of an entry, and the reservations stand in the order of
/// their entries.
pub proof fn law_no_reservation_is_made_up(root: Json, index: nat, j: Json, row: nat)
    requires
        subnet_of(root, index) is Ok,
        has_subnet(root, index, j),
        row < subnet_of(root, index)->Ok_0.reservations.len(),
    ensures
        exists|list: Seq<Json>, k: int| #[trigger]
            is_source_of_row(j, list, k, subnet_of(root, index)->Ok_0.reservations[row as int]),
        forall|later: nat|
            row < later < subnet_of(root, index)->Ok_0.reservations.len() ==> entry_place(
                reservation_list(root, index)->Ok_0,
                row,
            )->0 < #[trigger] entry_place(reservation_list(root, index)->Ok_0, later)->0,
{
    lemma_has_subnet(root, index, j);
    law_members_are_found(j, "reservations"@);
    let list = elements(array_member(j, "reservations"@));
    assert(array_member(j, "reservations"@) == Some(list));
    assert(holds(j, "reservations"@, Json::Array(list)));
    law_entry_of_row(list, row);
    let k = entry_place(list, row)->0 as int;
    law_entry_is_read(list[k], reservations_of(list)[row as int]);
    assert(is_source_of_row(j, list, k, reservations_of(list)[row as int]));
    assert forall|later: nat| row < later < reservations_of(list).len() implies entry_place(list, row)->0
        < #[trigger] entry_place(list, later)->0 by {
        lemma_places_ascend(list, row, later);
    }
}

/// Whether a reservation is that of an entry of a subnet.
pub open spec fn is_source_of_row(j: Json, list: Seq<Json>, k: int, r: ReservationView) -> bool {
    holds(j, "reservations"@, Json::Array(list)) && 0 <= k < list.len() && is_reservation_entry(list[k], r)
}

proof fn lemma_places_ascend(list: Seq<Json>, row: nat, later: nat)
    requires
        row < later < reservations_of(list).len(),
    ensures
        entry_place(list, row)->0 < entry_place(list, later)->0,
    decreases list.len(),
{
    let front = list.drop_last();
    if later < reservations_of(front).len() {
        lemma_places_ascend(front, row, later);
    } else {
        law_entry_of_row(front, row);
    }
}

/// Whether a hardware address stands in an entry of the reservations of a subnet of a configuration.
pub open spec fn has_hardware_address(root: Json, i: nat, j: Json, list: Seq<Json>, k: int, hw: Seq<char>) -> bool {
    &&& has_subnet(root, i, j)
    &&& holds(j, "reservations"@, Json::Array(list))
    &&& 0 <= k < list.len()
    &&& holds(list[k], "hw-address"@, Json::Text(hw))
}

/// A hardware address as it is kept: in small letters, and with colons where it is six pairs of digits.
pub open spec fn in_kept_form(hw: Seq<char>, m: Seq<char>) -> bool {
    mac_of(hw) == Some(m) || (mac_of(hw) is None && lowercase(hw) == m)
}

/// Whether some reservation of some subnet of a configuration has a hardware address.
pub open spec fn is_reserved_anywhere(root: Json, m: Seq<char>) -> bool {
    exists|i: nat, j: Json, list: Seq<Json>, k: int, hw: Seq<char>| #[trigger]
        has_hardware_address(root, i, j, list, k, hw) && in_kept_form(hw, m)
}

/// The hardware addresses that are listed are those of the reservations of all subnets.
pub proof fn law_hardware_addresses_are_listed(root: Json, m: Seq<char>)
    ensures
        hwaddrs_of(elements(subnets(root))).contains(m) <==> is_reserved_anywhere(root, m),
{
    let all = elements(subnets(root));
    if is_reserved_anywhere(root, m) {
        let (i, j, list, k, hw) = choose|i: nat, j: Json, list: Seq<Json>, k: int, hw: Seq<char>| #[trigger]
            has_hardware_address(root, i, j, list, k, hw) && in_kept_form(hw, m);
        lemma_has_subnet(root, i, j);
        law_members_are_found(j, "reservations"@);
        law_members_are_found(list[k], "hw-address"@);
        assert(kept_hw(hw) == m);
        lemma_listed(list, k);
        lemma_all_listed(all, i as int, m);
    }
    if hwaddrs_of(all).contains(m) {
        let i = lemma_listed_source(all, m);
        let j = all[i];
        let list = array_member(j, "reservations"@)->0;
        let k = lemma_list_source(list, m);
        let hw = text_member(list[k], "hw-address"@)->0;
        lemma_has_subnet(root, i as nat, j);
        law_members_are_found(j, "reservations"@);
        law_members_are_found(list[k], "hw-address"@);
        assert(holds(j, "reservations"@, Json::Array(list)));
        assert(holds(list[k], "hw-address"@, Json::Text(hw)));
        assert(has_hardware_address(root, i as nat, j, list, k, hw));
        assert(in_kept_form(hw, m));
    }
}

proof fn lemma_listed(list: Seq<Json>, k: int)
    requires
        0 <= k < list.len(),
        text_member(list[k], "hw-address"@) is Some,
    ensures
        list_hwaddrs(list).contains(kept_hw(text_member(list[k], "hw-address"@)->0)),
    decreases list.len(),
{
    let m = kept_hw(text_member(list[k], "hw-address"@)->0);
    let front = list.drop_last();
    let all = list_hwaddrs(list);
    if k < list.len() - 1 {
        assert(front[k] == list[k]);
        lemma_listed(front, k);
        let i = choose|i: int| 0 <= i < list_hwaddrs(front).len() && list_hwaddrs(front)[i] == m;
        assert(all[i] == m);
    } else {
        assert(all[all.len() - 1] == m);
    }
}

proof fn lemma_all_listed(s: Seq<Json>, i: int, m: Seq<char>)
    requires
        0 <= i < s.len(),
        array_member(s[i], "reservations"@) is Some,
        list_hwaddrs(array_member(s[i], "reservations"@)->0).contains(m),
    ensures
        hwaddrs_of(s).contains(m),
    decreases s.len(),
{
    let front = s.drop_last();
    let before = hwaddrs_of(front);
    let all = hwaddrs_of(s);
    if i < s.len() - 1 {
        assert(front[i] == s[i]);
        lemma_all_listed(front, i, m);
        let k = choose|k: int| 0 <= k < before.len() && before[k] == m;
        assert(all[k] == m);
    } else {
        let own = list_hwaddrs(array_member(s[i], "reservations"@)->0);
        let k = choose|k: int| 0 <= k < own.len() && own[k] == m;
        assert(all[before.len() + k] == m);
    }
}

proof fn lemma_listed_source(s: Seq<Json>, m: Seq<char>) -> (i: int)
    requires
        hwaddrs_of(s).contains(m),
    ensures
        0 <= i < s.len(),
        array_member(s[i], "reservations"@) is Some,
        list_hwaddrs(array_member(s[i], "reservations"@)->0).contains(m),
    decreases s.len(),
{
    let all = hwaddrs_of(s);
    let k = choose|k: int| 0 <= k < all.len() && all[k] == m;
    let front = s.drop_last();
    let before = hwaddrs_of(front);
    if k < before.len() {
        assert(before[k] == m);
        let i = lemma_listed_source(front, m);
        assert(front[i] == s[i]);
        i
    } else {
        let own = list_hwaddrs(array_member(s.last(), "reservations"@)->0);
        assert(own[k - before.len()] == m);
        s.len() - 1
    }
}

proof fn lemma_list_source(list: Seq<Json>, m: Seq<char>) -> (k: int)
    requires
        list_hwaddrs(list).contains(m),
    ensures
        0 <= k < list.len(),
        text_member(list[k], "hw-address"@) is Some,
        kept_hw(text_member(list[k], "hw-address"@)->0) == m,
    decreases list.len(),
{
    let all = list_hwaddrs(list);
    let i = choose|i: int| 0 <= i < all.len() && all[i] == m;
    let front = list.drop_last();
    if i < list_hwaddrs(front).len() {
        assert(list_hwaddrs(front)[i] == m);
        let k = lemma_list_source(front, m);
        assert(front[k] == list[k]);
        k
    } else {
        list.len() - 1
    }
}

/// Every subnet of a configuration is listed in short at its index: with its id where it has one that
/// fits, with the text of its network, and with the number of entries of its reservations.
pub proof fn law_every_subnet_is_listed(root: Json, i: nat, j: Json)
    requires
        has_subnet(root, i, j),
    ensures
        ({
            let s = summaries_of(root)[i as int];
            &&& i < summaries_of(root).len()
            &&& s.index == i
            &&& forall|n: int| 0 <= n <= u32::MAX ==> (#[trigger] holds(j, "id"@, Json::Int(n)) <==> s.id == Some(n as u32))
            &&& forall|t: Seq<char>| #[trigger] holds(j, "subnet"@, Json::Text(t)) ==> s.cidr == t
            &&& (forall|t: Seq<char>| !#[trigger] holds(j, "subnet"@, Json::Text(t))) ==> s.cidr == "?"@
            &&& forall|a: Seq<Json>| #[trigger] holds(j, "reservations"@, Json::Array(a)) ==> s.reservation_count == a.len()
            &&& (forall|a: Seq<Json>| !#[trigger] holds(j, "reservations"@, Json::Array(a))) ==> s.reservation_count == 0
        }),
{
    lemma_has_subnet(root, i, j);
    law_members_are_found(j, "id"@);
    law_members_are_found(j, "subnet"@);
    law_members_are_found(j, "reservations"@);
    if array_member(j, "reservations"@) is Some {
        assert(holds(j, "reservations"@, Json::Array(array_member(j, "reservations"@)->0)));
    }
    if text_member(j, "subnet"@) is Some {
        assert(holds(j, "subnet"@, Json::Text(text_member(j, "subnet"@)->0)));
    }
}

/// There are as many subnets in the list as the configuration has.
pub proof fn law_no_subnet_more_is_listed(root: Json, i: nat)
    ensures
        i < summaries_of(root).len() <==> exists|j: Json| #[trigger] has_subnet(root, i, j),
{
    if i < summaries_of(root).len() {
        let j = subnets(root)->0[i as int];
        lemma_has_subnet(root, i, j);
        assert(has_subnet(root, i, j));
    }
    if exists|j: Json| #[trigger] has_subnet(root, i, j) {
        let j = choose|j: Json| #[trigger] has_subnet(root, i, j);
        lemma_has_subnet(root, i, j);
    }
}

/// Whether a configuration declares a control socket: `d` is its DHCPv4 block, and `cs` what it says of
/// the socket.
pub open spec fn declares_socket(root: Json, d: Json, cs: Json, name: Seq<char>, kind: Seq<char>) -> bool {
    &&& holds(root, "Dhcp4"@, d)
    &&& holds(d, "control-socket"@, cs)
    &&& holds(cs, "socket-name"@, Json::Text(name))
    &&& holds(cs, "socket-type"@, Json::Text(kind))
}

/// The control socket is the one that the configuration declares, and there is none where it declares
/// none.
pub proof fn law_declared_socket_is_used(root: Json, name: Seq<char>, kind: Seq<char>)
    ensures
        socket_of(root) == Some(SocketView { name, kind }) <==> exists|d: Json, cs: Json| #[trigger]
            declares_socket(root, d, cs, name, kind),
{
    law_members_are_found(root, "Dhcp4"@);
    if socket_of(root) == Some(SocketView { name, kind }) {
        let d = dhcp4(root)->0;
        let cs = member(d, "control-socket"@)->0;
        law_members_are_found(d, "control-socket"@);
        law_members_are_found(cs, "socket-name"@);
        law_members_are_found(cs, "socket-type"@);
        assert(declares_socket(root, d, cs, name, kind));
    }
    if exists|d: Json, cs: Json| #[trigger] declares_socket(root, d, cs, name, kind) {
        let (d, cs) = choose|d: Json, cs: Json| #[trigger] declares_socket(root, d, cs, name, kind);
        law_members_are_found(d, "control-socket"@);
        law_members_are_found(cs, "socket-name"@);
        law_members_are_found(cs, "socket-type"@);
        assert(holds(root, "Dhcp4"@, d) && holds(d, "control-socket"@, cs));
        assert(holds(cs, "socket-name"@, Json::Text(name)) && holds(cs, "socket-type"@, Json::Text(kind)));
    }
}

/// The leases are looked for in a file exactly where the configuration says that they are kept in one:
/// under the name that it gives, in the directory of Kea where the name is no path, and under Kea's own
/// name where it gives none.
pub proof fn law_lease_file_is_the_declared_one(root: Json, d: Json, db: Json, kind: Seq<char>)
    requires
        holds(root, "Dhcp4"@, d),
        holds(d, "lease-database"@, db),
        holds(db, "type"@, Json::Text(kind)),
    ensures
        lease_db_of(root) is Memfile <==> kind == "memfile"@,
        forall|name: Seq<char>| kind == "memfile"@ && #[trigger] holds(db, "name"@, Json::Text(name)) ==> lease_db_of(root)
            == LeaseDbView::Memfile(if name.contains('/') {
            name
        } else {
            "/var/lib/kea/"@ + name
        }),
        kind == "memfile"@ && (forall|name: Seq<char>| !#[trigger] holds(db, "name"@, Json::Text(name))) ==> lease_db_of(
            root,
        ) == LeaseDbView::Memfile("/var/lib/kea/kea-leases4.csv"@),
{
    law_members_are_found(root, "Dhcp4"@);
    law_members_are_found(d, "lease-database"@);
    law_members_are_found(db, "type"@);
    law_members_are_found(db, "name"@);
    if text_member(db, "name"@) is Some {
        assert(holds(db, "name"@, Json::Text(text_member(db, "name"@)->0)));
    }
}

/// Where the configuration says nothing of a file of leases, none is looked for.
pub proof fn law_no_lease_file_is_made_up(root: Json)
    requires
        lease_db_of(root) is Memfile,
    ensures
        exists|d: Json, db: Json| #[trigger] declares_memfile(root, d, db),
{
    let d = dhcp4(root)->0;
    let db = member(d, "lease-database"@)->0;
    law_members_are_found(root, "Dhcp4"@);
    law_members_are_found(d, "lease-database"@);
    law_members_are_found(db, "type"@);
    assert(declares_memfile(root, d, db));
}

/// Whether a configuration says that the leases are kept in a file.
pub open spec fn declares_memfile(root: Json, d: Json, db: Json) -> bool {
    holds(root, "Dhcp4"@, d) && holds(d, "lease-database"@, db) && holds(db, "type"@, Json::Text("memfile"@))
}

/// The entries of the reservations of a subnet are those that the configuration has for it, and there are
/// none where it has no array of them.
pub proof fn law_list_of_reservations_is_found(root: Json, idx: nat, list: Seq<Json>)
    ensures
        reservation_list(root, idx) == Ok::<Seq<Json>, Seq<char>>(list) <==> exists|j: Json| #[trigger]
            has_subnet(root, idx, j) && holds(j, "reservations"@, Json::Array(list)),
{
    if reservation_list(root, idx) == Ok::<Seq<Json>, Seq<char>>(list) {
        let d = dhcp4(root)->0;
        let s = subnets(root)->0;
        let j = s[idx as int];
        law_members_are_found(root, "Dhcp4"@);
        law_members_are_found(d, "subnet4"@);
        law_members_are_found(j, "reservations"@);
        assert(holds(root, "Dhcp4"@, d));
        assert(holds(d, "subnet4"@, Json::Array(s)));
        assert(has_subnet_in(root, idx, j, d, s));
        assert(has_subnet(root, idx, j));
    }
    if exists|j: Json| #[trigger] has_subnet(root, idx, j) && holds(j, "reservations"@, Json::Array(list)) {
        let j = choose|j: Json| #[trigger] has_subnet(root, idx, j) && holds(j, "reservations"@, Json::Array(list));
        let (d, s) = choose|d: Json, s: Seq<Json>| #[trigger] has_subnet_in(root, idx, j, d, s);
        law_members_are_found(root, "Dhcp4"@);
        law_members_are_found(d, "subnet4"@);
        law_members_are_found(j, "reservations"@);
    }
}

/// Why no leases can be shown: the configuration does not say where they are, or keeps them elsewhere than in
/// a file, and then the message names where.
pub proof fn law_reason_why_no_leases(root: Json, d: Json, db: Json, kind: Seq<char>)
    ensures
        (forall|x: Json| !#[trigger] holds(root, "Dhcp4"@, x)) ==> lease_db_of(root) == LeaseDbView::Unavailable(
            "設定檔缺少 Dhcp4 區段，無法顯示租用"@,
        ),
        holds(root, "Dhcp4"@, d) && (forall|x: Json| !#[trigger] holds(d, "lease-database"@, x)) ==> lease_db_of(root)
            == LeaseDbView::Unavailable("設定檔缺少 lease-database 區段，無法顯示租用"@),
        holds(root, "Dhcp4"@, d) && holds(d, "lease-database"@, db) && (forall|t: Seq<char>| !#[trigger]
            holds(db, "type"@, Json::Text(t))) ==> lease_db_of(root) == LeaseDbView::Unavailable(
            "設定檔 lease-database 缺少 type，無法顯示租用"@,
        ),
        holds(root, "Dhcp4"@, d) && holds(d, "lease-database"@, db) && holds(db, "type"@, Json::Text(kind)) && kind
            != "memfile"@ ==> lease_db_of(root) == LeaseDbView::Unavailable(
            "租用資料庫型別「"@ + kind + "」非 memfile，無法顯示租用"@,
        ),
{
    law_members_are_found(root, "Dhcp4"@);
    law_members_are_found(d, "lease-database"@);
    law_members_are_found(db, "type"@);
    if dhcp4(root) is Some {
        assert(holds(root, "Dhcp4"@, dhcp4(root)->0));
    }
    if member(d, "lease-database"@) is Some {
        assert(holds(d, "lease-database"@, member(d, "lease-database"@)->0));
    }
    if text_member(db, "type"@) is Some {
        assert(holds(db, "type"@, Json::Text(text_member(db, "type"@)->0)));
    }
}

} // verus!
