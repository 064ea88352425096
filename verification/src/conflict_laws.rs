//! What is refused and what is written, of every form.
use vstd::arithmetic::power2::pow2;
use vstd::prelude::*;
use vstd::string::*;

use crate::addr::ip_of;
use crate::address_laws::law_network_is_a_range;
use crate::domain::{
    clash, clashes, conflicts_of, edit_of, edited, hostname_taken, in_pool, in_range, range_conflicts, reasons,
    repeated_hostname, same_hw, Conflict, ReservationView, SubnetView,
};
use crate::file::{law_entry_of_row, reservation_list, row_place, subnet_of};
use crate::form::{form_errors, form_reservation, law_form_is_taken_or_faulted, FormView};
use crate::html::url_encoded;
use crate::json::Json;
use crate::mac::mac_of;
use crate::number::dec;
use crate::reading_laws::{
    has_subnet, holds, is_pool_entry, is_reservation_entry, law_every_pool_is_read, law_every_reservation_is_read,
};
use crate::text::{lower_ascii, trimmed};
use crate::web::{saved_target, submitted};

verus! {

/// Whether two characters are one letter, or the same character: capitals and small letters of ASCII do
/// not differ.
pub open spec fn same_letter(a: char, b: char) -> bool {
    ||| a == b
    ||| 'A' <= a <= 'Z' && b as int == a as int + 32
    ||| 'A' <= b <= 'Z' && a as int == b as int + 32
}

/// Whether two texts differ in nothing but capitals and small letters.
pub open spec fn same_letters(a: Seq<char>, b: Seq<char>) -> bool {
    a.len() == b.len() && forall|i: int| 0 <= i < a.len() ==> same_letter(#[trigger] a[i], b[i])
}

/// Hardware addresses are one where they differ in nothing but capitals and small letters.
pub proof fn law_hardware_addresses_ignore_case(a: Seq<char>, b: Seq<char>)
    ensures
        same_hw(a, b) <==> same_letters(a, b),
{
    if same_hw(a, b) {
        assert(lower_ascii(a).len() == lower_ascii(b).len());
        assert forall|i: int| 0 <= i < a.len() implies same_letter(#[trigger] a[i], b[i]) by {
            assert(lower_ascii(a)[i] == lower_ascii(b)[i]);
        }
    }
    if same_letters(a, b) {
        assert forall|i: int| 0 <= i < a.len() implies lower_ascii(a)[i] == lower_ascii(b)[i] by {
            assert(same_letter(a[i], b[i]));
        }
        assert(lower_ascii(a) =~= lower_ascii(b));
    }
}

/// Whether the row at a place is not the one that is edited.
pub open spec fn is_other(ridx: Option<usize>, i: int) -> bool {
    ridx != Some(i as usize) || i > usize::MAX
}

/// Whether another row has a hardware address.
pub open spec fn hw_is_taken(list: Seq<ReservationView>, hw: Seq<char>, ridx: Option<usize>) -> bool {
    exists|i: int| 0 <= i < list.len() && is_other(ridx, i) && same_letters((#[trigger] list[i]).hw, hw)
}

/// Whether another row has an address.
pub open spec fn ip_is_taken(list: Seq<ReservationView>, ip: u32, ridx: Option<usize>) -> bool {
    exists|i: int| 0 <= i < list.len() && is_other(ridx, i) && (#[trigger] list[i]).ip == ip
}

/// Whether an address lies in one of the pools of a subnet.
pub open spec fn ip_is_pooled(subnet: SubnetView, ip: u32) -> bool {
    exists|i: int|
        0 <= i < subnet.pools.len() && (#[trigger] subnet.pools[i]).start.bits <= ip <= subnet.pools[i].end.bits
}

/// Whether an address lies in the network of a subnet: between its first and its last address.
pub open spec fn ip_is_inside(subnet: SubnetView, ip: u32) -> bool {
    let size = pow2((32 - subnet.net.prefix) as nat) as int;
    let first = subnet.net.addr as int - subnet.net.addr as int % size;
    first <= ip < first + size
}

/// Each conflict is named exactly where there is one: the address lies outside the network or in a
/// pool, or another reservation has the hardware address or the address.
pub proof fn law_every_conflict_is_named(subnet: SubnetView, r: ReservationView, ridx: Option<usize>)
    requires
        subnet.net.prefix <= 32,
    ensures
        conflicts_of(subnet, r, ridx).contains(Conflict::IpOutOfSubnet) <==> !ip_is_inside(subnet, r.ip),
        conflicts_of(subnet, r, ridx).contains(Conflict::IpInPool) <==> ip_is_pooled(subnet, r.ip),
        conflicts_of(subnet, r, ridx).contains(Conflict::DuplicateHwAddress) <==> hw_is_taken(
            subnet.reservations,
            r.hw,
            ridx,
        ),
        conflicts_of(subnet, r, ridx).contains(Conflict::IpInUse) <==> ip_is_taken(subnet.reservations, r.ip, ridx),
{
    let ranges = range_conflicts(subnet.net, subnet.pools, r.ip);
    let others = clashes(subnet.reservations, r, edit_of(ridx));
    let all = conflicts_of(subnet, r, ridx);
    law_network_is_a_range(subnet.net.addr, subnet.net.prefix, r.ip);
    assert(in_pool(subnet.pools, r.ip) <==> ip_is_pooled(subnet, r.ip)) by {
        if ip_is_pooled(subnet, r.ip) {
            let i = choose|i: int|
                0 <= i < subnet.pools.len() && (#[trigger] subnet.pools[i]).start.bits <= r.ip
                    <= subnet.pools[i].end.bits;
            assert(in_range(subnet.pools[i], r.ip));
        }
    }
    lemma_clashes(subnet.reservations, r, ridx);
    assert forall|c: Conflict| #[trigger] all.contains(c) <==> ranges.contains(c) || others.contains(c) by {
        if ranges.contains(c) {
            let k = choose|k: int| 0 <= k < ranges.len() && ranges[k] == c;
            assert(all[k] == c);
        }
        if others.contains(c) {
            let k = choose|k: int| 0 <= k < others.len() && others[k] == c;
            assert(all[ranges.len() + k] == c);
        }
    }
    if !ip_is_inside(subnet, r.ip) {
        assert(ranges[0] == Conflict::IpOutOfSubnet);
    }
    if ip_is_pooled(subnet, r.ip) {
        assert(ranges[ranges.len() - 1] == Conflict::IpInPool);
    }
}

proof fn lemma_clashes(list: Seq<ReservationView>, r: ReservationView, ridx: Option<usize>)
    ensures
        clashes(list, r, edit_of(ridx)).contains(Conflict::DuplicateHwAddress) <==> hw_is_taken(list, r.hw, ridx),
        clashes(list, r, edit_of(ridx)).contains(Conflict::IpInUse) <==> ip_is_taken(list, r.ip, ridx),
        !clashes(list, r, edit_of(ridx)).contains(Conflict::IpInPool),
        !clashes(list, r, edit_of(ridx)).contains(Conflict::IpOutOfSubnet),
    decreases list.len(),
{
    if list.len() > 0 {
        let front = list.drop_last();
        let n = list.len() - 1;
        let last = list[n];
        let before = clashes(front, r, edit_of(ridx));
        let own = clash(last, r);
        let after = clashes(list, r, edit_of(ridx));
        lemma_clashes(front, r, ridx);
        law_hardware_addresses_ignore_case(last.hw, r.hw);
        let other = is_other(ridx, n);
        assert(other <==> !edited(edit_of(ridx), n));
        assert forall|c: Conflict| #[trigger] after.contains(c) <==> before.contains(c) || (other && own.contains(c)) by {
            if before.contains(c) {
                let k = choose|k: int| 0 <= k < before.len() && before[k] == c;
                assert(after[k] == c);
            }
            if other && own.contains(c) {
                let k = choose|k: int| 0 <= k < own.len() && own[k] == c;
                assert(after[before.len() + k] == c);
            }
        }
        if same_hw(last.hw, r.hw) {
            assert(own[0] == Conflict::DuplicateHwAddress);
        }
        if last.ip == r.ip {
            assert(own[own.len() - 1] == Conflict::IpInUse);
        }
        assert(hw_is_taken(list, r.hw, ridx) <==> hw_is_taken(front, r.hw, ridx) || (other && same_letters(last.hw, r.hw)))
            by {
            if hw_is_taken(front, r.hw, ridx) {
                let i = choose|i: int|
                    0 <= i < front.len() && is_other(ridx, i) && same_letters((#[trigger] front[i]).hw, r.hw);
                assert(list[i] == front[i]);
            }
            if hw_is_taken(list, r.hw, ridx) {
                let i = choose|i: int|
                    0 <= i < list.len() && is_other(ridx, i) && same_letters((#[trigger] list[i]).hw, r.hw);
                if i < n {
                    assert(front[i] == list[i]);
                }
            }
        }
        assert(ip_is_taken(list, r.ip, ridx) <==> ip_is_taken(front, r.ip, ridx) || (other && last.ip == r.ip)) by {
            if ip_is_taken(front, r.ip, ridx) {
                let i = choose|i: int| 0 <= i < front.len() && is_other(ridx, i) && (#[trigger] front[i]).ip == r.ip;
                assert(list[i] == front[i]);
            }
            if ip_is_taken(list, r.ip, ridx) {
                let i = choose|i: int| 0 <= i < list.len() && is_other(ridx, i) && (#[trigger] list[i]).ip == r.ip;
                if i < n {
                    assert(front[i] == list[i]);
                }
            }
        }
    }
}

/// Each conflict is told in its own words, in the order in which the conflicts are named.
pub proof fn law_conflicts_are_told(c: Seq<Conflict>, i: int)
    requires
        0 <= i < c.len(),
    ensures
        reasons(c).len() == c.len(),
        c[i] == Conflict::DuplicateHwAddress ==> reasons(c)[i] == "hw-address 已存在（唯一鍵衝突）"@,
        c[i] == Conflict::IpInUse ==> reasons(c)[i] == "IP 已被其他 reservation 佔用"@,
        c[i] == Conflict::IpInPool ==> reasons(c)[i] == "IP 落在 dynamic pool 範圍內"@,
        c[i] == Conflict::IpOutOfSubnet ==> reasons(c)[i] == "IP 超出 subnet 範圍"@,
{
}

/// A warning is given exactly where another row has the hostname, and it names that hostname.
pub proof fn law_repeated_hostname_is_named(list: Seq<ReservationView>, r: ReservationView, ridx: Option<usize>, h: Seq<char>)
    ensures
        repeated_hostname(list, r, ridx) == Some(h) <==> r.hostname == Some(h) && h.len() > 0 && exists|i: int|
            0 <= i < list.len() && is_other(ridx, i) && (#[trigger] list[i]).hostname == Some(h),
{
    if r.hostname == Some(h) && h.len() > 0 {
        if exists|i: int| 0 <= i < list.len() && is_other(ridx, i) && (#[trigger] list[i]).hostname == Some(h) {
            let i = choose|i: int| 0 <= i < list.len() && is_other(ridx, i) && (#[trigger] list[i]).hostname == Some(h);
            assert(!edited(edit_of(ridx), i));
            assert(hostname_taken(list, h, ridx));
        }
        if hostname_taken(list, h, ridx) {
            let i = choose|i: int|
                0 <= i < list.len() && !edited(edit_of(ridx), i) && (#[trigger] list[i]).hostname == Some(h);
            assert(is_other(ridx, i));
        }
    }
}

/// Whether a form asks for a reservation: its fields are taken without the white space around them, and
/// an empty hostname is none.
pub open spec fn asks_for(f: FormView, r: ReservationView) -> bool {
    &&& mac_of(trimmed(f.hw)) == Some(r.hw)
    &&& ip_of(trimmed(f.ip)) == Some(r.ip)
    &&& f.hostname is Some && trimmed(f.hostname->0).len() > 0 ==> r.hostname == Some(trimmed(f.hostname->0))
    &&& f.hostname is None || trimmed(f.hostname->0).len() == 0 ==> r.hostname is None
}

/// A form asks for the reservation that is read from it, and where none is read it says why: for each
/// field that cannot be read there is a fault.
pub proof fn law_form_is_read(f: FormView, r: ReservationView)
    ensures
        form_reservation(f) == Some(r) <==> asks_for(f, r),
        form_reservation(f) is None <==> mac_of(trimmed(f.hw)) is None || ip_of(trimmed(f.ip)) is None,
        form_errors(f).len() == 0 <==> mac_of(trimmed(f.hw)) is Some && ip_of(trimmed(f.ip)) is Some,
        form_errors(f).len() >= (if mac_of(trimmed(f.hw)) is None {
            1nat
        } else {
            0nat
        }) + (if ip_of(trimmed(f.ip)) is None {
            1nat
        } else {
            0nat
        }),
{
    law_form_is_taken_or_faulted(f);
}

/// Whether a reservation may be written into a subnet.
pub open spec fn may_be_written(subnet: SubnetView, r: ReservationView, ridx: Option<usize>) -> bool {
    &&& ip_is_inside(subnet, r.ip)
    &&& !ip_is_pooled(subnet, r.ip)
    &&& !hw_is_taken(subnet.reservations, r.hw, ridx)
    &&& !ip_is_taken(subnet.reservations, r.ip, ridx)
}

/// A subnet that was read has a prefix that an address can have.
pub proof fn lemma_prefix_fits(file: Json, idx: nat)
    requires
        subnet_of(file, idx) is Ok,
    ensures
        subnet_of(file, idx)->Ok_0.net.prefix <= 32,
{
}

/// A form is written exactly where it asks for a reservation that may be written; where it is not,
/// nothing changes.
pub proof fn law_form_is_written_or_refused(
    file: Json,
    idx: nat,
    ridx: Option<usize>,
    f: FormView,
    mac: Option<Seq<char>>,
)
    requires
        subnet_of(file, idx) is Ok,
        reservation_list(file, idx) is Ok,
        ridx is Some ==> ridx->0 < subnet_of(file, idx)->Ok_0.reservations.len(),
    ensures
        submitted(file, idx, ridx, f, mac).1 is Ok <==> exists|r: ReservationView| #[trigger]
            asks_for(f, r) && may_be_written(subnet_of(file, idx)->Ok_0, r, ridx),
        submitted(file, idx, ridx, f, mac).1 is Err ==> submitted(file, idx, ridx, f, mac).0 == file,
{
    let subnet = subnet_of(file, idx)->Ok_0;
    lemma_prefix_fits(file, idx);
    if ridx is Some {
        law_entry_of_row(reservation_list(file, idx)->Ok_0, ridx->0 as nat);
        assert(row_place(file, idx, ridx->0 as nat) is Ok);
    }
    match form_reservation(f) {
        Some(r) => {
            law_form_is_read(f, r);
            lemma_nothing_against(subnet, r, ridx);
            assert forall|x: ReservationView| #[trigger] asks_for(f, x) implies x == r by {
                law_form_is_read(f, x);
            }
        },
        None => {
            assert forall|x: ReservationView| !#[trigger] asks_for(f, x) by {
                law_form_is_read(f, x);
            }
        },
    }
}

proof fn lemma_nothing_against(subnet: SubnetView, r: ReservationView, ridx: Option<usize>)
    requires
        subnet.net.prefix <= 32,
    ensures
        conflicts_of(subnet, r, ridx).len() == 0 <==> may_be_written(subnet, r, ridx),
{
    let all = conflicts_of(subnet, r, ridx);
    law_every_conflict_is_named(subnet, r, ridx);
    if all.len() > 0 {
        let c = all[0];
        assert(all.contains(c));
        match c {
            Conflict::DuplicateHwAddress => {
                assert(all.contains(Conflict::DuplicateHwAddress));
            },
            Conflict::IpInUse => {
                assert(all.contains(Conflict::IpInUse));
            },
            Conflict::IpInPool => {
                assert(all.contains(Conflict::IpInPool));
            },
            Conflict::IpOutOfSubnet => {
                assert(all.contains(Conflict::IpOutOfSubnet));
            },
        }
    }
}

/// A form whose address lies in the range of any entry of the subnet's pools is never written.
pub proof fn law_pooled_address_is_never_written(
    file: Json,
    idx: nat,
    ridx: Option<usize>,
    f: FormView,
    mac: Option<Seq<char>>,
    j: Json,
    pools: Seq<Json>,
    k: int,
    a: Seq<char>,
    b: Seq<char>,
    first: u32,
    last: u32,
    ip: u32,
)
    requires
        has_subnet(file, idx, j),
        holds(j, "pools"@, Json::Array(pools)),
        0 <= k < pools.len(),
        is_pool_entry(pools[k], a, b, first, last),
        ip_of(trimmed(f.ip)) == Some(ip),
        first <= ip <= last,
    ensures
        submitted(file, idx, ridx, f, mac).1 is Err,
        submitted(file, idx, ridx, f, mac).0 == file,
{
    if subnet_of(file, idx) is Ok {
        let subnet = subnet_of(file, idx)->Ok_0;
        law_every_pool_is_read(file, idx, j, pools, k, a, b, first, last);
        assert(ip_is_pooled(subnet, ip));
        lemma_prefix_fits(file, idx);
        if form_reservation(f) is Some {
            law_form_is_read(f, form_reservation(f)->0);
            lemma_nothing_against(subnet, form_reservation(f)->0, ridx);
        }
    }
}

/// A form for a new reservation is never written where any entry of the subnet has its hardware address
/// or its address.
pub proof fn law_taken_address_is_never_written(
    file: Json,
    idx: nat,
    f: FormView,
    mac: Option<Seq<char>>,
    j: Json,
    list: Seq<Json>,
    k: int,
    there: ReservationView,
    wanted: ReservationView,
)
    requires
        has_subnet(file, idx, j),
        holds(j, "reservations"@, Json::Array(list)),
        0 <= k < list.len(),
        is_reservation_entry(list[k], there),
        asks_for(f, wanted),
        same_letters(there.hw, wanted.hw) || there.ip == wanted.ip,
    ensures
        submitted(file, idx, None, f, mac).1 is Err,
        submitted(file, idx, None, f, mac).0 == file,
{
    if subnet_of(file, idx) is Ok {
        let subnet = subnet_of(file, idx)->Ok_0;
        law_every_reservation_is_read(file, idx, j, list, k, there);
        let i = choose|i: int| 0 <= i < subnet.reservations.len() && subnet.reservations[i] == there;
        assert(is_other(None, i));
        lemma_prefix_fits(file, idx);
        law_form_is_read(f, wanted);
        lemma_nothing_against(subnet, wanted, None);
    }
}

/// After a form was written one goes to the subnet's page, with the hostname as a warning exactly where
/// another row has it.
pub proof fn law_after_writing(idx: nat, subnet: SubnetView, r: ReservationView, ridx: Option<usize>)
    ensures
        r.hostname is Some && r.hostname->0.len() > 0 && (exists|i: int|
            0 <= i < subnet.reservations.len() && is_other(ridx, i) && (#[trigger] subnet.reservations[i]).hostname
                == r.hostname) ==> saved_target(idx, subnet, r, ridx) == "/subnet/"@ + dec(idx) + "?warn="@ + url_encoded(
            r.hostname->0,
        ),
        !(r.hostname is Some && r.hostname->0.len() > 0 && (exists|i: int|
            0 <= i < subnet.reservations.len() && is_other(ridx, i) && (#[trigger] subnet.reservations[i]).hostname
                == r.hostname)) ==> saved_target(idx, subnet, r, ridx) == "/subnet/"@ + dec(idx),
{
    if r.hostname is Some {
        law_repeated_hostname_is_named(subnet.reservations, r, ridx, r.hostname->0);
    }
    if repeated_hostname(subnet.reservations, r, ridx) is Some {
        law_repeated_hostname_is_named(
            subnet.reservations,
            r,
            ridx,
            repeated_hostname(subnet.reservations, r, ridx)->0,
        );
    }
}

/// What a reservation says against another: that it has the same hardware address, and that it has the same
/// IP address, in this order.
pub open spec fn says_against(x: ReservationView, r: ReservationView) -> Seq<Conflict> {
    if same_letters(x.hw, r.hw) && x.ip == r.ip {
        seq![Conflict::DuplicateHwAddress, Conflict::IpInUse]
    } else if same_letters(x.hw, r.hw) {
        seq![Conflict::DuplicateHwAddress]
    } else if x.ip == r.ip {
        seq![Conflict::IpInUse]
    } else {
        Seq::empty()
    }
}

/// Each further reservation adds what it says against the candidate, behind all that stands there already,
/// unless it is the one that is edited; before all of that stands what the network and the pools say.
pub proof fn law_conflicts_add_up(subnet: SubnetView, x: ReservationView, r: ReservationView, ridx: Option<usize>)
    requires
        subnet.net.prefix <= 32,
    ensures
        ({
            let more = SubnetView { reservations: subnet.reservations.push(x), ..subnet };
            let n = subnet.reservations.len() as int;
            &&& is_other(ridx, n) ==> conflicts_of(more, r, ridx) == conflicts_of(subnet, r, ridx) + says_against(x, r)
            &&& !is_other(ridx, n) ==> conflicts_of(more, r, ridx) == conflicts_of(subnet, r, ridx)
        }),
        subnet.reservations.len() == 0 ==> conflicts_of(subnet, r, ridx) == (if !ip_is_inside(subnet, r.ip) {
            seq![Conflict::IpOutOfSubnet]
        } else {
            Seq::empty()
        }) + (if ip_is_pooled(subnet, r.ip) {
            seq![Conflict::IpInPool]
        } else {
            Seq::empty()
        }),
{
    let list = subnet.reservations;
    let more = SubnetView { reservations: list.push(x), ..subnet };
    let edit = edit_of(ridx);
    let ranges = range_conflicts(subnet.net, subnet.pools, r.ip);
    assert(list.push(x).drop_last() =~= list);
    law_hardware_addresses_ignore_case(x.hw, r.hw);
    assert(clash(x, r) =~= says_against(x, r));
    assert(edited(edit, list.len() as int) <==> !is_other(ridx, list.len() as int));
    assert(ranges + (clashes(list, r, edit) + says_against(x, r)) =~= ranges + clashes(
        list,
        r,
        edit,
    ) + says_against(x, r));
    law_network_is_a_range(subnet.net.addr, subnet.net.prefix, r.ip);
    if ip_is_pooled(subnet, r.ip) {
        let i = choose|i: int|
            0 <= i < subnet.pools.len() && (#[trigger] subnet.pools[i]).start.bits <= r.ip <= subnet.pools[i].end.bits;
        assert(in_range(subnet.pools[i], r.ip));
    }
    if in_pool(subnet.pools, r.ip) {
        let i = choose|i: int|
            0 <= i < subnet.pools.len() && in_range(#[trigger] subnet.pools[i], r.ip);
        assert(subnet.pools[i].start.bits <= r.ip <= subnet.pools[i].end.bits);
    }
    if list.len() == 0 {
        assert(clashes(list, r, edit) =~= Seq::<Conflict>::empty());
        assert(conflicts_of(subnet, r, ridx) =~= ranges);
    }
}

} // verus!
