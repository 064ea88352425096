//! The rules of reservations: what a reservation is, and what stands against writing one.
use vstd::prelude::*;
use vstd::string::*;

use crate::addr::{in_net, Ipv4Addr, Ipv4Net, NetView};
use crate::text::{lower_ascii, opt_text, same, same_ignoring_case, texts};

verus! {

/// A static binding: a hardware address, the IP address that it gets, and a name for it.
#[derive(Debug, PartialEq, Eq)]
pub struct Reservation {
    pub hw_address: String,
    pub ip_address: Ipv4Addr,
    pub hostname: Option<String>,
}

/// What a reservation holds.
#[verifier::ext_equal]
pub struct ReservationView {
    pub hw: Seq<char>,
    pub ip: u32,
    pub hostname: Option<Seq<char>>,
}

impl View for Reservation {
    type V = ReservationView;

    open spec fn view(&self) -> ReservationView {
        ReservationView { hw: self.hw_address@, ip: self.ip_address.bits, hostname: opt_text(self.hostname) }
    }
}

impl Clone for Reservation {
    fn clone(&self) -> (r: Reservation)
        ensures
            r@ == self@,
    {
        let hostname: Option<String> = match &self.hostname {
            Some(h) => Some(h.clone()),
            None => None,
        };
        Reservation { hw_address: self.hw_address.clone(), ip_address: self.ip_address, hostname }
    }
}

/// What a list of reservations holds.
pub open spec fn views(list: Seq<Reservation>) -> Seq<ReservationView> {
    list.map_values(|r: Reservation| r@)
}

/// Whether two reservations hold the same.
pub fn same_reservation(a: &Reservation, b: &Reservation) -> (r: bool)
    ensures
        r == (a@ == b@),
{
    if !same(a.hw_address.as_str(), b.hw_address.as_str()) || a.ip_address.bits != b.ip_address.bits {
        return false;
    }
    match (&a.hostname, &b.hostname) {
        (Some(x), Some(y)) => same(x.as_str(), y.as_str()),
        (None, None) => true,
        _ => false,
    }
}

/// A range of addresses, both ends included.
#[derive(Debug, Clone, Copy, PartialEq, Eq, Structural)]
pub struct IpRange {
    pub start: Ipv4Addr,
    pub end: Ipv4Addr,
}

/// Whether an address lies in a range.
pub open spec fn in_range(range: IpRange, ip: u32) -> bool {
    range.start.bits <= ip <= range.end.bits
}

impl IpRange {
    /// Whether `ip` lies in the range.
    pub fn contains(&self, ip: Ipv4Addr) -> (r: bool)
        ensures
            r == in_range(*self, ip.bits),
    {
        self.start.bits <= ip.bits && ip.bits <= self.end.bits
    }
}

/// A subnet: its network, the pools that are handed out from it, and its reservations.
#[derive(Debug)]
pub struct Subnet {
    pub cidr: Ipv4Net,
    pub pools: Vec<IpRange>,
    pub reservations: Vec<Reservation>,
}

/// What a subnet holds.
#[verifier::ext_equal]
pub struct SubnetView {
    pub net: NetView,
    pub pools: Seq<IpRange>,
    pub reservations: Seq<ReservationView>,
}

impl View for Subnet {
    type V = SubnetView;

    open spec fn view(&self) -> SubnetView {
        SubnetView { net: self.cidr@, pools: self.pools@, reservations: views(self.reservations@) }
    }
}

/// What stands against a reservation.
#[derive(Debug, Clone, Copy, PartialEq, Eq, Structural)]
pub enum Conflict {
    DuplicateHwAddress,
    IpInUse,
    IpInPool,
    IpOutOfSubnet,
}

/// Whether two hardware addresses are the same: their letters' case does not count.
pub open spec fn same_hw(a: Seq<char>, b: Seq<char>) -> bool {
    lower_ascii(a) == lower_ascii(b)
}

/// Whether an address lies in one of the pools.
pub open spec fn in_pool(pools: Seq<IpRange>, ip: u32) -> bool {
    exists|i: int| 0 <= i < pools.len() && in_range(#[trigger] pools[i], ip)
}

/// What one reservation of the subnet has against a candidate.
pub open spec fn clash(r: ReservationView, candidate: ReservationView) -> Seq<Conflict> {
    (if same_hw(r.hw, candidate.hw) {
        seq![Conflict::DuplicateHwAddress]
    } else {
        Seq::empty()
    }) + (if r.ip == candidate.ip {
        seq![Conflict::IpInUse]
    } else {
        Seq::empty()
    })
}

/// Whether entry `i` is the one that is being edited.
pub open spec fn edited(edit: Option<nat>, i: int) -> bool {
    edit is Some && edit->0 == i
}

/// Which entry is being edited, if one is.
pub open spec fn edit_of(edit_index: Option<usize>) -> Option<nat> {
    match edit_index {
        Some(i) => Some(i as nat),
        None => None,
    }
}

/// What the reservations of the subnet have against a candidate, one after the other; the one
/// that is being edited has nothing against it.
pub open spec fn clashes(
    list: Seq<ReservationView>,
    candidate: ReservationView,
    edit: Option<nat>,
) -> Seq<Conflict>
    decreases list.len(),
{
    if list.len() == 0 {
        Seq::empty()
    } else {
        let before = clashes(list.drop_last(), candidate, edit);
        if edited(edit, list.len() - 1) {
            before
        } else {
            before + clash(list.last(), candidate)
        }
    }
}

/// What the network and the pools have against an address.
pub open spec fn range_conflicts(net: NetView, pools: Seq<IpRange>, ip: u32) -> Seq<Conflict> {
    (if !in_net(net.addr, net.prefix, ip) {
        seq![Conflict::IpOutOfSubnet]
    } else {
        Seq::empty()
    }) + (if in_pool(pools, ip) {
        seq![Conflict::IpInPool]
    } else {
        Seq::empty()
    })
}

/// All that stands against writing a candidate into a subnet: the network, then the pools, then
/// the reservations in their order.
pub open spec fn conflicts_of(
    subnet: SubnetView,
    candidate: ReservationView,
    edit_index: Option<usize>,
) -> Seq<Conflict> {
    range_conflicts(subnet.net, subnet.pools, candidate.ip) + clashes(
        subnet.reservations,
        candidate,
        edit_of(edit_index),
    )
}

/// Whether a candidate may be written: its address is in the network and in no pool, and no other
/// reservation has its hardware address or its address.
pub open spec fn writable(subnet: SubnetView, candidate: ReservationView, edit_index: Option<usize>) -> bool {
    &&& in_net(subnet.net.addr, subnet.net.prefix, candidate.ip)
    &&& !in_pool(subnet.pools, candidate.ip)
    &&& forall|i: int|
        0 <= i < subnet.reservations.len() && !edited(edit_of(edit_index), i) ==> !same_hw(
            (#[trigger] subnet.reservations[i]).hw,
            candidate.hw,
        ) && subnet.reservations[i].ip != candidate.ip
}

/// Whether no two reservations of a list share a hardware address or an address.
pub open spec fn all_distinct(list: Seq<ReservationView>) -> bool {
    forall|i: int, j: int|
        0 <= i < j < list.len() ==> !same_hw((#[trigger] list[i]).hw, (#[trigger] list[j]).hw) && list[i].ip
            != list[j].ip
}

/// The reservations have nothing against a candidate exactly where none but the edited one
/// shares a hardware address or an address with it.
pub proof fn lemma_no_clash(list: Seq<ReservationView>, candidate: ReservationView, edit: Option<nat>)
    ensures
        clashes(list, candidate, edit).len() == 0 <==> (forall|i: int|
            0 <= i < list.len() && !edited(edit, i) ==> !same_hw((#[trigger] list[i]).hw, candidate.hw)
                && list[i].ip != candidate.ip),
    decreases list.len(),
{
    if list.len() > 0 {
        let front = list.drop_last();
        lemma_no_clash(front, candidate, edit);
        let last = list[list.len() - 1];
        assert forall|i: int| 0 <= i < front.len() implies #[trigger] front[i] == list[i] by {}
        if clashes(list, candidate, edit).len() == 0 {
            assert forall|i: int| 0 <= i < list.len() && !edited(edit, i) implies !same_hw(
                (#[trigger] list[i]).hw,
                candidate.hw,
            ) && list[i].ip != candidate.ip by {
                if i < front.len() {
                    assert(front[i] == list[i]);
                }
            }
        } else if clashes(front, candidate, edit).len() > 0 {
            let i = choose|i: int|
                0 <= i < front.len() && !edited(edit, i) && !(!same_hw((#[trigger] front[i]).hw, candidate.hw)
                    && front[i].ip != candidate.ip);
            assert(list[i] == front[i]);
        } else {
            assert(list[list.len() - 1] == last);
        }
    }
}

/// There is no conflict exactly where the candidate may be written.
pub proof fn law_no_conflict_means_writable(
    subnet: SubnetView,
    candidate: ReservationView,
    edit_index: Option<usize>,
)
    ensures
        conflicts_of(subnet, candidate, edit_index).len() == 0 <==> writable(subnet, candidate, edit_index),
{
    lemma_no_clash(subnet.reservations, candidate, edit_of(edit_index));
}

/// A candidate without a conflict can be added: the reservations stay distinct.
pub proof fn law_add_keeps_distinct(subnet: SubnetView, candidate: ReservationView)
    requires
        all_distinct(subnet.reservations),
        conflicts_of(subnet, candidate, None).len() == 0,
    ensures
        all_distinct(subnet.reservations.push(candidate)),
{
    law_no_conflict_means_writable(subnet, candidate, None);
}

/// A candidate without a conflict can take the place of the reservation that is edited: the
/// reservations stay distinct.
pub proof fn law_update_keeps_distinct(subnet: SubnetView, candidate: ReservationView, index: usize)
    requires
        index < subnet.reservations.len(),
        all_distinct(subnet.reservations),
        conflicts_of(subnet, candidate, Some(index)).len() == 0,
    ensures
        all_distinct(subnet.reservations.update(index as int, candidate)),
{
    law_no_conflict_means_writable(subnet, candidate, Some(index));
}

/// Reservations stay distinct where one of them is deleted.
pub proof fn law_delete_keeps_distinct(list: Seq<ReservationView>, index: int)
    requires
        0 <= index < list.len(),
        all_distinct(list),
    ensures
        all_distinct(list.remove(index)),
{
    let after = list.remove(index);
    assert forall|i: int, j: int| 0 <= i < j < after.len() implies !same_hw(
        (#[trigger] after[i]).hw,
        (#[trigger] after[j]).hw,
    ) && after[i].ip != after[j].ip by {
        assert(after[i] == list[if i < index {
            i
        } else {
            i + 1
        }]);
        assert(after[j] == list[if j < index {
            j
        } else {
            j + 1
        }]);
    }
}

/// A hostname that others have too is no conflict: a candidate's hostname changes nothing about
/// what stands against it.
pub proof fn law_hostname_is_no_conflict(
    subnet: SubnetView,
    candidate: ReservationView,
    hostname: Option<Seq<char>>,
    edit_index: Option<usize>,
)
    ensures
        conflicts_of(subnet, (ReservationView { hostname, ..candidate }), edit_index) == conflicts_of(
            subnet,
            candidate,
            edit_index,
        ),
{
    lemma_hostname_no_clash(subnet.reservations, candidate, hostname, edit_of(edit_index));
}

proof fn lemma_hostname_no_clash(
    list: Seq<ReservationView>,
    candidate: ReservationView,
    hostname: Option<Seq<char>>,
    edit: Option<nat>,
)
    ensures
        clashes(list, (ReservationView { hostname, ..candidate }), edit) == clashes(list, candidate, edit),
    decreases list.len(),
{
    if list.len() > 0 {
        lemma_hostname_no_clash(list.drop_last(), candidate, hostname, edit);
    }
}

/// Whether an address lies in one of the pools.
fn pooled(pools: &Vec<IpRange>, ip: Ipv4Addr) -> (r: bool)
    ensures
        r == in_pool(pools@, ip.bits),
{
    let mut i: usize = 0;
    while i < pools.len()
        invariant
            i <= pools@.len(),
            forall|j: int| 0 <= j < i ==> !in_range(#[trigger] pools@[j], ip.bits),
        decreases pools@.len() - i,
    {
        if pools[i].contains(ip) {
            return true;
        }
        i = i + 1;
    }
    false
}

/// What the network and the pools have against an address.
pub fn check_ranges(subnet: &Subnet, ip: Ipv4Addr) -> (r: Vec<Conflict>)
    ensures
        r@ == range_conflicts(subnet@.net, subnet@.pools, ip.bits),
{
    let mut conflicts: Vec<Conflict> = Vec::new();
    if !subnet.cidr.contains(ip) {
        conflicts.push(Conflict::IpOutOfSubnet);
    }
    if pooled(&subnet.pools, ip) {
        conflicts.push(Conflict::IpInPool);
    }
    assert(conflicts@ =~= range_conflicts(subnet@.net, subnet@.pools, ip.bits));
    conflicts
}

/// What the reservations of a list, but for the one at `edit_index`, have against a candidate.
pub fn reservation_conflicts(
    reservations: &Vec<Reservation>,
    candidate: &Reservation,
    edit_index: Option<usize>,
) -> (r: Vec<Conflict>)
    ensures
        r@ == clashes(views(reservations@), candidate@, edit_of(edit_index)),
{
    let ghost all = views(reservations@);
    let mut conflicts: Vec<Conflict> = Vec::new();
    let mut i: usize = 0;
    while i < reservations.len()
        invariant
            i <= reservations@.len(),
            all == views(reservations@),
            conflicts@ == clashes(all.take(i as int), candidate@, edit_of(edit_index)),
        decreases reservations@.len() - i,
    {
        assert(all.take(i + 1).drop_last() =~= all.take(i as int));
        let ghost before = conflicts@;
        let skip: bool = match edit_index {
            Some(e) => e == i,
            None => false,
        };
        if !skip {
            let r: &Reservation = &reservations[i];
            if same_ignoring_case(r.hw_address.as_str(), candidate.hw_address.as_str()) {
                conflicts.push(Conflict::DuplicateHwAddress);
            }
            if r.ip_address.bits == candidate.ip_address.bits {
                conflicts.push(Conflict::IpInUse);
            }
            assert(conflicts@ =~= before + clash(all[i as int], candidate@));
        }
        i = i + 1;
    }
    assert(all.take(all.len() as int) =~= all);
    conflicts
}

/// All that stands against writing `candidate` into the subnet, as a new reservation or in the
/// place of the one at `edit_index`. Nothing stands against it where the result is empty.
pub fn check_conflicts(subnet: &Subnet, candidate: &Reservation, edit_index: Option<usize>) -> (r: Vec<Conflict>)
    ensures
        r@ == conflicts_of(subnet@, candidate@, edit_index),
        r@.len() == 0 <==> writable(subnet@, candidate@, edit_index),
{
    proof {
        law_no_conflict_means_writable(subnet@, candidate@, edit_index);
    }
    let mut conflicts: Vec<Conflict> = check_ranges(subnet, candidate.ip_address);
    let mut rest: Vec<Conflict> = reservation_conflicts(&subnet.reservations, candidate, edit_index);
    conflicts.append(&mut rest);
    conflicts
}

/// The reason that is shown for a conflict.
pub open spec fn reason(c: Conflict) -> Seq<char> {
    match c {
        Conflict::DuplicateHwAddress => "hw-address 已存在（唯一鍵衝突）"@,
        Conflict::IpInUse => "IP 已被其他 reservation 佔用"@,
        Conflict::IpInPool => "IP 落在 dynamic pool 範圍內"@,
        Conflict::IpOutOfSubnet => "IP 超出 subnet 範圍"@,
    }
}

/// The reasons that are shown for conflicts.
pub open spec fn reasons(c: Seq<Conflict>) -> Seq<Seq<char>> {
    c.map_values(|x: Conflict| reason(x))
}

/// The reasons that are shown for conflicts.
pub fn conflict_reasons(c: &[Conflict]) -> (r: Vec<String>)
    ensures
        texts(r@) == reasons(c@),
{
    let mut out: Vec<String> = Vec::new();
    let mut i: usize = 0;
    while i < c.len()
        invariant
            i <= c@.len(),
            texts(out@) == reasons(c@.take(i as int)),
        decreases c@.len() - i,
    {
        let ghost before = out@;
        let text: &str = match c[i] {
            Conflict::DuplicateHwAddress => "hw-address 已存在（唯一鍵衝突）",
            Conflict::IpInUse => "IP 已被其他 reservation 佔用",
            Conflict::IpInPool => "IP 落在 dynamic pool 範圍內",
            Conflict::IpOutOfSubnet => "IP 超出 subnet 範圍",
        };
        out.push(text.to_owned());
        assert(reasons(c@.take(i + 1)) =~= reasons(c@.take(i as int)).push(reason(c@[i as int])));
        assert(texts(out@) =~= texts(before).push(reason(c@[i as int])));
        i = i + 1;
    }
    assert(c@.take(c@.len() as int) =~= c@);
    out
}

/// Whether a reservation other than the edited one has a hostname.
pub open spec fn hostname_taken(list: Seq<ReservationView>, hostname: Seq<char>, edit_index: Option<usize>) -> bool {
    exists|i: int|
        0 <= i < list.len() && !edited(edit_of(edit_index), i) && (#[trigger] list[i]).hostname == Some(hostname)
}

/// The hostname to warn about: the candidate's, where it has one that another reservation has too.
pub open spec fn repeated_hostname(
    list: Seq<ReservationView>,
    candidate: ReservationView,
    edit_index: Option<usize>,
) -> Option<Seq<char>> {
    match candidate.hostname {
        Some(h) => if h.len() > 0 && hostname_taken(list, h, edit_index) {
            Some(h)
        } else {
            None
        },
        None => None,
    }
}

/// The hostname to warn about, in a list of its own: the candidate's, where it has one that
/// another reservation of the subnet has too. It does not stand against writing.
pub fn duplicate_hostnames(subnet: &Subnet, candidate: &Reservation, edit_index: Option<usize>) -> (r: Vec<String>)
    ensures
        texts(r@) == (match repeated_hostname(subnet@.reservations, candidate@, edit_index) {
            Some(h) => seq![h],
            None => Seq::empty(),
        }),
{
    let ghost all = views(subnet.reservations@);
    let mut dupes: Vec<String> = Vec::new();
    assert(texts(dupes@) =~= Seq::<Seq<char>>::empty());
    let host: &String = match &candidate.hostname {
        Some(h) => h,
        None => {
            return dupes;
        },
    };
    if crate::text::is_empty(host.as_str()) {
        return dupes;
    }
    let mut i: usize = 0;
    while i < subnet.reservations.len()
        invariant
            i <= subnet.reservations@.len(),
            all == views(subnet.reservations@),
            texts(dupes@) == Seq::<Seq<char>>::empty(),
            candidate@.hostname == Some(host@),
            host@.len() > 0,
            forall|j: int| 0 <= j < i && !edited(edit_of(edit_index), j) ==> (#[trigger] all[j]).hostname != Some(host@),
        decreases subnet.reservations@.len() - i,
    {
        let skip: bool = match edit_index {
            Some(e) => e == i,
            None => false,
        };
        let hit: bool = match &subnet.reservations[i].hostname {
            Some(h) => !skip && same(h.as_str(), host.as_str()),
            None => false,
        };
        if hit {
            dupes.push(host.clone());
            assert(all[i as int].hostname == Some(host@));
            assert(texts(dupes@) =~= seq![host@]);
            return dupes;
        }
        i = i + 1;
    }
    dupes
}

} // verus!
