//! What becomes of every pasted row: what is read from its columns, and what it does to the subnet.
use vstd::prelude::*;
use vstd::string::*;

use crate::addr::{in_net, ip_of};
use crate::address_laws::law_network_is_a_range;
use crate::conflict_laws::{ip_is_inside, ip_is_pooled, law_hardware_addresses_ignore_case, same_letters};
use crate::domain::{
    clashes, edited, in_pool, in_range, range_conflicts, reason, reasons, same_hw, Conflict, ReservationView,
    SubnetView,
};
use crate::list_laws::lemma_in_longer;
use crate::mac::{is_kept_mac, pasted_mac};
use crate::paste::{
    all_changed, column, holder, law_mutations_give_the_result, lemma_clash_in_use, lemma_holder,
    lemma_mutations_give, lemma_no_paste_conflict, paste_conflicts, pasted_rows, placed_hostname, plan_of, progress,
    rows_of, shared_hostname, shared_hostnames, step, superseded, LineView, MutationView, OutcomeView, PasteAction,
    PlanView,
};
use crate::paste_laws::{
    are_kept, is_placed, law_rows_are_kept, lemma_all_placed, lemma_holder_placed, lemma_only_duplicates,
    lemma_outcomes_stand, lemma_working_step, pasted_list,
};
use crate::text::{has_text, joined, split_on, trimmed, without_returns};

verus! {

/// What stands in a column of a line, without the white space around it; nothing where the line has no
/// such column. Tabs stand between the columns, or commas where the line has no tab.
pub open spec fn cell(line: Seq<char>, i: int) -> Seq<char> {
    let sep = if line.contains('\t') {
        '\t'
    } else {
        ','
    };
    if i < split_on(line, sep).len() {
        trimmed(split_on(line, sep)[i])
    } else {
        Seq::empty()
    }
}

/// Whether a row is what a line says: without a hardware address in the first column it is passed over,
/// without an address in the second it is wrong, and otherwise it is a reservation, with the third column
/// as its hostname unless that is empty.
pub open spec fn says(line: Seq<char>, number: nat, row: LineView) -> bool {
    let (hw, ip, host) = (cell(line, 0), cell(line, 1), cell(line, 2));
    &&& row is NotMac <==> pasted_mac(hw) is None
    &&& row is Candidate <==> pasted_mac(hw) is Some && ip_of(ip) is Some
    &&& row matches LineView::Candidate { line_no, reservation, raw } ==> {
        &&& line_no == number
        &&& Some(reservation.hw) == pasted_mac(hw)
        &&& Some(reservation.ip) == ip_of(ip)
        &&& host.len() > 0 ==> reservation.hostname == Some(host)
        &&& host.len() == 0 ==> reservation.hostname is None
        &&& raw.hw == hw && raw.ip == ip && raw.hostname == host
    }
    &&& row matches LineView::Invalid { line_no, raw, reason } ==> {
        &&& line_no == number
        &&& raw.hw == hw && raw.ip == ip && raw.hostname == host
        &&& ip.len() == 0 ==> reason == "缺少 ip-address"@
        &&& ip.len() > 0 ==> reason == "ip-address 格式不合法: "@ + ip
    }
}

/// Whether a line holds anything but white space.
pub open spec fn has_content() -> spec_fn(Seq<char>) -> bool {
    |line: Seq<char>| trimmed(without_returns(line)).len() > 0
}

/// Every line of a pasted text that is not blank is a row: the rows stand in the order of their lines, and
/// each is what its line says.
pub proof fn law_every_line_is_a_row(raw: Seq<char>, n: int)
    requires
        0 <= n < split_on(raw, '\n').len(),
        has_content()(split_on(raw, '\n')[n]),
    ensures
        ({
            let lines = split_on(raw, '\n');
            let at = lines.take(n).filter(has_content()).len() as int;
            &&& pasted_rows(raw).len() == lines.filter(has_content()).len()
            &&& at < pasted_rows(raw).len()
            &&& says(without_returns(lines[n]), (n + 1) as nat, pasted_rows(raw)[at])
        }),
{
    let lines = split_on(raw, '\n');
    assert(lines.take(lines.len() as int) =~= lines);
    lemma_rows_counted(lines, lines.len() as int);
    lemma_row_at(lines, n, lines.len() as int);
}

proof fn lemma_rows_counted(lines: Seq<Seq<char>>, n: int)
    requires
        0 <= n <= lines.len(),
    ensures
        rows_of(lines.take(n)).len() == lines.take(n).filter(has_content()).len(),
    decreases n,
{
    if n == 0 {
        reveal(Seq::filter);
    } else {
        lemma_rows_counted(lines, n - 1);
        assert(lines.take(n).drop_last() =~= lines.take(n - 1));
        assert(lines.take(n) =~= lines.take(n - 1).push(lines[n - 1]));
        lines.take(n - 1).lemma_filter_len_push(has_content(), lines[n - 1]);
    }
}

proof fn lemma_row_at(lines: Seq<Seq<char>>, n: int, m: int)
    requires
        0 <= n < m <= lines.len(),
        has_content()(lines[n]),
    ensures
        ({
            let at = lines.take(n).filter(has_content()).len() as int;
            &&& at < rows_of(lines.take(m)).len()
            &&& says(without_returns(lines[n]), (n + 1) as nat, rows_of(lines.take(m))[at])
        }),
    decreases m,
{
    assert(lines.take(m).drop_last() =~= lines.take(m - 1));
    assert(lines.take(m).last() == lines[m - 1]);
    if m - 1 > n {
        lemma_row_at(lines, n, m - 1);
    } else {
        lemma_rows_counted(lines, n);
    }
}

/// Whether row `k` holds a reservation, and no later row holds one for its hardware address.
pub open spec fn counts(lines: Seq<LineView>, k: int) -> bool {
    &&& 0 <= k < lines.len()
    &&& lines[k] is Candidate
    &&& forall|j: int|
        k < j < lines.len() && (#[trigger] lines[j]) is Candidate ==> lines[j]->Candidate_reservation.hw
            != lines[k]->Candidate_reservation.hw
}

/// Whether a reservation stands at a place of a list as the first with its hardware address.
pub open spec fn is_first_with(list: Seq<ReservationView>, hw: Seq<char>, p: int) -> bool {
    &&& 0 <= p < list.len()
    &&& same_letters(list[p].hw, hw)
    &&& forall|i: int| 0 <= i < p ==> !same_letters((#[trigger] list[i]).hw, hw)
}

/// Whether no reservation of a list has a hardware address.
pub open spec fn is_unknown(list: Seq<ReservationView>, hw: Seq<char>) -> bool {
    forall|i: int| 0 <= i < list.len() ==> !same_letters((#[trigger] list[i]).hw, hw)
}

/// Whether an outcome is right for a row that holds a reservation. It is added where its hardware address
/// is unknown to the subnet, and set at the place of the first reservation with that hardware address
/// otherwise; where that is the same already, nothing changes. What is not skipped stands in the result.
pub open spec fn is_right(subnet: SubnetView, lines: Seq<LineView>, o: OutcomeView, r: ReservationView) -> bool {
    let changes = plan_of(subnet, lines).mutations;
    let old = subnet.reservations;
    &&& o.reservation == Some(r)
    &&& o.action == PasteAction::Skip <==> o.detail is Some
    &&& !ip_is_inside(subnet, r.ip) || ip_is_pooled(subnet, r.ip) ==> o.action == PasteAction::Skip
    &&& o.action != PasteAction::Skip ==> pasted_list(subnet, lines).contains(r)
    &&& o.action == PasteAction::Add ==> is_unknown(old, r.hw) && changes.contains(MutationView::Add { reservation: r })
    &&& o.action == PasteAction::Update ==> exists|p: int| #[trigger]
        is_first_with(old, r.hw, p) && old[p] != r && changes.contains(
            MutationView::Update { index: p as nat, reservation: r },
        )
    &&& o.action == PasteAction::NoChange ==> exists|p: int| #[trigger] is_first_with(old, r.hw, p) && old[p] == r
}

/// Every row that holds a reservation, and that no later row replaces, has an outcome under its number,
/// and that is right for it.
pub proof fn law_every_row_comes_to_its_right(subnet: SubnetView, raw: Seq<char>, k: int)
    requires
        subnet.net.prefix <= 32,
        counts(pasted_rows(raw), k),
    ensures
        exists|i: int|
            0 <= i < plan_of(subnet, pasted_rows(raw)).outcomes.len() && (#[trigger] plan_of(
                subnet,
                pasted_rows(raw),
            ).outcomes[i]).line_no == pasted_rows(raw)[k]->Candidate_line_no && plan_of(
                subnet,
                pasted_rows(raw),
            ).outcomes[i].raw == pasted_rows(raw)[k]->Candidate_raw && is_right(
                subnet,
                pasted_rows(raw),
                plan_of(subnet, pasted_rows(raw)).outcomes[i],
                pasted_rows(raw)[k]->Candidate_reservation,
            ),
{
    let lines = pasted_rows(raw);
    law_rows_are_kept(raw);
    let i = lemma_right(subnet, lines, k);
    assert(is_right(subnet, lines, plan_of(subnet, lines).outcomes[i], lines[k]->Candidate_reservation));
}

proof fn lemma_right(subnet: SubnetView, lines: Seq<LineView>, k: int) -> (i: int)
    requires
        subnet.net.prefix <= 32,
        are_kept(lines),
        counts(lines, k),
    ensures
        0 <= i < plan_of(subnet, lines).outcomes.len(),
        plan_of(subnet, lines).outcomes[i].line_no == lines[k]->Candidate_line_no,
        plan_of(subnet, lines).outcomes[i].raw == lines[k]->Candidate_raw,
        is_right(subnet, lines, plan_of(subnet, lines).outcomes[i], lines[k]->Candidate_reservation),
        plan_of(subnet, lines).outcomes[i].action == PasteAction::Skip <==> paste_conflicts(
            subnet,
            progress(subnet, lines, k as nat).working,
            lines[k]->Candidate_reservation,
        ).len() > 0,
{
    let r = lines[k]->Candidate_reservation;
    let p = progress(subnet, lines, k as nat);
    let q = progress(subnet, lines, (k + 1) as nat);
    let end = progress(subnet, lines, lines.len());
    let i = p.outcomes.len() as int;
    assert(!superseded(lines, k));
    assert(q == step(subnet, lines, k, p));
    let o = q.outcomes[i];
    lemma_outcomes_stand(subnet, lines, (k + 1) as nat, lines.len());
    lemma_mutations_stand(subnet, lines, (k + 1) as nat, lines.len());
    assert(end.outcomes[i] == o);
    lemma_holder_of_old(subnet, lines, k as nat, k);
    lemma_first_with(subnet.reservations, r.hw);
    law_network_is_a_range(subnet.net.addr, subnet.net.prefix, r.ip);
    let free = paste_conflicts(subnet, p.working, r).len() == 0;
    if free {
        lemma_no_paste_conflict(subnet, p.working, r);
        assert(!ip_is_pooled(subnet, r.ip)) by {
            if ip_is_pooled(subnet, r.ip) {
                let x = choose|x: int|
                    0 <= x < subnet.pools.len() && (#[trigger] subnet.pools[x]).start.bits <= r.ip
                        <= subnet.pools[x].end.bits;
                assert(in_range(subnet.pools[x], r.ip));
            }
        }
    }
    if o.action != PasteAction::Skip {
        lemma_all_placed(subnet, lines, lines.len());
        law_mutations_give_the_result(subnet, lines);
        assert(is_placed(subnet, end.working, end.outcomes[i]));
        let h = holder(end.working, r.hw, end.working.len())->0 as int;
        assert(end.working[h] == r);
    }
    if q.mutations.len() > p.mutations.len() {
        let last = q.mutations[q.mutations.len() - 1];
        assert(end.mutations[q.mutations.len() - 1] == last);
        assert(end.mutations.contains(last));
    }
    match holder(subnet.reservations, r.hw, subnet.reservations.len()) {
        Some(x) => {
            assert(is_first_with(subnet.reservations, r.hw, x as int));
        },
        None => {},
    }
    i
}

/// The outcome of a row whose address lies outside the network says so, and that of a row whose address lies
/// in a pool says so.
pub proof fn law_skipped_row_is_told_why(subnet: SubnetView, raw: Seq<char>, k: int)
    requires
        subnet.net.prefix <= 32,
        counts(pasted_rows(raw), k),
    ensures
        ({
            let r = pasted_rows(raw)[k]->Candidate_reservation;
            let outcomes = plan_of(subnet, pasted_rows(raw)).outcomes;
            exists|i: int|
                0 <= i < outcomes.len() && (#[trigger] outcomes[i]).line_no == pasted_rows(raw)[k]->Candidate_line_no
                    && outcomes[i].reservation == Some(r) && (!ip_is_inside(subnet, r.ip) ==> tells(
                    outcomes[i],
                    "IP 超出 subnet 範圍"@,
                )) && (ip_is_pooled(subnet, r.ip) ==> tells(outcomes[i], "IP 落在 dynamic pool 範圍內"@))
        }),
{
    let lines = pasted_rows(raw);
    let r = lines[k]->Candidate_reservation;
    let p = progress(subnet, lines, k as nat);
    let q = progress(subnet, lines, (k + 1) as nat);
    let i = p.outcomes.len() as int;
    assert(!superseded(lines, k));
    assert(q == step(subnet, lines, k, p));
    lemma_outcomes_stand(subnet, lines, (k + 1) as nat, lines.len());
    let outcomes = plan_of(subnet, lines).outcomes;
    assert(outcomes[i] == q.outcomes[i]);
    law_network_is_a_range(subnet.net.addr, subnet.net.prefix, r.ip);
    let conflicts = paste_conflicts(subnet, p.working, r);
    lemma_range_conflicts_kept(subnet, p.working, r);
    if !ip_is_inside(subnet, r.ip) {
        lemma_reason_told(conflicts, Conflict::IpOutOfSubnet);
        assert(tells(outcomes[i], "IP 超出 subnet 範圍"@));
    }
    if ip_is_pooled(subnet, r.ip) {
        let x = choose|x: int|
            0 <= x < subnet.pools.len() && (#[trigger] subnet.pools[x]).start.bits <= r.ip <= subnet.pools[x].end.bits;
        assert(in_range(subnet.pools[x], r.ip));
        lemma_reason_told(conflicts, Conflict::IpInPool);
        assert(tells(outcomes[i], "IP 落在 dynamic pool 範圍內"@));
    }
}

/// Whether an outcome is that of a skipped row, with a reason among those that it gives.
pub open spec fn tells(o: OutcomeView, reason: Seq<char>) -> bool {
    o.action == PasteAction::Skip && o.detail is Some && has_text(o.detail->0, reason)
}

proof fn lemma_range_conflicts_kept(subnet: SubnetView, working: Seq<ReservationView>, r: ReservationView)
    ensures
        !in_net(subnet.net.addr, subnet.net.prefix, r.ip) ==> paste_conflicts(subnet, working, r).contains(
            Conflict::IpOutOfSubnet,
        ),
        in_pool(subnet.pools, r.ip) ==> paste_conflicts(subnet, working, r).contains(Conflict::IpInPool),
{
    broadcast use vstd::seq_lib::group_filter_ensures;

    let keep = |c: Conflict| c != Conflict::DuplicateHwAddress;
    let ranges = range_conflicts(subnet.net, subnet.pools, r.ip);
    let all = ranges + clashes(working, r, holder(working, r.hw, working.len()));
    if !in_net(subnet.net.addr, subnet.net.prefix, r.ip) {
        assert(all[0] == Conflict::IpOutOfSubnet);
        assert(keep(all[0]));
        assert(all.filter(keep).contains(all[0]));
    }
    if in_pool(subnet.pools, r.ip) {
        let n = ranges.len() - 1;
        assert(all[n] == Conflict::IpInPool);
        assert(keep(all[n]));
        assert(all.filter(keep).contains(all[n]));
    }
}

proof fn lemma_reason_told(c: Seq<Conflict>, x: Conflict)
    requires
        c.contains(x),
    ensures
        has_text(joined(reasons(c), "；"@), reason(x)),
{
    let i = choose|i: int| 0 <= i < c.len() && c[i] == x;
    assert(reasons(c)[i] == reason(x));
    lemma_part_joined(reasons(c), "；"@, i);
}

pub proof fn lemma_part_joined(parts: Seq<Seq<char>>, sep: Seq<char>, i: int)
    requires
        0 <= i < parts.len(),
    ensures
        has_text(joined(parts, sep), parts[i]),
    decreases parts.len(),
{
    lemma_in_longer(parts[i]);
    if parts.len() > 1 && i < parts.len() - 1 {
        lemma_part_joined(parts.drop_last(), sep, i);
        assert(parts.drop_last()[i] == parts[i]);
    }
}

proof fn lemma_mutations_stand(subnet: SubnetView, lines: Seq<LineView>, m: nat, n: nat)
    requires
        m <= n,
    ensures
        progress(subnet, lines, m).mutations.len() <= progress(subnet, lines, n).mutations.len(),
        forall|i: int|
            0 <= i < progress(subnet, lines, m).mutations.len() ==> #[trigger] progress(subnet, lines, n).mutations[i]
                == progress(subnet, lines, m).mutations[i],
    decreases n,
{
    if m < n {
        lemma_mutations_stand(subnet, lines, m, (n - 1) as nat);
        let p = progress(subnet, lines, (n - 1) as nat);
        let q = progress(subnet, lines, n);
        assert forall|i: int| 0 <= i < progress(subnet, lines, m).mutations.len() implies #[trigger] q.mutations[i]
            == progress(subnet, lines, m).mutations[i] by {
            assert(q.mutations[i] == p.mutations[i]);
        }
    }
}

/// Where a hardware address leads in a list is to the first reservation with it.
proof fn lemma_first_with(list: Seq<ReservationView>, hw: Seq<char>)
    ensures
        holder(list, hw, list.len()) matches Some(p) ==> is_first_with(list, hw, p as int),
        holder(list, hw, list.len()) is None ==> is_unknown(list, hw),
{
    lemma_first_upto(list, hw, list.len());
    assert forall|i: int| 0 <= i < list.len() implies (same_hw((#[trigger] list[i]).hw, hw) <==> same_letters(
        list[i].hw,
        hw,
    )) by {
        law_hardware_addresses_ignore_case(list[i].hw, hw);
    }
}

proof fn lemma_first_upto(list: Seq<ReservationView>, hw: Seq<char>, n: nat)
    requires
        n <= list.len(),
    ensures
        holder(list, hw, n) matches Some(p) ==> p < n && same_hw(list[p as int].hw, hw) && forall|i: int|
            0 <= i < p ==> !same_hw((#[trigger] list[i]).hw, hw),
        holder(list, hw, n) is None ==> forall|i: int| 0 <= i < n ==> !same_hw((#[trigger] list[i]).hw, hw),
    decreases n,
{
    if n > 0 {
        lemma_first_upto(list, hw, (n - 1) as nat);
    }
}

/// The rows before one that counts leave what its hardware address leads to as it is.
proof fn lemma_holder_of_old(subnet: SubnetView, lines: Seq<LineView>, n: nat, k: int)
    requires
        are_kept(lines),
        counts(lines, k),
        n <= k,
    ensures
        ({
            let hw = lines[k]->Candidate_reservation.hw;
            let w = progress(subnet, lines, n).working;
            let h = holder(w, hw, w.len());
            &&& h == holder(subnet.reservations, hw, subnet.reservations.len())
            &&& h is Some ==> h->0 < w.len() && h->0 < subnet.reservations.len() && w[h->0 as int]
                == subnet.reservations[h->0 as int]
        }),
    decreases n,
{
    let hw = lines[k]->Candidate_reservation.hw;
    lemma_holder(subnet.reservations, hw, subnet.reservations.len());
    if n > 0 {
        lemma_holder_of_old(subnet, lines, (n - 1) as nat, k);
        lemma_working_step(subnet, lines, n);
        let w = progress(subnet, lines, (n - 1) as nat).working;
        let d = lines[n - 1]->Candidate_reservation;
        if progress(subnet, lines, n).working != w {
            assert(is_kept_mac(d.hw) && is_kept_mac(hw));
            if same_hw(d.hw, hw) {
                assert(lines[k]->Candidate_reservation.hw == d.hw);
                assert(superseded(lines, n - 1));
            }
            lemma_holder_placed(w, d, hw);
            lemma_holder(w, d.hw, w.len());
            lemma_holder(w, hw, w.len());
        }
    }
}

/// Whether nobody else has the address of row `k`: no reservation of the subnet but the one that the row
/// replaces, and no other row.
pub open spec fn has_own_address(subnet: SubnetView, lines: Seq<LineView>, k: int) -> bool {
    let r = lines[k]->Candidate_reservation;
    &&& forall|i: int|
        0 <= i < subnet.reservations.len() && !is_first_with(subnet.reservations, r.hw, i) ==> (
        #[trigger] subnet.reservations[i]).ip != r.ip
    &&& forall|j: int|
        0 <= j < lines.len() && j != k && (#[trigger] lines[j]) is Candidate ==> lines[j]->Candidate_reservation.ip != r.ip
}

/// A row whose address lies in the network and in no pool, and which nobody else has, is never skipped.
pub proof fn law_free_row_is_taken(subnet: SubnetView, raw: Seq<char>, k: int)
    requires
        subnet.net.prefix <= 32,
        counts(pasted_rows(raw), k),
        ip_is_inside(subnet, pasted_rows(raw)[k]->Candidate_reservation.ip),
        !ip_is_pooled(subnet, pasted_rows(raw)[k]->Candidate_reservation.ip),
        has_own_address(subnet, pasted_rows(raw), k),
    ensures
        exists|i: int|
            0 <= i < plan_of(subnet, pasted_rows(raw)).outcomes.len() && (#[trigger] plan_of(
                subnet,
                pasted_rows(raw),
            ).outcomes[i]).reservation == Some(pasted_rows(raw)[k]->Candidate_reservation) && plan_of(
                subnet,
                pasted_rows(raw),
            ).outcomes[i].action != PasteAction::Skip,
{
    broadcast use vstd::seq_lib::group_filter_ensures;

    let lines = pasted_rows(raw);
    let r = lines[k]->Candidate_reservation;
    law_rows_are_kept(raw);
    let at = lemma_right(subnet, lines, k);
    let w = progress(subnet, lines, k as nat).working;
    lemma_holder_of_old(subnet, lines, k as nat, k);
    lemma_first_with(subnet.reservations, r.hw);
    let edit = holder(w, r.hw, w.len());
    law_network_is_a_range(subnet.net.addr, subnet.net.prefix, r.ip);
    assert(!in_pool(subnet.pools, r.ip));
    assert forall|j: int| 0 <= j < w.len() && !edited(edit, j) implies (#[trigger] w[j]).ip != r.ip by {
        lemma_source(subnet, lines, k as nat, j);
        if j < subnet.reservations.len() && w[j] == subnet.reservations[j] {
            if is_first_with(subnet.reservations, r.hw, j) {
                law_hardware_addresses_ignore_case(subnet.reservations[j].hw, r.hw);
                lemma_first_is_holder(subnet.reservations, r.hw, j);
            }
        } else {
            let x = choose|x: int|
                0 <= x < k && (#[trigger] lines[x]) is Candidate && lines[x]->Candidate_reservation == w[j];
            assert(lines[x]->Candidate_reservation.ip != r.ip);
        }
    }
    lemma_only_duplicates(w, r, edit);
    let keep = |x: Conflict| x != Conflict::DuplicateHwAddress;
    let all = range_conflicts(subnet.net, subnet.pools, r.ip) + clashes(w, r, edit);
    assert(all =~= clashes(w, r, edit));
    if all.filter(keep).len() > 0 {
        let x = all.filter(keep)[0];
        assert(all.filter(keep).contains(x));
        assert(keep(x));
        all.lemma_filter_contains_rev(keep, x);
    }
    assert(plan_of(subnet, lines).outcomes[at].reservation == Some(r));
}

proof fn lemma_first_is_holder(list: Seq<ReservationView>, hw: Seq<char>, p: int)
    requires
        is_first_with(list, hw, p),
    ensures
        holder(list, hw, list.len()) == Some(p as nat),
{
    lemma_first_with(list, hw);
    match holder(list, hw, list.len()) {
        Some(q) => {
            if q < p {
                assert(!same_letters(list[q as int].hw, hw));
            } else if q > p {
                assert(!same_letters(list[p].hw, hw));
            }
        },
        None => {
            assert(!same_letters(list[p].hw, hw));
        },
    }
}

/// What stands in the list that a paste works on stood in the subnet, or comes from a row.
proof fn lemma_source(subnet: SubnetView, lines: Seq<LineView>, n: nat, i: int)
    requires
        n <= lines.len(),
        0 <= i < progress(subnet, lines, n).working.len(),
    ensures
        ({
            let w = progress(subnet, lines, n).working;
            ||| i < subnet.reservations.len() && w[i] == subnet.reservations[i]
            ||| exists|x: int| 0 <= x < n && (#[trigger] lines[x]) is Candidate && lines[x]->Candidate_reservation == w[i]
        }),
    decreases n,
{
    if n > 0 {
        lemma_working_step(subnet, lines, n);
        let w = progress(subnet, lines, (n - 1) as nat).working;
        let q = progress(subnet, lines, n).working;
        let d = lines[n - 1]->Candidate_reservation;
        lemma_holder(w, d.hw, w.len());
        if i < w.len() && q[i] == w[i] {
            lemma_source(subnet, lines, (n - 1) as nat, i);
            if exists|x: int| 0 <= x < n - 1 && (#[trigger] lines[x]) is Candidate && lines[x]->Candidate_reservation == w[i] {
                let x = choose|x: int|
                    0 <= x < n - 1 && (#[trigger] lines[x]) is Candidate && lines[x]->Candidate_reservation == w[i];
                assert(lines[x] is Candidate);
            }
        } else {
            assert(lines[n - 1] is Candidate);
            assert(q[i] == d);
        }
    }
}

/// A hostname is warned of exactly where a row with it is not skipped, and two reservations of the result
/// have it; and none is named twice.
pub proof fn law_shared_hostnames_are_warned_of(subnet: SubnetView, lines: Seq<LineView>, h: Seq<char>)
    ensures
        plan_of(subnet, lines).warn_hostnames.contains(h) <==> {
            &&& h.len() > 0
            &&& exists|i: int|
                0 <= i < plan_of(subnet, lines).outcomes.len() && (#[trigger] plan_of(subnet, lines).outcomes[i]).action
                    != PasteAction::Skip && plan_of(subnet, lines).outcomes[i].reservation is Some && plan_of(
                    subnet,
                    lines,
                ).outcomes[i].reservation->0.hostname == Some(h)
            &&& exists|i: int, j: int|
                0 <= i < j < pasted_list(subnet, lines).len() && (#[trigger] pasted_list(subnet, lines)[i]).hostname
                    == Some(h) && (#[trigger] pasted_list(subnet, lines)[j]).hostname == Some(h)
        },
        plan_of(subnet, lines).warn_hostnames.no_duplicates(),
{
    law_mutations_give_the_result(subnet, lines);
    let end = progress(subnet, lines, lines.len());
    lemma_warned(end.outcomes, end.working, h);
}

/// Whether a row with a hostname is not skipped.
spec fn places_hostname(outcomes: Seq<OutcomeView>, h: Seq<char>) -> bool {
    exists|i: int|
        0 <= i < outcomes.len() && (#[trigger] outcomes[i]).action != PasteAction::Skip && outcomes[i].reservation is Some
            && outcomes[i].reservation->0.hostname == Some(h)
}

proof fn lemma_warned(outcomes: Seq<OutcomeView>, working: Seq<ReservationView>, h: Seq<char>)
    ensures
        shared_hostnames(outcomes, working).contains(h) <==> h.len() > 0 && places_hostname(outcomes, h)
            && shared_hostname(working, h),
        shared_hostnames(outcomes, working).no_duplicates(),
    decreases outcomes.len(),
{
    let all = shared_hostnames(outcomes, working);
    if outcomes.len() > 0 {
        let front = outcomes.drop_last();
        let before = shared_hostnames(front, working);
        let o = outcomes[outcomes.len() - 1];
        lemma_warned(front, working, h);
        if places_hostname(front, h) {
            let i = choose|i: int|
                0 <= i < front.len() && (#[trigger] front[i]).action != PasteAction::Skip && front[i].reservation is Some
                    && front[i].reservation->0.hostname == Some(h);
            assert(outcomes[i] == front[i]);
        }
        if places_hostname(outcomes, h) {
            let i = choose|i: int|
                0 <= i < outcomes.len() && (#[trigger] outcomes[i]).action != PasteAction::Skip
                    && outcomes[i].reservation is Some && outcomes[i].reservation->0.hostname == Some(h);
            if i < front.len() {
                assert(front[i] == outcomes[i]);
            }
        }
        if before.contains(h) {
            let k = choose|k: int| 0 <= k < before.len() && before[k] == h;
            assert(all[k] == h);
        }
        if placed_hostname(o) == Some(h) && shared_hostname(working, h) && !before.contains(h) {
            assert(all[all.len() - 1] == h);
        }
        if all.contains(h) && !before.contains(h) {
            let k = choose|k: int| 0 <= k < all.len() && all[k] == h;
            assert(k == before.len());
        }
    }
}

/// Says of an outcome whether its row changes the subnet.
pub open spec fn is_change() -> spec_fn(OutcomeView) -> bool {
    |o: OutcomeView| o.action == PasteAction::Add || o.action == PasteAction::Update
}

/// The reservations as they stand when the row of outcome `i` comes: with the changes of all rows before it.
pub open spec fn list_before(subnet: SubnetView, plan: PlanView, i: int) -> Seq<ReservationView> {
    all_changed(subnet.reservations, plan.mutations.take(plan.outcomes.take(i).filter(is_change()).len() as int))
}

/// Whether a reservation other than the one with the same hardware address has an address.
pub open spec fn is_taken_by_another(list: Seq<ReservationView>, r: ReservationView) -> bool {
    exists|j: int| 0 <= j < list.len() && (#[trigger] list[j]).ip == r.ip && !is_first_with(list, r.hw, j)
}

/// A row that no later row replaces is skipped exactly where its address lies outside the network, lies in a
/// pool, or is, when the row comes, that of another reservation.
pub proof fn law_row_is_skipped_for_a_reason(subnet: SubnetView, lines: Seq<LineView>, k: int)
    requires
        subnet.net.prefix <= 32,
        counts(lines, k),
    ensures
        ({
            let r = lines[k]->Candidate_reservation;
            let plan = plan_of(subnet, lines);
            exists|i: int|
                0 <= i < plan.outcomes.len() && (#[trigger] plan.outcomes[i]).line_no == lines[k]->Candidate_line_no
                    && plan.outcomes[i].reservation == Some(r) && (plan.outcomes[i].action == PasteAction::Skip <==> {
                    ||| !ip_is_inside(subnet, r.ip)
                    ||| ip_is_pooled(subnet, r.ip)
                    ||| is_taken_by_another(list_before(subnet, plan, i), r)
                }) && (is_taken_by_another(list_before(subnet, plan, i), r) ==> tells(
                    plan.outcomes[i],
                    "IP 已被其他 reservation 佔用"@,
                ))
        }),
{
    let r = lines[k]->Candidate_reservation;
    let plan = plan_of(subnet, lines);
    let p = progress(subnet, lines, k as nat);
    let q = progress(subnet, lines, (k + 1) as nat);
    let i = p.outcomes.len() as int;
    assert(!superseded(lines, k));
    assert(q == step(subnet, lines, k, p));
    lemma_outcomes_stand(subnet, lines, (k + 1) as nat, lines.len());
    assert(plan.outcomes[i] == q.outcomes[i]);
    lemma_outcomes_stand(subnet, lines, k as nat, lines.len());
    lemma_mutations_stand(subnet, lines, k as nat, lines.len());
    assert(plan.outcomes.take(i) =~= p.outcomes);
    lemma_changes_counted(subnet, lines, k as nat);
    assert(plan.mutations.take(p.mutations.len() as int) =~= p.mutations);
    lemma_mutations_give(subnet, lines, k as nat);
    let w = p.working;
    assert(list_before(subnet, plan, i) == w);
    lemma_skipped_where(subnet, w, r);
    if is_taken_by_another(w, r) {
        lemma_in_use_kept(subnet, w, r);
        lemma_reason_told(paste_conflicts(subnet, w, r), Conflict::IpInUse);
    }
}

proof fn lemma_in_use_kept(subnet: SubnetView, w: Seq<ReservationView>, r: ReservationView)
    requires
        is_taken_by_another(w, r),
    ensures
        paste_conflicts(subnet, w, r).contains(Conflict::IpInUse),
{
    broadcast use vstd::seq_lib::group_filter_ensures;

    let keep = |c: Conflict| c != Conflict::DuplicateHwAddress;
    let ranges = range_conflicts(subnet.net, subnet.pools, r.ip);
    let edit = holder(w, r.hw, w.len());
    let all = ranges + clashes(w, r, edit);
    let j = choose|j: int| 0 <= j < w.len() && (#[trigger] w[j]).ip == r.ip && !is_first_with(w, r.hw, j);
    lemma_first_with(w, r.hw);
    assert(!edited(edit, j));
    lemma_clash_in_use(w, r, edit, j);
    let k = choose|k: int| 0 <= k < clashes(w, r, edit).len() && clashes(w, r, edit)[k] == Conflict::IpInUse;
    let n = ranges.len() + k;
    assert(all[n] == Conflict::IpInUse);
    assert(keep(all[n]));
    assert(all.filter(keep).contains(all[n]));
}

proof fn lemma_skipped_where(subnet: SubnetView, w: Seq<ReservationView>, r: ReservationView)
    requires
        subnet.net.prefix <= 32,
    ensures
        paste_conflicts(subnet, w, r).len() > 0 <==> {
            ||| !ip_is_inside(subnet, r.ip)
            ||| ip_is_pooled(subnet, r.ip)
            ||| is_taken_by_another(w, r)
        },
{
    let edit = holder(w, r.hw, w.len());
    law_network_is_a_range(subnet.net.addr, subnet.net.prefix, r.ip);
    lemma_first_with(w, r.hw);
    assert(in_pool(subnet.pools, r.ip) == ip_is_pooled(subnet, r.ip)) by {
        if in_pool(subnet.pools, r.ip) {
            let x = choose|x: int| 0 <= x < subnet.pools.len() && in_range(#[trigger] subnet.pools[x], r.ip);
            assert(subnet.pools[x].start.bits <= r.ip <= subnet.pools[x].end.bits);
        }
        if ip_is_pooled(subnet, r.ip) {
            let x = choose|x: int|
                0 <= x < subnet.pools.len() && (#[trigger] subnet.pools[x]).start.bits <= r.ip
                    <= subnet.pools[x].end.bits;
            assert(in_range(subnet.pools[x], r.ip));
        }
    }
    assert forall|j: int| 0 <= j < w.len() implies (#[trigger] edited(edit, j) <==> is_first_with(w, r.hw, j)) by {
        if is_first_with(w, r.hw, j) {
            lemma_first_is_holder(w, r.hw, j);
        }
    }
    if paste_conflicts(subnet, w, r).len() == 0 {
        lemma_no_paste_conflict(subnet, w, r);
        assert(!is_taken_by_another(w, r)) by {
            if is_taken_by_another(w, r) {
                let j = choose|j: int|
                    0 <= j < w.len() && (#[trigger] w[j]).ip == r.ip && !is_first_with(w, r.hw, j);
                assert(!edited(edit, j));
            }
        }
    }
    if in_net(subnet.net.addr, subnet.net.prefix, r.ip) && !in_pool(subnet.pools, r.ip) && !is_taken_by_another(w, r) {
        assert forall|j: int| 0 <= j < w.len() && !edited(edit, j) implies (#[trigger] w[j]).ip != r.ip by {
            assert(!is_first_with(w, r.hw, j));
        }
        lemma_no_conflict_left(subnet, w, r);
    }
}

proof fn lemma_no_conflict_left(subnet: SubnetView, w: Seq<ReservationView>, r: ReservationView)
    requires
        in_net(subnet.net.addr, subnet.net.prefix, r.ip),
        !in_pool(subnet.pools, r.ip),
        forall|j: int|
            0 <= j < w.len() && !edited(holder(w, r.hw, w.len()), j) ==> (#[trigger] w[j]).ip != r.ip,
    ensures
        paste_conflicts(subnet, w, r).len() == 0,
{
    broadcast use vstd::seq_lib::group_filter_ensures;

    let edit = holder(w, r.hw, w.len());
    lemma_only_duplicates(w, r, edit);
    let keep = |x: Conflict| x != Conflict::DuplicateHwAddress;
    let all = range_conflicts(subnet.net, subnet.pools, r.ip) + clashes(w, r, edit);
    assert(all =~= clashes(w, r, edit));
    if all.filter(keep).len() > 0 {
        let x = all.filter(keep)[0];
        assert(all.filter(keep).contains(x));
        assert(keep(x));
        all.lemma_filter_contains_rev(keep, x);
    }
}

proof fn lemma_changes_counted(subnet: SubnetView, lines: Seq<LineView>, n: nat)
    ensures
        progress(subnet, lines, n).outcomes.filter(is_change()).len() == progress(subnet, lines, n).mutations.len(),
    decreases n,
{
    if n == 0 {
        reveal(Seq::filter);
    } else {
        let p = progress(subnet, lines, (n - 1) as nat);
        let q = progress(subnet, lines, n);
        lemma_changes_counted(subnet, lines, (n - 1) as nat);
        if q.outcomes.len() > p.outcomes.len() {
            let o = q.outcomes[p.outcomes.len() as int];
            assert(q.outcomes =~= p.outcomes.push(o));
            p.outcomes.lemma_filter_len_push(is_change(), o);
        }
    }
}

} // verus!
