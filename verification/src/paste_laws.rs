//! What holds of every paste.
use vstd::prelude::*;

use crate::addr::in_net;
use crate::domain::{
    all_distinct, clash, clashes, edited, in_pool, range_conflicts, same_hw, Conflict, ReservationView, SubnetView,
};
use crate::mac::{is_kept_mac, law_mac_form};
use crate::paste::{
    after_paste, all_changed, columns_of, comes_from, from_row, holder, law_mutations_give_the_result, lemma_holder,
    lemma_no_paste_conflict, lemma_outcomes_from, paste_conflicts, pasted_rows, placed_hostname, plan_of, progress,
    rows_of, shared_hostnames, step, superseded, target, LineView, MutationView, OutcomeView, PasteAction,
};
use crate::text::{split_on, without_returns};

verus! {

/// The reservations of a subnet with the changes of a plan made to them, one after the other.
pub open spec fn pasted_list(subnet: SubnetView, lines: Seq<LineView>) -> Seq<ReservationView> {
    all_changed(subnet.reservations, plan_of(subnet, lines).mutations)
}

/// A subnet after a paste.
pub open spec fn pasted_subnet(subnet: SubnetView, lines: Seq<LineView>) -> SubnetView {
    SubnetView { reservations: pasted_list(subnet, lines), ..subnet }
}

/// Whether no two reservations of a list have one address.
pub open spec fn ips_distinct(list: Seq<ReservationView>) -> bool {
    forall|i: int, j: int| 0 <= i < j < list.len() ==> (#[trigger] list[i]).ip != (#[trigger] list[j]).ip
}

/// Whether no two reservations of a list have one hardware address.
pub open spec fn hws_distinct(list: Seq<ReservationView>) -> bool {
    forall|i: int, j: int| 0 <= i < j < list.len() ==> !same_hw((#[trigger] list[i]).hw, (#[trigger] list[j]).hw)
}

/// A list after a reservation without a conflict was placed: in the place of the one with its hardware
/// address, or at the end.
pub open spec fn placed(list: Seq<ReservationView>, c: ReservationView) -> Seq<ReservationView> {
    match holder(list, c.hw, list.len()) {
        Some(i) => list.update(i as int, c),
        None => list.push(c),
    }
}

/// What row `n - 1` does to the list: where it holds a reservation that counts and nothing stands
/// against it, the reservation is placed; otherwise the list stays.
pub proof fn lemma_working_step(subnet: SubnetView, lines: Seq<LineView>, n: nat)
    requires
        0 < n <= lines.len(),
    ensures
        ({
            let p = progress(subnet, lines, (n - 1) as nat);
            let q = progress(subnet, lines, n);
            let c = lines[n - 1]->Candidate_reservation;
            &&& q.working == (if lines[n - 1] is Candidate && !superseded(lines, n - 1) && paste_conflicts(
                subnet,
                p.working,
                c,
            ).len() == 0 {
                placed(p.working, c)
            } else {
                p.working
            })
        }),
{
    let p = progress(subnet, lines, (n - 1) as nat);
    if lines[n - 1] is Candidate {
        let c = lines[n - 1]->Candidate_reservation;
        lemma_holder(p.working, c.hw, p.working.len());
        let h = holder(p.working, c.hw, p.working.len());
        if h is Some && p.working[h->0 as int] == c {
            assert(p.working.update(h->0 as int, c) =~= p.working);
        }
    }
}

/// A paste keeps the addresses of a subnet distinct.
pub proof fn law_paste_keeps_addresses_distinct(subnet: SubnetView, lines: Seq<LineView>)
    requires
        ips_distinct(subnet.reservations),
    ensures
        ips_distinct(pasted_list(subnet, lines)),
{
    law_mutations_give_the_result(subnet, lines);
    lemma_ips_distinct(subnet, lines, lines.len());
}

proof fn lemma_ips_distinct(subnet: SubnetView, lines: Seq<LineView>, n: nat)
    requires
        n <= lines.len(),
        ips_distinct(subnet.reservations),
    ensures
        ips_distinct(progress(subnet, lines, n).working),
    decreases n,
{
    if n > 0 {
        lemma_ips_distinct(subnet, lines, (n - 1) as nat);
        lemma_working_step(subnet, lines, n);
        let w = progress(subnet, lines, (n - 1) as nat).working;
        let c = lines[n - 1]->Candidate_reservation;
        if paste_conflicts(subnet, w, c).len() == 0 {
            lemma_holder(w, c.hw, w.len());
            lemma_no_paste_conflict(subnet, w, c);
        }
    }
}

/// A paste keeps the hardware addresses of a subnet distinct.
pub proof fn law_paste_keeps_hardware_addresses_distinct(subnet: SubnetView, lines: Seq<LineView>)
    requires
        hws_distinct(subnet.reservations),
    ensures
        hws_distinct(pasted_list(subnet, lines)),
{
    law_mutations_give_the_result(subnet, lines);
    lemma_hws_distinct(subnet, lines, lines.len());
}

proof fn lemma_hws_distinct(subnet: SubnetView, lines: Seq<LineView>, n: nat)
    requires
        n <= lines.len(),
        hws_distinct(subnet.reservations),
    ensures
        hws_distinct(progress(subnet, lines, n).working),
    decreases n,
{
    if n > 0 {
        lemma_hws_distinct(subnet, lines, (n - 1) as nat);
        lemma_working_step(subnet, lines, n);
        let w = progress(subnet, lines, (n - 1) as nat).working;
        lemma_holder(w, lines[n - 1]->Candidate_reservation.hw, w.len());
    }
}

/// A paste keeps the reservations of a subnet distinct.
pub proof fn law_paste_keeps_distinct(subnet: SubnetView, lines: Seq<LineView>)
    requires
        all_distinct(subnet.reservations),
    ensures
        all_distinct(pasted_list(subnet, lines)),
{
    law_paste_keeps_addresses_distinct(subnet, lines);
    law_paste_keeps_hardware_addresses_distinct(subnet, lines);
}

/// Whether one of some changes updates the reservation at a place.
pub open spec fn is_updated(m: Seq<MutationView>, i: int) -> bool {
    exists|k: int| 0 <= k < m.len() && (#[trigger] m[k]) is Update && m[k]->index == i
}

/// A paste leaves every reservation alone whose place it does not update, and removes none.
pub proof fn law_paste_leaves_the_rest(subnet: SubnetView, lines: Seq<LineView>)
    ensures
        pasted_list(subnet, lines).len() >= subnet.reservations.len(),
        forall|i: int|
            0 <= i < subnet.reservations.len() && !is_updated(plan_of(subnet, lines).mutations, i)
                ==> #[trigger] pasted_list(subnet, lines)[i] == subnet.reservations[i],
{
    law_mutations_give_the_result(subnet, lines);
    lemma_rest(subnet, lines, lines.len());
}

proof fn lemma_rest(subnet: SubnetView, lines: Seq<LineView>, n: nat)
    requires
        n <= lines.len(),
    ensures
        progress(subnet, lines, n).working.len() >= subnet.reservations.len(),
        forall|i: int|
            0 <= i < subnet.reservations.len() && !is_updated(progress(subnet, lines, n).mutations, i)
                ==> #[trigger] progress(subnet, lines, n).working[i] == subnet.reservations[i],
    decreases n,
{
    if n > 0 {
        let p = progress(subnet, lines, (n - 1) as nat);
        let q = progress(subnet, lines, n);
        lemma_rest(subnet, lines, (n - 1) as nat);
        lemma_working_step(subnet, lines, n);
        lemma_holder(p.working, lines[n - 1]->Candidate_reservation.hw, p.working.len());
        assert forall|i: int|
            0 <= i < subnet.reservations.len() && !is_updated(q.mutations, i) implies #[trigger] q.working[i]
            == subnet.reservations[i] by {
            if is_updated(p.mutations, i) {
                let k = choose|k: int| 0 <= k < p.mutations.len() && (#[trigger] p.mutations[k]) is Update
                    && p.mutations[k]->index == i;
                assert(q.mutations[k] == p.mutations[k]);
            }
            assert(p.working[i] == subnet.reservations[i]);
            if q.mutations.len() > p.mutations.len() {
                let last = q.mutations[q.mutations.len() - 1];
                assert(!(last is Update && last->index == i));
            }
        }
    }
}

/// Whether every reservation of some rows has its hardware address in the form in which it is kept.
pub open spec fn are_kept(lines: Seq<LineView>) -> bool {
    forall|k: int|
        0 <= k < lines.len() && (#[trigger] lines[k]) is Candidate ==> is_kept_mac(
            lines[k]->Candidate_reservation.hw,
        )
}

/// The rows of a text have their hardware addresses in the form in which they are kept.
pub proof fn law_rows_are_kept(raw: Seq<char>)
    ensures
        are_kept(pasted_rows(raw)),
{
    lemma_rows_kept(split_on(raw, '\n'));
}

proof fn lemma_rows_kept(lines: Seq<Seq<char>>)
    ensures
        are_kept(rows_of(lines)),
    decreases lines.len(),
{
    if lines.len() > 0 {
        let before = rows_of(lines.drop_last());
        let after = rows_of(lines);
        lemma_rows_kept(lines.drop_last());
        law_mac_form(columns_of(without_returns(lines.last())).hw);
        assert forall|k: int| 0 <= k < after.len() && (#[trigger] after[k]) is Candidate implies is_kept_mac(
            after[k]->Candidate_reservation.hw,
        ) by {
            if k < before.len() {
                assert(after[k] == before[k]);
            }
        }
    }
}

/// Whether a reservation stands in a list as the one that its hardware address leads to, and no other
/// reservation has its address.
pub open spec fn settled(list: Seq<ReservationView>, c: ReservationView) -> bool {
    let h = holder(list, c.hw, list.len());
    &&& h is Some
    &&& h->0 < list.len()
    &&& list[h->0 as int] == c
    &&& forall|j: int| 0 <= j < list.len() && j != h->0 ==> (#[trigger] list[j]).ip != c.ip
}

/// Where a hardware address leads depends on nothing but which reservations have it.
proof fn lemma_holder_pattern(a: Seq<ReservationView>, b: Seq<ReservationView>, hw: Seq<char>, n: nat)
    requires
        n <= a.len(),
        n <= b.len(),
        forall|i: int| 0 <= i < n ==> same_hw((#[trigger] a[i]).hw, hw) == same_hw(b[i].hw, hw),
    ensures
        holder(a, hw, n) == holder(b, hw, n),
    decreases n,
{
    if n > 0 {
        lemma_holder_pattern(a, b, hw, (n - 1) as nat);
        assert(same_hw(a[n - 1].hw, hw) == same_hw(b[n - 1].hw, hw));
    }
}

/// Placing a reservation changes nothing about where any other hardware address leads.
pub proof fn lemma_holder_placed(list: Seq<ReservationView>, d: ReservationView, hw: Seq<char>)
    requires
        !same_hw(d.hw, hw),
    ensures
        holder(placed(list, d), hw, placed(list, d).len()) == holder(list, hw, list.len()),
{
    let after = placed(list, d);
    lemma_holder(list, d.hw, list.len());
    lemma_holder_pattern(after, list, hw, list.len());
}

/// Once settled, a reservation stays so while others are placed.
proof fn lemma_settled_stays(subnet: SubnetView, list: Seq<ReservationView>, c: ReservationView, d: ReservationView)
    requires
        settled(list, c),
        !same_hw(d.hw, c.hw),
        paste_conflicts(subnet, list, d).len() == 0,
    ensures
        settled(placed(list, d), c),
{
    let after = placed(list, d);
    lemma_holder_placed(list, d, c.hw);
    lemma_holder(list, d.hw, list.len());
    lemma_holder(list, c.hw, list.len());
    lemma_no_paste_conflict(subnet, list, d);
    let h = holder(list, c.hw, list.len())->0;
    let g = holder(list, d.hw, list.len());
    assert(g is Some ==> g->0 != h);
    assert(list[h as int].ip != d.ip);
    assert forall|j: int| 0 <= j < after.len() && j != h implies (#[trigger] after[j]).ip != c.ip by {
        if j < list.len() && !(g is Some && g->0 == j) {
            assert(after[j] == list[j]);
        }
    }
}

/// A reservation that was placed without a conflict is settled.
proof fn lemma_settled_new(subnet: SubnetView, list: Seq<ReservationView>, c: ReservationView)
    requires
        paste_conflicts(subnet, list, c).len() == 0,
    ensures
        settled(placed(list, c), c),
{
    let after = placed(list, c);
    lemma_holder(list, c.hw, list.len());
    lemma_no_paste_conflict(subnet, list, c);
    match holder(list, c.hw, list.len()) {
        Some(i) => {
            lemma_holder_pattern(after, list, c.hw, list.len());
        },
        None => {
            lemma_holder_pattern(after, list, c.hw, list.len());
            assert(same_hw(after[list.len() as int].hw, c.hw));
        },
    }
}

/// Whether an outcome is that of a reservation that was placed, and that lies in the network and in no
/// pool.
pub open spec fn is_placed(subnet: SubnetView, list: Seq<ReservationView>, o: OutcomeView) -> bool {
    &&& o.reservation is Some
    &&& settled(list, o.reservation->0)
    &&& in_net(subnet.net.addr, subnet.net.prefix, o.reservation->0.ip)
    &&& !in_pool(subnet.pools, o.reservation->0.ip)
}

/// What is not skipped is placed, and stays so.
pub proof fn lemma_all_placed(subnet: SubnetView, lines: Seq<LineView>, n: nat)
    requires
        n <= lines.len(),
        are_kept(lines),
    ensures
        forall|i: int|
            0 <= i < progress(subnet, lines, n).outcomes.len() && progress(subnet, lines, n).outcomes[i].action
                != PasteAction::Skip ==> is_placed(
                subnet,
                progress(subnet, lines, n).working,
                #[trigger] progress(subnet, lines, n).outcomes[i],
            ),
    decreases n,
{
    if n > 0 {
        let p = progress(subnet, lines, (n - 1) as nat);
        let q = progress(subnet, lines, n);
        lemma_all_placed(subnet, lines, (n - 1) as nat);
        lemma_working_step(subnet, lines, n);
        lemma_outcomes_from(subnet, lines, (n - 1) as nat);
        let c = lines[n - 1]->Candidate_reservation;
        let counts = lines[n - 1] is Candidate && !superseded(lines, n - 1) && paste_conflicts(
            subnet,
            p.working,
            c,
        ).len() == 0;
        assert forall|i: int|
            0 <= i < q.outcomes.len() && q.outcomes[i].action != PasteAction::Skip implies is_placed(
            subnet,
            q.working,
            #[trigger] q.outcomes[i],
        ) by {
            if i < p.outcomes.len() {
                assert(q.outcomes[i] == p.outcomes[i]);
                let old = p.outcomes[i].reservation->0;
                if counts {
                    assert(from_row(p.outcomes[i], lines, (n - 1) as nat));
                    let k = choose|k: int| 0 <= k < n - 1 && comes_from(p.outcomes[i], lines, k);
                    assert(lines[k] is Candidate && lines[k]->Candidate_reservation == old);
                    assert(is_kept_mac(old.hw) && is_kept_mac(c.hw));
                    if same_hw(c.hw, old.hw) {
                        assert(lines[n - 1]->Candidate_reservation.hw == old.hw);
                        assert(superseded(lines, k));
                    }
                    lemma_settled_stays(subnet, p.working, old, c);
                }
            } else {
                assert(counts);
                assert(q.outcomes[i].reservation == Some(c));
                lemma_settled_new(subnet, p.working, c);
                lemma_no_paste_conflict(subnet, p.working, c);
            }
        }
    }
}

/// Whether a reservation stands in a list, and no other reservation of the list has its address.
pub open spec fn stands_alone(list: Seq<ReservationView>, c: ReservationView) -> bool {
    exists|i: int| alone_at(list, c, i)
}

/// Whether a reservation stands at a place of a list, and no other reservation of the list has its
/// address.
pub open spec fn alone_at(list: Seq<ReservationView>, c: ReservationView, i: int) -> bool {
    &&& 0 <= i < list.len()
    &&& list[i] == c
    &&& forall|j: int| 0 <= j < list.len() && j != i ==> (#[trigger] list[j]).ip != c.ip
}

/// Every reservation that a paste adds or updates stands in the result, and no other reservation of the
/// result has its address; and it lies in the network and in no pool.
pub proof fn law_written_stand_alone(subnet: SubnetView, raw: Seq<char>)
    ensures
        forall|i: int|
            0 <= i < plan_of(subnet, pasted_rows(raw)).mutations.len() ==> {
                let c = target(#[trigger] plan_of(subnet, pasted_rows(raw)).mutations[i]);
                &&& stands_alone(pasted_list(subnet, pasted_rows(raw)), c)
                &&& in_net(subnet.net.addr, subnet.net.prefix, c.ip)
                &&& !in_pool(subnet.pools, c.ip)
            },
{
    let lines = pasted_rows(raw);
    let p = progress(subnet, lines, lines.len());
    law_mutations_give_the_result(subnet, lines);
    law_rows_are_kept(raw);
    lemma_all_placed(subnet, lines, lines.len());
    assert forall|i: int| 0 <= i < p.mutations.len() implies {
        let c = target(#[trigger] p.mutations[i]);
        &&& stands_alone(p.working, c)
        &&& in_net(subnet.net.addr, subnet.net.prefix, c.ip)
        &&& !in_pool(subnet.pools, c.ip)
    } by {
        let c = target(p.mutations[i]);
        lemma_mutation_has_outcome(subnet, lines, lines.len(), i);
        let k = choose|k: int|
            0 <= k < p.outcomes.len() && (#[trigger] p.outcomes[k]).action != PasteAction::Skip
                && p.outcomes[k].reservation == Some(c);
        assert(is_placed(subnet, p.working, p.outcomes[k]));
        let h = holder(p.working, c.hw, p.working.len())->0;
        assert(alone_at(p.working, c, h as int));
    }
}

/// Every change has an outcome that is not a skip.
proof fn lemma_mutation_has_outcome(subnet: SubnetView, lines: Seq<LineView>, n: nat, i: int)
    requires
        n <= lines.len(),
        0 <= i < progress(subnet, lines, n).mutations.len(),
    ensures
        ({
            let p = progress(subnet, lines, n);
            exists|k: int|
                0 <= k < p.outcomes.len() && (#[trigger] p.outcomes[k]).action != PasteAction::Skip
                    && p.outcomes[k].reservation == Some(target(p.mutations[i]))
        }),
    decreases n,
{
    if n > 0 {
        let p = progress(subnet, lines, (n - 1) as nat);
        let q = progress(subnet, lines, n);
        if i < p.mutations.len() {
            lemma_mutation_has_outcome(subnet, lines, (n - 1) as nat, i);
            let k = choose|k: int|
                0 <= k < p.outcomes.len() && (#[trigger] p.outcomes[k]).action != PasteAction::Skip
                    && p.outcomes[k].reservation == Some(target(p.mutations[i]));
            assert(q.outcomes[k] == p.outcomes[k]);
            assert(q.mutations[i] == p.mutations[i]);
        } else {
            let k = q.outcomes.len() - 1;
            assert(q.outcomes[k].action != PasteAction::Skip);
            assert(q.outcomes[k].reservation == Some(target(q.mutations[i])));
        }
    }
}

/// What a paste does to the reservations of a subnet: it writes into the network and outside the pools,
/// no address that it writes is held twice, distinct addresses and distinct hardware addresses stay
/// so, and what it does not update stays as it was.
pub proof fn law_paste_is_sound(subnet: SubnetView, raw: Seq<char>)
    ensures
        ({
            let lines = pasted_rows(raw);
            let plan = plan_of(subnet, lines);
            let list = pasted_list(subnet, lines);
            &&& forall|i: int|
                0 <= i < plan.mutations.len() ==> {
                    let c = target(#[trigger] plan.mutations[i]);
                    &&& stands_alone(list, c)
                    &&& in_net(subnet.net.addr, subnet.net.prefix, c.ip)
                    &&& !in_pool(subnet.pools, c.ip)
                }
            &&& ips_distinct(subnet.reservations) ==> ips_distinct(list)
            &&& hws_distinct(subnet.reservations) ==> hws_distinct(list)
            &&& list.len() >= subnet.reservations.len()
            &&& forall|i: int|
                0 <= i < subnet.reservations.len() && !is_updated(plan.mutations, i) ==> #[trigger] list[i]
                    == subnet.reservations[i]
        }),
{
    let lines = pasted_rows(raw);
    law_written_stand_alone(subnet, raw);
    if ips_distinct(subnet.reservations) {
        law_paste_keeps_addresses_distinct(subnet, lines);
    }
    if hws_distinct(subnet.reservations) {
        law_paste_keeps_hardware_addresses_distinct(subnet, lines);
    }
    law_paste_leaves_the_rest(subnet, lines);
}

/// What became of the first rows stands, whatever rows follow.
pub proof fn lemma_outcomes_stand(subnet: SubnetView, lines: Seq<LineView>, m: nat, n: nat)
    requires
        m <= n,
    ensures
        progress(subnet, lines, m).outcomes.len() <= progress(subnet, lines, n).outcomes.len(),
        forall|i: int|
            0 <= i < progress(subnet, lines, m).outcomes.len() ==> #[trigger] progress(subnet, lines, n).outcomes[i]
                == progress(subnet, lines, m).outcomes[i],
    decreases n,
{
    if m < n {
        lemma_outcomes_stand(subnet, lines, m, (n - 1) as nat);
        let p = progress(subnet, lines, (n - 1) as nat);
        let q = progress(subnet, lines, n);
        assert forall|i: int| 0 <= i < progress(subnet, lines, m).outcomes.len() implies #[trigger] q.outcomes[i]
            == progress(subnet, lines, m).outcomes[i] by {
            assert(q.outcomes[i] == p.outcomes[i]);
        }
    }
}

/// Where only the edited reservation may have the candidate's address, nothing but hardware addresses
/// clash.
pub proof fn lemma_only_duplicates(list: Seq<ReservationView>, c: ReservationView, edit: Option<nat>)
    requires
        forall|j: int| 0 <= j < list.len() && !edited(edit, j) ==> (#[trigger] list[j]).ip != c.ip,
    ensures
        forall|i: int|
            0 <= i < clashes(list, c, edit).len() ==> #[trigger] clashes(list, c, edit)[i]
                == Conflict::DuplicateHwAddress,
    decreases list.len(),
{
    if list.len() > 0 {
        let front = list.drop_last();
        assert forall|j: int| 0 <= j < front.len() && !edited(edit, j) implies (#[trigger] front[j]).ip != c.ip by {
            assert(front[j] == list[j]);
        }
        lemma_only_duplicates(front, c, edit);
        let before = clashes(front, c, edit);
        let after = clashes(list, c, edit);
        assert forall|i: int| 0 <= i < after.len() implies #[trigger] after[i] == Conflict::DuplicateHwAddress by {
            if i < before.len() {
                assert(after[i] == before[i]);
            } else {
                assert(list[list.len() - 1].ip != c.ip);
                assert(after[i] == clash(list.last(), c)[i - before.len()]);
            }
        }
    }
}

/// Nothing stands against a reservation that is settled, in the network and in no pool.
proof fn lemma_settled_no_conflict(subnet: SubnetView, list: Seq<ReservationView>, c: ReservationView)
    requires
        settled(list, c),
        in_net(subnet.net.addr, subnet.net.prefix, c.ip),
        !in_pool(subnet.pools, c.ip),
    ensures
        paste_conflicts(subnet, list, c).len() == 0,
{
    broadcast use vstd::seq_lib::group_filter_ensures;

    let edit = holder(list, c.hw, list.len());
    let keep = |x: Conflict| x != Conflict::DuplicateHwAddress;
    let all = range_conflicts(subnet.net, subnet.pools, c.ip) + clashes(list, c, edit);
    lemma_only_duplicates(list, c, edit);
    assert(all =~= clashes(list, c, edit));
    if all.filter(keep).len() > 0 {
        let x = all.filter(keep)[0];
        assert(all.filter(keep).contains(x));
        assert(keep(x));
        all.lemma_filter_contains_rev(keep, x);
    }
}

/// Whether no row of a plan is skipped.
pub open spec fn none_skipped(outcomes: Seq<OutcomeView>) -> bool {
    forall|i: int| 0 <= i < outcomes.len() ==> (#[trigger] outcomes[i]).action != PasteAction::Skip
}

/// Whether outcomes are those of the same rows, and nothing changes any more.
pub open spec fn nothing_changes(again: Seq<OutcomeView>, first: Seq<OutcomeView>) -> bool {
    &&& again.len() == first.len()
    &&& forall|i: int|
        0 <= i < again.len() ==> (#[trigger] again[i]) == (OutcomeView {
            action: PasteAction::NoChange,
            detail: None,
            ..first[i]
        })
}

proof fn lemma_again(subnet: SubnetView, lines: Seq<LineView>, n: nat)
    requires
        n <= lines.len(),
        are_kept(lines),
        none_skipped(progress(subnet, lines, lines.len()).outcomes),
    ensures
        ({
            let list = after_paste(subnet, lines);
            let p = progress(subnet, lines, n);
            let r = progress(SubnetView { reservations: list, ..subnet }, lines, n);
            &&& r.working == list
            &&& r.mutations.len() == 0
            &&& r.silent_skipped == p.silent_skipped
            &&& nothing_changes(r.outcomes, p.outcomes)
        }),
    decreases n,
{
    if n > 0 {
        let list = after_paste(subnet, lines);
        let again = SubnetView { reservations: list, ..subnet };
        let whole = progress(subnet, lines, lines.len());
        let p = progress(subnet, lines, (n - 1) as nat);
        let q = progress(subnet, lines, n);
        let r = progress(again, lines, (n - 1) as nat);
        let t = progress(again, lines, n);
        lemma_again(subnet, lines, (n - 1) as nat);
        lemma_outcomes_stand(subnet, lines, n, lines.len());
        if q.outcomes.len() > p.outcomes.len() {
            let last = q.outcomes.len() - 1;
            assert(whole.outcomes[last] == q.outcomes[last]);
            if lines[n - 1] is Candidate {
                let c = lines[n - 1]->Candidate_reservation;
                assert(q.outcomes[last].reservation == Some(c));
                lemma_all_placed(subnet, lines, lines.len());
                assert(is_placed(subnet, list, whole.outcomes[last]));
                lemma_settled_no_conflict(again, list, c);
            }
        }
        assert(nothing_changes(t.outcomes, q.outcomes)) by {
            assert forall|i: int| 0 <= i < t.outcomes.len() implies (#[trigger] t.outcomes[i]) == (OutcomeView {
                action: PasteAction::NoChange,
                detail: None,
                ..q.outcomes[i]
            }) by {
                if i < r.outcomes.len() {
                    assert(t.outcomes[i] == r.outcomes[i]);
                    assert(q.outcomes[i] == p.outcomes[i]);
                }
            }
        }
    }
}

/// The hostnames to warn about depend on nothing but the hostnames of the rows that are not skipped.
proof fn lemma_same_warnings(a: Seq<OutcomeView>, b: Seq<OutcomeView>, working: Seq<ReservationView>)
    requires
        a.len() == b.len(),
        forall|i: int| 0 <= i < a.len() ==> placed_hostname(#[trigger] a[i]) == placed_hostname(b[i]),
    ensures
        shared_hostnames(a, working) == shared_hostnames(b, working),
    decreases a.len(),
{
    if a.len() > 0 {
        let (x, y) = (a.drop_last(), b.drop_last());
        assert forall|i: int| 0 <= i < x.len() implies placed_hostname(#[trigger] x[i]) == placed_hostname(y[i]) by {
            assert(x[i] == a[i] && y[i] == b[i]);
        }
        lemma_same_warnings(x, y, working);
        assert(placed_hostname(a[a.len() - 1]) == placed_hostname(b[b.len() - 1]));
    }
}

/// Pasting a text a second time changes nothing, where nothing was skipped the first time: there are no
/// changes, every row finds its reservation as it is, and the counts and the warnings are the same.
pub proof fn law_second_paste_changes_nothing(subnet: SubnetView, raw: Seq<char>)
    requires
        none_skipped(plan_of(subnet, pasted_rows(raw)).outcomes),
    ensures
        ({
            let lines = pasted_rows(raw);
            let first = plan_of(subnet, lines);
            let again = plan_of(pasted_subnet(subnet, lines), lines);
            &&& again.mutations.len() == 0
            &&& nothing_changes(again.outcomes, first.outcomes)
            &&& again.silent_skipped == first.silent_skipped
            &&& again.warn_hostnames == first.warn_hostnames
            &&& pasted_list(pasted_subnet(subnet, lines), lines) == pasted_list(subnet, lines)
        }),
{
    let lines = pasted_rows(raw);
    let first = plan_of(subnet, lines);
    let again = plan_of(pasted_subnet(subnet, lines), lines);
    law_mutations_give_the_result(subnet, lines);
    law_rows_are_kept(raw);
    lemma_again(subnet, lines, lines.len());
    assert forall|i: int| 0 <= i < again.outcomes.len() implies placed_hostname(#[trigger] again.outcomes[i])
        == placed_hostname(first.outcomes[i]) by {
        assert(first.outcomes[i].action != PasteAction::Skip);
    }
    lemma_same_warnings(again.outcomes, first.outcomes, pasted_list(subnet, lines));
    assert(again.mutations =~= Seq::<MutationView>::empty());
}

/// Whether row `k` is one that has an outcome: it is wrong, or it is the last one of its hardware
/// address.
pub open spec fn is_answered(lines: Seq<LineView>, k: int) -> bool {
    lines[k] is Invalid || (lines[k] is Candidate && !superseded(lines, k))
}

/// Every row that is wrong, and every last row of a hardware address, has an outcome.
pub proof fn law_every_row_is_answered(subnet: SubnetView, lines: Seq<LineView>, k: int)
    requires
        0 <= k < lines.len(),
        is_answered(lines, k),
    ensures
        exists|i: int|
            0 <= i < plan_of(subnet, lines).outcomes.len() && comes_from(
                #[trigger] plan_of(subnet, lines).outcomes[i],
                lines,
                k,
            ),
{
    let p = progress(subnet, lines, k as nat);
    let q = progress(subnet, lines, (k + 1) as nat);
    let i = p.outcomes.len() as int;
    assert(q == step(subnet, lines, k, p));
    assert(q.outcomes.len() == p.outcomes.len() + 1);
    assert(comes_from(q.outcomes[i], lines, k));
    lemma_outcomes_stand(subnet, lines, (k + 1) as nat, lines.len());
    assert(plan_of(subnet, lines).outcomes[i] == q.outcomes[i]);
}

/// An outcome says why exactly where its row is skipped.
pub proof fn law_detail_where_skipped(subnet: SubnetView, lines: Seq<LineView>)
    ensures
        forall|i: int|
            0 <= i < plan_of(subnet, lines).outcomes.len() ==> ((#[trigger] plan_of(
                subnet,
                lines,
            ).outcomes[i]).detail is Some <==> plan_of(subnet, lines).outcomes[i].action == PasteAction::Skip),
{
    lemma_detail(subnet, lines, lines.len());
}

proof fn lemma_detail(subnet: SubnetView, lines: Seq<LineView>, n: nat)
    ensures
        forall|i: int|
            0 <= i < progress(subnet, lines, n).outcomes.len() ==> ((#[trigger] progress(
                subnet,
                lines,
                n,
            ).outcomes[i]).detail is Some <==> progress(subnet, lines, n).outcomes[i].action == PasteAction::Skip),
    decreases n,
{
    if n > 0 {
        let p = progress(subnet, lines, (n - 1) as nat);
        let q = progress(subnet, lines, n);
        lemma_detail(subnet, lines, (n - 1) as nat);
        assert forall|i: int| 0 <= i < q.outcomes.len() implies ((#[trigger] q.outcomes[i]).detail is Some
            <==> q.outcomes[i].action == PasteAction::Skip) by {
            if i < p.outcomes.len() {
                assert(q.outcomes[i] == p.outcomes[i]);
            }
        }
    }
}

/// Says of a row whether it is passed over: it has no hardware address in its first column.
pub open spec fn is_passed_over() -> spec_fn(LineView) -> bool {
    |l: LineView| l is NotMac
}

/// As many rows are counted as passed over as have no hardware address in their first column.
pub proof fn law_passed_over_are_counted(subnet: SubnetView, lines: Seq<LineView>)
    ensures
        plan_of(subnet, lines).silent_skipped == lines.filter(is_passed_over()).len(),
{
    lemma_passed_over(subnet, lines, lines.len());
    assert(lines.take(lines.len() as int) =~= lines);
}

proof fn lemma_passed_over(subnet: SubnetView, lines: Seq<LineView>, n: nat)
    requires
        n <= lines.len(),
    ensures
        progress(subnet, lines, n).silent_skipped == lines.take(n as int).filter(is_passed_over()).len(),
    decreases n,
{
    if n == 0 {
        reveal(Seq::filter);
    } else {
        lemma_passed_over(subnet, lines, (n - 1) as nat);
        assert(lines.take(n as int) =~= lines.take(n - 1).push(lines[n - 1]));
        lines.take(n - 1).lemma_filter_len_push(is_passed_over(), lines[n - 1]);
        let p = progress(subnet, lines, (n - 1) as nat);
        assert(progress(subnet, lines, n) == step(subnet, lines, n - 1, p));
    }
}

} // verus!
