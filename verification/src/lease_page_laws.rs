//! What the page of the leases shows, whatever is asked for.
use vstd::prelude::*;
use vstd::string::*;
use vstd::utf8::encode_utf8;

use crate::addr::ip_text;
use crate::file::{elements, hwaddrs_of, lease_db_of, subnets, summaries_of, LeaseDbView, SummaryView};
use crate::html::{escaped, window_of};
use crate::json::Json;
use crate::lease_page::{
    badge_text, chooser, chosen_subnet, cidr_of, id_text, law_lease_order_is_numeric, law_no_value_comes_last,
    law_shown_are_the_wanted, law_shown_leases_ascend, lease_heads, lease_key, lease_panel, lease_row, lease_rows,
    lease_source, lease_table, lemma_lease_fields, lemma_lease_texts_decide, remain_text, rendered_leases,
    shown_leases, state_options, subnet_options, wanted,
};
use crate::leases::{leases_of, passes, remaining, row_label, LeaseView};
use crate::list::{law_place_decides, needle_of};
use crate::list_laws::{
    law_fifty_rows_on_a_page, law_first_difference_decides, lemma_in_longer, lemma_in_part, lemma_nothing_more,
    lemma_one_more, lemma_places_ascend, text_first,
};
use crate::number::{dec, law_number_round_trip, number};
use crate::order::{be, lemma_lex_total};
use crate::query::{is_desc, leases_th_text, leases_url, text_or_empty, LeasesQueryView};
use crate::reading_laws::{is_reserved_anywhere, law_hardware_addresses_are_listed};
use crate::state::{Refresh, StateView};
use crate::text::{has_text, lowercase, stands_at};
use crate::text_laws::law_found_within;

verus! {

/// Whether an optional text has, in small letters, another in it.
pub open spec fn part_of(text: Option<Seq<char>>, t: Seq<char>) -> bool {
    text is Some && has_text(lowercase(text->0), t)
}

/// Whether a lease is in a state that is asked for, and of the subnet that is asked for where one is.
pub open spec fn is_of(l: LeaseView, state: Seq<char>, id: Option<u32>, now: u64) -> bool {
    passes(l, state, now) && (id is None || l.subnet_id == id)
}

/// The state that a query asks for; nothing where it asks for none.
pub open spec fn state_of(q: LeasesQueryView) -> Seq<char> {
    match q.state {
        Some(t) => t,
        None => Seq::empty(),
    }
}

/// A lease of the state and of the subnet asked for is among the rows shown whenever what is searched for
/// stands in the text of its address, and whenever it stands in small letters in its hardware address, in its
/// client id, or in its hostname; all such leases are where nothing is searched for. No other lease is, and
/// none twice.
pub proof fn law_search_shows_the_leases_it_finds(list: Seq<LeaseView>, q: LeasesQueryView, now: u64, p: usize)
    requires
        list.len() <= usize::MAX,
        p < list.len(),
    ensures
        ({
            let l = list[p as int];
            let t = needle_of(q.q);
            let shown = shown_leases(list, q, now);
            let of = is_of(l, state_of(q), chosen_subnet(q.subnet), now);
            &&& of && has_text(ip_text(l.address), t) ==> shown.contains(p)
            &&& of && part_of(l.hwaddr, t) ==> shown.contains(p)
            &&& of && part_of(l.client_id, t) ==> shown.contains(p)
            &&& of && part_of(l.hostname, t) ==> shown.contains(p)
            &&& of && t.len() == 0 ==> shown.contains(p)
            &&& shown.contains(p) ==> of
            &&& shown.contains(p) ==> t.len() == 0 || has_text(ip_text(l.address), t) || part_of(l.hwaddr, t) || part_of(
                l.client_id,
                t,
            ) || part_of(l.hostname, t)
            &&& shown.no_duplicates()
        }),
{
    let t = needle_of(q.q);
    law_shown_are_the_wanted(list, q, now);
    assert(shown_leases(list, q, now).contains(p) <==> wanted(
        list[p as int],
        text_or_empty(q.state),
        chosen_subnet(q.subnet),
        t,
        now,
    ));
    assert(t.len() > 0 ==> !has_text(Seq::<char>::empty(), t)) by {
        if t.len() > 0 && has_text(Seq::<char>::empty(), t) {
            let at = choose|at: int| #[trigger] stands_at(Seq::<char>::empty(), t, at);
        }
    }
}

/// The subnet that is asked for is the one with the number that is given; none is, where nothing is given or
/// no number that can be one.
pub proof fn law_subnet_is_asked_for_by_number(text: Seq<char>, id: u32)
    ensures
        chosen_subnet(None) is None,
        chosen_subnet(Some(Seq::empty())) is None,
        chosen_subnet(Some(dec(id as nat))) == Some(id),
        chosen_subnet(Some(text)) == Some(id) <==> number(text, 0xffff_ffff) == Some(id as nat),
        chosen_subnet(Some(text)) is None <==> number(text, 0xffff_ffff) is None,
{
    law_number_round_trip(id as nat, 0xffff_ffff);
}

/// Sorted by address, the smaller address comes first, or last where the order is descending.
pub proof fn law_leases_sorted_by_address(list: Seq<LeaseView>, q: LeasesQueryView, now: u64, i: int, j: int)
    requires
        list.len() <= usize::MAX,
        q.sort == Some("address"@),
        0 <= i < j < shown_leases(list, q, now).len(),
    ensures
        ({
            let shown = shown_leases(list, q, now);
            let (x, y) = (list[shown[i] as int], list[shown[j] as int]);
            &&& q.dir != Some("desc"@) ==> x.address <= y.address
            &&& q.dir == Some("desc"@) ==> x.address >= y.address
        }),
{
    let shown = shown_leases(list, q, now);
    let (x, y) = (list[shown[i] as int], list[shown[j] as int]);
    let desc = is_desc(q.dir);
    let a = lease_key(x, "address"@, desc, shown[i] as nat);
    let b = lease_key(y, "address"@, desc, shown[j] as nat);
    law_shown_leases_ascend(list, q, now, i, j);
    lemma_lex_total(a, b);
    if x.address > y.address {
        law_lease_order_is_numeric(y, x, shown[j] as nat, shown[i] as nat);
    }
    if x.address < y.address {
        law_lease_order_is_numeric(x, y, shown[i] as nat, shown[j] as nat);
    }
}

/// The column of a lease by which it is sorted: the hardware address, or the hostname.
pub open spec fn column(l: LeaseView, sort: Seq<char>) -> Option<Seq<char>> {
    if sort == "hwaddr"@ {
        l.hwaddr
    } else {
        l.hostname
    }
}

/// Sorted by hardware address or by hostname, leases without one come last in either direction; of two with
/// one, none comes before one whose text in small letters is smaller, or greater where the order is
/// descending.
pub proof fn law_leases_sorted_by_text(list: Seq<LeaseView>, q: LeasesQueryView, now: u64, sort: Seq<char>, i: int, j: int)
    requires
        list.len() <= usize::MAX,
        q.sort == Some(sort),
        sort == "hwaddr"@ || sort == "hostname"@,
        0 <= i < j < shown_leases(list, q, now).len(),
    ensures
        ({
            let shown = shown_leases(list, q, now);
            let (x, y) = (column(list[shown[i] as int], sort), column(list[shown[j] as int], sort));
            let desc = q.dir == Some("desc"@);
            &&& y is Some ==> x is Some
            &&& y is Some && !desc && !lowercase(x->0).contains('\0') ==> !text_first(y->0, x->0)
            &&& y is Some && desc && !lowercase(y->0).contains('\0') ==> !text_first(x->0, y->0)
        }),
{
    let shown = shown_leases(list, q, now);
    let (l, m) = (list[shown[i] as int], list[shown[j] as int]);
    let (x, y) = (column(l, sort), column(m, sort));
    let desc = is_desc(q.dir);
    let a = lease_key(l, sort, desc, shown[i] as nat);
    let b = lease_key(m, sort, desc, shown[j] as nat);
    lemma_lease_fields();
    law_shown_leases_ascend(list, q, now, i, j);
    lemma_lex_total(a, b);
    if y is Some {
        law_no_value_comes_last(m, l, desc, shown[j] as nat, shown[i] as nat);
        let (v, w) = (encode_utf8(lowercase(x->0)), encode_utf8(lowercase(y->0)));
        law_first_difference_decides(v, w);
        law_first_difference_decides(w, v);
        if !desc && !lowercase(x->0).contains('\0') && text_first(y->0, x->0) {
            lemma_lease_texts_decide(y->0, x->0, m, l, shown[j] as nat, shown[i] as nat);
        }
        if desc && !lowercase(y->0).contains('\0') && text_first(x->0, y->0) {
            lemma_lease_texts_decide(x->0, y->0, l, m, shown[i] as nat, shown[j] as nat);
        }
    }
}

/// Only the three columns can be sorted by; otherwise the leases stand in the order of the file.
pub proof fn law_unsorted_leases_as_in_the_file(list: Seq<LeaseView>, q: LeasesQueryView, now: u64, i: int, j: int)
    requires
        list.len() <= usize::MAX,
        0 <= i < j < shown_leases(list, q, now).len(),
        q.sort != Some("address"@) && q.sort != Some("hwaddr"@) && q.sort != Some("hostname"@),
    ensures
        shown_leases(list, q, now)[i] < shown_leases(list, q, now)[j],
{
    lemma_places_ascend(
        list,
        chooser(text_or_empty(q.state), chosen_subnet(q.subnet), needle_of(q.q), now),
        i,
        j,
    );
}

/// Whether a subnet is the first in a list with an id.
pub open spec fn is_first_with_id(list: Seq<SummaryView>, id: u32, k: int) -> bool {
    &&& 0 <= k < list.len()
    &&& list[k].id == Some(id)
    &&& forall|i: int| 0 <= i < k ==> (#[trigger] list[i]).id != Some(id)
}

/// A lease is shown with the network of the first subnet that has its id, and with a question mark where none
/// has.
pub proof fn law_network_of_the_subnet_is_told(list: Seq<SummaryView>, id: u32, k: int)
    ensures
        is_first_with_id(list, id, k) ==> cidr_of(list, Some(id)) == list[k].cidr,
        (forall|i: int| 0 <= i < list.len() ==> (#[trigger] list[i]).id != Some(id)) ==> cidr_of(list, Some(id)) == "?"@,
        cidr_of(list, None) == "?"@,
    decreases list.len(),
{
    if list.len() > 0 && list[0].id != Some(id) {
        let rest = list.drop_first();
        law_network_of_the_subnet_is_told(rest, id, k - 1);
        if is_first_with_id(list, id, k) {
            assert(rest[k - 1] == list[k]);
            assert forall|i: int| 0 <= i < k - 1 implies (#[trigger] rest[i]).id != Some(id) by {
                assert(rest[i] == list[i + 1]);
            }
            assert(is_first_with_id(rest, id, k - 1));
        }
        if forall|i: int| 0 <= i < list.len() ==> (#[trigger] list[i]).id != Some(id) {
            assert forall|i: int| 0 <= i < rest.len() implies (#[trigger] rest[i]).id != Some(id) by {
                assert(rest[i] == list[i + 1]);
            }
        }
    } else if list.len() > 0 && is_first_with_id(list, id, k) {
        if k > 0 {
            assert(list[0].id != Some(id));
        }
    } else if list.len() > 0 {
        assert(list[0].id == Some(id));
    }
}

/// A lease goes by its hardware address in small letters; by its client id where it has none; and by a dash
/// where it has neither.
pub proof fn law_lease_is_named(l: LeaseView)
    ensures
        l.hwaddr is Some ==> id_text(l) == escaped(lowercase(l.hwaddr->0)),
        l.hwaddr is None && l.client_id is Some ==> id_text(l) == escaped(l.client_id->0),
        l.hwaddr is None && l.client_id is None ==> has_text(id_text(l), "—"@),
{
    reveal_strlit(r#"<span class="dim">—</span>"#);
    reveal_strlit("—");
    reveal_strlit(r#"<span class="dim">"#);
    reveal_strlit("</span>");
    let dash = r#"<span class="dim">—</span>"#@;
    law_found_within(dash, "—"@);
    assert(dash =~= r#"<span class="dim">"#@ + "—"@ + "</span>"@);
}

/// The hardware address of a lease, as it is compared with those of the reservations.
pub open spec fn is_held(root: Json, l: LeaseView) -> bool {
    l.hwaddr is Some && is_reserved_anywhere(root, lowercase(l.hwaddr->0))
}

/// A lease has the badge exactly where some reservation of some subnet of the configuration has its hardware
/// address, in small letters and with colons.
pub proof fn law_badge_is_for_reserved_leases(root: Json, l: LeaseView)
    ensures
        ({
            let badge = badge_text(l, hwaddrs_of(elements(subnets(root))));
            &&& is_held(root, l) ==> badge == r#"<span class="badge">保留</span>"#@
            &&& !is_held(root, l) ==> badge.len() == 0
        }),
{
    reveal_strlit("");
    if l.hwaddr is Some {
        law_hardware_addresses_are_listed(root, lowercase(l.hwaddr->0));
    }
}

/// The row of a lease shows its address, what it goes by, its hostname, the network of its subnet, its state,
/// how long it was given for, and how long it has left; the badge stands in the last column.
pub proof fn law_row_shows_its_lease(l: LeaseView, list: Seq<SummaryView>, hwaddrs: Seq<Seq<char>>, now: u64)
    ensures
        ({
            let row = lease_row(l, list, hwaddrs, now);
            let host = match l.hostname {
                Some(h) => h,
                None => Seq::empty(),
            };
            let end = "<td>"@ + badge_text(l, hwaddrs) + r#"</td>
</tr>"#@;
            &&& has_text(
                row,
                escaped(ip_text(l.address)) + "</td><td>"@ + id_text(l) + "</td><td>"@ + escaped(host) + "</td><td>"@
                    + escaped(cidr_of(list, l.subnet_id)) + "</td><td>"@ + row_label(l, now) + "</td>"@,
            )
            &&& has_text(row, "租用期 "@ + dec(l.valid_lifetime as nat) + " 秒"@)
            &&& now < l.expire ==> has_text(row, ">"@ + remaining(l.expire, now)->0 + "</td>"@)
            &&& now >= l.expire ==> has_text(row, ">已過期</td>"@)
            &&& row.len() >= end.len()
            &&& row.skip(row.len() - end.len()) == end
        }),
{
    let row = lease_row(l, list, hwaddrs, now);
    let left = remain_text(l, now);
    let end = "<td>"@ + badge_text(l, hwaddrs) + r#"</td>
</tr>"#@;
    lemma_lease_cells(l, list, hwaddrs, now);
    lemma_lease_row_ends(lease_head(l, list, now) + left, "<td>"@, badge_text(l, hwaddrs), r#"</td>
</tr>"#@);
    lemma_time_in_row(l, list, hwaddrs, now);
    lemma_time_told(l, now);
    lemma_in_part(row, left, "租用期 "@ + dec(l.valid_lifetime as nat) + " 秒"@);
    if now < l.expire {
        lemma_in_part(row, left, ">"@ + remaining(l.expire, now)->0 + "</td>"@);
    } else {
        lemma_in_part(row, left, ">已過期</td>"@);
    }
}

/// The row of a lease up to its state.
spec fn lease_head(l: LeaseView, list: Seq<SummaryView>, now: u64) -> Seq<char> {
    r#"<tr>
<td>"#@ + escaped(ip_text(l.address)) + "</td><td>"@ + id_text(l) + "</td><td>"@ + escaped(text_or_empty(l.hostname))
        + "</td><td>"@ + escaped(cidr_of(list, l.subnet_id)) + "</td><td>"@ + row_label(l, now) + "</td>"@
}

proof fn lemma_lease_row_ends(head: Seq<char>, a: Seq<char>, b: Seq<char>, c: Seq<char>)
    ensures
        ({
            let (row, end) = (head + a + b + c, a + b + c);
            row.len() >= end.len() && row.skip(row.len() - end.len()) == end
        }),
{
    let (row, end) = (head + a + b + c, a + b + c);
    assert(row.skip(row.len() - end.len()) =~= end);
}

proof fn lemma_time_in_row(l: LeaseView, list: Seq<SummaryView>, hwaddrs: Seq<Seq<char>>, now: u64)
    ensures
        has_text(lease_row(l, list, hwaddrs, now), remain_text(l, now)),
{
    lemma_in_longer(remain_text(l, now));
}

proof fn lemma_lease_cells(l: LeaseView, list: Seq<SummaryView>, hwaddrs: Seq<Seq<char>>, now: u64)
    ensures
        has_text(
            lease_row(l, list, hwaddrs, now),
            escaped(ip_text(l.address)) + "</td><td>"@ + id_text(l) + "</td><td>"@ + escaped(text_or_empty(l.hostname))
                + "</td><td>"@ + escaped(cidr_of(list, l.subnet_id)) + "</td><td>"@ + row_label(l, now) + "</td>"@,
        ),
{
    let (a, b, c) = (escaped(ip_text(l.address)), id_text(l), escaped(text_or_empty(l.hostname)));
    let (d, e) = (escaped(cidr_of(list, l.subnet_id)), row_label(l, now));
    let cells = a + "</td><td>"@ + b + "</td><td>"@ + c + "</td><td>"@ + d + "</td><td>"@ + e + "</td>"@;
    lemma_ten(r#"<tr>
<td>"#@, a, "</td><td>"@, b, c, d, e, "</td>"@);
    assert(has_text(lease_head(l, list, now), cells));
    lemma_in_longer(cells);
}

proof fn lemma_ten(
    l: Seq<char>,
    a: Seq<char>,
    t: Seq<char>,
    b: Seq<char>,
    c: Seq<char>,
    d: Seq<char>,
    e: Seq<char>,
    z: Seq<char>,
)
    ensures
        has_text(l + a + t + b + t + c + t + d + t + e + z, a + t + b + t + c + t + d + t + e + z),
{
    let whole = l + a + t + b + t + c + t + d + t + e + z;
    let part = a + t + b + t + c + t + d + t + e + z;
    let n = l.len() as int;
    assert(whole.subrange(n, n + part.len()) =~= part);
    assert(stands_at(whole, part, n));
}

proof fn lemma_time_told(l: LeaseView, now: u64)
    ensures
        has_text(remain_text(l, now), "租用期 "@ + dec(l.valid_lifetime as nat) + " 秒"@),
        now < l.expire ==> has_text(remain_text(l, now), ">"@ + remaining(l.expire, now)->0 + "</td>"@),
        now >= l.expire ==> has_text(remain_text(l, now), ">已過期</td>"@),
{
    let text = remain_text(l, now);
    let n = dec(l.valid_lifetime as nat);
    let left = if now < l.expire {
        remaining(l.expire, now)->0
    } else {
        "已過期"@
    };
    reveal_strlit(r#"<td title="租用期 "#);
    reveal_strlit(r#"<td title=""#);
    reveal_strlit("租用期 ");
    reveal_strlit(r#" 秒">"#);
    reveal_strlit(" 秒");
    reveal_strlit(r#"">"#);
    reveal_strlit(r#" 秒""#);
    reveal_strlit(">");
    reveal_strlit("</td>");
    reveal_strlit("已過期");
    reveal_strlit(">已過期</td>");
    assert(r#"<td title="租用期 "#@ =~= r#"<td title=""#@ + "租用期 "@);
    assert(r#" 秒">"#@ =~= " 秒"@ + r#"">"#@);
    assert(r#" 秒">"#@ =~= r#" 秒""#@ + ">"@);
    let given = "租用期 "@ + n + " 秒"@;
    law_found_within(text, given);
    assert(text =~= r#"<td title=""#@ + given + (r#"">"#@ + left + "</td>"@));
    let rest = ">"@ + left + "</td>"@;
    law_found_within(text, rest);
    assert(text =~= (r#"<td title="租用期 "#@ + n + r#" 秒""#@) + rest + Seq::<char>::empty());
    assert(">已過期</td>"@ =~= ">"@ + "已過期"@ + "</td>"@);
}

/// The rows of some leases are those of the first of them and then those of the rest.
pub proof fn law_lease_rows_follow_each_other(
    list: Seq<LeaseView>,
    a: Seq<usize>,
    p: usize,
    b: Seq<usize>,
    s: Seq<SummaryView>,
    hwaddrs: Seq<Seq<char>>,
    now: u64,
)
    ensures
        lease_rows(list, a + seq![p] + b, s, hwaddrs, now) == lease_rows(list, a, s, hwaddrs, now) + lease_row(
            list[p as int],
            s,
            hwaddrs,
            now,
        ) + lease_rows(list, b, s, hwaddrs, now),
        lease_rows(list, Seq::empty(), s, hwaddrs, now).len() == 0,
    decreases b.len(),
{
    let whole = a + seq![p] + b;
    let first = lease_rows(list, a, s, hwaddrs, now) + lease_row(list[p as int], s, hwaddrs, now);
    if b.len() == 0 {
        assert(whole.drop_last() =~= a);
        lemma_nothing_more(first, lease_rows(list, b, s, hwaddrs, now));
    } else {
        assert(whole.drop_last() =~= a + seq![p] + b.drop_last());
        law_lease_rows_follow_each_other(list, a, p, b.drop_last(), s, hwaddrs, now);
        lemma_one_more(
            first,
            lease_rows(list, b.drop_last(), s, hwaddrs, now),
            lease_row(list[b.last() as int], s, hwaddrs, now),
        );
    }
}

/// Whether the page that is asked for is the one with a given row of those shown.
pub open spec fn is_lease_asked_for(q: LeasesQueryView, i: int) -> bool {
    let page: int = match q.page {
        Some(p) => p as int,
        None => 0,
    };
    50 * page <= i < 50 * page + 50
}

/// The leases are those of the file that the configuration declares; there are none, and the page says why,
/// where it declares no such file, where the file is not there, and where it cannot be read.
pub proof fn law_leases_come_from_the_file(db: LeaseDbView, text: Option<Seq<char>>)
    ensures
        db is Memfile && text is Some && leases_of(text->0) is Ok ==> lease_source(db, text).0 == leases_of(text->0)->Ok_0
            && lease_source(db, text).1.len() == 0,
        !(db is Memfile && text is Some && leases_of(text->0) is Ok) ==> lease_source(db, text).0.len() == 0 && lease_source(
            db,
            text,
        ).1.len() > 0,
        db is Unavailable ==> has_text(lease_source(db, text).1, escaped(db->Unavailable_0)),
        db is Memfile && text is None ==> has_text(lease_source(db, text).1, escaped(db->Memfile_0)),
        db is Memfile && text is Some && leases_of(text->0) is Err ==> has_text(
            lease_source(db, text).1,
            escaped(leases_of(text->0)->Err_0),
        ),
{
    reveal_strlit(r#"<p class="warn">"#);
    reveal_strlit(r#"<p class="warn">租用檔無法解析："#);
    reveal_strlit(r#"<p class="warn">租用檔不存在："#);
    match db {
        LeaseDbView::Unavailable(msg) => {
            law_found_within(lease_source(db, text).1, escaped(msg));
        },
        LeaseDbView::Memfile(path) => match text {
            None => {
                law_found_within(lease_source(db, text).1, escaped(path));
            },
            Some(t) => {
                if leases_of(t) is Err {
                    law_found_within(lease_source(db, text).1, escaped(leases_of(t)->Err_0));
                }
            },
        },
    }
}

/// Every lease that is shown has its row on the page: on the one page of a search, and otherwise on that of
/// the fifty rows among which it comes. In the last column of the row stands the badge where some reservation
/// of the configuration has the lease's hardware address, and nothing where none has. The page tells how
/// many leases there are, and what is wrong with their file.
pub proof fn law_shown_lease_is_on_the_page(
    s: StateView,
    q: LeasesQueryView,
    refresh: Refresh,
    text: Option<Seq<char>>,
    now: u64,
    i: int,
)
    requires
        ({
            let list = lease_source(lease_db_of(s.file), text).0;
            &&& list.len() <= usize::MAX
            &&& 0 <= i < shown_leases(list, q, now).len()
        }),
        needle_of(q.q).len() == 0 ==> is_lease_asked_for(q, i),
    ensures
        ({
            let list = lease_source(lease_db_of(s.file), text).0;
            let shown = shown_leases(list, q, now);
            let l = list[shown[i] as int];
            let page = rendered_leases(s, q, refresh, text, Ok(now));
            let hwaddrs = hwaddrs_of(elements(subnets(s.file)));
            &&& page is Ok
            &&& has_text(page->Ok_0, lease_row(l, summaries_of(s.file), hwaddrs, now))
            &&& is_held(s.file, l) ==> badge_text(l, hwaddrs) == r#"<span class="badge">保留</span>"#@
            &&& !is_held(s.file, l) ==> badge_text(l, hwaddrs).len() == 0
        }),
{
    let source = lease_source(lease_db_of(s.file), text);
    let list = source.0;
    let shown = shown_leases(list, q, now);
    let needle = needle_of(q.q);
    let w = window_of(shown.len(), q.page, needle.len() > 0);
    let subs = summaries_of(s.file);
    let hwaddrs = hwaddrs_of(elements(subnets(s.file)));
    law_fifty_rows_on_a_page(shown.len(), if q.page is Some {
        q.page->0 as nat
    } else {
        0
    }, i as nat);
    assert(w.2 <= i < w.3 <= shown.len());
    let places = shown.subrange(w.2 as int, w.3 as int);
    let k = i - w.2;
    let p = shown[i];
    assert(places[k] == p);
    let row = lease_row(list[p as int], subs, hwaddrs, now);
    lemma_lease_row_among(list, places, subs, hwaddrs, now, k);
    lemma_rows_in_panel(source, subs, hwaddrs, q, now, row);
    lemma_panel_on_page(s, q, refresh, text, now, row);
    law_badge_is_for_reserved_leases(s.file, list[p as int]);
}

/// The row of every lease stands in the table.
proof fn lemma_lease_row_among(
    list: Seq<LeaseView>,
    places: Seq<usize>,
    subs: Seq<SummaryView>,
    hwaddrs: Seq<Seq<char>>,
    now: u64,
    k: int,
)
    requires
        0 <= k < places.len(),
    ensures
        has_text(
            lease_table(list, places, subs, hwaddrs, now),
            lease_row(list[places[k] as int], subs, hwaddrs, now),
        ),
{
    let p = places[k];
    assert(places =~= places.take(k) + seq![p] + places.skip(k + 1));
    law_lease_rows_follow_each_other(list, places.take(k), p, places.skip(k + 1), subs, hwaddrs, now);
    law_found_within(
        lease_rows(list, places, subs, hwaddrs, now),
        lease_row(list[p as int], subs, hwaddrs, now),
    );
}

proof fn lemma_panel_on_page(
    s: StateView,
    q: LeasesQueryView,
    refresh: Refresh,
    text: Option<Seq<char>>,
    now: u64,
    part: Seq<char>,
)
    requires
        has_text(
            lease_panel(
                lease_source(lease_db_of(s.file), text),
                summaries_of(s.file),
                hwaddrs_of(elements(subnets(s.file))),
                q,
                now,
            ),
            part,
        ),
    ensures
        rendered_leases(s, q, refresh, text, Ok(now)) is Ok,
        has_text(rendered_leases(s, q, refresh, text, Ok(now))->Ok_0, part),
{
    lemma_in_longer(part);
}

proof fn lemma_rows_in_panel(
    source: (Seq<LeaseView>, Seq<char>),
    subs: Seq<SummaryView>,
    hwaddrs: Seq<Seq<char>>,
    q: LeasesQueryView,
    now: u64,
    row: Seq<char>,
)
    requires
        ({
            let shown = shown_leases(source.0, q, now);
            let w = window_of(shown.len(), q.page, needle_of(q.q).len() > 0);
            has_text(lease_table(source.0, shown.subrange(w.2 as int, w.3 as int), subs, hwaddrs, now), row)
        }),
    ensures
        has_text(lease_panel(source, subs, hwaddrs, q, now), row),
{
    lemma_in_longer(row);
}

/// The page of the leases tells what is wrong with their file.
pub proof fn law_page_tells_of_the_lease_file(
    s: StateView,
    q: LeasesQueryView,
    refresh: Refresh,
    text: Option<Seq<char>>,
    now: u64,
)
    ensures
        rendered_leases(s, q, refresh, text, Ok(now)) is Ok,
        has_text(rendered_leases(s, q, refresh, text, Ok(now))->Ok_0, lease_source(lease_db_of(s.file), text).1),
{
    let source = lease_source(lease_db_of(s.file), text);
    let subs = summaries_of(s.file);
    let hwaddrs = hwaddrs_of(elements(subnets(s.file)));
    lemma_note_in_panel(source, subs, hwaddrs, q, now);
    lemma_panel_on_page(s, q, refresh, text, now, source.1);
}

proof fn lemma_note_in_panel(
    source: (Seq<LeaseView>, Seq<char>),
    subs: Seq<SummaryView>,
    hwaddrs: Seq<Seq<char>>,
    q: LeasesQueryView,
    now: u64,
)
    ensures
        has_text(lease_panel(source, subs, hwaddrs, q, now), source.1),
{
    lemma_in_longer(source.1);
}

/// Leases whose values are the same stay in the order of the file, in either direction.
pub proof fn law_equal_leases_stay_in_order(list: Seq<LeaseView>, q: LeasesQueryView, now: u64, sort: Seq<char>, i: int, j: int)
    requires
        list.len() <= 0x1_0000_0000,
        list.len() <= usize::MAX,
        q.sort == Some(sort),
        sort == "address"@ || sort == "hwaddr"@ || sort == "hostname"@,
        0 <= i < j < shown_leases(list, q, now).len(),
    ensures
        ({
            let shown = shown_leases(list, q, now);
            let (x, y) = (list[shown[i] as int], list[shown[j] as int]);
            let (v, w) = (column(x, sort), column(y, sort));
            &&& sort == "address"@ && x.address == y.address ==> shown[i] < shown[j]
            &&& sort != "address"@ && v is None && w is None ==> shown[i] < shown[j]
            &&& sort != "address"@ && v is Some && w is Some && lowercase(v->0) == lowercase(w->0) ==> shown[i] < shown[j]
        }),
{
    let shown = shown_leases(list, q, now);
    let (x, y) = (list[shown[i] as int], list[shown[j] as int]);
    let desc = is_desc(q.dir);
    let (m, n) = (shown[i] as nat, shown[j] as nat);
    let a = lease_key(x, sort, desc, m);
    let b = lease_key(y, sort, desc, n);
    lemma_lease_fields();
    law_shown_leases_ascend(list, q, now, i, j);
    lemma_lex_total(a, b);
    law_shown_are_the_wanted(list, q, now);
    assert(shown.contains(shown[i]) && shown.contains(shown[j]));
    assert(m != n);
    if n < m {
        law_place_decides(true, be(x.address as nat, 4), desc, n, m);
        law_place_decides(false, Seq::empty(), desc, n, m);
        if column(x, sort) is Some {
            law_place_decides(true, encode_utf8(lowercase(column(x, sort)->0)), desc, n, m);
        }
    }
}

/// The page of the leases tells how many there are, has the head of each column, the states and the subnets
/// to choose from, what is searched for, and the way to the same page again.
pub proof fn law_lease_page_holds_its_parts(
    s: StateView,
    q: LeasesQueryView,
    refresh: Refresh,
    text: Option<Seq<char>>,
    now: u64,
)
    ensures
        ({
            let page = rendered_leases(s, q, refresh, text, Ok(now))->Ok_0;
            let shown = shown_leases(lease_source(lease_db_of(s.file), text).0, q, now);
            let state = match q.state {
                Some(t) => t,
                None => Seq::empty(),
            };
            &&& has_text(page, dec(shown.len()) + " 筆符合"@)
            &&& has_text(page, leases_th_text("address"@, "address"@, q))
            &&& has_text(page, leases_th_text("hwaddr"@, "hwaddr"@, q))
            &&& has_text(page, leases_th_text("hostname"@, "hostname"@, q))
            &&& has_text(page, state_options(state))
            &&& has_text(page, subnet_options(summaries_of(s.file), chosen_subnet(q.subnet)))
            &&& has_text(page, escaped(needle_of(q.q)))
            &&& has_text(page, escaped(leases_url(q, None)))
        }),
{
    let source = lease_source(lease_db_of(s.file), text);
    let subs = summaries_of(s.file);
    let hwaddrs = hwaddrs_of(elements(subnets(s.file)));
    lemma_lease_count(source, subs, hwaddrs, q, now);
    lemma_panel_on_page(s, q, refresh, text, now, dec(shown_leases(source.0, q, now).len()) + " 筆符合"@);
    lemma_head_in_panel(source, subs, hwaddrs, q, now, leases_th_text("address"@, "address"@, q));
    lemma_panel_on_page(s, q, refresh, text, now, leases_th_text("address"@, "address"@, q));
    lemma_head_in_panel(source, subs, hwaddrs, q, now, leases_th_text("hwaddr"@, "hwaddr"@, q));
    lemma_panel_on_page(s, q, refresh, text, now, leases_th_text("hwaddr"@, "hwaddr"@, q));
    lemma_head_in_panel(source, subs, hwaddrs, q, now, leases_th_text("hostname"@, "hostname"@, q));
    lemma_panel_on_page(s, q, refresh, text, now, leases_th_text("hostname"@, "hostname"@, q));
    lemma_choices_in_panel(source, subs, hwaddrs, q, now);
    lemma_panel_on_page(s, q, refresh, text, now, state_options(text_or_empty(q.state)));
    lemma_panel_on_page(s, q, refresh, text, now, subnet_options(subs, chosen_subnet(q.subnet)));
    lemma_panel_on_page(s, q, refresh, text, now, escaped(needle_of(q.q)));
    lemma_panel_on_page(s, q, refresh, text, now, escaped(leases_url(q, None)));
}

proof fn lemma_choices_in_panel(
    source: (Seq<LeaseView>, Seq<char>),
    subs: Seq<SummaryView>,
    hwaddrs: Seq<Seq<char>>,
    q: LeasesQueryView,
    now: u64,
)
    ensures
        has_text(lease_panel(source, subs, hwaddrs, q, now), state_options(text_or_empty(q.state))),
        has_text(lease_panel(source, subs, hwaddrs, q, now), subnet_options(subs, chosen_subnet(q.subnet))),
        has_text(lease_panel(source, subs, hwaddrs, q, now), escaped(needle_of(q.q))),
        has_text(lease_panel(source, subs, hwaddrs, q, now), escaped(leases_url(q, None))),
{
    assert(has_text(lease_panel(source, subs, hwaddrs, q, now), state_options(text_or_empty(q.state)))) by {
        lemma_in_longer(state_options(text_or_empty(q.state)));
    }
    assert(has_text(lease_panel(source, subs, hwaddrs, q, now), subnet_options(subs, chosen_subnet(q.subnet)))) by {
        lemma_in_longer(subnet_options(subs, chosen_subnet(q.subnet)));
    }
    assert(has_text(lease_panel(source, subs, hwaddrs, q, now), escaped(needle_of(q.q)))) by {
        lemma_in_longer(escaped(needle_of(q.q)));
    }
    assert(has_text(lease_panel(source, subs, hwaddrs, q, now), escaped(leases_url(q, None)))) by {
        lemma_in_longer(escaped(leases_url(q, None)));
    }
}

proof fn lemma_head_in_panel(
    source: (Seq<LeaseView>, Seq<char>),
    subs: Seq<SummaryView>,
    hwaddrs: Seq<Seq<char>>,
    q: LeasesQueryView,
    now: u64,
    head: Seq<char>,
)
    requires
        head == leases_th_text("address"@, "address"@, q) || head == leases_th_text("hwaddr"@, "hwaddr"@, q) || head
            == leases_th_text("hostname"@, "hostname"@, q),
    ensures
        has_text(lease_panel(source, subs, hwaddrs, q, now), head),
{
    lemma_in_longer(head);
    assert(has_text(lease_heads(q), head));
}

proof fn lemma_lease_count(
    source: (Seq<LeaseView>, Seq<char>),
    subs: Seq<SummaryView>,
    hwaddrs: Seq<Seq<char>>,
    q: LeasesQueryView,
    now: u64,
)
    ensures
        has_text(
            lease_panel(source, subs, hwaddrs, q, now),
            dec(shown_leases(source.0, q, now).len()) + " 筆符合"@,
        ),
{
    let n = dec(shown_leases(source.0, q, now).len());
    let l = " 筆符合"@;
    assert forall|x: Seq<char>| #[trigger] (x + n + l) == x + (n + l) by {
        lemma_one_more(x, n, l);
    }
    lemma_in_longer(n + l);
}

} // verus!
