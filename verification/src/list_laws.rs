//! What the page of a subnet shows, whatever is searched for and however it is sorted.
use vstd::prelude::*;
use vstd::string::*;
use vstd::utf8::encode_utf8;

use crate::addr::ip_text;
use crate::domain::{ReservationView, SubnetView};
use crate::file::{socket_of, subnet_of, summaries_of, SocketView, SummaryView};
use crate::html::{escaped, primary_if, sort_vals_text, window_of};
use crate::list::{
    apply_button, bar_text, dialog_item, dialog_items, dialog_text, finder, finds, found_places, heads_text,
    law_address_order_is_numeric, law_apply_is_off_without_socket, law_no_hostname_comes_last, law_place_decides,
    law_shown_are_the_found, law_shown_ascend, lemma_field_names, lemma_hostname_order, lemma_hw_order, list_body,
    list_text, match_text, needle_of, padded_ip, pages_text, panel_text, pending_text, rendered_list, reservation_key,
    row_text, rows_text, shown_places, sort_field_of, warn_text,
};
use crate::number::dec;
use crate::order::{lemma_lex_total, lemma_places_where, lex_lt, places_where};
use crate::query::{is_desc, th_text, ListQueryView};
use crate::state::{Refresh, StateView};
use crate::text::{has_text, lowercase, stands_at, trimmed};
use crate::text_laws::{law_found_within, law_trimming_takes_white_space, stands_within};

verus! {

/// Whether a string of bytes comes before another: where they first differ it has the smaller byte, or the
/// other goes on where it ends.
pub open spec fn comes_first(a: Seq<u8>, b: Seq<u8>) -> bool {
    exists|k: int| #[trigger] parts_at(a, b, k)
}

/// Whether two strings of bytes are the same up to a place, and the first has ended there or has the
/// smaller byte there.
pub open spec fn parts_at(a: Seq<u8>, b: Seq<u8>, k: int) -> bool {
    &&& 0 <= k <= a.len()
    &&& k < b.len()
    &&& forall|i: int| 0 <= i < k ==> a[i] == b[i]
    &&& k == a.len() || a[k] < b[k]
}

/// The order of rows goes by the first byte in which their keys differ.
pub proof fn law_first_difference_decides(a: Seq<u8>, b: Seq<u8>)
    ensures
        lex_lt(a, b) <==> comes_first(a, b),
    decreases a.len(),
{
    if a.len() == 0 || b.len() == 0 {
        if b.len() > 0 {
            assert(parts_at(a, b, 0));
        }
    } else if a[0] != b[0] {
        if a[0] < b[0] {
            assert(parts_at(a, b, 0));
        }
    } else {
        let (x, y) = (a.drop_first(), b.drop_first());
        law_first_difference_decides(x, y);
        if comes_first(x, y) {
            let k = choose|k: int| #[trigger] parts_at(x, y, k);
            assert forall|i: int| 0 <= i < k + 1 implies a[i] == b[i] by {
                if i > 0 {
                    assert(x[i - 1] == y[i - 1]);
                }
            }
            assert(parts_at(a, b, k + 1));
        }
        if comes_first(a, b) {
            let k = choose|k: int| #[trigger] parts_at(a, b, k);
            assert(parts_at(x, y, k - 1));
        }
    }
}

/// Whether what is searched for stands in one of the three texts of a reservation.
pub open spec fn stands_in(t: Seq<char>, r: ReservationView) -> bool {
    ||| has_text(ip_text(r.ip), t)
    ||| has_text(lowercase(r.hw), t)
    ||| has_text(lowercase(name_of(r)), t)
}

/// The hostname of a reservation; nothing where it has none.
pub open spec fn name_of(r: ReservationView) -> Seq<char> {
    match r.hostname {
        Some(h) => h,
        None => Seq::empty(),
    }
}

/// Says of a reservation whether a text stands in one of its three texts.
pub open spec fn holds_text(t: Seq<char>) -> spec_fn(ReservationView) -> bool {
    |r: ReservationView| stands_in(t, r)
}

/// A text of nothing stands in every text.
proof fn lemma_nothing_stands(whole: Seq<char>, t: Seq<char>)
    ensures
        t.len() == 0 ==> has_text(whole, t),
{
    if t.len() == 0 {
        assert(whole.subrange(0, 0) =~= t);
        assert(stands_at(whole, t, 0));
    }
}

/// What a search finds, in words of the three texts alone.
proof fn lemma_search(t: Seq<char>, r: ReservationView)
    ensures
        finds(t, r) == stands_in(t, r),
{
    lemma_nothing_stands(ip_text(r.ip), t);
}

/// A reservation is among the rows shown whenever what is searched for stands in the text of its IP address,
/// and whenever it stands in its hardware address in small letters, and whenever it stands in its hostname
/// in small letters; and no other reservation is. Every row is shown once, and as many are shown as
/// there are such reservations.
pub proof fn law_search_shows_what_it_finds(
    list: Seq<ReservationView>,
    t: Seq<char>,
    sort: Option<Seq<char>>,
    desc: bool,
    p: usize,
)
    requires
        list.len() <= usize::MAX,
        p < list.len(),
    ensures
        has_text(ip_text(list[p as int].ip), t) ==> shown_places(list, t, sort, desc).contains(p),
        has_text(lowercase(list[p as int].hw), t) ==> shown_places(list, t, sort, desc).contains(p),
        list[p as int].hostname is Some && has_text(lowercase(list[p as int].hostname->0), t) ==> shown_places(
            list,
            t,
            sort,
            desc,
        ).contains(p),
        shown_places(list, t, sort, desc).contains(p) ==> stands_in(t, list[p as int]),
        t.len() == 0 ==> shown_places(list, t, sort, desc).contains(p),
        shown_places(list, t, sort, desc).no_duplicates(),
        shown_places(list, t, sort, desc).len() == list.filter(holds_text(t)).len(),
{
    law_shown_are_the_found(list, t, sort, desc);
    assert(shown_places(list, t, sort, desc).contains(p) <==> finds(t, list[p as int]));
    lemma_search(t, list[p as int]);
    lemma_found_counted(list, t);
}

proof fn lemma_found_counted(list: Seq<ReservationView>, t: Seq<char>)
    ensures
        found_places(list, t).len() == list.filter(holds_text(t)).len(),
    decreases list.len(),
{
    if list.len() == 0 {
        reveal(Seq::filter);
    } else {
        let front = list.drop_last();
        lemma_found_counted(front, t);
        lemma_search(t, list.last());
        assert(list =~= front.push(list.last()));
        front.lemma_filter_len_push(holds_text(t), list.last());
    }
}

/// What is searched for is what was typed, without the white space around it and in small letters; nothing
/// typed counts as an empty text.
pub proof fn law_search_is_what_was_typed(text: Seq<char>, a: Seq<char>, t: Seq<char>, b: Seq<char>)
    requires
        stands_within(text, a, t, b),
    ensures
        needle_of(Some(text)) == lowercase(t),
        needle_of(None) == lowercase(Seq::empty()),
{
    law_trimming_takes_white_space(a, t, b);
    assert(trimmed(Seq::<char>::empty()) =~= Seq::<char>::empty());
}

/// Sorted by IP address, the smaller address comes first, or last where the order is descending; rows of one
/// address stay in the order of the file.
pub proof fn law_sorted_by_address(list: Seq<ReservationView>, t: Seq<char>, desc: bool, i: int, j: int)
    requires
        list.len() <= usize::MAX,
        0 <= i < j < shown_places(list, t, Some("ip-address"@), desc).len(),
    ensures
        ({
            let shown = shown_places(list, t, Some("ip-address"@), desc);
            let (x, y) = (list[shown[i] as int], list[shown[j] as int]);
            &&& !desc ==> x.ip <= y.ip
            &&& desc ==> x.ip >= y.ip
            &&& x.ip == y.ip && list.len() <= 0x1_0000_0000 ==> shown[i] < shown[j]
        }),
{
    let sort = "ip-address"@;
    let shown = shown_places(list, t, Some(sort), desc);
    let (x, y) = (list[shown[i] as int], list[shown[j] as int]);
    let a = reservation_key(x, sort, desc, shown[i] as nat);
    let b = reservation_key(y, sort, desc, shown[j] as nat);
    law_shown_ascend(list, t, sort, desc, i, j);
    lemma_lex_total(a, b);
    if x.ip > y.ip {
        law_address_order_is_numeric(y, x, shown[j] as nat, shown[i] as nat);
    }
    if x.ip < y.ip {
        law_address_order_is_numeric(x, y, shown[i] as nat, shown[j] as nat);
    }
    if x.ip == y.ip && list.len() <= 0x1_0000_0000 {
        lemma_shown_places(list, t, Some(sort), desc, i, j);
        if shown[j] < shown[i] {
            law_place_decides(true, encode_utf8(padded_ip(x.ip)), desc, shown[j] as nat, shown[i] as nat);
        }
    }
}

/// What is shown are different places of the list.
proof fn lemma_shown_places(
    list: Seq<ReservationView>,
    t: Seq<char>,
    sort: Option<Seq<char>>,
    desc: bool,
    i: int,
    j: int,
)
    requires
        list.len() <= usize::MAX,
        0 <= i < j < shown_places(list, t, sort, desc).len(),
    ensures
        shown_places(list, t, sort, desc)[i] < list.len(),
        shown_places(list, t, sort, desc)[j] < list.len(),
        shown_places(list, t, sort, desc)[i] != shown_places(list, t, sort, desc)[j],
{
    let shown = shown_places(list, t, sort, desc);
    law_shown_are_the_found(list, t, sort, desc);
    assert(shown.contains(shown[i]) && shown.contains(shown[j]));
}

/// Whether a text comes before another, by the bytes of their small letters.
pub open spec fn text_first(a: Seq<char>, b: Seq<char>) -> bool {
    comes_first(encode_utf8(lowercase(a)), encode_utf8(lowercase(b)))
}

/// Sorted by hardware address, no row comes before one whose address in small letters is smaller, or greater
/// where the order is descending.
pub proof fn law_sorted_by_hardware_address(list: Seq<ReservationView>, t: Seq<char>, desc: bool, i: int, j: int)
    requires
        list.len() <= usize::MAX,
        0 <= i < j < shown_places(list, t, Some("hw-address"@), desc).len(),
    ensures
        ({
            let shown = shown_places(list, t, Some("hw-address"@), desc);
            let (x, y) = (list[shown[i] as int].hw, list[shown[j] as int].hw);
            &&& !desc && !lowercase(x).contains('\0') ==> !text_first(y, x)
            &&& desc && !lowercase(y).contains('\0') ==> !text_first(x, y)
        }),
{
    let sort = "hw-address"@;
    let shown = shown_places(list, t, Some(sort), desc);
    let (x, y) = (list[shown[i] as int], list[shown[j] as int]);
    let a = reservation_key(x, sort, desc, shown[i] as nat);
    let b = reservation_key(y, sort, desc, shown[j] as nat);
    law_shown_ascend(list, t, sort, desc, i, j);
    lemma_lex_total(a, b);
    law_first_difference_decides(encode_utf8(lowercase(x.hw)), encode_utf8(lowercase(y.hw)));
    law_first_difference_decides(encode_utf8(lowercase(y.hw)), encode_utf8(lowercase(x.hw)));
    if !desc && !lowercase(x.hw).contains('\0') && text_first(y.hw, x.hw) {
        lemma_hw_order(y, x, shown[j] as nat, shown[i] as nat);
    }
    if desc && !lowercase(y.hw).contains('\0') && text_first(x.hw, y.hw) {
        lemma_hw_order(x, y, shown[i] as nat, shown[j] as nat);
    }
}

/// Sorted by hostname, rows without one come last in either direction; of two rows with one, none comes
/// before one whose hostname in small letters is smaller, or greater where the order is descending.
pub proof fn law_sorted_by_hostname(list: Seq<ReservationView>, t: Seq<char>, desc: bool, i: int, j: int)
    requires
        list.len() <= usize::MAX,
        0 <= i < j < shown_places(list, t, Some("hostname"@), desc).len(),
    ensures
        ({
            let shown = shown_places(list, t, Some("hostname"@), desc);
            let (x, y) = (list[shown[i] as int].hostname, list[shown[j] as int].hostname);
            &&& y is Some ==> x is Some
            &&& y is Some && !desc && !lowercase(x->0).contains('\0') ==> !text_first(y->0, x->0)
            &&& y is Some && desc && !lowercase(y->0).contains('\0') ==> !text_first(x->0, y->0)
        }),
{
    let sort = "hostname"@;
    let shown = shown_places(list, t, Some(sort), desc);
    let (x, y) = (list[shown[i] as int], list[shown[j] as int]);
    let a = reservation_key(x, sort, desc, shown[i] as nat);
    let b = reservation_key(y, sort, desc, shown[j] as nat);
    law_shown_ascend(list, t, sort, desc, i, j);
    lemma_lex_total(a, b);
    if y.hostname is Some {
        if x.hostname is None {
            law_no_hostname_comes_last(y, x, desc, shown[j] as nat, shown[i] as nat);
        }
        let (m, n) = (encode_utf8(lowercase(x.hostname->0)), encode_utf8(lowercase(y.hostname->0)));
        law_first_difference_decides(m, n);
        law_first_difference_decides(n, m);
        if !desc && !lowercase(x.hostname->0).contains('\0') && text_first(y.hostname->0, x.hostname->0) {
            lemma_hostname_order(y, x, shown[j] as nat, shown[i] as nat);
        }
        if desc && !lowercase(y.hostname->0).contains('\0') && text_first(x.hostname->0, y.hostname->0) {
            lemma_hostname_order(x, y, shown[i] as nat, shown[j] as nat);
        }
    }
}

/// Without a column to sort by, the rows stand in the order of the file. Only the three columns can be sorted
/// by, and only one word asks for the other direction.
pub proof fn law_unsorted_as_in_the_file(list: Seq<ReservationView>, t: Seq<char>, desc: bool, name: Seq<char>, i: int, j: int)
    requires
        list.len() <= usize::MAX,
        0 <= i < j < shown_places(list, t, None, desc).len(),
    ensures
        shown_places(list, t, None, desc)[i] < shown_places(list, t, None, desc)[j],
        sort_field_of(Some(name)) == Some(name) <==> name == "hw-address"@ || name == "ip-address"@ || name
            == "hostname"@,
        sort_field_of(Some(name)) is None <==> name != "hw-address"@ && name != "ip-address"@ && name != "hostname"@,
        sort_field_of(None) is None,
        is_desc(Some(name)) <==> name == "desc"@,
        !is_desc(None),
{
    lemma_places_ascend(list, finder(t), i, j);
}

/// Places that are picked from a list come out in its order.
pub proof fn lemma_places_ascend<A>(list: Seq<A>, keep: spec_fn(A) -> bool, i: int, j: int)
    requires
        list.len() <= usize::MAX,
        0 <= i < j < places_where(list, keep).len(),
    ensures
        places_where(list, keep)[i] < places_where(list, keep)[j],
    decreases list.len(),
{
    if list.len() > 0 {
        let front = list.drop_last();
        let before = places_where(front, keep);
        if j < before.len() {
            lemma_places_ascend(front, keep, i, j);
        } else {
            lemma_places_where(front, keep);
            assert(before.contains(before[i]));
        }
    }
}

/// What stands in a text stands in every longer one.
pub proof fn lemma_in_longer(p: Seq<char>)
    ensures
        forall|x: Seq<char>, y: Seq<char>| has_text(x, p) || has_text(y, p) ==> has_text(#[trigger] (x + y), p),
        has_text(p, p),
{
    assert forall|x: Seq<char>, y: Seq<char>| has_text(x, p) || has_text(y, p) implies has_text(#[trigger] (x + y), p) by {
        if has_text(x, p) {
            let at = choose|at: int| #[trigger] stands_at(x, p, at);
            assert((x + y).subrange(at, at + p.len()) =~= p);
            assert(stands_at(x + y, p, at));
        } else {
            let at = choose|at: int| #[trigger] stands_at(y, p, at);
            let n = x.len() as int;
            assert((x + y).subrange(n + at, n + at + p.len()) =~= p);
            assert(stands_at(x + y, p, n + at));
        }
    }
    assert(p.subrange(0, p.len() as int) =~= p);
    assert(stands_at(p, p, 0));
}

/// What stands between two texts stands in the whole.
pub proof fn lemma_between(a: Seq<char>, p: Seq<char>, b: Seq<char>)
    ensures
        has_text(a + p + b, p),
{
    let n = a.len() as int;
    assert((a + p + b).subrange(n, n + p.len()) =~= p);
    assert(stands_at(a + p + b, p, n));
}

/// What stands in one of two texts stands in both together.
pub proof fn lemma_in_both(x: Seq<char>, y: Seq<char>, p: Seq<char>)
    requires
        has_text(x, p) || has_text(y, p),
    ensures
        has_text(x + y, p),
{
    lemma_in_longer(p);
}

/// What stands in a part of a text stands in the text.
pub proof fn lemma_in_part(whole: Seq<char>, part: Seq<char>, p: Seq<char>)
    requires
        has_text(whole, part),
        has_text(part, p),
    ensures
        has_text(whole, p),
{
    let m = choose|m: int| #[trigger] stands_at(whole, part, m);
    let n = choose|n: int| #[trigger] stands_at(part, p, n);
    assert(whole.subrange(m + n, m + n + p.len()) =~= whole.subrange(m, m + part.len()).subrange(n, n + p.len()));
    assert(stands_at(whole, p, m + n));
}

/// The rows of some places are the rows of the first of them and then those of the rest.
pub proof fn law_rows_follow_each_other(idx: nat, list: Seq<ReservationView>, a: Seq<usize>, p: usize, b: Seq<usize>)
    ensures
        rows_text(idx, list, a + seq![p] + b) == rows_text(idx, list, a) + row_text(idx, p as nat, list[p as int]) + rows_text(
            idx,
            list,
            b,
        ),
        rows_text(idx, list, Seq::empty()).len() == 0,
    decreases b.len(),
{
    let whole = a + seq![p] + b;
    let first = rows_text(idx, list, a) + row_text(idx, p as nat, list[p as int]);
    if b.len() == 0 {
        assert(whole.drop_last() =~= a);
        lemma_nothing_more(first, rows_text(idx, list, b));
    } else {
        assert(whole.drop_last() =~= a + seq![p] + b.drop_last());
        law_rows_follow_each_other(idx, list, a, p, b.drop_last());
        lemma_one_more(
            first,
            rows_text(idx, list, b.drop_last()),
            row_text(idx, b.last() as nat, list[b.last() as int]),
        );
    }
}

/// Nothing behind a text leaves it as it is.
pub proof fn lemma_nothing_more(x: Seq<char>, y: Seq<char>)
    requires
        y.len() == 0,
    ensures
        x + y == x,
{
    assert(x + y =~= x);
}

/// Three texts, one behind the other, however they are put together.
pub proof fn lemma_one_more(x: Seq<char>, y: Seq<char>, z: Seq<char>)
    ensures
        x + y + z == x + (y + z),
{
    assert(x + y + z =~= x + (y + z));
}

/// The row of every place stands among the rows.
proof fn lemma_row_among(idx: nat, list: Seq<ReservationView>, places: Seq<usize>, i: int)
    requires
        0 <= i < places.len(),
    ensures
        has_text(
            rows_text(idx, list, places),
            row_text(idx, places[i] as nat, list[places[i] as int]),
        ),
{
    let p = places[i];
    let row = row_text(idx, p as nat, list[p as int]);
    assert(places =~= places.take(i) + seq![p] + places.skip(i + 1));
    law_rows_follow_each_other(idx, list, places.take(i), p, places.skip(i + 1));
    law_found_within(rows_text(idx, list, places), row);
}

/// A row shows the number of its place, the hardware address, the IP address and the hostname of its
/// reservation, in this order, and leads to where that reservation is edited and deleted.
pub proof fn law_row_shows_its_reservation(idx: nat, p: nat, r: ReservationView)
    ensures
        ({
            let row = row_text(idx, p, r);
            let host = name_of(r);
            &&& has_text(
                row,
                dec(p + 1) + "</td><td>"@ + escaped(r.hw) + "</td><td>"@ + ip_text(r.ip) + "</td><td>"@ + escaped(host),
            )
            &&& has_text(row, r#"href="/subnet/"#@ + dec(idx) + "/res/"@ + dec(p) + r#"/edit""#@)
            &&& has_text(row, r#"hx-post="/subnet/"#@ + dec(idx) + "/res/"@ + dec(p) + r#"/delete""#@)
            &&& has_text(row, r#"hx-confirm="確定刪除 "#@ + escaped(r.hw) + r#"？""#@)
        }),
{
    lemma_row_cells(idx, p, r);
    lemma_row_rest(idx, p, r);
    let place = dec(idx) + "/res/"@ + dec(p);
    lemma_row_links(row_head(p, r), place, escaped(r.hw));
    assert(r#"href="/subnet/"#@ + place + r#"/edit""#@ =~= r#"href="/subnet/"#@ + dec(idx) + "/res/"@ + dec(p) + r#"/edit""#@);
    assert(r#"hx-post="/subnet/"#@ + place + r#"/delete""#@ =~= r#"hx-post="/subnet/"#@ + dec(idx) + "/res/"@ + dec(p)
        + r#"/delete""#@);
}

/// The cells of a row, up to the last value.
spec fn row_head(p: nat, r: ReservationView) -> Seq<char> {
    r#"<tr>
<td>"#@ + dec(p + 1) + "</td><td>"@ + escaped(r.hw) + "</td><td>"@ + ip_text(r.ip) + "</td><td>"@ + escaped(name_of(r))
}

proof fn lemma_row_rest(idx: nat, p: nat, r: ReservationView)
    ensures
        ({
            let place = dec(idx) + "/res/"@ + dec(p);
            let l2 = r#"</td>
<td>
<a class="btn" href="/subnet/"#@;
            let l3 = r#"/edit">編輯</a>
<button class="btn" hx-post="/subnet/"#@;
            let l4 = r#"/delete" hx-confirm="確定刪除 "#@;
            let l5 = r#"？" hx-target="body" hx-swap="outerHTML">刪除</button>
</td>
</tr>"#@;
            row_text(idx, p, r) == row_head(p, r) + l2 + place + l3 + place + l4 + escaped(r.hw) + l5
        }),
{
    let l2 = r#"</td>
<td>
<a class="btn" href="/subnet/"#@;
    let l3 = r#"/edit">編輯</a>
<button class="btn" hx-post="/subnet/"#@;
    lemma_four(row_head(p, r) + l2, dec(idx), "/res/"@, dec(p));
    lemma_four(row_head(p, r) + l2 + (dec(idx) + "/res/"@ + dec(p)) + l3, dec(idx), "/res/"@, dec(p));
}

proof fn lemma_four(a: Seq<char>, b: Seq<char>, c: Seq<char>, d: Seq<char>)
    ensures
        a + b + c + d == a + (b + c + d),
{
    assert(a + b + c + d =~= a + (b + c + d));
}

proof fn lemma_row_cells(idx: nat, p: nat, r: ReservationView)
    ensures
        has_text(
            row_text(idx, p, r),
            dec(p + 1) + "</td><td>"@ + escaped(r.hw) + "</td><td>"@ + ip_text(r.ip) + "</td><td>"@ + escaped(name_of(r)),
        ),
{
    let cells = dec(p + 1) + "</td><td>"@ + escaped(r.hw) + "</td><td>"@ + ip_text(r.ip) + "</td><td>"@ + escaped(name_of(r));
    let sep = "</td><td>"@;
    lemma_seven(r#"<tr>
<td>"#@, dec(p + 1), sep, escaped(r.hw), sep, ip_text(r.ip), sep, escaped(name_of(r)));
    assert(has_text(row_head(p, r), cells));
    lemma_in_longer(cells);
}

proof fn lemma_seven(
    l: Seq<char>,
    a: Seq<char>,
    b: Seq<char>,
    c: Seq<char>,
    d: Seq<char>,
    e: Seq<char>,
    f: Seq<char>,
    g: Seq<char>,
)
    ensures
        has_text(l + a + b + c + d + e + f + g, a + b + c + d + e + f + g),
{
    let whole = l + a + b + c + d + e + f + g;
    let part = a + b + c + d + e + f + g;
    let n = l.len() as int;
    assert(whole.subrange(n, n + part.len()) =~= part);
    assert(stands_at(whole, part, n));
}

proof fn lemma_row_links(head: Seq<char>, place: Seq<char>, hw: Seq<char>)
    ensures
        ({
            let l2 = r#"</td>
<td>
<a class="btn" href="/subnet/"#@;
            let l3 = r#"/edit">編輯</a>
<button class="btn" hx-post="/subnet/"#@;
            let l4 = r#"/delete" hx-confirm="確定刪除 "#@;
            let l5 = r#"？" hx-target="body" hx-swap="outerHTML">刪除</button>
</td>
</tr>"#@;
            let row = head + l2 + place + l3 + place + l4 + hw + l5;
            &&& has_text(row, r#"href="/subnet/"#@ + place + r#"/edit""#@)
            &&& has_text(row, r#"hx-post="/subnet/"#@ + place + r#"/delete""#@)
            &&& has_text(row, r#"hx-confirm="確定刪除 "#@ + hw + r#"？""#@)
        }),
{
    reveal_strlit(r#"</td>
<td>
<a class="btn" href="/subnet/"#);
    reveal_strlit(r#"/edit">編輯</a>
<button class="btn" hx-post="/subnet/"#);
    reveal_strlit(r#"/delete" hx-confirm="確定刪除 "#);
    reveal_strlit(r#"？" hx-target="body" hx-swap="outerHTML">刪除</button>
</td>
</tr>"#);
    reveal_strlit(r#"href="/subnet/"#);
    reveal_strlit(r#"/edit""#);
    reveal_strlit(r#"hx-post="/subnet/"#);
    reveal_strlit(r#"/delete""#);
    reveal_strlit(r#"hx-confirm="確定刪除 "#);
    reveal_strlit(r#"？""#);
    let l2 = r#"</td>
<td>
<a class="btn" href="/subnet/"#@;
    let l3 = r#"/edit">編輯</a>
<button class="btn" hx-post="/subnet/"#@;
    let l4 = r#"/delete" hx-confirm="確定刪除 "#@;
    let l5 = r#"？" hx-target="body" hx-swap="outerHTML">刪除</button>
</td>
</tr>"#@;
    let row = head + l2 + place + l3 + place + l4 + hw + l5;
    let (e1, e2) = (r#"href="/subnet/"#@, r#"/edit""#@);
    let (d1, d2) = (r#"hx-post="/subnet/"#@, r#"/delete""#@);
    let (c1, c2) = (r#"hx-confirm="確定刪除 "#@, r#"？""#@);
    assert(l2 =~= l2.take(l2.len() - e1.len()) + e1);
    assert(l3 =~= e2 + l3.skip(e2.len() as int));
    assert(l3 =~= l3.take(l3.len() - d1.len()) + d1);
    assert(l4 =~= d2 + l4.skip(d2.len() as int));
    assert(l4 =~= l4.take(l4.len() - c1.len()) + c1);
    assert(l5 =~= c2 + l5.skip(c2.len() as int));
    let (a, b) = (l2.take(l2.len() - e1.len()), l3.skip(e2.len() as int));
    let (c, d) = (l3.take(l3.len() - d1.len()), l4.skip(d2.len() as int));
    let (e, f) = (l4.take(l4.len() - c1.len()), l5.skip(c2.len() as int));
    law_found_within(row, e1 + place + e2);
    assert(row =~= (head + a) + (e1 + place + e2) + (b + place + l4 + hw + l5));
    law_found_within(row, d1 + place + d2);
    assert(row =~= (head + l2 + place + c) + (d1 + place + d2) + (d + hw + l5));
    law_found_within(row, c1 + hw + c2);
    assert(row =~= (head + l2 + place + l3 + place + e) + (c1 + hw + c2) + f);
}

/// A list of rows is cut into pages of fifty. A page holds the rows that come after those of the pages
/// before it, and the last page is shown where a later one is asked for. A search shows all it finds on
/// one page.
pub proof fn law_fifty_rows_on_a_page(total: nat, page: nat, row: nat)
    requires
        page <= usize::MAX,
        row < total,
    ensures
        ({
            let (pages, current, first, end) = window_of(total, Some(page as usize), false);
            &&& 50 * (pages - 1) < total <= 50 * pages
            &&& page < pages ==> current == page
            &&& page >= pages ==> current == pages - 1
            &&& first <= row < end <==> 50 * current <= row < 50 * current + 50
        }),
        window_of(total, None, false) == window_of(total, Some(0), false),
        window_of(total, Some(page as usize), true).2 <= row < window_of(total, Some(page as usize), true).3,
        window_of(total, None, true).2 <= row < window_of(total, None, true).3,
        window_of(total, Some(page as usize), true).0 == 1 && window_of(total, Some(page as usize), true).1 == 0,
        window_of(total, None, true).0 == 1 && window_of(total, None, true).1 == 0,
        window_of(0, None, false).0 == 0,
{
}

/// Whether the page that is asked for is the one with a given row of those shown.
pub open spec fn is_asked_for(q: ListQueryView, i: int) -> bool {
    let page: int = match q.page {
        Some(p) => p as int,
        None => 0,
    };
    50 * page <= i < 50 * page + 50
}

/// Every reservation that is shown has its row on the page of its subnet: on the one page of a search, and
/// otherwise on that of the fifty rows among which it comes. The page tells how many there are.
pub proof fn law_shown_row_is_on_the_page(
    s: StateView,
    subnet: SubnetView,
    idx: nat,
    q: ListQueryView,
    refresh: Refresh,
    i: int,
)
    requires
        subnet_of(s.file, idx) == Ok::<SubnetView, Seq<char>>(subnet),
        subnet.reservations.len() <= usize::MAX,
        0 <= i < shown_places(subnet.reservations, needle_of(q.q), sort_field_of(q.sort), is_desc(q.dir)).len(),
        needle_of(q.q).len() == 0 ==> is_asked_for(q, i),
    ensures
        ({
            let shown = shown_places(subnet.reservations, needle_of(q.q), sort_field_of(q.sort), is_desc(q.dir));
            let page = rendered_list(s, idx, q, refresh);
            let p = shown[i];
            &&& page is Ok
            &&& has_text(page->Ok_0, row_text(idx, p as nat, subnet.reservations[p as int]))
            &&& has_text(page->Ok_0, dec(shown.len()) + " 筆符合"@)
        }),
{
    let list = subnet.reservations;
    let needle = needle_of(q.q);
    let shown = shown_places(list, needle, sort_field_of(q.sort), is_desc(q.dir));
    let w = window_of(shown.len(), q.page, needle.len() > 0);
    law_fifty_rows_on_a_page(shown.len(), if q.page is Some {
        q.page->0 as nat
    } else {
        0
    }, i as nat);
    assert(w.2 <= i < w.3 <= shown.len());
    let places = shown.subrange(w.2 as int, w.3 as int);
    let p = shown[i];
    assert(places[i - w.2] == p);
    let row = row_text(idx, p as nat, list[p as int]);
    lemma_row_among(idx, list, places, i - w.2);
    lemma_rows_on_page(s, subnet, idx, q, refresh, row);
    lemma_count_on_page(s, subnet, idx, q, refresh);
}

proof fn lemma_rows_on_page(
    s: StateView,
    subnet: SubnetView,
    idx: nat,
    q: ListQueryView,
    refresh: Refresh,
    row: Seq<char>,
)
    requires
        ({
            let needle = needle_of(q.q);
            let shown = shown_places(subnet.reservations, needle, sort_field_of(q.sort), is_desc(q.dir));
            let w = window_of(shown.len(), q.page, needle.len() > 0);
            has_text(rows_text(idx, subnet.reservations, shown.subrange(w.2 as int, w.3 as int)), row)
        }),
    ensures
        has_text(list_body(s, subnet, idx, q, refresh), row),
{
    lemma_in_longer(row);
    assert(has_text(list_text(s, subnet, idx, q), row));
}

proof fn lemma_count_on_page(s: StateView, subnet: SubnetView, idx: nat, q: ListQueryView, refresh: Refresh)
    ensures
        ({
            let shown = shown_places(subnet.reservations, needle_of(q.q), sort_field_of(q.sort), is_desc(q.dir));
            has_text(list_body(s, subnet, idx, q, refresh), dec(shown.len()) + " 筆符合"@)
        }),
{
    let needle = needle_of(q.q);
    let shown = shown_places(subnet.reservations, needle, sort_field_of(q.sort), is_desc(q.dir));
    let count = dec(shown.len()) + " 筆符合"@;
    let head = r#"
<span id="apply-result"></span>
"#@ + pending_text(s.pending) + r#"
</div>
"#@ + warn_text(q.warn) + r#"
"#@ + dialog_text(summaries_of(s.file), idx, q.pick == Some(1u8)) + r#"
<div id="list-panel">
<p>共 "#@;
    assert(head + dec(shown.len()) + " 筆符合"@ =~= head + count);
    lemma_in_longer(count);
    assert(has_text(head + dec(shown.len()) + " 筆符合"@, count));
    assert(has_text(list_text(s, subnet, idx, q), count));
}

/// What the page of a subnet says of the state: how many changes wait, where any do; that a hostname is used
/// twice, where one is; and every subnet, each with the way to its page.
pub proof fn law_page_tells_of_the_state(
    s: StateView,
    subnet: SubnetView,
    idx: nat,
    q: ListQueryView,
    refresh: Refresh,
    i: int,
)
    requires
        subnet_of(s.file, idx) == Ok::<SubnetView, Seq<char>>(subnet),
        0 <= i < summaries_of(s.file).len(),
    ensures
        ({
            let page = rendered_list(s, idx, q, refresh)->Ok_0;
            let other = summaries_of(s.file)[i];
            &&& s.pending > 0 ==> has_text(page, dec(s.pending as nat) + " 筆變更尚未套用"@)
            &&& q.warn is Some ==> has_text(page, "hostname「"@ + escaped(q.warn->0) + "」與其他 reservation 重複"@)
            &&& has_text(page, way_to(other))
            &&& has_text(page, apply_button(socket_of(s.file), s.pending))
        }),
{
    let list = summaries_of(s.file);
    lemma_item_leads(list[i], idx);
    lemma_item_among(list, idx, i);
    lemma_in_part(dialog_items(list, idx), dialog_item(list[i], idx), way_to(list[i]));
    lemma_dialog_on_page(s, subnet, idx, q, refresh, way_to(list[i]));
    if s.pending > 0 {
        lemma_pending_told(s.pending);
        lemma_pending_on_page(s, subnet, idx, q, refresh, dec(s.pending as nat) + " 筆變更尚未套用"@);
    }
    if q.warn is Some {
        lemma_warned(q.warn->0);
        lemma_warning_on_page(s, subnet, idx, q, refresh, "hostname「"@ + escaped(q.warn->0) + "」與其他 reservation 重複"@);
    }
    law_apply_is_off_without_socket(s, subnet, idx, q, refresh);
}

/// The end of the link to a subnet: its number, its network, and how many reservations it has.
pub open spec fn way_to(s: SummaryView) -> Seq<char> {
    dec(s.index) + r#"">Subnet "#@ + dec(s.index) + " — "@ + s.cidr + "（"@ + dec(s.reservation_count) + " 筆）</a></li>"@
}

proof fn lemma_item_leads(s: SummaryView, current: nat)
    ensures
        has_text(dialog_item(s, current), way_to(s)),
{
    let head = r#"<li><a class="btn"#@ + primary_if(s.index == current) + r#"" href="/subnet/"#@;
    assert(dialog_item(s, current) =~= head + way_to(s) + Seq::<char>::empty());
    law_found_within(dialog_item(s, current), way_to(s));
}

proof fn lemma_pending_told(pending: u64)
    requires
        pending > 0,
    ensures
        has_text(pending_text(pending), dec(pending as nat) + " 筆變更尚未套用"@),
{
    let part = dec(pending as nat) + " 筆變更尚未套用"@;
    reveal_strlit(" 筆變更尚未套用</span>");
    reveal_strlit(" 筆變更尚未套用");
    reveal_strlit("</span>");
    assert(" 筆變更尚未套用</span>"@ =~= " 筆變更尚未套用"@ + "</span>"@);
    law_found_within(pending_text(pending), part);
    assert(pending_text(pending) =~= r#"<span id="pending-badge" class="badge">"#@ + part + "</span>"@);
}

proof fn lemma_warned(h: Seq<char>)
    ensures
        has_text(warn_text(Some(h)), "hostname「"@ + escaped(h) + "」與其他 reservation 重複"@),
{
    let part = "hostname「"@ + escaped(h) + "」與其他 reservation 重複"@;
    reveal_strlit(r#"<p class="warn">⚠ hostname「"#);
    reveal_strlit(r#"<p class="warn">⚠ "#);
    reveal_strlit("hostname「");
    reveal_strlit("」與其他 reservation 重複（未擋，僅提醒）</p>");
    reveal_strlit("」與其他 reservation 重複");
    reveal_strlit("（未擋，僅提醒）</p>");
    assert(r#"<p class="warn">⚠ hostname「"#@ =~= r#"<p class="warn">⚠ "#@ + "hostname「"@);
    assert("」與其他 reservation 重複（未擋，僅提醒）</p>"@ =~= "」與其他 reservation 重複"@ + "（未擋，僅提醒）</p>"@);
    law_found_within(warn_text(Some(h)), part);
    assert(warn_text(Some(h)) =~= r#"<p class="warn">⚠ "#@ + part + "（未擋，僅提醒）</p>"@);
}

proof fn lemma_item_among(subnets: Seq<SummaryView>, current: nat, i: int)
    requires
        0 <= i < subnets.len(),
    ensures
        has_text(dialog_items(subnets, current), dialog_item(subnets[i], current)),
    decreases subnets.len(),
{
    lemma_in_longer(dialog_item(subnets[i], current));
    if i < subnets.len() - 1 {
        lemma_item_among(subnets.drop_last(), current, i);
        assert(subnets.drop_last()[i] == subnets[i]);
    }
}

proof fn lemma_dialog_on_page(
    s: StateView,
    subnet: SubnetView,
    idx: nat,
    q: ListQueryView,
    refresh: Refresh,
    part: Seq<char>,
)
    requires
        has_text(dialog_items(summaries_of(s.file), idx), part),
    ensures
        has_text(list_body(s, subnet, idx, q, refresh), part),
{
    lemma_in_longer(part);
    assert(has_text(dialog_text(summaries_of(s.file), idx, q.pick == Some(1u8)), part));
    assert(has_text(list_text(s, subnet, idx, q), part));
}

proof fn lemma_pending_on_page(
    s: StateView,
    subnet: SubnetView,
    idx: nat,
    q: ListQueryView,
    refresh: Refresh,
    part: Seq<char>,
)
    requires
        has_text(pending_text(s.pending), part),
    ensures
        has_text(list_body(s, subnet, idx, q, refresh), part),
{
    lemma_in_longer(part);
    assert(has_text(list_text(s, subnet, idx, q), part));
}

proof fn lemma_warning_on_page(
    s: StateView,
    subnet: SubnetView,
    idx: nat,
    q: ListQueryView,
    refresh: Refresh,
    part: Seq<char>,
)
    requires
        has_text(warn_text(q.warn), part),
    ensures
        has_text(list_body(s, subnet, idx, q, refresh), part),
{
    lemma_in_longer(part);
    assert(has_text(list_text(s, subnet, idx, q), part));
}

/// The button that applies the changes can be used exactly where a control socket is declared and changes
/// wait.
pub proof fn law_apply_is_on_where_it_can_be(socket: Option<SocketView>, pending: u64)
    ensures
        ({
            let off = r#"<button class="btn primary" disabled"#@;
            let button = apply_button(socket, pending);
            button.len() > off.len() && (button.take(off.len() as int) == off <==> socket is None || pending == 0)
        }),
{
    let button = apply_button(socket, pending);
    let off = r#"<button class="btn primary" disabled"#@;
    let head = r#"<button class="btn primary""#@;
    let rest = r##" hx-post="/apply" hx-target="#apply-result" hx-swap="innerHTML" title=""##@;
    reveal_strlit(r#"<button class="btn primary" disabled"#);
    reveal_strlit(r#"<button class="btn primary""#);
    reveal_strlit(" disabled");
    reveal_strlit("");
    reveal_strlit(r##" hx-post="/apply" hx-target="#apply-result" hx-swap="innerHTML" title=""##);
    let n = head.len() as int;
    if socket is None || pending == 0 {
        assert(off =~= head + " disabled"@);
        assert(button.take(off.len() as int) =~= off);
    } else {
        assert(button[n + 1] == rest[1]);
        assert(rest[1] == 'h');
        assert(off[n + 1] == 'd');
        if button.take(off.len() as int) == off {
            assert(button.take(off.len() as int)[n + 1] == button[n + 1]);
        }
    }
}

/// Rows whose values are the same stay in the order of the file, in either direction.
pub proof fn law_equal_rows_stay_in_order(
    list: Seq<ReservationView>,
    t: Seq<char>,
    sort: Seq<char>,
    desc: bool,
    i: int,
    j: int,
)
    requires
        list.len() <= 0x1_0000_0000,
        list.len() <= usize::MAX,
        0 <= i < j < shown_places(list, t, Some(sort), desc).len(),
    ensures
        ({
            let shown = shown_places(list, t, Some(sort), desc);
            let (x, y) = (list[shown[i] as int], list[shown[j] as int]);
            &&& sort == "hw-address"@ && lowercase(x.hw) == lowercase(y.hw) ==> shown[i] < shown[j]
            &&& sort == "hostname"@ && x.hostname is None && y.hostname is None ==> shown[i] < shown[j]
            &&& sort == "hostname"@ && x.hostname is Some && y.hostname is Some && lowercase(x.hostname->0) == lowercase(
                y.hostname->0,
            ) ==> shown[i] < shown[j]
        }),
{
    let shown = shown_places(list, t, Some(sort), desc);
    let (x, y) = (list[shown[i] as int], list[shown[j] as int]);
    let (m, n) = (shown[i] as nat, shown[j] as nat);
    let a = reservation_key(x, sort, desc, m);
    let b = reservation_key(y, sort, desc, n);
    lemma_field_names();
    law_shown_ascend(list, t, sort, desc, i, j);
    lemma_lex_total(a, b);
    lemma_shown_places(list, t, Some(sort), desc, i, j);
    if n < m {
        law_place_decides(true, encode_utf8(lowercase(x.hw)), desc, n, m);
        law_place_decides(false, Seq::empty(), desc, n, m);
        if x.hostname is Some {
            law_place_decides(true, encode_utf8(lowercase(x.hostname->0)), desc, n, m);
        }
    }
}

/// The page of a subnet names its network, holds what is searched for, has the head of each of its columns,
/// and leads to the form of a new reservation.
pub proof fn law_page_names_its_subnet(s: StateView, subnet: SubnetView, idx: nat, q: ListQueryView, refresh: Refresh)
    requires
        subnet_of(s.file, idx) == Ok::<SubnetView, Seq<char>>(subnet),
    ensures
        ({
            let page = rendered_list(s, idx, q, refresh)->Ok_0;
            let network = ip_text(subnet.net.addr) + "/"@ + dec(subnet.net.prefix as nat);
            &&& has_text(page, escaped(network))
            &&& has_text(page, escaped(needle_of(q.q)))
            &&& has_text(page, dec(idx) + r#"/new">新增 reservation</a>
"#@)
            &&& has_text(page, th_text("hw-address"@, "hw-address"@, idx, sort_field_of(q.sort), q.dir))
            &&& has_text(page, th_text("ip-address"@, "ip-address"@, idx, sort_field_of(q.sort), q.dir))
            &&& has_text(page, th_text("hostname"@, "hostname"@, idx, sort_field_of(q.sort), q.dir))
        }),
{
    lemma_bar_on_page(s, subnet, idx, q, refresh);
    lemma_heads_on_page(s, subnet, idx, q, refresh, th_text("hw-address"@, "hw-address"@, idx, sort_field_of(q.sort), q.dir));
    lemma_heads_on_page(s, subnet, idx, q, refresh, th_text("ip-address"@, "ip-address"@, idx, sort_field_of(q.sort), q.dir));
    lemma_heads_on_page(s, subnet, idx, q, refresh, th_text("hostname"@, "hostname"@, idx, sort_field_of(q.sort), q.dir));
}

proof fn lemma_heads_on_page(
    s: StateView,
    subnet: SubnetView,
    idx: nat,
    q: ListQueryView,
    refresh: Refresh,
    head: Seq<char>,
)
    requires
        ({
            let field = sort_field_of(q.sort);
            ||| head == th_text("hw-address"@, "hw-address"@, idx, field, q.dir)
            ||| head == th_text("ip-address"@, "ip-address"@, idx, field, q.dir)
            ||| head == th_text("hostname"@, "hostname"@, idx, field, q.dir)
        }),
    ensures
        has_text(list_body(s, subnet, idx, q, refresh), head),
{
    lemma_in_longer(head);
    assert(has_text(heads_text(idx, sort_field_of(q.sort), q.dir), head));
    assert(has_text(list_text(s, subnet, idx, q), head));
}

proof fn lemma_bar_on_page(s: StateView, subnet: SubnetView, idx: nat, q: ListQueryView, refresh: Refresh)
    ensures
        ({
            let page = list_body(s, subnet, idx, q, refresh);
            let network = ip_text(subnet.net.addr) + "/"@ + dec(subnet.net.prefix as nat);
            &&& has_text(page, escaped(network))
            &&& has_text(page, escaped(needle_of(q.q)))
            &&& has_text(page, dec(idx) + r#"/new">新增 reservation</a>
"#@)
        }),
{
    let network = ip_text(subnet.net.addr) + "/"@ + dec(subnet.net.prefix as nat);
    let needle = needle_of(q.q);
    let bar = bar_text(subnet, idx, needle, sort_field_of(q.sort), is_desc(q.dir));
    lemma_bar_names(subnet, idx, needle, sort_field_of(q.sort), is_desc(q.dir));
    lemma_part_of_bar(s, subnet, idx, q, refresh, escaped(network));
    lemma_part_of_bar(s, subnet, idx, q, refresh, escaped(needle));
    lemma_part_of_bar(s, subnet, idx, q, refresh, dec(idx) + r#"/new">新增 reservation</a>
"#@);
}

proof fn lemma_part_of_bar(
    s: StateView,
    subnet: SubnetView,
    idx: nat,
    q: ListQueryView,
    refresh: Refresh,
    part: Seq<char>,
)
    requires
        has_text(bar_text(subnet, idx, needle_of(q.q), sort_field_of(q.sort), is_desc(q.dir)), part),
    ensures
        has_text(list_body(s, subnet, idx, q, refresh), part),
{
    lemma_in_longer(part);
    assert(has_text(panel_text(s, subnet, idx, q), part));
}

proof fn lemma_bar_names(subnet: SubnetView, idx: nat, needle: Seq<char>, field: Option<Seq<char>>, desc: bool)
    ensures
        ({
            let bar = bar_text(subnet, idx, needle, field, desc);
            let network = ip_text(subnet.net.addr) + "/"@ + dec(subnet.net.prefix as nat);
            &&& has_text(bar, escaped(network))
            &&& has_text(bar, escaped(needle))
            &&& has_text(bar, dec(idx) + r#"/new">新增 reservation</a>
"#@)
        }),
{
    let network = ip_text(subnet.net.addr) + "/"@ + dec(subnet.net.prefix as nat);
    let bar = bar_text(subnet, idx, needle, field, desc);
    let end = dec(idx) + r#"/new">新增 reservation</a>
"#@;
    let head = bar.take(bar.len() - end.len());
    assert(bar =~= head + end + Seq::<char>::empty());
    lemma_between(head, end, Seq::empty());
    lemma_in_longer(escaped(network));
    lemma_in_longer(escaped(needle));
}

/// The dialog that lists the subnets opens by itself exactly where it is asked to.
pub proof fn law_dialog_opens_where_asked(list: Seq<SummaryView>, idx: nat)
    ensures
        ({
            let open = "if (document.querySelectorAll('#subnet-dialog li').length > 1) { document.getElementById('subnet-dialog').showModal(); }"@;
            let asked = dialog_text(list, idx, true);
            let not = dialog_text(list, idx, false);
            let end = "</script>"@;
            exists|head: Seq<char>| asked == #[trigger] (head + open + end) && not == head + end
        }),
{
    reveal_strlit("");
    let open = "if (document.querySelectorAll('#subnet-dialog li').length > 1) { document.getElementById('subnet-dialog').showModal(); }"@;
    let head = r#"<dialog id="subnet-dialog">
<p><strong>選擇要編修的 subnet</strong></p>
<ul style="list-style:none;padding:0">"#@ + dialog_items(list, idx) + r#"</ul>
<button class="btn" onclick="document.getElementById('subnet-dialog').close()">取消</button>
</dialog>
<script>"#@;
    assert(dialog_text(list, idx, true) =~= head + open + "</script>"@);
    assert(dialog_text(list, idx, false) =~= head + "</script>"@);
}

/// Nothing is said of changes where none wait, nor of a hostname where none is used twice.
pub proof fn law_nothing_is_said_without_reason()
    ensures
        pending_text(0).len() == 0,
        warn_text(None).len() == 0,
{
}

/// What is said of a search and of the page: a search names what is searched for and no page; otherwise the
/// page is named, counted from one, and how many there are.
pub proof fn law_page_or_search_is_named(needle: Seq<char>, current: nat, pages: nat)
    ensures
        needle.len() == 0 ==> match_text(needle).len() == 0 && pages_text(needle, current, pages) == "（第 "@ + dec(current + 1)
            + " / "@ + dec(pages) + " 頁）"@,
        needle.len() > 0 ==> match_text(needle) == "「"@ + escaped(needle) + "」"@ && pages_text(needle, current, pages).len()
            == 0,
{
}

/// The column and the direction are sent along with a search, where a column is sorted by.
pub proof fn law_order_is_sent_along(field: Seq<char>, desc: bool)
    ensures
        sort_vals_text(None, desc).len() == 0,
        sort_vals_text(Some(field), true) == r#" hx-vals='{"sort":""#@ + field + r#"","dir":""#@ + "desc"@ + r#""}'"#@,
        sort_vals_text(Some(field), false) == r#" hx-vals='{"sort":""#@ + field + r#"","dir":""#@ + "asc"@ + r#""}'"#@,
{
}

/// Whatever is typed into the search, a reservation has its row on the page whenever what was typed, without
/// the white space around it and in small letters, stands in the text of its IP address, in its hardware
/// address in small letters, or in its hostname in small letters.
pub proof fn law_typed_text_brings_its_rows(
    s: StateView,
    subnet: SubnetView,
    idx: nat,
    q: ListQueryView,
    refresh: Refresh,
    typed: (Seq<char>, Seq<char>, Seq<char>, Seq<char>),
    p: usize,
)
    requires
        subnet_of(s.file, idx) == Ok::<SubnetView, Seq<char>>(subnet),
        subnet.reservations.len() <= usize::MAX,
        p < subnet.reservations.len(),
        q.q == Some(typed.0),
        stands_within(typed.0, typed.1, typed.2, typed.3),
        lowercase(typed.2).len() > 0,
    ensures
        ({
            let r = subnet.reservations[p as int];
            let t = lowercase(typed.2);
            let page = rendered_list(s, idx, q, refresh);
            let row = row_text(idx, p as nat, r);
            &&& page is Ok
            &&& has_text(ip_text(r.ip), t) ==> has_text(page->Ok_0, row)
            &&& has_text(lowercase(r.hw), t) ==> has_text(page->Ok_0, row)
            &&& r.hostname is Some && has_text(lowercase(r.hostname->0), t) ==> has_text(page->Ok_0, row)
        }),
{
    let list = subnet.reservations;
    let t = lowercase(typed.2);
    let (sort, desc) = (sort_field_of(q.sort), is_desc(q.dir));
    law_search_is_what_was_typed(typed.0, typed.1, typed.2, typed.3);
    law_search_shows_what_it_finds(list, t, sort, desc, p);
    let shown = shown_places(list, t, sort, desc);
    if shown.contains(p) {
        let i = choose|i: int| 0 <= i < shown.len() && shown[i] == p;
        law_shown_row_is_on_the_page(s, subnet, idx, q, refresh, i);
    }
}

} // verus!
