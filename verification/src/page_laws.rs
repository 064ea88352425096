//! What stands on every page around what it shows.
use vstd::prelude::*;
use vstd::string::*;

use crate::domain::{ReservationView, SubnetView};
use crate::file::{elements, hwaddrs_of, lease_db_of, socket_of, subnet_of, subnets, summaries_of, SummaryView};
use crate::form::{form_path, form_text};
use crate::html::{escaped, primary_if, sort_vals_text, tab_strip_text, window_of};
use crate::lease_page::{
    lease_field_of, lease_link, lease_pager, lease_panel, lease_rows, lease_source, lease_table, rendered_leases,
    shown_leases, subnet_options,
};
use crate::leases::LeaseView;
use crate::list::{
    apply_button, bar_text, dialog_item, dialog_text, links_text, list_body, list_text, match_text, needle_of,
    pager_text, pages_text, panel_text, rendered_list, search_suffix, shown_places, sort_field_of,
};
use crate::list_laws::{lemma_in_both, lemma_in_longer, lemma_one_more};
use crate::number::dec;
use crate::query::{is_desc, leases_url, list_url, LeasesQueryView, ListQueryView};
use crate::state::{banner_text, Refresh, StateView};
use crate::text::{has_text, stands_at};
use crate::web::form_body;

verus! {

/// The page of a subnet holds the tabs, what there is to tell of the file with the way back to the same page,
/// the list of the subnets, what is searched for or which page it is, the way to the other pages, and the
/// order that is sent along with a search.
pub proof fn law_list_page_holds_its_parts(
    s: StateView,
    subnet: SubnetView,
    idx: nat,
    q: ListQueryView,
    refresh: Refresh,
)
    requires
        subnet_of(s.file, idx) == Ok::<SubnetView, Seq<char>>(subnet),
    ensures
        ({
            let page = rendered_list(s, idx, q, refresh)->Ok_0;
            let needle = needle_of(q.q);
            let total = shown_places(subnet.reservations, needle, sort_field_of(q.sort), is_desc(q.dir)).len();
            let (pages, current, first, end) = window_of(total, q.page, needle.len() > 0);
            &&& has_text(page, tab_strip_text("hosts"@, "/subnet/"@ + dec(idx)))
            &&& has_text(page, banner_text(refresh, s.pending, list_url(idx, q)))
            &&& has_text(page, dialog_text(summaries_of(s.file), idx, q.pick == Some(1u8)))
            &&& has_text(page, match_text(needle) + pages_text(needle, current, pages))
            &&& has_text(page, pager_text(idx, pages, current, needle))
            &&& has_text(page, sort_vals_text(sort_field_of(q.sort), q.dir == Some("desc"@)))
        }),
{
    let needle = needle_of(q.q);
    let total = shown_places(subnet.reservations, needle, sort_field_of(q.sort), is_desc(q.dir)).len();
    let w = window_of(total, q.page, needle.len() > 0);
    lemma_around_list(s, subnet, idx, q, refresh);
    lemma_list_holds(s, subnet, idx, q, dialog_text(summaries_of(s.file), idx, q.pick == Some(1u8)));
    lemma_list_holds(s, subnet, idx, q, pager_text(idx, w.0, w.1, needle));
    lemma_page_told(s, subnet, idx, q);
    lemma_list_on_page(s, subnet, idx, q, refresh, dialog_text(summaries_of(s.file), idx, q.pick == Some(1u8)));
    lemma_list_on_page(s, subnet, idx, q, refresh, pager_text(idx, w.0, w.1, needle));
    lemma_list_on_page(s, subnet, idx, q, refresh, match_text(needle) + pages_text(needle, w.1, w.0));
}

proof fn lemma_around_list(s: StateView, subnet: SubnetView, idx: nat, q: ListQueryView, refresh: Refresh)
    ensures
        has_text(list_body(s, subnet, idx, q, refresh), tab_strip_text("hosts"@, "/subnet/"@ + dec(idx))),
        has_text(list_body(s, subnet, idx, q, refresh), banner_text(refresh, s.pending, list_url(idx, q))),
        has_text(list_body(s, subnet, idx, q, refresh), sort_vals_text(sort_field_of(q.sort), is_desc(q.dir))),
{
    let (tab, banner) = (tab_strip_text("hosts"@, "/subnet/"@ + dec(idx)), banner_text(refresh, s.pending, list_url(idx, q)));
    let vals = sort_vals_text(sort_field_of(q.sort), is_desc(q.dir));
    let panel = panel_text(s, subnet, idx, q);
    lemma_two_and_more(tab, banner, panel);
    lemma_vals_in_bar(subnet, idx, needle_of(q.q), sort_field_of(q.sort), is_desc(q.dir));
    let bar = bar_text(subnet, idx, needle_of(q.q), sort_field_of(q.sort), is_desc(q.dir));
    let button = apply_button(socket_of(s.file), s.pending);
    lemma_in_both(bar, button, vals);
    lemma_in_both(bar + button, list_text(s, subnet, idx, q), vals);
    lemma_in_both(tab + banner, panel, vals);
}

proof fn lemma_two_and_more(a: Seq<char>, b: Seq<char>, c: Seq<char>)
    ensures
        has_text(a + b + c, a),
        has_text(a + b + c, b),
{
    lemma_in_longer(a);
    lemma_in_longer(b);
}

proof fn lemma_vals_in_bar(subnet: SubnetView, idx: nat, needle: Seq<char>, field: Option<Seq<char>>, desc: bool)
    ensures
        has_text(bar_text(subnet, idx, needle, field, desc), sort_vals_text(field, desc)),
{
    lemma_in_longer(sort_vals_text(field, desc));
}

/// Whether a text is one of those that the list of a subnet holds.
spec fn is_part_of_list(s: StateView, subnet: SubnetView, idx: nat, q: ListQueryView, part: Seq<char>) -> bool {
    let needle = needle_of(q.q);
    let total = shown_places(subnet.reservations, needle, sort_field_of(q.sort), is_desc(q.dir)).len();
    let w = window_of(total, q.page, needle.len() > 0);
    ||| part == dialog_text(summaries_of(s.file), idx, q.pick == Some(1u8))
    ||| part == pager_text(idx, w.0, w.1, needle)
}

proof fn lemma_list_holds(s: StateView, subnet: SubnetView, idx: nat, q: ListQueryView, part: Seq<char>)
    requires
        is_part_of_list(s, subnet, idx, q, part),
    ensures
        has_text(list_text(s, subnet, idx, q), part),
{
    lemma_in_longer(part);
}

proof fn lemma_page_told(s: StateView, subnet: SubnetView, idx: nat, q: ListQueryView)
    ensures
        ({
            let needle = needle_of(q.q);
            let total = shown_places(subnet.reservations, needle, sort_field_of(q.sort), is_desc(q.dir)).len();
            let w = window_of(total, q.page, needle.len() > 0);
            has_text(list_text(s, subnet, idx, q), match_text(needle) + pages_text(needle, w.1, w.0))
        }),
{
    let needle = needle_of(q.q);
    let total = shown_places(subnet.reservations, needle, sort_field_of(q.sort), is_desc(q.dir)).len();
    let w = window_of(total, q.page, needle.len() > 0);
    let (m, p) = (match_text(needle), pages_text(needle, w.1, w.0));
    assert forall|x: Seq<char>| #[trigger] (x + m + p) == x + (m + p) by {
        lemma_one_more(x, m, p);
    }
    lemma_in_longer(m + p);
}

proof fn lemma_list_on_page(
    s: StateView,
    subnet: SubnetView,
    idx: nat,
    q: ListQueryView,
    refresh: Refresh,
    part: Seq<char>,
)
    requires
        has_text(list_text(s, subnet, idx, q), part),
    ensures
        has_text(list_body(s, subnet, idx, q, refresh), part),
{
    let bar = bar_text(subnet, idx, needle_of(q.q), sort_field_of(q.sort), is_desc(q.dir));
    let button = apply_button(socket_of(s.file), s.pending);
    lemma_in_both(bar + button, list_text(s, subnet, idx, q), part);
    let (tab, banner) = (tab_strip_text("hosts"@, "/subnet/"@ + dec(idx)), banner_text(refresh, s.pending, list_url(idx, q)));
    lemma_in_both(tab + banner, panel_text(s, subnet, idx, q), part);
}

/// The page of the leases holds the tabs, what there is to tell of the file with the way back to the same
/// page, what is searched for or which page it is, the way to the other pages, and the order that is sent
/// along with a search.
pub proof fn law_lease_page_holds_what_is_around(
    s: StateView,
    q: LeasesQueryView,
    refresh: Refresh,
    text: Option<Seq<char>>,
    now: u64,
)
    ensures
        ({
            let page = rendered_leases(s, q, refresh, text, Ok(now))->Ok_0;
            let needle = needle_of(q.q);
            let total = shown_leases(lease_source(lease_db_of(s.file), text).0, q, now).len();
            let (pages, current, first, end) = window_of(total, q.page, needle.len() > 0);
            &&& has_text(page, tab_strip_text("leases"@, "/subnet/0"@))
            &&& has_text(page, banner_text(refresh, s.pending, leases_url(q, None)))
            &&& has_text(page, match_text(needle) + pages_text(needle, current, pages))
            &&& has_text(page, lease_pager(q, pages, current))
            &&& has_text(page, sort_vals_text(lease_field_of(q.sort), q.dir == Some("desc"@)))
        }),
{
    let source = lease_source(lease_db_of(s.file), text);
    let needle = needle_of(q.q);
    let w = window_of(shown_leases(source.0, q, now).len(), q.page, needle.len() > 0);
    let panel = lease_panel(source, summaries_of(s.file), hwaddrs_of(elements(subnets(s.file))), q, now);
    let (tab, banner) = (tab_strip_text("leases"@, "/subnet/0"@), banner_text(refresh, s.pending, leases_url(q, None)));
    lemma_two_and_more(tab, banner, panel);
    lemma_panel_holds(source, summaries_of(s.file), hwaddrs_of(elements(subnets(s.file))), q, now);
    lemma_in_both(tab + banner, panel, lease_pager(q, w.0, w.1));
    lemma_in_both(tab + banner, panel, match_text(needle) + pages_text(needle, w.1, w.0));
    lemma_in_both(tab + banner, panel, sort_vals_text(lease_field_of(q.sort), is_desc(q.dir)));
}

proof fn lemma_panel_holds(
    source: (Seq<LeaseView>, Seq<char>),
    subs: Seq<SummaryView>,
    hwaddrs: Seq<Seq<char>>,
    q: LeasesQueryView,
    now: u64,
)
    ensures
        ({
            let panel = lease_panel(source, subs, hwaddrs, q, now);
            let needle = needle_of(q.q);
            let w = window_of(shown_leases(source.0, q, now).len(), q.page, needle.len() > 0);
            &&& has_text(panel, lease_pager(q, w.0, w.1))
            &&& has_text(panel, match_text(needle) + pages_text(needle, w.1, w.0))
            &&& has_text(panel, sort_vals_text(lease_field_of(q.sort), is_desc(q.dir)))
        }),
{
    let panel = lease_panel(source, subs, hwaddrs, q, now);
    let needle = needle_of(q.q);
    let w = window_of(shown_leases(source.0, q, now).len(), q.page, needle.len() > 0);
    let (m, p) = (match_text(needle), pages_text(needle, w.1, w.0));
    assert(has_text(panel, lease_pager(q, w.0, w.1))) by {
        lemma_in_longer(lease_pager(q, w.0, w.1));
    }
    assert(has_text(panel, sort_vals_text(lease_field_of(q.sort), is_desc(q.dir)))) by {
        lemma_in_longer(sort_vals_text(lease_field_of(q.sort), is_desc(q.dir)));
    }
    assert(has_text(panel, m + p)) by {
        assert forall|x: Seq<char>| #[trigger] (x + m + p) == x + (m + p) by {
            lemma_one_more(x, m, p);
        }
        lemma_in_longer(m + p);
    }
}

/// The page of a form holds the tabs, and what there is to tell of the file with the way back to the form.
pub proof fn law_form_page_holds_what_is_around(
    s: StateView,
    idx: nat,
    ridx: Option<usize>,
    shown: Option<ReservationView>,
    refresh: Refresh,
    mac: Option<Seq<char>>,
)
    ensures
        ({
            let body = form_body(s, idx, ridx, shown, refresh, mac);
            let place = if ridx is Some {
                "/subnet/"@ + dec(idx) + "/res/"@ + dec(ridx->0 as nat) + "/edit"@
            } else {
                "/subnet/"@ + dec(idx) + "/new"@
            };
            &&& has_text(body, tab_strip_text("hosts"@, "/subnet/"@ + dec(idx)))
            &&& has_text(body, banner_text(refresh, s.pending, place))
        }),
{
    let tab = tab_strip_text("hosts"@, "/subnet/"@ + dec(idx));
    let banner = banner_text(refresh, s.pending, form_path(idx, ridx));
    lemma_two_and_more(
        tab,
        banner,
        form_text(idx, ridx, shown, Seq::empty(), Seq::empty(), mac),
    );
}

/// Where no lease is shown, the table says so, and otherwise it holds the rows.
pub proof fn law_empty_table_says_so(
    list: Seq<LeaseView>,
    places: Seq<usize>,
    subs: Seq<SummaryView>,
    hwaddrs: Seq<Seq<char>>,
    now: u64,
)
    ensures
        places.len() == 0 ==> lease_table(list, places, subs, hwaddrs, now)
            == r#"<tr><td colspan="7"><p>沒有符合的租用</p></td></tr>"#@,
        places.len() > 0 ==> lease_table(list, places, subs, hwaddrs, now) == lease_rows(list, places, subs, hwaddrs, now),
{
}

/// Where the hardware address of the one who asks is not known, the form says so.
pub proof fn law_unknown_neighbour_is_told(
    idx: nat,
    ridx: Option<usize>,
    shown: Option<ReservationView>,
    errors: Seq<Seq<char>>,
)
    ensures
        has_text(
            form_text(idx, ridx, shown, errors, Seq::empty(), None),
            r#"<span class="hint">無法取得連線主機 MAC（需與本系統同一層網路）</span>"#@,
        ),
{
    lemma_in_longer(r#"<span class="hint">無法取得連線主機 MAC（需與本系統同一層網路）</span>"#@);
}

/// What marks the link to what is shown.
pub open spec fn mark(here: bool) -> Seq<char> {
    if here {
        r#"<a class="btn primary" href=""#@
    } else {
        r#"<a class="btn" href=""#@
    }
}

/// What a link is marked with, put together from its parts.
proof fn lemma_mark(here: bool)
    ensures
        r#"<a class="btn"#@ + primary_if(here) + r#"" href=""#@ == mark(here),
{
    reveal_strlit(r#"<a class="btn"#);
    reveal_strlit(" primary");
    reveal_strlit("");
    reveal_strlit(r#"" href=""#);
    reveal_strlit(r#"<a class="btn primary" href=""#);
    reveal_strlit(r#"<a class="btn" href=""#);
    assert(r#"<a class="btn"#@ + primary_if(here) + r#"" href=""#@ =~= mark(here));
}

/// The link to the page that is shown is marked, and no other is.
pub proof fn law_shown_page_is_marked(idx: nat, pages: nat, current: nat, needle: Seq<char>, k: nat)
    requires
        1 < pages,
        k < pages,
    ensures
        has_text(pager_text(idx, pages, current, needle), mark(k == current) + "/subnet/"@ + dec(idx) + "?page="@ + dec(k)),
{
    lemma_marked_link(idx, pages, current, needle, k);
}

proof fn lemma_marked_link(idx: nat, n: nat, current: nat, needle: Seq<char>, k: nat)
    requires
        k < n,
    ensures
        has_text(links_text(idx, n, current, needle), mark(k == current) + "/subnet/"@ + dec(idx) + "?page="@ + dec(k)),
    decreases n,
{
    let part = mark(k == current) + "/subnet/"@ + dec(idx) + "?page="@ + dec(k);
    let item = r#"<a class="btn"#@ + primary_if(n - 1 == current) + r#"" href="/subnet/"#@ + dec(idx) + "?page="@
        + dec((n - 1) as nat) + search_suffix(needle) + r#"">"#@ + dec(n) + "</a> "@;
    if k < n - 1 {
        lemma_marked_link(idx, (n - 1) as nat, current, needle, k);
    } else {
        lemma_mark_of_subnet(k == current);
        let start = r#"<a class="btn"#@ + primary_if(n - 1 == current) + r#"" href="/subnet/"#@ + dec(idx)
            + "?page="@ + dec((n - 1) as nat);
        assert(start == part);
        lemma_in_longer(part);
        assert(has_text(item, part));
    }
    lemma_in_both(links_text(idx, (n - 1) as nat, current, needle), item, part);
}

proof fn lemma_mark_of_subnet(here: bool)
    ensures
        r#"<a class="btn"#@ + primary_if(here) + r#"" href="/subnet/"#@ == mark(here) + "/subnet/"@,
{
    lemma_mark(here);
    reveal_strlit(r#"" href="/subnet/"#);
    reveal_strlit(r#"" href=""#);
    reveal_strlit("/subnet/");
    assert(r#"" href="/subnet/"#@ =~= r#"" href=""#@ + "/subnet/"@);
    lemma_one_more(
        r#"<a class="btn"#@ + primary_if(here),
        r#"" href=""#@,
        "/subnet/"@,
    );
}

/// In the list of subnets, the link to the one that is shown is marked, and no other is.
pub proof fn law_shown_subnet_is_marked(s: SummaryView, current: nat)
    ensures
        has_text(dialog_item(s, current), mark(s.index == current) + "/subnet/"@ + dec(s.index)),
{
    let part = mark(s.index == current) + "/subnet/"@ + dec(s.index);
    lemma_mark_of_subnet(s.index == current);
    reveal_strlit(r#"<li><a class="btn"#);
    reveal_strlit("<li>");
    reveal_strlit(r#"<a class="btn"#);
    let (li, a) = ("<li>"@, r#"<a class="btn"#@);
    assert(r#"<li><a class="btn"#@ =~= li + a);
    let (p, h, n) = (primary_if(s.index == current), r#"" href="/subnet/"#@, dec(s.index));
    lemma_behind(li, a, p, h, n);
    assert(a + p + h + n == part);
    let start = li + a + p + h + n;
    lemma_in_longer(part);
    assert(has_text(start, part));
}

proof fn lemma_behind(l: Seq<char>, a: Seq<char>, b: Seq<char>, c: Seq<char>, d: Seq<char>)
    ensures
        has_text(l + a + b + c + d, a + b + c + d),
{
    let whole = l + a + b + c + d;
    let part = a + b + c + d;
    let n = l.len() as int;
    assert(whole.subrange(n, n + part.len()) =~= part);
    assert(stands_at(whole, part, n));
}

/// The link to the page of leases that is shown is marked, and no other is.
pub proof fn law_shown_lease_page_is_marked(q: LeasesQueryView, p: usize, current: nat)
    ensures
        has_text(lease_link(q, p, current), mark(p == current) + escaped(leases_url(q, Some(p)))),
{
    let part = mark(p == current) + escaped(leases_url(q, Some(p)));
    lemma_mark(p == current);
    lemma_in_longer(part);
}

/// All subnets together can be chosen too, and that is marked exactly where no subnet is chosen.
pub proof fn law_all_subnets_can_be_chosen(list: Seq<SummaryView>, chosen: Option<u32>)
    ensures
        has_text(
            subnet_options(list, chosen),
            r#"<option value="""#@ + (if chosen is None {
                " selected"@
            } else {
                ""@
            }) + ">全部 subnet</option>"@,
        ),
    decreases list.len(),
{
    let part = r#"<option value="""#@ + (if chosen is None {
        " selected"@
    } else {
        ""@
    }) + ">全部 subnet</option>"@;
    lemma_in_longer(part);
    if list.len() > 0 {
        law_all_subnets_can_be_chosen(list.drop_last(), chosen);
    }
}

} // verus!
