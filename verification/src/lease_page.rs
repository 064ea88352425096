//! The page of the leases: what was handed out, filtered, ordered and divided into pages.
use vstd::prelude::*;
use vstd::string::*;
use vstd::utf8::encode_utf8;

use crate::addr::ip_text;
use crate::error::KeaError;
use crate::file::{
    elements, hwaddrs_of, lease_db_of, subnets, summaries_of, summary_views, LeaseDb, LeaseDbView, SubnetSummary,
    SummaryView,
};
use crate::html::{
    escape, escaped, page_window, primary, primary_if, sort_hx_vals, sort_vals_text, tab_strip, tab_strip_text,
    window_of,
};
use crate::leases::{
    lease_views, leases_of, matches_state_filter, parse, passes, remaining, remaining_text, row_label, row_state_label,
    Lease, LeaseView,
};
use crate::list::{
    in_direction, law_values_decide, lemma_same_length_parts, lemma_text_zero_free, make_row_key, match_phrase,
    match_text, needle_of, page_phrase, pages_text, row_key, search_needle, small_before,
};
use crate::number::{dec, decimal, number, parse_number};
use crate::order::{
    arrange, arranged, be, be_bytes, be_limit, keys_of, law_arranged_ascends, law_arranged_keeps_items, law_be_order,
    lemma_places_where, lex_lt, places_where,
};
use crate::query::{
    is_desc, is_text, leases_page_url, leases_th_link, leases_th_text, leases_url, or_empty, text_or_empty,
    LeasesQuery, LeasesQueryView,
};
use crate::state::{banner_text, external_banner_html, AppState, Refresh, StateView};
use crate::text::{
    contains_text, has_text, is_empty, is_listed, lowercase, opt_text, same, texts, to_lowercase,
};

verus! {

/// The leases to show, and what there is to say where there is no file of them: the configuration
/// does not tell where it is, it is not there, or it cannot be read.
pub open spec fn lease_source(db: LeaseDbView, text: Option<Seq<char>>) -> (Seq<LeaseView>, Seq<char>) {
    match db {
        LeaseDbView::Unavailable(msg) => (Seq::empty(), r#"<p class="warn">"#@ + escaped(msg) + "</p>"@),
        LeaseDbView::Memfile(path) => match text {
            Some(t) => match leases_of(t) {
                Ok(list) => (list, Seq::empty()),
                Err(e) => (Seq::empty(), r#"<p class="warn">租用檔無法解析："#@ + escaped(e) + "</p>"@),
            },
            None => (Seq::empty(), r#"<p class="warn">租用檔不存在："#@ + escaped(path) + "</p>"@),
        },
    }
}

/// The leases to show, and what there is to say where there is no file of them.
fn find_leases(db: &LeaseDb, text: &Option<String>) -> (r: (Vec<Lease>, String))
    ensures
        (lease_views(r.0@), r.1@) == lease_source(db@, opt_text(*text)),
{
    let none: Vec<Lease> = Vec::new();
    assert(lease_views(none@) =~= Seq::<LeaseView>::empty());
    match db {
        LeaseDb::Unavailable(msg) => {
            let mut out: String = r#"<p class="warn">"#.to_owned();
            out.append(escape(msg.as_str()).as_str());
            out.append("</p>");
            (none, out)
        },
        LeaseDb::Memfile(path) => match text {
            Some(t) => match parse(t.as_str()) {
                Ok(list) => (list, String::new()),
                Err(e) => {
                    let mut out: String = r#"<p class="warn">租用檔無法解析："#.to_owned();
                    out.append(escape(e.message.as_str()).as_str());
                    out.append("</p>");
                    (none, out)
                },
            },
            None => {
                let mut out: String = r#"<p class="warn">租用檔不存在："#.to_owned();
                out.append(escape(path.as_str()).as_str());
                out.append("</p>");
                (none, out)
            },
        },
    }
}

/// The subnet that is asked for, by its id; none where the text is no number.
pub open spec fn chosen_subnet(subnet: Option<Seq<char>>) -> Option<u32> {
    match subnet {
        Some(s) => if s.len() == 0 {
            None
        } else {
            match number(s, u32::MAX as nat) {
                Some(n) => Some(n as u32),
                None => None,
            }
        },
        None => None,
    }
}

/// The subnet that is asked for, by its id; none where the text is no number.
fn choose_subnet(subnet: &Option<String>) -> (r: Option<u32>)
    ensures
        r == chosen_subnet(opt_text(*subnet)),
{
    match subnet {
        Some(s) => {
            if is_empty(s.as_str()) {
                None
            } else {
                match parse_number(s.as_str(), u32::MAX as u64) {
                    Some(n) => Some(n as u32),
                    None => None,
                }
            }
        },
        None => None,
    }
}

/// The text in small letters; empty where there is none.
pub open spec fn lower_or_empty(s: Option<Seq<char>>) -> Seq<char> {
    match s {
        Some(t) => lowercase(t),
        None => Seq::empty(),
    }
}

/// The text in small letters; empty where there is none.
fn lowered(s: &Option<String>) -> (r: String)
    ensures
        r@ == lower_or_empty(opt_text(*s)),
{
    match s {
        Some(t) => to_lowercase(t.as_str()),
        None => String::new(),
    }
}

/// Whether a search finds a lease: by its address, its hardware address, its client id or its
/// hostname. An empty search finds every lease.
pub open spec fn finds_lease(needle: Seq<char>, l: LeaseView) -> bool {
    needle.len() == 0 || has_text(ip_text(l.address), needle) || has_text(lower_or_empty(l.hwaddr), needle) || has_text(
        lower_or_empty(l.client_id),
        needle,
    ) || has_text(lower_or_empty(l.hostname), needle)
}

/// Whether a lease is one of those that are asked for: by state, by subnet, and by the search.
pub open spec fn wanted(l: LeaseView, filter: Seq<char>, subnet: Option<u32>, needle: Seq<char>, now: u64) -> bool {
    passes(l, filter, now) && (subnet is Some ==> l.subnet_id == subnet) && finds_lease(needle, l)
}

/// Whether a lease is one of those that are asked for.
fn is_wanted(l: &Lease, filter: &str, subnet: Option<u32>, needle: &str, now: u64) -> (r: bool)
    ensures
        r == wanted(l@, filter@, subnet, needle@, now),
{
    if !matches_state_filter(l, filter, now) {
        return false;
    }
    let here: bool = match subnet {
        None => true,
        Some(id) => match l.subnet_id {
            Some(x) => x == id,
            None => false,
        },
    };
    if !here {
        return false;
    }
    is_empty(needle) || contains_text(l.address.to_string().as_str(), needle) || contains_text(
        lowered(&l.hwaddr).as_str(),
        needle,
    ) || contains_text(lowered(&l.client_id).as_str(), needle) || contains_text(lowered(&l.hostname).as_str(), needle)
}

/// The leases that are asked for.
pub open spec fn chooser(filter: Seq<char>, subnet: Option<u32>, needle: Seq<char>, now: u64) -> spec_fn(
    LeaseView,
) -> bool {
    |l: LeaseView| wanted(l, filter, subnet, needle, now)
}

/// The places of the leases that are asked for, in their order.
pub open spec fn wanted_places(
    list: Seq<LeaseView>,
    filter: Seq<char>,
    subnet: Option<u32>,
    needle: Seq<char>,
    now: u64,
) -> Seq<usize> {
    places_where(list, chooser(filter, subnet, needle, now))
}

/// The key by which a lease is ordered: by its address as a number, its hardware address or its
/// hostname. One without the value comes last.
pub open spec fn lease_key(l: LeaseView, sort: Seq<char>, desc: bool, place: nat) -> Seq<u8> {
    if sort == "address"@ {
        row_key(true, be(l.address as nat, 4), desc, place)
    } else {
        match (if sort == "hwaddr"@ {
            l.hwaddr
        } else {
            l.hostname
        }) {
            Some(t) => row_key(true, encode_utf8(lowercase(t)), desc, place),
            None => row_key(false, Seq::empty(), desc, place),
        }
    }
}

/// The key of a row by an optional text.
fn text_key(s: &Option<String>, desc: bool, orig: usize) -> (r: Vec<u8>)
    ensures
        r@ == (match opt_text(*s) {
            Some(t) => row_key(true, encode_utf8(lowercase(t)), desc, orig as nat),
            None => row_key(false, Seq::empty(), desc, orig as nat),
        }),
        *s is Some && !(*s)->0@.contains('\0') ==> !lowercase((*s)->0@).contains('\0'),
{
    match s {
        Some(t) => make_row_key(true, to_lowercase(t.as_str()).as_str().as_bytes(), desc, orig),
        None => {
            let none: Vec<u8> = Vec::new();
            assert(none@ =~= Seq::<u8>::empty());
            make_row_key(false, none.as_slice(), desc, orig)
        },
    }
}

/// The text that a column holds of a lease, where it holds texts.
pub open spec fn text_column(l: LeaseView, sort: Seq<char>) -> Option<Seq<char>> {
    if sort == "hwaddr"@ {
        l.hwaddr
    } else if sort == "hostname"@ {
        l.hostname
    } else {
        None
    }
}

/// The key by which a lease is ordered. A hostname or hardware address without the zero character
/// stands behind every smaller one where the order is ascending, and before it where it is
/// descending.
pub fn lease_sort_key(l: &Lease, sort: &str, desc: bool, orig: usize) -> (key: Vec<u8>)
    ensures
        key@ == lease_key(l@, sort@, desc, orig as nat),
        text_column(l@, sort@) is Some && !text_column(l@, sort@)->0.contains('\0') ==> forall|x: LeaseView, i: nat|
            text_column(x, sort@) is Some && small_before(text_column(x, sort@)->0, text_column(l@, sort@)->0)
                ==> in_direction(#[trigger] lease_key(x, sort@, desc, i), key@, desc),
{
    proof {
        lemma_lease_fields();
        if text_column(l@, sort@) is Some && !lowercase(text_column(l@, sort@)->0).contains('\0') {
            assert forall|x: LeaseView, i: nat|
                text_column(x, sort@) is Some && small_before(
                    text_column(x, sort@)->0,
                    text_column(l@, sort@)->0,
                ) implies in_direction(
                #[trigger] lease_key(x, sort@, desc, i),
                lease_key(l@, sort@, desc, orig as nat),
                desc,
            ) by {
                lemma_lease_texts_decide(text_column(x, sort@)->0, text_column(l@, sort@)->0, x, l@, i, orig as nat);
            }
        }
    }
    if same(sort, "address") {
        let bytes: Vec<u8> = be_bytes(l.address.bits as u64, 4);
        make_row_key(true, bytes.as_slice(), desc, orig)
    } else if same(sort, "hwaddr") {
        text_key(&l.hwaddr, desc, orig)
    } else {
        text_key(&l.hostname, desc, orig)
    }
}

/// The order of leases by address is that of the addresses as numbers, in either direction.
pub proof fn law_lease_order_is_numeric(a: LeaseView, b: LeaseView, i: nat, j: nat)
    requires
        a.address < b.address,
    ensures
        lex_lt(lease_key(a, "address"@, false, i), lease_key(b, "address"@, false, j)),
        lex_lt(lease_key(b, "address"@, true, j), lease_key(a, "address"@, true, i)),
{
    reveal_with_fuel(be_limit, 5);
    law_be_order(a.address as nat, b.address as nat, 4);
    lemma_same_length_parts(be(a.address as nat, 4), be(b.address as nat, 4));
    law_values_decide(be(a.address as nat, 4), be(b.address as nat, 4), i, j);
}

/// Hostnames and hardware addresses decide the order of two leases that have one, by the bytes of
/// their small letters, and descending is the reverse of ascending.
pub proof fn lemma_lease_texts_decide(a: Seq<char>, b: Seq<char>, x: LeaseView, y: LeaseView, i: nat, j: nat)
    requires
        !lowercase(b).contains('\0'),
        small_before(a, b),
    ensures
        x.hostname == Some(a) && y.hostname == Some(b) ==> lex_lt(
            lease_key(x, "hostname"@, false, i),
            lease_key(y, "hostname"@, false, j),
        ) && lex_lt(lease_key(y, "hostname"@, true, j), lease_key(x, "hostname"@, true, i)),
        x.hwaddr == Some(a) && y.hwaddr == Some(b) ==> lex_lt(
            lease_key(x, "hwaddr"@, false, i),
            lease_key(y, "hwaddr"@, false, j),
        ) && lex_lt(lease_key(y, "hwaddr"@, true, j), lease_key(x, "hwaddr"@, true, i)),
{
    lemma_lease_fields();
    lemma_text_zero_free(lowercase(b));
    law_values_decide(encode_utf8(lowercase(a)), encode_utf8(lowercase(b)), i, j);
}

/// The names of the columns are different names.
pub proof fn lemma_lease_fields()
    ensures
        "hostname"@ != "hwaddr"@,
        "hostname"@ != "address"@,
        "hwaddr"@ != "address"@,
{
    reveal_strlit("hostname");
    reveal_strlit("hwaddr");
    reveal_strlit("address");
    assert("hostname"@.len() == 8 && "hwaddr"@.len() == 6 && "address"@.len() == 7);
}

/// A lease without the value that orders the rows comes after all that have it, in either
/// direction.
pub proof fn law_no_value_comes_last(a: LeaseView, b: LeaseView, desc: bool, i: nat, j: nat)
    ensures
        a.hostname is Some && b.hostname is None ==> lex_lt(
            lease_key(a, "hostname"@, desc, i),
            lease_key(b, "hostname"@, desc, j),
        ),
        a.hwaddr is Some && b.hwaddr is None ==> lex_lt(
            lease_key(a, "hwaddr"@, desc, i),
            lease_key(b, "hwaddr"@, desc, j),
        ),
{
    lemma_lease_fields();
}

/// The column that orders the rows, where it is one that can.
pub open spec fn lease_field_of(sort: Option<Seq<char>>) -> Option<Seq<char>> {
    match sort {
        Some(s) => if s == "address"@ || s == "hwaddr"@ || s == "hostname"@ {
            Some(s)
        } else {
            None
        },
        None => None,
    }
}

/// The column that orders the rows, where it is one that can.
fn lease_field(sort: &Option<String>) -> (r: Option<String>)
    ensures
        opt_text(r) == lease_field_of(opt_text(*sort)),
{
    match sort {
        Some(s) => {
            if same(s.as_str(), "address") || same(s.as_str(), "hwaddr") || same(s.as_str(), "hostname") {
                Some(s.clone())
            } else {
                None
            }
        },
        None => None,
    }
}

/// The keys of the rows at some places.
pub open spec fn lease_keys(list: Seq<LeaseView>, places: Seq<usize>, sort: Seq<char>, desc: bool) -> Seq<Seq<u8>> {
    places.map_values(|p: usize| lease_key(list[p as int], sort, desc, p as nat))
}

/// The places of the leases that a query asks for, in the order in which they are shown.
pub open spec fn shown_leases(list: Seq<LeaseView>, q: LeasesQueryView, now: u64) -> Seq<usize> {
    let found = wanted_places(list, text_or_empty(q.state), chosen_subnet(q.subnet), needle_of(q.q), now);
    match lease_field_of(q.sort) {
        Some(s) => arranged(found, lease_keys(list, found, s, is_desc(q.dir))),
        None => found,
    }
}

/// The rows that are shown are the leases that the query asks for, each once, whatever the order.
pub proof fn law_shown_are_the_wanted(list: Seq<LeaseView>, q: LeasesQueryView, now: u64)
    requires
        list.len() <= usize::MAX,
    ensures
        shown_leases(list, q, now).len() <= list.len(),
        shown_leases(list, q, now).no_duplicates(),
        forall|p: usize|
            #[trigger] shown_leases(list, q, now).contains(p) <==> p < list.len() && wanted(
                list[p as int],
                text_or_empty(q.state),
                chosen_subnet(q.subnet),
                needle_of(q.q),
                now,
            ),
{
    let (filter, subnet, needle) = (text_or_empty(q.state), chosen_subnet(q.subnet), needle_of(q.q));
    lemma_places_where(list, chooser(filter, subnet, needle, now));
    let found = wanted_places(list, filter, subnet, needle, now);
    if lease_field_of(q.sort) is Some {
        let keys = lease_keys(list, found, lease_field_of(q.sort)->0, is_desc(q.dir));
        law_arranged_keeps_items(found, keys);
        let shown = shown_leases(list, q, now);
        assert forall|p: usize| #[trigger] shown.contains(p) <==> p < list.len() && wanted(
            list[p as int],
            filter,
            subnet,
            needle,
            now,
        ) by {
            assert(shown.contains(p) <==> found.contains(p));
        }
    }
}

/// The rows that are shown ascend by their keys, where a column orders them.
pub proof fn law_shown_leases_ascend(list: Seq<LeaseView>, q: LeasesQueryView, now: u64, i: int, j: int)
    requires
        list.len() <= usize::MAX,
        lease_field_of(q.sort) is Some,
        0 <= i < j < shown_leases(list, q, now).len(),
    ensures
        ({
            let shown = shown_leases(list, q, now);
            let sort = lease_field_of(q.sort)->0;
            let desc = is_desc(q.dir);
            let a = lease_key(list[shown[i] as int], sort, desc, shown[i] as nat);
            let b = lease_key(list[shown[j] as int], sort, desc, shown[j] as nat);
            a == b || lex_lt(a, b)
        }),
{
    let (filter, subnet, needle) = (text_or_empty(q.state), chosen_subnet(q.subnet), needle_of(q.q));
    let found = wanted_places(list, filter, subnet, needle, now);
    let keys = lease_keys(list, found, lease_field_of(q.sort)->0, is_desc(q.dir));
    lemma_places_where(list, chooser(filter, subnet, needle, now));
    law_arranged_keeps_items(found, keys);
    law_arranged_ascends(found, keys, i, j);
}

/// The places of the leases that are asked for.
fn find_wanted(list: &Vec<Lease>, filter: &str, subnet: Option<u32>, needle: &str, now: u64) -> (r: Vec<usize>)
    ensures
        r@ == wanted_places(lease_views(list@), filter@, subnet, needle@, now),
{
    let ghost all = lease_views(list@);
    let mut out: Vec<usize> = Vec::new();
    let mut i: usize = 0;
    assert(out@ =~= wanted_places(all.take(0), filter@, subnet, needle@, now));
    while i < list.len()
        invariant
            i <= list@.len(),
            all == lease_views(list@),
            out@ == wanted_places(all.take(i as int), filter@, subnet, needle@, now),
        decreases list@.len() - i,
    {
        assert(all.take(i + 1).drop_last() =~= all.take(i as int));
        assert(all.take(i + 1).last() == list@[i as int]@);
        if is_wanted(&list[i], filter, subnet, needle, now) {
            out.push(i);
        }
        i = i + 1;
    }
    assert(all.take(all.len() as int) =~= all);
    out
}

/// The places of the leases that a query asks for, in the order in which they are shown.
pub fn order_leases(list: &Vec<Lease>, q: &LeasesQuery, now: u64) -> (r: Vec<usize>)
    ensures
        r@ == shown_leases(lease_views(list@), q@, now),
        forall|i: int| 0 <= i < r@.len() ==> (#[trigger] r@[i]) < list@.len(),
{
    let ghost all = lease_views(list@);
    let n: usize = list.len();
    proof {
        law_shown_are_the_wanted(all, q@, now);
    }
    let found: Vec<usize> = find_wanted(
        list,
        or_empty(&q.state).as_str(),
        choose_subnet(&q.subnet),
        search_needle(&q.q).as_str(),
        now,
    );
    proof {
        lemma_places_where(
            all,
            chooser(text_or_empty(q@.state), chosen_subnet(q@.subnet), needle_of(q@.q), now),
        );
    }
    assert forall|i: int| 0 <= i < found@.len() implies (#[trigger] found@[i]) < list@.len() by {
        assert(found@.contains(found@[i]));
    }
    let field: String = match lease_field(&q.sort) {
        Some(s) => s,
        None => {
            return found;
        },
    };
    let desc: bool = is_text(&q.dir, "desc");
    let mut keys: Vec<Vec<u8>> = Vec::new();
    let ghost goal = lease_keys(all, found@, field@, desc);
    let mut i: usize = 0;
    assert(keys_of(keys@) =~= goal.take(0));
    while i < found.len()
        invariant
            i <= found@.len(),
            all == lease_views(list@),
            goal == lease_keys(all, found@, field@, desc),
            forall|i: int| 0 <= i < found@.len() ==> (#[trigger] found@[i]) < list@.len(),
            keys_of(keys@) == goal.take(i as int),
        decreases found@.len() - i,
    {
        let ghost before = keys@;
        let place: usize = found[i];
        assert(all[place as int] == list@[place as int]@);
        let key: Vec<u8> = lease_sort_key(&list[place], field.as_str(), desc, place);
        keys.push(key);
        assert(keys_of(keys@) =~= keys_of(before).push(key@));
        assert(goal.take(i + 1) =~= goal.take(i as int).push(goal[i as int]));
        i = i + 1;
    }
    assert(goal.take(goal.len() as int) =~= goal);
    assert(keys_of(keys@).len() == keys@.len());
    let out: Vec<usize> = arrange(&found, &keys);
    let ghost shown = shown_leases(all, q@, now);
    assert forall|i: int| 0 <= i < out@.len() implies (#[trigger] out@[i]) < list@.len() by {
        assert(shown.contains(shown[i]));
    }
    out
}

/// The network of the first subnet that has an id; a question mark where none has it.
pub open spec fn cidr_of(subnets: Seq<SummaryView>, id: Option<u32>) -> Seq<char>
    decreases subnets.len(),
{
    if id is None || subnets.len() == 0 {
        "?"@
    } else if subnets[0].id == id {
        subnets[0].cidr
    } else {
        cidr_of(subnets.drop_first(), id)
    }
}

/// The network of the first subnet that has an id.
fn find_cidr(subnets: &Vec<SubnetSummary>, id: Option<u32>) -> (r: String)
    ensures
        r@ == cidr_of(summary_views(subnets@), id),
{
    let ghost all = summary_views(subnets@);
    let wanted_id: u32 = match id {
        Some(n) => n,
        None => {
            return "?".to_owned();
        },
    };
    let mut i: usize = 0;
    assert(all.skip(0) =~= all);
    while i < subnets.len()
        invariant
            i <= subnets@.len(),
            all == summary_views(subnets@),
            id == Some(wanted_id),
            cidr_of(all, id) == cidr_of(all.skip(i as int), id),
        decreases subnets@.len() - i,
    {
        assert(all.skip(i as int)[0] == subnets@[i as int]@);
        let hit: bool = match subnets[i].id {
            Some(n) => n == wanted_id,
            None => false,
        };
        if hit {
            return subnets[i].cidr.clone();
        }
        assert(all.skip(i as int).drop_first() =~= all.skip(i + 1));
        i = i + 1;
    }
    "?".to_owned()
}

/// Whom a lease is given to: the hardware address, or the client id, or a dash.
pub open spec fn id_text(l: LeaseView) -> Seq<char> {
    match (l.hwaddr, l.client_id) {
        (Some(h), _) => escaped(lowercase(h)),
        (None, Some(c)) => escaped(c),
        (None, None) => r#"<span class="dim">—</span>"#@,
    }
}

/// Whom a lease is given to.
fn id_html(l: &Lease) -> (r: String)
    ensures
        r@ == id_text(l@),
{
    match &l.hwaddr {
        Some(h) => escape(to_lowercase(h.as_str()).as_str()),
        None => match &l.client_id {
            Some(c) => escape(c.as_str()),
            None => r#"<span class="dim">—</span>"#.to_owned(),
        },
    }
}

/// Whether a lease is given to a hardware address that has a reservation.
pub open spec fn is_reserved(l: LeaseView, hwaddrs: Seq<Seq<char>>) -> bool {
    l.hwaddr is Some && hwaddrs.contains(lowercase(l.hwaddr->0))
}

/// The badge of a lease whose hardware address has a reservation.
pub open spec fn badge_text(l: LeaseView, hwaddrs: Seq<Seq<char>>) -> Seq<char> {
    if is_reserved(l, hwaddrs) {
        r#"<span class="badge">保留</span>"#@
    } else {
        ""@
    }
}

/// The badge of a lease whose hardware address has a reservation.
fn badge_html(l: &Lease, hwaddrs: &Vec<String>) -> (r: &'static str)
    ensures
        r@ == badge_text(l@, texts(hwaddrs@)),
{
    let reserved: bool = match &l.hwaddr {
        Some(h) => is_listed(hwaddrs, to_lowercase(h.as_str()).as_str()),
        None => false,
    };
    if reserved {
        r#"<span class="badge">保留</span>"#
    } else {
        ""
    }
}

/// The cell that says how long a lease still has, with how long it was given for.
pub open spec fn remain_text(l: LeaseView, now: u64) -> Seq<char> {
    let left = match remaining(l.expire, now) {
        Some(t) => t,
        None => "已過期"@,
    };
    r#"<td title="租用期 "#@ + dec(l.valid_lifetime as nat) + r#" 秒">"#@ + left + "</td>"@
}

/// The cell that says how long a lease still has.
fn remain_html(l: &Lease, now: u64) -> (r: String)
    ensures
        r@ == remain_text(l@, now),
{
    let left: String = match remaining_text(l.expire, now) {
        Some(t) => t,
        None => "已過期".to_owned(),
    };
    let mut out: String = r#"<td title="租用期 "#.to_owned();
    out.append(decimal(l.valid_lifetime as u64).as_str());
    out.append(r#" 秒">"#);
    out.append(left.as_str());
    out.append("</td>");
    out
}

/// A row of the list: a lease.
pub open spec fn lease_row(l: LeaseView, subnets: Seq<SummaryView>, hwaddrs: Seq<Seq<char>>, now: u64) -> Seq<char> {
    r#"<tr>
<td>"#@ + escaped(ip_text(l.address)) + "</td><td>"@ + id_text(l) + "</td><td>"@ + escaped(text_or_empty(l.hostname)) + "</td><td>"@ + escaped(cidr_of(subnets, l.subnet_id)) + "</td><td>"@ + row_label(l, now) + "</td>"@ + remain_text(l, now) + "<td>"@ + badge_text(l, hwaddrs) + r#"</td>
</tr>"#@
}

/// A row of the list.
fn lease_row_html(l: &Lease, subnets: &Vec<SubnetSummary>, hwaddrs: &Vec<String>, now: u64) -> (r: String)
    ensures
        r@ == lease_row(l@, summary_views(subnets@), texts(hwaddrs@), now),
{
    let mut out: String = r#"<tr>
<td>"#.to_owned();
    out.append(escape(l.address.to_string().as_str()).as_str());
    out.append("</td><td>");
    out.append(id_html(l).as_str());
    out.append("</td><td>");
    out.append(escape(or_empty(&l.hostname).as_str()).as_str());
    out.append("</td><td>");
    out.append(escape(find_cidr(subnets, l.subnet_id).as_str()).as_str());
    out.append("</td><td>");
    out.append(row_state_label(l, now));
    out.append("</td>");
    out.append(remain_html(l, now).as_str());
    out.append("<td>");
    out.append(badge_html(l, hwaddrs));
    out.append(r#"</td>
</tr>"#);
    out
}

/// The rows at some places, after what stands before them.
pub open spec fn lease_rows(
    list: Seq<LeaseView>,
    places: Seq<usize>,
    subnets: Seq<SummaryView>,
    hwaddrs: Seq<Seq<char>>,
    now: u64,
) -> Seq<char>
    decreases places.len(),
{
    if places.len() == 0 {
        Seq::empty()
    } else {
        lease_rows(list, places.drop_last(), subnets, hwaddrs, now) + lease_row(
            list[places.last() as int],
            subnets,
            hwaddrs,
            now,
        )
    }
}

/// The rows of the list; a note where there are none.
pub open spec fn lease_table(
    list: Seq<LeaseView>,
    places: Seq<usize>,
    subnets: Seq<SummaryView>,
    hwaddrs: Seq<Seq<char>>,
    now: u64,
) -> Seq<char> {
    if places.len() == 0 {
        r#"<tr><td colspan="7"><p>沒有符合的租用</p></td></tr>"#@
    } else {
        lease_rows(list, places, subnets, hwaddrs, now)
    }
}

/// The rows at the places `start..end` of those that are shown.
fn lease_table_html(
    list: &Vec<Lease>,
    places: &Vec<usize>,
    start: usize,
    end: usize,
    subnets: &Vec<SubnetSummary>,
    hwaddrs: &Vec<String>,
    now: u64,
) -> (r: String)
    requires
        start <= end <= places@.len(),
        forall|i: int| 0 <= i < places@.len() ==> (#[trigger] places@[i]) < list@.len(),
    ensures
        r@ == lease_table(
            lease_views(list@),
            places@.subrange(start as int, end as int),
            summary_views(subnets@),
            texts(hwaddrs@),
            now,
        ),
{
    if start == end {
        return r#"<tr><td colspan="7"><p>沒有符合的租用</p></td></tr>"#.to_owned();
    }
    let ghost all = lease_views(list@);
    let mut out: String = String::new();
    let mut i: usize = start;
    assert(places@.subrange(start as int, start as int) =~= Seq::<usize>::empty());
    while i < end
        invariant
            start <= i <= end <= places@.len(),
            all == lease_views(list@),
            forall|i: int| 0 <= i < places@.len() ==> (#[trigger] places@[i]) < list@.len(),
            out@ == lease_rows(
                all,
                places@.subrange(start as int, i as int),
                summary_views(subnets@),
                texts(hwaddrs@),
                now,
            ),
        decreases end - i,
    {
        let ghost shown = places@.subrange(start as int, i + 1);
        assert(shown.drop_last() =~= places@.subrange(start as int, i as int));
        assert(shown.last() == places@[i as int]);
        let place: usize = places[i];
        assert(all[place as int] == list@[place as int]@);
        out.append(lease_row_html(&list[place], subnets, hwaddrs, now).as_str());
        i = i + 1;
    }
    out
}

/// The attribute of the option that is chosen.
pub open spec fn selected_if(chosen: bool) -> Seq<char> {
    if chosen {
        " selected"@
    } else {
        ""@
    }
}

/// The attribute of the option that is chosen.
fn selected(chosen: bool) -> (r: &'static str)
    ensures
        r@ == selected_if(chosen),
{
    if chosen {
        " selected"
    } else {
        ""
    }
}

/// A state to filter by.
pub open spec fn state_option(v: Seq<char>, label: Seq<char>, current: Seq<char>) -> Seq<char> {
    r#"<option value=""#@ + v + r#"""#@ + selected_if(v == current) + ">"@ + label + "</option>"@
}

/// A state to filter by.
fn state_option_html(v: &str, label: &str, current: &str) -> (r: String)
    ensures
        r@ == state_option(v@, label@, current@),
{
    let mut out: String = r#"<option value=""#.to_owned();
    out.append(v);
    out.append(r#"""#);
    out.append(selected(same(v, current)));
    out.append(">");
    out.append(label);
    out.append("</option>");
    out
}

/// The states to filter by.
pub open spec fn state_options(current: Seq<char>) -> Seq<char> {
    state_option("active"@, "作用中"@, current) + state_option("all"@, "全部"@, current) + state_option(
        "expired"@,
        "已過期"@,
        current,
    ) + state_option("declined"@, "拒絕"@, current) + state_option("released"@, "已釋放"@, current)
}

/// The states to filter by.
fn state_options_html(current: &str) -> (r: String)
    ensures
        r@ == state_options(current@),
{
    let mut out: String = state_option_html("active", "作用中", current);
    out.append(state_option_html("all", "全部", current).as_str());
    out.append(state_option_html("expired", "已過期", current).as_str());
    out.append(state_option_html("declined", "拒絕", current).as_str());
    out.append(state_option_html("released", "已釋放", current).as_str());
    out
}

/// A subnet to filter by; none for a subnet without an id.
pub open spec fn subnet_option(s: SummaryView, chosen: Option<u32>) -> Seq<char> {
    if s.id is Some {
        r#"<option value=""#@ + dec(s.id->0 as nat) + r#"""#@ + selected_if(chosen == s.id) + ">"@ + s.cidr + "（"@ + dec(s.reservation_count) + " 筆 reservation）</option>"@
    } else {
        Seq::empty()
    }
}

/// A subnet to filter by.
fn subnet_option_html(s: &SubnetSummary, chosen: Option<u32>) -> (r: String)
    ensures
        r@ == subnet_option(s@, chosen),
{
    match s.id {
        Some(id) => {
            let hit: bool = match chosen {
                Some(c) => c == id,
                None => false,
            };
            let mut out: String = r#"<option value=""#.to_owned();
            out.append(decimal(id as u64).as_str());
            out.append(r#"""#);
            out.append(selected(hit));
            out.append(">");
            out.append(s.cidr.as_str());
            out.append("（");
            out.append(decimal(s.reservation_count as u64).as_str());
            out.append(" 筆 reservation）</option>");
            out
        },
        None => String::new(),
    }
}

/// The first subnets to filter by, after the choice of all.
pub open spec fn subnet_options(subnets: Seq<SummaryView>, chosen: Option<u32>) -> Seq<char>
    decreases subnets.len(),
{
    if subnets.len() == 0 {
        r#"<option value="""#@ + selected_if(chosen is None) + ">全部 subnet</option>"@
    } else {
        subnet_options(subnets.drop_last(), chosen) + subnet_option(subnets.last(), chosen)
    }
}

/// The subnets to filter by.
fn subnet_options_html(subnets: &Vec<SubnetSummary>, chosen: Option<u32>) -> (r: String)
    ensures
        r@ == subnet_options(summary_views(subnets@), chosen),
{
    let ghost all = summary_views(subnets@);
    let none: bool = chosen.is_none();
    let mut out: String = r#"<option value="""#.to_owned();
    out.append(selected(none));
    out.append(">全部 subnet</option>");
    let mut i: usize = 0;
    while i < subnets.len()
        invariant
            i <= subnets@.len(),
            all == summary_views(subnets@),
            out@ == subnet_options(all.take(i as int), chosen),
        decreases subnets@.len() - i,
    {
        assert(all.take(i + 1).drop_last() =~= all.take(i as int));
        assert(all.take(i + 1).last() == subnets@[i as int]@);
        out.append(subnet_option_html(&subnets[i], chosen).as_str());
        i = i + 1;
    }
    assert(all.take(all.len() as int) =~= all);
    out
}

/// The link to a page of the list.
pub open spec fn lease_link(q: LeasesQueryView, p: usize, current: nat) -> Seq<char> {
    r#"<a class="btn"#@ + primary_if(p == current) + r#"" href=""#@ + escaped(leases_url(q, Some(p))) + r#"" hx-get=""#@ + escaped(leases_url(q, Some(p))) + r##"" hx-target="#lease-panel" hx-select="#lease-panel" hx-swap="outerHTML">"##@ + dec((p + 1) as nat) + "</a> "@
}

/// The link to a page of the list.
fn lease_link_html(q: &LeasesQuery, p: usize, current: usize) -> (r: String)
    requires
        p < usize::MAX,
    ensures
        r@ == lease_link(q@, p, current as nat),
{
    let url: String = escape(leases_page_url(q, Some(p)).as_str());
    let mut out: String = r#"<a class="btn"#.to_owned();
    out.append(primary(p == current));
    out.append(r#"" href=""#);
    out.append(url.as_str());
    out.append(r#"" hx-get=""#);
    out.append(url.as_str());
    out.append(r##"" hx-target="#lease-panel" hx-select="#lease-panel" hx-swap="outerHTML">"##);
    out.append(decimal(p as u64 + 1).as_str());
    out.append("</a> ");
    out
}

/// The links to the first `n` pages.
pub open spec fn lease_links(q: LeasesQueryView, n: nat, current: nat) -> Seq<char>
    decreases n,
{
    if n == 0 {
        Seq::empty()
    } else {
        lease_links(q, (n - 1) as nat, current) + lease_link(q, (n - 1) as usize, current)
    }
}

/// The links to the pages; none where there is one page.
pub open spec fn lease_pager(q: LeasesQueryView, pages: nat, current: nat) -> Seq<char> {
    if pages > 1 {
        lease_links(q, pages, current)
    } else {
        Seq::empty()
    }
}

/// The links to the pages.
fn lease_pager_html(q: &LeasesQuery, pages: usize, current: usize) -> (r: String)
    ensures
        r@ == lease_pager(q@, pages as nat, current as nat),
{
    let mut out: String = String::new();
    if pages > 1 {
        let mut p: usize = 0;
        while p < pages
            invariant
                p <= pages,
                out@ == lease_links(q@, p as nat, current as nat),
            decreases pages - p,
        {
            out.append(lease_link_html(q, p, current).as_str());
            p = p + 1;
        }
    }
    out
}

/// The heads of the columns that can order the rows.
pub open spec fn lease_heads(q: LeasesQueryView) -> Seq<char> {
    leases_th_text("address"@, "address"@, q) + leases_th_text("hwaddr"@, "hwaddr"@, q) + leases_th_text(
        "hostname"@,
        "hostname"@,
        q,
    )
}

/// The bar and the list of the page of the leases.
pub open spec fn lease_panel(
    source: (Seq<LeaseView>, Seq<char>),
    subnets: Seq<SummaryView>,
    hwaddrs: Seq<Seq<char>>,
    q: LeasesQueryView,
    now: u64,
) -> Seq<char> {
    let needle = needle_of(q.q);
    let field = lease_field_of(q.sort);
    let desc = is_desc(q.dir);
    let chosen = chosen_subnet(q.subnet);
    let shown = shown_leases(source.0, q, now);
    let window = window_of(shown.len(), q.page, needle.len() > 0);
    r#"<div class="bar">
<h1 style="margin:0">作用中租用</h1>
<a class="btn" href=""#@ + escaped(leases_url(q, None)) + r#"">重新整理</a>
<select name="state""#@ + sort_vals_text(field, desc) + r##" hx-get="/leases" hx-trigger="change" hx-target="#lease-panel" hx-select="#lease-panel" hx-swap="outerHTML" hx-include="[name='q'],[name='subnet']" title="狀態篩選">
"##@ + state_options(text_or_empty(q.state)) + r#"
</select>
<select name="subnet""#@ + sort_vals_text(field, desc) + r##" hx-get="/leases" hx-trigger="change" hx-target="#lease-panel" hx-select="#lease-panel" hx-swap="outerHTML" hx-include="[name='q'],[name='state']" title="subnet 篩選">
"##@ + subnet_options(subnets, chosen) + r#"
</select>
<input type="search" name="q" value=""#@ + escaped(needle) + r##"" placeholder="搜尋 address / hwaddr / hostname（即時篩選）" style="flex:1;min-width:260px"
hx-get="/leases" hx-trigger="input changed delay:200ms" hx-target="#lease-panel" hx-select="#lease-panel" hx-swap="outerHTML" hx-include="[name='state'],[name='subnet']""##@ + sort_vals_text(field, desc) + r#">
</div>
"#@ + source.1 + r#"
<div id="lease-panel">
<p>共 "#@ + dec(shown.len()) + " 筆符合"@ + match_text(needle) + pages_text(needle, window.1, window.0) + r#"</p>
<table>
<thead><tr>"#@ + lease_heads(q) + r#"<th>subnet</th><th>state</th><th>到期</th><th>保留</th></tr></thead>
<tbody>"#@ + lease_table(
        source.0,
        shown.subrange(window.2 as int, window.3 as int),
        subnets,
        hwaddrs,
        now,
    ) + r#"</tbody>
</table>
<p>"#@ + lease_pager(q, window.0, window.1) + r#"</p>
</div>"#@
}

/// The bar and the list of the page of the leases.
fn lease_panel_html(
    leases: &Vec<Lease>,
    note: &String,
    subnets: &Vec<SubnetSummary>,
    hwaddrs: &Vec<String>,
    q: &LeasesQuery,
    now: u64,
) -> (r: String)
    ensures
        r@ == lease_panel((lease_views(leases@), note@), summary_views(subnets@), texts(hwaddrs@), q@, now),
{
    let needle: String = search_needle(&q.q);
    let field: Option<String> = lease_field(&q.sort);
    let desc: bool = is_text(&q.dir, "desc");
    let chosen: Option<u32> = choose_subnet(&q.subnet);
    let places: Vec<usize> = order_leases(leases, q, now);
    let total: usize = places.len();
    let (pages, current, start, end) = page_window(total, q.page, !is_empty(needle.as_str()));
    let rows: String = lease_table_html(leases, &places, start, end, subnets, hwaddrs, now);
    let pager: String = lease_pager_html(q, pages, current);
    let own_url: String = escape(leases_page_url(q, None).as_str());
    let sort_vals: String = sort_hx_vals(&field, desc);
    let states: String = state_options_html(or_empty(&q.state).as_str());
    let subnet_choice: String = subnet_options_html(subnets, chosen);
    let mut heads: String = leases_th_link("address", "address", q);
    heads.append(leases_th_link("hwaddr", "hwaddr", q).as_str());
    heads.append(leases_th_link("hostname", "hostname", q).as_str());
    let mut out: String = r#"<div class="bar">
<h1 style="margin:0">作用中租用</h1>
<a class="btn" href=""#.to_owned();
    out.append(own_url.as_str());
    out.append(r#"">重新整理</a>
<select name="state""#);
    out.append(sort_vals.as_str());
    out.append(r##" hx-get="/leases" hx-trigger="change" hx-target="#lease-panel" hx-select="#lease-panel" hx-swap="outerHTML" hx-include="[name='q'],[name='subnet']" title="狀態篩選">
"##);
    out.append(states.as_str());
    out.append(r#"
</select>
<select name="subnet""#);
    out.append(sort_vals.as_str());
    out.append(r##" hx-get="/leases" hx-trigger="change" hx-target="#lease-panel" hx-select="#lease-panel" hx-swap="outerHTML" hx-include="[name='q'],[name='state']" title="subnet 篩選">
"##);
    out.append(subnet_choice.as_str());
    out.append(r#"
</select>
<input type="search" name="q" value=""#);
    out.append(escape(needle.as_str()).as_str());
    out.append(r##"" placeholder="搜尋 address / hwaddr / hostname（即時篩選）" style="flex:1;min-width:260px"
hx-get="/leases" hx-trigger="input changed delay:200ms" hx-target="#lease-panel" hx-select="#lease-panel" hx-swap="outerHTML" hx-include="[name='state'],[name='subnet']""##);
    out.append(sort_vals.as_str());
    out.append(r#">
</div>
"#);
    out.append(note.as_str());
    out.append(r#"
<div id="lease-panel">
<p>共 "#);
    out.append(decimal(total as u64).as_str());
    out.append(" 筆符合");
    out.append(match_phrase(needle.as_str()).as_str());
    out.append(page_phrase(needle.as_str(), current, pages).as_str());
    out.append(r#"</p>
<table>
<thead><tr>"#);
    out.append(heads.as_str());
    out.append(r#"<th>subnet</th><th>state</th><th>到期</th><th>保留</th></tr></thead>
<tbody>"#);
    out.append(rows.as_str());
    out.append(r#"</tbody>
</table>
<p>"#);
    out.append(pager.as_str());
    out.append(r#"</p>
</div>"#);
    out
}

/// The body of the page of the leases, or why there is none: the time has to be known. `text` is
/// what the file of the leases holds, where it could be read.
pub open spec fn rendered_leases(
    s: StateView,
    q: LeasesQueryView,
    refresh: Refresh,
    text: Option<Seq<char>>,
    now: Result<u64, Seq<char>>,
) -> Result<Seq<char>, Seq<char>> {
    match now {
        Err(e) => Err("取得時間失敗: "@ + e),
        Ok(t) => Ok(
            tab_strip_text("leases"@, "/subnet/0"@) + banner_text(refresh, s.pending, leases_url(q, None)) + lease_panel(
                lease_source(lease_db_of(s.file), text),
                summaries_of(s.file),
                hwaddrs_of(elements(subnets(s.file))),
                q,
                t,
            ),
        ),
    }
}

/// The time, by content.
pub open spec fn time_view(now: Result<u64, String>) -> Result<u64, Seq<char>> {
    match now {
        Ok(t) => Ok(t),
        Err(e) => Err(e@),
    }
}

/// The body of the page of the leases. `text` is what the file of the leases holds, where it could
/// be read, and `now` is the time in seconds since the epoch, or why it is not known.
pub fn render_leases(
    st: &AppState,
    q: &LeasesQuery,
    refresh: &Refresh,
    text: &Option<String>,
    now: &Result<u64, String>,
) -> (r: Result<String, KeaError>)
    ensures
        match r {
            Ok(body) => rendered_leases(st@, q@, *refresh, opt_text(*text), time_view(*now)) == Ok::<
                Seq<char>,
                Seq<char>,
            >(body@),
            Err(e) => rendered_leases(st@, q@, *refresh, opt_text(*text), time_view(*now)) == Err::<
                Seq<char>,
                Seq<char>,
            >(e.message@),
        },
{
    match now {
        Err(e) => {
            let mut message: String = "取得時間失敗: ".to_owned();
            message.append(e.as_str());
            Err(KeaError { message })
        },
        Ok(t) => {
            let db: LeaseDb = st.file.lease_db();
            let (leases, note) = find_leases(&db, text);
            let subnets: Vec<SubnetSummary> = st.file.subnet_list();
            let hwaddrs: Vec<String> = st.file.reservation_hwaddrs();
            let mut out: String = tab_strip("leases", "/subnet/0");
            let next: String = leases_page_url(q, None);
            out.append(external_banner_html(refresh, st.saves_since_apply, next.as_str()).as_str());
            out.append(lease_panel_html(&leases, &note, &subnets, &hwaddrs, q, *t).as_str());
            Ok(out)
        },
    }
}

} // verus!
