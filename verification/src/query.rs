//! Queries: the parameters of the list pages, and the URLs that carry them.
use vstd::prelude::*;
use vstd::string::*;

use crate::html::{escape, escaped, url_encoded, urlencode};
use crate::number::{dec, decimal};
use crate::text::{is_empty, join, joined, opt_text, same, texts};

verus! {

/// The parameters of a list of reservations.
#[derive(Debug, Default)]
pub struct ListQuery {
    pub q: Option<String>,
    pub page: Option<usize>,
    pub pick: Option<u8>,
    pub warn: Option<String>,
    pub sort: Option<String>,
    pub dir: Option<String>,
}

/// What the parameters of a list of reservations are.
#[verifier::ext_equal]
pub struct ListQueryView {
    pub q: Option<Seq<char>>,
    pub page: Option<usize>,
    pub pick: Option<u8>,
    pub warn: Option<Seq<char>>,
    pub sort: Option<Seq<char>>,
    pub dir: Option<Seq<char>>,
}

impl View for ListQuery {
    type V = ListQueryView;

    open spec fn view(&self) -> ListQueryView {
        ListQueryView {
            q: opt_text(self.q),
            page: self.page,
            pick: self.pick,
            warn: opt_text(self.warn),
            sort: opt_text(self.sort),
            dir: opt_text(self.dir),
        }
    }
}

/// The parameters of a list of leases.
#[derive(Debug, Default)]
pub struct LeasesQuery {
    pub q: Option<String>,
    pub page: Option<usize>,
    pub state: Option<String>,
    pub subnet: Option<String>,
    pub sort: Option<String>,
    pub dir: Option<String>,
}

/// What the parameters of a list of leases are.
#[verifier::ext_equal]
pub struct LeasesQueryView {
    pub q: Option<Seq<char>>,
    pub page: Option<usize>,
    pub state: Option<Seq<char>>,
    pub subnet: Option<Seq<char>>,
    pub sort: Option<Seq<char>>,
    pub dir: Option<Seq<char>>,
}

impl View for LeasesQuery {
    type V = LeasesQueryView;

    open spec fn view(&self) -> LeasesQueryView {
        LeasesQueryView {
            q: opt_text(self.q),
            page: self.page,
            state: opt_text(self.state),
            subnet: opt_text(self.subnet),
            sort: opt_text(self.sort),
            dir: opt_text(self.dir),
        }
    }
}

/// The text, or an empty one where there is none.
pub open spec fn text_or_empty(s: Option<Seq<char>>) -> Seq<char> {
    match s {
        Some(t) => t,
        None => Seq::empty(),
    }
}

/// The text, or an empty one where there is none.
pub fn or_empty(s: &Option<String>) -> (r: String)
    ensures
        r@ == text_or_empty(opt_text(*s)),
{
    match s {
        Some(t) => t.clone(),
        None => String::new(),
    }
}

/// Whether a text is there, and is this one.
pub fn is_text(s: &Option<String>, t: &str) -> (r: bool)
    ensures
        r == (opt_text(*s) == Some(t@)),
{
    match s {
        Some(x) => same(x.as_str(), t),
        None => false,
    }
}

/// Whether the direction is the descending one.
pub open spec fn is_desc(dir: Option<Seq<char>>) -> bool {
    dir == Some("desc"@)
}

/// A parameter of a URL, where it has a value that is not empty.
pub open spec fn encoded_param(key: Seq<char>, v: Option<Seq<char>>) -> Seq<Seq<char>> {
    match v {
        Some(t) => if t.len() > 0 {
            seq![key + url_encoded(t)]
        } else {
            Seq::empty()
        },
        None => Seq::empty(),
    }
}

/// A parameter of a URL that is written as it is, where it has a value that is not empty.
pub open spec fn plain_param(key: Seq<char>, v: Option<Seq<char>>) -> Seq<Seq<char>> {
    match v {
        Some(t) => if t.len() > 0 {
            seq![key + t]
        } else {
            Seq::empty()
        },
        None => Seq::empty(),
    }
}

/// The page, where it is not the first.
pub open spec fn page_param(page: Option<usize>) -> Seq<Seq<char>> {
    match page {
        Some(p) => if p != 0 {
            seq!["page="@ + dec(p as nat)]
        } else {
            Seq::empty()
        },
        None => Seq::empty(),
    }
}

/// The order, and its direction where it has one.
pub open spec fn sort_params(sort: Option<Seq<char>>, dir: Option<Seq<char>>) -> Seq<Seq<char>> {
    match sort {
        Some(s) => seq!["sort="@ + url_encoded(s)] + (match dir {
            Some(d) => seq!["dir="@ + url_encoded(d)],
            None => Seq::empty(),
        }),
        None => Seq::empty(),
    }
}

/// Adds a parameter.
fn push_param(params: &mut Vec<String>, key: &str, value: &str)
    ensures
        texts(final(params)@) == texts(old(params)@).push(key@ + value@),
{
    let ghost before = params@;
    let mut text: String = key.to_owned();
    text.append(value);
    params.push(text);
    assert(texts(params@) =~= texts(before).push(text@));
}

/// Adds a parameter where it has a value that is not empty.
fn push_encoded(params: &mut Vec<String>, key: &str, v: &Option<String>)
    ensures
        texts(final(params)@) == texts(old(params)@) + encoded_param(key@, opt_text(*v)),
{
    let ghost before = texts(params@);
    match v {
        Some(t) => {
            if !is_empty(t.as_str()) {
                push_param(params, key, urlencode(t.as_str()).as_str());
            }
        },
        None => {},
    }
    assert(texts(params@) =~= before + encoded_param(key@, opt_text(*v)));
}

/// Adds a parameter as it is where it has a value that is not empty.
fn push_plain(params: &mut Vec<String>, key: &str, v: &Option<String>)
    ensures
        texts(final(params)@) == texts(old(params)@) + plain_param(key@, opt_text(*v)),
{
    let ghost before = texts(params@);
    match v {
        Some(t) => {
            if !is_empty(t.as_str()) {
                push_param(params, key, t.as_str());
            }
        },
        None => {},
    }
    assert(texts(params@) =~= before + plain_param(key@, opt_text(*v)));
}

/// Adds the page where it is not the first.
fn push_page(params: &mut Vec<String>, page: Option<usize>)
    ensures
        texts(final(params)@) == texts(old(params)@) + page_param(page),
{
    let ghost before = texts(params@);
    match page {
        Some(p) => {
            if p != 0 {
                push_param(params, "page=", decimal(p as u64).as_str());
            }
        },
        None => {},
    }
    assert(texts(params@) =~= before + page_param(page));
}

/// Adds the order and its direction.
fn push_sort(params: &mut Vec<String>, sort: &Option<String>, dir: &Option<String>)
    ensures
        texts(final(params)@) == texts(old(params)@) + sort_params(opt_text(*sort), opt_text(*dir)),
{
    let ghost before = texts(params@);
    match sort {
        Some(s) => {
            push_param(params, "sort=", urlencode(s.as_str()).as_str());
            match dir {
                Some(d) => {
                    push_param(params, "dir=", urlencode(d.as_str()).as_str());
                },
                None => {},
            }
        },
        None => {},
    }
    assert(texts(params@) =~= before + sort_params(opt_text(*sort), opt_text(*dir)));
}

/// The parameters of a list of reservations, as a URL carries them.
pub open spec fn list_params(q: ListQueryView) -> Seq<Seq<char>> {
    Seq::empty() + encoded_param("q="@, q.q) + page_param(q.page) + sort_params(q.sort, q.dir)
}

/// The path of a subnet's page.
pub open spec fn subnet_path(idx: nat) -> Seq<char> {
    "/subnet/"@ + dec(idx)
}

/// The path of a subnet's page.
pub fn subnet_href(idx: usize) -> (r: String)
    ensures
        r@ == subnet_path(idx as nat),
{
    let mut out: String = "/subnet/".to_owned();
    out.append(decimal(idx as u64).as_str());
    out
}

/// A URL with its parameters.
pub open spec fn with_params(path: Seq<char>, params: Seq<Seq<char>>) -> Seq<char> {
    if params.len() == 0 {
        path
    } else {
        path + "?"@ + joined(params, "&"@)
    }
}

/// A URL with its parameters.
fn add_params(path: &str, params: &Vec<String>) -> (r: String)
    ensures
        r@ == with_params(path@, texts(params@)),
{
    let mut out: String = path.to_owned();
    assert(texts(params@).len() == params@.len());
    if params.len() > 0 {
        out.append("?");
        out.append(join(params, "&").as_str());
    }
    out
}

/// The URL of a list of reservations with its parameters.
pub open spec fn list_url(idx: nat, q: ListQueryView) -> Seq<char> {
    with_params(subnet_path(idx), list_params(q))
}

/// The URL of a list of reservations with its parameters.
pub fn subnet_page_url(idx: usize, q: &ListQuery) -> (r: String)
    ensures
        r@ == list_url(idx as nat, q@),
{
    let mut params: Vec<String> = Vec::new();
    assert(texts(params@) =~= Seq::<Seq<char>>::empty());
    push_encoded(&mut params, "q=", &q.q);
    push_page(&mut params, q.page);
    push_sort(&mut params, &q.sort, &q.dir);
    add_params(subnet_href(idx).as_str(), &params)
}

/// The filters of a list of leases, as a URL carries them.
pub open spec fn filter_params(q: LeasesQueryView) -> Seq<Seq<char>> {
    Seq::empty() + encoded_param("q="@, q.q) + encoded_param("state="@, q.state) + plain_param("subnet="@, q.subnet)
}

/// The start of the URL of a list of leases with its filters, to which more parameters can be
/// added.
pub open spec fn leases_base(q: LeasesQueryView) -> Seq<char> {
    if filter_params(q).len() == 0 {
        "/leases?"@
    } else {
        "/leases?"@ + joined(filter_params(q), "&"@) + "&"@
    }
}

/// The filters of a list of leases.
fn lease_filters(q: &LeasesQuery) -> (params: Vec<String>)
    ensures
        texts(params@) == filter_params(q@),
{
    let mut params: Vec<String> = Vec::new();
    assert(texts(params@) =~= Seq::<Seq<char>>::empty());
    push_encoded(&mut params, "q=", &q.q);
    push_encoded(&mut params, "state=", &q.state);
    push_plain(&mut params, "subnet=", &q.subnet);
    params
}

/// The start of the URL of a list of leases with its filters.
pub fn leases_base_href(q: &LeasesQuery) -> (r: String)
    ensures
        r@ == leases_base(q@),
{
    let params: Vec<String> = lease_filters(q);
    assert(texts(params@).len() == params@.len());
    let mut out: String = "/leases?".to_owned();
    if params.len() > 0 {
        out.append(join(&params, "&").as_str());
        out.append("&");
    }
    out
}

/// The URL of a list of leases with all its parameters; `page` goes before the query's own.
pub open spec fn leases_url(q: LeasesQueryView, page: Option<usize>) -> Seq<char> {
    let shown = match page {
        Some(p) => Some(p),
        None => q.page,
    };
    with_params("/leases"@, filter_params(q) + page_param(shown) + sort_params(q.sort, q.dir))
}

/// The URL of a list of leases with all its parameters; `page` goes before the query's own.
pub fn leases_page_url(q: &LeasesQuery, page: Option<usize>) -> (r: String)
    ensures
        r@ == leases_url(q@, page),
{
    let mut params: Vec<String> = lease_filters(q);
    let shown: Option<usize> = match page {
        Some(p) => Some(p),
        None => q.page,
    };
    push_page(&mut params, shown);
    push_sort(&mut params, &q.sort, &q.dir);
    add_params("/leases", &params)
}

/// The sign after the name of the column that orders the rows.
pub open spec fn marker_of(current: bool, desc: bool) -> Seq<char> {
    if current {
        if desc {
            " ▼"@
        } else {
            " ▲"@
        }
    } else {
        ""@
    }
}

/// The sign after the name of the column that orders the rows.
fn marker(current: bool, desc: bool) -> (r: &'static str)
    ensures
        r@ == marker_of(current, desc),
{
    if current {
        if desc {
            " ▼"
        } else {
            " ▲"
        }
    } else {
        ""
    }
}

/// Where the name of a column leads: ascending order, then descending order, then none.
pub open spec fn sort_href(field: Seq<char>, idx: nat, sort: Option<Seq<char>>, dir: Option<Seq<char>>) -> Seq<char> {
    if sort != Some(field) {
        subnet_path(idx) + "?sort="@ + field + "&dir=asc"@
    } else if is_desc(dir) {
        subnet_path(idx)
    } else {
        subnet_path(idx) + "?sort="@ + field + "&dir=desc"@
    }
}

/// The head of a column that orders the rows.
pub open spec fn th_text(
    field: Seq<char>,
    label: Seq<char>,
    idx: nat,
    sort: Option<Seq<char>>,
    dir: Option<Seq<char>>,
) -> Seq<char> {
    r#"<th><a href=""#@ + sort_href(field, idx, sort, dir) + r#"" hx-get=""#@ + sort_href(field, idx, sort, dir) + r##"" hx-include="[name='q']" hx-target="#list-panel" hx-select="#list-panel" hx-swap="outerHTML">"##@ + label + marker_of(sort == Some(field), is_desc(dir)) + "</a></th>"@
}

/// The head of a column that orders the rows.
pub fn th_link(field: &str, label: &str, idx: usize, sort: &Option<String>, dir: &Option<String>) -> (r: String)
    ensures
        r@ == th_text(field@, label@, idx as nat, opt_text(*sort), opt_text(*dir)),
{
    let current: bool = is_text(sort, field);
    let desc: bool = is_text(dir, "desc");
    let mut href: String = subnet_href(idx);
    if !current {
        href.append("?sort=");
        href.append(field);
        href.append("&dir=asc");
    } else if !desc {
        href.append("?sort=");
        href.append(field);
        href.append("&dir=desc");
    }
    let mut out: String = r#"<th><a href=""#.to_owned();
    out.append(href.as_str());
    out.append(r#"" hx-get=""#);
    out.append(href.as_str());
    out.append(r##"" hx-include="[name='q']" hx-target="#list-panel" hx-select="#list-panel" hx-swap="outerHTML">"##);
    out.append(label);
    out.append(marker(current, desc));
    out.append("</a></th>");
    out
}

/// Where the name of a column of the leases leads: ascending order, then descending order, then none.
/// The filters are kept.
pub open spec fn leases_sort_href(field: Seq<char>, q: LeasesQueryView) -> Seq<char> {
    if q.sort != Some(field) {
        leases_base(q) + "sort="@ + field + "&dir=asc"@
    } else if is_desc(q.dir) {
        with_params("/leases"@, filter_params(q))
    } else {
        leases_base(q) + "sort="@ + field + "&dir=desc"@
    }
}

/// The head of a column of the leases that orders the rows.
pub open spec fn leases_th_text(field: Seq<char>, label: Seq<char>, q: LeasesQueryView) -> Seq<char> {
    r#"<th><a href=""#@ + escaped(leases_sort_href(field, q)) + r#"" hx-get=""#@ + escaped(leases_sort_href(field, q)) + r##"" hx-target="#lease-panel" hx-select="#lease-panel" hx-swap="outerHTML">"##@ + label + marker_of(q.sort == Some(field), is_desc(q.dir)) + "</a></th>"@
}

/// The head of a column of the leases that orders the rows.
pub fn leases_th_link(field: &str, label: &str, q: &LeasesQuery) -> (r: String)
    ensures
        r@ == leases_th_text(field@, label@, q@),
{
    let current: bool = is_text(&q.sort, field);
    let desc: bool = is_text(&q.dir, "desc");
    let href: String = if current && desc {
        add_params("/leases", &lease_filters(q))
    } else {
        let mut url: String = leases_base_href(q);
        url.append("sort=");
        url.append(field);
        url.append(
            if current {
                "&dir=desc"
            } else {
                "&dir=asc"
            },
        );
        url
    };
    let link: String = escape(href.as_str());
    let mut out: String = r#"<th><a href=""#.to_owned();
    out.append(link.as_str());
    out.append(r#"" hx-get=""#);
    out.append(link.as_str());
    out.append(r##"" hx-target="#lease-panel" hx-select="#lease-panel" hx-swap="outerHTML">"##);
    out.append(label);
    out.append(marker(current, desc));
    out.append("</a></th>");
    out
}

/// The name of a column leads on in a circle: from any other order to its ascending one, from there
/// to its descending one, and from there to none.
pub proof fn law_column_cycles(field: Seq<char>, idx: nat)
    ensures
        sort_href(field, idx, None, None) == subnet_path(idx) + "?sort="@ + field + "&dir=asc"@,
        sort_href(field, idx, Some(field), Some("asc"@)) == subnet_path(idx) + "?sort="@ + field + "&dir=desc"@,
        sort_href(field, idx, Some(field), Some("desc"@)) == subnet_path(idx),
{
    reveal_strlit("asc");
    reveal_strlit("desc");
    assert("asc"@.len() == 3 && "desc"@.len() == 4);
}

/// The query of the leases ordered by a column.
pub open spec fn ordered_by(q: LeasesQueryView, field: Seq<char>, dir: Seq<char>) -> LeasesQueryView {
    LeasesQueryView { sort: Some(field), dir: Some(dir), ..q }
}

/// The query of the leases without an order, from the first page on.
pub open spec fn unordered(q: LeasesQueryView) -> LeasesQueryView {
    LeasesQueryView { sort: None, dir: None, page: None, ..q }
}

/// The name of a column of the leases leads on in a circle too, and the filters are kept all the way:
/// from any other order to its ascending one, from there to its descending one, and from there to the leases
/// with the same filters and no order.
pub proof fn law_lease_column_cycles(field: Seq<char>, q: LeasesQueryView)
    ensures
        q.sort != Some(field) ==> leases_sort_href(field, q) == leases_base(q) + "sort="@ + field + "&dir=asc"@,
        leases_sort_href(field, ordered_by(q, field, "asc"@)) == leases_base(q) + "sort="@ + field + "&dir=desc"@,
        leases_sort_href(field, ordered_by(q, field, "desc"@)) == leases_url(unordered(q), None),
{
    reveal_strlit("asc");
    reveal_strlit("desc");
    assert("asc"@.len() == 3 && "desc"@.len() == 4);
    let none = Seq::<Seq<char>>::empty();
    assert(filter_params(q) + none + none =~= filter_params(q));
}

/// Where to go after a decision: to a path of this site, and to the first subnet otherwise.
pub open spec fn next_target(next: Option<Seq<char>>) -> Seq<char> {
    match next {
        Some(n) => if n.len() > 0 && n[0] == '/' && !(n.len() > 1 && n[1] == '/') {
            n
        } else {
            "/subnet/0"@
        },
        None => "/subnet/0"@,
    }
}

/// Where to go after a decision: to a path of this site, and to the first subnet otherwise.
pub fn redirect_to_next(next: &Option<String>) -> (r: String)
    ensures
        r@ == next_target(opt_text(*next)),
{
    match next {
        Some(n) => {
            let x: Vec<char> = crate::text::chars_of(n.as_str());
            if x.len() > 0 && x[0] == '/' && !(x.len() > 1 && x[1] == '/') {
                n.clone()
            } else {
                "/subnet/0".to_owned()
            }
        },
        None => "/subnet/0".to_owned(),
    }
}

/// What follows a decision stays on this site: the target begins with one slash, and no more.
pub proof fn law_next_stays_on_site(next: Option<Seq<char>>)
    ensures
        next_target(next).len() > 0,
        next_target(next)[0] == '/',
        next_target(next).len() > 1 ==> next_target(next)[1] != '/',
{
    reveal_strlit("/subnet/0");
}

} // verus!
