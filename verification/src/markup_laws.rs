//! What becomes of every text on its way into a page or an address, and what links lead to.
use vstd::prelude::*;
use vstd::string::*;
use vstd::utf8::encode_utf8;

use crate::file::SummaryView;
use crate::html::{escaped, escaped_char, page_text, primary_if, tab_strip_text, url_byte, url_bytes, url_encoded};
use crate::lease_page::{
    lease_link, lease_links, lease_pager, selected_if, state_option, state_options, subnet_option, subnet_options,
};
use crate::list::{links_text, pager_text, search_suffix};
use crate::list_laws::{lemma_between, lemma_in_both, lemma_in_longer, lemma_in_part};
use crate::number::dec;
use crate::query::{
    encoded_param, filter_params, leases_sort_href, leases_th_text, leases_url, list_params, list_url, next_target,
    page_param, plain_param, sort_href, sort_params, subnet_path, th_text, with_params, LeasesQueryView,
    ListQueryView,
};
use crate::row_laws::lemma_part_joined;
use crate::text::{has_text, joined};

verus! {

/// Escaping goes character by character: each of the five characters that mean something in a page becomes
/// its name, and every other stays.
pub proof fn law_escaping_goes_by_character(a: Seq<char>, c: char, b: Seq<char>)
    ensures
        escaped(a + seq![c] + b) == escaped(a) + escaped(seq![c]) + escaped(b),
        escaped(Seq::empty()).len() == 0,
        escaped(seq!['&']) == "&amp;"@,
        escaped(seq!['<']) == "&lt;"@,
        escaped(seq!['>']) == "&gt;"@,
        escaped(seq!['"']) == "&quot;"@,
        escaped(seq!['\'']) == "&#39;"@,
        c != '&' && c != '<' && c != '>' && c != '"' && c != '\'' ==> escaped(seq![c]) == seq![c],
{
    lemma_escaped_one('&');
    lemma_escaped_one('<');
    lemma_escaped_one('>');
    lemma_escaped_one('"');
    lemma_escaped_one('\'');
    lemma_escaped_one(c);
    lemma_escaped_concat(a, seq![c]);
    lemma_escaped_concat(a + seq![c], b);
}

proof fn lemma_escaped_one(c: char)
    ensures
        escaped(seq![c]) == escaped_char(c),
{
    assert(seq![c].drop_last() =~= Seq::<char>::empty());
    assert(escaped(seq![c].drop_last()) =~= Seq::<char>::empty());
    assert(escaped(seq![c]) =~= escaped_char(c));
}

proof fn lemma_escaped_concat(a: Seq<char>, b: Seq<char>)
    ensures
        escaped(a + b) == escaped(a) + escaped(b),
    decreases b.len(),
{
    if b.len() == 0 {
        assert(a + b =~= a);
        assert(escaped(b) =~= Seq::<char>::empty());
        assert(escaped(a) + escaped(b) =~= escaped(a));
    } else {
        assert((a + b).drop_last() =~= a + b.drop_last());
        lemma_escaped_concat(a, b.drop_last());
        assert(escaped(a + b) =~= escaped(a) + escaped(b));
    }
}

/// Two texts that are escaped to the same text are the same.
pub proof fn law_escaping_loses_nothing(a: Seq<char>, b: Seq<char>)
    requires
        escaped(a) == escaped(b),
    ensures
        a == b,
    decreases a.len(),
{
    if a.len() == 0 || b.len() == 0 {
        if a.len() > 0 {
            lemma_escaped_char(a.last());
        }
        if b.len() > 0 {
            lemma_escaped_char(b.last());
        }
        assert(a =~= b);
    } else {
        let (x, y) = (escaped_char(a.last()), escaped_char(b.last()));
        let whole = escaped(a);
        lemma_escaped_char(a.last());
        lemma_escaped_char(b.last());
        lemma_escaped_ends(a.drop_last(), b.drop_last(), a.last(), b.last());
        assert(whole.take(whole.len() - x.len()) =~= escaped(a.drop_last()));
        assert(whole.take(whole.len() - y.len()) =~= escaped(b.drop_last()));
        law_escaping_loses_nothing(a.drop_last(), b.drop_last());
        assert(a =~= a.drop_last().push(a.last()));
        assert(b =~= b.drop_last().push(b.last()));
    }
}

/// What a character is escaped to ends in a semicolon or is the character; and it has an ampersand first and
/// nowhere else.
proof fn lemma_escaped_char(c: char)
    ensures
        escaped_char(c).len() > 0,
        c == '&' || c == '<' || c == '>' || c == '"' || c == '\'' ==> escaped_char(c).len() > 1
            && escaped_char(c).last() == ';' && escaped_char(c)[0] == '&' && forall|i: int|
            0 < i < escaped_char(c).len() ==> escaped_char(c)[i] != '&',
{
    reveal_strlit("&amp;");
    reveal_strlit("&lt;");
    reveal_strlit("&gt;");
    reveal_strlit("&quot;");
    reveal_strlit("&#39;");
}

/// In what a text is escaped to, an ampersand that nothing but a name follows stands only where such a name
/// begins: the last character of a text can be told from what the text is escaped to.
proof fn lemma_escaped_ends(a: Seq<char>, b: Seq<char>, c: char, d: char)
    requires
        escaped(a) + escaped_char(c) == escaped(b) + escaped_char(d),
    ensures
        c == d,
{
    let (x, y) = (escaped_char(c), escaped_char(d));
    let whole = escaped(a) + x;
    let n = whole.len() as int;
    reveal_strlit("&amp;");
    reveal_strlit("&lt;");
    reveal_strlit("&gt;");
    reveal_strlit("&quot;");
    reveal_strlit("&#39;");
    assert(whole.last() == x.last());
    assert(whole.last() == y.last());
    if x.len() > 1 && y.len() > 1 {
        assert forall|i: int| 1 <= i <= x.len() implies whole[n - i] == #[trigger] x[x.len() - i] by {}
        assert forall|i: int| 1 <= i <= y.len() implies whole[n - i] == #[trigger] y[y.len() - i] by {}
        if x.len() < y.len() {
            assert(whole[n - x.len()] == x[0]);
            assert(whole[n - x.len()] == y[y.len() - x.len()]);
        } else if y.len() < x.len() {
            assert(whole[n - y.len()] == y[0]);
            assert(whole[n - y.len()] == x[x.len() - y.len()]);
        } else {
            assert(x =~= y) by {
                assert forall|i: int| 0 <= i < x.len() implies x[i] == y[i] by {
                    assert(whole[n - (x.len() - i)] == x[x.len() - (x.len() - i)]);
                    assert(whole[n - (y.len() - i)] == y[y.len() - (y.len() - i)]);
                }
            }
            assert(x[1] == y[1] && x[2] == y[2]);
        }
    } else if x.len() > 1 {
        lemma_lone_semicolon(b, x);
        assert(y == seq![';']);
        assert(ends(whole, x));
    } else if y.len() > 1 {
        lemma_lone_semicolon(a, y);
        assert(x == seq![';']);
        assert(ends(whole, y));
    }
}

/// Whether a text ends in another.
spec fn ends(e: Seq<char>, t: Seq<char>) -> bool {
    e.len() >= t.len() && forall|i: int| 0 <= i < t.len() ==> e[e.len() - t.len() + i] == #[trigger] t[i]
}

/// What a text with a semicolon at its end is escaped to does not end in a name.
proof fn lemma_lone_semicolon(b: Seq<char>, x: Seq<char>)
    requires
        x == "&amp;"@ || x == "&lt;"@ || x == "&gt;"@ || x == "&quot;"@ || x == "&#39;"@,
    ensures
        !ends(escaped(b) + seq![';'], x),
{
    reveal_strlit("&amp;");
    reveal_strlit("&lt;");
    reveal_strlit("&gt;");
    reveal_strlit("&quot;");
    reveal_strlit("&#39;");
    let whole = escaped(b) + seq![';'];
    let t = x.drop_last();
    lemma_no_open_name(b, t);
    if ends(whole, x) {
        assert forall|i: int| 0 <= i < t.len() implies escaped(b)[escaped(b).len() - t.len() + i] == #[trigger] t[i] by {
            assert(whole[whole.len() - x.len() + i] == x[i]);
        }
        assert(ends(escaped(b), t));
    }
}

/// What a text is escaped to does not end in a name without its semicolon.
proof fn lemma_no_open_name(b: Seq<char>, t: Seq<char>)
    requires
        t.len() > 0,
        t[0] == '&',
        forall|i: int| 0 <= i < t.len() ==> t[i] != ';',
    ensures
        !ends(escaped(b), t),
    decreases b.len(),
{
    let e = escaped(b);
    if ends(e, t) {
        let c = escaped_char(b.last());
        lemma_escaped_char(b.last());
        let n = t.len() as int;
        assert(e[e.len() - n + (n - 1)] == t[n - 1]);
        assert(e.last() == c.last());
        assert(c == seq![b.last()]);
        if t.len() > 1 {
            let s = t.drop_last();
            let f = escaped(b.drop_last());
            assert(e =~= f.push(b.last()));
            assert forall|i: int| 0 <= i < s.len() implies f[f.len() - s.len() + i] == #[trigger] s[i] by {
                assert(e[e.len() - t.len() + i] == t[i]);
            }
            assert(ends(f, s));
            lemma_no_open_name(b.drop_last(), s);
        }
    }
}

/// The capital hexadecimal digit of a value.
pub open spec fn is_capital_digit(c: char, v: int) -> bool {
    ||| 0 <= v < 10 && c as int == '0' as int + v
    ||| 10 <= v < 16 && c as int == 'A' as int + v - 10
}

/// Encoding for an address goes byte by byte: letters, digits, and four marks stay, and every other byte
/// becomes a percent sign and its two digits.
pub proof fn law_address_encoding_goes_by_byte(a: Seq<u8>, b: u8, c: Seq<u8>)
    ensures
        url_bytes(a + seq![b] + c) == url_bytes(a) + url_bytes(seq![b]) + url_bytes(c),
        url_bytes(Seq::empty()).len() == 0,
        ({
            let kept = 'a' as int <= b <= 'z' as int || 'A' as int <= b <= 'Z' as int || '0' as int <= b <= '9' as int || b
                == '-' as int || b == '_' as int || b == '.' as int || b == '~' as int;
            let e = url_bytes(seq![b]);
            &&& kept ==> e.len() == 1 && e[0] as int == b
            &&& !kept ==> e.len() == 3 && e[0] == '%' && is_capital_digit(e[1], b as int / 16) && is_capital_digit(
                e[2],
                b as int % 16,
            )
        }),
{
    assert(seq![b].drop_last() =~= Seq::<u8>::empty());
    assert(url_bytes(seq![b].drop_last()) =~= Seq::<char>::empty());
    assert(url_bytes(seq![b]) =~= url_byte(b));
    lemma_url_concat(a, seq![b]);
    lemma_url_concat(a + seq![b], c);
}

/// A text is encoded by the bytes of its UTF-8 form.
pub proof fn law_address_encoding_takes_the_bytes(s: Seq<char>)
    ensures
        url_encoded(s) == url_bytes(encode_utf8(s)),
{
}

proof fn lemma_url_concat(a: Seq<u8>, b: Seq<u8>)
    ensures
        url_bytes(a + b) == url_bytes(a) + url_bytes(b),
    decreases b.len(),
{
    if b.len() == 0 {
        assert(a + b =~= a);
        assert(url_bytes(b) =~= Seq::<char>::empty());
        assert(url_bytes(a) + url_bytes(b) =~= url_bytes(a));
    } else {
        assert((a + b).drop_last() =~= a + b.drop_last());
        lemma_url_concat(a, b.drop_last());
        assert(url_bytes(a + b) =~= url_bytes(a) + url_bytes(b));
    }
}

/// A page holds its title and its body.
pub proof fn law_page_holds_its_body(title: Seq<char>, body: Seq<char>)
    ensures
        has_text(page_text(title, body), body),
        has_text(page_text(title, body), title),
{
    lemma_in_longer(body);
    lemma_in_longer(title);
}

/// Whether a text is something that was asked for.
pub open spec fn is_given(t: Option<Seq<char>>) -> bool {
    t is Some && t->0.len() > 0
}

/// The address of a list asks for what the list shows: what is searched for, the page, the column and the
/// direction, each where it is given, and nothing else. Without any of them it is the address of the subnet.
pub proof fn law_list_address_asks_for_the_same(idx: nat, q: ListQueryView)
    ensures
        ({
            let url = list_url(idx, q);
            let n = (if is_given(q.q) {
                1int
            } else {
                0
            }) + (if q.page is Some && q.page->0 > 0 {
                1int
            } else {
                0
            }) + (if q.sort is Some {
                1int
            } else {
                0
            }) + (if q.sort is Some && q.dir is Some {
                1int
            } else {
                0
            });
            &&& is_given(q.q) ==> has_text(url, "q="@ + url_encoded(q.q->0))
            &&& q.page is Some && q.page->0 > 0 ==> has_text(url, "page="@ + dec(q.page->0 as nat))
            &&& q.sort is Some ==> has_text(url, "sort="@ + url_encoded(q.sort->0))
            &&& q.sort is Some && q.dir is Some ==> has_text(url, "dir="@ + url_encoded(q.dir->0))
            &&& list_params(q).len() == n
            &&& n == 0 ==> url == "/subnet/"@ + dec(idx)
            &&& n > 0 ==> url == "/subnet/"@ + dec(idx) + "?"@ + joined(list_params(q), "&"@)
        }),
{
    let params = list_params(q);
    let a = encoded_param("q="@, q.q);
    let b = page_param(q.page);
    let c = sort_params(q.sort, q.dir);
    assert(params =~= a + b + c);
    if is_given(q.q) {
        assert(params[0] == "q="@ + url_encoded(q.q->0));
        lemma_parameter_there(subnet_path(idx), params, 0);
    }
    if q.page is Some && q.page->0 > 0 {
        assert(params[a.len() as int] == "page="@ + dec(q.page->0 as nat));
        lemma_parameter_there(subnet_path(idx), params, a.len() as int);
    }
    if q.sort is Some {
        let n = (a.len() + b.len()) as int;
        assert(params[n] == "sort="@ + url_encoded(q.sort->0));
        lemma_parameter_there(subnet_path(idx), params, n);
        if q.dir is Some {
            assert(params[n + 1] == "dir="@ + url_encoded(q.dir->0));
            lemma_parameter_there(subnet_path(idx), params, n + 1);
        }
    }
}

proof fn lemma_parameter_there(path: Seq<char>, params: Seq<Seq<char>>, i: int)
    requires
        0 <= i < params.len(),
    ensures
        has_text(with_params(path, params), params[i]),
{
    lemma_part_joined(params, "&"@, i);
    lemma_in_longer(params[i]);
}

/// Whether an address of the leases asks with some parameters, with an ampersand between them.
pub open spec fn is_asked_with(url: Seq<char>, params: Seq<Seq<char>>) -> bool {
    url == if params.len() == 0 {
        "/leases"@
    } else {
        "/leases"@ + "?"@ + joined(params, "&"@)
    }
}

/// One where something holds, and nothing where it does not.
pub open spec fn one_if(b: bool) -> int {
    if b {
        1
    } else {
        0
    }
}

/// The page that an address of the leases asks for: the one that is given, or else the one that is shown.
pub open spec fn page_asked(q: LeasesQueryView, page: Option<usize>) -> Option<usize> {
    if page is Some {
        page
    } else {
        q.page
    }
}

/// The address of the leases asks for what the page shows, each where it is given: what is searched for, the
/// state, the subnet, the page, the column and the direction, and nothing else.
pub proof fn law_lease_address_asks_for_the_same(q: LeasesQueryView, page: Option<usize>)
    ensures
        ({
            let url = leases_url(q, page);
            let p = page_asked(q, page);
            &&& is_given(q.q) ==> has_text(url, "q="@ + url_encoded(q.q->0))
            &&& is_given(q.state) ==> has_text(url, "state="@ + url_encoded(q.state->0))
            &&& is_given(q.subnet) ==> has_text(url, "subnet="@ + q.subnet->0)
            &&& p is Some && p->0 > 0 ==> has_text(url, "page="@ + dec(p->0 as nat))
            &&& q.sort is Some ==> has_text(url, "sort="@ + url_encoded(q.sort->0))
            &&& q.sort is Some && q.dir is Some ==> has_text(url, "dir="@ + url_encoded(q.dir->0))
            &&& !is_given(q.q) && !is_given(q.state) && !is_given(q.subnet) && (p is None || p->0 == 0) && q.sort is None
                ==> url == "/leases"@
            &&& exists|params: Seq<Seq<char>>| #[trigger]
                is_asked_with(url, params) && params.len() == one_if(is_given(q.q)) + one_if(is_given(q.state)) + one_if(
                    is_given(q.subnet),
                ) + one_if(p is Some && p->0 > 0) + one_if(q.sort is Some) + one_if(q.sort is Some && q.dir is Some)
        }),
{
    let p = page_asked(q, page);
    let a = encoded_param("q="@, q.q);
    let b = encoded_param("state="@, q.state);
    let c = plain_param("subnet="@, q.subnet);
    let d = page_param(p);
    let e = sort_params(q.sort, q.dir);
    let params = filter_params(q) + d + e;
    assert(filter_params(q) =~= a + b + c);
    assert(params =~= a + b + c + d + e);
    assert(is_asked_with(leases_url(q, page), params));
    let path = "/leases"@;
    if is_given(q.q) {
        assert(params[0] == "q="@ + url_encoded(q.q->0));
        lemma_parameter_there(path, params, 0);
    }
    if is_given(q.state) {
        assert(params[a.len() as int] == "state="@ + url_encoded(q.state->0));
        lemma_parameter_there(path, params, a.len() as int);
    }
    if is_given(q.subnet) {
        let n = (a.len() + b.len()) as int;
        assert(params[n] == "subnet="@ + q.subnet->0);
        lemma_parameter_there(path, params, n);
    }
    if p is Some && p->0 > 0 {
        let n = (a.len() + b.len() + c.len()) as int;
        assert(params[n] == "page="@ + dec(p->0 as nat));
        lemma_parameter_there(path, params, n);
    }
    if q.sort is Some {
        let n = (a.len() + b.len() + c.len() + d.len()) as int;
        assert(params[n] == "sort="@ + url_encoded(q.sort->0));
        lemma_parameter_there(path, params, n);
        if q.dir is Some {
            assert(params[n + 1] == "dir="@ + url_encoded(q.dir->0));
            lemma_parameter_there(path, params, n + 1);
        }
    }
}

proof fn lemma_head(
    x: Seq<char>,
    href: Seq<char>,
    y: Seq<char>,
    mid: Seq<char>,
    label: Seq<char>,
    arrow: Seq<char>,
    end: Seq<char>,
)
    ensures
        has_text(x + href + y + href + mid + label + arrow + end, label + arrow + end),
        has_text(x + href + y + href + mid + label + arrow + end, x + href + y),
{
    let head = x + href + y + href + mid + label + arrow + end;
    let none = Seq::<char>::empty();
    assert(head =~= (x + href + y + href + mid) + (label + arrow + end) + none);
    assert(head =~= none + (x + href + y) + (href + mid + label + arrow + end));
    lemma_between(x + href + y + href + mid, label + arrow + end, none);
    lemma_between(none, x + href + y, href + mid + label + arrow + end);
}

/// The head of a column leads to the list sorted by it, upwards; a second time downwards; and then to the
/// list unsorted. An arrow stands at the column that the list is sorted by, and at no other.
pub proof fn law_column_head_leads_on(
    field: Seq<char>,
    label: Seq<char>,
    idx: nat,
    sort: Option<Seq<char>>,
    dir: Option<Seq<char>>,
)
    ensures
        sort != Some(field) ==> sort_href(field, idx, sort, dir) == "/subnet/"@ + dec(idx) + "?sort="@ + field + "&dir=asc"@,
        sort == Some(field) && dir != Some("desc"@) ==> sort_href(field, idx, sort, dir) == "/subnet/"@ + dec(idx) + "?sort="@
            + field + "&dir=desc"@,
        sort == Some(field) && dir == Some("desc"@) ==> sort_href(field, idx, sort, dir) == "/subnet/"@ + dec(idx),
        ({
            let head = th_text(field, label, idx, sort, dir);
            let arrow = if sort != Some(field) {
                ""@
            } else if dir == Some("desc"@) {
                " ▼"@
            } else {
                " ▲"@
            };
            &&& has_text(head, label + arrow + "</a></th>"@)
            &&& has_text(head, r#"<th><a href=""#@ + sort_href(field, idx, sort, dir) + r#"" hx-get=""#@)
        }),
{
    let head = th_text(field, label, idx, sort, dir);
    let href = sort_href(field, idx, sort, dir);
    let arrow = if sort != Some(field) {
        ""@
    } else if dir == Some("desc"@) {
        " ▼"@
    } else {
        " ▲"@
    };
    let mid = r##"" hx-include="[name='q']" hx-target="#list-panel" hx-select="#list-panel" hx-swap="outerHTML">"##@;
    let (x, y) = (r#"<th><a href=""#@, r#"" hx-get=""#@);
    lemma_head(x, href, y, mid, label, arrow, "</a></th>"@);
}

/// The head of a column of the leases leads on in the same way, and keeps what is asked for; so does its
/// arrow.
pub proof fn law_lease_column_head_leads_on(field: Seq<char>, label: Seq<char>, q: LeasesQueryView)
    ensures
        ({
            let href = leases_sort_href(field, q);
            let kept = joined(filter_params(q), "&"@);
            let base = if filter_params(q).len() == 0 {
                "/leases?"@
            } else {
                "/leases?"@ + kept + "&"@
            };
            let head = leases_th_text(field, label, q);
            let arrow = if q.sort != Some(field) {
                ""@
            } else if q.dir == Some("desc"@) {
                " ▼"@
            } else {
                " ▲"@
            };
            &&& q.sort != Some(field) ==> href == base + "sort="@ + field + "&dir=asc"@
            &&& q.sort == Some(field) && q.dir != Some("desc"@) ==> href == base + "sort="@ + field + "&dir=desc"@
            &&& q.sort == Some(field) && q.dir == Some("desc"@) && filter_params(q).len() == 0 ==> href == "/leases"@
            &&& q.sort == Some(field) && q.dir == Some("desc"@) && filter_params(q).len() > 0 ==> href == "/leases?"@ + kept
            &&& has_text(head, label + arrow + "</a></th>"@)
            &&& has_text(head, r#"<th><a href=""#@ + escaped(href) + r#"" hx-get=""#@)
        }),
{
    let head = leases_th_text(field, label, q);
    let e = escaped(leases_sort_href(field, q));
    let arrow = if q.sort != Some(field) {
        ""@
    } else if q.dir == Some("desc"@) {
        " ▼"@
    } else {
        " ▲"@
    };
    let mid = r##"" hx-target="#lease-panel" hx-select="#lease-panel" hx-swap="outerHTML">"##@;
    let (x, y) = (r#"<th><a href=""#@, r#"" hx-get=""#@);
    lemma_head(x, e, y, mid, label, arrow, "</a></th>"@);
    reveal_strlit("/leases");
    reveal_strlit("?");
    reveal_strlit("/leases?");
    assert("/leases"@ + "?"@ =~= "/leases?"@);
}

/// What the filters of the leases keep: what is searched for, the state and the subnet, each where it is given.
pub proof fn law_filters_are_kept(q: LeasesQueryView)
    ensures
        is_given(q.q) <==> encoded_param("q="@, q.q).len() == 1,
        is_given(q.q) ==> filter_params(q).contains("q="@ + url_encoded(q.q->0)),
        is_given(q.state) ==> filter_params(q).contains("state="@ + url_encoded(q.state->0)),
        is_given(q.subnet) ==> filter_params(q).contains("subnet="@ + q.subnet->0),
        filter_params(q).len() == (if is_given(q.q) {
            1int
        } else {
            0
        }) + (if is_given(q.state) {
            1int
        } else {
            0
        }) + (if is_given(q.subnet) {
            1int
        } else {
            0
        }),
{
    let a = encoded_param("q="@, q.q);
    let b = encoded_param("state="@, q.state);
    let c = plain_param("subnet="@, q.subnet);
    let f = filter_params(q);
    assert(f =~= a + b + c);
    if is_given(q.q) {
        assert(f[0] == a[0]);
    }
    if is_given(q.state) {
        assert(f[a.len() as int] == b[0]);
    }
    if is_given(q.subnet) {
        assert(f[(a.len() + b.len()) as int] == c[0]);
    }
}

/// Where there are more pages than one, each has a link, with the search that is made; otherwise there is
/// none.
pub proof fn law_every_page_has_a_link(idx: nat, pages: nat, current: nat, needle: Seq<char>, k: nat)
    ensures
        pages <= 1 ==> pager_text(idx, pages, current, needle).len() == 0,
        pages > 1 && k < pages ==> has_text(
            pager_text(idx, pages, current, needle),
            dec(idx) + "?page="@ + dec(k) + (if needle.len() > 0 {
                "&q="@ + url_encoded(needle)
            } else {
                Seq::empty()
            }) + r#"">"#@ + dec(k + 1) + "</a> "@,
        ),
{
    if pages > 1 && k < pages {
        lemma_link_among(idx, pages, current, needle, k);
    }
}

proof fn lemma_link_among(idx: nat, n: nat, current: nat, needle: Seq<char>, k: nat)
    requires
        k < n,
    ensures
        has_text(
            links_text(idx, n, current, needle),
            dec(idx) + "?page="@ + dec(k) + search_suffix(needle) + r#"">"#@ + dec(k + 1) + "</a> "@,
        ),
    decreases n,
{
    let link = dec(idx) + "?page="@ + dec(k) + search_suffix(needle) + r#"">"#@ + dec(k + 1) + "</a> "@;
    let head = r#"<a class="btn"#@ + primary_if(n - 1 == current) + r#"" href="/subnet/"#@;
    let item = r#"<a class="btn"#@ + primary_if(n - 1 == current) + r#"" href="/subnet/"#@ + dec(idx) + "?page="@ + dec(
        (n - 1) as nat,
    ) + search_suffix(needle) + r#"">"#@ + dec(n) + "</a> "@;
    if k < n - 1 {
        lemma_link_among(idx, (n - 1) as nat, current, needle, k);
    } else {
        assert(item =~= head + link + Seq::<char>::empty());
        lemma_between(head, link, Seq::empty());
    }
    lemma_in_both(links_text(idx, (n - 1) as nat, current, needle), item, link);
}

/// The same of the leases, with all that is asked for.
pub proof fn law_every_lease_page_has_a_link(q: LeasesQueryView, pages: nat, current: nat, k: usize)
    requires
        pages <= usize::MAX,
    ensures
        pages <= 1 ==> lease_pager(q, pages, current).len() == 0,
        pages > 1 && k < pages ==> has_text(
            lease_pager(q, pages, current),
            r#"" href=""#@ + escaped(leases_url(q, Some(k))) + r#"" hx-get=""#@ + escaped(leases_url(q, Some(k))),
        ),
{
    if pages > 1 && k < pages {
        lemma_lease_link_among(q, pages, current, k);
    }
}

proof fn lemma_lease_link_among(q: LeasesQueryView, n: nat, current: nat, k: usize)
    requires
        k < n <= usize::MAX,
    ensures
        has_text(
            lease_links(q, n, current),
            r#"" href=""#@ + escaped(leases_url(q, Some(k))) + r#"" hx-get=""#@ + escaped(leases_url(q, Some(k))),
        ),
    decreases n,
{
    let e = escaped(leases_url(q, Some(k)));
    let link = r#"" href=""#@ + e + r#"" hx-get=""#@ + e;
    if k < n - 1 {
        lemma_lease_link_among(q, (n - 1) as nat, current, k);
    } else {
        let head = r#"<a class="btn"#@ + primary_if(k == current);
        let tail = r##"" hx-target="#lease-panel" hx-select="#lease-panel" hx-swap="outerHTML">"##@ + dec((k + 1) as nat)
            + "</a> "@;
        assert(lease_link(q, k, current) =~= head + link + tail);
        lemma_between(head, link, tail);
    }
    lemma_in_both(lease_links(q, (n - 1) as nat, current), lease_link(q, (n - 1) as usize, current), link);
}

/// A state that can be chosen is marked exactly where it is the one shown; all five can be chosen.
pub proof fn law_state_is_marked(v: Seq<char>, label: Seq<char>, current: Seq<char>)
    ensures
        v == current ==> state_option(v, label, current) == r#"<option value=""#@ + v + r#"" selected>"#@ + label
            + "</option>"@,
        v != current ==> state_option(v, label, current) == r#"<option value=""#@ + v + r#"">"#@ + label + "</option>"@,
        has_text(state_options(current), state_option("active"@, "作用中"@, current)),
        has_text(state_options(current), state_option("all"@, "全部"@, current)),
        has_text(state_options(current), state_option("expired"@, "已過期"@, current)),
        has_text(state_options(current), state_option("declined"@, "拒絕"@, current)),
        has_text(state_options(current), state_option("released"@, "已釋放"@, current)),
{
    reveal_strlit(r#"""#);
    reveal_strlit(" selected");
    reveal_strlit(">");
    reveal_strlit("");
    reveal_strlit(r#"" selected>"#);
    reveal_strlit(r#"">"#);
    assert(r#"""#@ + " selected"@ + ">"@ =~= r#"" selected>"#@);
    assert(r#"""#@ + ""@ + ">"@ =~= r#"">"#@);
    let head = r#"<option value=""#@ + v;
    if v == current {
        assert(state_option(v, label, current) =~= head + (r#"""#@ + " selected"@ + ">"@) + label + "</option>"@);
    } else {
        assert(state_option(v, label, current) =~= head + (r#"""#@ + ""@ + ">"@) + label + "</option>"@);
    }
    lemma_in_longer(state_option("active"@, "作用中"@, current));
    lemma_in_longer(state_option("all"@, "全部"@, current));
    lemma_in_longer(state_option("expired"@, "已過期"@, current));
    lemma_in_longer(state_option("declined"@, "拒絕"@, current));
    lemma_in_longer(state_option("released"@, "已釋放"@, current));
}

/// Every subnet that has an id can be chosen, and is marked exactly where it is the one shown.
pub proof fn law_every_subnet_can_be_chosen(list: Seq<SummaryView>, chosen: Option<u32>, k: int)
    requires
        0 <= k < list.len(),
        list[k].id is Some,
    ensures
        has_text(
            subnet_options(list, chosen),
            r#"<option value=""#@ + dec(list[k].id->0 as nat) + (if chosen == list[k].id {
                r#"" selected>"#@
            } else {
                r#"">"#@
            }) + list[k].cidr,
        ),
{
    let s = list[k];
    let mark = if chosen == s.id {
        r#"" selected>"#@
    } else {
        r#"">"#@
    };
    let part = r#"<option value=""#@ + dec(s.id->0 as nat) + mark + s.cidr;
    reveal_strlit(r#"""#);
    reveal_strlit(" selected");
    reveal_strlit(">");
    reveal_strlit("");
    reveal_strlit(r#"" selected>"#);
    reveal_strlit(r#"">"#);
    assert(mark =~= r#"""#@ + selected_if(chosen == s.id) + ">"@);
    assert(subnet_option(s, chosen) =~= part + ("（"@ + dec(s.reservation_count) + " 筆 reservation）</option>"@));
    lemma_in_longer(part);
    assert(has_text(subnet_option(s, chosen), part));
    lemma_option_among(list, chosen, k);
    lemma_in_part(subnet_options(list, chosen), subnet_option(s, chosen), part);
}

proof fn lemma_option_among(list: Seq<SummaryView>, chosen: Option<u32>, k: int)
    requires
        0 <= k < list.len(),
    ensures
        has_text(subnet_options(list, chosen), subnet_option(list[k], chosen)),
    decreases list.len(),
{
    lemma_in_longer(subnet_option(list[k], chosen));
    if k < list.len() - 1 {
        lemma_option_among(list.drop_last(), chosen, k);
        assert(list.drop_last()[k] == list[k]);
    }
}

/// After a sign-in or a decision the way leads back to where it came from, if that is a place of this site,
/// and to the first subnet otherwise.
pub proof fn law_way_back(next: Seq<char>)
    ensures
        next.len() > 0 && next[0] == '/' && (next.len() == 1 || next[1] != '/') ==> next_target(Some(next)) == next,
        !(next.len() > 0 && next[0] == '/' && (next.len() == 1 || next[1] != '/')) ==> next_target(Some(next))
            == "/subnet/0"@,
        next_target(None) == "/subnet/0"@,
{
}

/// The tab of the page that is shown is marked, and the other is not; both lead to their pages.
pub proof fn law_tabs_lead_to_both_pages(hosts: Seq<char>)
    ensures
        ({
            let on_hosts = tab_strip_text("hosts"@, hosts);
            let on_leases = tab_strip_text("leases"@, hosts);
            let plain = r#"<nav class="tabs">
<a class="btn" href=""#@ + hosts + r#"">保留主機</a>
<a class="btn primary" href="/leases">作用中租用</a>
</nav>"#@;
            let marked = r#"<nav class="tabs">
<a class="btn primary" href=""#@ + hosts + r#"">保留主機</a>
<a class="btn" href="/leases">作用中租用</a>
</nav>"#@;
            on_hosts == marked && on_leases == plain
        }),
{
    reveal_strlit("hosts");
    reveal_strlit("leases");
    assert("hosts"@.len() == 5 && "leases"@.len() == 6);
    reveal_strlit(" primary");
    reveal_strlit("");
    reveal_strlit(r#"<nav class="tabs">
<a class="btn"#);
    reveal_strlit(r#"" href=""#);
    reveal_strlit(r#"<nav class="tabs">
<a class="btn" href=""#);
    reveal_strlit(r#"<nav class="tabs">
<a class="btn primary" href=""#);
    reveal_strlit(r#"">保留主機</a>
<a class="btn"#);
    reveal_strlit(r#"" href="/leases">作用中租用</a>
</nav>"#);
    reveal_strlit(r#"">保留主機</a>
<a class="btn primary" href="/leases">作用中租用</a>
</nav>"#);
    reveal_strlit(r#"">保留主機</a>
<a class="btn" href="/leases">作用中租用</a>
</nav>"#);
    assert(tab_strip_text("hosts"@, hosts) =~= r#"<nav class="tabs">
<a class="btn primary" href=""#@ + hosts + r#"">保留主機</a>
<a class="btn" href="/leases">作用中租用</a>
</nav>"#@);
    assert(tab_strip_text("leases"@, hosts) =~= r#"<nav class="tabs">
<a class="btn" href=""#@ + hosts + r#"">保留主機</a>
<a class="btn primary" href="/leases">作用中租用</a>
</nav>"#@);
}

} // verus!
