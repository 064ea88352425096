//! HTML: the fragments that pages are made of.
use vstd::prelude::*;
use vstd::string::*;
use vstd::utf8::encode_utf8;

use crate::text::{chars_of, same};

verus! {

/// How a character is written where HTML may have a meaning for it.
pub open spec fn escaped_char(c: char) -> Seq<char> {
    if c == '&' {
        "&amp;"@
    } else if c == '<' {
        "&lt;"@
    } else if c == '>' {
        "&gt;"@
    } else if c == '"' {
        "&quot;"@
    } else if c == '\'' {
        "&#39;"@
    } else {
        seq![c]
    }
}

/// A text as it is written in HTML.
pub open spec fn escaped(s: Seq<char>) -> Seq<char>
    decreases s.len(),
{
    if s.len() == 0 {
        Seq::empty()
    } else {
        escaped(s.drop_last()) + escaped_char(s.last())
    }
}

/// A text as it is written in HTML.
pub fn escape(s: &str) -> (r: String)
    ensures
        r@ == escaped(s@),
{
    let x: Vec<char> = chars_of(s);
    let mut out: String = String::new();
    let mut i: usize = 0;
    assert(out@ =~= escaped(x@.take(0)));
    while i < x.len()
        invariant
            i <= x@.len(),
            x@ == s@,
            out@ == escaped(x@.take(i as int)),
        decreases x@.len() - i,
    {
        assert(x@.take(i + 1).drop_last() =~= x@.take(i as int));
        let ghost before = out@;
        let c: char = x[i];
        if c == '&' {
            out.append("&amp;");
        } else if c == '<' {
            out.append("&lt;");
        } else if c == '>' {
            out.append("&gt;");
        } else if c == '"' {
            out.append("&quot;");
        } else if c == '\'' {
            out.append("&#39;");
        } else {
            out.push(c);
        }
        assert(out@ =~= before + escaped_char(c));
        i = i + 1;
    }
    assert(x@.take(x@.len() as int) =~= x@);
    out
}

/// Whether a character can end a text or an attribute in HTML, or begin a tag.
pub open spec fn is_markup(c: char) -> bool {
    c == '<' || c == '>' || c == '"' || c == '\''
}

/// An escaped text holds nothing that ends a text or an attribute, or begins a tag.
pub proof fn law_escaped_holds_no_markup(s: Seq<char>)
    ensures
        forall|i: int| 0 <= i < escaped(s).len() ==> !is_markup(#[trigger] escaped(s)[i]),
    decreases s.len(),
{
    if s.len() > 0 {
        law_escaped_holds_no_markup(s.drop_last());
        let before = escaped(s.drop_last());
        let last = escaped_char(s.last());
        reveal_strlit("&amp;");
        reveal_strlit("&lt;");
        reveal_strlit("&gt;");
        reveal_strlit("&quot;");
        reveal_strlit("&#39;");
        assert forall|i: int| 0 <= i < last.len() implies !is_markup(#[trigger] last[i]) by {}
        assert forall|i: int| 0 <= i < escaped(s).len() implies !is_markup(#[trigger] escaped(s)[i]) by {
            if i < before.len() {
                assert(escaped(s)[i] == before[i]);
            } else {
                assert(escaped(s)[i] == last[i - before.len()]);
            }
        }
    }
}

/// Whether a byte stands for itself in a URL.
pub open spec fn unreserved(b: u8) -> bool {
    65 <= b <= 90 || 97 <= b <= 122 || 48 <= b <= 57 || b == 45 || b == 95 || b == 46 || b == 126
}

/// A hexadecimal digit in capitals.
pub open spec fn hex_capital(n: int) -> char {
    if n < 10 {
        (48 + n) as char
    } else {
        (55 + n) as char
    }
}

/// How a byte is written in a URL.
pub open spec fn url_byte(b: u8) -> Seq<char> {
    if unreserved(b) {
        seq![b as char]
    } else {
        seq!['%', hex_capital(b as int / 16), hex_capital(b as int % 16)]
    }
}

/// How bytes are written in a URL.
pub open spec fn url_bytes(b: Seq<u8>) -> Seq<char>
    decreases b.len(),
{
    if b.len() == 0 {
        Seq::empty()
    } else {
        url_bytes(b.drop_last()) + url_byte(b.last())
    }
}

/// A text as it is written in a URL.
pub open spec fn url_encoded(s: Seq<char>) -> Seq<char> {
    url_bytes(encode_utf8(s))
}

/// A hexadecimal digit in capitals.
fn hex_char(n: u8) -> (r: char)
    requires
        n < 16,
    ensures
        r == hex_capital(n as int),
{
    if n < 10 {
        (48 + n) as char
    } else {
        (55 + n) as char
    }
}

/// A text as it is written in a URL.
pub fn urlencode(s: &str) -> (r: String)
    ensures
        r@ == url_encoded(s@),
{
    let bytes: &[u8] = s.as_bytes();
    let mut out: String = String::new();
    let mut i: usize = 0;
    assert(out@ =~= url_bytes(bytes@.take(0)));
    while i < bytes.len()
        invariant
            i <= bytes@.len(),
            out@ == url_bytes(bytes@.take(i as int)),
        decreases bytes@.len() - i,
    {
        assert(bytes@.take(i + 1).drop_last() =~= bytes@.take(i as int));
        let ghost before = out@;
        let b: u8 = bytes[i];
        if (65 <= b && b <= 90) || (97 <= b && b <= 122) || (48 <= b && b <= 57) || b == 45 || b == 95 || b == 46
            || b == 126 {
            out.push(b as char);
        } else {
            out.push('%');
            out.push(hex_char(b / 16));
            out.push(hex_char(b % 16));
        }
        assert(out@ =~= before + url_byte(b));
        i = i + 1;
    }
    assert(bytes@.take(bytes@.len() as int) =~= bytes@);
    out
}

/// Whether a character stands for itself in a URL and in HTML.
pub open spec fn is_url_char(c: char) -> bool {
    'A' <= c <= 'Z' || 'a' <= c <= 'z' || '0' <= c <= '9' || c == '-' || c == '_' || c == '.' || c == '~' || c == '%'
}

/// An encoded text holds letters, digits, a few signs, and nothing else: it cannot end the
/// parameter that it is the value of, nor the attribute that the URL stands in.
pub proof fn law_url_encoded_is_plain(s: Seq<char>)
    ensures
        forall|i: int| 0 <= i < url_encoded(s).len() ==> is_url_char(#[trigger] url_encoded(s)[i]),
{
    lemma_url_bytes_plain(encode_utf8(s));
}

proof fn lemma_url_bytes_plain(b: Seq<u8>)
    ensures
        forall|i: int| 0 <= i < url_bytes(b).len() ==> is_url_char(#[trigger] url_bytes(b)[i]),
    decreases b.len(),
{
    if b.len() > 0 {
        lemma_url_bytes_plain(b.drop_last());
        let before = url_bytes(b.drop_last());
        let last = url_byte(b.last());
        assert forall|i: int| 0 <= i < last.len() implies is_url_char(#[trigger] last[i]) by {}
        assert forall|i: int| 0 <= i < url_bytes(b).len() implies is_url_char(#[trigger] url_bytes(b)[i]) by {
            if i < before.len() {
                assert(url_bytes(b)[i] == before[i]);
            } else {
                assert(url_bytes(b)[i] == last[i - before.len()]);
            }
        }
    }
}

/// How a page begins.
pub const PAGE_OPENING: &'static str = r#"<!doctype html>
<html lang="zh-Hant"><head><meta charset="utf-8">
<title>"#;

/// What stands between the title and the body of a page.
pub const PAGE_STYLE: &'static str = r#" — Kealight</title>
<script src="/static/htmx.min.js" defer></script>
<style>
body { font-family: system-ui, sans-serif; margin: 2rem; background:#f6f7f9; color:#222; }
table { border-collapse: collapse; width: 100%; background:#fff; }
th, td { border: 1px solid #d4d7dd; padding: .4rem .6rem; text-align: left; font-size: .92rem; }
th { background:#eef0f4; }
.bar { display:flex; gap:.75rem; align-items:center; margin-bottom:1rem; flex-wrap:wrap; }
.btn { padding:.35rem .7rem; border:1px solid #b8bdc7; background:#fff; cursor:pointer; text-decoration:none; color:#222; border-radius:4px; display:inline-block; }
.btn:disabled { opacity:.4; cursor:not-allowed; }
.btn.primary { background:#1f6feb; color:#fff; border-color:#1f6feb; }
.err { color:#b00020; }
.ok { color:#0a7d32; }
.warn { color:#8a6d00; }
.hint { color:#68707a; font-size:.85rem; }
.badge { background:#d3f0d3; border-radius:8px; padding:.1rem .5rem; font-size:.8rem; }
.dim { color:#68707a; }
nav.tabs { display:flex; gap:.5rem; align-items:center; margin-bottom:1rem; flex-wrap:wrap; }
.inline-form { display:inline; }
dialog { border:1px solid #b8bdc7; border-radius:8px; padding:1.25rem; }
</style></head><body>"#;

/// How a page ends.
pub const PAGE_CLOSING: &'static str = "</body></html>";

/// A page.
pub open spec fn page_text(title: Seq<char>, body: Seq<char>) -> Seq<char> {
    PAGE_OPENING@ + title + PAGE_STYLE@ + body + PAGE_CLOSING@
}

/// A page.
pub fn page(title: &str, body: &str) -> (r: String)
    ensures
        r@ == page_text(title@, body@),
{
    let mut out: String = PAGE_OPENING.to_owned();
    out.append(title);
    out.append(PAGE_STYLE);
    out.append(body);
    out.append(PAGE_CLOSING);
    out
}

/// The body of a page that tells of an error.
pub open spec fn err_text(msg: Seq<char>) -> Seq<char> {
    r#"<p class="err">"#@ + escaped(msg) + r#"</p><p><a class="btn" href="/">回首頁</a></p>"#@
}

/// The body of a page that tells of an error.
pub fn err_html(msg: &str) -> (r: String)
    ensures
        r@ == err_text(msg@),
{
    let mut out: String = r#"<p class="err">"#.to_owned();
    out.append(escape(msg).as_str());
    out.append(r#"</p><p><a class="btn" href="/">回首頁</a></p>"#);
    out
}

/// What is shown after Kea took the configuration, with a fragment that removes the badge of the
/// changes that are not applied.
pub open spec fn ok_reload_text(text: Seq<char>) -> Seq<char> {
    r#"<span class="ok">已套用並 reload 成功："#@ + escaped(text) + r#"</span><span id="pending-badge" hx-swap-oob="outerHTML"></span>"#@
}

/// What is shown after Kea took the configuration, with a fragment that removes the badge of the
/// changes that are not applied.
pub fn ok_reload_html(text: &str) -> (r: String)
    ensures
        r@ == ok_reload_text(text@),
{
    let mut out: String = r#"<span class="ok">已套用並 reload 成功："#.to_owned();
    out.append(escape(text).as_str());
    out.append(r#"</span><span id="pending-badge" hx-swap-oob="outerHTML"></span>"#);
    out
}

/// The class of a button that is the current one.
pub open spec fn primary_if(current: bool) -> Seq<char> {
    if current {
        " primary"@
    } else {
        ""@
    }
}

/// The class of a button that is the current one.
pub fn primary(current: bool) -> (r: &'static str)
    ensures
        r@ == primary_if(current),
{
    if current {
        " primary"
    } else {
        ""
    }
}

/// The tabs of the start page: `hosts` or `leases` is the current one.
pub open spec fn tab_strip_text(active: Seq<char>, hosts_href: Seq<char>) -> Seq<char> {
    r#"<nav class="tabs">
<a class="btn"#@ + primary_if(active == "hosts"@) + r#"" href=""#@ + hosts_href + r#"">保留主機</a>
<a class="btn"#@ + primary_if(active == "leases"@) + r#"" href="/leases">作用中租用</a>
</nav>"#@
}

/// The tabs of the start page: `hosts` or `leases` is the current one.
pub fn tab_strip(active: &str, hosts_href: &str) -> (r: String)
    ensures
        r@ == tab_strip_text(active@, hosts_href@),
{
    let mut out: String = r#"<nav class="tabs">
<a class="btn"#.to_owned();
    out.append(primary(same(active, "hosts")));
    out.append(r#"" href=""#);
    out.append(hosts_href);
    out.append(r#"">保留主機</a>
<a class="btn"#);
    out.append(primary(same(active, "leases")));
    out.append(r#"" href="/leases">作用中租用</a>
</nav>"#);
    out
}

/// The parameters that keep the order of the rows in a search.
pub open spec fn sort_vals_text(field: Option<Seq<char>>, desc: bool) -> Seq<char> {
    match field {
        Some(f) => r#" hx-vals='{"sort":""#@ + f + r#"","dir":""#@ + (if desc {
            "desc"@
        } else {
            "asc"@
        }) + r#""}'"#@,
        None => Seq::empty(),
    }
}

/// The parameters that keep the order of the rows in a search.
pub fn sort_hx_vals(field: &Option<String>, desc: bool) -> (r: String)
    ensures
        r@ == sort_vals_text(crate::text::opt_text(*field), desc),
{
    match field {
        Some(f) => {
            let mut out: String = r#" hx-vals='{"sort":""#.to_owned();
            out.append(f.as_str());
            out.append(r#"","dir":""#);
            out.append(
                if desc {
                    "desc"
                } else {
                    "asc"
                },
            );
            out.append(r#""}'"#);
            out
        },
        None => String::new(),
    }
}

/// How many rows a page has.
pub const PAGE_SIZE: usize = 50;

/// How many pages there are, which one is shown, and from where to where its rows go. A search has
/// one page.
pub open spec fn window_of(total: nat, page: Option<usize>, searching: bool) -> (nat, nat, nat, nat) {
    if searching {
        (1, 0, 0, total)
    } else {
        let pages = (total + PAGE_SIZE as nat - 1) as nat / PAGE_SIZE as nat;
        let asked: nat = match page {
            Some(p) => p as nat,
            None => 0,
        };
        let last: nat = if pages == 0 {
            0
        } else {
            (pages - 1) as nat
        };
        let current = if asked < last {
            asked
        } else {
            last
        };
        let start = current * PAGE_SIZE as nat;
        let end = if start + PAGE_SIZE as nat <= total {
            start + PAGE_SIZE as nat
        } else {
            total
        };
        (pages, current, start, end)
    }
}

/// The rows of a page are rows, and no more than a page has.
pub proof fn law_window_in_bounds(total: nat, page: Option<usize>, searching: bool)
    ensures
        window_of(total, page, searching).2 <= window_of(total, page, searching).3 <= total,
        !searching ==> window_of(total, page, searching).3 - window_of(total, page, searching).2 <= PAGE_SIZE,
        searching ==> window_of(total, page, searching).2 == 0 && window_of(total, page, searching).3 == total,
{
}

/// Every row is on one of the pages, and on no other.
pub proof fn law_pages_hold_every_row(total: nat, row: nat, page: usize)
    requires
        row < total,
        page < window_of(total, None, false).0,
    ensures
        window_of(total, Some(page), false).1 == page,
        (window_of(total, Some(page), false).2 <= row < window_of(total, Some(page), false).3) <==> page == row
            / PAGE_SIZE as nat,
        row / (PAGE_SIZE as nat) < window_of(total, None, false).0,
{
}

/// How many pages there are, which one is shown, and from where to where its rows go.
pub fn page_window(total: usize, page: Option<usize>, searching: bool) -> (r: (usize, usize, usize, usize))
    ensures
        (r.0 as nat, r.1 as nat, r.2 as nat, r.3 as nat) == window_of(total as nat, page, searching),
        r.2 <= r.3 <= total,
        r.0 <= total || searching,
{
    if searching {
        return (1, 0, 0, total);
    }
    let whole: usize = total / PAGE_SIZE;
    let pages: usize = if total % PAGE_SIZE == 0 {
        whole
    } else {
        whole + 1
    };
    let asked: usize = match page {
        Some(p) => p,
        None => 0,
    };
    let last: usize = if pages == 0 {
        0
    } else {
        pages - 1
    };
    let current: usize = if asked < last {
        asked
    } else {
        last
    };
    let start: usize = current * PAGE_SIZE;
    let end: usize = if total - start >= PAGE_SIZE {
        start + PAGE_SIZE
    } else {
        total
    };
    (pages, current, start, end)
}

} // verus!
