//! The form of a reservation: what is typed into it, and how it is shown.
use vstd::prelude::*;
use vstd::string::*;

use crate::addr::{ip_of, ip_text, Ipv4Addr};
use crate::domain::{Reservation, ReservationView};
use crate::error::{error, KeaError};
use crate::html::{escape, escaped};
use crate::mac::{mac_of, normalize_mac};
use crate::number::{dec, decimal};
use crate::paste::nonempty;
use crate::query::{or_empty, subnet_href, subnet_path, text_or_empty};
use crate::text::{is_empty, lowercase, opt_text, texts, to_lowercase, trim, trimmed};

verus! {

/// What is typed into the form.
#[derive(Debug)]
pub struct ReservationForm {
    pub hw_address: String,
    pub ip_address: String,
    pub hostname: Option<String>,
    /// The decision on a file that was changed elsewhere, where the form is sent again with it.
    pub external_resolve: Option<String>,
}

/// What is typed into the form.
#[verifier::ext_equal]
pub struct FormView {
    pub hw: Seq<char>,
    pub ip: Seq<char>,
    pub hostname: Option<Seq<char>>,
    pub external_resolve: Option<Seq<char>>,
}

impl View for ReservationForm {
    type V = FormView;

    open spec fn view(&self) -> FormView {
        FormView {
            hw: self.hw_address@,
            ip: self.ip_address@,
            hostname: opt_text(self.hostname),
            external_resolve: opt_text(self.external_resolve),
        }
    }
}

/// The text, or nothing: where there is none, or nothing but white space.
pub open spec fn tidy(s: Option<Seq<char>>) -> Option<Seq<char>> {
    match s {
        Some(t) => nonempty(trimmed(t)),
        None => None,
    }
}

/// The text, or nothing: where there is none, or nothing but white space.
fn tidied(s: &Option<String>) -> (r: Option<String>)
    ensures
        opt_text(r) == tidy(opt_text(*s)),
{
    match s {
        Some(t) => {
            let x: String = trim(t.as_str());
            if is_empty(x.as_str()) {
                None
            } else {
                Some(x)
            }
        },
        None => None,
    }
}

/// What is wrong with what is typed into the form.
pub open spec fn form_errors(f: FormView) -> Seq<Seq<char>> {
    let hw = trimmed(f.hw);
    (if hw.len() == 0 {
        seq!["hw-address 不得為空"@]
    } else {
        Seq::empty()
    }) + (if mac_of(hw) is None {
        seq!["hw-address 格式不合法（需 6 組十六進位，可用 : 或 - 分隔）: "@ + escaped(hw)]
    } else {
        Seq::empty()
    }) + (if ip_of(trimmed(f.ip)) is None {
        seq!["ip-address 格式不合法: "@ + escaped(f.ip)]
    } else {
        Seq::empty()
    })
}

/// The reservation that the form holds; nothing where something is wrong with it.
pub open spec fn form_reservation(f: FormView) -> Option<ReservationView> {
    match (mac_of(trimmed(f.hw)), ip_of(trimmed(f.ip))) {
        (Some(hw), Some(ip)) => Some(ReservationView { hw, ip, hostname: tidy(f.hostname) }),
        _ => None,
    }
}

/// The form holds a reservation exactly where nothing is wrong with it.
pub proof fn law_form_is_taken_or_faulted(f: FormView)
    ensures
        form_reservation(f) is Some <==> form_errors(f).len() == 0,
{
    if trimmed(f.hw).len() == 0 {
        assert(!trimmed(f.hw).contains(':'));
        assert(!trimmed(f.hw).contains('-'));
    }
}

/// The reservation that the form holds, and what is wrong with it.
pub fn reservation_from_form(f: &ReservationForm) -> (r: (Result<Reservation, KeaError>, Vec<String>))
    ensures
        texts(r.1@) == form_errors(f@),
        match r.0 {
            Ok(x) => form_reservation(f@) == Some(x@),
            Err(e) => form_reservation(f@) is None && e.message@ == "表單不合法"@,
        },
{
    proof {
        law_form_is_taken_or_faulted(f@);
    }
    let mut errors: Vec<String> = Vec::new();
    let hw: String = trim(f.hw_address.as_str());
    if is_empty(hw.as_str()) {
        errors.push("hw-address 不得為空".to_owned());
    }
    let mac: Option<String> = normalize_mac(hw.as_str());
    match &mac {
        Some(_) => {},
        None => {
            let mut text: String = "hw-address 格式不合法（需 6 組十六進位，可用 : 或 - 分隔）: ".to_owned();
            text.append(escape(hw.as_str()).as_str());
            errors.push(text);
        },
    }
    let ip: Option<Ipv4Addr> = Ipv4Addr::parse(trim(f.ip_address.as_str()).as_str());
    match ip {
        Some(_) => {},
        None => {
            let mut text: String = "ip-address 格式不合法: ".to_owned();
            text.append(escape(f.ip_address.as_str()).as_str());
            errors.push(text);
        },
    }
    assert(texts(errors@) =~= form_errors(f@));
    match (mac, ip) {
        (Some(hw_address), Some(ip_address)) => {
            let hostname: Option<String> = tidied(&f.hostname);
            (Ok(Reservation { hw_address, ip_address, hostname }), errors)
        },
        _ => (Err(error("表單不合法")), errors),
    }
}

/// What the form shows again where something is wrong with it.
pub open spec fn shown_again(f: FormView) -> ReservationView {
    ReservationView {
        hw: lowercase(trimmed(f.hw)),
        ip: match ip_of(trimmed(f.ip)) {
            Some(ip) => ip,
            None => 0,
        },
        hostname: tidy(f.hostname),
    }
}

/// What the form shows again where something is wrong with it.
pub fn show_again(f: &ReservationForm) -> (r: Reservation)
    ensures
        r@ == shown_again(f@),
{
    let ip_address: Ipv4Addr = match Ipv4Addr::parse(trim(f.ip_address.as_str()).as_str()) {
        Some(ip) => ip,
        None => Ipv4Addr::unspecified(),
    };
    Reservation {
        hw_address: to_lowercase(trim(f.hw_address.as_str()).as_str()),
        ip_address,
        hostname: tidied(&f.hostname),
    }
}

/// Items of a list, each behind the same opening.
pub open spec fn items_text(opening: Seq<char>, items: Seq<Seq<char>>) -> Seq<char>
    decreases items.len(),
{
    if items.len() == 0 {
        Seq::empty()
    } else {
        items_text(opening, items.drop_last()) + opening + escaped(items.last()) + "</li>"@
    }
}

/// A block of items; nothing where there are none.
pub open spec fn block_text(block: Seq<char>, opening: Seq<char>, items: Seq<Seq<char>>) -> Seq<char> {
    if items.len() == 0 {
        Seq::empty()
    } else {
        block + items_text(opening, items) + "</ul></div>"@
    }
}

/// A block of items; nothing where there are none.
fn block_html(block: &str, opening: &str, items: &[String]) -> (r: String)
    ensures
        r@ == block_text(block@, opening@, texts(items@)),
{
    let mut out: String = String::new();
    assert(texts(items@).len() == items@.len());
    if items.len() > 0 {
        let ghost all = texts(items@);
        let mut list: String = String::new();
        let mut i: usize = 0;
        while i < items.len()
            invariant
                i <= items@.len(),
                all == texts(items@),
                list@ == items_text(opening@, all.take(i as int)),
            decreases items@.len() - i,
        {
            assert(all.take(i + 1).drop_last() =~= all.take(i as int));
            assert(all.take(i + 1).last() == items@[i as int]@);
            list.append(opening);
            list.append(escape(items[i].as_str()).as_str());
            list.append("</li>");
            i = i + 1;
        }
        assert(all.take(all.len() as int) =~= all);
        out = block.to_owned();
        out.append(list.as_str());
        out.append("</ul></div>");
    }
    out
}

/// The path of the form: that of a reservation, or that of a new one.
pub open spec fn form_path(idx: nat, ridx: Option<usize>) -> Seq<char> {
    match ridx {
        Some(ri) => subnet_path(idx) + "/res/"@ + dec(ri as nat) + "/edit"@,
        None => subnet_path(idx) + "/new"@,
    }
}

/// The path of the form: that of a reservation, or that of a new one.
pub fn form_action(idx: usize, ridx: Option<usize>) -> (r: String)
    ensures
        r@ == form_path(idx as nat, ridx),
{
    let mut out: String = subnet_href(idx);
    match ridx {
        Some(ri) => {
            out.append("/res/");
            out.append(decimal(ri as u64).as_str());
            out.append("/edit");
        },
        None => {
            out.append("/new");
        },
    }
    out
}

/// The hint about the hardware address of the host that the request comes from.
pub open spec fn peer_hint_text(peer_mac: Option<Seq<char>>) -> Seq<char> {
    match peer_mac {
        Some(m) => r#"<span class="hint">目前連線主機 MAC："#@ + escaped(m) + "（可供手動填入）</span>"@,
        None => r#"<span class="hint">無法取得連線主機 MAC（需與本系統同一層網路）</span>"#@,
    }
}

/// The hint about the hardware address of the host that the request comes from.
fn peer_hint(peer_mac: &Option<String>) -> (r: String)
    ensures
        r@ == peer_hint_text(opt_text(*peer_mac)),
{
    match peer_mac {
        Some(m) => {
            let mut out: String = r#"<span class="hint">目前連線主機 MAC："#.to_owned();
            out.append(escape(m.as_str()).as_str());
            out.append("（可供手動填入）</span>");
            out
        },
        None => r#"<span class="hint">無法取得連線主機 MAC（需與本系統同一層網路）</span>"#.to_owned(),
    }
}

/// The form, with what it shows, what is wrong with it, and what to look out for.
pub open spec fn form_text(
    idx: nat,
    ridx: Option<usize>,
    shown: Option<ReservationView>,
    errors: Seq<Seq<char>>,
    warnings: Seq<Seq<char>>,
    peer_mac: Option<Seq<char>>,
) -> Seq<char> {
    let (hw, ip, hostname) = match shown {
        Some(x) => (x.hw, ip_text(x.ip), text_or_empty(x.hostname)),
        None => (Seq::empty(), Seq::empty(), Seq::empty()),
    };
    let title = if ridx is Some {
        "編輯 reservation"@
    } else {
        "新增 reservation"@
    };
    let errs = block_text(r#"<div class="err"><ul>"#@, "<li>"@, errors);
    let warns = block_text(r#"<div class="warn"><ul>"#@, "<li>⚠ "@, warnings);
    r#"<div class="bar"><h1 style="margin:0">"#@ + title + " — Subnet "@ + dec(idx) + r#"</h1></div>
"#@ + errs + warns + r#"
<form method="post" action=""#@ + form_path(idx, ridx) + r#"" class="bar" style="flex-direction:column;align-items:flex-start;max-width:32rem">
<label>hw-address（MAC，唯一鍵）<br><input name="hw_address" value=""#@ + escaped(hw) + r#"" required placeholder="1c:69:7a:77:3b:98" style="width:100%"><br>"#@ + peer_hint_text(peer_mac) + r#"</label>
<label>ip-address<br><input name="ip_address" value=""#@ + escaped(ip) + r#"" required placeholder="10.1.1.11" style="width:100%"></label>
<label>hostname（選用）<br><input name="hostname" value=""#@ + escaped(hostname) + r#"" style="width:100%"></label>
<div class="bar" style="margin-top:.5rem">
<button class="btn primary" type="submit">儲存</button>
<a class="btn" href="/subnet/"#@ + dec(idx) + r#"">取消</a>
</div>
</form>"#@
}

/// The form, with what it shows, what is wrong with it, and what to look out for.
pub fn form_html(
    idx: usize,
    ridx: Option<usize>,
    shown: Option<&Reservation>,
    errors: &[String],
    warnings: &[String],
    peer_mac: Option<String>,
) -> (r: String)
    ensures
        r@ == form_text(
            idx as nat,
            ridx,
            (match shown {
                Some(x) => Some(x@),
                None => None,
            }),
            texts(errors@),
            texts(warnings@),
            opt_text(peer_mac),
        ),
{
    let hw: String = match shown {
        Some(x) => x.hw_address.clone(),
        None => String::new(),
    };
    let ip: String = match shown {
        Some(x) => x.ip_address.to_string(),
        None => String::new(),
    };
    let hostname: String = match shown {
        Some(x) => or_empty(&x.hostname),
        None => String::new(),
    };
    let title: &str = match ridx {
        Some(_) => "編輯 reservation",
        None => "新增 reservation",
    };
    let errs: String = block_html(r#"<div class="err"><ul>"#, "<li>", errors);
    let warns: String = block_html(r#"<div class="warn"><ul>"#, "<li>⚠ ", warnings);
    let mut out: String = r#"<div class="bar"><h1 style="margin:0">"#.to_owned();
    out.append(title);
    out.append(" — Subnet ");
    out.append(decimal(idx as u64).as_str());
    out.append(r#"</h1></div>
"#);
    out.append(errs.as_str());
    out.append(warns.as_str());
    out.append(r#"
<form method="post" action=""#);
    out.append(form_action(idx, ridx).as_str());
    out.append(r#"" class="bar" style="flex-direction:column;align-items:flex-start;max-width:32rem">
<label>hw-address（MAC，唯一鍵）<br><input name="hw_address" value=""#);
    out.append(escape(hw.as_str()).as_str());
    out.append(r#"" required placeholder="1c:69:7a:77:3b:98" style="width:100%"><br>"#);
    out.append(peer_hint(&peer_mac).as_str());
    out.append(r#"</label>
<label>ip-address<br><input name="ip_address" value=""#);
    out.append(escape(ip.as_str()).as_str());
    out.append(r#"" required placeholder="10.1.1.11" style="width:100%"></label>
<label>hostname（選用）<br><input name="hostname" value=""#);
    out.append(escape(hostname.as_str()).as_str());
    out.append(r#"" style="width:100%"></label>
<div class="bar" style="margin-top:.5rem">
<button class="btn primary" type="submit">儲存</button>
<a class="btn" href="/subnet/"#);
    out.append(decimal(idx as u64).as_str());
    out.append(r#"">取消</a>
</div>
</form>"#);
    out
}

/// What the form is about to do, in words.
pub open spec fn summary_text(ridx: Option<usize>, f: FormView) -> Seq<char> {
    let action = if ridx is Some {
        "編輯"@
    } else {
        "新增"@
    };
    let host = match f.hostname {
        Some(h) => "、hostname「"@ + escaped(h) + "」"@,
        None => Seq::empty(),
    };
    "將"@ + action + " reservation：hw-address「"@ + escaped(f.hw) + "」、ip-address「"@ + escaped(f.ip) + "」"@ + host
}

/// What the form is about to do, in words.
pub fn reservation_form_summary(ridx: Option<usize>, f: &ReservationForm) -> (r: String)
    ensures
        r@ == summary_text(ridx, f@),
{
    let action: &str = match ridx {
        Some(_) => "編輯",
        None => "新增",
    };
    let host: String = match &f.hostname {
        Some(h) => {
            let mut text: String = "、hostname「".to_owned();
            text.append(escape(h.as_str()).as_str());
            text.append("」");
            text
        },
        None => String::new(),
    };
    let mut out: String = "將".to_owned();
    out.append(action);
    out.append(" reservation：hw-address「");
    out.append(escape(f.hw_address.as_str()).as_str());
    out.append("」、ip-address「");
    out.append(escape(f.ip_address.as_str()).as_str());
    out.append("」");
    out.append(host.as_str());
    out
}

/// The hidden fields that carry what was typed, to send it again with a decision.
pub open spec fn hidden_text(f: FormView) -> Seq<char> {
    let both = r#"<input type="hidden" name="hw_address" value=""#@ + escaped(f.hw) + r#"">"#@ + r#"<input type="hidden" name="ip_address" value=""#@ + escaped(f.ip) + r#"">"#@;
    match f.hostname {
        Some(h) => both + r#"<input type="hidden" name="hostname" value=""#@ + escaped(h) + r#"">"#@,
        None => both,
    }
}

/// The hidden fields that carry what was typed, to send it again with a decision.
pub fn hidden_fields(f: &ReservationForm) -> (r: String)
    ensures
        r@ == hidden_text(f@),
{
    let mut out: String = r#"<input type="hidden" name="hw_address" value=""#.to_owned();
    out.append(escape(f.hw_address.as_str()).as_str());
    out.append(r#"">"#);
    out.append(r#"<input type="hidden" name="ip_address" value=""#);
    out.append(escape(f.ip_address.as_str()).as_str());
    out.append(r#"">"#);
    match &f.hostname {
        Some(h) => {
            out.append(r#"<input type="hidden" name="hostname" value=""#);
            out.append(escape(h.as_str()).as_str());
            out.append(r#"">"#);
        },
        None => {},
    }
    out
}

} // verus!
