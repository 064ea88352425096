//! What every request is answered.
use vstd::prelude::*;
use vstd::string::*;

use crate::addr::{ip_of, ip_text};
use crate::auth::login_text;
use crate::domain::{conflicts_of, reasons, ReservationView, SubnetView};
use crate::error::KeaError;
use crate::file::{law_entry_of_row, reservation_list, socket_of, subnet_of, subnets, FileStat};
use crate::form::{
    block_text, form_errors, form_path, form_reservation, form_text, hidden_text, items_text, peer_hint_text,
    shown_again, summary_text, FormView,
};
use crate::guard_laws::{law_consent_ends_the_waiting, law_every_change_is_noticed, same_version};
use crate::html::{err_text, escaped, page_text};
use crate::json::Json;
use crate::lease_page::{rendered_leases, time_view};
use crate::list::rendered_list;
use crate::list_laws::{lemma_between, lemma_in_both, lemma_in_longer, lemma_in_part, name_of};
use crate::mac::mac_of;
use crate::markup_laws::law_page_holds_its_body;
use crate::number::dec;
use crate::operation::{performed, question, stepped, EventView, OperationView};
use crate::query::{subnet_path, LeasesQueryView, ListQueryView};
use crate::save::done_view;
use crate::state::{decision_text, Refresh, StateView};
use crate::text::{has_text, lowercase, opt_text, stands_at, texts, trimmed};
use crate::web::{
    delete_path, deleted, edit_form_reply, error_page, form_body, kea_reply, leases_reply, list_reply, new_form_reply,
    outcome, refused, submitted, Reply, ReplyView,
};

verus! {

/// Every row of a subnet can be deleted, and nothing else can; the way then leads back to the subnet.
pub proof fn law_every_row_can_be_deleted(file: Json, idx: nat, row: usize)
    requires
        subnet_of(file, idx) is Ok,
        reservation_list(file, idx) is Ok,
    ensures
        row < subnet_of(file, idx)->Ok_0.reservations.len() ==> deleted(file, idx, row).1 == Ok::<Seq<char>, ReplyView>(
            "/subnet/"@ + dec(idx),
        ),
        row >= subnet_of(file, idx)->Ok_0.reservations.len() ==> deleted(file, idx, row).1 is Err && deleted(
            file,
            idx,
            row,
        ).0 == file && deleted(file, idx, row).1->Err_0 is Html && deleted(file, idx, row).1->Err_0->status == 500,
{
    law_entry_of_row(reservation_list(file, idx)->Ok_0, row as nat);
}

/// A page is shown for every subnet that can be read, with what is rendered for it; otherwise the page says
/// why, under the status of what is not there.
pub proof fn law_list_is_answered(s: StateView, idx: nat, q: ListQueryView, refresh: Refresh)
    ensures
        list_reply(s, idx, q, refresh) is Html,
        subnet_of(s.file, idx) is Ok <==> list_reply(s, idx, q, refresh)->status == 200,
        subnet_of(s.file, idx) is Err <==> list_reply(s, idx, q, refresh)->status == 404,
        subnet_of(s.file, idx) is Ok ==> has_text(
            list_reply(s, idx, q, refresh)->body,
            rendered_list(s, idx, q, refresh)->Ok_0,
        ),
        subnet_of(s.file, idx) is Err ==> has_text(
            list_reply(s, idx, q, refresh)->body,
            escaped(subnet_of(s.file, idx)->Err_0),
        ),
{
    match subnet_of(s.file, idx) {
        Ok(_) => {
            law_page_holds_its_body("Subnet "@ + dec(idx), rendered_list(s, idx, q, refresh)->Ok_0);
        },
        Err(e) => {
            lemma_error_told(404, e);
        },
    }
}

/// The page of the leases is shown whenever the time is known; otherwise it says that it is not.
pub proof fn law_leases_are_answered(
    s: StateView,
    q: LeasesQueryView,
    refresh: Refresh,
    text: Option<Seq<char>>,
    now: Result<u64, Seq<char>>,
)
    ensures
        leases_reply(s, q, refresh, text, now) is Html,
        now is Ok ==> leases_reply(s, q, refresh, text, now)->status == 200 && has_text(
            leases_reply(s, q, refresh, text, now)->body,
            rendered_leases(s, q, refresh, text, now)->Ok_0,
        ),
        now is Err ==> leases_reply(s, q, refresh, text, now)->status == 500 && has_text(
            leases_reply(s, q, refresh, text, now)->body,
            escaped("取得時間失敗: "@ + now->Err_0),
        ),
{
    match now {
        Ok(_) => {
            law_page_holds_its_body("作用中租用"@, rendered_leases(s, q, refresh, text, now)->Ok_0);
        },
        Err(e) => {
            lemma_error_told(500, "取得時間失敗: "@ + e);
        },
    }
}

/// The page of an error has its status and tells what is wrong.
proof fn lemma_error_told(status: u16, message: Seq<char>)
    ensures
        error_page(status, message) is Html,
        error_page(status, message)->status == status,
        has_text(error_page(status, message)->body, escaped(message)),
{
    let (a, b) = (r#"<p class="err">"#@, r#"</p><p><a class="btn" href="/">回首頁</a></p>"#@);
    lemma_between(a, escaped(message), b);
    law_page_holds_its_body("錯誤"@, err_text(message));
    lemma_in_part(page_text("錯誤"@, err_text(message)), err_text(message), escaped(message));
}

/// The three fields of a form, as they are filled in.
pub open spec fn is_filled_in(text: Seq<char>, hw: Seq<char>, ip: Seq<char>, host: Seq<char>) -> bool {
    &&& has_text(text, r#"name="hw_address" value=""#@ + escaped(hw) + r#"" required"#@)
    &&& has_text(text, r#"name="ip_address" value=""#@ + escaped(ip) + r#"" required"#@)
    &&& has_text(text, r#"name="hostname" value=""#@ + escaped(host) + r#"" style"#@)
}

/// A form shows the reservation that it is filled in with, and is empty without one; it is sent to the place
/// it is for; every error stands in it; and it tells the hardware address of the one who asks, where that is
/// known.
pub proof fn law_form_shows_what_it_is_for(
    idx: nat,
    ridx: Option<usize>,
    shown: Option<ReservationView>,
    errors: Seq<Seq<char>>,
    mac: Option<Seq<char>>,
)
    ensures
        ({
            let text = form_text(idx, ridx, shown, errors, Seq::empty(), mac);
            &&& shown is Some ==> is_filled_in(text, shown->0.hw, ip_text(shown->0.ip), name_of(shown->0))
            &&& shown is None ==> is_filled_in(text, Seq::empty(), Seq::empty(), Seq::empty())
            &&& ridx is None ==> has_text(text, r#"action="/subnet/"#@ + dec(idx) + r#"/new""#@)
            &&& ridx is Some ==> has_text(
                text,
                r#"action="/subnet/"#@ + dec(idx) + "/res/"@ + dec(ridx->0 as nat) + r#"/edit""#@,
            )
            &&& mac is Some ==> has_text(text, "目前連線主機 MAC："@ + escaped(mac->0) + "（"@)
            &&& forall|i: int|
                0 <= i < errors.len() ==> has_text(text, "<li>"@ + escaped(#[trigger] errors[i]) + "</li>"@)
        }),
{
    let (hw, ip, host) = match shown {
        Some(x) => (x.hw, ip_text(x.ip), name_of(x)),
        None => (Seq::empty(), Seq::empty(), Seq::empty()),
    };
    let text = form_text(idx, ridx, shown, errors, Seq::empty(), mac);
    let title = if ridx is Some {
        "編輯 reservation"@
    } else {
        "新增 reservation"@
    };
    let top = r#"<div class="bar"><h1 style="margin:0">"#@ + title + " — Subnet "@ + dec(idx) + r#"</h1></div>
"#@;
    let errs = block_text(r#"<div class="err"><ul>"#@, "<li>"@, errors);
    let warns = block_text(r#"<div class="warn"><ul>"#@, "<li>⚠ "@, Seq::empty());
    let f1 = r#"
<form method="post" action=""#@;
    let path = form_path(idx, ridx);
    let f2 = r#"" class="bar" style="flex-direction:column;align-items:flex-start;max-width:32rem">
<label>hw-address（MAC，唯一鍵）<br><input name="hw_address" value=""#@;
    let f3 = r#"" required placeholder="1c:69:7a:77:3b:98" style="width:100%"><br>"#@;
    let hint = peer_hint_text(mac);
    let f4 = r#"</label>
<label>ip-address<br><input name="ip_address" value=""#@;
    let f5 = r#"" required placeholder="10.1.1.11" style="width:100%"></label>
<label>hostname（選用）<br><input name="hostname" value=""#@;
    let f6 = r#"" style="width:100%"></label>
<div class="bar" style="margin-top:.5rem">
<button class="btn primary" type="submit">儲存</button>
<a class="btn" href="/subnet/"#@;
    let f7 = r#"">取消</a>
</div>
</form>"#@;
    let (h, i, n) = (escaped(hw), escaped(ip), escaped(host));
    let p = seq![top, errs, warns, f1, path, f2, h, f3, hint, f4, i, f5, n, f6, dec(idx), f7];
    assert(text == glued(p));
    lemma_form_literals();
    lemma_errors_glued(p);
    assert forall|k: int| 0 <= k < errors.len() implies has_text(
        text,
        "<li>"@ + escaped(#[trigger] errors[k]) + "</li>"@,
    ) by {
        lemma_item_there(r#"<div class="err"><ul>"#@, "<li>"@, errors, k);
        lemma_in_part(text, errs, "<li>"@ + escaped(errors[k]) + "</li>"@);
    }
    lemma_way_glued(p);
    lemma_form_way(idx, ridx, f1, f2);
    if ridx is None {
        lemma_in_part(text, f1 + path + f2, r#"action="/subnet/"#@ + dec(idx) + r#"/new""#@);
    } else {
        lemma_in_part(
            text,
            f1 + path + f2,
            r#"action="/subnet/"#@ + dec(idx) + "/res/"@ + dec(ridx->0 as nat) + r#"/edit""#@,
        );
    }
    lemma_fields_glued(p);
    lemma_cut(f2, r#"name="hw_address" value=""#@, h, r#"" required"#@, f3);
    lemma_in_part(text, f2 + h + f3, r#"name="hw_address" value=""#@ + h + r#"" required"#@);
    lemma_cut(f4, r#"name="ip_address" value=""#@, i, r#"" required"#@, f5);
    lemma_in_part(text, f4 + i + f5, r#"name="ip_address" value=""#@ + i + r#"" required"#@);
    lemma_cut(f5, r#"name="hostname" value=""#@, n, r#"" style"#@, f6);
    lemma_in_part(text, f5 + n + f6, r#"name="hostname" value=""#@ + n + r#"" style"#@);
    if mac is Some {
        let m = escaped(mac->0);
        lemma_cut(r#"<span class="hint">目前連線主機 MAC："#@, "目前連線主機 MAC："@, m, "（"@, "（可供手動填入）</span>"@);
        lemma_in_part(text, hint, "目前連線主機 MAC："@ + m + "（"@);
    }
}

/// Sixteen texts, one behind the other.
spec fn glued(p: Seq<Seq<char>>) -> Seq<char> {
    p[0] + p[1] + p[2] + p[3] + p[4] + p[5] + p[6] + p[7] + p[8] + p[9] + p[10] + p[11] + p[12] + p[13] + p[14] + p[15]
}

proof fn lemma_three(head: Seq<char>, a: Seq<char>, b: Seq<char>, c: Seq<char>)
    ensures
        has_text(head + a + b + c, a + b + c),
{
    let whole = head + a + b + c;
    let part = a + b + c;
    let n = head.len() as int;
    assert(whole.subrange(n, n + part.len()) =~= part);
    assert(stands_at(whole, part, n));
}

proof fn lemma_errors_glued(p: Seq<Seq<char>>)
    ensures
        has_text(glued(p), p[1]),
        has_text(glued(p), p[8]),
{
    lemma_in_longer(p[1]);
    lemma_in_longer(p[8]);
}

proof fn lemma_way_glued(p: Seq<Seq<char>>)
    ensures
        has_text(glued(p), p[3] + p[4] + p[5]),
{
    let part = p[3] + p[4] + p[5];
    let head = p[0] + p[1] + p[2];
    lemma_three(head, p[3], p[4], p[5]);
    lemma_in_longer(part);
}

proof fn lemma_fields_glued(p: Seq<Seq<char>>)
    ensures
        has_text(glued(p), p[5] + p[6] + p[7]),
        has_text(glued(p), p[9] + p[10] + p[11]),
        has_text(glued(p), p[11] + p[12] + p[13]),
{
    lemma_first_field_glued(p);
    lemma_second_field_glued(p);
    lemma_third_field_glued(p);
}

proof fn lemma_first_field_glued(p: Seq<Seq<char>>)
    ensures
        has_text(glued(p), p[5] + p[6] + p[7]),
{
    let part = p[5] + p[6] + p[7];
    let head = p[0] + p[1] + p[2] + p[3] + p[4];
    lemma_three(head, p[5], p[6], p[7]);
    lemma_in_longer(part);
}

proof fn lemma_second_field_glued(p: Seq<Seq<char>>)
    ensures
        has_text(glued(p), p[9] + p[10] + p[11]),
{
    let part = p[9] + p[10] + p[11];
    let head = p[0] + p[1] + p[2] + p[3] + p[4] + p[5] + p[6] + p[7] + p[8];
    lemma_three(head, p[9], p[10], p[11]);
    lemma_in_longer(part);
}

proof fn lemma_third_field_glued(p: Seq<Seq<char>>)
    ensures
        has_text(glued(p), p[11] + p[12] + p[13]),
{
    let part = p[11] + p[12] + p[13];
    let head = p[0] + p[1] + p[2] + p[3] + p[4] + p[5] + p[6] + p[7] + p[8] + p[9] + p[10];
    lemma_three(head, p[11], p[12], p[13]);
    lemma_in_longer(part);
}

/// Whether a text ends in another.
spec fn ends_with(l: Seq<char>, end: Seq<char>) -> bool {
    l.len() >= end.len() && l.skip(l.len() - end.len()) == end
}

/// Whether a text begins with another.
spec fn starts_with(l: Seq<char>, start: Seq<char>) -> bool {
    l.len() >= start.len() && l.take(start.len() as int) == start
}

/// Around a text stand the end of what is before it and the start of what is behind it.
proof fn lemma_cut(l: Seq<char>, end: Seq<char>, t: Seq<char>, start: Seq<char>, r: Seq<char>)
    requires
        ends_with(l, end),
        starts_with(r, start),
    ensures
        has_text(l + t + r, end + t + start),
{
    let a = l.take(l.len() - end.len());
    let b = r.skip(start.len() as int);
    assert(l =~= a + end);
    assert(r =~= start + b);
    assert(l + t + r =~= a + (end + t + start) + b);
    lemma_between(a, end + t + start, b);
}

proof fn lemma_form_literals()
    ensures
        ends_with(
            r#"" class="bar" style="flex-direction:column;align-items:flex-start;max-width:32rem">
<label>hw-address（MAC，唯一鍵）<br><input name="hw_address" value=""#@,
            r#"name="hw_address" value=""#@,
        ),
        starts_with(r#"" required placeholder="1c:69:7a:77:3b:98" style="width:100%"><br>"#@, r#"" required"#@),
        ends_with(
            r#"</label>
<label>ip-address<br><input name="ip_address" value=""#@,
            r#"name="ip_address" value=""#@,
        ),
        starts_with(
            r#"" required placeholder="10.1.1.11" style="width:100%"></label>
<label>hostname（選用）<br><input name="hostname" value=""#@,
            r#"" required"#@,
        ),
        ends_with(
            r#"" required placeholder="10.1.1.11" style="width:100%"></label>
<label>hostname（選用）<br><input name="hostname" value=""#@,
            r#"name="hostname" value=""#@,
        ),
        starts_with(
            r#"" style="width:100%"></label>
<div class="bar" style="margin-top:.5rem">
<button class="btn primary" type="submit">儲存</button>
<a class="btn" href="/subnet/"#@,
            r#"" style"#@,
        ),
        ends_with(r#"<span class="hint">目前連線主機 MAC："#@, "目前連線主機 MAC："@),
        starts_with("（可供手動填入）</span>"@, "（"@),
{
    lemma_form_literals_one();
    lemma_form_literals_two();
    lemma_form_literals_three();
}

proof fn lemma_form_literals_one()
    ensures
        ends_with(
            r#"" class="bar" style="flex-direction:column;align-items:flex-start;max-width:32rem">
<label>hw-address（MAC，唯一鍵）<br><input name="hw_address" value=""#@,
            r#"name="hw_address" value=""#@,
        ),
        starts_with(r#"" required placeholder="1c:69:7a:77:3b:98" style="width:100%"><br>"#@, r#"" required"#@),
        ends_with(
            r#"</label>
<label>ip-address<br><input name="ip_address" value=""#@,
            r#"name="ip_address" value=""#@,
        ),
{
    reveal_strlit(
        r#"" class="bar" style="flex-direction:column;align-items:flex-start;max-width:32rem">
<label>hw-address（MAC，唯一鍵）<br><input name="hw_address" value=""#,
    );
    reveal_strlit(r#"name="hw_address" value=""#);
    reveal_strlit(r#"" required placeholder="1c:69:7a:77:3b:98" style="width:100%"><br>"#);
    reveal_strlit(r#"" required"#);
    reveal_strlit(r#"</label>
<label>ip-address<br><input name="ip_address" value=""#);
    reveal_strlit(r#"name="ip_address" value=""#);
    let a = r#"" class="bar" style="flex-direction:column;align-items:flex-start;max-width:32rem">
<label>hw-address（MAC，唯一鍵）<br><input name="hw_address" value=""#@;
    let b = r#"name="hw_address" value=""#@;
    assert(a.skip(a.len() - b.len()) =~= b);
    let c = r#"" required placeholder="1c:69:7a:77:3b:98" style="width:100%"><br>"#@;
    let d = r#"" required"#@;
    assert(c.take(d.len() as int) =~= d);
    let e = r#"</label>
<label>ip-address<br><input name="ip_address" value=""#@;
    let f = r#"name="ip_address" value=""#@;
    assert(e.skip(e.len() - f.len()) =~= f);
}

proof fn lemma_form_literals_two()
    ensures
        starts_with(
            r#"" required placeholder="10.1.1.11" style="width:100%"></label>
<label>hostname（選用）<br><input name="hostname" value=""#@,
            r#"" required"#@,
        ),
        ends_with(
            r#"" required placeholder="10.1.1.11" style="width:100%"></label>
<label>hostname（選用）<br><input name="hostname" value=""#@,
            r#"name="hostname" value=""#@,
        ),
{
    reveal_strlit(
        r#"" required placeholder="10.1.1.11" style="width:100%"></label>
<label>hostname（選用）<br><input name="hostname" value=""#,
    );
    reveal_strlit(r#"" required"#);
    reveal_strlit(r#"name="hostname" value=""#);
    let a = r#"" required placeholder="10.1.1.11" style="width:100%"></label>
<label>hostname（選用）<br><input name="hostname" value=""#@;
    let d = r#"" required"#@;
    let b = r#"name="hostname" value=""#@;
    assert(a.take(d.len() as int) =~= d);
    assert(a.skip(a.len() - b.len()) =~= b);
}

proof fn lemma_form_literals_three()
    ensures
        starts_with(
            r#"" style="width:100%"></label>
<div class="bar" style="margin-top:.5rem">
<button class="btn primary" type="submit">儲存</button>
<a class="btn" href="/subnet/"#@,
            r#"" style"#@,
        ),
        ends_with(r#"<span class="hint">目前連線主機 MAC："#@, "目前連線主機 MAC："@),
        starts_with("（可供手動填入）</span>"@, "（"@),
{
    reveal_strlit(
        r#"" style="width:100%"></label>
<div class="bar" style="margin-top:.5rem">
<button class="btn primary" type="submit">儲存</button>
<a class="btn" href="/subnet/"#,
    );
    reveal_strlit(r#"" style"#);
    reveal_strlit(r#"<span class="hint">目前連線主機 MAC："#);
    reveal_strlit("目前連線主機 MAC：");
    reveal_strlit("（可供手動填入）</span>");
    reveal_strlit("（");
    let a = r#"" style="width:100%"></label>
<div class="bar" style="margin-top:.5rem">
<button class="btn primary" type="submit">儲存</button>
<a class="btn" href="/subnet/"#@;
    let b = r#"" style"#@;
    assert(a.take(b.len() as int) =~= b);
    let c = r#"<span class="hint">目前連線主機 MAC："#@;
    let d = "目前連線主機 MAC："@;
    assert(c.skip(c.len() - d.len()) =~= d);
    assert("（可供手動填入）</span>"@.take("（"@.len() as int) =~= "（"@);
}

proof fn lemma_form_way(idx: nat, ridx: Option<usize>, f1: Seq<char>, f2: Seq<char>)
    requires
        f1 == r#"
<form method="post" action=""#@,
        f2 == r#"" class="bar" style="flex-direction:column;align-items:flex-start;max-width:32rem">
<label>hw-address（MAC，唯一鍵）<br><input name="hw_address" value=""#@,
    ensures
        ridx is None ==> has_text(f1 + form_path(idx, ridx) + f2, r#"action="/subnet/"#@ + dec(idx) + r#"/new""#@),
        ridx is Some ==> has_text(
            f1 + form_path(idx, ridx) + f2,
            r#"action="/subnet/"#@ + dec(idx) + "/res/"@ + dec(ridx->0 as nat) + r#"/edit""#@,
        ),
{
    reveal_strlit(r#"
<form method="post" action=""#);
    reveal_strlit(r#"action=""#);
    reveal_strlit(r#"action="/subnet/"#);
    reveal_strlit("/subnet/");
    reveal_strlit("/new");
    reveal_strlit(r#"/new""#);
    reveal_strlit("/edit");
    reveal_strlit(r#"/edit""#);
    reveal_strlit(
        r#"" class="bar" style="flex-direction:column;align-items:flex-start;max-width:32rem">
<label>hw-address（MAC，唯一鍵）<br><input name="hw_address" value=""#,
    );
    let start = r#"action=""#@;
    let quote = seq!['"'];
    assert(f1.skip(f1.len() - start.len()) =~= start);
    assert(f2.take(1) =~= quote);
    lemma_cut(f1, start, form_path(idx, ridx), quote, f2);
    assert(start + "/subnet/"@ =~= r#"action="/subnet/"#@);
    if ridx is None {
        assert("/new"@ + quote =~= r#"/new""#@);
        assert(start + form_path(idx, ridx) + quote =~= r#"action="/subnet/"#@ + dec(idx) + r#"/new""#@);
    } else {
        assert("/edit"@ + quote =~= r#"/edit""#@);
        assert(start + form_path(idx, ridx) + quote =~= r#"action="/subnet/"#@ + dec(idx) + "/res/"@ + dec(ridx->0 as nat)
            + r#"/edit""#@);
    }
}

proof fn lemma_item_there(block: Seq<char>, opening: Seq<char>, items: Seq<Seq<char>>, k: int)
    requires
        0 <= k < items.len(),
    ensures
        has_text(block_text(block, opening, items), opening + escaped(items[k]) + "</li>"@),
{
    let item = opening + escaped(items[k]) + "</li>"@;
    lemma_item_among(opening, items, k);
    lemma_in_both(block, items_text(opening, items), item);
    lemma_in_both(block + items_text(opening, items), "</ul></div>"@, item);
}

proof fn lemma_item_among(opening: Seq<char>, items: Seq<Seq<char>>, k: int)
    requires
        0 <= k < items.len(),
    ensures
        has_text(items_text(opening, items), opening + escaped(items[k]) + "</li>"@),
    decreases items.len(),
{
    let item = opening + escaped(items[k]) + "</li>"@;
    let before = items_text(opening, items.drop_last());
    let last = opening + escaped(items.last()) + "</li>"@;
    assert(items_text(opening, items) =~= before + last);
    if k < items.len() - 1 {
        lemma_item_among(opening, items.drop_last(), k);
        assert(items.drop_last()[k] == items[k]);
    } else {
        lemma_between(Seq::empty(), item, Seq::empty());
        assert(Seq::<char>::empty() + item + Seq::<char>::empty() =~= item);
    }
    lemma_in_both(before, last, item);
}

/// An empty form is shown for every subnet that can be read.
pub proof fn law_new_form_is_answered(s: StateView, idx: nat, refresh: Refresh, mac: Option<Seq<char>>)
    ensures
        ({
            let reply = new_form_reply(s, idx, refresh, mac);
            &&& reply is Html
            &&& subnet_of(s.file, idx) is Ok <==> reply->status == 200
            &&& subnet_of(s.file, idx) is Err <==> reply->status == 500
            &&& subnet_of(s.file, idx) is Ok ==> has_text(
                reply->body,
                form_text(idx, None, None, Seq::empty(), Seq::empty(), mac),
            )
        }),
{
    if subnet_of(s.file, idx) is Ok {
        lemma_form_on_page("新增"@, s, idx, None, None, refresh, mac);
    }
}

/// The form of a reservation is shown, filled in with it, for every row of a subnet, and for no other.
pub proof fn law_edit_form_is_answered(s: StateView, idx: nat, row: usize, refresh: Refresh, mac: Option<Seq<char>>)
    requires
        subnet_of(s.file, idx) is Ok,
    ensures
        ({
            let list = subnet_of(s.file, idx)->Ok_0.reservations;
            let reply = edit_form_reply(s, idx, row, refresh, mac);
            &&& reply is Html
            &&& row < list.len() <==> reply->status == 200
            &&& row >= list.len() <==> reply->status == 500
            &&& row < list.len() ==> has_text(
                reply->body,
                form_text(idx, Some(row), Some(list[row as int]), Seq::empty(), Seq::empty(), mac),
            )
        }),
{
    let list = subnet_of(s.file, idx)->Ok_0.reservations;
    if row < list.len() {
        lemma_form_on_page("編輯"@, s, idx, Some(row), Some(list[row as int]), refresh, mac);
    }
}

proof fn lemma_form_on_page(
    title: Seq<char>,
    s: StateView,
    idx: nat,
    ridx: Option<usize>,
    shown: Option<ReservationView>,
    refresh: Refresh,
    mac: Option<Seq<char>>,
)
    ensures
        has_text(
            page_text(title, form_body(s, idx, ridx, shown, refresh, mac)),
            form_text(idx, ridx, shown, Seq::empty(), Seq::empty(), mac),
        ),
{
    let form = form_text(idx, ridx, shown, Seq::empty(), Seq::empty(), mac);
    let body = form_body(s, idx, ridx, shown, refresh, mac);
    lemma_in_longer(form);
    assert(has_text(body, form));
    law_page_holds_its_body(title, body);
    lemma_in_part(page_text(title, body), body, form);
}

/// Whether a form is shown again: with what was typed, and with every one of some errors.
pub open spec fn is_shown_again(
    reply: ReplyView,
    idx: nat,
    ridx: Option<usize>,
    errors: Seq<Seq<char>>,
    hw: Seq<char>,
    ip: u32,
    host: Option<Seq<char>>,
) -> bool {
    &&& reply is Html
    &&& reply->status == 422
    &&& has_text(reply->body, r#"name="hw_address" value=""#@ + escaped(hw) + r#"" required"#@)
    &&& has_text(reply->body, r#"name="ip_address" value=""#@ + escaped(ip_text(ip)) + r#"" required"#@)
    &&& host is Some ==> has_text(reply->body, r#"name="hostname" value=""#@ + escaped(host->0) + r#"" style"#@)
    &&& forall|i: int|
        0 <= i < errors.len() ==> has_text(reply->body, "<li>"@ + escaped(#[trigger] errors[i]) + "</li>"@)
}

/// A form that cannot be read is shown again, with what is wrong with it; one that asks for what cannot be
/// written is shown again with every conflict.
pub proof fn law_refused_form_is_shown_again(
    file: Json,
    idx: nat,
    ridx: Option<usize>,
    f: FormView,
    mac: Option<Seq<char>>,
)
    requires
        subnet_of(file, idx) is Ok,
        ridx is Some ==> ridx->0 < subnet_of(file, idx)->Ok_0.reservations.len(),
    ensures
        ({
            let (after, r) = submitted(file, idx, ridx, f, mac);
            let conflicts = conflicts_of(subnet_of(file, idx)->Ok_0, form_reservation(f)->0, ridx);
            let host = if f.hostname is Some && trimmed(f.hostname->0).len() > 0 {
                Some(trimmed(f.hostname->0))
            } else {
                None
            };
            &&& mac_of(trimmed(f.hw)) is None || ip_of(trimmed(f.ip)) is None ==> r is Err && is_shown_again(
                r->Err_0,
                idx,
                ridx,
                form_errors(f),
                lowercase(trimmed(f.hw)),
                match ip_of(trimmed(f.ip)) {
                    Some(ip) => ip,
                    None => 0,
                },
                host,
            )
            &&& mac_of(trimmed(f.hw)) is Some && ip_of(trimmed(f.ip)) is Some && conflicts.len() > 0 ==> r is Err
                && is_shown_again(
                r->Err_0,
                idx,
                ridx,
                reasons(conflicts),
                mac_of(trimmed(f.hw))->0,
                ip_of(trimmed(f.ip))->0,
                host,
            )
        }),
{
    let conflicts = conflicts_of(subnet_of(file, idx)->Ok_0, form_reservation(f)->0, ridx);
    if form_reservation(f) is None {
        lemma_refused("表單不合法"@, idx, ridx, shown_again(f), form_errors(f), mac);
    } else {
        lemma_refused("衝突"@, idx, ridx, form_reservation(f)->0, reasons(conflicts), mac);
    }
}

proof fn lemma_refused(
    title: Seq<char>,
    idx: nat,
    ridx: Option<usize>,
    shown: ReservationView,
    errors: Seq<Seq<char>>,
    mac: Option<Seq<char>>,
)
    ensures
        is_shown_again(
            refused(title, idx, ridx, shown, errors, mac),
            idx,
            ridx,
            errors,
            shown.hw,
            shown.ip,
            shown.hostname,
        ),
{
    let form = form_text(idx, ridx, Some(shown), errors, Seq::empty(), mac);
    let page = page_text(title, form);
    law_form_shows_what_it_is_for(idx, ridx, Some(shown), errors, mac);
    law_page_holds_its_body(title, form);
    lemma_in_part(page, form, r#"name="hw_address" value=""#@ + escaped(shown.hw) + r#"" required"#@);
    lemma_in_part(page, form, r#"name="ip_address" value=""#@ + escaped(ip_text(shown.ip)) + r#"" required"#@);
    lemma_in_part(page, form, r#"name="hostname" value=""#@ + escaped(name_of(shown)) + r#"" style"#@);
    assert forall|i: int| 0 <= i < errors.len() implies has_text(
        page,
        "<li>"@ + escaped(#[trigger] errors[i]) + "</li>"@,
    ) by {
        lemma_in_part(page, form, "<li>"@ + escaped(errors[i]) + "</li>"@);
    }
}

/// What is wrong with a form: that it has no hardware address, that it has none that can be one, and that it
/// has no address that can be one, each with what was typed.
pub proof fn law_form_errors_name_the_fields(f: FormView)
    ensures
        form_errors(f).contains("hw-address 不得為空"@) <== trimmed(f.hw).len() == 0,
        form_errors(f).contains(
            "hw-address 格式不合法（需 6 組十六進位，可用 : 或 - 分隔）: "@ + escaped(trimmed(f.hw)),
        ) <== mac_of(trimmed(f.hw)) is None,
        form_errors(f).contains("ip-address 格式不合法: "@ + escaped(f.ip)) <== ip_of(trimmed(f.ip)) is None,
        form_errors(f).len() == (if trimmed(f.hw).len() == 0 {
            1int
        } else {
            0
        }) + (if mac_of(trimmed(f.hw)) is None {
            1int
        } else {
            0
        }) + (if ip_of(trimmed(f.ip)) is None {
            1int
        } else {
            0
        }),
{
    let e = form_errors(f);
    let n = if trimmed(f.hw).len() == 0 {
        1int
    } else {
        0
    };
    let m = if mac_of(trimmed(f.hw)) is None {
        1int
    } else {
        0
    };
    if n == 1 {
        assert(e[0] == "hw-address 不得為空"@);
    }
    if m == 1 {
        assert(e[n] == "hw-address 格式不合法（需 6 組十六進位，可用 : 或 - 分隔）: "@ + escaped(trimmed(f.hw)));
    }
    if ip_of(trimmed(f.ip)) is None {
        assert(e[n + m] == "ip-address 格式不合法: "@ + escaped(f.ip));
    }
}

/// Where an operation is held, the page that asks leads on with either decision, and back.
pub proof fn law_question_leads_on_either_way(
    action: Seq<char>,
    hidden: Option<Seq<char>>,
    summary: Seq<char>,
    back: Seq<char>,
    pending: u64,
)
    ensures
        ({
            let text = decision_text(action, hidden, summary, back, pending);
            &&& has_text(text, summary)
            &&& has_text(text, dec(pending as nat))
            &&& has_text(text, back)
            &&& hidden is Some ==> has_text(text, action + r#"">
"#@ + hidden->0)
            &&& hidden is None ==> has_text(text, action + r#"?external_resolve=adopt" class="inline-form">
<button type="submit" class="btn" title="捨棄本系統未套用的變更，以外部版本為基底繼續本次操作">捨棄變更重新載入</button>
</form>
<form method="post" action=""#@ + action)
            &&& hidden is None ==> has_text(text, action + r#"?external_resolve=overwrite" class="inline-form">
<button type="submit" class="btn primary" title="以本系統版本覆寫設定檔，再繼續本次操作">以本系統覆寫</button>
</form>
<p><a class="btn" href=""#@ + back)
        }),
{
    lemma_question_tells(action, hidden, summary, back, pending);
    let head = r#"<div class="bar"><h1 style="margin:0">設定檔已被外部修改</h1></div>
<p class="warn">本系統尚有 "#@ + dec(pending as nat) + r#" 筆變更未套用，但設定檔已被外部修改。先決定以哪一方為準，再繼續本次操作：</p>
<p>"#@ + summary + r#"</p>
<form method="post" action=""#@;
    match hidden {
        Some(h) => {
            let l = r#"">
"#@;
            lemma_three(head, action, l, h);
            lemma_in_longer(action + l + h);
        },
        None => {
            let l = r#"?external_resolve=adopt" class="inline-form">
<button type="submit" class="btn" title="捨棄本系統未套用的變更，以外部版本為基底繼續本次操作">捨棄變更重新載入</button>
</form>
<form method="post" action=""#@;
            lemma_three(head, action, l, action);
            let m = r#"?external_resolve=overwrite" class="inline-form">
<button type="submit" class="btn primary" title="以本系統版本覆寫設定檔，再繼續本次操作">以本系統覆寫</button>
</form>
<p><a class="btn" href=""#@;
            lemma_three(head + action + l, action, m, back);
            lemma_in_both(head + action + l + action, m, action + l + action);
            lemma_in_both(head + action + l + action + m, back, action + l + action);
            lemma_in_both(head + action + l + action + m + back, r#"">取消，先回列表</a></p>"#@, action + l + action);
            lemma_in_both(head + action + l + action + m + back, r#"">取消，先回列表</a></p>"#@, action + m + back);
        },
    }
}

proof fn lemma_question_tells(
    action: Seq<char>,
    hidden: Option<Seq<char>>,
    summary: Seq<char>,
    back: Seq<char>,
    pending: u64,
)
    ensures
        has_text(decision_text(action, hidden, summary, back, pending), summary),
        has_text(decision_text(action, hidden, summary, back, pending), dec(pending as nat)),
        has_text(decision_text(action, hidden, summary, back, pending), back),
{
    lemma_in_longer(summary);
    lemma_in_longer(dec(pending as nat));
    lemma_in_longer(back);
}

/// Where the other version cannot be read, or this one cannot be written, the operation does not go on, and
/// nothing changes.
pub proof fn law_failed_decision_changes_nothing(
    s: StateView,
    op: OperationView,
    stat: Result<Option<FileStat>, KeaError>,
    e: KeaError,
)
    ensures
        stepped(s, op, EventView::Read { disk: None, stat }).0 == s,
        stepped(s, op, EventView::Read { disk: None, stat }).1 is Answer,
        stepped(s, op, EventView::Read { disk: None, stat }).1->Answer_0->status == 500,
        stepped(s, op, EventView::Overwritten(Err(e))).0 == s,
        stepped(s, op, EventView::Overwritten(Err(e))).1 is Answer,
        stepped(s, op, EventView::Overwritten(Err(e))).1->Answer_0->status == 500,
        has_text(stepped(s, op, EventView::Overwritten(Err(e))).1->Answer_0->body, escaped(e.message@)),
{
    lemma_error_told(500, e.message@);
}

/// The page to sign in says where the password was wrong.
pub proof fn law_wrong_password_is_told()
    ensures
        has_text(login_text(true), r#"<p class="err">密碼錯誤</p>
"#@),
        has_text(login_text(true), r#"<form method="post" action="/login" class="bar">
<input type="password" name="password" required autofocus>
<button class="btn primary" type="submit">登入</button>
</form>"#@),
        has_text(login_text(false), r#"<form method="post" action="/login" class="bar">
<input type="password" name="password" required autofocus>
<button class="btn primary" type="submit">登入</button>
</form>"#@),
{
    lemma_in_longer(r#"<p class="err">密碼錯誤</p>
"#@);
    lemma_in_longer(r#"<form method="post" action="/login" class="bar">
<input type="password" name="password" required autofocus>
<button class="btn primary" type="submit">登入</button>
</form>"#@);
}

/// Why a subnet cannot be shown: the configuration has none, it has not so many, the subnet names no network,
/// or names one that cannot be one.
pub proof fn law_reason_why_no_subnet(root: Json, idx: nat)
    ensures
        subnets(root) is None ==> subnet_of(root, idx) == Err::<SubnetView, Seq<char>>("設定檔缺少 subnet4"@),
        subnets(root) matches Some(s) && idx >= s.len() ==> subnet_of(root, idx) == Err::<SubnetView, Seq<char>>(
            "subnet 索引超出範圍: "@ + dec(idx),
        ),
        subnets(root) is None ==> reservation_list(root, idx) is Err,
        subnets(root) matches Some(s) && idx >= s.len() ==> reservation_list(root, idx) is Err,
{
}

/// An operation goes on where the file is gone, where it cannot be looked at, where another version of it
/// cannot be read and no change waits, and where no version was known.
pub proof fn law_operation_goes_on_otherwise(
    s: StateView,
    op: OperationView,
    known: FileStat,
    now: FileStat,
    e: KeaError,
    disk: Option<Json>,
)
    ensures
        stepped(s, op, EventView::Looked { stat: Ok(None), disk }) == performed(s, op),
        stepped(s, op, EventView::Looked { stat: Err(e), disk }) == performed(s, op),
        s.baseline is None ==> stepped(s, op, EventView::Looked { stat: Ok(Some(now)), disk }) == performed(
            StateView { baseline: Some(now), ..s },
            op,
        ),
        s.baseline == Some(known) && !same_version(known, now) && s.pending == 0 ==> stepped(
            s,
            op,
            EventView::Looked { stat: Ok(Some(now)), disk: None },
        ) == performed(s, op),
{
    if s.baseline == Some(known) && !same_version(known, now) {
        law_every_change_is_noticed(s, known, now, None);
    }
}

/// Kea is not asked, and the answer says why, where no control socket is declared and where no change waits.
pub proof fn law_refusal_to_apply_says_why(s: StateView, decision: Option<Seq<char>>)
    ensures
        ({
            let (after, action) = performed(s, OperationView::Apply { decision });
            &&& after == s
            &&& socket_of(s.file) is None ==> action is Answer && action->Answer_0 is Html && action->Answer_0->body
                == r#"<span class="err">設定檔未宣告 control-socket，無法套用</span>"#@
            &&& socket_of(s.file) is Some && s.pending == 0 ==> action is Answer && action->Answer_0 is Html
                && action->Answer_0->body == r#"<span class="ok">沒有待套用的變更</span>"#@
        }),
{
}

/// What an operation that is held is asked about, and what is sent again with the decision.
pub proof fn law_held_operation_is_asked_about(
    s: StateView,
    idx: nat,
    ridx: Option<usize>,
    form: FormView,
    mac: Option<Seq<char>>,
    row: usize,
    decision: Option<Seq<char>>,
)
    ensures
        ({
            let asked = question(s, OperationView::Submit { idx, ridx, form, mac });
            let place = if ridx is Some {
                "/subnet/"@ + dec(idx) + "/res/"@ + dec(ridx->0 as nat) + "/edit"@
            } else {
                "/subnet/"@ + dec(idx) + "/new"@
            };
            &&& asked is Html && asked->status == 409
            &&& has_text(asked->body, place + r#"">
"#@ + hidden_text(form))
            &&& has_text(asked->body, "hw-address「"@ + escaped(form.hw) + "」、ip-address「"@ + escaped(form.ip) + "」"@)
            &&& has_text(asked->body, dec(s.pending as nat))
        }),
        ({
            let asked = question(s, OperationView::Delete { idx, ridx: row, decision });
            let place = "/subnet/"@ + dec(idx) + "/res/"@ + dec(row as nat) + "/delete"@;
            &&& asked is Html && asked->status == 409
            &&& has_text(asked->body, place + adopt_end() + place)
            &&& has_text(asked->body, place + overwrite_end() + ("/subnet/"@ + dec(idx)))
        }),
        ({
            let asked = question(s, OperationView::Apply { decision });
            &&& asked is Html && asked->status == 409
            &&& has_text(asked->body, "/apply"@ + adopt_end() + "/apply"@)
            &&& has_text(asked->body, "/apply"@ + overwrite_end() + "/subnet/0"@)
        }),
{
    lemma_asked(s, form_path(idx, ridx), Some(hidden_text(form)), summary_text(ridx, form), subnet_path(idx));
    lemma_summary_names(s, idx, ridx, form);
    lemma_asked(s, delete_path(idx, row as nat), None, "將刪除一筆 reservation。"@, subnet_path(idx));
    lemma_asked(s, "/apply"@, None, "將把變更套用至 kea。"@, "/subnet/0"@);
}

/// What is told of a form that is held: whether it is for a new reservation, and its hostname where it has
/// one.
pub proof fn law_held_form_is_told(ridx: Option<usize>, form: FormView)
    ensures
        ridx is None ==> has_text(summary_text(ridx, form), "新增"@),
        ridx is Some ==> has_text(summary_text(ridx, form), "編輯"@),
        form.hostname is Some ==> has_text(
            summary_text(ridx, form),
            "、hostname「"@ + escaped(form.hostname->0) + "」"@,
        ),
{
    lemma_in_longer("新增"@);
    lemma_in_longer("編輯"@);
    if form.hostname is Some {
        lemma_in_longer("、hostname「"@ + escaped(form.hostname->0) + "」"@);
    }
}

/// A form says whether it is for a new reservation, and of which subnet.
pub proof fn law_form_is_titled(
    idx: nat,
    ridx: Option<usize>,
    shown: Option<ReservationView>,
    errors: Seq<Seq<char>>,
    mac: Option<Seq<char>>,
)
    ensures
        ridx is None ==> has_text(
            form_text(idx, ridx, shown, errors, Seq::empty(), mac),
            "新增 reservation"@ + " — Subnet "@ + dec(idx),
        ),
        ridx is Some ==> has_text(
            form_text(idx, ridx, shown, errors, Seq::empty(), mac),
            "編輯 reservation"@ + " — Subnet "@ + dec(idx),
        ),
{
    let title = if ridx is Some {
        "編輯 reservation"@
    } else {
        "新增 reservation"@
    };
    let part = title + " — Subnet "@ + dec(idx);
    lemma_three(r#"<div class="bar"><h1 style="margin:0">"#@, title, " — Subnet "@, dec(idx));
    lemma_in_longer(part);
}

/// What stands behind the place that the other version is taken over from.
pub open spec fn adopt_end() -> Seq<char> {
    r#"?external_resolve=adopt" class="inline-form">
<button type="submit" class="btn" title="捨棄本系統未套用的變更，以外部版本為基底繼續本次操作">捨棄變更重新載入</button>
</form>
<form method="post" action=""#@
}

/// What stands behind the place that the other version is overwritten from.
pub open spec fn overwrite_end() -> Seq<char> {
    r#"?external_resolve=overwrite" class="inline-form">
<button type="submit" class="btn primary" title="以本系統版本覆寫設定檔，再繼續本次操作">以本系統覆寫</button>
</form>
<p><a class="btn" href=""#@
}

proof fn lemma_asked(s: StateView, action: Seq<char>, hidden: Option<Seq<char>>, summary: Seq<char>, back: Seq<char>)
    ensures
        ({
            let page = page_text("外部修改"@, decision_text(action, hidden, summary, back, s.pending));
            &&& has_text(page, summary)
            &&& has_text(page, dec(s.pending as nat))
            &&& hidden is Some ==> has_text(page, action + r#"">
"#@ + hidden->0)
            &&& hidden is None ==> has_text(page, action + adopt_end() + action)
            &&& hidden is None ==> has_text(page, action + overwrite_end() + back)
        }),
{
    let text = decision_text(action, hidden, summary, back, s.pending);
    let page = page_text("外部修改"@, text);
    law_question_leads_on_either_way(action, hidden, summary, back, s.pending);
    law_page_holds_its_body("外部修改"@, text);
    lemma_in_part(page, text, summary);
    lemma_in_part(page, text, dec(s.pending as nat));
    match hidden {
        Some(h) => {
            lemma_in_part(page, text, action + r#"">
"#@ + h);
        },
        None => {
            lemma_in_part(page, text, action + adopt_end() + action);
            lemma_in_part(page, text, action + overwrite_end() + back);
        },
    }
}

proof fn lemma_summary_names(s: StateView, idx: nat, ridx: Option<usize>, form: FormView)
    ensures
        has_text(
            question(s, OperationView::Submit { idx, ridx, form, mac: None })->body,
            "hw-address「"@ + escaped(form.hw) + "」、ip-address「"@ + escaped(form.ip) + "」"@,
        ),
{
    let summary = summary_text(ridx, form);
    let part = "hw-address「"@ + escaped(form.hw) + "」、ip-address「"@ + escaped(form.ip) + "」"@;
    lemma_summary(ridx, form);
    let action = form_path(idx, ridx);
    let text = decision_text(action, Some(hidden_text(form)), summary, subnet_path(idx), s.pending);
    lemma_asked(s, action, Some(hidden_text(form)), summary, subnet_path(idx));
    lemma_in_part(page_text("外部修改"@, text), summary, part);
}

proof fn lemma_summary(ridx: Option<usize>, form: FormView)
    ensures
        has_text(
            summary_text(ridx, form),
            "hw-address「"@ + escaped(form.hw) + "」、ip-address「"@ + escaped(form.ip) + "」"@,
        ),
{
    reveal_strlit(" reservation：hw-address「");
    reveal_strlit("hw-address「");
    let action = if ridx is Some {
        "編輯"@
    } else {
        "新增"@
    };
    let head = "將"@ + action;
    let l = " reservation：hw-address「"@;
    let e = "hw-address「"@;
    let (h, m, i, z) = (escaped(form.hw), "」、ip-address「"@, escaped(form.ip), "」"@);
    let a = l.take(l.len() - e.len());
    assert(l =~= a + e);
    let whole = head + l + h + m + i + z;
    let part = e + h + m + i + z;
    let n = (head.len() + a.len()) as int;
    assert(whole.subrange(n, n + part.len()) =~= part);
    assert(stands_at(whole, part, n));
    lemma_in_longer(part);
}

/// A change that is saved waits, and the way leads on; one that could not be saved does not wait, and the
/// answer says why. What Kea consents to waits no longer, and what it refuses goes on waiting.
pub proof fn law_operation_ends(
    s: StateView,
    op: OperationView,
    stat: Result<Option<FileStat>, KeaError>,
    e: KeaError,
    target: Seq<char>,
    said: Seq<char>,
)
    requires
        s.pending < u64::MAX,
    ensures
        ({
            let (after, action) = stepped(s, op, EventView::Saved { outcome: Ok(stat), target });
            &&& after.pending == s.pending + 1 && after.file == s.file
            &&& stat is Ok ==> after.baseline == stat->Ok_0
            &&& stat is Err ==> after.baseline == s.baseline
            &&& action is Answer && action->Answer_0 == ReplyView::Redirect { to: target }
        }),
        ({
            let (after, action) = stepped(s, op, EventView::Saved { outcome: Err(e), target });
            &&& after == s
            &&& action is Answer && action->Answer_0 is Html && action->Answer_0->status == 500
            &&& has_text(action->Answer_0->body, escaped(e.message@))
        }),
        ({
            let (after, action) = stepped(s, op, EventView::Answered(Ok(said)));
            &&& after.pending == 0 && after.file == s.file && after.baseline == s.baseline
            &&& action is Answer && has_text(action->Answer_0->body, escaped(said))
        }),
        ({
            let (after, action) = stepped(s, op, EventView::Answered(Err(said)));
            &&& after == s
            &&& action is Answer && has_text(action->Answer_0->body, escaped(said))
        }),
{
    lemma_error_told(500, e.message@);
    law_consent_ends_the_waiting(s, said);
}

/// Whether an answer says that something is wrong here.
pub open spec fn is_fault(r: Result<Seq<char>, ReplyView>) -> bool {
    r is Err && r->Err_0 is Html && r->Err_0->status == 500
}

/// Where there is no such subnet, no such row, or nowhere to write to, nothing is written, and the answer says
/// so.
pub proof fn law_nowhere_to_write(file: Json, idx: nat, ridx: Option<usize>, f: FormView, mac: Option<Seq<char>>, row: usize)
    ensures
        subnet_of(file, idx) is Err ==> submitted(file, idx, ridx, f, mac).0 == file && is_fault(
            submitted(file, idx, ridx, f, mac).1,
        ),
        subnet_of(file, idx) matches Ok(s) && ridx is Some && ridx->0 >= s.reservations.len() ==> submitted(
            file,
            idx,
            ridx,
            f,
            mac,
        ).0 == file && is_fault(submitted(file, idx, ridx, f, mac).1),
        reservation_list(file, idx) is Err ==> submitted(file, idx, ridx, f, mac).0 == file && submitted(
            file,
            idx,
            ridx,
            f,
            mac,
        ).1 is Err,
        reservation_list(file, idx) is Err ==> deleted(file, idx, row).0 == file && is_fault(deleted(file, idx, row).1),
{
}

/// What comes back from outside is taken as it is: a value as that value, and an error as its message.
pub proof fn law_results_are_taken_as_they_are(
    t: String,
    e: KeaError,
    reply: Reply,
    n: u64,
    names: Seq<String>,
    i: int,
)
    ensures
        kea_reply(Ok(t)) == Ok::<Seq<char>, Seq<char>>(t@),
        kea_reply(Err(e)) == Err::<Seq<char>, Seq<char>>(e.message@),
        outcome(Ok(t)) == Ok::<Seq<char>, ReplyView>(t@),
        outcome(Err(reply)) == Err::<Seq<char>, ReplyView>(reply@),
        time_view(Ok(n)) == Ok::<u64, Seq<char>>(n),
        time_view(Err(t)) == Err::<u64, Seq<char>>(t@),
        done_view(Ok(())) == Ok::<(), Seq<char>>(()),
        done_view(Err(t)) == Err::<(), Seq<char>>(t@),
        opt_text(Some(t)) == Some(t@),
        opt_text(None) is None,
        texts(names).len() == names.len(),
        0 <= i < names.len() ==> texts(names)[i] == names[i]@,
{
}

} // verus!
