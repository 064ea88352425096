//! The answers to requests: what each page shows, and what each operation does.
use vstd::prelude::*;
use vstd::string::*;

use crate::domain::{
    all_distinct, check_conflicts, conflict_reasons, conflicts_of, duplicate_hostnames, law_add_keeps_distinct, law_delete_keeps_distinct,
    law_no_conflict_means_writable, law_update_keeps_distinct, reasons, repeated_hostname, writable, Conflict,
    Reservation, ReservationView, Subnet, SubnetView,
};
use crate::error::KeaError;
use crate::file::{
    as_written, count, entry_place, law_added_is_read_back, law_deleted_is_gone, law_edit_touches_only_the_list,
    law_entry_of_row, law_updated_is_read_back, reservation_json, reservation_list, reservation_of, row_place, socket_of,
    subnet_of, subnets, updated_entry, with_reservations, ControlSocket, FileStat, KeaFile,
};
use crate::form::{
    form_action, form_errors, form_html, form_path, form_reservation, form_text, hidden_fields, hidden_text,
    reservation_form_summary, reservation_from_form, show_again, shown_again, summary_text, FormView, ReservationForm,
};
use crate::html::{
    err_html, err_text, escape, escaped, ok_reload_html, ok_reload_text, page, page_text, tab_strip, tab_strip_text,
    url_encoded, urlencode,
};
use crate::json::Json;
use crate::lease_page::{render_leases, rendered_leases, time_view};
use crate::list::{render_subnet_list, rendered_list};
use crate::number::{dec, decimal};
use crate::query::{
    next_target, redirect_to_next, subnet_href, subnet_path, LeasesQuery, LeasesQueryView, ListQuery, ListQueryView,
};
use crate::state::{
    banner_text, decision_text, disk_view, external_banner_html, external_decision_page, new_baseline, AppState,
    Refresh, StateView,
};
use crate::text::{opt_text, texts};

verus! {

/// The answer to a request.
#[derive(Debug)]
pub enum Reply {
    /// A document, with its HTTP status.
    Html { status: u16, body: String },
    /// Another page to go to.
    Redirect { to: String },
}

/// The answer to a request.
#[verifier::ext_equal]
pub enum ReplyView {
    Html { status: u16, body: Seq<char> },
    Redirect { to: Seq<char> },
}

impl View for Reply {
    type V = ReplyView;

    open spec fn view(&self) -> ReplyView {
        match self {
            Reply::Html { status, body } => ReplyView::Html { status: *status, body: body@ },
            Reply::Redirect { to } => ReplyView::Redirect { to: to@ },
        }
    }
}

/// A page that tells of an error.
pub open spec fn error_page(status: u16, message: Seq<char>) -> ReplyView {
    ReplyView::Html { status, body: page_text("錯誤"@, err_text(message)) }
}

/// A page that tells of an error.
fn error_reply(status: u16, message: &str) -> (r: Reply)
    ensures
        r@ == error_page(status, message@),
{
    Reply::Html { status, body: page("錯誤", err_html(message).as_str()) }
}

/// A page that tells of an error of the tool itself.
pub fn page_500(message: &str) -> (r: Reply)
    ensures
        r@ == error_page(500, message@),
{
    error_reply(500, message)
}

/// The start page leads to the first subnet, and opens the choice of another.
pub fn root(st: &AppState) -> (r: Reply)
    ensures
        r@ == (if count(subnets(st@.file)) == 0 {
            error_page(500, "設定檔內沒有 subnet4 區塊"@)
        } else {
            ReplyView::Redirect { to: "/subnet/0?pick=1"@ }
        }),
{
    if st.file.subnet_count() == 0 {
        return page_500("設定檔內沒有 subnet4 區塊");
    }
    Reply::Redirect { to: "/subnet/0?pick=1".to_owned() }
}

/// The page of a subnet, after a look at the file on disk.
pub open spec fn list_reply(s: StateView, idx: nat, q: ListQueryView, refresh: Refresh) -> ReplyView {
    match rendered_list(s, idx, q, refresh) {
        Ok(body) => ReplyView::Html { status: 200, body: page_text("Subnet "@ + dec(idx), body) },
        Err(e) => error_page(404, e),
    }
}

/// The page of a subnet, after a look at the file on disk.
pub fn subnet_list(st: &AppState, idx: usize, q: &ListQuery, refresh: &Refresh) -> (r: Reply)
    ensures
        r@ == list_reply(st@, idx as nat, q@, *refresh),
{
    match render_subnet_list(st, idx, q, refresh) {
        Ok(body) => {
            let mut title: String = "Subnet ".to_owned();
            title.append(decimal(idx as u64).as_str());
            Reply::Html { status: 200, body: page(title.as_str(), body.as_str()) }
        },
        Err(e) => error_reply(404, e.message.as_str()),
    }
}

/// The page of the leases, after a look at the file on disk.
pub open spec fn leases_reply(
    s: StateView,
    q: LeasesQueryView,
    refresh: Refresh,
    text: Option<Seq<char>>,
    now: Result<u64, Seq<char>>,
) -> ReplyView {
    match rendered_leases(s, q, refresh, text, now) {
        Ok(body) => ReplyView::Html { status: 200, body: page_text("作用中租用"@, body) },
        Err(e) => error_page(500, e),
    }
}

/// The page of the leases, after a look at the file on disk.
pub fn leases_page(
    st: &AppState,
    q: &LeasesQuery,
    refresh: &Refresh,
    text: &Option<String>,
    now: &Result<u64, String>,
) -> (r: Reply)
    ensures
        r@ == leases_reply(st@, q@, *refresh, opt_text(*text), time_view(*now)),
{
    match render_leases(st, q, refresh, text, now) {
        Ok(body) => Reply::Html { status: 200, body: page("作用中租用", body.as_str()) },
        Err(e) => error_reply(500, e.message.as_str()),
    }
}

/// The body of a page with the form: the tabs, what there is to say about the file on disk, and the
/// form.
pub open spec fn form_body(
    s: StateView,
    idx: nat,
    ridx: Option<usize>,
    shown: Option<ReservationView>,
    refresh: Refresh,
    mac: Option<Seq<char>>,
) -> Seq<char> {
    tab_strip_text("hosts"@, subnet_path(idx)) + banner_text(refresh, s.pending, form_path(idx, ridx)) + form_text(
        idx,
        ridx,
        shown,
        Seq::empty(),
        Seq::empty(),
        mac,
    )
}

/// The body of a page with the form.
fn form_page(
    st: &AppState,
    idx: usize,
    ridx: Option<usize>,
    shown: Option<&Reservation>,
    refresh: &Refresh,
    peer_mac: Option<String>,
) -> (r: String)
    ensures
        r@ == form_body(
            st@,
            idx as nat,
            ridx,
            (match shown {
                Some(x) => Some(x@),
                None => None,
            }),
            *refresh,
            opt_text(peer_mac),
        ),
{
    let none: Vec<String> = Vec::new();
    assert(texts(none@) =~= Seq::<Seq<char>>::empty());
    let next: String = form_action(idx, ridx);
    let mut out: String = tab_strip("hosts", subnet_href(idx).as_str());
    out.append(external_banner_html(refresh, st.saves_since_apply, next.as_str()).as_str());
    out.append(form_html(idx, ridx, shown, none.as_slice(), none.as_slice(), peer_mac).as_str());
    out
}

/// The page with the form of a new reservation.
pub open spec fn new_form_reply(s: StateView, idx: nat, refresh: Refresh, mac: Option<Seq<char>>) -> ReplyView {
    match subnet_of(s.file, idx) {
        Err(_) => error_page(500, "subnet 不存在"@),
        Ok(_) => ReplyView::Html { status: 200, body: page_text("新增"@, form_body(s, idx, None, None, refresh, mac)) },
    }
}

/// The page with the form of a new reservation.
pub fn new_form(st: &AppState, idx: usize, refresh: &Refresh, peer_mac: Option<String>) -> (r: Reply)
    ensures
        r@ == new_form_reply(st@, idx as nat, *refresh, opt_text(peer_mac)),
{
    match st.file.subnet(idx) {
        Err(_) => page_500("subnet 不存在"),
        Ok(_) => {
            let body: String = form_page(st, idx, None, None, refresh, peer_mac);
            Reply::Html { status: 200, body: page("新增", body.as_str()) }
        },
    }
}

/// The page with the form of a reservation that is there.
pub open spec fn edit_form_reply(
    s: StateView,
    idx: nat,
    ridx: usize,
    refresh: Refresh,
    mac: Option<Seq<char>>,
) -> ReplyView {
    match subnet_of(s.file, idx) {
        Err(_) => error_page(500, "subnet 不存在"@),
        Ok(subnet) => if ridx < subnet.reservations.len() {
            ReplyView::Html {
                status: 200,
                body: page_text(
                    "編輯"@,
                    form_body(s, idx, Some(ridx), Some(subnet.reservations[ridx as int]), refresh, mac),
                ),
            }
        } else {
            error_page(500, "reservation 不存在"@)
        },
    }
}

/// The page with the form of a reservation that is there.
pub fn edit_form(st: &AppState, idx: usize, ridx: usize, refresh: &Refresh, peer_mac: Option<String>) -> (r: Reply)
    ensures
        r@ == edit_form_reply(st@, idx as nat, ridx, *refresh, opt_text(peer_mac)),
{
    match st.file.subnet(idx) {
        Err(_) => page_500("subnet 不存在"),
        Ok(subnet) => {
            assert(subnet@.reservations.len() == subnet.reservations@.len());
            if ridx < subnet.reservations.len() {
                assert(subnet@.reservations[ridx as int] == subnet.reservations@[ridx as int]@);
                let body: String = form_page(st, idx, Some(ridx), Some(&subnet.reservations[ridx]), refresh, peer_mac);
                Reply::Html { status: 200, body: page("編輯", body.as_str()) }
            } else {
                page_500("reservation 不存在")
            }
        },
    }
}

/// The page with the form, after what was typed was refused.
pub open spec fn refused(
    title: Seq<char>,
    idx: nat,
    ridx: Option<usize>,
    shown: ReservationView,
    errors: Seq<Seq<char>>,
    mac: Option<Seq<char>>,
) -> ReplyView {
    ReplyView::Html {
        status: 422,
        body: page_text(title, form_text(idx, ridx, Some(shown), errors, Seq::empty(), mac)),
    }
}

/// The page with the form, after what was typed was refused.
fn refuse(title: &str, idx: usize, ridx: Option<usize>, shown: &Reservation, errors: &Vec<String>, mac: Option<String>) -> (r:
    Reply)
    ensures
        r@ == refused(title@, idx as nat, ridx, shown@, texts(errors@), opt_text(mac)),
{
    let none: Vec<String> = Vec::new();
    assert(texts(none@) =~= Seq::<Seq<char>>::empty());
    let body: String = form_html(idx, ridx, Some(shown), errors.as_slice(), none.as_slice(), mac);
    Reply::Html { status: 422, body: page(title, body.as_str()) }
}

/// Where to go after a reservation was written: to the subnet, with a warning where others have the
/// hostname too.
pub open spec fn saved_target(idx: nat, subnet: SubnetView, r: ReservationView, ridx: Option<usize>) -> Seq<char> {
    match repeated_hostname(subnet.reservations, r, ridx) {
        Some(h) => subnet_path(idx) + "?warn="@ + url_encoded(h),
        None => subnet_path(idx),
    }
}

/// A configuration with a reservation written: added, or set in the entry of the one that is edited;
/// or why that cannot be.
pub open spec fn written_file(file: Json, idx: nat, ridx: Option<usize>, r: ReservationView) -> Result<Json, Seq<char>> {
    match reservation_list(file, idx) {
        Err(m) => Err(m),
        Ok(list) => match ridx {
            None => Ok(with_reservations(file, idx, list.push(reservation_json(r)))),
            Some(row) => match row_place(file, idx, row as nat) {
                Err(m) => Err(m),
                Ok(p) => Ok(with_reservations(file, idx, list.update(p as int, updated_entry(list[p as int], r)))),
            },
        },
    }
}

/// What the form does: it is checked, then held against the subnet, then written. The result is the
/// configuration after it, and where to go once that is on disk, or the answer where it was refused.
pub open spec fn submitted(file: Json, idx: nat, ridx: Option<usize>, f: FormView, mac: Option<Seq<char>>) -> (
    Json,
    Result<Seq<char>, ReplyView>,
) {
    match subnet_of(file, idx) {
        Err(_) => (file, Err(error_page(500, "subnet 不存在"@))),
        Ok(subnet) => if ridx is Some && ridx->0 >= subnet.reservations.len() {
            (file, Err(error_page(500, "reservation 不存在"@)))
        } else {
            match form_reservation(f) {
                None => (file, Err(refused("表單不合法"@, idx, ridx, shown_again(f), form_errors(f), mac))),
                Some(r) => if conflicts_of(subnet, r, ridx).len() > 0 {
                    (file, Err(refused("衝突"@, idx, ridx, r, reasons(conflicts_of(subnet, r, ridx)), mac)))
                } else {
                    match written_file(file, idx, ridx, r) {
                        Err(m) => (file, Err(error_page(500, m))),
                        Ok(after) => (after, Ok(saved_target(idx, subnet, r, ridx))),
                    }
                },
            }
        },
    }
}

/// The result of an operation, by content.
pub open spec fn outcome(r: Result<String, Reply>) -> Result<Seq<char>, ReplyView> {
    match r {
        Ok(t) => Ok(t@),
        Err(e) => Err(e@),
    }
}

/// Does what the form asks for, on the configuration in memory. Where that is done, it has to be
/// saved, and the result says where to go then; where it is refused, nothing is changed, and the
/// result is the answer.
pub fn submit_reservation(
    file: &mut KeaFile,
    idx: usize,
    ridx: Option<usize>,
    form: &ReservationForm,
    peer_mac: Option<String>,
) -> (r: Result<String, Reply>)
    ensures
        (final(file)@, outcome(r)) == submitted(old(file)@, idx as nat, ridx, form@, opt_text(peer_mac)),
{
    let (parsed, form_faults) = reservation_from_form(form);
    let subnet: Subnet = match file.subnet(idx) {
        Ok(s) => s,
        Err(_) => {
            return Err(page_500("subnet 不存在"));
        },
    };
    assert(subnet@.reservations.len() == subnet.reservations@.len());
    match ridx {
        Some(i) => {
            if i >= subnet.reservations.len() {
                return Err(page_500("reservation 不存在"));
            }
        },
        None => {},
    }
    let reservation: Reservation = match parsed {
        Ok(r) => r,
        Err(_) => {
            let again: Reservation = show_again(form);
            return Err(refuse("表單不合法", idx, ridx, &again, &form_faults, peer_mac));
        },
    };
    let conflicts: Vec<Conflict> = check_conflicts(&subnet, &reservation, ridx);
    if conflicts.len() > 0 {
        let faults: Vec<String> = conflict_reasons(conflicts.as_slice());
        return Err(refuse("衝突", idx, ridx, &reservation, &faults, peer_mac));
    }
    proof {
        if ridx is Some && reservation_list(file@, idx as nat) is Ok {
            law_entry_of_row(reservation_list(file@, idx as nat)->Ok_0, ridx->0 as nat);
        }
    }
    let done: Result<(), KeaError> = match ridx {
        Some(row) => match file.place_of_row(idx, row) {
            Ok(place) => file.update_reservation(idx, place, &reservation),
            Err(e) => Err(e),
        },
        None => file.add_reservation(idx, &reservation),
    };
    match done {
        Err(e) => {
            return Err(page_500(e.message.as_str()));
        },
        Ok(_) => {},
    }
    let mut target: String = subnet_href(idx);
    let dupes: Vec<String> = duplicate_hostnames(&subnet, &reservation, ridx);
    assert(texts(dupes@).len() == dupes@.len());
    if dupes.len() > 0 {
        assert(texts(dupes@)[0] == dupes@[0]@);
        target.append("?warn=");
        target.append(urlencode(dupes[0].as_str()).as_str());
    }
    Ok(target)
}

/// What deleting a reservation does: its entry is taken out. The result is the configuration after
/// it, and where to go once that is on disk, or the answer where there is no such reservation.
pub open spec fn deleted(file: Json, idx: nat, ridx: usize) -> (Json, Result<Seq<char>, ReplyView>) {
    match row_place(file, idx, ridx as nat) {
        Err(m) => (file, Err(error_page(500, m))),
        Ok(place) => (
            with_reservations(file, idx, reservation_list(file, idx)->Ok_0.remove(place as int)),
            Ok(subnet_path(idx)),
        ),
    }
}

/// Deletes a reservation of the configuration in memory. Where that is done, it has to be saved.
pub fn delete_reservation(file: &mut KeaFile, idx: usize, ridx: usize) -> (r: Result<String, Reply>)
    ensures
        (final(file)@, outcome(r)) == deleted(old(file)@, idx as nat, ridx),
{
    let place: usize = match file.place_of_row(idx, ridx) {
        Ok(p) => p,
        Err(e) => {
            return Err(page_500(e.message.as_str()));
        },
    };
    proof {
        law_entry_of_row(reservation_list(file@, idx as nat)->Ok_0, ridx as nat);
    }
    match file.delete_reservation(idx, place) {
        Ok(_) => Ok(subnet_href(idx)),
        Err(e) => Err(page_500(e.message.as_str())),
    }
}

/// The answer after a change was saved, or could not be: where it was, it waits to be applied.
pub open spec fn after_save(
    s: StateView,
    saved: Result<Result<Option<FileStat>, KeaError>, KeaError>,
    target: Seq<char>,
) -> (StateView, ReplyView) {
    match saved {
        Ok(stat) => (
            StateView { pending: (s.pending + 1) as u64, baseline: new_baseline(s, stat), ..s },
            ReplyView::Redirect { to: target },
        ),
        Err(e) => (s, error_page(500, e.message@)),
    }
}

/// Notes that a change was saved, or could not be. `saved` is a look at the file after it was
/// written, or why it was not.
pub fn finish_save(st: &mut AppState, saved: Result<Result<Option<FileStat>, KeaError>, KeaError>, target: String) -> (r:
    Reply)
    requires
        old(st).saves_since_apply < u64::MAX,
    ensures
        (final(st)@, r@) == after_save(old(st)@, saved, target@),
{
    match saved {
        Ok(stat) => {
            st.note_saved(stat);
            Reply::Redirect { to: target }
        },
        Err(e) => page_500(e.message.as_str()),
    }
}

/// The answer before the changes are applied, where they cannot be: there is no control socket, or
/// nothing waits.
pub open spec fn apply_refusal(s: StateView) -> Option<ReplyView> {
    match socket_of(s.file) {
        None => Some(ReplyView::Html { status: 200, body: r#"<span class="err">設定檔未宣告 control-socket，無法套用</span>"#@ }),
        Some(_) => if s.pending == 0 {
            Some(ReplyView::Html { status: 200, body: r#"<span class="ok">沒有待套用的變更</span>"#@ })
        } else {
            None
        },
    }
}

/// The control socket over which the changes are applied, or the answer where they cannot be.
pub fn apply_target(st: &AppState) -> (r: Result<ControlSocket, Reply>)
    ensures
        match r {
            Ok(cs) => apply_refusal(st@) is None && socket_of(st@.file) == Some(cs@),
            Err(e) => apply_refusal(st@) == Some(e@),
        },
{
    match st.file.control_socket() {
        None => Err(Reply::Html { status: 200, body: r#"<span class="err">設定檔未宣告 control-socket，無法套用</span>"#.to_owned() }),
        Some(cs) => if st.saves_since_apply == 0 {
            Err(Reply::Html { status: 200, body: r#"<span class="ok">沒有待套用的變更</span>"#.to_owned() })
        } else {
            Ok(cs)
        },
    }
}

/// The answer after Kea was asked to take the configuration: where it did, nothing waits any more.
pub open spec fn applied(s: StateView, reply: Result<Seq<char>, Seq<char>>) -> (StateView, ReplyView) {
    match reply {
        Ok(t) => (StateView { pending: 0, ..s }, ReplyView::Html { status: 200, body: ok_reload_text(t) }),
        Err(e) => (
            s,
            ReplyView::Html {
                status: 200,
                body: r#"<span class="err">檔案已寫入，但 reload 失敗："#@ + escaped(e) + "</span>"@,
            },
        ),
    }
}

/// What Kea said, by content.
pub open spec fn kea_reply(reply: Result<String, KeaError>) -> Result<Seq<char>, Seq<char>> {
    match reply {
        Ok(t) => Ok(t@),
        Err(e) => Err(e.message@),
    }
}

/// Notes whether Kea took the configuration.
pub fn apply_reload(st: &mut AppState, reply: Result<String, KeaError>) -> (r: Reply)
    ensures
        (final(st)@, r@) == applied(old(st)@, kea_reply(reply)),
{
    match reply {
        Ok(t) => {
            st.note_applied();
            Reply::Html { status: 200, body: ok_reload_html(t.as_str()) }
        },
        Err(e) => {
            let mut out: String = r#"<span class="err">檔案已寫入，但 reload 失敗："#.to_owned();
            out.append(escape(e.message.as_str()).as_str());
            out.append("</span>");
            Reply::Html { status: 200, body: out }
        },
    }
}

/// The page that asks whose version is to count, before the form is written.
pub fn ask_before_submit(st: &AppState, idx: usize, ridx: Option<usize>, form: &ReservationForm) -> (r: Reply)
    ensures
        r@ == (ReplyView::Html {
            status: 409,
            body: page_text(
                "外部修改"@,
                decision_text(
                    form_path(idx as nat, ridx),
                    Some(hidden_text(form@)),
                    summary_text(ridx, form@),
                    subnet_path(idx as nat),
                    st@.pending,
                ),
            ),
        }),
{
    let hidden: String = hidden_fields(form);
    let body: String = external_decision_page(
        form_action(idx, ridx).as_str(),
        Some(hidden.as_str()),
        reservation_form_summary(ridx, form).as_str(),
        subnet_href(idx).as_str(),
        st.saves_since_apply,
    );
    Reply::Html { status: 409, body }
}

/// The path that deletes a reservation.
pub open spec fn delete_path(idx: nat, ridx: nat) -> Seq<char> {
    subnet_path(idx) + "/res/"@ + dec(ridx) + "/delete"@
}

/// The page that asks whose version is to count, before a reservation is deleted.
pub fn ask_before_delete(st: &AppState, idx: usize, ridx: usize) -> (r: Reply)
    ensures
        r@ == (ReplyView::Html {
            status: 409,
            body: page_text(
                "外部修改"@,
                decision_text(
                    delete_path(idx as nat, ridx as nat),
                    None,
                    "將刪除一筆 reservation。"@,
                    subnet_path(idx as nat),
                    st@.pending,
                ),
            ),
        }),
{
    let mut action: String = subnet_href(idx);
    action.append("/res/");
    action.append(decimal(ridx as u64).as_str());
    action.append("/delete");
    let body: String = external_decision_page(
        action.as_str(),
        None,
        "將刪除一筆 reservation。",
        subnet_href(idx).as_str(),
        st.saves_since_apply,
    );
    Reply::Html { status: 409, body }
}

/// The page that asks whose version is to count, before the changes are applied.
pub fn ask_before_apply(st: &AppState) -> (r: Reply)
    ensures
        r@ == (ReplyView::Html {
            status: 409,
            body: page_text(
                "外部修改"@,
                decision_text("/apply"@, None, "將把變更套用至 kea。"@, "/subnet/0"@, st@.pending),
            ),
        }),
{
    let body: String = external_decision_page("/apply", None, "將把變更套用至 kea。", "/subnet/0", st.saves_since_apply);
    Reply::Html { status: 409, body }
}

/// Takes what the file on disk holds, and goes on to a page of this site.
pub fn external_adopt(
    st: &mut AppState,
    disk: Option<KeaFile>,
    stat: Result<Option<FileStat>, KeaError>,
    next: &Option<String>,
) -> (r: Reply)
    ensures
        match disk_view(disk) {
            Some(j) => r@ == (ReplyView::Redirect { to: next_target(opt_text(*next)) }) && final(st)@ == (StateView {
                file: j,
                pending: 0,
                baseline: new_baseline(old(st)@, stat),
                ..old(st)@
            }),
            None => r@ == error_page(500, "設定檔不存在或無法解析，無法重新載入外部版本"@) && final(st)@ == old(st)@,
        },
{
    match st.adopt_external(disk, stat) {
        Ok(_) => Reply::Redirect { to: redirect_to_next(next) },
        Err(e) => page_500(e.message.as_str()),
    }
}

/// Notes that what is in memory was written over the file on disk, or could not be, and goes on to a
/// page of this site.
pub fn external_overwrite(
    st: &mut AppState,
    written: Result<Result<Option<FileStat>, KeaError>, KeaError>,
    next: &Option<String>,
) -> (r: Reply)
    ensures
        match written {
            Ok(stat) => r@ == (ReplyView::Redirect { to: next_target(opt_text(*next)) }) && final(st)@ == (StateView {
                baseline: new_baseline(old(st)@, stat),
                ..old(st)@
            }),
            Err(e) => r@ == error_page(500, e.message@) && final(st)@ == old(st)@,
        },
{
    match written {
        Ok(stat) => {
            st.note_overwritten(stat);
            Reply::Redirect { to: redirect_to_next(next) }
        },
        Err(e) => page_500(e.message.as_str()),
    }
}

/// What is refused changes nothing.
pub proof fn law_refused_changes_nothing(
    file: Json,
    idx: nat,
    ridx: Option<usize>,
    f: FormView,
    mac: Option<Seq<char>>,
    row: usize,
)
    ensures
        submitted(file, idx, ridx, f, mac).1 is Err ==> submitted(file, idx, ridx, f, mac).0 == file,
        deleted(file, idx, row).1 is Err ==> deleted(file, idx, row).0 == file,
{
}

/// What is written may be written: the form was in order, and nothing stood against its reservation.
pub proof fn law_conflicts_are_never_written(
    file: Json,
    idx: nat,
    ridx: Option<usize>,
    f: FormView,
    mac: Option<Seq<char>>,
)
    requires
        submitted(file, idx, ridx, f, mac).1 is Ok,
    ensures
        form_reservation(f) is Some,
        subnet_of(file, idx) is Ok,
        writable(subnet_of(file, idx)->Ok_0, form_reservation(f)->0, ridx),
{
    law_no_conflict_means_writable(subnet_of(file, idx)->Ok_0, form_reservation(f)->0, ridx);
}

/// Whatever conflict there is, the answer is the form with the reasons, and status 422.
pub proof fn law_conflict_is_answered(file: Json, idx: nat, ridx: Option<usize>, f: FormView, mac: Option<Seq<char>>)
    requires
        subnet_of(file, idx) is Ok,
        ridx is Some ==> ridx->0 < subnet_of(file, idx)->Ok_0.reservations.len(),
        form_reservation(f) is Some,
        !writable(subnet_of(file, idx)->Ok_0, form_reservation(f)->0, ridx),
    ensures
        submitted(file, idx, ridx, f, mac) == (
            file,
            Err::<Seq<char>, ReplyView>(
                refused(
                    "衝突"@,
                    idx,
                    ridx,
                    form_reservation(f)->0,
                    reasons(conflicts_of(subnet_of(file, idx)->Ok_0, form_reservation(f)->0, ridx)),
                    mac,
                ),
            ),
        ),
{
    law_no_conflict_means_writable(subnet_of(file, idx)->Ok_0, form_reservation(f)->0, ridx);
}

/// A new reservation that is accepted stands at the end of the subnet's reservations, and they stay
/// distinct.
pub proof fn law_new_reservation_is_there(file: Json, idx: nat, f: FormView, mac: Option<Seq<char>>)
    requires
        submitted(file, idx, None, f, mac).1 is Ok,
    ensures
        ({
            let before = subnet_of(file, idx)->Ok_0;
            let after = subnet_of(submitted(file, idx, None, f, mac).0, idx);
            &&& after == Ok::<SubnetView, Seq<char>>(
                SubnetView { reservations: before.reservations.push(form_reservation(f)->0), ..before },
            )
            &&& all_distinct(before.reservations) ==> all_distinct(after->Ok_0.reservations)
        }),
{
    let before = subnet_of(file, idx)->Ok_0;
    let r = form_reservation(f)->0;
    law_added_is_read_back(file, idx, r);
    assert(as_written(r) =~= r);
    if all_distinct(before.reservations) {
        law_add_keeps_distinct(before, r);
    }
}

/// A reservation that is edited and accepted stands at its place, the others stay, and all stay
/// distinct. It is set in its own entry, and every other entry of the list stays as it is, whether it
/// stands for a reservation or not.
pub proof fn law_edited_reservation_is_there(file: Json, idx: nat, place: usize, f: FormView, mac: Option<Seq<char>>)
    requires
        submitted(file, idx, Some(place), f, mac).1 is Ok,
    ensures
        ({
            let before = subnet_of(file, idx)->Ok_0;
            let after = subnet_of(submitted(file, idx, Some(place), f, mac).0, idx);
            &&& after == Ok::<SubnetView, Seq<char>>(
                SubnetView {
                    reservations: before.reservations.update(place as int, form_reservation(f)->0),
                    ..before
                },
            )
            &&& ({
                let list = reservation_list(file, idx)->Ok_0;
                let p = entry_place(list, place as nat)->0 as int;
                &&& reservation_of(list[p]) == Some(before.reservations[place as int])
                &&& reservation_list(submitted(file, idx, Some(place), f, mac).0, idx) == Ok::<Seq<Json>, Seq<char>>(
                    list.update(p, updated_entry(list[p], form_reservation(f)->0)),
                )
            })
            &&& all_distinct(before.reservations) ==> all_distinct(after->Ok_0.reservations)
        }),
{
    let before = subnet_of(file, idx)->Ok_0;
    let r = form_reservation(f)->0;
    law_updated_is_read_back(file, idx, place as nat, r);
    let list = reservation_list(file, idx)->Ok_0;
    law_entry_of_row(list, place as nat);
    let p = entry_place(list, place as nat)->0 as int;
    law_edit_touches_only_the_list(file, idx, list.update(p, updated_entry(list[p], r)));
    assert(as_written(r) =~= r);
    if all_distinct(before.reservations) {
        law_update_keeps_distinct(before, r, place);
    }
}

/// A reservation that is deleted is gone, the others stay, and all stay distinct. Its own entry is
/// taken out, and every other entry of the list stays, whether it stands for a reservation or not.
pub proof fn law_deleted_reservation_is_gone(file: Json, idx: nat, place: usize)
    requires
        deleted(file, idx, place).1 is Ok,
        subnet_of(file, idx) is Ok,
    ensures
        ({
            let before = subnet_of(file, idx)->Ok_0;
            let after = subnet_of(deleted(file, idx, place).0, idx);
            &&& after == Ok::<SubnetView, Seq<char>>(
                SubnetView { reservations: before.reservations.remove(place as int), ..before },
            )
            &&& ({
                let list = reservation_list(file, idx)->Ok_0;
                let p = entry_place(list, place as nat)->0 as int;
                &&& reservation_of(list[p]) == Some(before.reservations[place as int])
                &&& reservation_list(deleted(file, idx, place).0, idx) == Ok::<Seq<Json>, Seq<char>>(list.remove(p))
            })
            &&& all_distinct(before.reservations) ==> all_distinct(after->Ok_0.reservations)
        }),
{
    let before = subnet_of(file, idx)->Ok_0.reservations;
    let list = reservation_list(file, idx)->Ok_0;
    law_deleted_is_gone(file, idx, place as nat);
    law_entry_of_row(list, place as nat);
    law_edit_touches_only_the_list(file, idx, list.remove(entry_place(list, place as nat)->0 as int));
    if all_distinct(before) {
        law_delete_keeps_distinct(before, place as int);
    }
}

/// Every change that is saved waits to be applied, and only Kea's consent ends that.
pub proof fn law_pending_counts_saves(
    s: StateView,
    stat: Result<Option<FileStat>, KeaError>,
    target: Seq<char>,
    reply: Result<Seq<char>, Seq<char>>,
)
    requires
        s.pending < u64::MAX,
    ensures
        after_save(s, Ok(stat), target).0.pending == s.pending + 1,
        applied(s, reply).0.pending == (if reply is Ok {
            0
        } else {
            s.pending
        }),
        applied(s, reply).0.file == s.file,
        apply_refusal(s) is None ==> s.pending > 0,
{
}

} // verus!
