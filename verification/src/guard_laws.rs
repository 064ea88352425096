//! What holds of every request: changes made elsewhere are noticed and never lost, nothing is written
//! unasked, and only who has given the password is let through.
use vstd::prelude::*;
use vstd::string::*;

use crate::arp::{arp_entry, arp_lookup};
use crate::auth::{admitted, cookie_text, first_token, guarded, pair_token};
use crate::error::KeaError;
use crate::file::{FileStat, SocketView};
use crate::form::{hidden_text, FormView};
use crate::html::escaped;
use crate::json::{int_member, text_member, Json};
use crate::list_laws::lemma_in_longer;
use crate::number::dec;
use crate::operation::{performed, question, stepped, ActionView, EventView, OperationView};
use crate::reading_laws::{declares_socket, holds, law_declared_socket_is_used, law_members_are_found};
use crate::reload::{endpoint_of, int_text, reply_of, EndpointView};
use crate::state::{banner_text, changed_elsewhere, new_baseline, refreshed, seen, Refresh, StateView};
use crate::text::{has_text, split_on, stands_at, trimmed, words_of};
use crate::text_laws::{law_found_between, law_found_within};
use crate::web::{after_save, applied, deleted, submitted, ReplyView};

verus! {

/// Whether two looks at a file show the same version of it: it was changed at the same time, and has the
/// same size.
pub open spec fn same_version(a: FileStat, b: FileStat) -> bool {
    a.mtime_ns == b.mtime_ns && a.size == b.size
}

/// A file that is there and that differs from the known one, in the time of its change or in its size, is
/// noticed. Where changes wait, someone has to decide, and nothing changes; where none wait, the file is
/// taken over, or, where it cannot be read, what is in memory stays and the page says so.
pub proof fn law_every_change_is_noticed(s: StateView, known: FileStat, now: FileStat, disk: Option<Json>)
    requires
        s.baseline == Some(known),
        !same_version(known, now),
    ensures
        refreshed(s, Some(now), disk).1 != Refresh::Unchanged,
        changed_elsewhere(s, Some(now)),
        s.pending > 0 ==> refreshed(s, Some(now), disk) == (s, Refresh::ExternalChanged),
        s.pending == 0 && disk is None ==> refreshed(s, Some(now), disk) == (s, Refresh::ParseError),
        s.pending == 0 && disk is Some ==> {
            let (after, look) = refreshed(s, Some(now), disk);
            &&& look == Refresh::Reloaded
            &&& after.file == disk->0
            &&& after.baseline == Some(now)
            &&& after.pending == 0
            &&& after.kea_path == s.kea_path
            &&& after.backup_keep == s.backup_keep
        },
{
}

/// A file that is as it is known to be is left alone; the first that is seen is known from then on; and
/// one that is not there changes nothing.
pub proof fn law_known_file_is_left_alone(s: StateView, now: FileStat, disk: Option<Json>)
    ensures
        s.baseline matches Some(known) && same_version(known, now) ==> refreshed(s, Some(now), disk) == (
            s,
            Refresh::Unchanged,
        ) && !changed_elsewhere(s, Some(now)),
        s.baseline is None ==> refreshed(s, Some(now), disk).1 == Refresh::Unchanged && refreshed(
            s,
            Some(now),
            disk,
        ).0.baseline == Some(now) && refreshed(s, Some(now), disk).0.file == s.file && refreshed(
            s,
            Some(now),
            disk,
        ).0.pending == s.pending && !changed_elsewhere(s, Some(now)),
        refreshed(s, None, disk) == (s, Refresh::MissingFile),
        !changed_elsewhere(s, None),
{
}

/// After a file was read or written, it is known as it was found then; where it could not be looked at,
/// what was known of it stays.
pub proof fn law_file_is_known_as_found(s: StateView, stat: Result<Option<FileStat>, KeaError>)
    ensures
        stat is Ok ==> new_baseline(s, stat) == stat->Ok_0 && seen(stat) == stat->Ok_0,
        stat is Err ==> new_baseline(s, stat) == s.baseline && seen(stat) is None,
{
}

/// The decision that comes with a request: with the form where there is one, and beside it otherwise.
pub open spec fn comes_with(op: OperationView, decision: Option<Seq<char>>) -> bool {
    match op {
        OperationView::Submit { form, .. } => form.external_resolve == decision,
        OperationView::Delete { decision: d, .. } => d == decision,
        OperationView::Apply { decision: d } => d == decision,
    }
}

/// Where the file was changed elsewhere while changes wait, nothing goes on without a decision: the other
/// version is read to be taken over only where that was asked for, the own one is written over it only
/// where that was asked for, and otherwise the question is put and nothing changes.
pub proof fn law_nothing_goes_on_undecided(
    s: StateView,
    op: OperationView,
    known: FileStat,
    now: FileStat,
    disk: Option<Json>,
    decision: Option<Seq<char>>,
)
    requires
        s.pending > 0,
        s.baseline == Some(known),
        !same_version(known, now),
        comes_with(op, decision),
    ensures
        ({
            let (after, action) = stepped(s, op, EventView::Looked { stat: Ok(Some(now)), disk });
            &&& after == s
            &&& action is Read <==> decision == Some("adopt"@)
            &&& action is Overwrite <==> decision == Some("overwrite"@)
            &&& action is Answer <==> decision != Some("adopt"@) && decision != Some("overwrite"@)
            &&& action is Answer ==> action->Answer_0 is Html && action->Answer_0->status == 409
        }),
{
    reveal_strlit("adopt");
    reveal_strlit("overwrite");
    assert("adopt"@.len() != "overwrite"@.len());
}

/// Where the file is as it is known, an operation is carried out on what is in memory; and where it was
/// changed elsewhere and nothing waits, on what the file holds.
pub proof fn law_operation_goes_on_with_the_right_version(
    s: StateView,
    op: OperationView,
    known: FileStat,
    now: FileStat,
    j: Json,
)
    requires
        s.baseline == Some(known),
    ensures
        same_version(known, now) ==> stepped(s, op, EventView::Looked { stat: Ok(Some(now)), disk: Some(j) })
            == performed(s, op),
        !same_version(known, now) && s.pending == 0 ==> stepped(
            s,
            op,
            EventView::Looked { stat: Ok(Some(now)), disk: Some(j) },
        ) == performed(StateView { file: j, baseline: Some(now), ..s }, op),
{
}

/// What was changed in memory is saved, and what was refused is not: a form or a deletion that succeeds
/// leads to saving what it made of the configuration, and one that is refused to its answer.
pub proof fn law_what_is_done_is_saved(
    s: StateView,
    idx: nat,
    ridx: Option<usize>,
    form: FormView,
    mac: Option<Seq<char>>,
    row: usize,
    decision: Option<Seq<char>>,
)
    ensures
        ({
            let (after, action) = performed(s, OperationView::Submit { idx, ridx, form, mac });
            let (file, r) = submitted(s.file, idx, ridx, form, mac);
            &&& after.file == file && after.pending == s.pending && after.baseline == s.baseline
            &&& r matches Ok(t) ==> action == ActionView::Save { target: t }
            &&& r matches Err(a) ==> action == ActionView::Answer(a)
        }),
        ({
            let (after, action) = performed(s, OperationView::Delete { idx, ridx: row, decision });
            let (file, r) = deleted(s.file, idx, row);
            &&& after.file == file && after.pending == s.pending && after.baseline == s.baseline
            &&& r matches Ok(t) ==> action == ActionView::Save { target: t }
            &&& r matches Err(a) ==> action == ActionView::Answer(a)
        }),
{
}

/// Kea is asked exactly where the configuration declares a control socket and changes wait, and over that
/// socket; and the configuration does not change.
pub proof fn law_kea_is_asked_where_it_can_be(s: StateView, decision: Option<Seq<char>>, name: Seq<char>, kind: Seq<char>)
    ensures
        performed(s, OperationView::Apply { decision }).0 == s,
        performed(s, OperationView::Apply { decision }).1 == ActionView::Ask(SocketView { name, kind }) <==> s.pending > 0
            && exists|d: Json, cs: Json| #[trigger] declares_socket(s.file, d, cs, name, kind),
{
    law_declared_socket_is_used(s.file, name, kind);
}

/// A change that was saved waits to be applied and is known on disk; one that could not be saved does not
/// count, and the answer says so.
pub proof fn law_saved_change_waits(
    s: StateView,
    stat: Result<Option<FileStat>, KeaError>,
    target: Seq<char>,
    e: KeaError,
)
    requires
        s.pending < u64::MAX,
    ensures
        ({
            let (after, reply) = after_save(s, Ok(stat), target);
            &&& after.pending == s.pending + 1
            &&& after.file == s.file
            &&& stat is Ok ==> after.baseline == stat->Ok_0
            &&& reply == ReplyView::Redirect { to: target }
        }),
        after_save(s, Err(e), target).0 == s,
        after_save(s, Err(e), target).1 is Html,
        after_save(s, Err(e), target).1->status == 500,
{
}

/// Kea's consent ends the waiting, and its refusal does not; either way the configuration stays, and the
/// answer holds what Kea said.
pub proof fn law_consent_ends_the_waiting(s: StateView, said: Seq<char>)
    ensures
        applied(s, Ok(said)).0.pending == 0,
        applied(s, Ok(said)).0.file == s.file,
        applied(s, Ok(said)).0.baseline == s.baseline,
        applied(s, Err(said)).0 == s,
        has_text(applied(s, Ok(said)).1->body, r#"<span class="ok">"#@),
        has_text(applied(s, Err(said)).1->body, r#"<span class="err">"#@),
        has_text(applied(s, Ok(said)).1->body, escaped(said)),
        has_text(applied(s, Err(said)).1->body, escaped(said)),
        has_text(applied(s, Ok(said)).1->body, r#"</span><span id="pending-badge" hx-swap-oob="outerHTML"></span>"#@),
{
    let none = Seq::<char>::empty();
    let good = applied(s, Ok(said)).1->body;
    let bad = applied(s, Err(said)).1->body;
    let head = r#"<span class="ok">已套用並 reload 成功："#@;
    let tail = r#"</span><span id="pending-badge" hx-swap-oob="outerHTML"></span>"#@;
    assert(good =~= head + escaped(said) + tail);
    law_found_within(good, escaped(said));
    lemma_told_behind(head + escaped(said), tail);
    let bad_head = r#"<span class="err">檔案已寫入，但 reload 失敗："#@;
    assert(bad =~= bad_head + escaped(said) + "</span>"@);
    law_found_within(bad, escaped(said));
    reveal_strlit(r#"<span class="ok">已套用並 reload 成功："#);
    reveal_strlit(r#"<span class="ok">"#);
    reveal_strlit(r#"<span class="err">檔案已寫入，但 reload 失敗："#);
    reveal_strlit(r#"<span class="err">"#);
    let ok = r#"<span class="ok">"#@;
    let err = r#"<span class="err">"#@;
    assert(head =~= none + ok + head.skip(ok.len() as int));
    assert(good =~= none + ok + (head.skip(ok.len() as int) + escaped(said) + tail));
    law_found_within(good, ok);
    assert(bad_head =~= none + err + bad_head.skip(err.len() as int));
    assert(bad =~= none + err + (bad_head.skip(err.len() as int) + escaped(said) + "</span>"@));
    law_found_within(bad, err);
}

/// Kea has consented exactly where its reply has the result zero; what it says is passed on, and a reply
/// without a result is no consent.
pub proof fn law_only_zero_is_consent(response: Seq<char>, j: Json)
    ensures
        reply_of(response, j) is Ok <==> holds(j, "result"@, Json::Int(0)),
        forall|t: Seq<char>|
            holds(j, "result"@, Json::Int(0)) && #[trigger] holds(j, "text"@, Json::Text(t)) ==> reply_of(response, j) == Ok::<
                Seq<char>,
                Seq<char>,
            >(t),
        forall|t: Seq<char>|
            !holds(j, "result"@, Json::Int(0)) && int_member(j, "result"@) is Some && #[trigger] holds(
                j,
                "text"@,
                Json::Text(t),
            ) ==> has_text(reply_of(response, j)->Err_0, t),
{
    law_members_are_found(j, "result"@);
    law_members_are_found(j, "text"@);
    assert(holds(j, "result"@, Json::Int(0)) <==> int_member(j, "result"@) == Some(0int));
    assert forall|t: Seq<char>|
        !holds(j, "result"@, Json::Int(0)) && int_member(j, "result"@) is Some && #[trigger] holds(
            j,
            "text"@,
            Json::Text(t),
        ) implies has_text(reply_of(response, j)->Err_0, t) by {
        let e = reply_of(response, j)->Err_0;
        let none = Seq::<char>::empty();
        assert(text_member(j, "text"@) == Some(t));
        let head = "kea config-reload 失敗 (result="@ + int_text(int_member(j, "result"@)->0) + "): "@;
        assert(e =~= head + t + none);
        law_found_within(e, t);
    }
}

/// The socket is a Unix socket or a TCP socket as the configuration says, under the name that it gives;
/// and no other kind is taken.
pub proof fn law_socket_is_of_its_kind(name: Seq<char>, kind: Seq<char>)
    ensures
        endpoint_of(SocketView { name, kind: "unix"@ }) == Ok::<EndpointView, Seq<char>>(EndpointView::Unix(name)),
        endpoint_of(SocketView { name, kind: "tcp"@ }) == Ok::<EndpointView, Seq<char>>(EndpointView::Tcp(name)),
        kind != "unix"@ && kind != "tcp"@ ==> endpoint_of(SocketView { name, kind }) is Err,
{
    reveal_strlit("unix");
    reveal_strlit("tcp");
    assert("unix"@.len() != "tcp"@.len());
}

/// A page tells of a file that is gone, that cannot be read, or that was changed elsewhere while changes
/// wait, and of nothing else; in the last case it offers both decisions.
pub proof fn law_page_tells_of_the_file(refresh: Refresh, pending: u64, next: Seq<char>)
    ensures
        banner_text(refresh, pending, next).len() == 0 <==> refresh == Refresh::Unchanged || refresh == Refresh::Reloaded,
        refresh == Refresh::ExternalChanged ==> has_text(
            banner_text(refresh, pending, next),
            r#"<form method="post" action="/external/adopt" class="inline-form">
<input type="hidden" name="next" value=""#@ + escaped(next),
        ) && has_text(
            banner_text(refresh, pending, next),
            r#"<form method="post" action="/external/overwrite" class="inline-form">
<input type="hidden" name="next" value=""#@ + escaped(next),
        ),
{
    reveal_strlit(r#"<p class="err"><strong>設定檔已被刪除。</strong>介面仍顯示上次載入的版本；編輯寫回會重建設定檔。</p>"#);
    reveal_strlit(r#"<p class="err"><strong>設定檔已被外部修改且無法解析。</strong>介面仍顯示上次載入的版本。</p>"#);
    reveal_strlit(r#"<p class="warn"><strong>設定檔已被外部修改</strong>（本系統尚有 "#);
    if refresh == Refresh::ExternalChanged {
        let b = banner_text(refresh, pending, next);
        let e = escaped(next);
        let head = r#"<p class="warn"><strong>設定檔已被外部修改</strong>（本系統尚有 "#@ + dec(pending as nat);
        let one = r#" 筆變更未套用）。先決定以哪一方為準：</p>
<form method="post" action="/external/adopt" class="inline-form">
<input type="hidden" name="next" value=""#@;
        let two = r#"">
<button class="btn" title="捨棄本系統未套用的變更，載入外部版本">捨棄變更重新載入</button>
</form>
<form method="post" action="/external/overwrite" class="inline-form">
<input type="hidden" name="next" value=""#@;
        let three = r#"">
<button class="btn primary" title="以本系統版本覆寫設定檔（未套用變更保留）">以本系統覆寫</button>
</form>"#@;
        assert(b =~= head + one + e + two + e + three);
        let adopt = r#"<form method="post" action="/external/adopt" class="inline-form">
<input type="hidden" name="next" value=""#@;
        let over = r#"<form method="post" action="/external/overwrite" class="inline-form">
<input type="hidden" name="next" value=""#@;
        reveal_strlit(r#" 筆變更未套用）。先決定以哪一方為準：</p>
<form method="post" action="/external/adopt" class="inline-form">
<input type="hidden" name="next" value=""#);
        reveal_strlit(r#"<form method="post" action="/external/adopt" class="inline-form">
<input type="hidden" name="next" value=""#);
        reveal_strlit(r#"">
<button class="btn" title="捨棄本系統未套用的變更，載入外部版本">捨棄變更重新載入</button>
</form>
<form method="post" action="/external/overwrite" class="inline-form">
<input type="hidden" name="next" value=""#);
        reveal_strlit(r#"<form method="post" action="/external/overwrite" class="inline-form">
<input type="hidden" name="next" value=""#);
        let x = one.take(one.len() - adopt.len());
        assert(one =~= x + adopt);
        assert(b =~= (head + x) + (adopt + e) + (two + e + three));
        law_found_within(b, adopt + e);
        let y = two.take(two.len() - over.len());
        assert(two =~= y + over);
        assert(b =~= (head + one + e + y) + (over + e) + three);
        law_found_within(b, over + e);
    }
}

/// The form that is sent again with a decision holds what was typed: nothing of it is lost.
pub proof fn law_form_is_sent_again_whole(f: FormView)
    ensures
        has_text(hidden_text(f), r#"name="hw_address" value=""#@ + escaped(f.hw) + r#"">"#@),
        has_text(hidden_text(f), r#"name="ip_address" value=""#@ + escaped(f.ip) + r#"">"#@),
        f.hostname is Some ==> has_text(
            hidden_text(f),
            r#"name="hostname" value=""#@ + escaped(f.hostname->0) + r#"">"#@,
        ),
{
    let whole = hidden_text(f);
    let none = Seq::<char>::empty();
    let opening = r#"<input type="hidden" "#@;
    let close = r#"">"#@;
    let (a, b, c) = (
        r#"<input type="hidden" name="hw_address" value=""#@,
        r#"<input type="hidden" name="ip_address" value=""#@,
        r#"<input type="hidden" name="hostname" value=""#@,
    );
    let (x, y, z) = (r#"name="hw_address" value=""#@, r#"name="ip_address" value=""#@, r#"name="hostname" value=""#@);
    reveal_strlit(r#"<input type="hidden" name="hw_address" value=""#);
    reveal_strlit(r#"<input type="hidden" name="ip_address" value=""#);
    reveal_strlit(r#"<input type="hidden" name="hostname" value=""#);
    reveal_strlit(r#"name="hw_address" value=""#);
    reveal_strlit(r#"name="ip_address" value=""#);
    reveal_strlit(r#"name="hostname" value=""#);
    reveal_strlit(r#"<input type="hidden" "#);
    assert(a =~= opening + x);
    assert(b =~= opening + y);
    assert(c =~= opening + z);
    let (p, q) = (escaped(f.hw), escaped(f.ip));
    let rest = match f.hostname {
        Some(h) => c + escaped(h) + close,
        None => none,
    };
    assert(whole =~= a + p + close + b + q + close + rest);
    assert(whole =~= opening + (x + p + close) + (b + q + close + rest));
    law_found_within(whole, x + p + close);
    assert(whole =~= (a + p + close + opening) + (y + q + close) + rest);
    law_found_within(whole, y + q + close);
    if f.hostname is Some {
        let r = escaped(f.hostname->0);
        assert(whole =~= (a + p + close + b + q + close + opening) + (z + r + close) + none);
        law_found_within(whole, z + r + close);
    }
}

/// Whether a cookie header presents a session: of its pairs, the first with the name of the tool's cookie
/// has it.
pub open spec fn presents(header: Option<Seq<char>>, token: Seq<char>, k: int) -> bool {
    &&& header is Some
    &&& 0 <= k < split_on(header->0, ';').len()
    &&& trimmed(split_on(header->0, ';')[k]) == "kealight_session="@ + token
    &&& forall|i: int, t: Seq<char>|
        0 <= i < k ==> trimmed(#[trigger] split_on(header->0, ';')[i]) != #[trigger] ("kealight_session="@ + t)
}

/// Where there is a password, only the login and requests that present an open session are let through;
/// where there is none, all are.
pub proof fn law_only_open_sessions_are_let_through(
    password: Option<Seq<char>>,
    path: Seq<char>,
    header: Option<Seq<char>>,
    sessions: Seq<Seq<char>>,
)
    ensures
        guarded(password) <==> password is Some && password->0.len() > 0,
        admitted(password, path, header, sessions) <==> {
            ||| password is None || password->0.len() == 0
            ||| path == "/login"@
            ||| exists|token: Seq<char>, k: int| #[trigger] presents(header, token, k) && sessions.contains(token)
        },
{
    if header is Some {
        let pairs = split_on(header->0, ';');
        lemma_first_token(pairs);
        match first_token(pairs) {
            Some(t) => {
                let k = choose|k: int| first_at(pairs, t, k);
                assert forall|i: int, u: Seq<char>| 0 <= i < k implies trimmed(#[trigger] pairs[i])
                    != #[trigger] ("kealight_session="@ + u) by {
                    lemma_pair(pairs[i], u);
                }
                lemma_pair(pairs[k], t);
                assert(presents(header, t, k));
                assert forall|u: Seq<char>, n: int| #[trigger] presents(header, u, n) implies u == t by {
                    lemma_pair(pairs[n], u);
                    lemma_pair(pairs[n], t);
                    if n < k {
                        assert(pair_token(pairs[n]) is None);
                    } else if n > k {
                        assert(trimmed(pairs[k]) == "kealight_session="@ + t);
                    }
                }
            },
            None => {
                assert forall|u: Seq<char>, n: int| !#[trigger] presents(header, u, n) by {
                    if presents(header, u, n) {
                        lemma_pair(pairs[n], u);
                        assert(pair_token(pairs[n]) is None);
                    }
                }
            },
        }
    }
}

spec fn first_at(pairs: Seq<Seq<char>>, t: Seq<char>, k: int) -> bool {
    &&& 0 <= k < pairs.len()
    &&& pair_token(pairs[k]) == Some(t)
    &&& forall|i: int| 0 <= i < k ==> pair_token(#[trigger] pairs[i]) is None
}

proof fn lemma_first_token(pairs: Seq<Seq<char>>)
    ensures
        first_token(pairs) matches Some(t) ==> exists|k: int| first_at(pairs, t, k),
        first_token(pairs) is None ==> forall|i: int| 0 <= i < pairs.len() ==> pair_token(#[trigger] pairs[i]) is None,
    decreases pairs.len(),
{
    if pairs.len() > 0 {
        let front = pairs.drop_last();
        lemma_first_token(front);
        match first_token(front) {
            Some(t) => {
                let k = choose|k: int| first_at(front, t, k);
                assert forall|i: int| 0 <= i < k implies pair_token(#[trigger] pairs[i]) is None by {
                    assert(front[i] == pairs[i]);
                }
                assert(pairs[k] == front[k]);
                assert(first_at(pairs, t, k));
            },
            None => {
                assert forall|i: int| 0 <= i < front.len() implies pair_token(#[trigger] pairs[i]) is None by {
                    assert(front[i] == pairs[i]);
                }
                if pair_token(pairs.last()) is Some {
                    assert(first_at(pairs, pair_token(pairs.last())->0, pairs.len() - 1));
                }
            },
        }
    }
}

proof fn lemma_pair(pair: Seq<char>, t: Seq<char>)
    ensures
        pair_token(pair) == Some(t) <==> trimmed(pair) == "kealight_session="@ + t,
{
    let key = "kealight_session="@;
    let none = Seq::<char>::empty();
    law_found_between(trimmed(pair), key, t, none);
    assert(key + t + none =~= key + t);
}

/// The cookie that is set presents the session that was opened, and is kept from scripts.
pub proof fn law_cookie_holds_the_session(token: Seq<char>)
    ensures
        ({
            let c = cookie_text(token);
            let head = "kealight_session="@ + token + ";"@;
            &&& c.len() > head.len()
            &&& c.take(head.len() as int) == head
            &&& has_text(c, "; HttpOnly"@)
            &&& has_text(c, "; SameSite=Lax"@)
        }),
{
    let c = cookie_text(token);
    let key = "kealight_session="@;
    let rest = "; Path=/; HttpOnly; SameSite=Lax"@;
    reveal_strlit("; Path=/; HttpOnly; SameSite=Lax");
    reveal_strlit(";");
    reveal_strlit("; HttpOnly");
    reveal_strlit("; SameSite=Lax");
    assert(c =~= key + token + rest);
    assert(c.take((key.len() + token.len() + 1) as int) =~= key + token + ";"@);
    let none = Seq::<char>::empty();
    assert(rest =~= rest.take(8) + "; HttpOnly"@ + rest.skip(18));
    assert(c =~= (key + token + rest.take(8)) + "; HttpOnly"@ + rest.skip(18));
    law_found_within(c, "; HttpOnly"@);
    assert(rest =~= rest.take(18) + "; SameSite=Lax"@ + none);
    assert(c =~= (key + token + rest.take(18)) + "; SameSite=Lax"@ + none);
    law_found_within(c, "; SameSite=Lax"@);
}

/// Whether a line of the table of neighbours gives a hardware address for an address: its first word is
/// the address, and its fourth the hardware address.
pub open spec fn gives(line: Seq<char>, ip: Seq<char>, m: Seq<char>) -> bool {
    let w = words_of(line);
    w.len() >= 4 && w[0] == ip && w[0] != "IP"@ && w[3] == m && m != "00:00:00:00:00:00"@
}

/// Whether line `k` is the first that gives a hardware address for an address.
pub open spec fn gives_first(lines: Seq<Seq<char>>, ip: Seq<char>, m: Seq<char>, k: int) -> bool {
    &&& 0 <= k < lines.len()
    &&& gives(lines[k], ip, m)
    &&& forall|i: int, n: Seq<char>| 0 <= i < k ==> !#[trigger] gives(lines[i], ip, n)
}

/// A neighbour's hardware address is the one that the first line gives that gives one for its address;
/// where no line does, none is made up.
pub proof fn law_neighbour_is_looked_up(lines: Seq<Seq<char>>, ip: Seq<char>, m: Seq<char>)
    ensures
        arp_lookup(lines, ip) == Some(m) <==> exists|k: int| gives_first(lines, ip, m, k),
    decreases lines.len(),
{
    if lines.len() > 0 {
        let front = lines.drop_last();
        let n = lines.len() - 1;
        let found = arp_lookup(front, ip);
        if found is Some {
            law_neighbour_is_looked_up(front, ip, found->0);
            let k = choose|k: int| gives_first(front, ip, found->0, k);
            lemma_still_first(lines, ip, found->0, k);
            assert forall|x: int| gives_first(lines, ip, m, x) implies m == found->0 by {
                if x < k {
                    assert(gives(front[x], ip, m));
                } else if x > k {
                    assert(gives(lines[k], ip, found->0));
                }
            }
        } else {
            assert forall|i: int, x: Seq<char>| 0 <= i < n implies !#[trigger] gives(lines[i], ip, x) by {
                lemma_none_given(front, ip, i, x);
                assert(front[i] == lines[i]);
            }
            if arp_entry(lines[n], ip) == Some(m) {
                assert(gives_first(lines, ip, m, n));
            }
            assert forall|x: int| gives_first(lines, ip, m, x) implies arp_entry(lines[n], ip) == Some(m) by {
                assert(x == n);
            }
        }
    }
}

proof fn lemma_still_first(lines: Seq<Seq<char>>, ip: Seq<char>, m: Seq<char>, k: int)
    requires
        lines.len() > 0,
        gives_first(lines.drop_last(), ip, m, k),
    ensures
        gives_first(lines, ip, m, k),
{
    let front = lines.drop_last();
    assert(front[k] == lines[k]);
    assert forall|i: int, n: Seq<char>| 0 <= i < k implies !#[trigger] gives(lines[i], ip, n) by {
        assert(front[i] == lines[i]);
        assert(!gives(front[i], ip, n));
    }
}

proof fn lemma_none_given(lines: Seq<Seq<char>>, ip: Seq<char>, i: int, x: Seq<char>)
    requires
        arp_lookup(lines, ip) is None,
        0 <= i < lines.len(),
    ensures
        !gives(lines[i], ip, x),
    decreases lines.len(),
{
    if i < lines.len() - 1 {
        lemma_none_given(lines.drop_last(), ip, i, x);
        assert(lines.drop_last()[i] == lines[i]);
    }
}

/// A reply without a text is still consent; one that refuses without a text, or has no result, is told whole;
/// and the number of a refusal is told.
pub proof fn law_reply_is_told(response: Seq<char>, j: Json, n: int)
    ensures
        holds(j, "result"@, Json::Int(0)) && (forall|t: Seq<char>| !#[trigger] holds(j, "text"@, Json::Text(t))) ==> reply_of(
            response,
            j,
        ) == Ok::<Seq<char>, Seq<char>>("ok"@),
        n != 0 && i64::MIN <= n <= i64::MAX && holds(j, "result"@, Json::Int(n)) ==> {
            let said = reply_of(response, j)->Err_0;
            &&& n > 0 ==> has_text(said, "(result="@ + dec(n as nat) + "): "@)
            &&& n < 0 ==> has_text(said, "(result=-"@ + dec((-n) as nat) + "): "@)
            &&& (forall|t: Seq<char>| !#[trigger] holds(j, "text"@, Json::Text(t))) ==> has_text(said, response)
        },
        (forall|m: int| i64::MIN <= m <= i64::MAX ==> !#[trigger] holds(j, "result"@, Json::Int(m))) ==> reply_of(response, j)
            is Err && has_text(reply_of(response, j)->Err_0, response),
{
    law_members_are_found(j, "result"@);
    law_members_are_found(j, "text"@);
    if text_member(j, "text"@) is Some {
        assert(holds(j, "text"@, Json::Text(text_member(j, "text"@)->0)));
    }
    if n != 0 && i64::MIN <= n <= i64::MAX && holds(j, "result"@, Json::Int(n)) {
        let rest = match text_member(j, "text"@) {
            Some(t) => t,
            None => response,
        };
        lemma_refusal_told(n, rest);
    }
    if forall|m: int| i64::MIN <= m <= i64::MAX ==> !#[trigger] holds(j, "result"@, Json::Int(m)) {
        if int_member(j, "result"@) is Some {
            assert(holds(j, "result"@, Json::Int(int_member(j, "result"@)->0)));
        }
        lemma_told_behind("kea 回應缺少 result: "@, response);
    }
}

proof fn lemma_refusal_told(n: int, rest: Seq<char>)
    requires
        n != 0,
    ensures
        ({
            let said = "kea config-reload 失敗 (result="@ + int_text(n) + "): "@ + rest;
            &&& n > 0 ==> has_text(said, "(result="@ + dec(n as nat) + "): "@)
            &&& n < 0 ==> has_text(said, "(result=-"@ + dec((-n) as nat) + "): "@)
            &&& has_text(said, rest)
        }),
{
    let number = int_text(n);
    let l = "kea config-reload 失敗 (result="@;
    lemma_refusal_literals();
    lemma_told_between(l, "(result="@, number, "): "@, rest);
    lemma_told_behind(l + number + "): "@, rest);
    lemma_signed("(result="@, "-"@, dec((-n) as nat), "): "@);
}

proof fn lemma_signed(a: Seq<char>, b: Seq<char>, c: Seq<char>, d: Seq<char>)
    ensures
        a + (b + c) + d == (a + b) + c + d,
{
    assert(a + (b + c) + d =~= (a + b) + c + d);
}

proof fn lemma_refusal_literals()
    ensures
        ({
            let l = "kea config-reload 失敗 (result="@;
            let e = "(result="@;
            &&& l.len() >= e.len()
            &&& l.skip(l.len() - e.len()) == e
            &&& e + "-"@ == "(result=-"@
        }),
{
    reveal_strlit("kea config-reload 失敗 (result=");
    reveal_strlit("(result=");
    reveal_strlit("(result=-");
    reveal_strlit("-");
    let l = "kea config-reload 失敗 (result="@;
    let e = "(result="@;
    assert(l.skip(l.len() - e.len()) =~= e);
    assert(e + "-"@ =~= "(result=-"@);
}

proof fn lemma_told_between(l: Seq<char>, e: Seq<char>, t: Seq<char>, m: Seq<char>, r: Seq<char>)
    requires
        l.len() >= e.len(),
        l.skip(l.len() - e.len()) == e,
    ensures
        has_text(l + t + m + r, e + t + m),
{
    let whole = l + t + m + r;
    let part = e + t + m;
    let n = l.len() - e.len();
    assert forall|i: int| 0 <= i < e.len() implies whole[n + i] == e[i] by {
        assert(l.skip(n)[i] == l[n + i]);
    }
    assert(whole.subrange(n, n + part.len()) =~= part);
    assert(stands_at(whole, part, n));
}

proof fn lemma_told_behind(l: Seq<char>, t: Seq<char>)
    ensures
        has_text(l + t, t),
{
    let n = l.len() as int;
    assert((l + t).subrange(n, n + t.len()) =~= t);
    assert(stands_at(l + t, t, n));
}

/// The page tells that the file is gone, and that another version of it cannot be read.
pub proof fn law_page_tells_of_a_lost_file(pending: u64, next: Seq<char>)
    ensures
        has_text(banner_text(Refresh::MissingFile, pending, next), "設定檔已被刪除"@),
        has_text(banner_text(Refresh::ParseError, pending, next), "無法解析"@),
        has_text(banner_text(Refresh::ExternalChanged, pending, next), dec(pending as nat) + " 筆變更未套用"@),
{
    lemma_lost_told();
    lemma_unreadable_told();
    lemma_waiting_told(pending, next);
}

proof fn lemma_lost_told()
    ensures
        has_text(
            r#"<p class="err"><strong>設定檔已被刪除。</strong>介面仍顯示上次載入的版本；編輯寫回會重建設定檔。</p>"#@,
            "設定檔已被刪除"@,
        ),
{
    reveal_strlit(r#"<p class="err"><strong>設定檔已被刪除。</strong>介面仍顯示上次載入的版本；編輯寫回會重建設定檔。</p>"#);
    reveal_strlit("設定檔已被刪除");
    let whole = r#"<p class="err"><strong>設定檔已被刪除。</strong>介面仍顯示上次載入的版本；編輯寫回會重建設定檔。</p>"#@;
    let part = "設定檔已被刪除"@;
    assert(whole.subrange(23, (23 + part.len()) as int) =~= part);
    assert(stands_at(whole, part, 23));
}

proof fn lemma_unreadable_told()
    ensures
        has_text(
            r#"<p class="err"><strong>設定檔已被外部修改且無法解析。</strong>介面仍顯示上次載入的版本。</p>"#@,
            "無法解析"@,
        ),
{
    reveal_strlit(r#"<p class="err"><strong>設定檔已被外部修改且無法解析。</strong>介面仍顯示上次載入的版本。</p>"#);
    reveal_strlit("無法解析");
    let whole = r#"<p class="err"><strong>設定檔已被外部修改且無法解析。</strong>介面仍顯示上次載入的版本。</p>"#@;
    let part = "無法解析"@;
    assert(whole.subrange(33, (33 + part.len()) as int) =~= part);
    assert(stands_at(whole, part, 33));
}

proof fn lemma_waiting_told(pending: u64, next: Seq<char>)
    ensures
        has_text(banner_text(Refresh::ExternalChanged, pending, next), dec(pending as nat) + " 筆變更未套用"@),
{
    let l = r#" 筆變更未套用）。先決定以哪一方為準：</p>
<form method="post" action="/external/adopt" class="inline-form">
<input type="hidden" name="next" value=""#@;
    reveal_strlit(r#" 筆變更未套用）。先決定以哪一方為準：</p>
<form method="post" action="/external/adopt" class="inline-form">
<input type="hidden" name="next" value=""#);
    reveal_strlit(" 筆變更未套用");
    let e = " 筆變更未套用"@;
    let head = r#"<p class="warn"><strong>設定檔已被外部修改</strong>（本系統尚有 "#@;
    let part = dec(pending as nat) + e;
    let whole = head + dec(pending as nat) + l;
    assert(l.take(e.len() as int) =~= e);
    let n = head.len() as int;
    assert(whole.subrange(n, n + part.len()) =~= part);
    assert(stands_at(whole, part, n));
    lemma_in_longer(part);
}

} // verus!
