//! Operations: a request that changes something, step by step. Between the steps someone else looks
//! at the disk, writes to it, or talks to Kea.
use vstd::prelude::*;
use vstd::string::*;

use crate::error::KeaError;
use crate::file::{ControlSocket, FileStat, KeaFile, SocketView};
use crate::form::{form_path, hidden_text, summary_text, FormView, ReservationForm};
use crate::html::page_text;
use crate::json::Json;
use crate::query::subnet_path;
use crate::state::{
    changed_elsewhere, decision_text, disk_view, gate_of, new_baseline, refreshed, resolution_of, resolve_external,
    seen, AppState, Gate, Refresh, Resolution, StateView,
};
use crate::text::{copy_text, opt_text};
use crate::web::{
    after_save, applied, apply_refusal, apply_reload, apply_target, ask_before_apply, ask_before_delete,
    ask_before_submit, delete_path, delete_reservation, deleted, error_page, finish_save, kea_reply, page_500,
    submit_reservation, submitted, Reply, ReplyView,
};

verus! {

/// What a request asks for.
#[derive(Debug)]
pub enum Operation {
    /// To write what is typed into the form: as a new reservation, or at its place.
    Submit { idx: usize, ridx: Option<usize>, form: ReservationForm, peer_mac: Option<String> },
    /// To delete a reservation.
    Delete { idx: usize, ridx: usize, decision: Option<String> },
    /// To have Kea take the configuration.
    Apply { decision: Option<String> },
}

/// What a request asks for.
#[verifier::ext_equal]
pub enum OperationView {
    Submit { idx: nat, ridx: Option<usize>, form: FormView, mac: Option<Seq<char>> },
    Delete { idx: nat, ridx: usize, decision: Option<Seq<char>> },
    Apply { decision: Option<Seq<char>> },
}

impl View for Operation {
    type V = OperationView;

    open spec fn view(&self) -> OperationView {
        match self {
            Operation::Submit { idx, ridx, form, peer_mac } => OperationView::Submit {
                idx: *idx as nat,
                ridx: *ridx,
                form: form@,
                mac: opt_text(*peer_mac),
            },
            Operation::Delete { idx, ridx, decision } => OperationView::Delete {
                idx: *idx as nat,
                ridx: *ridx,
                decision: opt_text(*decision),
            },
            Operation::Apply { decision } => OperationView::Apply { decision: opt_text(*decision) },
        }
    }
}

/// What happened between two steps.
pub enum Event {
    /// The file on disk was looked at, and read where it had to be.
    Looked { stat: Result<Option<FileStat>, KeaError>, disk: Option<KeaFile> },
    /// The file on disk was read, to be taken over.
    Read { disk: Option<KeaFile>, stat: Result<Option<FileStat>, KeaError> },
    /// What is in memory was written over the file on disk, and the file looked at; or it could not
    /// be written.
    Overwritten(Result<Result<Option<FileStat>, KeaError>, KeaError>),
    /// A change was saved, and the file looked at; or it could not be saved.
    Saved { outcome: Result<Result<Option<FileStat>, KeaError>, KeaError>, target: String },
    /// Kea was asked to take the configuration.
    Answered(Result<String, KeaError>),
}

/// What happened between two steps.
pub enum EventView {
    Looked { stat: Result<Option<FileStat>, KeaError>, disk: Option<Json> },
    Read { disk: Option<Json>, stat: Result<Option<FileStat>, KeaError> },
    Overwritten(Result<Result<Option<FileStat>, KeaError>, KeaError>),
    Saved { outcome: Result<Result<Option<FileStat>, KeaError>, KeaError>, target: Seq<char> },
    Answered(Result<Seq<char>, Seq<char>>),
}

impl View for Event {
    type V = EventView;

    open spec fn view(&self) -> EventView {
        match self {
            Event::Looked { stat, disk } => EventView::Looked { stat: *stat, disk: disk_view(*disk) },
            Event::Read { disk, stat } => EventView::Read { disk: disk_view(*disk), stat: *stat },
            Event::Overwritten(outcome) => EventView::Overwritten(*outcome),
            Event::Saved { outcome, target } => EventView::Saved { outcome: *outcome, target: target@ },
            Event::Answered(reply) => EventView::Answered(kea_reply(*reply)),
        }
    }
}

/// What has to be done next.
#[derive(Debug)]
pub enum Action {
    /// To answer: the operation is over.
    Answer(Reply),
    /// To read the file on disk.
    Read,
    /// To write what is in memory over the file on disk, after a backup.
    Overwrite,
    /// To save what is in memory, after a backup, and to go to the target then.
    Save { target: String },
    /// To ask Kea to take the configuration.
    Ask(ControlSocket),
}

/// What has to be done next.
#[verifier::ext_equal]
pub enum ActionView {
    Answer(ReplyView),
    Read,
    Overwrite,
    Save { target: Seq<char> },
    Ask(SocketView),
}

impl View for Action {
    type V = ActionView;

    open spec fn view(&self) -> ActionView {
        match self {
            Action::Answer(reply) => ActionView::Answer(reply@),
            Action::Read => ActionView::Read,
            Action::Overwrite => ActionView::Overwrite,
            Action::Save { target } => ActionView::Save { target: target@ },
            Action::Ask(cs) => ActionView::Ask(cs@),
        }
    }
}

/// The decision that comes with a request.
pub open spec fn decision_of(op: OperationView) -> Option<Seq<char>> {
    match op {
        OperationView::Submit { form, .. } => form.external_resolve,
        OperationView::Delete { decision, .. } => decision,
        OperationView::Apply { decision } => decision,
    }
}

/// The page that asks whose version is to count.
pub open spec fn question(s: StateView, op: OperationView) -> ReplyView {
    ReplyView::Html {
        status: 409,
        body: page_text(
            "外部修改"@,
            match op {
                OperationView::Submit { idx, ridx, form, mac } => decision_text(
                    form_path(idx, ridx),
                    Some(hidden_text(form)),
                    summary_text(ridx, form),
                    subnet_path(idx),
                    s.pending,
                ),
                OperationView::Delete { idx, ridx, decision } => decision_text(
                    delete_path(idx, ridx as nat),
                    None,
                    "將刪除一筆 reservation。"@,
                    subnet_path(idx),
                    s.pending,
                ),
                OperationView::Apply { decision } => decision_text(
                    "/apply"@,
                    None,
                    "將把變更套用至 kea。"@,
                    "/subnet/0"@,
                    s.pending,
                ),
            },
        ),
    }
}

/// What the operation itself does, once nothing stands in its way.
pub open spec fn performed(s: StateView, op: OperationView) -> (StateView, ActionView) {
    match op {
        OperationView::Submit { idx, ridx, form, mac } => {
            let (file, r) = submitted(s.file, idx, ridx, form, mac);
            (
                StateView { file, ..s },
                match r {
                    Ok(target) => ActionView::Save { target },
                    Err(reply) => ActionView::Answer(reply),
                },
            )
        },
        OperationView::Delete { idx, ridx, decision } => {
            let (file, r) = deleted(s.file, idx, ridx);
            (
                StateView { file, ..s },
                match r {
                    Ok(target) => ActionView::Save { target },
                    Err(reply) => ActionView::Answer(reply),
                },
            )
        },
        OperationView::Apply { decision } => (
            s,
            match apply_refusal(s) {
                Some(reply) => ActionView::Answer(reply),
                None => ActionView::Ask(crate::file::socket_of(s.file)->0),
            },
        ),
    }
}

/// The state after a step, and what has to be done next.
pub open spec fn stepped(s: StateView, op: OperationView, e: EventView) -> (StateView, ActionView) {
    match e {
        EventView::Looked { stat, disk } => {
            let (after, refresh) = refreshed(s, seen(stat), disk);
            match gate_of(refresh, decision_of(op)) {
                Gate::Open => performed(after, op),
                Gate::Resolve(Resolution::Ask) => (after, ActionView::Answer(question(after, op))),
                Gate::Resolve(Resolution::Adopt) => (after, ActionView::Read),
                Gate::Resolve(Resolution::Overwrite) => (after, ActionView::Overwrite),
            }
        },
        EventView::Read { disk, stat } => match disk {
            Some(j) => performed(
                StateView { file: j, pending: 0, baseline: new_baseline(s, stat), ..s },
                op,
            ),
            None => (
                s,
                ActionView::Answer(error_page(500, "設定檔不存在或無法解析，無法重新載入外部版本"@)),
            ),
        },
        EventView::Overwritten(outcome) => match outcome {
            Ok(stat) => performed(StateView { baseline: new_baseline(s, stat), ..s }, op),
            Err(e) => (s, ActionView::Answer(error_page(500, e.message@))),
        },
        EventView::Saved { outcome, target } => {
            let (after, reply) = after_save(s, outcome, target);
            (after, ActionView::Answer(reply))
        },
        EventView::Answered(reply) => {
            let (after, answer) = applied(s, reply);
            (after, ActionView::Answer(answer))
        },
    }
}

/// Asks whose version is to count.
fn ask(st: &AppState, op: &Operation) -> (r: Reply)
    ensures
        r@ == question(st@, op@),
{
    match op {
        Operation::Submit { idx, ridx, form, .. } => ask_before_submit(st, *idx, *ridx, form),
        Operation::Delete { idx, ridx, .. } => ask_before_delete(st, *idx, *ridx),
        Operation::Apply { .. } => ask_before_apply(st),
    }
}

/// Does what the operation itself does.
fn perform(st: &mut AppState, op: &Operation) -> (r: Action)
    ensures
        (final(st)@, r@) == performed(old(st)@, op@),
{
    match op {
        Operation::Submit { idx, ridx, form, peer_mac } => match submit_reservation(
            &mut st.file,
            *idx,
            *ridx,
            form,
            copy_text(peer_mac),
        ) {
            Ok(target) => Action::Save { target },
            Err(reply) => Action::Answer(reply),
        },
        Operation::Delete { idx, ridx, .. } => match delete_reservation(&mut st.file, *idx, *ridx) {
            Ok(target) => Action::Save { target },
            Err(reply) => Action::Answer(reply),
        },
        Operation::Apply { .. } => match apply_target(st) {
            Ok(cs) => Action::Ask(cs),
            Err(reply) => Action::Answer(reply),
        },
    }
}

/// Takes a step of an operation: what happened since the last one is noted, and the result says what
/// has to be done next. It begins with a look at the file on disk.
pub fn advance(st: &mut AppState, op: &Operation, event: Event) -> (r: Action)
    requires
        event is Saved ==> old(st).saves_since_apply < u64::MAX,
    ensures
        (final(st)@, r@) == stepped(old(st)@, op@, event@),
{
    match event {
        Event::Looked { stat, disk } => {
            let refresh: Refresh = st.refresh_external(&stat, disk);
            let gate: Gate = match op {
                Operation::Submit { form, .. } => resolve_external(&refresh, &form.external_resolve),
                Operation::Delete { decision, .. } => resolve_external(&refresh, decision),
                Operation::Apply { decision } => resolve_external(&refresh, decision),
            };
            match gate {
                Gate::Open => perform(st, op),
                Gate::Resolve(Resolution::Ask) => Action::Answer(ask(st, op)),
                Gate::Resolve(Resolution::Adopt) => Action::Read,
                Gate::Resolve(Resolution::Overwrite) => Action::Overwrite,
            }
        },
        Event::Read { disk, stat } => match st.adopt_external(disk, stat) {
            Ok(_) => perform(st, op),
            Err(e) => Action::Answer(page_500(e.message.as_str())),
        },
        Event::Overwritten(outcome) => match outcome {
            Ok(stat) => {
                st.note_overwritten(stat);
                perform(st, op)
            },
            Err(e) => Action::Answer(page_500(e.message.as_str())),
        },
        Event::Saved { outcome, target } => Action::Answer(finish_save(st, outcome, target)),
        Event::Answered(reply) => Action::Answer(apply_reload(st, reply)),
    }
}

/// While the file was changed elsewhere and changes wait, an operation that brings no decision, or
/// none that counts, does nothing: it changes nothing, writes nothing, and is answered with the
/// question.
pub proof fn law_undecided_operation_is_held(
    s: StateView,
    op: OperationView,
    stat: Result<Option<FileStat>, KeaError>,
    disk: Option<Json>,
)
    requires
        s.pending > 0,
        changed_elsewhere(s, seen(stat)),
        resolution_of(decision_of(op)) == Resolution::Ask,
    ensures
        stepped(s, op, EventView::Looked { stat, disk }) == (s, ActionView::Answer(question(s, op))),
{
}

/// An operation that goes on after the version on disk was taken over works on that version, and
/// nothing of what waited before is left.
pub proof fn law_adopted_version_is_the_base(
    s: StateView,
    op: OperationView,
    j: Json,
    stat: Result<Option<FileStat>, KeaError>,
)
    ensures
        ({
            let base = StateView { file: j, pending: 0, baseline: new_baseline(s, stat), ..s };
            stepped(s, op, EventView::Read { disk: Some(j), stat }) == performed(base, op)
        }),
{
}

/// An operation that goes on after the version in memory was written over the one on disk works on
/// that version, and what waited still waits.
pub proof fn law_overwriting_keeps_the_changes(
    s: StateView,
    op: OperationView,
    stat: Result<Option<FileStat>, KeaError>,
)
    ensures
        ({
            let base = StateView { baseline: new_baseline(s, stat), ..s };
            stepped(s, op, EventView::Overwritten(Ok(stat))) == performed(base, op) && base.file == s.file
                && base.pending == s.pending
        }),
{
}

/// Something is saved only where a reservation was written or deleted; Kea is asked only where
/// something waits.
pub proof fn law_actions_have_a_reason(s: StateView, op: OperationView)
    ensures
        performed(s, op).1 is Save ==> op is Submit || op is Delete,
        performed(s, op).1 is Ask ==> op is Apply && s.pending > 0 && crate::file::socket_of(s.file) == Some(
            performed(s, op).1->Ask_0,
        ),
        !(performed(s, op).1 is Save) ==> performed(s, op).0 == s,
{
    crate::web::law_refused_changes_nothing(
        s.file,
        op->Submit_idx,
        op->Submit_ridx,
        op->form,
        op->mac,
        0,
    );
}

} // verus!
