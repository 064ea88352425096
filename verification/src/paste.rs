//! Pasting: many reservations at once, from rows of text as a spreadsheet gives them.
use vstd::prelude::*;
use vstd::string::*;

use crate::addr::{in_net, ip_of, Ipv4Addr};
use crate::domain::{
    check_ranges, clashes, conflict_reasons, edit_of, edited, in_pool, range_conflicts, reasons,
    reservation_conflicts, same_hw, same_reservation, views, Conflict, Reservation, ReservationView, Subnet,
    SubnetView,
};
use crate::mac::{normalize_mac_paste, pasted_mac};
use crate::text::{
    contains_char, is_empty, is_listed, join, joined, opt_text, same, same_ignoring_case, split, split_on, texts, trim,
    trim_returns, trimmed, without_returns,
};

verus! {

/// The columns of a pasted row, without the white space around them, for display.
#[derive(Debug)]
pub struct RawPasteColumns {
    pub hw: String,
    pub ip: String,
    pub hostname: String,
}

/// What the columns of a row hold.
#[verifier::ext_equal]
pub struct ColumnsView {
    pub hw: Seq<char>,
    pub ip: Seq<char>,
    pub hostname: Seq<char>,
}

impl View for RawPasteColumns {
    type V = ColumnsView;

    open spec fn view(&self) -> ColumnsView {
        ColumnsView { hw: self.hw@, ip: self.ip@, hostname: self.hostname@ }
    }
}

impl Clone for RawPasteColumns {
    fn clone(&self) -> (r: RawPasteColumns)
        ensures
            r@ == self@,
    {
        RawPasteColumns { hw: self.hw.clone(), ip: self.ip.clone(), hostname: self.hostname.clone() }
    }
}

/// What a pasted row is.
#[derive(Debug)]
pub enum PasteLine {
    /// The first column is no hardware address: a header, or an incomplete row. It is passed over.
    NotMac,
    /// A column is missing or wrong; the reason says which.
    Invalid { line_no: usize, raw: RawPasteColumns, reason: String },
    /// A reservation to write.
    Candidate { line_no: usize, reservation: Reservation, raw: RawPasteColumns },
}

/// What a pasted row holds.
#[verifier::ext_equal]
pub enum LineView {
    NotMac,
    Invalid { line_no: nat, raw: ColumnsView, reason: Seq<char> },
    Candidate { line_no: nat, reservation: ReservationView, raw: ColumnsView },
}

impl View for PasteLine {
    type V = LineView;

    open spec fn view(&self) -> LineView {
        match self {
            PasteLine::NotMac => LineView::NotMac,
            PasteLine::Invalid { line_no, raw, reason } => LineView::Invalid {
                line_no: *line_no as nat,
                raw: raw@,
                reason: reason@,
            },
            PasteLine::Candidate { line_no, reservation, raw } => LineView::Candidate {
                line_no: *line_no as nat,
                reservation: reservation@,
                raw: raw@,
            },
        }
    }
}

/// What pasted rows hold.
pub open spec fn line_views(lines: Seq<PasteLine>) -> Seq<LineView> {
    lines.map_values(|l: PasteLine| l@)
}

/// What becomes of a row.
#[derive(Debug, Clone, Copy, PartialEq, Eq, Structural)]
pub enum PasteAction {
    Add,
    Update,
    NoChange,
    Skip,
}

/// What becomes of a row, with what the row held.
#[derive(Debug)]
pub struct PasteOutcome {
    pub line_no: usize,
    pub action: PasteAction,
    /// The reservation that the row holds, also where it is skipped; nothing where a column is
    /// missing or wrong.
    pub reservation: Option<Reservation>,
    pub raw: RawPasteColumns,
    pub detail: Option<String>,
}

/// What an outcome holds.
#[verifier::ext_equal]
pub struct OutcomeView {
    pub line_no: nat,
    pub action: PasteAction,
    pub reservation: Option<ReservationView>,
    pub raw: ColumnsView,
    pub detail: Option<Seq<char>>,
}

/// What an optional reservation holds.
pub open spec fn opt_view(r: Option<Reservation>) -> Option<ReservationView> {
    match r {
        Some(x) => Some(x@),
        None => None,
    }
}

impl View for PasteOutcome {
    type V = OutcomeView;

    open spec fn view(&self) -> OutcomeView {
        OutcomeView {
            line_no: self.line_no as nat,
            action: self.action,
            reservation: opt_view(self.reservation),
            raw: self.raw@,
            detail: opt_text(self.detail),
        }
    }
}

/// A change that a paste makes to the reservations.
#[derive(Debug)]
pub enum PasteMutation {
    Update { index: usize, reservation: Reservation },
    Add { reservation: Reservation },
}

/// What a change holds.
#[verifier::ext_equal]
pub enum MutationView {
    Update { index: nat, reservation: ReservationView },
    Add { reservation: ReservationView },
}

impl View for PasteMutation {
    type V = MutationView;

    open spec fn view(&self) -> MutationView {
        match self {
            PasteMutation::Update { index, reservation } => MutationView::Update {
                index: *index as nat,
                reservation: reservation@,
            },
            PasteMutation::Add { reservation } => MutationView::Add { reservation: reservation@ },
        }
    }
}

/// All that a paste does: what becomes of each row, and what changes.
#[derive(Debug)]
pub struct PastePlan {
    pub outcomes: Vec<PasteOutcome>,
    /// How many rows were passed over, because their first column is no hardware address.
    pub silent_skipped: usize,
    pub mutations: Vec<PasteMutation>,
    /// The hostnames that are not unique once all is written.
    pub warn_hostnames: Vec<String>,
}

/// What a plan holds.
#[verifier::ext_equal]
pub struct PlanView {
    pub outcomes: Seq<OutcomeView>,
    pub silent_skipped: nat,
    pub mutations: Seq<MutationView>,
    pub warn_hostnames: Seq<Seq<char>>,
}

/// What outcomes hold.
pub open spec fn outcome_views(o: Seq<PasteOutcome>) -> Seq<OutcomeView> {
    o.map_values(|x: PasteOutcome| x@)
}

/// What changes hold.
pub open spec fn mutation_views(m: Seq<PasteMutation>) -> Seq<MutationView> {
    m.map_values(|x: PasteMutation| x@)
}

impl View for PastePlan {
    type V = PlanView;

    open spec fn view(&self) -> PlanView {
        PlanView {
            outcomes: outcome_views(self.outcomes@),
            silent_skipped: self.silent_skipped as nat,
            mutations: mutation_views(self.mutations@),
            warn_hostnames: texts(self.warn_hostnames@),
        }
    }
}

/// Column `i` of a row, without the white space around it; empty where there is none.
pub open spec fn column(cols: Seq<Seq<char>>, i: int) -> Seq<char> {
    if i < cols.len() {
        trimmed(cols[i])
    } else {
        Seq::empty()
    }
}

/// The columns of a row: tabs stand between them, or commas where the row has no tab.
pub open spec fn columns_of(line: Seq<char>) -> ColumnsView {
    let cols = split_on(line, if line.contains('\t') {
        '\t'
    } else {
        ','
    });
    ColumnsView { hw: column(cols, 0), ip: column(cols, 1), hostname: column(cols, 2) }
}

/// The text, or nothing where it is empty.
pub open spec fn nonempty(s: Seq<char>) -> Option<Seq<char>> {
    if s.len() == 0 {
        None
    } else {
        Some(s)
    }
}

/// What a row with these columns is.
pub open spec fn row_of(raw: ColumnsView, line_no: nat) -> LineView {
    match (pasted_mac(raw.hw), ip_of(raw.ip)) {
        (None, _) => LineView::NotMac,
        (Some(_), None) => LineView::Invalid {
            line_no,
            raw,
            reason: if raw.ip.len() == 0 {
                "缺少 ip-address"@
            } else {
                "ip-address 格式不合法: "@ + raw.ip
            },
        },
        (Some(hw), Some(ip)) => LineView::Candidate {
            line_no,
            reservation: ReservationView { hw, ip, hostname: nonempty(raw.hostname) },
            raw,
        },
    }
}

/// What the rows of a text are: blank lines are passed over, lines are counted from one.
pub open spec fn rows_of(lines: Seq<Seq<char>>) -> Seq<LineView>
    decreases lines.len(),
{
    if lines.len() == 0 {
        Seq::empty()
    } else {
        let before = rows_of(lines.drop_last());
        let line = without_returns(lines.last());
        if trimmed(line).len() == 0 {
            before
        } else {
            before.push(row_of(columns_of(line), lines.len()))
        }
    }
}

/// What the rows of a pasted text are.
pub open spec fn pasted_rows(raw: Seq<char>) -> Seq<LineView> {
    rows_of(split_on(raw, '\n'))
}

/// The trimmed column `i`, or an empty text.
fn take_column(cols: &Vec<String>, i: usize) -> (r: String)
    ensures
        r@ == column(texts(cols@), i as int),
{
    if i < cols.len() {
        trim(cols[i].as_str())
    } else {
        String::new()
    }
}

/// What a line that is not blank is.
fn parse_row(line: &str, line_no: usize) -> (r: PasteLine)
    ensures
        r@ == row_of(columns_of(line@), line_no as nat),
{
    let cols: Vec<String> = if contains_char(line, '\t') {
        split(line, '\t')
    } else {
        split(line, ',')
    };
    let raw: RawPasteColumns = RawPasteColumns {
        hw: take_column(&cols, 0),
        ip: take_column(&cols, 1),
        hostname: take_column(&cols, 2),
    };
    assert(raw@ == columns_of(line@));
    let hw_address: String = match normalize_mac_paste(raw.hw.as_str()) {
        Some(hw) => hw,
        None => {
            return PasteLine::NotMac;
        },
    };
    match Ipv4Addr::parse(raw.ip.as_str()) {
        None => {
            let reason: String = if is_empty(raw.ip.as_str()) {
                "缺少 ip-address".to_owned()
            } else {
                let mut text: String = "ip-address 格式不合法: ".to_owned();
                text.append(raw.ip.as_str());
                text
            };
            PasteLine::Invalid { line_no, raw, reason }
        },
        Some(ip_address) => {
            let hostname: Option<String> = if is_empty(raw.hostname.as_str()) {
                None
            } else {
                Some(raw.hostname.clone())
            };
            PasteLine::Candidate { line_no, reservation: Reservation { hw_address, ip_address, hostname }, raw }
        },
    }
}

/// Reads pasted text: one reservation in a line, with tabs between the columns, or commas where
/// the line has no tab. The columns are hardware address, address and hostname; more columns do
/// not count. Blank lines are passed over.
pub fn parse_paste_lines(raw: &str) -> (r: Vec<PasteLine>)
    ensures
        line_views(r@) == pasted_rows(raw@),
{
    let lines: Vec<String> = split(raw, '\n');
    let ghost all = texts(lines@);
    let mut out: Vec<PasteLine> = Vec::new();
    let mut i: usize = 0;
    assert(line_views(out@) =~= rows_of(all.take(0)));
    while i < lines.len()
        invariant
            i <= lines@.len(),
            all == texts(lines@),
            line_views(out@) == rows_of(all.take(i as int)),
        decreases lines@.len() - i,
    {
        assert(all.take(i + 1).drop_last() =~= all.take(i as int));
        assert(all.take(i + 1).last() == lines@[i as int]@);
        let line: String = trim_returns(lines[i].as_str());
        if !is_empty(trim(line.as_str()).as_str()) {
            let ghost before = out@;
            let row: PasteLine = parse_row(line.as_str(), i + 1);
            out.push(row);
            assert(line_views(out@) =~= line_views(before).push(row@));
        }
        i = i + 1;
    }
    assert(all.take(all.len() as int) =~= all);
    out
}

/// Whether row `k` holds a reservation that a later row replaces: one for the same hardware
/// address.
pub open spec fn superseded(lines: Seq<LineView>, k: int) -> bool {
    exists|j: int|
        k < j < lines.len() && lines[k] is Candidate && (#[trigger] lines[j]) is Candidate
            && lines[j]->Candidate_reservation.hw == lines[k]->Candidate_reservation.hw
}

/// The first reservation of a list that has the hardware address.
pub open spec fn holder(list: Seq<ReservationView>, hw: Seq<char>, n: nat) -> Option<nat>
    decreases n,
{
    if n == 0 {
        None
    } else {
        match holder(list, hw, (n - 1) as nat) {
            Some(i) => Some(i),
            None => if same_hw(list[n - 1].hw, hw) {
                Some((n - 1) as nat)
            } else {
                None
            },
        }
    }
}

/// What stands against a pasted reservation: all but that its hardware address is known, for then
/// it replaces what is there.
pub open spec fn paste_conflicts(
    subnet: SubnetView,
    working: Seq<ReservationView>,
    candidate: ReservationView,
) -> Seq<Conflict> {
    (range_conflicts(subnet.net, subnet.pools, candidate.ip) + clashes(
        working,
        candidate,
        holder(working, candidate.hw, working.len()),
    )).filter(|c: Conflict| c != Conflict::DuplicateHwAddress)
}

/// How far a plan has come: what became of the rows so far, what changes, and the reservations
/// with these changes made.
#[verifier::ext_equal]
pub struct Progress {
    pub outcomes: Seq<OutcomeView>,
    pub silent_skipped: nat,
    pub mutations: Seq<MutationView>,
    pub working: Seq<ReservationView>,
}

/// What becomes of a row that holds a reservation, in the light of what the rows before it did.
pub open spec fn place(
    subnet: SubnetView,
    p: Progress,
    line_no: nat,
    candidate: ReservationView,
    raw: ColumnsView,
) -> Progress {
    let conflicts = paste_conflicts(subnet, p.working, candidate);
    let outcome = |action: PasteAction, detail: Option<Seq<char>>|
        OutcomeView { line_no, action, reservation: Some(candidate), raw, detail };
    if conflicts.len() > 0 {
        Progress {
            outcomes: p.outcomes.push(outcome(PasteAction::Skip, Some(joined(reasons(conflicts), "；"@)))),
            ..p
        }
    } else {
        match holder(p.working, candidate.hw, p.working.len()) {
            Some(i) => if p.working[i as int] == candidate {
                Progress { outcomes: p.outcomes.push(outcome(PasteAction::NoChange, None)), ..p }
            } else {
                Progress {
                    outcomes: p.outcomes.push(outcome(PasteAction::Update, None)),
                    mutations: p.mutations.push(MutationView::Update { index: i, reservation: candidate }),
                    working: p.working.update(i as int, candidate),
                    ..p
                }
            },
            None => Progress {
                outcomes: p.outcomes.push(outcome(PasteAction::Add, None)),
                mutations: p.mutations.push(MutationView::Add { reservation: candidate }),
                working: p.working.push(candidate),
                ..p
            },
        }
    }
}

/// What row `k` adds to the plan.
pub open spec fn step(subnet: SubnetView, lines: Seq<LineView>, k: int, p: Progress) -> Progress {
    match lines[k] {
        LineView::NotMac => Progress { silent_skipped: p.silent_skipped + 1, ..p },
        LineView::Invalid { line_no, raw, reason } => Progress {
            outcomes: p.outcomes.push(
                OutcomeView { line_no, action: PasteAction::Skip, reservation: None, raw, detail: Some(reason) },
            ),
            ..p
        },
        LineView::Candidate { line_no, reservation, raw } => if superseded(lines, k) {
            p
        } else {
            place(subnet, p, line_no, reservation, raw)
        },
    }
}

/// How far the plan has come after the first `n` rows.
pub open spec fn progress(subnet: SubnetView, lines: Seq<LineView>, n: nat) -> Progress
    decreases n,
{
    if n == 0 {
        Progress {
            outcomes: Seq::empty(),
            silent_skipped: 0,
            mutations: Seq::empty(),
            working: subnet.reservations,
        }
    } else {
        step(subnet, lines, n - 1, progress(subnet, lines, (n - 1) as nat))
    }
}

/// Whether two reservations of a list have a hostname.
pub open spec fn shared_hostname(list: Seq<ReservationView>, hostname: Seq<char>) -> bool {
    exists|i: int, j: int|
        0 <= i < j < list.len() && (#[trigger] list[i]).hostname == Some(hostname) && (#[trigger] list[j]).hostname
            == Some(hostname)
}

/// The hostname of an outcome, where the row was not skipped and has one.
pub open spec fn placed_hostname(o: OutcomeView) -> Option<Seq<char>> {
    match o.reservation {
        Some(r) => match r.hostname {
            Some(h) => if h.len() > 0 && o.action != PasteAction::Skip {
                Some(h)
            } else {
                None
            },
            None => None,
        },
        None => None,
    }
}

/// The hostnames of the rows that were not skipped and that are not unique in the end, each once.
pub open spec fn shared_hostnames(outcomes: Seq<OutcomeView>, working: Seq<ReservationView>) -> Seq<Seq<char>>
    decreases outcomes.len(),
{
    if outcomes.len() == 0 {
        Seq::empty()
    } else {
        let before = shared_hostnames(outcomes.drop_last(), working);
        match placed_hostname(outcomes.last()) {
            Some(h) => if shared_hostname(working, h) && !before.contains(h) {
                before.push(h)
            } else {
                before
            },
            None => before,
        }
    }
}

/// The plan for pasting rows into a subnet.
pub open spec fn plan_of(subnet: SubnetView, lines: Seq<LineView>) -> PlanView {
    let p = progress(subnet, lines, lines.len());
    PlanView {
        outcomes: p.outcomes,
        silent_skipped: p.silent_skipped,
        mutations: p.mutations,
        warn_hostnames: shared_hostnames(p.outcomes, p.working),
    }
}

/// The first reservation of a list that has the hardware address.
fn find_holder(list: &Vec<Reservation>, hw: &str) -> (r: Option<usize>)
    ensures
        edit_of(r) == holder(views(list@), hw@, list@.len()),
        r is Some ==> r->0 < list@.len(),
{
    let ghost all = views(list@);
    let mut i: usize = 0;
    while i < list.len()
        invariant
            i <= list@.len(),
            all == views(list@),
            holder(all, hw@, i as nat) is None,
        decreases list@.len() - i,
    {
        if same_ignoring_case(list[i].hw_address.as_str(), hw) {
            proof {
                lemma_holder_stays(all, hw@, (i + 1) as nat, list@.len());
            }
            return Some(i);
        }
        i = i + 1;
    }
    None
}

/// Once a reservation with the hardware address is found, those that follow do not count.
proof fn lemma_holder_stays(list: Seq<ReservationView>, hw: Seq<char>, m: nat, n: nat)
    requires
        m <= n,
        holder(list, hw, m) is Some,
    ensures
        holder(list, hw, n) == holder(list, hw, m),
    decreases n,
{
    if m < n {
        lemma_holder_stays(list, hw, m, (n - 1) as nat);
    }
}

/// Whether row `k` holds a reservation that a later row replaces.
fn is_superseded(lines: &Vec<PasteLine>, k: usize, hw: &str) -> (r: bool)
    requires
        k < lines@.len(),
        lines@[k as int]@ is Candidate,
        lines@[k as int]@->Candidate_reservation.hw == hw@,
    ensures
        r == superseded(line_views(lines@), k as int),
{
    let ghost all = line_views(lines@);
    let n: usize = lines.len();
    let mut j: usize = k + 1;
    while j < n
        invariant
            n == lines@.len(),
            k < j <= lines@.len(),
            all == line_views(lines@),
            all[k as int] is Candidate,
            all[k as int]->Candidate_reservation.hw == hw@,
            forall|i: int|
                k < i < j ==> !((#[trigger] all[i]) is Candidate && all[i]->Candidate_reservation.hw == hw@),
        decreases lines@.len() - j,
    {
        let hit: bool = match &lines[j] {
            PasteLine::Candidate { reservation, .. } => same(reservation.hw_address.as_str(), hw),
            _ => false,
        };
        assert(all[j as int] == lines@[j as int]@);
        if hit {
            return true;
        }
        j = j + 1;
    }
    false
}

/// The conflicts, without those of the hardware address.
fn without_duplicates(conflicts: &Vec<Conflict>) -> (r: Vec<Conflict>)
    ensures
        r@ == conflicts@.filter(|c: Conflict| c != Conflict::DuplicateHwAddress),
{
    let ghost keep = |c: Conflict| c != Conflict::DuplicateHwAddress;
    let mut out: Vec<Conflict> = Vec::new();
    let mut i: usize = 0;
    reveal(Seq::filter);
    assert(conflicts@.take(0).filter(keep) =~= Seq::<Conflict>::empty());
    while i < conflicts.len()
        invariant
            i <= conflicts@.len(),
            keep == (|c: Conflict| c != Conflict::DuplicateHwAddress),
            out@ == conflicts@.take(i as int).filter(keep),
        decreases conflicts@.len() - i,
    {
        reveal(Seq::filter);
        assert(conflicts@.take(i + 1).drop_last() =~= conflicts@.take(i as int));
        if conflicts[i] != Conflict::DuplicateHwAddress {
            out.push(conflicts[i]);
        }
        i = i + 1;
    }
    assert(conflicts@.take(conflicts@.len() as int) =~= conflicts@);
    out
}

/// How far a plan has come.
struct Work {
    outcomes: Vec<PasteOutcome>,
    silent_skipped: usize,
    mutations: Vec<PasteMutation>,
    working: Vec<Reservation>,
}

impl View for Work {
    type V = Progress;

    closed spec fn view(&self) -> Progress {
        Progress {
            outcomes: outcome_views(self.outcomes@),
            silent_skipped: self.silent_skipped as nat,
            mutations: mutation_views(self.mutations@),
            working: views(self.working@),
        }
    }
}

/// Decides what becomes of a row that holds a reservation.
fn place_candidate(
    subnet: &Subnet,
    work: &mut Work,
    line_no: usize,
    candidate: &Reservation,
    raw: &RawPasteColumns,
)
    ensures
        final(work)@ == place(subnet@, old(work)@, line_no as nat, candidate@, raw@),
{
    let ghost before = work@;
    let existing: Option<usize> = find_holder(&work.working, candidate.hw_address.as_str());
    let mut conflicts: Vec<Conflict> = check_ranges(subnet, candidate.ip_address);
    let mut others: Vec<Conflict> = reservation_conflicts(&work.working, candidate, existing);
    conflicts.append(&mut others);
    let conflicts: Vec<Conflict> = without_duplicates(&conflicts);
    let mut action: PasteAction = PasteAction::Skip;
    let mut detail: Option<String> = None;
    if conflicts.len() > 0 {
        let texts: Vec<String> = conflict_reasons(conflicts.as_slice());
        detail = Some(join(&texts, "；"));
    } else {
        match existing {
            Some(i) => {
                assert(before.working[i as int] == work.working@[i as int]@);
                if same_reservation(&work.working[i], candidate) {
                    action = PasteAction::NoChange;
                } else {
                    action = PasteAction::Update;
                    let entry: Reservation = candidate.clone();
                    work.working.set(i, entry);
                    assert(views(work.working@) =~= before.working.update(i as int, candidate@));
                    let change: PasteMutation = PasteMutation::Update { index: i, reservation: candidate.clone() };
                    work.mutations.push(change);
                    assert(mutation_views(work.mutations@) =~= before.mutations.push(change@));
                }
            },
            None => {
                action = PasteAction::Add;
                let entry: Reservation = candidate.clone();
                work.working.push(entry);
                assert(views(work.working@) =~= before.working.push(candidate@));
                let change: PasteMutation = PasteMutation::Add { reservation: candidate.clone() };
                work.mutations.push(change);
                assert(mutation_views(work.mutations@) =~= before.mutations.push(change@));
            },
        }
    }
    let outcome: PasteOutcome = PasteOutcome {
        line_no,
        action,
        reservation: Some(candidate.clone()),
        raw: raw.clone(),
        detail,
    };
    work.outcomes.push(outcome);
    assert(outcome_views(work.outcomes@) =~= before.outcomes.push(outcome@));
    assert(work@ =~= place(subnet@, before, line_no as nat, candidate@, raw@));
}

/// Whether two reservations of a list have a hostname.
fn is_shared(list: &Vec<Reservation>, hostname: &str) -> (r: bool)
    ensures
        r == shared_hostname(views(list@), hostname@),
{
    let ghost all = views(list@);
    let mut first: Option<usize> = None;
    let mut i: usize = 0;
    while i < list.len()
        invariant
            i <= list@.len(),
            all == views(list@),
            first is Some ==> first->0 < i && all[first->0 as int].hostname == Some(hostname@),
            forall|j: int|
                0 <= j < i && (#[trigger] all[j]).hostname == Some(hostname@) ==> first is Some && first->0 == j,
        decreases list@.len() - i,
    {
        let hit: bool = match &list[i].hostname {
            Some(h) => same(h.as_str(), hostname),
            None => false,
        };
        assert(all[i as int] == list@[i as int]@);
        if hit {
            match first {
                Some(f) => {
                    assert(all[f as int].hostname == Some(hostname@));
                    return true;
                },
                None => {
                    first = Some(i);
                },
            }
        }
        i = i + 1;
    }
    false
}

/// The hostnames to warn about.
fn warnings(outcomes: &Vec<PasteOutcome>, working: &Vec<Reservation>) -> (r: Vec<String>)
    ensures
        texts(r@) == shared_hostnames(outcome_views(outcomes@), views(working@)),
{
    let ghost all = outcome_views(outcomes@);
    let mut out: Vec<String> = Vec::new();
    let mut i: usize = 0;
    assert(texts(out@) =~= shared_hostnames(all.take(0), views(working@)));
    while i < outcomes.len()
        invariant
            i <= outcomes@.len(),
            all == outcome_views(outcomes@),
            texts(out@) == shared_hostnames(all.take(i as int), views(working@)),
        decreases outcomes@.len() - i,
    {
        assert(all.take(i + 1).drop_last() =~= all.take(i as int));
        assert(all.take(i + 1).last() == outcomes@[i as int]@);
        let o: &PasteOutcome = &outcomes[i];
        match &o.reservation {
            Some(r) => match &r.hostname {
                Some(h) => {
                    if !is_empty(h.as_str()) && o.action != PasteAction::Skip && is_shared(working, h.as_str())
                        && !is_listed(&out, h.as_str()) {
                        let ghost before = out@;
                        out.push(h.clone());
                        assert(texts(out@) =~= texts(before).push(h@));
                    }
                },
                None => {},
            },
            None => {},
        }
        i = i + 1;
    }
    assert(all.take(all.len() as int) =~= all);
    out
}

/// Plans the paste of a text into a subnet: of several rows with one hardware address the last
/// counts, and the rows that are left take their turn in the order of the text. A row whose
/// hardware address is known replaces the reservation that has it; a row whose address is taken,
/// in a pool or out of the subnet is skipped.
pub fn plan_paste(subnet: &Subnet, raw: &str) -> (r: PastePlan)
    ensures
        r@ == plan_of(subnet@, pasted_rows(raw@)),
{
    let lines: Vec<PasteLine> = parse_paste_lines(raw);
    let ghost all = line_views(lines@);
    let mut start: Vec<Reservation> = Vec::new();
    let mut k: usize = 0;
    while k < subnet.reservations.len()
        invariant
            k <= subnet.reservations@.len(),
            views(start@) == views(subnet.reservations@).take(k as int),
        decreases subnet.reservations@.len() - k,
    {
        let ghost before = start@;
        let entry: Reservation = subnet.reservations[k].clone();
        start.push(entry);
        assert(views(start@) =~= views(before).push(entry@));
        assert(views(subnet.reservations@).take(k + 1) =~= views(subnet.reservations@).take(k as int).push(entry@));
        k = k + 1;
    }
    assert(views(start@) =~= subnet@.reservations);
    let mut work: Work = Work { outcomes: Vec::new(), silent_skipped: 0, mutations: Vec::new(), working: start };
    assert(work@ =~= progress(subnet@, all, 0));
    let mut i: usize = 0;
    while i < lines.len()
        invariant
            i <= lines@.len(),
            all == line_views(lines@),
            work@ == progress(subnet@, all, i as nat),
            work.silent_skipped <= i,
        decreases lines@.len() - i,
    {
        assert(all[i as int] == lines@[i as int]@);
        let ghost before = work@;
        proof {
            lemma_skipped_bound(subnet@, all, (i + 1) as nat);
        }
        match &lines[i] {
            PasteLine::NotMac => {
                work.silent_skipped = work.silent_skipped + 1;
                assert(work@ =~= step(subnet@, all, i as int, before));
            },
            PasteLine::Invalid { line_no, raw, reason } => {
                let outcome: PasteOutcome = PasteOutcome {
                    line_no: *line_no,
                    action: PasteAction::Skip,
                    reservation: None,
                    raw: raw.clone(),
                    detail: Some(reason.clone()),
                };
                work.outcomes.push(outcome);
                assert(outcome_views(work.outcomes@) =~= before.outcomes.push(outcome@));
                assert(work@ =~= step(subnet@, all, i as int, before));
            },
            PasteLine::Candidate { line_no, reservation, raw } => {
                if !is_superseded(&lines, i, reservation.hw_address.as_str()) {
                    place_candidate(subnet, &mut work, *line_no, reservation, raw);
                }
            },
        }
        assert(work@ == step(subnet@, all, i as int, before));
        i = i + 1;
    }
    let warn_hostnames: Vec<String> = warnings(&work.outcomes, &work.working);
    PastePlan {
        outcomes: work.outcomes,
        silent_skipped: work.silent_skipped,
        mutations: work.mutations,
        warn_hostnames,
    }
}

/// No more rows are passed over than there are.
proof fn lemma_skipped_bound(subnet: SubnetView, lines: Seq<LineView>, n: nat)
    ensures
        progress(subnet, lines, n).silent_skipped <= n,
    decreases n,
{
    if n > 0 {
        lemma_skipped_bound(subnet, lines, (n - 1) as nat);
    }
}

/// A list with a change made to it.
pub open spec fn changed(list: Seq<ReservationView>, m: MutationView) -> Seq<ReservationView> {
    match m {
        MutationView::Update { index, reservation } => list.update(index as int, reservation),
        MutationView::Add { reservation } => list.push(reservation),
    }
}

/// A list with changes made to it, one after the other.
pub open spec fn all_changed(list: Seq<ReservationView>, m: Seq<MutationView>) -> Seq<ReservationView>
    decreases m.len(),
{
    if m.len() == 0 {
        list
    } else {
        changed(all_changed(list, m.drop_last()), m.last())
    }
}

/// The reservations once a paste is written.
pub open spec fn after_paste(subnet: SubnetView, lines: Seq<LineView>) -> Seq<ReservationView> {
    progress(subnet, lines, lines.len()).working
}

/// The reservations of the rows that a plan adds or updates.
pub open spec fn written(outcomes: Seq<OutcomeView>) -> Seq<ReservationView>
    decreases outcomes.len(),
{
    if outcomes.len() == 0 {
        Seq::empty()
    } else {
        let before = written(outcomes.drop_last());
        let o = outcomes.last();
        if o.action == PasteAction::Add || o.action == PasteAction::Update {
            before.push(o.reservation->0)
        } else {
            before
        }
    }
}

/// The reservation of a change.
pub open spec fn target(m: MutationView) -> ReservationView {
    match m {
        MutationView::Update { reservation, .. } => reservation,
        MutationView::Add { reservation } => reservation,
    }
}

/// Where the first reservation with a hardware address stands.
pub proof fn lemma_holder(list: Seq<ReservationView>, hw: Seq<char>, n: nat)
    requires
        n <= list.len(),
    ensures
        holder(list, hw, n) is None ==> forall|i: int| 0 <= i < n ==> !same_hw((#[trigger] list[i]).hw, hw),
        holder(list, hw, n) is Some ==> holder(list, hw, n)->0 < n && same_hw(
            list[holder(list, hw, n)->0 as int].hw,
            hw,
        ),
    decreases n,
{
    if n > 0 {
        lemma_holder(list, hw, (n - 1) as nat);
    }
}

/// What nothing stands against lies in the network and in no pool, and no other reservation has
/// its address.
pub proof fn lemma_no_paste_conflict(subnet: SubnetView, working: Seq<ReservationView>, candidate: ReservationView)
    requires
        paste_conflicts(subnet, working, candidate).len() == 0,
    ensures
        in_net(subnet.net.addr, subnet.net.prefix, candidate.ip),
        !in_pool(subnet.pools, candidate.ip),
        forall|i: int|
            0 <= i < working.len() && !edited(holder(working, candidate.hw, working.len()), i) ==> (
            #[trigger] working[i]).ip != candidate.ip,
{
    broadcast use vstd::seq_lib::group_filter_ensures;

    let keep = |c: Conflict| c != Conflict::DuplicateHwAddress;
    let ranges = range_conflicts(subnet.net, subnet.pools, candidate.ip);
    let edit = holder(working, candidate.hw, working.len());
    let all = ranges + clashes(working, candidate, edit);
    assert forall|i: int| 0 <= i < all.len() implies #[trigger] all[i] == Conflict::DuplicateHwAddress by {
        if keep(all[i]) {
            assert(all.filter(keep).contains(all[i]));
        }
    }
    if !in_net(subnet.net.addr, subnet.net.prefix, candidate.ip) {
        assert(all[0] == Conflict::IpOutOfSubnet);
    }
    if in_pool(subnet.pools, candidate.ip) {
        assert(all[ranges.len() - 1] == Conflict::IpInPool);
    }
    assert forall|i: int| 0 <= i < working.len() && !edited(edit, i) implies (#[trigger] working[i]).ip
        != candidate.ip by {
        if working[i].ip == candidate.ip {
            lemma_clash_in_use(working, candidate, edit, i);
            let k = choose|k: int|
                0 <= k < clashes(working, candidate, edit).len() && clashes(working, candidate, edit)[k]
                    == Conflict::IpInUse;
            assert(all[ranges.len() + k] == Conflict::IpInUse);
        }
    }
}

/// A reservation with the candidate's address says so.
pub proof fn lemma_clash_in_use(
    list: Seq<ReservationView>,
    candidate: ReservationView,
    edit: Option<nat>,
    i: int,
)
    requires
        0 <= i < list.len(),
        !edited(edit, i),
        list[i].ip == candidate.ip,
    ensures
        clashes(list, candidate, edit).contains(Conflict::IpInUse),
    decreases list.len(),
{
    let before = clashes(list.drop_last(), candidate, edit);
    let after = clashes(list, candidate, edit);
    if i < list.len() - 1 {
        lemma_clash_in_use(list.drop_last(), candidate, edit, i);
        let k = choose|k: int| 0 <= k < before.len() && before[k] == Conflict::IpInUse;
        assert(after[k] == Conflict::IpInUse);
    } else {
        assert(after[after.len() - 1] == Conflict::IpInUse);
    }
}

/// The changes of a plan, made to the subnet's reservations one after the other, give the
/// reservations that the plan was checked against.
pub proof fn law_mutations_give_the_result(subnet: SubnetView, lines: Seq<LineView>)
    ensures
        all_changed(subnet.reservations, plan_of(subnet, lines).mutations) == after_paste(subnet, lines),
{
    lemma_mutations_give(subnet, lines, lines.len());
}

pub proof fn lemma_mutations_give(subnet: SubnetView, lines: Seq<LineView>, n: nat)
    ensures
        all_changed(subnet.reservations, progress(subnet, lines, n).mutations) == progress(subnet, lines, n).working,
    decreases n,
{
    if n > 0 {
        let p = progress(subnet, lines, (n - 1) as nat);
        let q = progress(subnet, lines, n);
        lemma_mutations_give(subnet, lines, (n - 1) as nat);
        if q.mutations.len() > p.mutations.len() {
            assert(q.mutations.drop_last() =~= p.mutations);
        }
    }
}

/// The changes are those of the rows that are added or updated, in their order: a row that is
/// skipped, or that changes nothing, leaves the reservations alone.
pub proof fn law_only_written_rows_change(subnet: SubnetView, lines: Seq<LineView>)
    ensures
        plan_of(subnet, lines).mutations.map_values(|m: MutationView| target(m)) == written(
            plan_of(subnet, lines).outcomes,
        ),
{
    lemma_only_written(subnet, lines, lines.len());
}

proof fn lemma_only_written(subnet: SubnetView, lines: Seq<LineView>, n: nat)
    ensures
        progress(subnet, lines, n).mutations.map_values(|m: MutationView| target(m)) == written(
            progress(subnet, lines, n).outcomes,
        ),
    decreases n,
{
    let q = progress(subnet, lines, n);
    let f = |m: MutationView| target(m);
    if n == 0 {
        assert(q.mutations.map_values(f) =~= written(q.outcomes));
    } else {
        let p = progress(subnet, lines, (n - 1) as nat);
        lemma_only_written(subnet, lines, (n - 1) as nat);
        if q.outcomes.len() > p.outcomes.len() {
            assert(q.outcomes.drop_last() =~= p.outcomes);
        }
        if q.mutations.len() > p.mutations.len() {
            assert(q.mutations.map_values(f) =~= p.mutations.map_values(f).push(target(q.mutations.last())));
        }
    }
}

/// Every reservation that a paste writes lies in the subnet's network and in none of its pools.
pub proof fn law_paste_writes_in_range(subnet: SubnetView, lines: Seq<LineView>)
    ensures
        forall|i: int|
            0 <= i < plan_of(subnet, lines).mutations.len() ==> in_net(
                subnet.net.addr,
                subnet.net.prefix,
                target(#[trigger] plan_of(subnet, lines).mutations[i]).ip,
            ) && !in_pool(subnet.pools, target(plan_of(subnet, lines).mutations[i]).ip),
{
    lemma_paste_in_range(subnet, lines, lines.len());
}

proof fn lemma_paste_in_range(subnet: SubnetView, lines: Seq<LineView>, n: nat)
    ensures
        forall|i: int|
            0 <= i < progress(subnet, lines, n).mutations.len() ==> in_net(
                subnet.net.addr,
                subnet.net.prefix,
                target(#[trigger] progress(subnet, lines, n).mutations[i]).ip,
            ) && !in_pool(subnet.pools, target(progress(subnet, lines, n).mutations[i]).ip),
    decreases n,
{
    if n > 0 {
        let p = progress(subnet, lines, (n - 1) as nat);
        let q = progress(subnet, lines, n);
        lemma_paste_in_range(subnet, lines, (n - 1) as nat);
        if lines[n - 1] is Candidate {
            let c = lines[n - 1]->Candidate_reservation;
            if paste_conflicts(subnet, p.working, c).len() == 0 {
                lemma_no_paste_conflict(subnet, p.working, c);
            }
        }
        assert forall|i: int| 0 <= i < q.mutations.len() implies in_net(
            subnet.net.addr,
            subnet.net.prefix,
            target(#[trigger] q.mutations[i]).ip,
        ) && !in_pool(subnet.pools, target(q.mutations[i]).ip) by {
            if i < p.mutations.len() {
                assert(q.mutations[i] == p.mutations[i]);
            }
        }
    }
}

/// The number of a row that is not passed over.
pub open spec fn row_number(l: LineView) -> nat {
    match l {
        LineView::NotMac => 0,
        LineView::Invalid { line_no, .. } => line_no,
        LineView::Candidate { line_no, .. } => line_no,
    }
}

/// Whether the numbers of the rows ascend.
pub open spec fn rows_ascend(lines: Seq<LineView>) -> bool {
    forall|i: int, j: int|
        0 <= i < j < lines.len() && !(lines[i] is NotMac) && !(lines[j] is NotMac) ==> row_number(
            #[trigger] lines[i],
        ) < row_number(#[trigger] lines[j])
}

/// The rows of a text are numbered in their order, from one on.
pub proof fn law_rows_ascend(raw: Seq<char>)
    ensures
        rows_ascend(pasted_rows(raw)),
{
    lemma_rows_ascend(split_on(raw, '\n'));
}

proof fn lemma_rows_ascend(lines: Seq<Seq<char>>)
    ensures
        rows_ascend(rows_of(lines)),
        forall|i: int| 0 <= i < rows_of(lines).len() ==> row_number(#[trigger] rows_of(lines)[i]) <= lines.len(),
        forall|i: int|
            0 <= i < rows_of(lines).len() && !(rows_of(lines)[i] is NotMac) ==> 1 <= row_number(
                #[trigger] rows_of(lines)[i],
            ),
    decreases lines.len(),
{
    if lines.len() > 0 {
        lemma_rows_ascend(lines.drop_last());
        let before = rows_of(lines.drop_last());
        let after = rows_of(lines);
        assert forall|i: int| 0 <= i < after.len() implies row_number(#[trigger] after[i]) <= lines.len() && (!(
        after[i] is NotMac) ==> 1 <= row_number(after[i])) by {
            if i < before.len() {
                assert(after[i] == before[i]);
            }
        }
        assert forall|i: int, j: int|
            0 <= i < j < after.len() && !(after[i] is NotMac) && !(after[j] is NotMac) implies row_number(
            #[trigger] after[i],
        ) < row_number(#[trigger] after[j]) by {
            assert(after[i] == before[i]);
            if j < before.len() {
                assert(after[j] == before[j]);
            }
        }
    }
}

/// The outcomes of a plan stand in the order of their rows, one for each row.
pub proof fn law_outcomes_in_row_order(subnet: SubnetView, lines: Seq<LineView>)
    requires
        rows_ascend(lines),
    ensures
        forall|i: int, j: int|
            0 <= i < j < plan_of(subnet, lines).outcomes.len() ==> (#[trigger] plan_of(
                subnet,
                lines,
            ).outcomes[i]).line_no < (#[trigger] plan_of(subnet, lines).outcomes[j]).line_no,
{
    lemma_outcomes_order(subnet, lines, lines.len());
}

/// Each outcome comes from a row among the first `n`.
pub open spec fn from_row(o: OutcomeView, lines: Seq<LineView>, n: nat) -> bool {
    exists|k: int| 0 <= k < n && comes_from(o, lines, k)
}

/// Whether an outcome is that of row `k`.
pub open spec fn comes_from(o: OutcomeView, lines: Seq<LineView>, k: int) -> bool {
    match lines[k] {
        LineView::NotMac => false,
        LineView::Invalid { line_no, raw, reason } => o.line_no == line_no && o.raw == raw && o.reservation is None
            && o.action == PasteAction::Skip && o.detail == Some(reason),
        LineView::Candidate { line_no, reservation, raw } => o.line_no == line_no && o.raw == raw && o.reservation
            == Some(reservation) && !superseded(lines, k),
    }
}

proof fn lemma_outcomes_order(subnet: SubnetView, lines: Seq<LineView>, n: nat)
    requires
        n <= lines.len(),
        rows_ascend(lines),
    ensures
        forall|i: int, j: int|
            0 <= i < j < progress(subnet, lines, n).outcomes.len() ==> (#[trigger] progress(
                subnet,
                lines,
                n,
            ).outcomes[i]).line_no < (#[trigger] progress(subnet, lines, n).outcomes[j]).line_no,
    decreases n,
{
    if n > 0 {
        let p = progress(subnet, lines, (n - 1) as nat);
        let q = progress(subnet, lines, n);
        lemma_outcomes_order(subnet, lines, (n - 1) as nat);
        lemma_outcomes_from(subnet, lines, (n - 1) as nat);
        assert forall|i: int, j: int| 0 <= i < j < q.outcomes.len() implies (#[trigger] q.outcomes[i]).line_no < (
        #[trigger] q.outcomes[j]).line_no by {
            assert(q.outcomes[i] == p.outcomes[i]);
            if j < p.outcomes.len() {
                assert(q.outcomes[j] == p.outcomes[j]);
            } else {
                assert(from_row(p.outcomes[i], lines, (n - 1) as nat));
                let k = choose|k: int| 0 <= k < n - 1 && comes_from(p.outcomes[i], lines, k);
                assert(row_number(lines[k]) < row_number(lines[n - 1]));
            }
        }
    }
}

pub proof fn lemma_outcomes_from(subnet: SubnetView, lines: Seq<LineView>, n: nat)
    ensures
        forall|i: int|
            0 <= i < progress(subnet, lines, n).outcomes.len() ==> from_row(
                #[trigger] progress(subnet, lines, n).outcomes[i],
                lines,
                n,
            ),
    decreases n,
{
    if n > 0 {
        let p = progress(subnet, lines, (n - 1) as nat);
        let q = progress(subnet, lines, n);
        lemma_outcomes_from(subnet, lines, (n - 1) as nat);
        assert forall|i: int| 0 <= i < q.outcomes.len() implies from_row(#[trigger] q.outcomes[i], lines, n) by {
            if i < p.outcomes.len() {
                assert(q.outcomes[i] == p.outcomes[i]);
                assert(from_row(p.outcomes[i], lines, (n - 1) as nat));
                let k = choose|k: int| 0 <= k < n - 1 && comes_from(p.outcomes[i], lines, k);
                assert(comes_from(q.outcomes[i], lines, k));
            } else {
                assert(comes_from(q.outcomes[i], lines, n - 1));
            }
        }
    }
}

/// Every outcome is that of a row, and of several rows with one hardware address only the last
/// has one.
pub proof fn law_last_row_wins(subnet: SubnetView, lines: Seq<LineView>, i: int)
    requires
        0 <= i < plan_of(subnet, lines).outcomes.len(),
    ensures
        from_row(plan_of(subnet, lines).outcomes[i], lines, lines.len()),
        plan_of(subnet, lines).outcomes[i].reservation is Some ==> exists|k: int|
            0 <= k < lines.len() && comes_from(plan_of(subnet, lines).outcomes[i], lines, k) && (forall|j: int|
                k < j < lines.len() && (#[trigger] lines[j]) is Candidate ==> lines[j]->Candidate_reservation.hw
                    != plan_of(subnet, lines).outcomes[i].reservation->0.hw),
{
    lemma_outcomes_from(subnet, lines, lines.len());
    let o = plan_of(subnet, lines).outcomes[i];
    assert(from_row(o, lines, lines.len()));
    if o.reservation is Some {
        let k = choose|k: int| 0 <= k < lines.len() && comes_from(o, lines, k);
        assert(comes_from(o, lines, k));
        assert(!superseded(lines, k));
    }
}

} // verus!
