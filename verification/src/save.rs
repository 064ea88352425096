//! Saving: a configuration is written to its file step by step. First a backup of the file is made
//! and old backups are removed; then the text is written to a temporary file, which takes the
//! place of the file.
use vstd::prelude::*;
use vstd::string::*;

use crate::backup::{backup, backup_name, backups_among, expired, expired_backups};
use crate::error::{error, KeaError};
use crate::file::temporary_name;
use crate::json::document;
use crate::state::AppState;
use crate::text::texts;

verus! {

/// What is to be saved, and under which name.
#[derive(Debug)]
pub struct SaveJob {
    /// The name of the file in its directory.
    pub file_name: String,
    /// How many backups stay.
    pub keep: usize,
    /// What the file is to hold.
    pub text: String,
}

/// What is to be saved, and under which name.
#[verifier::ext_equal]
pub struct JobView {
    pub file_name: Seq<char>,
    pub keep: nat,
    pub text: Seq<char>,
}

impl View for SaveJob {
    type V = JobView;

    open spec fn view(&self) -> JobView {
        JobView { file_name: self.file_name@, keep: self.keep as nat, text: self.text@ }
    }
}

/// What happened since the last step. Where something failed, the text names the file that it
/// failed on, or says why.
#[derive(Debug)]
pub enum Progress {
    /// It was seen whether the file is there, and what time it is.
    Begun { exists: bool, now: Result<u64, String> },
    /// The file was copied to its backup.
    Copied(Result<(), String>),
    /// The names in the directory were listed.
    Listed(Result<Vec<String>, String>),
    /// The old backups were removed, as far as they could be.
    Removed,
    /// The temporary file was written.
    Written(Result<(), String>),
    /// The temporary file took the place of the file.
    Replaced(Result<(), String>),
}

/// What happened since the last step.
pub enum ProgressView {
    Begun { exists: bool, now: Result<u64, Seq<char>> },
    Copied(Result<(), Seq<char>>),
    Listed(Result<Seq<Seq<char>>, Seq<char>>),
    Removed,
    Written(Result<(), Seq<char>>),
    Replaced(Result<(), Seq<char>>),
}

/// Whether something was done, by content.
pub open spec fn done_view(r: Result<(), String>) -> Result<(), Seq<char>> {
    match r {
        Ok(_) => Ok(()),
        Err(e) => Err(e@),
    }
}

impl View for Progress {
    type V = ProgressView;

    open spec fn view(&self) -> ProgressView {
        match self {
            Progress::Begun { exists, now } => ProgressView::Begun {
                exists: *exists,
                now: match now {
                    Ok(t) => Ok(*t),
                    Err(e) => Err(e@),
                },
            },
            Progress::Copied(r) => ProgressView::Copied(done_view(*r)),
            Progress::Listed(r) => ProgressView::Listed(
                match r {
                    Ok(names) => Ok(texts(names@)),
                    Err(e) => Err(e@),
                },
            ),
            Progress::Removed => ProgressView::Removed,
            Progress::Written(r) => ProgressView::Written(done_view(*r)),
            Progress::Replaced(r) => ProgressView::Replaced(done_view(*r)),
        }
    }
}

/// What has to be done next.
#[derive(Debug)]
pub enum Step {
    /// To copy the file to a backup of this name.
    Copy { to: String },
    /// To list the names in the directory.
    List,
    /// To remove these backups.
    Remove { names: Vec<String> },
    /// To write the text to a file of this name.
    Write { to: String, text: String },
    /// To let the file of this name take the place of the file.
    Replace { from: String },
    /// Nothing: the text is saved, or it could not be.
    Finish(Result<(), KeaError>),
}

/// What has to be done next.
#[verifier::ext_equal]
pub enum StepView {
    Copy { to: Seq<char> },
    List,
    Remove { names: Seq<Seq<char>> },
    Write { to: Seq<char>, text: Seq<char> },
    Replace { from: Seq<char> },
    Finish(Result<(), Seq<char>>),
}

impl View for Step {
    type V = StepView;

    open spec fn view(&self) -> StepView {
        match self {
            Step::Copy { to } => StepView::Copy { to: to@ },
            Step::List => StepView::List,
            Step::Remove { names } => StepView::Remove { names: texts(names@) },
            Step::Write { to, text } => StepView::Write { to: to@, text: text@ },
            Step::Replace { from } => StepView::Replace { from: from@ },
            Step::Finish(r) => StepView::Finish(
                match r {
                    Ok(_) => Ok(()),
                    Err(e) => Err(e.message@),
                },
            ),
        }
    }
}

/// The name of the temporary file.
pub open spec fn temporary(file_name: Seq<char>) -> Seq<char> {
    "."@ + file_name + ".tmp"@
}

/// Saving ends without success.
pub open spec fn failed(message: Seq<char>) -> StepView {
    StepView::Finish(Err(message))
}

/// The step that writes the text.
pub open spec fn writing(job: JobView) -> StepView {
    StepView::Write { to: temporary(job.file_name), text: job.text }
}

/// What has to be done next, after what happened.
pub open spec fn next_of(job: JobView, e: ProgressView) -> StepView {
    match e {
        ProgressView::Begun { exists, now } => if !exists {
            writing(job)
        } else {
            match now {
                Ok(t) => StepView::Copy { to: backup_name(job.file_name, t as nat) },
                Err(m) => failed("取得時間失敗: "@ + m),
            }
        },
        ProgressView::Copied(Ok(_)) => StepView::List,
        ProgressView::Copied(Err(path)) => failed("建立備份失敗: "@ + path),
        ProgressView::Listed(Ok(names)) => StepView::Remove {
            names: expired(backups_among(job.file_name, names), job.keep),
        },
        ProgressView::Listed(Err(m)) => failed(m),
        ProgressView::Removed => writing(job),
        ProgressView::Written(Ok(_)) => StepView::Replace { from: temporary(job.file_name) },
        ProgressView::Written(Err(path)) => failed("寫入暫存檔失敗: "@ + path),
        ProgressView::Replaced(Ok(_)) => StepView::Finish(Ok(())),
        ProgressView::Replaced(Err(path)) => failed("替換設定檔失敗: "@ + path),
    }
}

/// What is to be saved of the state of the tool: the configuration in memory.
pub fn save_job(st: &AppState, file_name: &str) -> (r: SaveJob)
    ensures
        r@ == (JobView { file_name: file_name@, keep: st@.backup_keep as nat, text: document(st@.file) }),
{
    SaveJob { file_name: file_name.to_owned(), keep: st.backup_keep, text: st.file.save() }
}

/// The end of a job that failed, with words before what it failed on.
fn fail(words: &str, what: &str) -> (r: Step)
    ensures
        r@ == failed(words@ + what@),
{
    let mut message: String = words.to_owned();
    message.append(what);
    Step::Finish(Err(KeaError { message }))
}

/// The step that writes the text.
fn write_text(job: &SaveJob) -> (r: Step)
    ensures
        r@ == writing(job@),
{
    Step::Write { to: temporary_name(job.file_name.as_str()), text: job.text.clone() }
}

/// Takes a step: what happened since the last one is noted, and the result says what has to be done
/// next.
pub fn next_step(job: &SaveJob, e: Progress) -> (r: Step)
    ensures
        r@ == next_of(job@, e@),
{
    match e {
        Progress::Begun { exists, now } => {
            let seconds: u64 = match now {
                Ok(t) => t,
                Err(m) => {
                    return if exists {
                        fail("取得時間失敗: ", m.as_str())
                    } else {
                        write_text(job)
                    };
                },
            };
            match backup(exists, job.file_name.as_str(), seconds) {
                Some(to) => Step::Copy { to },
                None => write_text(job),
            }
        },
        Progress::Copied(Ok(_)) => Step::List,
        Progress::Copied(Err(path)) => fail("建立備份失敗: ", path.as_str()),
        Progress::Listed(Ok(names)) => Step::Remove {
            names: expired_backups(job.file_name.as_str(), &names, job.keep),
        },
        Progress::Listed(Err(m)) => Step::Finish(Err(error(m.as_str()))),
        Progress::Removed => write_text(job),
        Progress::Written(Ok(_)) => Step::Replace { from: temporary_name(job.file_name.as_str()) },
        Progress::Written(Err(path)) => fail("寫入暫存檔失敗: ", path.as_str()),
        Progress::Replaced(Ok(_)) => Step::Finish(Ok(())),
        Progress::Replaced(Err(path)) => fail("替換設定檔失敗: ", path.as_str()),
    }
}

/// Whether something is what can happen where a step is taken.
pub open spec fn answers(step: StepView, e: ProgressView) -> bool {
    match step {
        StepView::Copy { .. } => e is Copied,
        StepView::List => e is Listed,
        StepView::Remove { .. } => e is Removed,
        StepView::Write { .. } => e is Written,
        StepView::Replace { .. } => e is Replaced,
        StepView::Finish(_) => false,
    }
}

/// Whether what happened at a point of the way comes of the step before it.
pub open spec fn follows(job: JobView, way: Seq<ProgressView>, i: int) -> bool {
    answers(next_of(job, way[i - 1]), way[i])
}

/// Whether a job goes this way: it begins with a look at the file, and all that happens then comes
/// of the step before it.
pub open spec fn runs(job: JobView, way: Seq<ProgressView>) -> bool {
    &&& way.len() > 0
    &&& way[0] is Begun
    &&& forall|i: int| 0 < i < way.len() ==> #[trigger] follows(job, way, i)
}

/// However saving goes, where the file is there nothing is written before a backup of it was made,
/// and before the old backups were removed.
pub proof fn law_backup_before_every_write(job: JobView, way: Seq<ProgressView>, i: int)
    requires
        runs(job, way),
        0 <= i < way.len(),
        next_of(job, way[i]) is Write || next_of(job, way[i]) is Replace,
        way[0]->exists,
    ensures
        i >= 3,
        next_of(job, way[0]) == (StepView::Copy { to: backup_name(job.file_name, way[0]->now->Ok_0 as nat) }),
        way[1] is Copied && way[1]->Copied_0 is Ok,
        way[2] is Listed && way[2]->Listed_0 is Ok,
        next_of(job, way[2]) == (StepView::Remove {
            names: expired(backups_among(job.file_name, way[2]->Listed_0->Ok_0), job.keep),
        }),
{
    assert(i != 0);
    assert(follows(job, way, 1));
    assert(way[1] is Copied);
    assert(i != 1);
    assert(follows(job, way, 2));
    assert(way[2] is Listed);
    assert(i != 2);
    assert(follows(job, way, 3));
}

/// However saving goes, the file is replaced only by one that holds the whole text; and saving ends
/// with success only after the file was replaced.
pub proof fn law_file_is_replaced_whole(job: JobView, way: Seq<ProgressView>, i: int)
    requires
        runs(job, way),
        0 <= i < way.len(),
    ensures
        next_of(job, way[i]) is Replace ==> {
            &&& i >= 1
            &&& way[i] is Written && way[i]->Written_0 is Ok
            &&& next_of(job, way[i - 1]) == (StepView::Write { to: next_of(job, way[i])->from, text: job.text })
        },
        next_of(job, way[i]) is Finish && next_of(job, way[i])->Finish_0 is Ok ==> {
            &&& i >= 1
            &&& way[i] is Replaced && way[i]->Replaced_0 is Ok
            &&& next_of(job, way[i - 1]) is Replace
        },
{
    if i >= 1 {
        assert(follows(job, way, i));
    }
}

/// Saving comes to an end: no job takes more than six steps.
pub proof fn law_saving_ends(job: JobView, way: Seq<ProgressView>)
    requires
        runs(job, way),
    ensures
        way.len() <= 6,
{
    if way.len() > 6 {
        assert(follows(job, way, 1));
        assert(follows(job, way, 2));
        assert(follows(job, way, 3));
        assert(follows(job, way, 4));
        assert(follows(job, way, 5));
        assert(follows(job, way, 6));
    }
}

} // verus!
