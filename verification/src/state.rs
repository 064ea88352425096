//! The state of the tool: the configuration in memory, what of it is not applied yet, and how it
//! stands to the file on disk.
use vstd::prelude::*;
use vstd::string::*;

use crate::error::{error, KeaError};
use crate::file::{dhcp4, FileStat, KeaFile};
use crate::html::{escape, escaped, page, page_text};
use crate::json::{parsed, Json};
use crate::number::{dec, decimal};
use crate::text::{opt_text, same};

verus! {

/// What a look at the file on disk gave.
#[derive(Debug, Clone, Copy, PartialEq, Eq, Structural)]
pub enum Refresh {
    /// The file is the one that is known; or the first one that is seen.
    Unchanged,
    /// The file was changed elsewhere, and was loaded: nothing was waiting to be applied.
    Reloaded,
    /// The file was changed elsewhere and cannot be read; what is in memory stays.
    ParseError,
    /// There is no file.
    MissingFile,
    /// The file was changed elsewhere while changes wait to be applied: someone has to decide.
    ExternalChanged,
}

/// The state of the tool.
pub struct AppState {
    pub kea_path: String,
    pub backup_keep: usize,
    pub file: KeaFile,
    /// How many changes were written and are not applied yet.
    pub saves_since_apply: u64,
    /// The file as it was when it was last read or written.
    pub baseline_stat: Option<FileStat>,
}

/// What the state of the tool is.
#[verifier::ext_equal]
pub struct StateView {
    pub kea_path: Seq<char>,
    pub backup_keep: usize,
    pub file: Json,
    pub pending: u64,
    pub baseline: Option<FileStat>,
}

impl View for AppState {
    type V = StateView;

    open spec fn view(&self) -> StateView {
        StateView {
            kea_path: self.kea_path@,
            backup_keep: self.backup_keep,
            file: self.file@,
            pending: self.saves_since_apply,
            baseline: self.baseline_stat,
        }
    }
}

/// What is known of the file on disk; nothing where it is not there, or cannot be looked at.
pub open spec fn seen(stat: Result<Option<FileStat>, KeaError>) -> Option<FileStat> {
    match stat {
        Ok(s) => s,
        Err(_) => None,
    }
}

/// What a configuration from disk holds.
pub open spec fn disk_view(disk: Option<KeaFile>) -> Option<Json> {
    match disk {
        Some(f) => Some(f@),
        None => None,
    }
}

/// Whether a look at the file shows that it was changed elsewhere.
pub open spec fn changed_elsewhere(s: StateView, now: Option<FileStat>) -> bool {
    now is Some && s.baseline is Some && now != s.baseline
}

/// What a look at the file gives, and the state after it. What the file on disk holds counts only
/// where it was changed elsewhere and nothing waits to be applied.
pub open spec fn refreshed(s: StateView, now: Option<FileStat>, disk: Option<Json>) -> (StateView, Refresh) {
    if now is None {
        (s, Refresh::MissingFile)
    } else if s.baseline is None {
        (StateView { baseline: now, ..s }, Refresh::Unchanged)
    } else if now == s.baseline {
        (s, Refresh::Unchanged)
    } else if s.pending > 0 {
        (s, Refresh::ExternalChanged)
    } else {
        match disk {
            Some(j) => (StateView { file: j, baseline: now, ..s }, Refresh::Reloaded),
            None => (s, Refresh::ParseError),
        }
    }
}

/// The known state of the file after it was read or written: a look that fails changes nothing.
pub open spec fn new_baseline(s: StateView, stat: Result<Option<FileStat>, KeaError>) -> Option<FileStat> {
    match stat {
        Ok(now) => now,
        Err(_) => s.baseline,
    }
}

impl AppState {
    /// Takes up work on a configuration. The file is known from now on as it was at that time, so
    /// that no change made elsewhere between then and the first request is missed.
    pub fn load(kea_path: String, backup_keep: usize, text: &str, stat: Result<Option<FileStat>, KeaError>) -> (r:
        Result<AppState, KeaError>)
        ensures
            match (parsed(text@), r) {
                (None, Err(e)) => e.message@ == "設定檔不是合法 JSON"@,
                (Some(j), Err(e)) => dhcp4(j) is None && e.message@ == "設定檔缺少 Dhcp4 區塊"@,
                (Some(j), Ok(s)) => dhcp4(j) is Some && s@ == (StateView {
                    kea_path: kea_path@,
                    backup_keep,
                    file: j,
                    pending: 0,
                    baseline: seen(stat),
                }),
                (None, Ok(_)) => false,
            },
    {
        match KeaFile::load(text) {
            Ok(file) => {
                let baseline_stat: Option<FileStat> = match stat {
                    Ok(s) => s,
                    Err(_) => None,
                };
                Ok(AppState { kea_path, backup_keep, file, saves_since_apply: 0, baseline_stat })
            },
            Err(e) => Err(e),
        }
    }

    /// Whether the file on disk has to be read to go on: it was changed elsewhere, and nothing waits
    /// to be applied.
    pub fn needs_reload(&self, stat: &Result<Option<FileStat>, KeaError>) -> (r: bool)
        ensures
            r == (changed_elsewhere(self@, seen(*stat)) && self@.pending == 0),
            !r ==> forall|disk: Option<Json>|
                #[trigger] refreshed(self@, seen(*stat), disk) == refreshed(self@, seen(*stat), None),
    {
        match stat {
            Ok(Some(now)) => match self.baseline_stat {
                Some(b) => b != *now && self.saves_since_apply == 0,
                None => false,
            },
            _ => false,
        }
    }

    /// Looks at the file. `disk` is what it holds, where it could be read; it counts only where it
    /// has to be read.
    pub fn refresh_external(&mut self, stat: &Result<Option<FileStat>, KeaError>, disk: Option<KeaFile>) -> (r: Refresh)
        ensures
            (final(self)@, r) == refreshed(old(self)@, seen(*stat), disk_view(disk)),
    {
        let now: FileStat = match stat {
            Ok(Some(s)) => *s,
            _ => {
                return Refresh::MissingFile;
            },
        };
        match self.baseline_stat {
            None => {
                self.baseline_stat = Some(now);
                Refresh::Unchanged
            },
            Some(b) => {
                if b == now {
                    Refresh::Unchanged
                } else if self.saves_since_apply > 0 {
                    Refresh::ExternalChanged
                } else {
                    match disk {
                        Some(f) => {
                            self.file = f;
                            self.baseline_stat = Some(now);
                            Refresh::Reloaded
                        },
                        None => Refresh::ParseError,
                    }
                }
            },
        }
    }

    /// Takes what the file on disk holds, and gives up the changes that wait to be applied.
    pub fn adopt_external(&mut self, disk: Option<KeaFile>, stat: Result<Option<FileStat>, KeaError>) -> (r: Result<
        (),
        KeaError,
    >)
        ensures
            match disk {
                Some(f) => r is Ok && final(self)@ == (StateView {
                    file: f@,
                    pending: 0,
                    baseline: new_baseline(old(self)@, stat),
                    ..old(self)@
                }),
                None => r is Err && r->Err_0.message@ == "設定檔不存在或無法解析，無法重新載入外部版本"@
                    && final(self)@ == old(self)@,
            },
    {
        match disk {
            Some(f) => {
                self.file = f;
                self.saves_since_apply = 0;
                match stat {
                    Ok(now) => {
                        self.baseline_stat = now;
                    },
                    Err(_) => {},
                }
                Ok(())
            },
            None => Err(error("設定檔不存在或無法解析，無法重新載入外部版本")),
        }
    }

    /// Notes that what is in memory was written over the file on disk. It does not count as a
    /// change.
    pub fn note_overwritten(&mut self, stat: Result<Option<FileStat>, KeaError>)
        ensures
            final(self)@ == (StateView { baseline: new_baseline(old(self)@, stat), ..old(self)@ }),
    {
        match stat {
            Ok(now) => {
                self.baseline_stat = now;
            },
            Err(_) => {},
        }
    }

    /// Notes that a change was written to the file on disk.
    pub fn note_saved(&mut self, stat: Result<Option<FileStat>, KeaError>)
        requires
            old(self).saves_since_apply < u64::MAX,
        ensures
            final(self)@ == (StateView {
                pending: (old(self)@.pending + 1) as u64,
                baseline: new_baseline(old(self)@, stat),
                ..old(self)@
            }),
    {
        self.saves_since_apply = self.saves_since_apply + 1;
        match stat {
            Ok(now) => {
                self.baseline_stat = now;
            },
            Err(_) => {},
        }
    }

    /// Notes that Kea took the configuration.
    pub fn note_applied(&mut self)
        ensures
            final(self)@ == (StateView { pending: 0, ..old(self)@ }),
    {
        self.saves_since_apply = 0;
    }
}

/// What the tool writes itself it does not take for a change made elsewhere: a look at the file
/// that finds it as it was after the writing finds it unchanged, and changes nothing.
pub proof fn law_own_save_is_no_external_change(s: StateView, now: FileStat, disk: Option<Json>)
    ensures
        ({
            let after = StateView { baseline: new_baseline(s, Ok(Some(now))), ..s };
            refreshed(after, Some(now), disk) == (after, Refresh::Unchanged)
        }),
{
}

/// While changes wait to be applied, no look at the file changes what is in memory.
pub proof fn law_pending_changes_are_never_dropped(s: StateView, now: Option<FileStat>, disk: Option<Json>)
    requires
        s.pending > 0,
    ensures
        refreshed(s, now, disk).0.file == s.file,
        refreshed(s, now, disk).0.pending == s.pending,
        changed_elsewhere(s, now) <==> refreshed(s, now, disk).1 == Refresh::ExternalChanged,
{
}

/// Where nothing waits to be applied, a change made elsewhere is taken over, and the next look finds
/// it known.
pub proof fn law_external_change_is_taken_over(s: StateView, now: FileStat, j: Json, disk: Option<Json>)
    requires
        s.pending == 0,
        changed_elsewhere(s, Some(now)),
    ensures
        refreshed(s, Some(now), Some(j)).1 == Refresh::Reloaded,
        refreshed(s, Some(now), Some(j)).0.file == j,
        refreshed(refreshed(s, Some(now), Some(j)).0, Some(now), disk) == (
            refreshed(s, Some(now), Some(j)).0,
            Refresh::Unchanged,
        ),
{
}

/// A file that is not there, or that cannot be read, leaves the state as it is.
pub proof fn law_lost_file_changes_nothing(s: StateView, now: Option<FileStat>)
    ensures
        refreshed(s, None, None) == (s, Refresh::MissingFile),
        s.baseline is Some ==> refreshed(s, now, None).0 == s,
{
}

/// What a page says about a file that was changed elsewhere; nothing where there is nothing to say.
pub open spec fn banner_text(refresh: Refresh, pending: u64, next: Seq<char>) -> Seq<char> {
    match refresh {
        Refresh::MissingFile => r#"<p class="err"><strong>設定檔已被刪除。</strong>介面仍顯示上次載入的版本；編輯寫回會重建設定檔。</p>"#@,
        Refresh::ParseError => r#"<p class="err"><strong>設定檔已被外部修改且無法解析。</strong>介面仍顯示上次載入的版本。</p>"#@,
        Refresh::ExternalChanged => r#"<p class="warn"><strong>設定檔已被外部修改</strong>（本系統尚有 "#@ + dec(pending as nat) + r#" 筆變更未套用）。先決定以哪一方為準：</p>
<form method="post" action="/external/adopt" class="inline-form">
<input type="hidden" name="next" value=""#@ + escaped(next) + r#"">
<button class="btn" title="捨棄本系統未套用的變更，載入外部版本">捨棄變更重新載入</button>
</form>
<form method="post" action="/external/overwrite" class="inline-form">
<input type="hidden" name="next" value=""#@ + escaped(next) + r#"">
<button class="btn primary" title="以本系統版本覆寫設定檔（未套用變更保留）">以本系統覆寫</button>
</form>"#@,
        _ => Seq::empty(),
    }
}

/// What a page says about a file that was changed elsewhere; nothing where there is nothing to say.
pub fn external_banner_html(refresh: &Refresh, pending: u64, next: &str) -> (r: String)
    ensures
        r@ == banner_text(*refresh, pending, next@),
{
    match refresh {
        Refresh::MissingFile => r#"<p class="err"><strong>設定檔已被刪除。</strong>介面仍顯示上次載入的版本；編輯寫回會重建設定檔。</p>"#.to_owned(),
        Refresh::ParseError => r#"<p class="err"><strong>設定檔已被外部修改且無法解析。</strong>介面仍顯示上次載入的版本。</p>"#.to_owned(),
        Refresh::ExternalChanged => {
            let target: String = escape(next);
            let mut out: String = r#"<p class="warn"><strong>設定檔已被外部修改</strong>（本系統尚有 "#.to_owned();
            out.append(decimal(pending).as_str());
            out.append(r#" 筆變更未套用）。先決定以哪一方為準：</p>
<form method="post" action="/external/adopt" class="inline-form">
<input type="hidden" name="next" value=""#);
            out.append(target.as_str());
            out.append(r#"">
<button class="btn" title="捨棄本系統未套用的變更，載入外部版本">捨棄變更重新載入</button>
</form>
<form method="post" action="/external/overwrite" class="inline-form">
<input type="hidden" name="next" value=""#);
            out.append(target.as_str());
            out.append(r#"">
<button class="btn primary" title="以本系統版本覆寫設定檔（未套用變更保留）">以本系統覆寫</button>
</form>"#);
            out
        },
        _ => String::new(),
    }
}

/// The body of the page that asks whose version is to count, before an operation goes on. Where the
/// operation has a form, its fields are sent again with the decision.
pub open spec fn decision_text(
    action: Seq<char>,
    hidden: Option<Seq<char>>,
    summary: Seq<char>,
    back: Seq<char>,
    pending: u64,
) -> Seq<char> {
    match hidden {
        Some(h) => r#"<div class="bar"><h1 style="margin:0">設定檔已被外部修改</h1></div>
<p class="warn">本系統尚有 "#@ + dec(pending as nat) + r#" 筆變更未套用，但設定檔已被外部修改。先決定以哪一方為準，再繼續本次操作：</p>
<p>"#@ + summary + r#"</p>
<form method="post" action=""#@ + action + r#"">
"#@ + h + r#"
<div class="bar">
<button type="submit" name="external_resolve" value="adopt" class="btn" title="捨棄本系統未套用的變更，以外部版本為基底繼續本次操作">捨棄變更重新載入</button>
<button type="submit" name="external_resolve" value="overwrite" class="btn primary" title="以本系統版本覆寫設定檔，再繼續本次操作">以本系統覆寫</button>
</div>
</form>
<p><a class="btn" href=""#@ + back + r#"">取消，先回列表</a></p>"#@,
        None => r#"<div class="bar"><h1 style="margin:0">設定檔已被外部修改</h1></div>
<p class="warn">本系統尚有 "#@ + dec(pending as nat) + r#" 筆變更未套用，但設定檔已被外部修改。先決定以哪一方為準，再繼續本次操作：</p>
<p>"#@ + summary + r#"</p>
<form method="post" action=""#@ + action + r#"?external_resolve=adopt" class="inline-form">
<button type="submit" class="btn" title="捨棄本系統未套用的變更，以外部版本為基底繼續本次操作">捨棄變更重新載入</button>
</form>
<form method="post" action=""#@ + action + r#"?external_resolve=overwrite" class="inline-form">
<button type="submit" class="btn primary" title="以本系統版本覆寫設定檔，再繼續本次操作">以本系統覆寫</button>
</form>
<p><a class="btn" href=""#@ + back + r#"">取消，先回列表</a></p>"#@,
    }
}

/// The page that asks whose version is to count, before an operation goes on.
pub fn external_decision_page(action: &str, hidden: Option<&str>, summary: &str, back: &str, pending: u64) -> (r:
    String)
    ensures
        r@ == page_text(
            "外部修改"@,
            decision_text(
                action@,
                (match hidden {
                    Some(h) => Some(h@),
                    None => None,
                }),
                summary@,
                back@,
                pending,
            ),
        ),
{
    let body: String = match hidden {
        Some(h) => {
            let mut out: String = r#"<div class="bar"><h1 style="margin:0">設定檔已被外部修改</h1></div>
<p class="warn">本系統尚有 "#.to_owned();
            out.append(decimal(pending).as_str());
            out.append(r#" 筆變更未套用，但設定檔已被外部修改。先決定以哪一方為準，再繼續本次操作：</p>
<p>"#);
            out.append(summary);
            out.append(r#"</p>
<form method="post" action=""#);
            out.append(action);
            out.append(r#"">
"#);
            out.append(h);
            out.append(r#"
<div class="bar">
<button type="submit" name="external_resolve" value="adopt" class="btn" title="捨棄本系統未套用的變更，以外部版本為基底繼續本次操作">捨棄變更重新載入</button>
<button type="submit" name="external_resolve" value="overwrite" class="btn primary" title="以本系統版本覆寫設定檔，再繼續本次操作">以本系統覆寫</button>
</div>
</form>
<p><a class="btn" href=""#);
            out.append(back);
            out.append(r#"">取消，先回列表</a></p>"#);
            out
        },
        None => {
            let mut out: String = r#"<div class="bar"><h1 style="margin:0">設定檔已被外部修改</h1></div>
<p class="warn">本系統尚有 "#.to_owned();
            out.append(decimal(pending).as_str());
            out.append(r#" 筆變更未套用，但設定檔已被外部修改。先決定以哪一方為準，再繼續本次操作：</p>
<p>"#);
            out.append(summary);
            out.append(r#"</p>
<form method="post" action=""#);
            out.append(action);
            out.append(r#"?external_resolve=adopt" class="inline-form">
<button type="submit" class="btn" title="捨棄本系統未套用的變更，以外部版本為基底繼續本次操作">捨棄變更重新載入</button>
</form>
<form method="post" action=""#);
            out.append(action);
            out.append(r#"?external_resolve=overwrite" class="inline-form">
<button type="submit" class="btn primary" title="以本系統版本覆寫設定檔，再繼續本次操作">以本系統覆寫</button>
</form>
<p><a class="btn" href=""#);
            out.append(back);
            out.append(r#"">取消，先回列表</a></p>"#);
            out
        },
    };
    page("外部修改", body.as_str())
}

/// Whose version is to count.
#[derive(Debug, Clone, Copy, PartialEq, Eq, Structural)]
pub enum Resolution {
    /// The one on disk: it is loaded, and the operation goes on.
    Adopt,
    /// The one in memory: it is written, and the operation goes on.
    Overwrite,
    /// Nobody has decided: the operation does not go on.
    Ask,
}

/// Whose version is to count, from the decision that comes with a request.
pub open spec fn resolution_of(decision: Option<Seq<char>>) -> Resolution {
    if decision == Some("adopt"@) {
        Resolution::Adopt
    } else if decision == Some("overwrite"@) {
        Resolution::Overwrite
    } else {
        Resolution::Ask
    }
}

/// What has to happen before an operation that changes something.
#[derive(Debug, Clone, Copy, PartialEq, Eq, Structural)]
pub enum Gate {
    /// Nothing: the operation goes on.
    Open,
    /// The file was changed elsewhere while changes wait.
    Resolve(Resolution),
}

/// What has to happen before an operation that changes something, after a look at the file.
pub open spec fn gate_of(refresh: Refresh, decision: Option<Seq<char>>) -> Gate {
    if refresh == Refresh::ExternalChanged {
        Gate::Resolve(resolution_of(decision))
    } else {
        Gate::Open
    }
}

/// What has to happen before an operation that changes something, after a look at the file: where
/// it was changed elsewhere while changes wait, the decision that comes with the request counts.
pub fn resolve_external(refresh: &Refresh, decision: &Option<String>) -> (r: Gate)
    ensures
        r == gate_of(*refresh, opt_text(*decision)),
{
    match refresh {
        Refresh::ExternalChanged => match decision {
            Some(d) => if same(d.as_str(), "adopt") {
                Gate::Resolve(Resolution::Adopt)
            } else if same(d.as_str(), "overwrite") {
                proof {
                    reveal_strlit("adopt");
                    reveal_strlit("overwrite");
                    assert("adopt"@.len() != "overwrite"@.len());
                }
                Gate::Resolve(Resolution::Overwrite)
            } else {
                Gate::Resolve(Resolution::Ask)
            },
            None => Gate::Resolve(Resolution::Ask),
        },
        _ => Gate::Open,
    }
}

} // verus!
