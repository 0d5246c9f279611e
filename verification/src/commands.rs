//! What the desktop front end asks for.

use crate::appid::{base_id, generate_app_id, is_first_free, lowercase, str_texts};
use crate::backup::{count_results, outcome_list, BackupReport, OutcomeContents};
use crate::config::{
    app_fault, cleanup_name_round_trip, format_name_round_trip, platform_settings,
    proposed_settings, upserted_app_is_found, with_app, without_app, App, AppContents, CleanupMode,
    Config, ConfigContents, ConfigError, Format, SettingsContents,
};
use crate::events::{AppResult, CancelFlag, Event, EventView};
use crate::history::{
    appended_entries_of_app, entry_list, newest_first, of_app, sort_entries, with_entry, EntryView,
    History, HistoryContents, HistoryEntry,
};
use crate::job::{candidate_list, RootCandidate};
use crate::pack::{mentions, middle_is_mentioned};
use crate::pathres::{EnvView, Environment, PathState, PathView};
use crate::paths::{
    components, file_name, is_firm, is_plain_name, join, join_adds_component, parent,
    path_file_name, path_parent, path_with_name, renamed_path_stays_beside, with_name,
};
use crate::platform::{platform_keys_distinct, Platform};
use crate::summary::longer_name_is_plain;
use crate::table::{distinct_keys, key_index_first, PathTable};
use crate::text::{
    before, blank, cat, cat3, clone_texts, ends_in, ends_in_what_is_put_behind, opt_str, opt_text,
    same, texts, trim, trim_all, trimmed, trimmed_nonempty, trimming_keeps_core,
};
use vstd::prelude::*;
use vstd::string::*;

verus! {

// ---------------------------------------------------------------------------
// State
// ---------------------------------------------------------------------------

/// What the front end holds while it runs.
#[derive(Debug)]
pub struct AppState {
    pub config: Option<Config>,
    pub cancel: CancelFlag,
}

/// The contents of an optional configuration.
pub open spec fn opt_config(c: Option<Config>) -> Option<ConfigContents> {
    match c {
        Some(config) => Some(config@),
        None => None,
    }
}

/// The message where there is no configuration.
pub open spec fn no_config_at(path: Seq<char>) -> Seq<char> {
    "无法加载配置文件: "@ + path + "（可用 BACKUP_TOOL_CONFIG 指定路径）"@
}

impl AppState {
    /// The state with what was loaded at the start.
    pub fn new(loaded: Option<Config>) -> (r: AppState)
        ensures
            opt_config(r.config) == opt_config(loaded),
            !r.cancel@,
    {
        AppState { config: loaded, cancel: CancelFlag::new() }
    }

    /// A copy of the configuration; a message with the place it is looked for
    /// where there is none.
    pub fn config(&self, default_path: &str) -> (r: Result<Config, String>)
        ensures
            match self.config {
                Some(c) => r is Ok && r->Ok_0@ == c@,
                None => r is Err && r->Err_0@ == no_config_at(default_path@),
            },
    {
        match &self.config {
            Some(c) => Ok(c.clone()),
            None => Err(
                cat3(
                    "无法加载配置文件: ",
                    default_path,
                    "（可用 BACKUP_TOOL_CONFIG 指定路径）",
                ),
            ),
        }
    }

    /// Begins a run: what was cancelled before does not count for it.
    pub fn begin_run(&mut self)
        ensures
            !final(self).cancel@,
            opt_config(final(self).config) == opt_config(old(self).config),
    {
        self.cancel = CancelFlag::new();
    }

    /// Asks the run to stop.
    pub fn cancel(&mut self)
        ensures
            final(self).cancel@,
            opt_config(final(self).config) == opt_config(old(self).config),
    {
        self.cancel.cancel();
    }
}

/// What comes of trying to load the configuration at the start.
#[derive(Debug)]
pub enum LoadStep {
    /// It is there.
    Use(Config),
    /// There is none: a first one is written and loaded.
    Create,
    /// It cannot be used.
    GiveUp,
}

/// What to do at the start, given what loading gave and whether the file was
/// there.
pub fn load_or_create_config(loaded: Result<Config, ConfigError>, missing: bool) -> (r: LoadStep)
    ensures
        match loaded {
            Ok(c) => r == LoadStep::Use(c),
            Err(ConfigError::Io(_)) => r == if missing {
                LoadStep::Create
            } else {
                LoadStep::GiveUp
            },
            Err(_) => r == LoadStep::GiveUp,
        },
{
    match loaded {
        Ok(c) => LoadStep::Use(c),
        Err(ConfigError::Io(_)) => {
            if missing {
                LoadStep::Create
            } else {
                LoadStep::GiveUp
            }
        },
        Err(_) => LoadStep::GiveUp,
    }
}

// ---------------------------------------------------------------------------
// Views
// ---------------------------------------------------------------------------

#[derive(Debug, Clone)]
pub struct AppMeta {
    pub id: String,
    pub name: String,
    pub enabled: bool,
    pub has_paths: bool,
    pub has_missing: bool,
    pub last_backup: Option<String>,
}

#[derive(Debug, Clone)]
pub struct SettingsView {
    pub dest: String,
    pub dest_raw: String,
    pub format: String,
    pub parallel: usize,
    pub retention: usize,
    pub cleanup: String,
    pub excludes: Vec<String>,
    pub config_path: String,
}

#[derive(Debug, Clone)]
pub struct HistoryView {
    pub app_id: String,
    pub file: String,
    pub format: String,
    pub size: u64,
    pub files: u64,
    pub started_at: String,
    pub status: String,
}

#[derive(Debug, Clone)]
pub struct OutcomeView {
    pub app_id: String,
    pub name: String,
    pub result: String,
    pub detail: String,
    pub size: u64,
}

#[derive(Debug, Clone)]
pub struct BackupReportView {
    pub dest: String,
    pub ok: usize,
    pub failed: usize,
    pub skipped: usize,
    pub cancelled: usize,
    pub outcomes: Vec<OutcomeView>,
}

/// The contents of a [`SettingsView`].
#[verifier::ext_equal]
pub struct ShownSettings {
    pub dest: Seq<char>,
    pub dest_raw: Seq<char>,
    pub format: Seq<char>,
    pub parallel: usize,
    pub retention: usize,
    pub cleanup: Seq<char>,
    pub excludes: Seq<Seq<char>>,
    pub config_path: Seq<char>,
}

impl View for SettingsView {
    type V = ShownSettings;

    open spec fn view(&self) -> ShownSettings {
        ShownSettings {
            dest: self.dest@,
            dest_raw: self.dest_raw@,
            format: self.format@,
            parallel: self.parallel,
            retention: self.retention,
            cleanup: self.cleanup@,
            excludes: texts(self.excludes@),
            config_path: self.config_path@,
        }
    }
}

pub fn format_name(f: &Format) -> (r: &'static str)
    ensures
        r@ == f.suffix(),
{
    f.extension()
}

/// How settings are shown.
pub open spec fn shown(
    s: SettingsContents,
    dest: Seq<char>,
    source: Option<Seq<char>>,
) -> ShownSettings {
    ShownSettings {
        dest,
        dest_raw: s.dest,
        format: s.format.suffix(),
        parallel: s.parallel,
        retention: s.retention,
        cleanup: s.cleanup.name(),
        excludes: s.excludes,
        config_path: match source {
            Some(path) => path,
            None => "未知"@,
        },
    }
}

/// The settings of a configuration as they are shown. A destination that does
/// not resolve is shown as it is written.
pub fn settings_view(config: &Config, platform: Platform, env: &Environment) -> (r: SettingsView)
    ensures
        r@ == shown(
            config@.backup,
            match config@.dest(platform, env@) {
                Ok(path) => path,
                Err(_) => config@.backup.dest,
            },
            config@.source,
        ),
{
    let dest = match config.resolved_dest(platform, env) {
        Ok(path) => path,
        Err(_) => config.backup.dest.clone(),
    };
    SettingsView {
        dest,
        dest_raw: config.backup.dest.clone(),
        format: format_name(&config.backup.format).to_string(),
        parallel: config.backup.parallel,
        retention: config.backup.retention,
        cleanup: config.backup.cleanup.as_str().to_string(),
        excludes: clone_texts(&config.backup.excludes),
        config_path: match &config.source {
            Some(path) => path.clone(),
            None => "未知".to_string(),
        },
    }
}

/// The settings that are proposed, as they are shown.
pub fn default_settings(config: &Config, platform: Platform) -> (r: SettingsView)
    ensures
        r@ == shown(
            proposed_settings(platform),
            proposed_settings(platform).dest,
            config@.source,
        ),
{
    let defaults = platform_settings(platform);
    SettingsView {
        dest: defaults.dest.clone(),
        dest_raw: defaults.dest.clone(),
        format: format_name(&defaults.format).to_string(),
        parallel: defaults.parallel,
        retention: defaults.retention,
        cleanup: defaults.cleanup.as_str().to_string(),
        excludes: defaults.excludes,
        config_path: match &config.source {
            Some(path) => path.clone(),
            None => "未知".to_string(),
        },
    }
}

/// Whether one of the paths stands for something that exists.
pub open spec fn has_existing(candidates: Seq<(Seq<char>, PathView)>, exist: Seq<bool>) -> bool {
    exists|i: int|
        0 <= i < candidates.len() && (#[trigger] candidates[i]).1 is Resolved && exist[i]
}

/// Whether one of the paths stands for something that is missing, or for nothing
/// as a variable is not defined.
pub open spec fn has_lacking(candidates: Seq<(Seq<char>, PathView)>, exist: Seq<bool>) -> bool {
    exists|i: int|
        0 <= i < candidates.len() && (((#[trigger] candidates[i]).1 is Resolved && !exist[i])
            || candidates[i].1 is UndefinedVar)
}

/// The file of the first entry of an app in the index.
pub open spec fn latest_file(entries: Seq<EntryView>, app_id: Seq<char>) -> Option<Seq<char>>
    decreases entries.len(),
{
    if entries.len() == 0 {
        None
    } else if entries[0].app_id == app_id {
        Some(entries[0].file)
    } else {
        latest_file(entries.skip(1), app_id)
    }
}

fn find_latest(history: &History, app_id: &str) -> (r: Option<String>)
    ensures
        opt_text(r) == latest_file(history@.entries, app_id@),
{
    let ghost all = history@.entries;
    let mut i: usize = 0;
    assert(all.skip(0) =~= all);
    while i < history.entries.len()
        invariant
            i <= history.entries@.len(),
            all == history@.entries,
            latest_file(all, app_id@) == latest_file(all.skip(i as int), app_id@),
        decreases history.entries@.len() - i,
    {
        assert(all.skip(i as int)[0] == history.entries@[i as int]@);
        if same(history.entries[i].app_id.as_str(), app_id) {
            return Some(history.entries[i].file.clone());
        }
        assert(all.skip(i as int).skip(1) =~= all.skip(i + 1));
        i = i + 1;
    }
    None
}

/// An app as it is listed, given which of its paths exist.
pub fn app_meta(
    app: &App,
    candidates: &Vec<RootCandidate>,
    exist: &Vec<bool>,
    history: &History,
) -> (r: AppMeta)
    requires
        candidates@.len() == exist@.len(),
    ensures
        r.id@ == app@.id,
        r.name@ == app@.name,
        r.enabled == app@.enabled,
        r.has_paths == has_existing(candidate_list(candidates@), exist@),
        r.has_missing == has_lacking(candidate_list(candidates@), exist@),
        opt_text(r.last_backup) == latest_file(history@.entries, app@.id),
{
    let ghost all = candidate_list(candidates@);
    let mut has_paths = false;
    let mut has_missing = false;
    let mut i: usize = 0;
    while i < candidates.len()
        invariant
            i <= candidates@.len(),
            candidates@.len() == exist@.len(),
            all == candidate_list(candidates@),
            has_paths == exists|k: int|
                0 <= k < i && (#[trigger] all[k]).1 is Resolved && exist@[k],
            has_missing == exists|k: int|
                0 <= k < i && (((#[trigger] all[k]).1 is Resolved && !exist@[k])
                    || all[k].1 is UndefinedVar),
        decreases candidates@.len() - i,
    {
        assert(all[i as int].1 == candidates@[i as int].state@);
        match &candidates[i].state {
            PathState::Resolved { .. } => {
                if exist[i] {
                    has_paths = true;
                } else {
                    has_missing = true;
                }
            },
            PathState::UndefinedVar { .. } => {
                has_missing = true;
            },
            PathState::OtherPlatform { .. } => {},
        }
        i = i + 1;
    }
    AppMeta {
        id: app.id.clone(),
        name: app.name.clone(),
        enabled: app.enabled,
        has_paths,
        has_missing,
        last_backup: find_latest(history, app.id.as_str()),
    }
}

/// The contents of a [`HistoryView`].
#[verifier::ext_equal]
pub struct ShownEntry {
    pub app_id: Seq<char>,
    pub file: Seq<char>,
    pub format: Seq<char>,
    pub size: u64,
    pub files: u64,
    pub started_at: Seq<char>,
    pub status: Seq<char>,
}

impl View for HistoryView {
    type V = ShownEntry;

    open spec fn view(&self) -> ShownEntry {
        ShownEntry {
            app_id: self.app_id@,
            file: self.file@,
            format: self.format@,
            size: self.size,
            files: self.files,
            started_at: self.started_at@,
            status: self.status@,
        }
    }
}

/// How an entry is shown.
pub open spec fn shown_entry(e: EntryView) -> ShownEntry {
    ShownEntry {
        app_id: e.app_id,
        file: e.file,
        format: e.format,
        size: e.size,
        files: e.files,
        started_at: e.started_at,
        status: e.status,
    }
}

/// The entries of one app, or all where none is named.
pub open spec fn entries_shown(entries: Seq<EntryView>, app: Option<Seq<char>>) -> Seq<EntryView> {
    entries.filter(|e: EntryView| app matches Some(a) ==> e.app_id == a)
}

fn pick_entries(history: &History, app: Option<&str>) -> (r: Vec<HistoryEntry>)
    ensures
        entry_list(r@) == entries_shown(history@.entries, opt_str(app)),
{
    let ghost all = history@.entries;
    let ghost named = opt_str(app);
    let ghost wanted = |e: EntryView| named matches Some(a) ==> e.app_id == a;
    let mut r: Vec<HistoryEntry> = Vec::new();
    let mut i: usize = 0;
    proof {
        reveal(Seq::filter);
        assert(entry_list(r@) =~= all.take(0).filter(wanted));
    }
    while i < history.entries.len()
        invariant
            i <= history.entries@.len(),
            all == history@.entries,
            named == opt_str(app),
            wanted == (|e: EntryView| named matches Some(a) ==> e.app_id == a),
            entry_list(r@) == all.take(i as int).filter(wanted),
        decreases history.entries@.len() - i,
    {
        let ghost so_far = r@;
        proof {
            reveal(Seq::filter);
            assert(all.take(i + 1).drop_last() =~= all.take(i as int));
            assert(all.take(i + 1).last() == history.entries@[i as int]@);
        }
        let taken = match app {
            Some(a) => same(history.entries[i].app_id.as_str(), a),
            None => true,
        };
        if taken {
            r.push(history.entries[i].clone());
            assert(entry_list(r@) =~= entry_list(so_far).push(history.entries@[i as int]@));
        }
        i = i + 1;
    }
    assert(all.take(i as int) =~= all);
    r
}

/// The history as it is shown: of one app or of all, newest first.
pub fn get_history(history: &History, app: Option<&str>) -> (r: Vec<HistoryView>)
    ensures
        r@.map_values(|v: HistoryView| v@) == newest_first(
            entries_shown(history@.entries, opt_str(app)),
        ).map_values(|e: EntryView| shown_entry(e)),
{
    let list = sort_entries(pick_entries(history, app));
    let ghost all = entry_list(list@);
    let ghost show = |e: EntryView| shown_entry(e);
    let ghost view = |v: HistoryView| v@;
    let mut r: Vec<HistoryView> = Vec::new();
    let mut i: usize = 0;
    while i < list.len()
        invariant
            i <= list@.len(),
            all == entry_list(list@),
            show == (|e: EntryView| shown_entry(e)),
            view == (|v: HistoryView| v@),
            r@.map_values(view) == all.map_values(show).take(i as int),
        decreases list@.len() - i,
    {
        let ghost so_far = r@;
        let e = &list[i];
        let v = HistoryView {
            app_id: e.app_id.clone(),
            file: e.file.clone(),
            format: e.format.clone(),
            size: e.size,
            files: e.files,
            started_at: e.started_at.clone(),
            status: e.status.clone(),
        };
        r.push(v);
        i = i + 1;
        proof {
            assert(v@ == shown_entry(e@));
            assert(r@.map_values(view) =~= so_far.map_values(view).push(v@));
            assert(all.map_values(show).take(i as int) =~= all.map_values(show).take(i - 1).push(
                all.map_values(show)[i - 1],
            ));
        }
    }
    assert(all.map_values(show).take(i as int) =~= all.map_values(show));
    r
}

// ---------------------------------------------------------------------------
// Events and reports
// ---------------------------------------------------------------------------

#[derive(Debug, Clone)]
pub enum UiEvent {
    AppStarted { app_id: String },
    ScanDone { app_id: String, files_total: u64, bytes_total: u64 },
    AppProgress {
        app_id: String,
        files_done: u64,
        files_total: u64,
        bytes_done: u64,
        bytes_total: u64,
    },
    OverallProgress { apps_done: usize, apps_total: usize, bytes_done: u64, bytes_total: u64 },
    AppFinished { app_id: String, result: String, detail: String, size: u64 },
    Log { level: String, msg: String },
}

/// The contents of a [`UiEvent`].
#[verifier::ext_equal]
pub enum ShownEvent {
    AppStarted { app_id: Seq<char> },
    ScanDone { app_id: Seq<char>, files_total: u64, bytes_total: u64 },
    AppProgress {
        app_id: Seq<char>,
        files_done: u64,
        files_total: u64,
        bytes_done: u64,
        bytes_total: u64,
    },
    OverallProgress { apps_done: usize, apps_total: usize, bytes_done: u64, bytes_total: u64 },
    AppFinished { app_id: Seq<char>, result: Seq<char>, detail: Seq<char>, size: u64 },
    Log { level: Seq<char>, msg: Seq<char> },
}

impl View for UiEvent {
    type V = ShownEvent;

    open spec fn view(&self) -> ShownEvent {
        match *self {
            UiEvent::AppStarted { app_id } => ShownEvent::AppStarted { app_id: app_id@ },
            UiEvent::ScanDone { app_id, files_total, bytes_total } => ShownEvent::ScanDone {
                app_id: app_id@,
                files_total,
                bytes_total,
            },
            UiEvent::AppProgress { app_id, files_done, files_total, bytes_done, bytes_total } => {
                ShownEvent::AppProgress {
                    app_id: app_id@,
                    files_done,
                    files_total,
                    bytes_done,
                    bytes_total,
                }
            },
            UiEvent::OverallProgress { apps_done, apps_total, bytes_done, bytes_total } => {
                ShownEvent::OverallProgress { apps_done, apps_total, bytes_done, bytes_total }
            },
            UiEvent::AppFinished { app_id, result, detail, size } => ShownEvent::AppFinished {
                app_id: app_id@,
                result: result@,
                detail: detail@,
                size,
            },
            UiEvent::Log { level, msg } => ShownEvent::Log { level: level@, msg: msg@ },
        }
    }
}

/// The name of a result.
pub open spec fn result_name(r: AppResult) -> Seq<char> {
    match r {
        AppResult::Succeeded => "ok"@,
        AppResult::Skipped => "skipped"@,
        AppResult::Failed => "failed"@,
        AppResult::Cancelled => "cancelled"@,
    }
}

pub fn result_str(r: AppResult) -> (s: &'static str)
    ensures
        s@ == result_name(r),
{
    match r {
        AppResult::Succeeded => "ok",
        AppResult::Skipped => "skipped",
        AppResult::Failed => "failed",
        AppResult::Cancelled => "cancelled",
    }
}

/// How an event is shown; single files and the steps of a scan are not.
pub open spec fn shown_event(ev: EventView) -> Option<ShownEvent> {
    match ev {
        EventView::Log { level, msg } => Some(ShownEvent::Log { level: level.name(), msg }),
        EventView::AppStarted { app_id } => Some(ShownEvent::AppStarted { app_id }),
        EventView::ScanDone { app_id, files_total, bytes_total } => Some(
            ShownEvent::ScanDone { app_id, files_total, bytes_total },
        ),
        EventView::AppProgress { app_id, files_done, files_total, bytes_done, bytes_total, .. } => {
            Some(
                ShownEvent::AppProgress { app_id, files_done, files_total, bytes_done, bytes_total },
            )
        },
        EventView::OverallProgress { apps_done, apps_total, bytes_done, bytes_total, .. } => Some(
            ShownEvent::OverallProgress { apps_done, apps_total, bytes_done, bytes_total },
        ),
        EventView::AppFinished { app_id, result, detail, size, .. } => Some(
            ShownEvent::AppFinished { app_id, result: result_name(result), detail, size },
        ),
        EventView::FileDone { .. } => None,
        EventView::ScanUpdate { .. } => None,
    }
}

/// How an event is shown, where it is.
pub fn convert(ev: Event) -> (r: Option<UiEvent>)
    ensures
        match r {
            Some(ui) => shown_event(ev@) == Some(ui@),
            None => shown_event(ev@) is None,
        },
{
    match ev {
        Event::Log { level, msg } => Some(
            UiEvent::Log { level: level.as_str().to_string(), msg },
        ),
        Event::AppStarted { app_id } => Some(UiEvent::AppStarted { app_id }),
        Event::ScanDone { app_id, files_total, bytes_total } => Some(
            UiEvent::ScanDone { app_id, files_total, bytes_total },
        ),
        Event::AppProgress { app_id, files_done, files_total, bytes_done, bytes_total, .. } => Some(
            UiEvent::AppProgress { app_id, files_done, files_total, bytes_done, bytes_total },
        ),
        Event::OverallProgress { apps_done, apps_total, bytes_done, bytes_total, .. } => Some(
            UiEvent::OverallProgress { apps_done, apps_total, bytes_done, bytes_total },
        ),
        Event::AppFinished { app_id, result, detail, size, .. } => Some(
            UiEvent::AppFinished { app_id, result: result_str(result).to_string(), detail, size },
        ),
        Event::FileDone { .. } => None,
        Event::ScanUpdate { .. } => None,
    }
}

/// The contents of an [`OutcomeView`].
#[verifier::ext_equal]
pub struct ShownOutcome {
    pub app_id: Seq<char>,
    pub name: Seq<char>,
    pub result: Seq<char>,
    pub detail: Seq<char>,
    pub size: u64,
}

impl View for OutcomeView {
    type V = ShownOutcome;

    open spec fn view(&self) -> ShownOutcome {
        ShownOutcome {
            app_id: self.app_id@,
            name: self.name@,
            result: self.result@,
            detail: self.detail@,
            size: self.size,
        }
    }
}

/// How an outcome is shown.
pub open spec fn shown_outcome(o: OutcomeContents) -> ShownOutcome {
    ShownOutcome {
        app_id: o.app_id,
        name: o.name,
        result: result_name(o.result),
        detail: o.detail,
        size: o.size,
    }
}

/// A report as it is shown.
pub fn report_view(report: &BackupReport) -> (r: BackupReportView)
    ensures
        r.dest@ == report.dest@,
        r.ok == count_results(outcome_list(report.outcomes@), AppResult::Succeeded),
        r.failed == count_results(outcome_list(report.outcomes@), AppResult::Failed),
        r.skipped == count_results(outcome_list(report.outcomes@), AppResult::Skipped),
        r.cancelled == count_results(outcome_list(report.outcomes@), AppResult::Cancelled),
        r.outcomes@.map_values(|o: OutcomeView| o@) == outcome_list(report.outcomes@).map_values(
            |o: OutcomeContents| shown_outcome(o),
        ),
{
    let ghost all = outcome_list(report.outcomes@);
    let ghost show = |o: OutcomeContents| shown_outcome(o);
    let ghost view = |o: OutcomeView| o@;
    let mut outcomes: Vec<OutcomeView> = Vec::new();
    let mut i: usize = 0;
    while i < report.outcomes.len()
        invariant
            i <= report.outcomes@.len(),
            all == outcome_list(report.outcomes@),
            show == (|o: OutcomeContents| shown_outcome(o)),
            view == (|o: OutcomeView| o@),
            outcomes@.map_values(view) == all.map_values(show).take(i as int),
        decreases report.outcomes@.len() - i,
    {
        let ghost so_far = outcomes@;
        let o = &report.outcomes[i];
        let v = OutcomeView {
            app_id: o.app_id.clone(),
            name: o.name.clone(),
            result: result_str(o.result).to_string(),
            detail: o.detail.clone(),
            size: o.size,
        };
        outcomes.push(v);
        i = i + 1;
        proof {
            assert(v@ == shown_outcome(o@));
            assert(outcomes@.map_values(view) =~= so_far.map_values(view).push(v@));
            assert(all.map_values(show).take(i as int) =~= all.map_values(show).take(i - 1).push(
                all.map_values(show)[i - 1],
            ));
        }
    }
    assert(all.map_values(show).take(i as int) =~= all.map_values(show));
    BackupReportView {
        dest: report.dest.clone(),
        ok: report.ok(),
        failed: report.failed(),
        skipped: report.skipped(),
        cancelled: report.cancelled(),
        outcomes,
    }
}

// ---------------------------------------------------------------------------
// Editing apps
// ---------------------------------------------------------------------------

#[derive(Debug, Clone)]
pub struct AppInput {
    /// Empty for new apps: an id that is not taken is made from `name`.
    pub id: String,
    pub name: String,
    pub enabled: bool,
    pub compress: bool,
    /// Paths for the current platform only.
    pub paths: Vec<String>,
    pub excludes: Vec<String>,
}

#[derive(Debug, Clone)]
pub struct AppDetail {
    pub id: String,
    pub name: String,
    pub enabled: bool,
    pub compress: bool,
    pub paths: Vec<String>,
    pub excludes: Vec<String>,
}

/// The message on an app that is not there.
pub open spec fn no_such_app(id: Seq<char>) -> Seq<char> {
    "未找到应用: "@ + id
}

/// An app for editing, with its paths on the platform.
pub fn get_app(config: &Config, id: &str, platform: Platform) -> (r: Result<AppDetail, String>)
    ensures
        ({
            let i = config@.app_index(id@);
            if i < config@.apps.len() {
                let a = config@.apps[i];
                &&& r is Ok
                &&& r->Ok_0.id@ == a.id
                &&& r->Ok_0.name@ == a.name
                &&& r->Ok_0.enabled == a.enabled
                &&& r->Ok_0.compress == a.compress
                &&& texts(r->Ok_0.paths@) == a.paths_on(platform)
                &&& texts(r->Ok_0.excludes@) == a.excludes
            } else {
                r is Err && r->Err_0@ == no_such_app(id@)
            }
        }),
{
    let i: usize = config.find_app(id);
    if i >= config.apps.len() {
        return Err(cat("未找到应用: ", id));
    }
    let app = &config.apps[i];
    assert(config@.apps[i as int] == app@);
    let paths = match app.paths.get(platform.as_str()) {
        Some(list) => clone_texts(list),
        None => Vec::new(),
    };
    assert(texts(Seq::<String>::empty()) =~= Seq::<Seq<char>>::empty());
    Ok(
        AppDetail {
            id: app.id.clone(),
            name: app.name.clone(),
            enabled: app.enabled,
            compress: app.compress,
            paths,
            excludes: clone_texts(&app.excludes),
        },
    )
}

/// The app that an input describes: its paths are those of the platform.
pub open spec fn input_app(
    id: Seq<char>,
    name: Seq<char>,
    enabled: bool,
    compress: bool,
    paths: Seq<Seq<char>>,
    excludes: Seq<Seq<char>>,
    p: Platform,
) -> AppContents {
    AppContents { id, name, enabled, paths: seq![(p.key(), paths)], excludes, compress }
}

/// The app that an input describes.
pub fn app_from_input(input: AppInput, platform: Platform) -> (r: App)
    ensures
        r@ == input_app(
            input.id@,
            input.name@,
            input.enabled,
            input.compress,
            texts(input.paths@),
            texts(input.excludes@),
            platform,
        ),
{
    let mut paths = PathTable::new();
    paths.insert(platform.as_str().to_string(), input.paths);
    assert(paths@ =~= seq![(platform.key(), texts(input.paths@))]);
    App {
        id: input.id,
        name: input.name,
        enabled: input.enabled,
        compress: input.compress,
        paths,
        excludes: input.excludes,
    }
}

/// The ids of the apps.
pub open spec fn id_list(apps: Seq<AppContents>) -> Seq<Seq<char>> {
    apps.map_values(|a: AppContents| a.id)
}

/// A new id for a name that none of the apps has.
pub fn new_app_id(config: &Config, name: &str) -> (r: String)
    ensures
        is_first_free(base_id(lowercase(trimmed(name@))), id_list(config@.apps), r@),
        !id_list(config@.apps).contains(r@),
        crate::appid::is_valid_id(r@),
{
    let ghost all = id_list(config@.apps);
    let mut ids: Vec<&str> = Vec::new();
    let mut i: usize = 0;
    while i < config.apps.len()
        invariant
            i <= config.apps@.len(),
            all == id_list(config@.apps),
            str_texts(ids@) == all.take(i as int),
        decreases config.apps@.len() - i,
    {
        let ghost so_far = ids@;
        ids.push(config.apps[i].id.as_str());
        i = i + 1;
        proof {
            assert(all[i - 1] == config.apps@[i - 1]@.id);
            assert(str_texts(ids@) =~= str_texts(so_far).push(all[i - 1]));
            assert(all.take(i as int) =~= all.take(i - 1).push(all[i - 1]));
        }
    }
    assert(all.take(i as int) =~= all);
    generate_app_id(name, ids.as_slice())
}

/// The message where there is no configuration to change.
pub open spec fn no_config() -> Seq<char> {
    "无法加载配置文件"@
}

/// The configuration with an app saved, ready to be written. An input without an
/// id gets a new one; an id that is given stays.
pub fn stage_save_app(config: &Option<Config>, input: AppInput, platform: Platform) -> (r: Result<
    Config,
    String,
>)
    ensures
        match *config {
            None => r is Err && r->Err_0@ == no_config(),
            Some(c) => {
                let new = trimmed(input.id@).len() == 0;
                exists|id: Seq<char>|
                    {
                        &&& !new ==> id == input.id@
                        &&& new ==> is_first_free(
                            base_id(lowercase(trimmed(input.name@))),
                            id_list(c@.apps),
                            id,
                        )
                        &&& saved(c@, #[trigger] input_app(
                            id,
                            input.name@,
                            input.enabled,
                            input.compress,
                            texts(input.paths@),
                            texts(input.excludes@),
                            platform,
                        ), platform, r)
                    }
            },
        },
{
    let c = match config {
        Some(c) => c,
        None => {
            return Err("无法加载配置文件".to_string());
        },
    };
    let mut candidate = c.clone();
    let ghost given = input;
    let mut input = input;
    let id = trim(input.id.as_str());
    if id.as_str().is_empty() {
        input.id = new_app_id(&candidate, input.name.as_str());
    }
    let ghost id_now = input.id@;
    let app = app_from_input(input, platform);
    let ghost app_view = app@;
    let r = match candidate.upsert_app(app, platform) {
        Ok(_) => Ok(candidate),
        Err(why) => Err(why),
    };
    assert(saved(c@, app_view, platform, r));
    r
}

/// Whether `r` is the configuration with an app saved, or the reason why it
/// cannot be.
pub open spec fn saved(
    c: ConfigContents,
    app: AppContents,
    p: Platform,
    r: Result<Config, String>,
) -> bool {
    match app_fault(app, p) {
        Some(why) => r is Err && r->Err_0@ == why,
        None => r is Ok && r->Ok_0@ == with_app(c, app, p),
    }
}

/// The configuration with an app removed, ready to be written.
pub fn stage_remove_app(config: &Option<Config>, id: &str) -> (r: Result<Config, String>)
    ensures
        match *config {
            None => r is Err && r->Err_0@ == no_config(),
            Some(c) => if exists|i: int|
                0 <= i < c@.apps.len() && (#[trigger] c@.apps[i]).id == id@ {
                r is Ok && r->Ok_0@ == without_app(c@, id@)
            } else {
                r is Err && r->Err_0@ == no_such_app(id@)
            },
        },
{
    let c = match config {
        Some(c) => c,
        None => {
            return Err("无法加载配置文件".to_string());
        },
    };
    let mut candidate = c.clone();
    if candidate.remove_app(id) {
        Ok(candidate)
    } else {
        Err(cat("未找到应用: ", id))
    }
}

/// Takes over a configuration once it is written. Where it could not be written
/// the one in use stays.
pub fn commit_config(
    config: &mut Option<Config>,
    candidate: Config,
    written: Result<(), String>,
) -> (r: Result<(), String>)
    ensures
        match written {
            Ok(_) => r is Ok && opt_config(*final(config)) == Some(candidate@),
            Err(why) => r is Err && r->Err_0@ == why@ && *final(config) == *old(config),
        },
{
    match written {
        Ok(_) => {
            *config = Some(candidate);
            Ok(())
        },
        Err(why) => Err(why),
    }
}

// ---------------------------------------------------------------------------
// Writing a configuration
// ---------------------------------------------------------------------------

/// Where a configuration is written.
#[derive(Debug, Clone)]
pub struct WriteTargets {
    pub source: String,
    /// Where it is written before it takes its place.
    pub tmp: String,
    /// The directory that has to be there, if any.
    pub dir: Option<String>,
}

/// Where a file is written before it takes its place.
pub open spec fn tmp_of(p: Platform, source: Seq<char>) -> Seq<char> {
    match file_name(p, source) {
        Some(name) => with_name(p, source, name + ".tmp"@),
        None => source,
    }
}

/// Where a configuration is written; a message where it was not loaded from a
/// file.
pub fn write_targets(config: &Config, platform: Platform) -> (r: Result<WriteTargets, String>)
    ensures
        match config@.source {
            None => r is Err && r->Err_0@ == "配置文件路径未知，无法保存"@,
            Some(source) => {
                &&& r is Ok
                &&& r->Ok_0.source@ == source
                &&& r->Ok_0.tmp@ == tmp_of(platform, source)
                &&& opt_text(r->Ok_0.dir) == parent(platform, source)
            },
        },
{
    match &config.source {
        None => Err("配置文件路径未知，无法保存".to_string()),
        Some(source) => {
            let tmp = match path_file_name(platform, source.as_str()) {
                Some(name) => {
                    let tmp_name = cat(name.as_str(), ".tmp");
                    path_with_name(platform, source.as_str(), tmp_name.as_str())
                },
                None => source.clone(),
            };
            let dir = path_parent(platform, source.as_str());
            Ok(WriteTargets { source: source.clone(), tmp, dir })
        },
    }
}

/// The file that the configuration in use is loaded from again.
pub fn reload_source(config: &Option<Config>) -> (r: Result<String, String>)
    ensures
        match opt_config(*config) {
            Some(c) => match c.source {
                Some(source) => r is Ok && r->Ok_0@ == source,
                None => r is Err && r->Err_0@ == "配置文件路径未知，无法重新加载"@,
            },
            None => r is Err && r->Err_0@ == "配置文件路径未知，无法重新加载"@,
        },
{
    if let Some(c) = config {
        if let Some(source) = &c.source {
            return Ok(source.clone());
        }
    }
    Err("配置文件路径未知，无法重新加载".to_string())
}

// ---------------------------------------------------------------------------
// Preview of a path
// ---------------------------------------------------------------------------

#[derive(Debug, Clone)]
pub struct PathPreview {
    pub resolved: String,
    pub exists: bool,
    pub state: String,
    pub note: String,
}

/// What is shown of a path while it is typed, given whether something exists
/// there.
pub fn path_preview(state: &PathState, exists_there: bool) -> (r: PathPreview)
    ensures
        match state@ {
            PathView::Resolved { path } => {
                &&& r.resolved@ == path
                &&& r.exists == exists_there
                &&& r.state@ == if exists_there {
                    "ok"@
                } else {
                    "missing"@
                }
                &&& r.note@.len() == 0
            },
            PathView::UndefinedVar { var } => {
                &&& r.resolved@.len() == 0
                &&& !r.exists
                &&& r.state@ == "undefined"@
                &&& r.note@ == "环境变量 "@ + var + " 未定义"@
            },
            PathView::OtherPlatform { .. } => {
                &&& r.resolved@.len() == 0
                &&& !r.exists
                &&& r.state@ == "other_platform"@
                &&& r.note@ == "该语法属于其他平台，仅在其他系统生效"@
            },
        },
{
    match state {
        PathState::Resolved { path } => PathPreview {
            resolved: path.clone(),
            exists: exists_there,
            state: if exists_there {
                "ok".to_string()
            } else {
                "missing".to_string()
            },
            note: String::new(),
        },
        PathState::UndefinedVar { var } => PathPreview {
            resolved: String::new(),
            exists: false,
            state: "undefined".to_string(),
            note: cat3("环境变量 ", var.as_str(), " 未定义"),
        },
        PathState::OtherPlatform { .. } => PathPreview {
            resolved: String::new(),
            exists: false,
            state: "other_platform".to_string(),
            note: "该语法属于其他平台，仅在其他系统生效".to_string(),
        },
    }
}

// ---------------------------------------------------------------------------
// Settings
// ---------------------------------------------------------------------------

#[derive(Debug, Clone)]
pub struct SettingsInput {
    pub dest: String,
    pub format: String,
    pub parallel: usize,
    pub retention: usize,
    pub cleanup: String,
    pub excludes: Vec<String>,
}

/// The contents of a [`SettingsInput`].
#[verifier::ext_equal]
pub struct GivenSettings {
    pub dest: Seq<char>,
    pub format: Seq<char>,
    pub parallel: usize,
    pub retention: usize,
    pub cleanup: Seq<char>,
    pub excludes: Seq<Seq<char>>,
}

impl View for SettingsInput {
    type V = GivenSettings;

    open spec fn view(&self) -> GivenSettings {
        GivenSettings {
            dest: self.dest@,
            format: self.format@,
            parallel: self.parallel,
            retention: self.retention,
            cleanup: self.cleanup@,
            excludes: texts(self.excludes@),
        }
    }
}

/// The configuration with the given settings, or what is wrong with them.
pub open spec fn with_settings(
    c: ConfigContents,
    s: GivenSettings,
    p: Platform,
    env: EnvView,
) -> Result<ConfigContents, Seq<char>> {
    let dest = trimmed(s.dest);
    let new = |format: Format, cleanup: CleanupMode|
        ConfigContents {
            backup: SettingsContents {
                dest,
                format,
                parallel: s.parallel,
                retention: s.retention,
                cleanup,
                checksum: c.backup.checksum,
                excludes: trimmed_nonempty(s.excludes),
            },
            ..c
        };
    if dest.len() == 0 {
        Err("备份位置不能为空"@)
    } else {
        match Format::of_name(s.format) {
            None => Err("不支持的备份格式: "@ + s.format),
            Some(format) => if s.parallel == 0 {
                Err("并行备份数必须大于 0"@)
            } else {
                match CleanupMode::of_name(s.cleanup) {
                    None => Err("不支持的清理时机: "@ + s.cleanup),
                    Some(cleanup) => match new(format, cleanup).dest(p, env) {
                        Ok(_) => Ok(new(format, cleanup)),
                        Err(e) => Err(e.words()),
                    },
                }
            },
        }
    }
}

/// The configuration with new settings, ready to be written.
pub fn stage_settings(
    config: &Option<Config>,
    input: SettingsInput,
    platform: Platform,
    env: &Environment,
) -> (r: Result<Config, String>)
    ensures
        match *config {
            None => r is Err && r->Err_0@ == no_config(),
            Some(c) => match with_settings(c@, input@, platform, env@) {
                Ok(new) => r is Ok && r->Ok_0@ == new,
                Err(why) => r is Err && r->Err_0@ == why,
            },
        },
{
    let c = match config {
        Some(c) => c,
        None => {
            return Err("无法加载配置文件".to_string());
        },
    };
    let mut candidate = c.clone();
    let dest = trim(input.dest.as_str());
    if dest.as_str().is_empty() {
        return Err("备份位置不能为空".to_string());
    }
    let format = match Format::parse(input.format.as_str()) {
        Some(f) => f,
        None => {
            return Err(cat("不支持的备份格式: ", input.format.as_str()));
        },
    };
    if input.parallel == 0 {
        return Err("并行备份数必须大于 0".to_string());
    }
    let cleanup = match CleanupMode::parse(input.cleanup.as_str()) {
        Some(m) => m,
        None => {
            return Err(cat("不支持的清理时机: ", input.cleanup.as_str()));
        },
    };
    candidate.backup.dest = dest;
    candidate.backup.format = format;
    candidate.backup.parallel = input.parallel;
    candidate.backup.retention = input.retention;
    candidate.backup.cleanup = cleanup;
    candidate.backup.excludes = trim_all(&input.excludes);
    match candidate.resolved_dest(platform, env) {
        Ok(_) => Ok(candidate),
        Err(e) => Err(e.message()),
    }
}

// ---------------------------------------------------------------------------
// Laws
// ---------------------------------------------------------------------------

/// Saving settings leaves the apps and the file of the configuration alone.
pub proof fn settings_keep_apps(c: ConfigContents, s: GivenSettings, p: Platform, env: EnvView)
    ensures
        with_settings(c, s, p, env) matches Ok(n) ==> n.apps == c.apps && n.source == c.source
            && n.version == c.version && n.backup.checksum == c.backup.checksum && n.dest(p, env) is Ok,
{
}

/// Settings that are accepted are taken over, each in its place and without white
/// space around them; the destination stands for a path.
pub proof fn accepted_settings_are_taken_over(
    c: ConfigContents,
    s: GivenSettings,
    p: Platform,
    env: EnvView,
)
    ensures
        with_settings(c, s, p, env) matches Ok(n) ==> {
            &&& n.backup.dest == trimmed(s.dest)
            &&& n.backup.dest.len() > 0
            &&& n.backup.format.suffix() == s.format
            &&& n.backup.parallel == s.parallel
            &&& n.backup.parallel > 0
            &&& n.backup.retention == s.retention
            &&& n.backup.cleanup.name() == s.cleanup
            &&& n.backup.excludes == trimmed_nonempty(s.excludes)
            &&& n.dest(p, env) is Ok
        },
{
}

/// Settings are accepted where they have a destination that stands for a path, a
/// format and a cleanup mode that there are, and back up at least one app at a time.
/// Else nothing is taken over.
pub proof fn good_settings_are_accepted(
    c: ConfigContents,
    n: ConfigContents,
    s: GivenSettings,
    format: Format,
    cleanup: CleanupMode,
    p: Platform,
    env: EnvView,
)
    requires
        s.format == format.suffix(),
        s.cleanup == cleanup.name(),
        n == (ConfigContents {
            backup: SettingsContents {
                dest: trimmed(s.dest),
                format,
                parallel: s.parallel,
                retention: s.retention,
                cleanup,
                checksum: c.backup.checksum,
                excludes: trimmed_nonempty(s.excludes),
            },
            ..c
        }),
    ensures
        with_settings(c, s, p, env) is Ok <==> !blank(s.dest, 0, s.dest.len() as int) && s.parallel
            > 0 && n.dest(p, env) is Ok,
        with_settings(c, s, p, env) is Ok ==> with_settings(c, s, p, env)->Ok_0 == n,
{
    format_name_round_trip(format);
    cleanup_name_round_trip(cleanup);
    trimming_keeps_core(s.dest);
}

/// A format or a cleanup mode that there is not is refused by its name.
pub proof fn unknown_names_are_refused(
    c: ConfigContents,
    s: GivenSettings,
    p: Platform,
    env: EnvView,
)
    requires
        !blank(s.dest, 0, s.dest.len() as int),
    ensures
        (forall|f: Format| (#[trigger] f.suffix()) != s.format) ==> (with_settings(c, s, p, env) matches Err(
            why,
        ) && ends_in(why, s.format)),
        Format::of_name(s.format) is Some && s.parallel > 0 && (forall|m: CleanupMode|
            (#[trigger] m.name()) != s.cleanup) ==> (with_settings(c, s, p, env) matches Err(why)
            && ends_in(why, s.cleanup)),
{
    trimming_keeps_core(s.dest);
    if forall|f: Format| (#[trigger] f.suffix()) != s.format {
        assert(Format::Zip.suffix() != s.format);
        assert(Format::TarGz.suffix() != s.format);
        assert(Format::Dir.suffix() != s.format);
        ends_in_what_is_put_behind("不支持的备份格式: "@, s.format);
    }
    if forall|m: CleanupMode| (#[trigger] m.name()) != s.cleanup {
        assert(CleanupMode::AfterEach.name() != s.cleanup);
        assert(CleanupMode::AtEnd.name() != s.cleanup);
        ends_in_what_is_put_behind("不支持的清理时机: "@, s.cleanup);
    }
}

/// Settings are shown as they are, each in its place, with the names of the format
/// and the cleanup mode.
pub proof fn settings_are_shown_as_they_are(
    s: SettingsContents,
    dest: Seq<char>,
    source: Option<Seq<char>>,
)
    ensures
        ({
            let v = shown(s, dest, source);
            &&& v.dest == dest
            &&& v.dest_raw == s.dest
            &&& Format::of_name(v.format) == Some(s.format)
            &&& v.parallel == s.parallel
            &&& v.retention == s.retention
            &&& CleanupMode::of_name(v.cleanup) == Some(s.cleanup)
            &&& v.excludes == s.excludes
            &&& source matches Some(path) ==> v.config_path == path
        }),
{
    format_name_round_trip(s.format);
    cleanup_name_round_trip(s.cleanup);
}

/// Settings that are given back as they are shown are accepted and change nothing,
/// where neither the destination nor a rule has white space around it.
pub proof fn shown_settings_can_be_saved(
    c: ConfigContents,
    dest: Seq<char>,
    p: Platform,
    env: EnvView,
)
    requires
        c.dest(p, env) is Ok,
        c.backup.parallel > 0,
        c.backup.dest.len() > 0,
        trimmed(c.backup.dest) == c.backup.dest,
        trimmed_nonempty(c.backup.excludes) == c.backup.excludes,
    ensures
        ({
            let v = shown(c.backup, dest, c.source);
            with_settings(
                c,
                GivenSettings {
                    dest: v.dest_raw,
                    format: v.format,
                    parallel: v.parallel,
                    retention: v.retention,
                    cleanup: v.cleanup,
                    excludes: v.excludes,
                },
                p,
                env,
            ) == Ok::<ConfigContents, Seq<char>>(c)
        }),
{
    format_name_round_trip(c.backup.format);
    cleanup_name_round_trip(c.backup.cleanup);
}

/// An entry is shown as it is, each thing in its place.
pub proof fn entries_are_shown_as_they_are(e: EntryView)
    ensures
        ({
            let v = shown_entry(e);
            &&& v.app_id == e.app_id
            &&& v.file == e.file
            &&& v.format == e.format
            &&& v.size == e.size
            &&& v.files == e.files
            &&& v.started_at == e.started_at
            &&& v.status == e.status
        }),
{
}

/// The history of one app is what the index holds of it; where none is named, the
/// whole index is shown.
pub proof fn history_is_that_of_the_app(entries: Seq<EntryView>, app_id: Seq<char>)
    ensures
        entries_shown(entries, Some(app_id)) == of_app(entries, app_id),
        entries_shown(entries, None) == entries,
    decreases entries.len(),
{
    reveal(Seq::filter);
    if entries.len() > 0 {
        let rest = entries.drop_last();
        history_is_that_of_the_app(rest, app_id);
        assert(rest.push(entries.last()) =~= entries);
    } else {
        assert(entries_shown(entries, Some(app_id)) =~= of_app(entries, app_id));
        assert(entries_shown(entries, None) =~= entries);
    }
}

/// The last backup of an app is the first that the index lists for it: after a backup
/// was put into the index, none of the app has a later file name.
pub proof fn last_backup_is_the_latest(h: HistoryContents, entry: EntryView, e: EntryView)
    requires
        with_entry(h, entry).entries.contains(e),
        e.app_id == entry.app_id,
    ensures
        latest_file(with_entry(h, entry).entries, entry.app_id) matches Some(file) && !before(
            file,
            e.file,
        ),
{
    let all = with_entry(h, entry).entries;
    let own = of_app(all, entry.app_id);
    appended_entries_of_app(h, entry, entry.app_id);
    lemma_latest_is_first(all, entry.app_id);
    assert(own.contains(e));
    let i = choose|i: int| 0 <= i < own.len() && own[i] == e;
    assert(!before(own[0].file, own[i].file));
}

/// The last backup that is told of an app is the first of its entries.
proof fn lemma_latest_is_first(entries: Seq<EntryView>, app_id: Seq<char>)
    ensures
        of_app(entries, app_id).len() == 0 ==> latest_file(entries, app_id) is None,
        of_app(entries, app_id).len() > 0 ==> latest_file(entries, app_id) == Some(
            of_app(entries, app_id)[0].file,
        ),
    decreases entries.len(),
{
    let wanted = |e: EntryView| e.app_id == app_id;
    if entries.len() > 0 {
        let first = seq![entries[0]];
        let rest = entries.skip(1);
        lemma_latest_is_first(rest, app_id);
        assert(entries =~= first + rest);
        Seq::filter_distributes_over_add(first, rest, wanted);
        assert(first.filter(wanted) =~= if entries[0].app_id == app_id {
            first
        } else {
            Seq::empty()
        }) by {
            reveal(Seq::filter);
            assert(first.drop_last() =~= Seq::empty());
            assert(first.drop_last().filter(wanted) =~= Seq::empty());
        }
    } else {
        reveal(Seq::filter);
    }
}

/// An app without a backup in the index has no last one, and one with a backup has.
pub proof fn last_backup_is_listed(entries: Seq<EntryView>, app_id: Seq<char>)
    ensures
        latest_file(entries, app_id) matches Some(file) ==> exists|i: int|
            0 <= i < entries.len() && (#[trigger] entries[i]).app_id == app_id && entries[i].file
                == file,
        latest_file(entries, app_id) is None ==> forall|i: int|
            0 <= i < entries.len() ==> (#[trigger] entries[i]).app_id != app_id,
    decreases entries.len(),
{
    if entries.len() > 0 && entries[0].app_id != app_id {
        let rest = entries.skip(1);
        last_backup_is_listed(rest, app_id);
        if latest_file(rest, app_id) is Some {
            let i = choose|i: int|
                0 <= i < rest.len() && (#[trigger] rest[i]).app_id == app_id && rest[i].file
                    == latest_file(rest, app_id)->0;
            assert(entries[i + 1] == rest[i]);
        } else {
            assert forall|i: int| 0 <= i < entries.len() implies (#[trigger] entries[i]).app_id
                != app_id by {
                if i > 0 {
                    assert(entries[i] == rest[i - 1]);
                }
            }
        }
    }
}

/// Different results have different names.
pub proof fn result_names_differ(a: AppResult, b: AppResult)
    requires
        result_name(a) == result_name(b),
    ensures
        a == b,
{
    reveal_strlit("ok");
    reveal_strlit("skipped");
    reveal_strlit("failed");
    reveal_strlit("cancelled");
    assert("ok"@.len() == 2 && "skipped"@.len() == 7 && "failed"@.len() == 6 && "cancelled"@.len()
        == 9);
}

/// Events are shown as they are, each thing in its place. What is not shown is only the
/// single file and the steps of a scan.
pub proof fn events_are_shown_as_they_are(ev: EventView)
    ensures
        shown_event(ev) is None <==> ev is FileDone || ev is ScanUpdate,
        match ev {
            EventView::Log { level, msg } => shown_event(ev) matches Some(
                ShownEvent::Log { level: l, msg: m },
            ) && l == level.name() && m == msg,
            EventView::AppStarted { app_id } => shown_event(ev) matches Some(
                ShownEvent::AppStarted { app_id: id },
            ) && id == app_id,
            EventView::ScanDone { app_id, files_total, bytes_total } => shown_event(ev) matches Some(
                ShownEvent::ScanDone { app_id: id, files_total: f, bytes_total: b },
            ) && id == app_id && f == files_total && b == bytes_total,
            EventView::AppProgress {
                app_id,
                files_done,
                files_total,
                bytes_done,
                bytes_total,
                ..
            } => shown_event(ev) matches Some(
                ShownEvent::AppProgress {
                    app_id: id,
                    files_done: fd,
                    files_total: ft,
                    bytes_done: bd,
                    bytes_total: bt,
                },
            ) && id == app_id && fd == files_done && ft == files_total && bd == bytes_done && bt
                == bytes_total,
            EventView::OverallProgress { apps_done, apps_total, bytes_done, bytes_total, .. } => {
                shown_event(ev) matches Some(
                    ShownEvent::OverallProgress {
                        apps_done: ad,
                        apps_total: at,
                        bytes_done: bd,
                        bytes_total: bt,
                    },
                ) && ad == apps_done && at == apps_total && bd == bytes_done && bt == bytes_total
            },
            EventView::AppFinished { app_id, result, detail, size, .. } => shown_event(ev) matches Some(
                ShownEvent::AppFinished { app_id: id, result: r, detail: d, size: s },
            ) && id == app_id && r == result_name(result) && d == detail && s == size,
            _ => true,
        },
{
}

/// An outcome is shown as it is, each thing in its place.
pub proof fn outcomes_are_shown_as_they_are(o: OutcomeContents)
    ensures
        ({
            let v = shown_outcome(o);
            &&& v.app_id == o.app_id
            &&& v.name == o.name
            &&& v.result == result_name(o.result)
            &&& v.detail == o.detail
            &&& v.size == o.size
        }),
{
}

/// The app that an input describes has its paths on the platform that it is given for
/// and on no other, and everything else as it is given.
pub proof fn input_describes_app(
    id: Seq<char>,
    name: Seq<char>,
    enabled: bool,
    compress: bool,
    paths: Seq<Seq<char>>,
    excludes: Seq<Seq<char>>,
    p: Platform,
    q: Platform,
)
    ensures
        ({
            let a = input_app(id, name, enabled, compress, paths, excludes, p);
            &&& a.id == id
            &&& a.name == name
            &&& a.enabled == enabled
            &&& a.compress == compress
            &&& a.excludes == excludes
            &&& a.paths_on(p) == paths
            &&& q != p ==> a.paths_on(q).len() == 0
        }),
{
    let a = input_app(id, name, enabled, compress, paths, excludes, p);
    key_index_first(a.paths, p.key());
    key_index_first(a.paths, q.key());
    assert(a.paths[0].0 == p.key());
    if q != p {
        platform_keys_distinct(p, q);
    }
}

/// A configuration is written beside its place, in the same directory, under its name
/// with `.tmp` behind it.
pub proof fn config_is_written_beside(p: Platform, dir: Seq<char>, name: Seq<char>)
    requires
        is_firm(p, dir),
        is_plain_name(p, name),
    ensures
        components(p, tmp_of(p, join(p, dir, name))) == components(p, dir).push(name + ".tmp"@),
{
    reveal_strlit(".tmp");
    join_adds_component(p, dir, name);
    longer_name_is_plain(p, name, ".tmp"@);
    renamed_path_stays_beside(p, dir, name, name + ".tmp"@);
}

/// An app has paths where one stands for something that exists. It lacks some where
/// one stands for nothing that exists or has a variable that is not defined. Paths of
/// another platform count for neither.
pub proof fn paths_on_disk_are_told(
    candidates: Seq<(Seq<char>, PathView)>,
    exist: Seq<bool>,
    i: int,
)
    requires
        0 <= i < candidates.len(),
    ensures
        candidates[i].1 is Resolved && exist[i] ==> has_existing(candidates, exist),
        candidates[i].1 is Resolved && !exist[i] ==> has_lacking(candidates, exist),
        candidates[i].1 is UndefinedVar ==> has_lacking(candidates, exist),
        (forall|k: int| 0 <= k < candidates.len() ==> (#[trigger] candidates[k]).1 is OtherPlatform)
            ==> !has_existing(candidates, exist) && !has_lacking(candidates, exist),
        (forall|k: int|
            0 <= k < candidates.len() ==> (#[trigger] candidates[k]).1 is Resolved && exist[k])
            ==> !has_lacking(candidates, exist),
        (forall|k: int| 0 <= k < candidates.len() ==> (#[trigger] candidates[k]).1 is Resolved
            ==> !exist[k]) ==> !has_existing(candidates, exist),
{
}

/// The ids that are taken are those of the apps.
pub proof fn taken_ids_are_those_of_apps(apps: Seq<AppContents>, id: Seq<char>)
    ensures
        id_list(apps).len() == apps.len(),
        id_list(apps).contains(id) <==> exists|i: int|
            0 <= i < apps.len() && (#[trigger] apps[i]).id == id,
{
    let ids = id_list(apps);
    if ids.contains(id) {
        let i = choose|i: int| 0 <= i < ids.len() && ids[i] == id;
        assert(apps[i].id == id);
    }
    if exists|i: int| 0 <= i < apps.len() && (#[trigger] apps[i]).id == id {
        let i = choose|i: int| 0 <= i < apps.len() && (#[trigger] apps[i]).id == id;
        assert(ids[i] == id);
    }
}

/// An app that is saved is in the configuration under its id, as it was given; one with
/// a fault is refused with what is wrong.
pub proof fn saved_app_is_in_config(
    c: ConfigContents,
    app: AppContents,
    p: Platform,
    r: Result<Config, String>,
)
    requires
        saved(c, app, p, r),
        forall|i: int| 0 <= i < c.apps.len() ==> distinct_keys((#[trigger] c.apps[i]).paths),
    ensures
        r is Ok == app_fault(app, p) is None,
        r matches Err(why) ==> app_fault(app, p) == Some(why@),
        r matches Ok(n) ==> {
            let i = n@.app_index(trimmed(app.id));
            &&& i < n@.apps.len()
            &&& n@.apps[i].name == trimmed(app.name)
            &&& n@.apps[i].enabled == app.enabled
            &&& n@.apps[i].compress == app.compress
            &&& n@.apps[i].excludes == trimmed_nonempty(app.excludes)
            &&& n@.apps[i].paths_on(p) == trimmed_nonempty(app.paths_on(p))
            &&& n@.backup == c.backup
            &&& n@.source == c.source
        },
{
    if app_fault(app, p) is None {
        upserted_app_is_found(c, app, p);
    }
}

/// What is said of an app that is not there names it, and so does what is said of a
/// configuration that cannot be loaded of the path where it was looked for. Of the
/// configuration the same is said with the path and without.
pub proof fn what_is_missing_is_named(id: Seq<char>, path: Seq<char>)
    ensures
        ends_in(no_such_app(id), id),
        mentions(no_config_at(path), path),
        no_config().len() > 0,
        mentions(no_config_at(path), no_config()),
        no_such_app(id) == no_such_app(path) ==> id == path,
{
    reveal_strlit("无法加载配置文件");
    reveal_strlit("无法加载配置文件: ");
    let words = no_config_at(path);
    let rest = words.skip(no_config().len() as int);
    assert(words =~= Seq::<char>::empty() + no_config() + rest);
    middle_is_mentioned(Seq::empty(), no_config(), rest);
    let head = "未找到应用: "@;
    assert(no_such_app(id).skip(head.len() as int) =~= id);
    assert(no_such_app(path).skip(head.len() as int) =~= path);
    middle_is_mentioned(
        "无法加载配置文件: "@,
        path,
        "（可用 BACKUP_TOOL_CONFIG 指定路径）"@,
    );
}

} // verus!
