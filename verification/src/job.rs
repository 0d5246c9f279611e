//! The backup of one app, step by step.
//!
//! Each step takes what came of the work before it and tells what is reported
//! and, where the app is finished, with which outcome.

use crate::archive::{build_archive_prefixes, prefixes_are_distinct, root_pairs, root_prefixes};
use crate::backup::{AppOutcome, OutcomeContents};
use crate::config::{App, AppContents, Config, ConfigContents, Format};
use crate::events::{event_list, AppResult, Event, EventView, LogLevel};
use crate::excludes::{combined_excludes, rules_for};
use crate::history::{
    archive_named, backup_name_tells_format, found_entry, EntryView, FoundView, HistoryEntry,
};
use crate::pathres::{resolved, Environment, PathState, PathView};
use crate::paths::{join, key_of, key_tells_path, path_join, path_key, same_path};
use crate::platform::Platform;
use crate::summary::{
    file_name_text, name_or_empty, path_infos, BackupPathInfo, BackupSummary, ChecksumInfo,
    ChecksumView, PathInfoView, SummaryView,
};
use crate::text::{
    cat, cat3, cat4, clone_opt, decimal, decimal_text, ends_in, join_texts, joined, opt_text, same,
    texts,
};
use globset::GlobSet;
use vstd::prelude::*;
use vstd::string::*;

verus! {

// ---------------------------------------------------------------------------
// The end of an app
// ---------------------------------------------------------------------------

/// The report that an app is finished.
pub open spec fn finished(o: OutcomeContents) -> EventView {
    EventView::AppFinished {
        app_id: o.app_id,
        result: o.result,
        detail: o.detail,
        size: o.size,
        checksum: o.checksum,
    }
}

/// The outcome of an app of which there is no backup.
pub open spec fn without_backup(app: AppContents, result: AppResult, detail: Seq<char>) -> OutcomeContents {
    OutcomeContents { app_id: app.id, name: app.name, result, detail, size: 0, checksum: None }
}

fn finish_event(o: &AppOutcome) -> (r: Event)
    ensures
        r@ == finished(o@),
{
    Event::AppFinished {
        app_id: o.app_id.clone(),
        result: o.result,
        detail: o.detail.clone(),
        size: o.size,
        checksum: clone_opt(&o.checksum),
    }
}

fn outcome_without_backup(app: &App, result: AppResult, detail: String) -> (r: AppOutcome)
    ensures
        r@ == without_backup(app@, result, detail@),
{
    AppOutcome {
        app_id: app.id.clone(),
        name: app.name.clone(),
        result,
        detail,
        size: 0,
        checksum: None,
    }
}

/// How an app ended, and what is reported of it.
#[derive(Debug)]
pub struct Ending {
    pub events: Vec<Event>,
    pub outcome: AppOutcome,
}

/// The ending of an app of which there is no backup.
pub open spec fn plain_ending(e: Ending, o: OutcomeContents) -> bool {
    e.outcome@ == o && event_list(e.events@) == seq![finished(o)]
}

fn end_without_backup(app: &App, result: AppResult, detail: String) -> (r: Ending)
    ensures
        plain_ending(r, without_backup(app@, result, detail@)),
{
    let outcome = outcome_without_backup(app, result, detail);
    let mut events: Vec<Event> = Vec::new();
    events.push(finish_event(&outcome));
    assert(event_list(events@) =~= seq![finished(outcome@)]);
    Ending { events, outcome }
}

/// The ending of an app that failed with an error that is logged.
pub open spec fn logged_failure(app: AppContents, detail: Seq<char>) -> Seq<EventView> {
    seq![
        EventView::Log { level: LogLevel::Error, msg: "app "@ + app.id + ": "@ + detail },
        finished(without_backup(app, AppResult::Failed, detail)),
    ]
}

fn fail_logged(app: &App, detail: String) -> (r: Ending)
    ensures
        r.outcome@ == without_backup(app@, AppResult::Failed, detail@),
        event_list(r.events@) == logged_failure(app@, detail@),
{
    let mut events: Vec<Event> = Vec::new();
    events.push(
        Event::Log {
            level: LogLevel::Error,
            msg: cat4("app ", app.id.as_str(), ": ", detail.as_str()),
        },
    );
    let outcome = outcome_without_backup(app, AppResult::Failed, detail);
    events.push(finish_event(&outcome));
    assert(event_list(events@) =~= logged_failure(app@, outcome@.detail));
    Ending { events, outcome }
}

// ---------------------------------------------------------------------------
// Roots
// ---------------------------------------------------------------------------

/// A configured path and what it stands for.
#[derive(Debug, Clone)]
pub struct RootCandidate {
    pub raw: String,
    pub state: PathState,
}

/// The contents of each candidate.
pub open spec fn candidate_list(list: Seq<RootCandidate>) -> Seq<(Seq<char>, PathView)> {
    list.map_values(|c: RootCandidate| (c.raw@, c.state@))
}

/// The first report on an app.
pub fn started_event(app: &App) -> (r: Event)
    ensures
        r@ == (EventView::AppStarted { app_id: app@.id }),
{
    Event::AppStarted { app_id: app.id.clone() }
}

/// The configured paths of an app on a platform, each with what it stands for.
pub fn root_candidates(app: &App, config: &Config, platform: Platform, env: &Environment) -> (r:
    Vec<RootCandidate>)
    ensures
        candidate_list(r@) == app@.paths_on(platform).map_values(
            |raw: Seq<char>| (raw, resolved(platform, env@, raw, config@.dir(platform))),
        ),
{
    let raws = config.paths_for(app, platform);
    let ghost all = app@.paths_on(platform);
    let ghost f = |raw: Seq<char>| (raw, resolved(platform, env@, raw, config@.dir(platform)));
    let mut r: Vec<RootCandidate> = Vec::new();
    let mut i: usize = 0;
    assert(raws@.map_values(|s: &String| s@).len() == raws@.len());
    while i < raws.len()
        invariant
            i <= raws@.len(),
            raws@.map_values(|s: &String| s@) == all,
            all == app@.paths_on(platform),
            f == (|raw: Seq<char>|
                (raw, resolved(platform, env@, raw, config@.dir(platform)))),
            candidate_list(r@) == all.map_values(f).take(i as int),
        decreases raws@.len() - i,
    {
        let ghost so_far = r@;
        let raw = raws[i].clone();
        assert(raws@.map_values(|s: &String| s@)[i as int] == raw@);
        let state = config.expand(raw.as_str(), platform, env);
        let c = RootCandidate { raw, state };
        r.push(c);
        i = i + 1;
        proof {
            assert(candidate_list(r@) =~= candidate_list(so_far).push((c.raw@, c.state@)));
            assert(all.map_values(f).take(i as int) =~= all.map_values(f).take(i - 1).push(
                all.map_values(f)[i - 1],
            ));
        }
    }
    assert(all.map_values(f).take(i as int) =~= all.map_values(f));
    r
}

/// What a configured path is good for.
#[derive(Debug, Clone)]
pub enum RootClass {
    /// There is something to back up.
    Backup(String),
    /// There is nothing at the path.
    Missing(String),
    /// A variable is not defined.
    Undefined(String),
    OtherPlatform,
}

/// The contents of a [`RootClass`].
#[verifier::ext_equal]
pub enum ClassView {
    Backup(Seq<char>),
    Missing(Seq<char>),
    Undefined(Seq<char>),
    OtherPlatform,
}

impl View for RootClass {
    type V = ClassView;

    open spec fn view(&self) -> ClassView {
        match self {
            RootClass::Backup(p) => ClassView::Backup(p@),
            RootClass::Missing(p) => ClassView::Missing(p@),
            RootClass::Undefined(v) => ClassView::Undefined(v@),
            RootClass::OtherPlatform => ClassView::OtherPlatform,
        }
    }
}

/// What a path is good for, given whether something exists there.
pub open spec fn class_of(state: PathView, exists_there: bool) -> ClassView {
    match state {
        PathView::Resolved { path } => if exists_there {
            ClassView::Backup(path)
        } else {
            ClassView::Missing(path)
        },
        PathView::UndefinedVar { var } => ClassView::Undefined(var),
        PathView::OtherPlatform { .. } => ClassView::OtherPlatform,
    }
}

/// What a path is good for, given whether something exists there.
pub fn classify_root(state: &PathState, exists_there: bool) -> (r: RootClass)
    ensures
        r@ == class_of(state@, exists_there),
{
    match state {
        PathState::Resolved { path } => {
            if exists_there {
                RootClass::Backup(path.clone())
            } else {
                RootClass::Missing(path.clone())
            }
        },
        PathState::UndefinedVar { var } => RootClass::Undefined(var.clone()),
        PathState::OtherPlatform { .. } => RootClass::OtherPlatform,
    }
}

/// A configured root with its resolution, for the summary.
#[derive(Debug, Clone)]
pub struct RootInfo {
    pub raw: String,
    /// Empty where a variable was not defined.
    pub resolved: String,
    pub existed: bool,
}

/// The contents of a [`RootInfo`].
#[verifier::ext_equal]
pub struct RootInfoView {
    pub raw: Seq<char>,
    pub resolved: Seq<char>,
    pub existed: bool,
}

impl View for RootInfo {
    type V = RootInfoView;

    open spec fn view(&self) -> RootInfoView {
        RootInfoView { raw: self.raw@, resolved: self.resolved@, existed: self.existed }
    }
}

/// The contents of each [`RootInfo`].
pub open spec fn info_list(list: Seq<RootInfo>) -> Seq<RootInfoView> {
    list.map_values(|i: RootInfo| i@)
}

/// What is reported of a root, where something is.
pub open spec fn root_report(app_id: Seq<char>, class: ClassView) -> Seq<EventView> {
    match class {
        ClassView::Backup(_) => Seq::empty(),
        ClassView::Missing(path) => seq![
            EventView::Log {
                level: LogLevel::Warn,
                msg: "app "@ + app_id + ": path missing, skipped: "@ + path,
            },
        ],
        ClassView::Undefined(var) => seq![
            EventView::Log {
                level: LogLevel::Warn,
                msg: "app "@ + app_id + ": env var not defined: "@ + var,
            },
        ],
        ClassView::OtherPlatform => seq![
            EventView::Log {
                level: LogLevel::Debug,
                msg: "app "@ + app_id + ": path targets another platform, ignored"@,
            },
        ],
    }
}

/// Why a root is left out, where that is worth telling.
pub open spec fn root_reason(class: ClassView) -> Seq<Seq<char>> {
    match class {
        ClassView::Missing(path) => seq!["path missing: "@ + path],
        ClassView::Undefined(var) => seq!["env var not defined: "@ + var],
        _ => Seq::empty(),
    }
}

/// What the summary holds of a root, where it holds something.
pub open spec fn root_info(raw: Seq<char>, class: ClassView) -> Seq<RootInfoView> {
    match class {
        ClassView::Backup(path) => seq![RootInfoView { raw, resolved: path, existed: true }],
        ClassView::Missing(path) => seq![RootInfoView { raw, resolved: path, existed: false }],
        ClassView::Undefined(_) => seq![
            RootInfoView { raw, resolved: Seq::empty(), existed: false },
        ],
        ClassView::OtherPlatform => Seq::empty(),
    }
}

/// The path that is backed up for a root, where there is one.
pub open spec fn root_path(class: ClassView) -> Seq<Seq<char>> {
    match class {
        ClassView::Backup(path) => seq![path],
        _ => Seq::empty(),
    }
}

/// What the candidates are good for together.
#[verifier::ext_equal]
pub struct Findings {
    pub events: Seq<EventView>,
    pub reasons: Seq<Seq<char>>,
    pub infos: Seq<RootInfoView>,
    pub valid: Seq<Seq<char>>,
}

/// What the first `n` candidates are good for, given which of them exist.
pub open spec fn findings(
    app_id: Seq<char>,
    candidates: Seq<(Seq<char>, PathView)>,
    exist: Seq<bool>,
    n: nat,
) -> Findings
    decreases n,
{
    if n == 0 {
        Findings {
            events: Seq::empty(),
            reasons: Seq::empty(),
            infos: Seq::empty(),
            valid: Seq::empty(),
        }
    } else {
        let f = findings(app_id, candidates, exist, (n - 1) as nat);
        let (raw, state) = candidates[n - 1];
        let class = class_of(state, exist[n - 1]);
        Findings {
            events: f.events + root_report(app_id, class),
            reasons: f.reasons + root_reason(class),
            infos: f.infos + root_info(raw, class),
            valid: f.valid + root_path(class),
        }
    }
}

/// Why an app without a path to back up is skipped.
pub open spec fn skip_detail(reasons: Seq<Seq<char>>) -> Seq<char> {
    if reasons.len() == 0 {
        "not configured for this platform"@
    } else {
        joined(reasons, "; "@)
    }
}

/// The roots of an app.
#[derive(Debug)]
pub struct RootsFound {
    pub events: Vec<Event>,
    pub infos: Vec<RootInfo>,
    /// The roots to back up.
    pub valid: Vec<String>,
    /// Set where there is nothing to back up: the app is skipped.
    pub outcome: Option<AppOutcome>,
}

/// The contents of an optional outcome.
pub open spec fn opt_outcome(o: Option<AppOutcome>) -> Option<OutcomeContents> {
    match o {
        Some(x) => Some(x@),
        None => None,
    }
}

/// Looks over the candidates, given which of them exist. An app with nothing to
/// back up is skipped.
pub fn look_over_roots(app: &App, candidates: &Vec<RootCandidate>, exist: &Vec<bool>) -> (r:
    RootsFound)
    requires
        candidates@.len() == exist@.len(),
    ensures
        ({
            let f = findings(app@.id, candidate_list(candidates@), exist@, candidates@.len());
            let skip = without_backup(app@, AppResult::Skipped, skip_detail(f.reasons));
            &&& info_list(r.infos@) == f.infos
            &&& texts(r.valid@) == f.valid
            &&& opt_outcome(r.outcome) == if f.valid.len() == 0 {
                Some(skip)
            } else {
                None
            }
            &&& event_list(r.events@) == if f.valid.len() == 0 {
                f.events.push(finished(skip))
            } else {
                f.events
            }
        }),
{
    let ghost all = candidate_list(candidates@);
    let app_id = app.id.as_str();
    let mut events: Vec<Event> = Vec::new();
    let mut reasons: Vec<String> = Vec::new();
    let mut infos: Vec<RootInfo> = Vec::new();
    let mut valid: Vec<String> = Vec::new();
    let mut i: usize = 0;
    proof {
        let f = findings(app@.id, all, exist@, 0);
        assert(event_list(events@) =~= f.events);
        assert(texts(reasons@) =~= f.reasons);
        assert(info_list(infos@) =~= f.infos);
        assert(texts(valid@) =~= f.valid);
    }
    while i < candidates.len()
        invariant
            i <= candidates@.len(),
            candidates@.len() == exist@.len(),
            all == candidate_list(candidates@),
            app_id@ == app@.id,
            event_list(events@) == findings(app@.id, all, exist@, i as nat).events,
            texts(reasons@) == findings(app@.id, all, exist@, i as nat).reasons,
            info_list(infos@) == findings(app@.id, all, exist@, i as nat).infos,
            texts(valid@) == findings(app@.id, all, exist@, i as nat).valid,
        decreases candidates@.len() - i,
    {
        let ghost f = findings(app@.id, all, exist@, i as nat);
        let ghost e0 = events@;
        let ghost r0 = reasons@;
        let ghost i0 = infos@;
        let ghost v0 = valid@;
        let raw = candidates[i].raw.clone();
        let class = classify_root(&candidates[i].state, exist[i]);
        let ghost class_view = class@;
        assert(all[i as int] == (raw@, candidates@[i as int].state@));
        match class {
            RootClass::Backup(path) => {
                valid.push(path.clone());
                infos.push(RootInfo { raw, resolved: path, existed: true });
            },
            RootClass::Missing(path) => {
                events.push(
                    Event::Log {
                        level: LogLevel::Warn,
                        msg: cat4("app ", app_id, ": path missing, skipped: ", path.as_str()),
                    },
                );
                reasons.push(cat("path missing: ", path.as_str()));
                infos.push(RootInfo { raw, resolved: path, existed: false });
            },
            RootClass::Undefined(var) => {
                events.push(
                    Event::Log {
                        level: LogLevel::Warn,
                        msg: cat4("app ", app_id, ": env var not defined: ", var.as_str()),
                    },
                );
                reasons.push(cat("env var not defined: ", var.as_str()));
                let nothing = String::new();
                assert(nothing@ =~= Seq::empty());
                infos.push(RootInfo { raw, resolved: nothing, existed: false });
            },
            RootClass::OtherPlatform => {
                events.push(
                    Event::Log {
                        level: LogLevel::Debug,
                        msg: cat3("app ", app_id, ": path targets another platform, ignored"),
                    },
                );
            },
        }
        i = i + 1;
        proof {
            assert(event_list(events@) =~= f.events + root_report(app@.id, class_view));
            assert(texts(reasons@) =~= f.reasons + root_reason(class_view));
            assert(info_list(infos@) =~= f.infos + root_info(raw@, class_view));
            assert(texts(valid@) =~= f.valid + root_path(class_view));
        }
    }
    if valid.len() > 0 {
        assert(texts(valid@).len() > 0);
        return RootsFound { events, infos, valid, outcome: None };
    }
    let detail = if reasons.len() == 0 {
        "not configured for this platform".to_string()
    } else {
        join_texts(&reasons, "; ")
    };
    let ghost before = events@;
    let outcome = outcome_without_backup(app, AppResult::Skipped, detail);
    events.push(finish_event(&outcome));
    proof {
        assert(texts(reasons@).len() == reasons@.len());
        assert(texts(valid@).len() == 0);
        assert(event_list(events@) =~= event_list(before).push(finished(outcome@)));
    }
    RootsFound { events, infos, valid, outcome: Some(outcome) }
}

// ---------------------------------------------------------------------------
// Prefixes
// ---------------------------------------------------------------------------

/// The infos of roots that stand for a path.
pub open spec fn with_path(infos: Seq<RootInfoView>) -> Seq<RootInfoView> {
    infos.filter(|i: RootInfoView| i.resolved.len() > 0)
}

/// The paths of roots.
pub open spec fn resolved_list(infos: Seq<RootInfoView>) -> Seq<Seq<char>> {
    infos.map_values(|i: RootInfoView| i.resolved)
}

/// Each root that stands for a path, with its prefix in the archive.
pub open spec fn prefixes_of(p: Platform, infos: Seq<RootInfoView>) -> Seq<(Seq<char>, Seq<char>)> {
    root_prefixes(p, resolved_list(with_path(infos)))
}

/// Those of the first `n` roots with a prefix that exist.
pub open spec fn existing(
    infos: Seq<RootInfoView>,
    pairs: Seq<(Seq<char>, Seq<char>)>,
    n: nat,
) -> Seq<(Seq<char>, Seq<char>)>
    decreases n,
{
    if n == 0 {
        Seq::empty()
    } else {
        let rest = existing(infos, pairs, (n - 1) as nat);
        if infos[n - 1].existed {
            rest.push(pairs[n - 1])
        } else {
            rest
        }
    }
}

/// The roots that are packed, each with its prefix.
pub open spec fn packed_roots(p: Platform, infos: Seq<RootInfoView>) -> Seq<(Seq<char>, Seq<char>)> {
    existing(with_path(infos), prefixes_of(p, infos), with_path(infos).len())
}

/// The prefixes of roots.
#[derive(Debug)]
pub struct RootPrefixes {
    /// Each root that stands for a path, with its prefix.
    pub all: Vec<(String, String)>,
    /// Those that exist.
    pub packed: Vec<(String, String)>,
}

/// Gives each root its prefix in the archive.
pub fn assign_prefixes(infos: &Vec<RootInfo>, platform: Platform) -> (r: RootPrefixes)
    ensures
        root_pairs(r.all@) == prefixes_of(platform, info_list(infos@)),
        root_pairs(r.packed@) == packed_roots(platform, info_list(infos@)),
{
    let ghost all = info_list(infos@);
    let ghost full = |i: RootInfoView| i.resolved.len() > 0;
    let mut roots: Vec<String> = Vec::new();
    let mut flags: Vec<bool> = Vec::new();
    let mut i: usize = 0;
    proof {
        reveal(Seq::filter);
        assert(texts(roots@) =~= resolved_list(all.take(0).filter(full)));
    }
    while i < infos.len()
        invariant
            i <= infos@.len(),
            all == info_list(infos@),
            full == (|i: RootInfoView| i.resolved.len() > 0),
            texts(roots@) == resolved_list(all.take(i as int).filter(full)),
            flags@.len() == roots@.len(),
            forall|k: int|
                0 <= k < flags@.len() ==> #[trigger] flags@[k] == all.take(i as int).filter(
                    full,
                )[k].existed,
        decreases infos@.len() - i,
    {
        let ghost so_far = roots@;
        let ghost kept = all.take(i as int).filter(full);
        proof {
            reveal(Seq::filter);
            assert(all.take(i + 1).drop_last() =~= all.take(i as int));
            assert(all.take(i + 1).last() == infos@[i as int]@);
            assert(texts(roots@).len() == kept.len());
        }
        if !infos[i].resolved.as_str().is_empty() {
            roots.push(infos[i].resolved.clone());
            flags.push(infos[i].existed);
            proof {
                assert(texts(roots@) =~= texts(so_far).push(infos@[i as int]@.resolved));
                assert(resolved_list(kept.push(infos@[i as int]@)) =~= resolved_list(kept).push(
                    infos@[i as int]@.resolved,
                ));
            }
        }
        i = i + 1;
    }
    assert(all.take(i as int) =~= all);
    let ghost kept = with_path(all);
    let pairs = build_archive_prefixes(&roots, platform);
    proof {
        prefixes_are_distinct(platform, texts(roots@));
        assert(root_pairs(pairs@).len() == pairs@.len());
        assert(texts(roots@).len() == roots@.len());
        assert(resolved_list(kept).len() == kept.len());
    }
    let mut packed: Vec<(String, String)> = Vec::new();
    let mut k: usize = 0;
    assert(root_pairs(packed@) =~= Seq::empty());
    while k < pairs.len()
        invariant
            k <= pairs@.len(),
            pairs@.len() == flags@.len() == kept.len(),
            forall|j: int| 0 <= j < flags@.len() ==> #[trigger] flags@[j] == kept[j].existed,
            root_pairs(packed@) == existing(kept, root_pairs(pairs@), k as nat),
        decreases pairs@.len() - k,
    {
        let ghost so_far = packed@;
        assert(root_pairs(pairs@)[k as int] == (pairs@[k as int].0@, pairs@[k as int].1@));
        if flags[k] {
            packed.push((pairs[k].0.clone(), pairs[k].1.clone()));
            assert(root_pairs(packed@) =~= root_pairs(so_far).push(root_pairs(pairs@)[k as int]));
        }
        k = k + 1;
    }
    RootPrefixes { all: pairs, packed }
}

// ---------------------------------------------------------------------------
// Exclude rules and scan
// ---------------------------------------------------------------------------

/// How an app ends whose exclude rules are not accepted.
pub fn rules_refused(app: &App, error: &str) -> (r: Ending)
    ensures
        r.outcome@ == without_backup(
            app@,
            AppResult::Failed,
            "invalid exclude rule: "@ + error@,
        ),
        event_list(r.events@) == logged_failure(app@, "invalid exclude rule: "@ + error@),
{
    fail_logged(app, cat("invalid exclude rule: ", error))
}

/// The exclude rules of an app as they came out: ready to be matched, or how the
/// app ends where they are not accepted.
pub fn settle_rules(app: &App, built: Result<GlobSet, String>) -> (r: Result<GlobSet, Ending>)
    ensures
        match built {
            Ok(set) => r == Ok::<GlobSet, Ending>(set),
            Err(why) => r matches Err(e) && e.outcome@ == without_backup(
                app@,
                AppResult::Failed,
                "invalid exclude rule: "@ + why@,
            ) && event_list(e.events@) == logged_failure(app@, "invalid exclude rule: "@ + why@),
        },
{
    match built {
        Ok(set) => Ok(set),
        Err(why) => Err(rules_refused(app, why.as_str())),
    }
}

/// What is reported of a scan that is over.
pub open spec fn scan_report(app_id: Seq<char>, files: u64, bytes: u64) -> Seq<EventView> {
    seq![
        EventView::ScanDone { app_id, files_total: files, bytes_total: bytes },
        EventView::Log {
            level: LogLevel::Info,
            msg: "app "@ + app_id + ": scanned "@ + decimal(files as nat) + " file(s), "@ + decimal(
                bytes as nat,
            ) + " bytes"@,
        },
    ]
}

/// What comes after a scan.
#[derive(Debug)]
pub struct AfterScan {
    pub events: Vec<Event>,
    /// Set where the scan was cancelled: the app is finished.
    pub outcome: Option<AppOutcome>,
}

/// Reports on a scan that is over. A cancelled one ends the app.
pub fn scan_over(app: &App, files_total: u64, bytes_total: u64, cancelled: bool) -> (r: AfterScan)
    ensures
        ({
            let stop = without_backup(app@, AppResult::Cancelled, "cancelled during scan"@);
            &&& opt_outcome(r.outcome) == if cancelled {
                Some(stop)
            } else {
                None
            }
            &&& event_list(r.events@) == if cancelled {
                scan_report(app@.id, files_total, bytes_total).push(finished(stop))
            } else {
                scan_report(app@.id, files_total, bytes_total)
            }
        }),
{
    let mut events: Vec<Event> = Vec::new();
    events.push(Event::ScanDone { app_id: app.id.clone(), files_total, bytes_total });
    let files = decimal_text(files_total as u128);
    let bytes = decimal_text(bytes_total as u128);
    let head = cat4("app ", app.id.as_str(), ": scanned ", files.as_str());
    let msg = cat4(head.as_str(), " file(s), ", bytes.as_str(), " bytes");
    events.push(Event::Log { level: LogLevel::Info, msg });
    assert(event_list(events@) =~= scan_report(app@.id, files_total, bytes_total));
    if !cancelled {
        return AfterScan { events, outcome: None };
    }
    let ghost before = events@;
    let outcome = outcome_without_backup(
        app,
        AppResult::Cancelled,
        "cancelled during scan".to_string(),
    );
    events.push(finish_event(&outcome));
    assert(event_list(events@) =~= event_list(before).push(finished(outcome@)));
    AfterScan { events, outcome: Some(outcome) }
}

// ---------------------------------------------------------------------------
// Packing
// ---------------------------------------------------------------------------

/// How an app ends whose directory cannot be made.
pub fn dest_refused(app: &App, error: &str) -> (r: Ending)
    ensures
        plain_ending(
            r,
            without_backup(app@, AppResult::Failed, "cannot create dest dir: "@ + error@),
        ),
{
    end_without_backup(app, AppResult::Failed, cat("cannot create dest dir: ", error))
}

/// The directory for the backups of an app.
pub fn app_dir(dest: &str, app: &App, platform: Platform) -> (r: String)
    ensures
        r@ == join(platform, dest@, app@.id),
{
    path_join(platform, dest, app.id.as_str())
}

/// The format an app is backed up in.
pub open spec fn format_of(app: AppContents, c: ConfigContents) -> Format {
    if app.compress {
        c.backup.format
    } else {
        Format::Dir
    }
}

/// The format an app is backed up in: the configured one, or a plain copy where
/// the app is not to be compressed.
pub fn pack_format(app: &App, config: &Config) -> (r: Format)
    ensures
        r == format_of(app@, config@),
{
    if app.compress {
        config.backup.format
    } else {
        Format::Dir
    }
}

/// The name of a backup made at the given time, without its extension.
pub fn base_name_at(app: &App, time: &str) -> (r: String)
    ensures
        r@ == app@.id + "_"@ + time@,
{
    cat3(app.id.as_str(), "_", time)
}

/// How an app ends that could not be packed: cancelled where that was asked for,
/// failed otherwise.
pub fn pack_failed(app: &App, error: &str, cancelled: bool) -> (r: Ending)
    ensures
        plain_ending(
            r,
            if cancelled {
                without_backup(app@, AppResult::Cancelled, "cancelled: "@ + error@)
            } else {
                without_backup(app@, AppResult::Failed, "pack failed: "@ + error@)
            },
        ),
{
    if cancelled {
        end_without_backup(app, AppResult::Cancelled, cat("cancelled: ", error))
    } else {
        end_without_backup(app, AppResult::Failed, cat("pack failed: ", error))
    }
}

/// Whether a checksum is made of a backup: where it is asked for and the backup
/// is one file.
pub fn wants_checksum(config: &Config, format: Format) -> (r: bool)
    ensures
        r == (config@.backup.checksum && !(format is Dir)),
{
    match format {
        Format::Dir => false,
        _ => config.backup.checksum,
    }
}

// ---------------------------------------------------------------------------
// Summary and history
// ---------------------------------------------------------------------------

/// What is known of a backup that is in its place.
#[derive(Debug)]
pub struct Packed {
    pub final_path: String,
    pub format: Format,
    pub size: u64,
    pub files_total: u64,
    pub bytes_total: u64,
    pub started_at: String,
    pub finished_at: String,
    pub checksum: Option<String>,
}

/// The contents of a [`Packed`].
#[verifier::ext_equal]
pub struct PackedView {
    pub final_path: Seq<char>,
    pub format: Format,
    pub size: u64,
    pub files_total: u64,
    pub bytes_total: u64,
    pub started_at: Seq<char>,
    pub finished_at: Seq<char>,
    pub checksum: Option<Seq<char>>,
}

impl View for Packed {
    type V = PackedView;

    open spec fn view(&self) -> PackedView {
        PackedView {
            final_path: self.final_path@,
            format: self.format,
            size: self.size,
            files_total: self.files_total,
            bytes_total: self.bytes_total,
            started_at: self.started_at@,
            finished_at: self.finished_at@,
            checksum: opt_text(self.checksum),
        }
    }
}

/// The prefix of the first root that is the same path as `path`, or nothing.
pub open spec fn prefix_for(
    p: Platform,
    pairs: Seq<(Seq<char>, Seq<char>)>,
    path: Seq<char>,
) -> Seq<char>
    decreases pairs.len(),
{
    if pairs.len() == 0 {
        Seq::empty()
    } else if same_path(p, pairs[0].0, path) {
        pairs[0].1
    } else {
        prefix_for(p, pairs.skip(1), path)
    }
}

/// What the summary says of a root.
pub open spec fn summary_path(
    p: Platform,
    pairs: Seq<(Seq<char>, Seq<char>)>,
    info: RootInfoView,
) -> PathInfoView {
    PathInfoView {
        raw: info.raw,
        resolved: info.resolved,
        existed: info.existed,
        archive_root: prefix_for(p, pairs, info.resolved),
        restore_to: info.resolved,
    }
}

/// The summary of a backup.
pub open spec fn summary_of(
    app: AppContents,
    c: ConfigContents,
    p: Platform,
    packed: PackedView,
    infos: Seq<RootInfoView>,
    pairs: Seq<(Seq<char>, Seq<char>)>,
) -> SummaryView {
    SummaryView {
        version: 1,
        app_id: app.id,
        app_name: app.name,
        platform: p.key(),
        archive: name_or_empty(p, packed.final_path),
        format: packed.format.suffix(),
        size: packed.size,
        files: packed.files_total,
        bytes_total: packed.bytes_total,
        started_at: packed.started_at,
        finished_at: packed.finished_at,
        checksum: match packed.checksum {
            Some(digest) => Some(ChecksumView { algorithm: "sha256"@, digest }),
            None => None,
        },
        status: "ok"@,
        excludes: rules_for(app, c),
        paths: infos.map_values(|i: RootInfoView| summary_path(p, pairs, i)),
    }
}

fn find_prefix(pairs: &Vec<(String, String)>, path: &str, platform: Platform) -> (r: String)
    ensures
        r@ == prefix_for(platform, root_pairs(pairs@), path@),
{
    let ghost all = root_pairs(pairs@);
    let key = path_key(platform, path);
    let mut i: usize = 0;
    assert(all.skip(0) =~= all);
    while i < pairs.len()
        invariant
            i <= pairs@.len(),
            all == root_pairs(pairs@),
            key@ == key_of(platform, path@),
            prefix_for(platform, all, path@) == prefix_for(platform, all.skip(i as int), path@),
        decreases pairs@.len() - i,
    {
        assert(all.skip(i as int)[0] == (pairs@[i as int].0@, pairs@[i as int].1@));
        let other = path_key(platform, pairs[i].0.as_str());
        proof {
            key_tells_path(platform, pairs@[i as int].0@, path@);
        }
        if same(other.as_str(), key.as_str()) {
            return pairs[i].1.clone();
        }
        assert(all.skip(i as int).skip(1) =~= all.skip(i + 1));
        i = i + 1;
    }
    let r = String::new();
    assert(r@ =~= Seq::empty());
    r
}

/// The summary of a backup.
pub fn make_summary(
    app: &App,
    config: &Config,
    platform: Platform,
    packed: &Packed,
    infos: &Vec<RootInfo>,
    prefixes: &Vec<(String, String)>,
) -> (r: BackupSummary)
    ensures
        r@ == summary_of(
            app@,
            config@,
            platform,
            packed@,
            info_list(infos@),
            root_pairs(prefixes@),
        ),
{
    let ghost pairs = root_pairs(prefixes@);
    let ghost all = info_list(infos@);
    let ghost f = |i: RootInfoView| summary_path(platform, pairs, i);
    let mut paths: Vec<BackupPathInfo> = Vec::new();
    let mut i: usize = 0;
    while i < infos.len()
        invariant
            i <= infos@.len(),
            all == info_list(infos@),
            pairs == root_pairs(prefixes@),
            f == (|i: RootInfoView| summary_path(platform, pairs, i)),
            path_infos(paths@) == all.map_values(f).take(i as int),
        decreases infos@.len() - i,
    {
        let ghost so_far = paths@;
        let info = &infos[i];
        let entry = BackupPathInfo {
            raw: info.raw.clone(),
            resolved: info.resolved.clone(),
            existed: info.existed,
            archive_root: find_prefix(prefixes, info.resolved.as_str(), platform),
            restore_to: info.resolved.clone(),
        };
        paths.push(entry);
        i = i + 1;
        proof {
            assert(entry@ == summary_path(platform, pairs, info@));
            assert(path_infos(paths@) =~= path_infos(so_far).push(entry@));
            assert(all.map_values(f).take(i as int) =~= all.map_values(f).take(i - 1).push(
                all.map_values(f)[i - 1],
            ));
        }
    }
    assert(all.map_values(f).take(i as int) =~= all.map_values(f));
    BackupSummary {
        version: 1,
        app_id: app.id.clone(),
        app_name: app.name.clone(),
        platform: platform.as_str().to_string(),
        archive: file_name_text(platform, packed.final_path.as_str()),
        format: packed.format.extension().to_string(),
        size: packed.size,
        files: packed.files_total,
        bytes_total: packed.bytes_total,
        started_at: packed.started_at.clone(),
        finished_at: packed.finished_at.clone(),
        checksum: match &packed.checksum {
            Some(digest) => Some(
                ChecksumInfo { algorithm: "sha256".to_string(), digest: digest.clone() },
            ),
            None => None,
        },
        status: "ok".to_string(),
        excludes: combined_excludes(app, config),
        paths,
    }
}

/// How an app ends whose summary cannot be written. The backup does not stay
/// without one.
pub fn summary_failed(app: &App, error: &str) -> (r: Ending)
    ensures
        r.outcome@ == without_backup(
            app@,
            AppResult::Failed,
            "summary write failed: "@ + error@,
        ),
        event_list(r.events@) == logged_failure(app@, "summary write failed: "@ + error@),
{
    fail_logged(app, cat("summary write failed: ", error))
}

/// The entry in the index for a backup.
pub open spec fn entry_of(app: AppContents, p: Platform, packed: PackedView) -> EntryView {
    EntryView {
        app_id: app.id,
        file: name_or_empty(p, packed.final_path),
        format: packed.format.suffix(),
        size: packed.size,
        files: packed.files_total,
        bytes_total: packed.bytes_total,
        started_at: packed.started_at,
        finished_at: packed.finished_at,
        checksum: packed.checksum,
        status: "ok"@,
    }
}

/// The outcome of an app that is backed up.
pub open spec fn success(app: AppContents, packed: PackedView) -> OutcomeContents {
    OutcomeContents {
        app_id: app.id,
        name: app.name,
        result: AppResult::Succeeded,
        detail: decimal(packed.size as nat) + " bytes"@,
        size: packed.size,
        checksum: packed.checksum,
    }
}

/// What is reported of an app that is backed up.
pub open spec fn success_report(app: AppContents, packed: PackedView) -> Seq<EventView> {
    seq![
        EventView::Log {
            level: LogLevel::Info,
            msg: "app "@ + app.id + ": finished "@ + packed.final_path + ", "@ + decimal(
                packed.size as nat,
            ) + " bytes"@,
        },
        finished(success(app, packed)),
    ]
}

/// How an app ends that is backed up.
#[derive(Debug)]
pub struct Success {
    pub events: Vec<Event>,
    pub outcome: AppOutcome,
    /// What goes into the index.
    pub entry: HistoryEntry,
}

/// Ends an app whose backup and summary are in their places.
pub fn app_succeeded(app: &App, platform: Platform, packed: &Packed) -> (r: Success)
    ensures
        r.outcome@ == success(app@, packed@),
        event_list(r.events@) == success_report(app@, packed@),
        r.entry@ == entry_of(app@, platform, packed@),
{
    let size = decimal_text(packed.size as u128);
    let outcome = AppOutcome {
        app_id: app.id.clone(),
        name: app.name.clone(),
        result: AppResult::Succeeded,
        detail: cat(size.as_str(), " bytes"),
        size: packed.size,
        checksum: clone_opt(&packed.checksum),
    };
    let head = cat4("app ", app.id.as_str(), ": finished ", packed.final_path.as_str());
    let mut events: Vec<Event> = Vec::new();
    events.push(
        Event::Log {
            level: LogLevel::Info,
            msg: cat4(head.as_str(), ", ", size.as_str(), " bytes"),
        },
    );
    events.push(finish_event(&outcome));
    assert(event_list(events@) =~= success_report(app@, packed@));
    let entry = HistoryEntry {
        app_id: app.id.clone(),
        file: file_name_text(platform, packed.final_path.as_str()),
        format: packed.format.extension().to_string(),
        size: packed.size,
        files: packed.files_total,
        bytes_total: packed.bytes_total,
        started_at: packed.started_at.clone(),
        finished_at: packed.finished_at.clone(),
        checksum: clone_opt(&packed.checksum),
        status: "ok".to_string(),
    };
    Success { events, outcome, entry }
}

// ---------------------------------------------------------------------------
// Laws
// ---------------------------------------------------------------------------

/// The summary of a backup is enough to restore its entry in the index.
pub proof fn summary_restores_entry(
    app: AppContents,
    c: ConfigContents,
    p: Platform,
    packed: PackedView,
    infos: Seq<RootInfoView>,
    pairs: Seq<(Seq<char>, Seq<char>)>,
    found: FoundView,
)
    requires
        found.name == name_or_empty(p, packed.final_path),
        found.summary == Some(summary_of(app, c, p, packed, infos, pairs)),
        ends_in(found.name, "."@ + packed.format.suffix()),
    ensures
        archive_named(found.name),
        found_entry(found) == entry_of(app, p, packed),
{
    backup_name_tells_format(found.name, packed.format);
}

/// A root that exists is packed under the prefix that the summary names for it,
/// where no other root is the same path.
pub proof fn summary_names_packed_prefix(
    p: Platform,
    pairs: Seq<(Seq<char>, Seq<char>)>,
    i: int,
)
    requires
        0 <= i < pairs.len(),
        forall|j: int|
            0 <= j < pairs.len() && j != i ==> !same_path(p, (#[trigger] pairs[j]).0, pairs[i].0),
    ensures
        prefix_for(p, pairs, pairs[i].0) == pairs[i].1,
    decreases pairs.len(),
{
    if i > 0 {
        let rest = pairs.skip(1);
        assert(!same_path(p, pairs[0].0, pairs[i].0));
        assert forall|j: int| 0 <= j < rest.len() && j != i - 1 implies !same_path(
            p,
            (#[trigger] rest[j]).0,
            rest[i - 1].0,
        ) by {
            assert(rest[j] == pairs[j + 1]);
        }
        summary_names_packed_prefix(p, rest, i - 1);
        assert(rest[i - 1] == pairs[i]);
    }
}

/// Whether an event says that an app is finished.
pub open spec fn is_finish(e: EventView) -> bool {
    e is AppFinished
}

/// Whether the events end with the report that the app is finished with this
/// outcome, and say so only there.
pub open spec fn finishes_once(events: Seq<EventView>, o: OutcomeContents) -> bool {
    &&& events.len() > 0
    &&& events.last() == finished(o)
    &&& forall|i: int| 0 <= i < events.len() - 1 ==> !is_finish(#[trigger] events[i])
}

/// Looking over roots only logs.
pub proof fn findings_only_log(
    app_id: Seq<char>,
    candidates: Seq<(Seq<char>, PathView)>,
    exist: Seq<bool>,
    n: nat,
)
    ensures
        forall|i: int|
            0 <= i < findings(app_id, candidates, exist, n).events.len() ==> (#[trigger] findings(
                app_id,
                candidates,
                exist,
                n,
            ).events[i]) is Log,
    decreases n,
{
    if n > 0 {
        let m = (n - 1) as nat;
        findings_only_log(app_id, candidates, exist, m);
        let before = findings(app_id, candidates, exist, m).events;
        let now = findings(app_id, candidates, exist, n).events;
        let class = class_of(candidates[n - 1].1, exist[n - 1]);
        let added = root_report(app_id, class);
        assert forall|i: int| 0 <= i < now.len() implies (#[trigger] now[i]) is Log by {
            if i < before.len() {
                assert(now[i] == before[i]);
            } else {
                assert(now[i] == added[i - before.len()]);
            }
        }
    }
}

/// Every way in which an app can end reports exactly once, and last, that it is
/// finished, with the outcome that the run counts.
pub proof fn endings_finish_once(
    app: AppContents,
    candidates: Seq<(Seq<char>, PathView)>,
    exist: Seq<bool>,
    n: nat,
    detail: Seq<char>,
    result: AppResult,
    files: u64,
    bytes: u64,
    packed: PackedView,
)
    ensures
        ({
            let f = findings(app.id, candidates, exist, n);
            let o = without_backup(app, result, detail);
            let failed = without_backup(app, AppResult::Failed, detail);
            &&& finishes_once(f.events.push(finished(o)), o)
            &&& finishes_once(f.events + logged_failure(app, detail), failed)
            &&& finishes_once(scan_report(app.id, files, bytes).push(finished(o)), o)
            &&& finishes_once(seq![finished(o)], o)
            &&& finishes_once(logged_failure(app, detail), failed)
            &&& finishes_once(success_report(app, packed), success(app, packed))
        }),
{
    let f = findings(app.id, candidates, exist, n);
    let o = without_backup(app, result, detail);
    findings_only_log(app.id, candidates, exist, n);
    let a = f.events.push(finished(o));
    assert forall|i: int| 0 <= i < a.len() - 1 implies !is_finish(#[trigger] a[i]) by {
        assert(a[i] == f.events[i]);
    }
    let b = f.events + logged_failure(app, detail);
    assert forall|i: int| 0 <= i < b.len() - 1 implies !is_finish(#[trigger] b[i]) by {
        if i < f.events.len() {
            assert(b[i] == f.events[i]);
        }
    }
}

/// The roots that are packed have prefixes that differ from each other.
pub proof fn packed_prefixes_differ(p: Platform, infos: Seq<RootInfoView>, i: int, j: int)
    requires
        0 <= i < j < packed_roots(p, infos).len(),
    ensures
        packed_roots(p, infos)[i].1 != packed_roots(p, infos)[j].1,
{
    let list = with_path(infos);
    let pairs = prefixes_of(p, infos);
    prefixes_are_distinct(p, resolved_list(list));
    assert(resolved_list(list).len() == list.len());
    lemma_existing(list, pairs, list.len(), i, j);
}

proof fn lemma_existing(
    infos: Seq<RootInfoView>,
    pairs: Seq<(Seq<char>, Seq<char>)>,
    n: nat,
    i: int,
    j: int,
)
    requires
        n <= pairs.len(),
        forall|a: int, b: int|
            0 <= a < b < pairs.len() ==> (#[trigger] pairs[a]).1 != (#[trigger] pairs[b]).1,
        0 <= i < j < existing(infos, pairs, n).len(),
    ensures
        existing(infos, pairs, n)[i].1 != existing(infos, pairs, n)[j].1,
    decreases n,
{
    let m = (n - 1) as nat;
    let before = existing(infos, pairs, m);
    if j < before.len() {
        lemma_existing(infos, pairs, m, i, j);
    } else {
        lemma_existing_from(infos, pairs, m, i);
        let k = choose|k: int| 0 <= k < m && #[trigger] pairs[k] == before[i];
        assert(pairs[k].1 != pairs[m as int].1);
    }
}

proof fn lemma_existing_from(
    infos: Seq<RootInfoView>,
    pairs: Seq<(Seq<char>, Seq<char>)>,
    n: nat,
    i: int,
)
    requires
        n <= pairs.len(),
        0 <= i < existing(infos, pairs, n).len(),
    ensures
        exists|k: int| 0 <= k < n && #[trigger] pairs[k] == existing(infos, pairs, n)[i],
    decreases n,
{
    let m = (n - 1) as nat;
    let before = existing(infos, pairs, m);
    if i < before.len() {
        lemma_existing_from(infos, pairs, m, i);
        let k = choose|k: int| 0 <= k < m && #[trigger] pairs[k] == before[i];
        assert(pairs[k] == existing(infos, pairs, n)[i]);
    } else {
        assert(pairs[m as int] == existing(infos, pairs, n)[i]);
    }
}

// ---------------------------------------------------------------------------
// Laws of what is packed and what is told of it
// ---------------------------------------------------------------------------

/// A candidate that stands for a path where something is, is walked through and
/// goes into the summary with that path; one where nothing is goes into the summary
/// only; of one whose variable is not defined the summary holds no path; one of
/// another platform leaves no trace there.
pub proof fn candidate_is_found(
    app_id: Seq<char>,
    candidates: Seq<(Seq<char>, PathView)>,
    exist: Seq<bool>,
    n: nat,
    k: int,
)
    requires
        0 <= k < n,
    ensures
        ({
            let f = findings(app_id, candidates, exist, n);
            let raw = candidates[k].0;
            match candidates[k].1 {
                PathView::Resolved { path } => {
                    &&& f.infos.contains(RootInfoView { raw, resolved: path, existed: exist[k] })
                    &&& exist[k] ==> f.valid.contains(path)
                    &&& !exist[k] ==> f.reasons.contains("path missing: "@ + path)
                },
                PathView::UndefinedVar { var } => {
                    &&& f.infos.contains(
                        RootInfoView { raw, resolved: Seq::empty(), existed: false },
                    )
                    &&& f.reasons.contains("env var not defined: "@ + var)
                },
                PathView::OtherPlatform { .. } => true,
            }
        }),
    decreases n,
{
    let m = (n - 1) as nat;
    let f = findings(app_id, candidates, exist, m);
    let now = findings(app_id, candidates, exist, n);
    let (raw, state) = candidates[m as int];
    let class = class_of(state, exist[m as int]);
    if k < m {
        candidate_is_found(app_id, candidates, exist, m, k);
        assert forall|x: RootInfoView| f.infos.contains(x) implies now.infos.contains(x) by {
            let j = choose|j: int| 0 <= j < f.infos.len() && f.infos[j] == x;
            assert(now.infos[j] == x);
        }
        assert forall|x: Seq<char>| f.valid.contains(x) implies now.valid.contains(x) by {
            let j = choose|j: int| 0 <= j < f.valid.len() && f.valid[j] == x;
            assert(now.valid[j] == x);
        }
        assert forall|x: Seq<char>| f.reasons.contains(x) implies now.reasons.contains(x) by {
            let j = choose|j: int| 0 <= j < f.reasons.len() && f.reasons[j] == x;
            assert(now.reasons[j] == x);
        }
    } else {
        assert(root_info(raw, class).len() > 0 ==> now.infos[f.infos.len() as int] == root_info(
            raw,
            class,
        )[0]);
        assert(root_path(class).len() > 0 ==> now.valid[f.valid.len() as int] == root_path(
            class,
        )[0]);
        assert(root_reason(class).len() > 0 ==> now.reasons[f.reasons.len() as int] == root_reason(
            class,
        )[0]);
    }
}

/// Whether a candidate stands for a path where something is.
pub open spec fn stands_for(
    candidates: Seq<(Seq<char>, PathView)>,
    exist: Seq<bool>,
    k: int,
    path: Seq<char>,
) -> bool {
    exist[k] && candidates[k].1 == (PathView::Resolved { path })
}

/// Whether what is told of a root is told of a candidate.
pub open spec fn tells_of(
    candidates: Seq<(Seq<char>, PathView)>,
    exist: Seq<bool>,
    k: int,
    info: RootInfoView,
) -> bool {
    &&& candidates[k].0 == info.raw
    &&& info.existed ==> stands_for(candidates, exist, k, info.resolved)
    &&& info.resolved.len() > 0 ==> candidates[k].1 == (PathView::Resolved { path: info.resolved })
}

/// What is walked through is what candidates stand for, and nothing else; and so is
/// what the summary tells of.
pub proof fn found_root_is_candidate(
    app_id: Seq<char>,
    candidates: Seq<(Seq<char>, PathView)>,
    exist: Seq<bool>,
    n: nat,
    i: int,
)
    ensures
        0 <= i < findings(app_id, candidates, exist, n).valid.len() ==> exists|k: int|
            0 <= k < n && #[trigger] stands_for(
                candidates,
                exist,
                k,
                findings(app_id, candidates, exist, n).valid[i],
            ),
        0 <= i < findings(app_id, candidates, exist, n).infos.len() ==> exists|k: int|
            0 <= k < n && #[trigger] tells_of(
                candidates,
                exist,
                k,
                findings(app_id, candidates, exist, n).infos[i],
            ),
    decreases n,
{
    if n > 0 {
        let m = (n - 1) as nat;
        found_root_is_candidate(app_id, candidates, exist, m, i);
        let f = findings(app_id, candidates, exist, m);
        let now = findings(app_id, candidates, exist, n);
        if 0 <= i < f.valid.len() {
            let k = choose|k: int|
                0 <= k < m && #[trigger] stands_for(candidates, exist, k, f.valid[i]);
            assert(stands_for(candidates, exist, k, now.valid[i]));
        } else if f.valid.len() <= i < now.valid.len() {
            assert(stands_for(candidates, exist, m as int, now.valid[i]));
        }
        if 0 <= i < f.infos.len() {
            let k = choose|k: int|
                0 <= k < m && #[trigger] tells_of(candidates, exist, k, f.infos[i]);
            assert(tells_of(candidates, exist, k, now.infos[i]));
        } else if f.infos.len() <= i < now.infos.len() {
            assert(tells_of(candidates, exist, m as int, now.infos[i]));
        }
    }
}

/// The first of each pair.
pub open spec fn firsts(pairs: Seq<(Seq<char>, Seq<char>)>) -> Seq<Seq<char>> {
    pairs.map_values(|r: (Seq<char>, Seq<char>)| r.0)
}

/// The roots that are walked through are those that are packed, in the same order.
/// An empty path is not one where something is.
pub proof fn walked_roots_are_packed(
    p: Platform,
    app_id: Seq<char>,
    candidates: Seq<(Seq<char>, PathView)>,
    exist: Seq<bool>,
    n: nat,
)
    requires
        forall|k: int|
            0 <= k < n && exist[k] ==> ((#[trigger] candidates[k]).1 matches PathView::Resolved {
                path,
            } ==> path.len() > 0),
    ensures
        ({
            let f = findings(app_id, candidates, exist, n);
            firsts(packed_roots(p, f.infos)) == f.valid
        }),
{
    let f = findings(app_id, candidates, exist, n);
    let list = with_path(f.infos);
    let pairs = prefixes_of(p, f.infos);
    prefixes_are_distinct(p, resolved_list(list));
    assert(resolved_list(list).len() == list.len());
    assert forall|i: int| 0 <= i < list.len() implies (#[trigger] pairs[i]).0 == list[i].resolved by {
        assert(root_prefixes(p, resolved_list(list))[i].0 == resolved_list(list)[i]);
    }
    lemma_existing_resolved(list, pairs, list.len());
    lemma_valid_is_existing(app_id, candidates, exist, n);
    assert(list.take(list.len() as int) =~= list);
}

/// The paths of those of the roots that exist.
spec fn existing_paths(infos: Seq<RootInfoView>) -> Seq<Seq<char>>
    decreases infos.len(),
{
    if infos.len() == 0 {
        Seq::empty()
    } else {
        let rest = existing_paths(infos.drop_last());
        if infos.last().existed {
            rest.push(infos.last().resolved)
        } else {
            rest
        }
    }
}

proof fn lemma_existing_resolved(
    infos: Seq<RootInfoView>,
    pairs: Seq<(Seq<char>, Seq<char>)>,
    n: nat,
)
    requires
        n <= infos.len(),
        pairs.len() == infos.len(),
        forall|i: int| 0 <= i < infos.len() ==> (#[trigger] pairs[i]).0 == infos[i].resolved,
    ensures
        firsts(existing(infos, pairs, n)) == existing_paths(infos.take(n as int)),
    decreases n,
{
    if n > 0 {
        let m = (n - 1) as nat;
        lemma_existing_resolved(infos, pairs, m);
        assert(infos.take(n as int).drop_last() =~= infos.take(m as int));
        assert(infos.take(n as int).last() == infos[m as int]);
        let rest = existing(infos, pairs, m);
        assert(firsts(rest.push(pairs[m as int])) =~= firsts(rest).push(pairs[m as int].0));
    } else {
        assert(firsts(existing(infos, pairs, n)) =~= Seq::empty());
    }
}

proof fn lemma_valid_is_existing(
    app_id: Seq<char>,
    candidates: Seq<(Seq<char>, PathView)>,
    exist: Seq<bool>,
    n: nat,
)
    requires
        forall|k: int|
            0 <= k < n && exist[k] ==> ((#[trigger] candidates[k]).1 matches PathView::Resolved {
                path,
            } ==> path.len() > 0),
    ensures
        existing_paths(with_path(findings(app_id, candidates, exist, n).infos)) == findings(
            app_id,
            candidates,
            exist,
            n,
        ).valid,
    decreases n,
{
    reveal(Seq::filter);
    if n > 0 {
        let m = (n - 1) as nat;
        lemma_valid_is_existing(app_id, candidates, exist, m);
        let f = findings(app_id, candidates, exist, m);
        let now = findings(app_id, candidates, exist, n);
        let (raw, state) = candidates[m as int];
        let class = class_of(state, exist[m as int]);
        let more = root_info(raw, class);
        if more.len() > 0 {
            assert(now.infos.drop_last() =~= f.infos);
            assert(now.infos.last() == more[0]);
            let list = with_path(now.infos);
            if more[0].resolved.len() > 0 {
                assert(list == with_path(f.infos).push(more[0]));
                assert(list.drop_last() =~= with_path(f.infos));
            }
        } else {
            assert(now.infos =~= f.infos);
        }
        assert(now.valid =~= f.valid + root_path(class));
        assert(candidates[m as int].1 == state);
    }
}

proof fn lemma_with_path_at(infos: Seq<RootInfoView>, i: int) -> (k: int)
    requires
        0 <= i < infos.len(),
        infos[i].resolved.len() > 0,
    ensures
        0 <= k < with_path(infos).len(),
        with_path(infos)[k] == infos[i],
        k == with_path(infos.take(i)).len(),
    decreases infos.len(),
{
    reveal(Seq::filter);
    let rest = infos.drop_last();
    if i < rest.len() {
        let k = lemma_with_path_at(rest, i);
        assert(rest[i] == infos[i]);
        assert(rest.take(i) =~= infos.take(i));
        assert(with_path(infos)[k] == with_path(rest)[k]);
        k
    } else {
        assert(infos.take(i) =~= rest);
        with_path(rest).len() as int
    }
}

/// Where a root stands among those with a path, back to where it stands among all.
proof fn lemma_with_path_from(infos: Seq<RootInfoView>, k: int) -> (i: int)
    requires
        0 <= k < with_path(infos).len(),
    ensures
        0 <= i < infos.len(),
        infos[i] == with_path(infos)[k],
        infos[i].resolved.len() > 0,
        k == with_path(infos.take(i)).len(),
    decreases infos.len(),
{
    reveal(Seq::filter);
    if infos.len() == 0 {
        assert(with_path(infos).len() == 0);
        0
    } else {
        let rest = infos.drop_last();
        if k < with_path(rest).len() {
            let i = lemma_with_path_from(rest, k);
            assert(rest.take(i) =~= infos.take(i));
            i
        } else {
            assert(infos.take(infos.len() - 1) =~= rest);
            infos.len() - 1
        }
    }
}

proof fn lemma_existing_holds(
    infos: Seq<RootInfoView>,
    pairs: Seq<(Seq<char>, Seq<char>)>,
    n: nat,
    k: int,
)
    requires
        0 <= k < n,
        infos[k].existed,
    ensures
        existing(infos, pairs, n).contains(pairs[k]),
    decreases n,
{
    let m = (n - 1) as nat;
    let rest = existing(infos, pairs, m);
    let now = existing(infos, pairs, n);
    if k < m {
        lemma_existing_holds(infos, pairs, m, k);
        let j = choose|j: int| 0 <= j < rest.len() && rest[j] == pairs[k];
        assert(now[j] == pairs[k]);
    } else {
        assert(now[rest.len() as int] == pairs[k]);
    }
}

/// The summary tells of each root as it is written in the settings. Where something
/// was there, the place to restore it to is the very path that was packed, and the
/// place of it in the archive is where it was packed to, where no two roots are the
/// same path. What was not there is not packed.
pub proof fn roots_are_restored_from_where_they_are_packed(
    app: AppContents,
    c: ConfigContents,
    p: Platform,
    packed: PackedView,
    infos: Seq<RootInfoView>,
    i: int,
)
    requires
        0 <= i < infos.len(),
        infos[i].resolved.len() > 0,
        forall|a: int, b: int|
            0 <= a < b < infos.len() && (#[trigger] infos[a]).resolved.len() > 0 && (
            #[trigger] infos[b]).resolved.len() > 0 ==> !same_path(
                p,
                infos[a].resolved,
                infos[b].resolved,
            ) && !same_path(p, infos[b].resolved, infos[a].resolved),
    ensures
        ({
            let s = summary_of(app, c, p, packed, infos, prefixes_of(p, infos));
            &&& s.paths.len() == infos.len()
            &&& s.paths[i].raw == infos[i].raw
            &&& s.paths[i].resolved == infos[i].resolved
            &&& s.paths[i].existed == infos[i].existed
            &&& s.paths[i].restore_to == infos[i].resolved
            &&& prefixes_of(p, infos).contains((s.paths[i].restore_to, s.paths[i].archive_root))
            &&& packed_roots(p, infos).contains((s.paths[i].restore_to, s.paths[i].archive_root))
                == s.paths[i].existed
        }),
{
    let s = summary_of(app, c, p, packed, infos, prefixes_of(p, infos));
    let list = with_path(infos);
    let pairs = prefixes_of(p, infos);
    prefixes_are_distinct(p, resolved_list(list));
    assert(resolved_list(list).len() == list.len());
    let k = lemma_with_path_at(infos, i);
    assert forall|j: int| 0 <= j < pairs.len() && j != k implies !same_path(
        p,
        (#[trigger] pairs[j]).0,
        pairs[k].0,
    ) by {
        assert(pairs[j].0 == resolved_list(list)[j]);
        assert(pairs[k].0 == resolved_list(list)[k]);
        let a = lemma_with_path_from(infos, j);
        if a < i {
            assert(!same_path(p, infos[a].resolved, infos[i].resolved));
        } else if a > i {
            assert(!same_path(p, infos[a].resolved, infos[i].resolved));
        }
    }
    assert(pairs[k].0 == resolved_list(list)[k]);
    summary_names_packed_prefix(p, pairs, k);
    let pair = (s.paths[i].restore_to, s.paths[i].archive_root);
    assert(pair == pairs[k]);
    if infos[i].existed {
        lemma_existing_holds(list, pairs, list.len(), k);
    } else if packed_roots(p, infos).contains(pair) {
        let all = packed_roots(p, infos);
        let j = choose|j: int| 0 <= j < all.len() && all[j] == pair;
        lemma_existing_at(list, pairs, list.len(), j);
        let m = choose|m: int|
            0 <= m < list.len() && list[m].existed && #[trigger] pairs[m] == all[j];
        assert(m == k) by {
            if m < k {
                assert(pairs[m].1 != pairs[k].1);
            } else if k < m {
                assert(pairs[k].1 != pairs[m].1);
            }
        }
    }
}

proof fn lemma_existing_at(
    infos: Seq<RootInfoView>,
    pairs: Seq<(Seq<char>, Seq<char>)>,
    n: nat,
    j: int,
)
    requires
        0 <= j < existing(infos, pairs, n).len(),
    ensures
        exists|m: int|
            0 <= m < n && infos[m].existed && #[trigger] pairs[m] == existing(infos, pairs, n)[j],
    decreases n,
{
    if n > 0 {
        let m = (n - 1) as nat;
        let rest = existing(infos, pairs, m);
        if j < rest.len() {
            lemma_existing_at(infos, pairs, m, j);
            let k = choose|k: int| 0 <= k < m && infos[k].existed && #[trigger] pairs[k] == rest[j];
            assert(pairs[k] == existing(infos, pairs, n)[j]);
        } else {
            assert(pairs[m as int] == existing(infos, pairs, n)[j]);
        }
    }
}

/// What is known of a backup stands in its summary and in its entry in the index,
/// each thing in the place that is named after it and the same in both.
pub proof fn entry_and_summary_tell_of_backup(
    app: AppContents,
    c: ConfigContents,
    p: Platform,
    packed: PackedView,
    infos: Seq<RootInfoView>,
    pairs: Seq<(Seq<char>, Seq<char>)>,
)
    ensures
        ({
            let s = summary_of(app, c, p, packed, infos, pairs);
            let e = entry_of(app, p, packed);
            &&& s.version == 1
            &&& s.app_id == app.id && e.app_id == app.id
            &&& s.app_name == app.name
            &&& s.platform == p.key()
            &&& s.archive == name_or_empty(p, packed.final_path) && e.file == s.archive
            &&& s.format == packed.format.suffix() && e.format == s.format
            &&& s.size == packed.size && e.size == packed.size
            &&& s.files == packed.files_total && e.files == packed.files_total
            &&& s.bytes_total == packed.bytes_total && e.bytes_total == packed.bytes_total
            &&& s.started_at == packed.started_at && e.started_at == packed.started_at
            &&& s.finished_at == packed.finished_at && e.finished_at == packed.finished_at
            &&& e.checksum == packed.checksum
            &&& match packed.checksum {
                Some(digest) => s.checksum matches Some(sum) && sum.digest == digest
                    && sum.algorithm == "sha256"@,
                None => s.checksum is None,
            }
            &&& s.status == "ok"@ && e.status == "ok"@
            &&& s.excludes == rules_for(app, c)
            &&& s.paths.len() == infos.len()
        }),
{
}

/// The outcome of an app that is backed up tells its size and its checksum.
pub proof fn success_tells_of_backup(app: AppContents, packed: PackedView)
    ensures
        ({
            let o = success(app, packed);
            &&& o.app_id == app.id
            &&& o.name == app.name
            &&& o.result == AppResult::Succeeded
            &&& o.size == packed.size
            &&& o.checksum == packed.checksum
            &&& o.detail == decimal(packed.size as nat) + " bytes"@
        }),
{
}

/// An app that is not to be compressed is copied; else the format is that of the
/// settings.
pub proof fn format_follows_settings(app: AppContents, c: ConfigContents)
    ensures
        app.compress ==> format_of(app, c) == c.backup.format,
        !app.compress ==> format_of(app, c) == Format::Dir,
{
}

// ---------------------------------------------------------------------------
// Laws of what is told of an app
// ---------------------------------------------------------------------------

/// The report that an app is finished tells its outcome, each thing in its place. Of
/// an app without a backup there is neither a size nor a checksum.
pub proof fn finish_tells_outcome(
    o: OutcomeContents,
    app: AppContents,
    result: AppResult,
    detail: Seq<char>,
)
    ensures
        finished(o) matches EventView::AppFinished { app_id, result: r, detail: d, size, checksum }
            && app_id == o.app_id && r == o.result && d == o.detail && size == o.size && checksum
            == o.checksum,
        ({
            let w = without_backup(app, result, detail);
            &&& w.app_id == app.id
            &&& w.name == app.name
            &&& w.result == result
            &&& w.detail == detail
            &&& w.size == 0
            &&& w.checksum is None
        }),
{
}

/// A scan that is over is reported with its files and its bytes, and logged with
/// both.
pub proof fn scan_report_tells_totals(app_id: Seq<char>, files: u64, bytes: u64)
    ensures
        ({
            let events = scan_report(app_id, files, bytes);
            &&& events.len() == 2
            &&& events[0] matches EventView::ScanDone { app_id: id, files_total, bytes_total } && id
                == app_id && files_total == files && bytes_total == bytes
            &&& events[1] matches EventView::Log { level, msg } && level == LogLevel::Info && ends_in(
                msg,
                decimal(bytes as nat) + " bytes"@,
            ) && ends_in(
                msg.take(msg.len() - (decimal(bytes as nat) + " bytes"@).len()),
                decimal(files as nat) + " file(s), "@,
            )
        }),
{
    let a = "app "@ + app_id + ": scanned "@;
    let b = decimal(files as nat) + " file(s), "@;
    let c = decimal(bytes as nat) + " bytes"@;
    let msg = "app "@ + app_id + ": scanned "@ + decimal(files as nat) + " file(s), "@ + decimal(
        bytes as nat,
    ) + " bytes"@;
    assert(msg =~= a + b + c);
    assert(msg.skip(msg.len() - c.len()) =~= c);
    assert(msg.take(msg.len() - c.len()) =~= a + b);
    assert((a + b).skip((a + b).len() - b.len()) =~= b);
}

/// Why an app is skipped is told with every reason, in order, and `; ` between them.
pub proof fn every_reason_is_told(reasons: Seq<Seq<char>>, one: Seq<char>)
    ensures
        skip_detail(seq![one]) == one,
        reasons.len() > 0 ==> skip_detail(reasons.push(one)) == skip_detail(reasons) + "; "@ + one,
        skip_detail(Seq::empty()) == "not configured for this platform"@,
{
    assert(reasons.push(one).drop_last() =~= reasons);
}

/// A root that is left out is told of once: where nothing is there and where a
/// variable is not defined as a warning that ends with which, one of another platform
/// for those who look closely. A root that is backed up is not told of.
pub proof fn root_left_out_is_told_of(app_id: Seq<char>, class: ClassView)
    ensures
        match class {
            ClassView::Backup(_) => root_report(app_id, class).len() == 0,
            ClassView::Missing(path) => root_report(app_id, class).len() == 1 && (root_report(
                app_id,
                class,
            )[0] matches EventView::Log { level, msg } && level == LogLevel::Warn && ends_in(
                msg,
                path,
            )),
            ClassView::Undefined(var) => root_report(app_id, class).len() == 1 && (root_report(
                app_id,
                class,
            )[0] matches EventView::Log { level, msg } && level == LogLevel::Warn && ends_in(
                msg,
                var,
            )),
            ClassView::OtherPlatform => root_report(app_id, class).len() == 1 && (root_report(
                app_id,
                class,
            )[0] matches EventView::Log { level, .. } && level == LogLevel::Debug),
        },
{
    match class {
        ClassView::Missing(path) => {
            let msg = "app "@ + app_id + ": path missing, skipped: "@ + path;
            assert(msg.skip(msg.len() - path.len()) =~= path);
        },
        ClassView::Undefined(var) => {
            let msg = "app "@ + app_id + ": env var not defined: "@ + var;
            assert(msg.skip(msg.len() - var.len()) =~= var);
        },
        _ => {},
    }
}

/// A path where something is, is backed up; one where nothing is, is missing.
pub proof fn class_follows_disk(path: Seq<char>, var: Seq<char>, raw: Seq<char>, there: bool)
    ensures
        class_of(PathView::Resolved { path }, true) == ClassView::Backup(path),
        class_of(PathView::Resolved { path }, false) == ClassView::Missing(path),
        class_of(PathView::UndefinedVar { var }, there) == ClassView::Undefined(var),
        class_of(PathView::OtherPlatform { raw }, there) == ClassView::OtherPlatform,
{
}

/// An app that fails with an error is logged with it, before it is finished.
pub proof fn failure_is_logged(app: AppContents, detail: Seq<char>)
    ensures
        ({
            let events = logged_failure(app, detail);
            &&& events.len() == 2
            &&& events[0] matches EventView::Log { level, msg } && level == LogLevel::Error && ends_in(
                msg,
                app.id + ": "@ + detail,
            )
            &&& events[1] matches EventView::AppFinished { app_id, result, detail: d, .. } && app_id
                == app.id && result == AppResult::Failed && d == detail
        }),
{
    let msg = "app "@ + app.id + ": "@ + detail;
    let tail = app.id + ": "@ + detail;
    assert(msg.skip(msg.len() - tail.len()) =~= tail);
}

/// An app that is backed up is logged with where its backup is and how large.
pub proof fn success_is_logged(app: AppContents, packed: PackedView)
    ensures
        ({
            let events = success_report(app, packed);
            &&& events.len() == 2
            &&& events[0] matches EventView::Log { level, msg } && level == LogLevel::Info && ends_in(
                msg,
                packed.final_path + ", "@ + decimal(packed.size as nat) + " bytes"@,
            )
            &&& events[1] matches EventView::AppFinished { app_id, result, size, checksum, .. }
                && app_id == app.id && result == AppResult::Succeeded && size == packed.size
                && checksum == packed.checksum
        }),
{
    let tail = packed.final_path + ", "@ + decimal(packed.size as nat) + " bytes"@;
    let head = "app "@ + app.id + ": finished "@;
    let msg = "app "@ + app.id + ": finished "@ + packed.final_path + ", "@ + decimal(
        packed.size as nat,
    ) + " bytes"@;
    assert(msg =~= head + tail);
    assert(msg.skip(msg.len() - tail.len()) =~= tail);
}

/// The contents of what is known of a backup are what stands in it.
pub proof fn packed_contents_are_exact(packed: Packed)
    ensures
        packed@.final_path == packed.final_path@,
        packed@.format == packed.format,
        packed@.size == packed.size,
        packed@.files_total == packed.files_total,
        packed@.bytes_total == packed.bytes_total,
        packed@.started_at == packed.started_at@,
        packed@.finished_at == packed.finished_at@,
        packed@.checksum == opt_text(packed.checksum),
{
}

/// The summary tells of each root, as it is written in the settings, what it stood for
/// and whether something was there; it is to be restored to what it stood for. A root
/// that is none of those with a prefix has no place in the archive.
pub proof fn summary_tells_of_each_root(
    app: AppContents,
    c: ConfigContents,
    p: Platform,
    packed: PackedView,
    infos: Seq<RootInfoView>,
    pairs: Seq<(Seq<char>, Seq<char>)>,
    i: int,
)
    requires
        0 <= i < infos.len(),
    ensures
        ({
            let s = summary_of(app, c, p, packed, infos, pairs);
            &&& s.paths.len() == infos.len()
            &&& s.paths[i].raw == infos[i].raw
            &&& s.paths[i].resolved == infos[i].resolved
            &&& s.paths[i].existed == infos[i].existed
            &&& s.paths[i].restore_to == infos[i].resolved
            &&& (forall|k: int|
                0 <= k < pairs.len() ==> !same_path(p, (#[trigger] pairs[k]).0, infos[i].resolved))
                ==> s.paths[i].archive_root.len() == 0
        }),
{
    if forall|k: int|
        0 <= k < pairs.len() ==> !same_path(p, (#[trigger] pairs[k]).0, infos[i].resolved) {
        lemma_no_prefix(p, pairs, infos[i].resolved);
    }
}

proof fn lemma_no_prefix(p: Platform, pairs: Seq<(Seq<char>, Seq<char>)>, path: Seq<char>)
    requires
        forall|k: int| 0 <= k < pairs.len() ==> !same_path(p, (#[trigger] pairs[k]).0, path),
    ensures
        prefix_for(p, pairs, path).len() == 0,
    decreases pairs.len(),
{
    if pairs.len() > 0 {
        let rest = pairs.skip(1);
        assert forall|k: int| 0 <= k < rest.len() implies !same_path(
            p,
            (#[trigger] rest[k]).0,
            path,
        ) by {
            assert(rest[k] == pairs[k + 1]);
        }
        lemma_no_prefix(p, rest, path);
        assert(!same_path(p, pairs[0].0, path));
    }
}

} // verus!
