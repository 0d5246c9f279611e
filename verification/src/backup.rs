//! The course of a backup.

use crate::clock::{is_time_text, time_now};
use crate::config::{app_list, App, AppContents, CleanupMode, Config, ConfigError, ErrorContents};
use crate::events::{AppResult, Event, EventView, LogLevel};
use crate::pathres::Environment;
use crate::paths::{components, is_firm, is_plain_name, join, join_adds_component, path_join};
use crate::platform::Platform;
use crate::summary::{beside, summary_lies_beside, summary_path_for};
use crate::text::{cat4, clone_opt, decimal, decimal_text, ends_in, holds, opt_text, texts};
use vstd::prelude::*;
use vstd::string::*;

verus! {

#[derive(Debug)]
pub struct AppOutcome {
    pub app_id: String,
    pub name: String,
    pub result: AppResult,
    pub detail: String,
    pub size: u64,
    pub checksum: Option<String>,
}

/// The contents of an [`AppOutcome`].
#[verifier::ext_equal]
pub struct OutcomeContents {
    pub app_id: Seq<char>,
    pub name: Seq<char>,
    pub result: AppResult,
    pub detail: Seq<char>,
    pub size: u64,
    pub checksum: Option<Seq<char>>,
}

impl View for AppOutcome {
    type V = OutcomeContents;

    open spec fn view(&self) -> OutcomeContents {
        OutcomeContents {
            app_id: self.app_id@,
            name: self.name@,
            result: self.result,
            detail: self.detail@,
            size: self.size,
            checksum: opt_text(self.checksum),
        }
    }
}

impl Clone for AppOutcome {
    fn clone(&self) -> (r: AppOutcome)
        ensures
            r@ == self@,
    {
        AppOutcome {
            app_id: self.app_id.clone(),
            name: self.name.clone(),
            result: self.result,
            detail: self.detail.clone(),
            size: self.size,
            checksum: clone_opt(&self.checksum),
        }
    }
}

/// The contents of each outcome.
pub open spec fn outcome_list(outcomes: Seq<AppOutcome>) -> Seq<OutcomeContents> {
    outcomes.map_values(|o: AppOutcome| o@)
}

#[derive(Debug, Clone)]
pub struct BackupReport {
    pub dest: String,
    pub started_at: String,
    pub finished_at: String,
    pub outcomes: Vec<AppOutcome>,
}

/// How many outcomes have the given result.
pub open spec fn count_results(outcomes: Seq<OutcomeContents>, result: AppResult) -> nat
    decreases outcomes.len(),
{
    if outcomes.len() == 0 {
        0
    } else {
        count_results(outcomes.drop_last(), result) + if outcomes.last().result == result {
            1nat
        } else {
            0nat
        }
    }
}

impl BackupReport {
    /// How many apps ended with the given result.
    pub fn count(&self, result: AppResult) -> (r: usize)
        ensures
            r == count_results(outcome_list(self.outcomes@), result),
    {
        let ghost all = outcome_list(self.outcomes@);
        let mut n: usize = 0;
        let mut i: usize = 0;
        while i < self.outcomes.len()
            invariant
                i <= self.outcomes@.len(),
                all == outcome_list(self.outcomes@),
                n == count_results(all.take(i as int), result),
                n <= i,
            decreases self.outcomes@.len() - i,
        {
            proof {
                assert(all.take(i + 1).drop_last() =~= all.take(i as int));
                assert(all.take(i + 1).last() == self.outcomes@[i as int]@);
            }
            if self.outcomes[i].result == result {
                n = n + 1;
            }
            i = i + 1;
        }
        assert(all.take(i as int) =~= all);
        n
    }

    pub fn ok(&self) -> (r: usize)
        ensures
            r == count_results(outcome_list(self.outcomes@), AppResult::Succeeded),
    {
        self.count(AppResult::Succeeded)
    }

    pub fn failed(&self) -> (r: usize)
        ensures
            r == count_results(outcome_list(self.outcomes@), AppResult::Failed),
    {
        self.count(AppResult::Failed)
    }

    pub fn skipped(&self) -> (r: usize)
        ensures
            r == count_results(outcome_list(self.outcomes@), AppResult::Skipped),
    {
        self.count(AppResult::Skipped)
    }

    pub fn cancelled(&self) -> (r: usize)
        ensures
            r == count_results(outcome_list(self.outcomes@), AppResult::Cancelled),
    {
        self.count(AppResult::Cancelled)
    }
}

/// Options for a backup run.
#[derive(Debug, Clone, Default)]
pub struct BackupOptions {
    /// Explicitly selected app ids. Empty = all enabled apps.
    pub app_ids: Vec<String>,
}

// ---------------------------------------------------------------------------
// Start of a run
// ---------------------------------------------------------------------------

/// Whether an app takes part.
pub open spec fn takes_part(app: AppContents, app_ids: Seq<Seq<char>>) -> bool {
    if app_ids.len() == 0 {
        app.enabled
    } else {
        app_ids.contains(app.id)
    }
}

/// The apps that take part, in the order of the configuration.
pub open spec fn selected(apps: Seq<AppContents>, app_ids: Seq<Seq<char>>) -> Seq<AppContents> {
    apps.filter(|a: AppContents| takes_part(a, app_ids))
}

/// The apps that take part, in the order of the configuration.
pub fn select_apps(config: &Config, options: &BackupOptions) -> (r: Vec<App>)
    ensures
        app_list(r@) == selected(config@.apps, texts(options.app_ids@)),
{
    let ghost all = config@.apps;
    let ghost ids = texts(options.app_ids@);
    let ghost wanted = |a: AppContents| takes_part(a, ids);
    let mut r: Vec<App> = Vec::new();
    let mut i: usize = 0;
    proof {
        reveal(Seq::filter);
        assert(app_list(r@) =~= all.take(0).filter(wanted));
    }
    while i < config.apps.len()
        invariant
            i <= config.apps@.len(),
            all == config@.apps,
            ids == texts(options.app_ids@),
            wanted == (|a: AppContents| takes_part(a, ids)),
            app_list(r@) == all.take(i as int).filter(wanted),
        decreases config.apps@.len() - i,
    {
        let ghost so_far = r@;
        let app = &config.apps[i];
        proof {
            reveal(Seq::filter);
            assert(all.take(i + 1).drop_last() =~= all.take(i as int));
            assert(all.take(i + 1).last() == app@);
        }
        let taken = if options.app_ids.len() == 0 {
            app.enabled
        } else {
            holds(&options.app_ids, app.id.as_str())
        };
        if taken {
            r.push(app.clone());
            assert(app_list(r@) =~= app_list(so_far).push(app@));
        }
        i = i + 1;
    }
    assert(all.take(i as int) =~= all);
    r
}

/// How many apps a run is announced to have: all enabled ones, or as many as are
/// named.
pub fn announced_apps(config: &Config, options: &BackupOptions) -> (r: usize)
    ensures
        r == if options.app_ids@.len() == 0 {
            selected(config@.apps, Seq::empty()).len()
        } else {
            options.app_ids@.len()
        },
{
    if options.app_ids.len() == 0 {
        let enabled = select_apps(config, options);
        assert(texts(options.app_ids@) =~= Seq::empty());
        assert(app_list(enabled@).len() == enabled@.len());
        enabled.len()
    } else {
        options.app_ids.len()
    }
}

/// How many apps are backed up at the same time.
pub open spec fn worker_count(parallel: usize, apps: nat) -> nat {
    let wanted = if parallel == 0 {
        1
    } else {
        parallel as nat
    };
    if wanted < apps {
        wanted
    } else {
        apps
    }
}

/// A run that can begin.
#[derive(Debug)]
pub struct BackupPlan {
    pub dest: String,
    pub apps: Vec<App>,
    pub workers: usize,
    pub started_at: String,
    /// What is reported first.
    pub announcement: Event,
}

/// What the first report of a run says.
pub open spec fn announcement(apps: nat, dest: Seq<char>) -> EventView {
    EventView::Log {
        level: LogLevel::Info,
        msg: "backup started: "@ + decimal(apps) + " app(s) -> "@ + dest,
    }
}

/// Prepares a run: where it goes and which apps it is for. Fails where the
/// destination does not resolve and, after that, where no app takes part.
pub fn plan_backup(
    config: &Config,
    options: &BackupOptions,
    platform: Platform,
    env: &Environment,
) -> (r: Result<BackupPlan, ConfigError>)
    ensures
        match config@.dest(platform, env@) {
            Err(e) => r is Err && r->Err_0@ == e,
            Ok(dest) => {
                let apps = selected(config@.apps, texts(options.app_ids@));
                if apps.len() == 0 {
                    r is Err && r->Err_0@ == ErrorContents::NoApps
                } else {
                    &&& r is Ok
                    &&& r->Ok_0.dest@ == dest
                    &&& app_list(r->Ok_0.apps@) == apps
                    &&& r->Ok_0.workers == worker_count(config@.backup.parallel, apps.len())
                    &&& is_time_text(r->Ok_0.started_at@)
                    &&& r->Ok_0.announcement@ == announcement(apps.len(), dest)
                }
            },
        },
{
    let dest = match config.resolved_dest(platform, env) {
        Ok(d) => d,
        Err(e) => {
            return Err(e);
        },
    };
    let apps = select_apps(config, options);
    let ghost chosen = app_list(apps@);
    let total: usize = apps.len();
    assert(chosen.len() == total);
    if total == 0 {
        return Err(ConfigError::NoApps);
    }
    let wanted: usize = if config.backup.parallel == 0 {
        1
    } else {
        config.backup.parallel
    };
    let workers: usize = if wanted < total {
        wanted
    } else {
        total
    };
    let number = decimal_text(total as u128);
    let announcement = Event::Log {
        level: LogLevel::Info,
        msg: cat4("backup started: ", number.as_str(), " app(s) -> ", dest.as_str()),
    };
    Ok(BackupPlan { dest, apps, workers, started_at: time_now(), announcement })
}

// ---------------------------------------------------------------------------
// Cleaning up
// ---------------------------------------------------------------------------

/// Whether old backups are cleaned up after each app.
pub fn cleans_after_each(config: &Config) -> (r: bool)
    ensures
        r == (config@.backup.cleanup == CleanupMode::AfterEach && config@.backup.retention > 0),
{
    config.backup.cleanup == CleanupMode::AfterEach && config.backup.retention > 0
}

/// Whether old backups are cleaned up at the end of the run.
pub fn cleans_at_end(config: &Config) -> (r: bool)
    ensures
        r == (config@.backup.cleanup == CleanupMode::AtEnd && config@.backup.retention > 0),
{
    config.backup.cleanup == CleanupMode::AtEnd && config.backup.retention > 0
}

/// Where a backup of an app is.
pub open spec fn archive_at(
    p: Platform,
    dest: Seq<char>,
    app_id: Seq<char>,
    file: Seq<char>,
) -> Seq<char> {
    join(p, join(p, dest, app_id), file)
}

/// What is deleted with a backup that is no longer kept: the backup and its
/// summary.
#[derive(Debug, Clone)]
pub struct Removal {
    pub archive: String,
    pub sidecar: String,
}

/// What is deleted with a backup that is no longer kept.
pub fn removal_of(dest: &str, app_id: &str, file: &str, platform: Platform) -> (r: Removal)
    ensures
        r.archive@ == archive_at(platform, dest@, app_id@, file@),
        r.sidecar@ == beside(
            platform,
            archive_at(platform, dest@, app_id@, file@),
            ".summary.json"@,
        ),
{
    let dir = path_join(platform, dest, app_id);
    let archive = path_join(platform, dir.as_str(), file);
    let sidecar = summary_path_for(archive.as_str(), platform);
    Removal { archive, sidecar }
}

/// Closes a run with what came of its apps.
pub fn close_backup(plan: BackupPlan, outcomes: Vec<AppOutcome>) -> (r: BackupReport)
    ensures
        r.dest@ == plan.dest@,
        r.started_at@ == plan.started_at@,
        is_time_text(r.finished_at@),
        outcome_list(r.outcomes@) == outcome_list(outcomes@),
{
    BackupReport {
        dest: plan.dest,
        started_at: plan.started_at,
        finished_at: time_now(),
        outcomes,
    }
}

// ---------------------------------------------------------------------------
// Laws
// ---------------------------------------------------------------------------

/// Each outcome is counted once: the four counts make up the whole.
pub proof fn counts_add_up(outcomes: Seq<OutcomeContents>)
    ensures
        count_results(outcomes, AppResult::Succeeded) + count_results(outcomes, AppResult::Failed)
            + count_results(outcomes, AppResult::Skipped) + count_results(
            outcomes,
            AppResult::Cancelled,
        ) == outcomes.len(),
    decreases outcomes.len(),
{
    if outcomes.len() > 0 {
        counts_add_up(outcomes.drop_last());
    }
}

/// At least one app is backed up at a time, never more than there are and never
/// more than are asked for.
pub proof fn workers_are_bounded(parallel: usize, apps: nat)
    requires
        apps > 0,
    ensures
        1 <= worker_count(parallel, apps) <= apps,
        parallel > 0 ==> worker_count(parallel, apps) <= parallel,
{
}

/// The apps that take part are those of the configuration that are named, or
/// enabled where none is named.
pub proof fn selection_is_exact(apps: Seq<AppContents>, app_ids: Seq<Seq<char>>, a: AppContents)
    ensures
        selected(apps, app_ids).contains(a) <==> apps.contains(a) && takes_part(a, app_ids),
    decreases apps.len(),
{
    reveal(Seq::filter);
    let wanted = |x: AppContents| takes_part(x, app_ids);
    if apps.len() > 0 {
        let rest = apps.drop_last();
        let last = apps.last();
        selection_is_exact(rest, app_ids, a);
        let before = rest.filter(wanted);
        let all = apps.filter(wanted);
        if apps.contains(a) && takes_part(a, app_ids) {
            let i = choose|i: int| 0 <= i < apps.len() && apps[i] == a;
            if i < rest.len() {
                assert(rest[i] == a);
                let k = choose|k: int| 0 <= k < before.len() && before[k] == a;
                assert(all[k] == a);
            } else {
                assert(all[before.len() as int] == a);
            }
        }
        if all.contains(a) {
            let k = choose|k: int| 0 <= k < all.len() && all[k] == a;
            if k < before.len() {
                assert(before[k] == a);
                let i = choose|i: int| 0 <= i < rest.len() && rest[i] == a;
                assert(apps[i] == a);
            } else {
                assert(apps[apps.len() - 1] == a);
            }
        }
    }
}

/// A backup that is no longer kept goes together with its summary: both lie in
/// the directory of the app, the summary under the name of the backup with
/// `.summary.json` behind it.
pub proof fn removal_takes_summary(
    p: Platform,
    dest: Seq<char>,
    app_id: Seq<char>,
    file: Seq<char>,
)
    requires
        is_firm(p, dest),
        is_plain_name(p, app_id),
        is_plain_name(p, file),
    ensures
        components(p, archive_at(p, dest, app_id, file)) == components(p, dest).push(app_id).push(
            file,
        ),
        components(p, beside(p, archive_at(p, dest, app_id, file), ".summary.json"@))
            == components(p, dest).push(app_id).push(file + ".summary.json"@),
{
    join_adds_component(p, dest, app_id);
    join_adds_component(p, join(p, dest, app_id), file);
    summary_lies_beside(p, join(p, dest, app_id), file);
}

/// One outcome more counts for its own result and for no other.
pub proof fn outcome_is_counted_for_its_result(
    outcomes: Seq<OutcomeContents>,
    o: OutcomeContents,
    result: AppResult,
)
    ensures
        count_results(Seq::empty(), result) == 0,
        count_results(outcomes.push(o), result) == count_results(outcomes, result) + if o.result
            == result {
            1int
        } else {
            0int
        },
{
    assert(outcomes.push(o).drop_last() =~= outcomes);
}

/// As many apps are backed up at a time as are asked for, or all of them where there
/// are fewer; where none are asked for, one.
pub proof fn workers_are_as_many_as_asked_for(parallel: usize, apps: nat)
    requires
        apps > 0,
    ensures
        parallel == 0 ==> worker_count(parallel, apps) == 1,
        0 < parallel <= apps ==> worker_count(parallel, apps) == parallel,
        parallel >= apps ==> worker_count(parallel, apps) == apps,
{
}

/// An app that is named takes part, enabled or not; one that is not named does not.
/// Where none is named, those that are enabled take part.
pub proof fn named_apps_take_part(app: AppContents, app_ids: Seq<Seq<char>>)
    ensures
        app_ids.len() > 0 ==> (takes_part(app, app_ids) <==> exists|i: int|
            0 <= i < app_ids.len() && #[trigger] app_ids[i] == app.id),
        app_ids.len() == 0 ==> takes_part(app, app_ids) == app.enabled,
{
}

/// Apps take part in the order of the configuration.
pub proof fn selection_keeps_order(
    apps: Seq<AppContents>,
    app_ids: Seq<Seq<char>>,
    a: AppContents,
)
    ensures
        selected(Seq::empty(), app_ids) == Seq::<AppContents>::empty(),
        selected(apps.push(a), app_ids) == if takes_part(a, app_ids) {
            selected(apps, app_ids).push(a)
        } else {
            selected(apps, app_ids)
        },
{
    reveal(Seq::filter);
    assert(apps.push(a).drop_last() =~= apps);
}

/// The first report of a run tells how many apps take part and ends with where the
/// backups go.
pub proof fn announcement_tells_where_backups_go(apps: nat, dest: Seq<char>)
    ensures
        announcement(apps, dest) matches EventView::Log { level, msg } && level == LogLevel::Info
            && ends_in(msg, dest) && ends_in(
            msg.take(msg.len() - dest.len()),
            decimal(apps) + " app(s) -> "@,
        ),
{
    let head = "backup started: "@ + decimal(apps) + " app(s) -> "@;
    let msg = head + dest;
    let tail = decimal(apps) + " app(s) -> "@;
    assert(msg.skip(msg.len() - dest.len()) =~= dest);
    assert(msg.take(msg.len() - dest.len()) =~= head);
    assert(head =~= "backup started: "@ + tail);
    assert(head.skip(head.len() - tail.len()) =~= tail);
}

} // verus!
