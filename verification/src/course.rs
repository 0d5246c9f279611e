//! The backup of one app from its start to its end.
//!
//! The work outside (looking at the disk, packing, writing) is done between the
//! steps. Each step takes what came of the work and gives either the end of the
//! app or the next work; no step can be left out or taken twice.

use crate::archive::root_pairs;
use crate::config::{App, Config, Format};
use crate::events::{event_list, AppResult, Event, EventView};
use crate::excludes::{all_portable, build_excludes, first_fault, rules_for, set_globs};
use crate::job::{
    app_dir, app_succeeded, assign_prefixes, base_name_at, candidate_list, dest_refused, entry_of,
    findings, finished, format_of, info_list, logged_failure, look_over_roots, make_summary,
    pack_failed, pack_format, packed_roots, plain_ending, prefixes_of,
    root_candidates, scan_over, scan_report, settle_rules, skip_detail, started_event, success, success_report,
    summary_failed, summary_of, wants_checksum, without_backup, Ending, Findings, Packed,
    PackedView, RootCandidate, RootInfo, RootPrefixes, Success,
};
use crate::pathres::{resolved, Environment, PathView};
use crate::paths::join;
use crate::platform::Platform;
use crate::scan::{kept_bytes, kept_paths, scan_adds_up, visited, ScanView, VisitView};
use crate::summary::{name_or_empty, BackupSummary};
use crate::text::{opt_text, texts};
use globset::GlobSet;
use vstd::prelude::*;

verus! {

/// What stays the same from the start of an app to its end.
#[derive(Debug)]
pub struct Course {
    pub app: App,
    pub config: Config,
    pub dest: String,
    pub platform: Platform,
    pub started_at: String,
}

/// The configured paths are known; which of them exist is not.
#[derive(Debug)]
pub struct Probing {
    pub course: Course,
    pub candidates: Vec<RootCandidate>,
    /// What is reported first.
    pub started: Event,
}

/// The roots are known; what is in them is not.
#[derive(Debug)]
pub struct Scanning {
    pub course: Course,
    pub infos: Vec<RootInfo>,
    pub prefixes: RootPrefixes,
}

/// What is to be packed is known; its directory is not made.
#[derive(Debug)]
pub struct Making {
    pub course: Course,
    pub infos: Vec<RootInfo>,
    pub prefixes: RootPrefixes,
    pub files: Vec<String>,
    pub dirs: Vec<String>,
    pub files_total: u64,
    pub bytes_total: u64,
    /// The directory to make.
    pub app_dir: String,
}

/// Everything is ready for packing.
#[derive(Debug)]
pub struct Packing {
    pub course: Course,
    pub infos: Vec<RootInfo>,
    pub prefixes: RootPrefixes,
    pub files: Vec<String>,
    pub dirs: Vec<String>,
    pub files_total: u64,
    pub bytes_total: u64,
    pub app_dir: String,
    pub base_name: String,
    pub format: Format,
}

/// The backup is in its place.
#[derive(Debug)]
pub struct Sealing {
    pub course: Course,
    pub infos: Vec<RootInfo>,
    pub prefixes: RootPrefixes,
    pub files_total: u64,
    pub bytes_total: u64,
    pub format: Format,
    pub final_path: String,
    pub size: u64,
    /// Whether a checksum is to be made of it.
    pub wants_checksum: bool,
}

/// The summary is to be written.
#[derive(Debug)]
pub struct Summarizing {
    pub course: Course,
    pub packed: Packed,
    pub summary: BackupSummary,
}

/// What comes after looking which paths exist.
pub enum AfterProbe {
    Ended(Ending),
    /// The roots are to be walked through.
    Scan { next: Scanning, roots: Vec<String>, rules: GlobSet, events: Vec<Event> },
}

/// What comes after the scan.
#[derive(Debug)]
pub enum AfterScanning {
    Ended(Ending),
    MakeDir { next: Making, events: Vec<Event> },
}

/// What comes after making the directory.
#[derive(Debug)]
pub enum AfterDir {
    Ended(Ending),
    Pack(Packing),
}

/// What comes after packing.
#[derive(Debug)]
pub enum AfterPack {
    Ended(Ending),
    Seal(Sealing),
}

/// What comes after writing the summary.
#[derive(Debug)]
pub enum AfterSummary {
    /// The app failed, and the backup is to be removed.
    Failed { ending: Ending, remove: String },
    Done(Success),
}

/// The configured paths of an app, each with what it stands for.
pub open spec fn candidates_of(course: Course, env: Environment) -> Seq<(Seq<char>, PathView)> {
    let p = course.platform;
    course.app@.paths_on(p).map_values(
        |raw: Seq<char>| (raw, resolved(p, env@, raw, course.config@.dir(p))),
    )
}

impl Course {
    /// Starts an app.
    pub fn begin(self, env: &Environment) -> (r: Probing)
        ensures
            r.course == self,
            candidate_list(r.candidates@) == candidates_of(self, *env),
            r.started@ == (EventView::AppStarted { app_id: self.app@.id }),
    {
        let candidates = root_candidates(&self.app, &self.config, self.platform, env);
        let started = started_event(&self.app);
        Probing { course: self, candidates, started }
    }
}

impl Probing {
    /// What the candidates are good for, given which of them exist.
    pub open spec fn findings(self, exist: Seq<bool>) -> Findings {
        findings(
            self.course.app@.id,
            candidate_list(self.candidates@),
            exist,
            self.candidates@.len(),
        )
    }

    /// Goes on with which of the candidates exist and with its exclude rules as
    /// they came out. An app without anything to back up is skipped; one whose
    /// rules are not accepted fails; else its roots are walked through.
    pub fn settled(self, exist: &Vec<bool>, built: Result<GlobSet, String>) -> (r: AfterProbe)
        requires
            exist@.len() == self.candidates@.len(),
        ensures
            ({
                let f = self.findings(exist@);
                let app = self.course.app@;
                let skip = without_backup(app, AppResult::Skipped, skip_detail(f.reasons));
                if f.valid.len() == 0 {
                    r matches AfterProbe::Ended(e) && e.outcome@ == skip && event_list(e.events@)
                        == f.events.push(finished(skip))
                } else {
                    match built {
                        Err(why) => r matches AfterProbe::Ended(e) && e.outcome@ == without_backup(
                            app,
                            AppResult::Failed,
                            "invalid exclude rule: "@ + why@,
                        ) && event_list(e.events@) == f.events + logged_failure(
                            app,
                            "invalid exclude rule: "@ + why@,
                        ),
                        Ok(set) => r matches AfterProbe::Scan { next, roots, rules, events } && {
                            &&& next.course == self.course
                            &&& info_list(next.infos@) == f.infos
                            &&& root_pairs(next.prefixes.all@) == prefixes_of(
                                self.course.platform,
                                f.infos,
                            )
                            &&& root_pairs(next.prefixes.packed@) == packed_roots(
                                self.course.platform,
                                f.infos,
                            )
                            &&& texts(roots@) == f.valid
                            &&& rules == set
                            &&& event_list(events@) == f.events
                        },
                    }
                }
            }),
    {
        let found = look_over_roots(&self.course.app, &self.candidates, exist);
        if let Some(outcome) = found.outcome {
            return AfterProbe::Ended(Ending { events: found.events, outcome });
        }
        let prefixes = assign_prefixes(&found.infos, self.course.platform);
        match settle_rules(&self.course.app, built) {
            Err(e) => {
                let ghost first = found.events@;
                let ghost last = e.events@;
                let mut events = found.events;
                let mut more = e.events;
                events.append(&mut more);
                assert(event_list(events@) =~= event_list(first) + event_list(last));
                AfterProbe::Ended(Ending { events, outcome: e.outcome })
            },
            Ok(rules) => AfterProbe::Scan {
                next: Scanning { course: self.course, infos: found.infos, prefixes },
                roots: found.valid,
                rules,
                events: found.events,
            },
        }
    }

    /// Goes on with which of the candidates exist. An app without anything to
    /// back up is skipped; one whose exclude rules are not accepted fails; else
    /// its roots are walked through.
    pub fn probed(self, exist: &Vec<bool>) -> (r: AfterProbe)
        requires
            exist@.len() == self.candidates@.len(),
        ensures
            ({
                let f = self.findings(exist@);
                let app = self.course.app@;
                let rules = rules_for(app, self.course.config@);
                let skip = without_backup(app, AppResult::Skipped, skip_detail(f.reasons));
                if f.valid.len() == 0 {
                    r matches AfterProbe::Ended(e) && e.outcome@ == skip && event_list(e.events@)
                        == f.events.push(finished(skip))
                } else {
                    match r {
                        AfterProbe::Ended(e) => rules.len() > 0 && exists|why: Seq<char>|
                            e.outcome@ == #[trigger] without_backup(
                                app,
                                AppResult::Failed,
                                "invalid exclude rule: "@ + why,
                            ) && event_list(e.events@) == f.events + logged_failure(
                                app,
                                "invalid exclude rule: "@ + why,
                            ) && (all_portable(rules) && first_fault(rules) is Some ==> first_fault(
                                rules,
                            ) == Some(why)),
                        AfterProbe::Scan { next, roots, rules: set, events } => {
                            &&& next.course == self.course
                            &&& info_list(next.infos@) == f.infos
                            &&& root_pairs(next.prefixes.all@) == prefixes_of(
                                self.course.platform,
                                f.infos,
                            )
                            &&& root_pairs(next.prefixes.packed@) == packed_roots(
                                self.course.platform,
                                f.infos,
                            )
                            &&& texts(roots@) == f.valid
                            &&& set_globs(set) == rules
                            &&& event_list(events@) == f.events
                            &&& all_portable(rules) ==> first_fault(rules) is None
                        },
                    }
                }
            }),
    {
        let built = build_excludes(&self.course.app, &self.course.config);
        self.settled(exist, built)
    }
}

impl Scanning {
    /// Goes on with what the scan found. A cancelled scan ends the app.
    pub fn scanned(self, files: Vec<String>, dirs: Vec<String>, bytes_total: u64, cancelled: bool) -> (r:
        AfterScanning)
        ensures
            ({
                let app = self.course.app@;
                let stop = without_backup(app, AppResult::Cancelled, "cancelled during scan"@);
                let report = scan_report(app.id, files@.len() as u64, bytes_total);
                match r {
                    AfterScanning::Ended(e) => {
                        &&& cancelled
                        &&& e.outcome@ == stop
                        &&& event_list(e.events@) == report.push(finished(stop))
                    },
                    AfterScanning::MakeDir { next, events } => {
                        &&& !cancelled
                        &&& next.course == self.course
                        &&& next.infos == self.infos
                        &&& next.prefixes == self.prefixes
                        &&& next.files == files
                        &&& next.dirs == dirs
                        &&& next.files_total == files@.len() as u64
                        &&& next.bytes_total == bytes_total
                        &&& next.app_dir@ == join(self.course.platform, self.course.dest@, app.id)
                        &&& event_list(events@) == report
                    },
                }
            }),
    {
        let files_total: u64 = files.len() as u64;
        let over = scan_over(&self.course.app, files_total, bytes_total, cancelled);
        match over.outcome {
            Some(outcome) => AfterScanning::Ended(Ending { events: over.events, outcome }),
            None => {
                let dir = app_dir(
                    self.course.dest.as_str(),
                    &self.course.app,
                    self.course.platform,
                );
                AfterScanning::MakeDir {
                    next: Making {
                        course: self.course,
                        infos: self.infos,
                        prefixes: self.prefixes,
                        files,
                        dirs,
                        files_total,
                        bytes_total,
                        app_dir: dir,
                    },
                    events: over.events,
                }
            },
        }
    }
}

impl Making {
    /// Goes on with whether the directory could be made. `time` is the time that
    /// goes into the name of the backup.
    pub fn made(self, made: Result<(), String>, cancelled: bool, time: &str) -> (r: AfterDir)
        ensures
            ({
                let app = self.course.app@;
                match made {
                    Err(error) => r matches AfterDir::Ended(e) && plain_ending(
                        e,
                        without_backup(
                            app,
                            AppResult::Failed,
                            "cannot create dest dir: "@ + error@,
                        ),
                    ),
                    Ok(_) => match r {
                        AfterDir::Ended(e) => cancelled && plain_ending(
                            e,
                            without_backup(
                                app,
                                AppResult::Cancelled,
                                "cancelled: "@ + "cancelled before pack"@,
                            ),
                        ),
                        AfterDir::Pack(next) => {
                            &&& !cancelled
                            &&& next.course == self.course
                            &&& next.infos == self.infos
                            &&& next.prefixes == self.prefixes
                            &&& next.files == self.files
                            &&& next.dirs == self.dirs
                            &&& next.files_total == self.files_total
                            &&& next.bytes_total == self.bytes_total
                            &&& next.app_dir == self.app_dir
                            &&& next.base_name@ == app.id + "_"@ + time@
                            &&& next.format == format_of(app, self.course.config@)
                        },
                    },
                }
            }),
    {
        if let Err(error) = made {
            return AfterDir::Ended(dest_refused(&self.course.app, error.as_str()));
        }
        if cancelled {
            return AfterDir::Ended(pack_failed(&self.course.app, "cancelled before pack", true));
        }
        let base_name = base_name_at(&self.course.app, time);
        let format = pack_format(&self.course.app, &self.course.config);
        AfterDir::Pack(
            Packing {
                course: self.course,
                infos: self.infos,
                prefixes: self.prefixes,
                files: self.files,
                dirs: self.dirs,
                files_total: self.files_total,
                bytes_total: self.bytes_total,
                app_dir: self.app_dir,
                base_name,
                format,
            },
        )
    }
}

impl Packing {
    /// Goes on with where the backup is and how large, or why it is not there.
    pub fn packed(self, result: Result<(String, u64), String>, cancelled: bool) -> (r: AfterPack)
        ensures
            ({
                let app = self.course.app@;
                match result {
                    Err(error) => r matches AfterPack::Ended(e) && plain_ending(
                        e,
                        if cancelled {
                            without_backup(app, AppResult::Cancelled, "cancelled: "@ + error@)
                        } else {
                            without_backup(app, AppResult::Failed, "pack failed: "@ + error@)
                        },
                    ),
                    Ok((path, size)) => r matches AfterPack::Seal(next) && {
                        &&& next.course == self.course
                        &&& next.infos == self.infos
                        &&& next.prefixes == self.prefixes
                        &&& next.files_total == self.files_total
                        &&& next.bytes_total == self.bytes_total
                        &&& next.format == self.format
                        &&& next.final_path == path
                        &&& next.size == size
                        &&& next.wants_checksum == (self.course.config@.backup.checksum && !(
                        self.format is Dir))
                    },
                }
            }),
    {
        match result {
            Err(error) => AfterPack::Ended(
                pack_failed(&self.course.app, error.as_str(), cancelled),
            ),
            Ok((final_path, size)) => {
                let wants = wants_checksum(&self.course.config, self.format);
                AfterPack::Seal(
                    Sealing {
                        course: self.course,
                        infos: self.infos,
                        prefixes: self.prefixes,
                        files_total: self.files_total,
                        bytes_total: self.bytes_total,
                        format: self.format,
                        final_path,
                        size,
                        wants_checksum: wants,
                    },
                )
            },
        }
    }
}

impl Sealing {
    /// What is known of the backup with its checksum, which counts only where
    /// one is wanted.
    pub open spec fn packed_with(self, checksum: Option<Seq<char>>, finished_at: Seq<char>) -> PackedView {
        PackedView {
            final_path: self.final_path@,
            format: self.format,
            size: self.size,
            files_total: self.files_total,
            bytes_total: self.bytes_total,
            started_at: self.course.started_at@,
            finished_at,
            checksum: if self.wants_checksum {
                checksum
            } else {
                None
            },
        }
    }

    /// Goes on with the checksum of the backup, where one was made.
    pub fn sealed(self, checksum: Option<String>, finished_at: String) -> (r: Summarizing)
        ensures
            r.course == self.course,
            r.packed@ == self.packed_with(opt_text(checksum), finished_at@),
            r.summary@ == summary_of(
                self.course.app@,
                self.course.config@,
                self.course.platform,
                self.packed_with(opt_text(checksum), finished_at@),
                info_list(self.infos@),
                root_pairs(self.prefixes.all@),
            ),
    {
        let packed = Packed {
            final_path: self.final_path,
            format: self.format,
            size: self.size,
            files_total: self.files_total,
            bytes_total: self.bytes_total,
            started_at: self.course.started_at.clone(),
            finished_at,
            checksum: if self.wants_checksum {
                checksum
            } else {
                None
            },
        };
        let summary = make_summary(
            &self.course.app,
            &self.course.config,
            self.course.platform,
            &packed,
            &self.infos,
            &self.prefixes.all,
        );
        Summarizing { course: self.course, packed, summary }
    }
}

impl Summarizing {
    /// Ends the app with whether the summary could be written. A backup without
    /// a summary is removed and not listed.
    pub fn written(self, result: Result<(), String>) -> (r: AfterSummary)
        ensures
            ({
                let app = self.course.app@;
                match result {
                    Err(error) => r matches AfterSummary::Failed { ending, remove } && {
                        &&& remove@ == self.packed@.final_path
                        &&& ending.outcome@ == without_backup(
                            app,
                            AppResult::Failed,
                            "summary write failed: "@ + error@,
                        )
                        &&& event_list(ending.events@) == logged_failure(
                            app,
                            "summary write failed: "@ + error@,
                        )
                    },
                    Ok(_) => r matches AfterSummary::Done(s) && {
                        &&& s.outcome@ == success(app, self.packed@)
                        &&& event_list(s.events@) == success_report(app, self.packed@)
                        &&& s.entry@ == entry_of(app, self.course.platform, self.packed@)
                    },
                }
            }),
    {
        match result {
            Err(error) => AfterSummary::Failed {
                ending: summary_failed(&self.course.app, error.as_str()),
                remove: self.packed.final_path,
            },
            Ok(_) => AfterSummary::Done(
                app_succeeded(&self.course.app, self.course.platform, &self.packed),
            ),
        }
    }
}

// ---------------------------------------------------------------------------
// Laws
// ---------------------------------------------------------------------------

/// What is counted of a backup, in its summary and in its entry, is what the scan
/// kept: the number of the files that no rule excludes, and the sum of their sizes.
/// Its size is that of the backup itself.
pub proof fn backup_counts_what_scan_kept(
    at: Sealing,
    checksum: Option<Seq<char>>,
    finished_at: Seq<char>,
    start: ScanView,
    visits: Seq<VisitView>,
)
    requires
        start.files.len() == 0,
        start.bytes_total == 0,
        start.scanned == 0,
        kept_bytes(visits) <= u64::MAX,
        kept_paths(visits).len() <= u64::MAX,
        at.files_total == visited(start, visits).files.len(),
        at.bytes_total == visited(start, visits).bytes_total,
    ensures
        ({
            let packed = at.packed_with(checksum, finished_at);
            let e = entry_of(at.course.app@, at.course.platform, packed);
            let s = summary_of(
                at.course.app@,
                at.course.config@,
                at.course.platform,
                packed,
                info_list(at.infos@),
                root_pairs(at.prefixes.all@),
            );
            &&& e.files == kept_paths(visits).len() && s.files == kept_paths(visits).len()
            &&& e.bytes_total == kept_bytes(visits) && s.bytes_total == kept_bytes(visits)
            &&& e.size == at.size && s.size == at.size
            &&& e.started_at == at.course.started_at@ && s.started_at == at.course.started_at@
            &&& e.finished_at == finished_at && s.finished_at == finished_at
            &&& e.file == name_or_empty(at.course.platform, at.final_path@) && s.archive == e.file
            &&& at.wants_checksum ==> e.checksum == checksum
            &&& !at.wants_checksum ==> e.checksum is None && s.checksum is None
        }),
{
    scan_adds_up(start, visits);
    assert(start.files + kept_paths(visits) =~= kept_paths(visits));
}

/// Each configured path of an app on the platform is looked at, in order, as what it
/// stands for seen from the directory of the configuration.
pub proof fn every_configured_path_is_looked_at(course: Course, env: Environment, i: int)
    requires
        0 <= i < course.app@.paths_on(course.platform).len(),
    ensures
        candidates_of(course, env).len() == course.app@.paths_on(course.platform).len(),
        candidates_of(course, env)[i].0 == course.app@.paths_on(course.platform)[i],
        candidates_of(course, env)[i].1 == resolved(
            course.platform,
            env@,
            course.app@.paths_on(course.platform)[i],
            course.config@.dir(course.platform),
        ),
{
}

} // verus!
