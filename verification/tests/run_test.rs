//! Events, scans, packing, steps of an app and the command line.

use backup_core::backup::{
    announced_apps, cleans_after_each, cleans_at_end, close_backup, plan_backup, select_apps, AppOutcome,
    BackupOptions, BackupReport,
};
use backup_core::cli::{
    app_lines, check_line, count_line, event_line, exit_code, history_line, outcome_line,
    override_format, progress_line, stage_add_app, Line,
};
use backup_core::commands::report_view;
use backup_core::config::{App, BackupSettings, CleanupMode, Config, ConfigError, Format};
use backup_core::course::{AfterDir, AfterPack, AfterProbe, AfterScanning, AfterSummary, Course, Probing};
use backup_core::events::{
    eta_bytes_left, report_due, Aggregator, AppResult, CancelFlag, Event, EventQueue, LogLevel,
};
use backup_core::excludes::{combined_excludes, exclude_set, is_excluded, rule_builder};
use backup_core::history::HistoryEntry;
use backup_core::pack::{
    dir_size, plan_dirs, plan_files, stored_as, FileOutcome, PackRun, PackStep, Placement,
    Stored,
};
use backup_core::packer::{PackAction, Packer};
use backup_core::pathres::{Environment, PathState};
use backup_core::scan::{entry_excluded, walk_enters, Scan, Visit};
use backup_core::table::PathTable;
use backup_core::AppResult::{Cancelled, Failed, Skipped, Succeeded};
use backup_core::Platform::{self, Linux, Windows};

fn strings(list: &[&str]) -> Vec<String> {
    list.iter().map(|s| s.to_string()).collect()
}

fn env() -> Environment {
    Environment {
        vars: vec![],
        current_dir: "/work".to_string(),
    }
}

fn app(id: &str, paths: &[&str]) -> App {
    let mut table = PathTable::new();
    table.insert("linux".to_string(), strings(paths));
    App {
        id: id.to_string(),
        name: format!("App {id}"),
        enabled: true,
        paths: table,
        excludes: vec![],
        compress: true,
    }
}

fn config(apps: Vec<App>) -> Config {
    Config {
        version: 1,
        backup: BackupSettings {
            dest: "/dest".to_string(),
            ..Default::default()
        },
        apps,
        source: None,
    }
}

// --- events ---------------------------------------------------------------

fn progress(app_id: &str, bytes_done: u64) -> Event {
    Event::AppProgress {
        app_id: app_id.to_string(),
        files_done: 0,
        files_total: 0,
        bytes_done,
        bytes_total: 0,
        eta: None,
    }
}

fn finish(result: AppResult) -> Event {
    Event::AppFinished {
        app_id: "a".to_string(),
        result,
        detail: String::new(),
        size: 0,
        checksum: None,
    }
}

fn scan_done(bytes_total: u64) -> Event {
    Event::ScanDone {
        app_id: "a".to_string(),
        files_total: 1,
        bytes_total,
    }
}

#[test]
fn totals_over_all_apps() {
    let mut t = Aggregator::new(3);
    for ev in [
        scan_done(100),
        scan_done(50),
        progress("a", 30),
        progress("b", 10),
        progress("a", 20),
        finish(AppResult::Succeeded),
        finish(AppResult::Cancelled),
        finish(AppResult::Failed),
    ] {
        assert!(t.can_observe(&ev));
        t.observe(&ev);
    }
    assert_eq!(t.bytes_done(), Some(40));
    assert!(matches!(
        t.overall(40, None),
        Event::OverallProgress {
            apps_done: 2,
            apps_total: 3,
            bytes_done: 40,
            bytes_total: 150,
            eta: None
        }
    ));
    assert!(!t.can_observe(&scan_done(u64::MAX)));
    t.observe(&progress("c", u64::MAX));
    assert_eq!(t.bytes_done(), None);
}

#[test]
fn progress_gives_way_and_the_rest_waits() {
    let mut q = EventQueue::new(3);
    assert!(q.take().is_none());
    assert!(q.offer(scan_done(1)).is_none());
    assert!(q.offer(progress("a", 1)).is_none());
    assert!(q.has_room());
    assert!(q.offer(Aggregator::new(0).overall(2, None)).is_none());
    assert!(!q.has_room());

    // The oldest progress gives way, to progress and to the rest alike.
    assert!(q.offer(progress("a", 3)).is_none());
    assert!(q.offer(scan_done(2)).is_none());
    assert!(q.offer(scan_done(3)).is_none());

    // Nothing is left that could give way.
    assert!(q.offer(progress("a", 4)).is_none());
    assert!(matches!(
        q.offer(scan_done(4)),
        Some(Event::ScanDone { bytes_total: 4, .. })
    ));
    for n in 1..=3 {
        assert!(matches!(
            q.take(),
            Some(Event::ScanDone { bytes_total, .. }) if bytes_total == n
        ));
    }
    assert!(q.take().is_none());
    assert!(report_due(100));
    assert!(!report_due(99));
}

#[test]
fn reports_go_before_the_event_that_they_count() {
    let mut t = Aggregator::new(1);
    let mut q = EventQueue::new(2);
    assert!(!t.step(&scan_done(7), 99));
    assert!(q.pass(None, scan_done(7)).is_none());
    assert!(t.step(&finish(AppResult::Succeeded), 100));
    let report = t.overall(t.bytes_done().unwrap(), None);
    assert!(q.pass(Some(report), finish(AppResult::Succeeded)).is_none());
    // The report was the only progress, so it gave way.
    assert!(matches!(q.take(), Some(Event::ScanDone { .. })));
    assert!(matches!(q.take(), Some(Event::AppFinished { .. })));

    let report = t.overall(t.bytes_done().unwrap(), None);
    assert!(q.pass(Some(report), progress("a", 1)).is_none());
    assert!(matches!(
        q.take(),
        Some(Event::OverallProgress { apps_done: 1, bytes_total: 7, .. })
    ));
    assert!(matches!(q.take(), Some(Event::AppProgress { .. })));

    // Without room there is no report.
    assert!(q.pass(None, scan_done(1)).is_none());
    assert!(q.pass(None, scan_done(2)).is_none());
    assert!(q.pass(Some(t.overall(0, None)), scan_done(3)).is_some());
}

#[test]
fn what_is_kept_stays_in_order() {
    let mut q = EventQueue::new(2);
    assert!(q.offer(progress("a", 1)).is_none());
    assert!(q.offer(progress("a", 2)).is_none());
    assert!(q.offer(progress("a", 3)).is_none());
    assert!(q.offer(finish(AppResult::Failed)).is_none());
    assert!(matches!(
        q.take(),
        Some(Event::AppProgress { bytes_done: 3, .. })
    ));
    assert!(matches!(q.take(), Some(Event::AppFinished { .. })));
    assert!(q.take().is_none());
}

#[test]
fn remaining_time_needs_some_progress() {
    assert_eq!(eta_bytes_left(5, 10, 100), Some(90));
    assert_eq!(eta_bytes_left(5, 200, 100), Some(0));
    assert_eq!(eta_bytes_left(4, 10, 100), None);
    assert_eq!(eta_bytes_left(9, 0, 100), None);
    assert_eq!(eta_bytes_left(9, 10, 0), None);
}

#[test]
fn cancelling_stands() {
    let mut c = CancelFlag::new();
    assert!(!c.is_cancelled());
    c.cancel();
    assert!(c.is_cancelled());
    c.cancel();
    assert!(c.is_cancelled());
    assert_eq!(LogLevel::Debug.as_str(), "debug");
    assert_eq!(LogLevel::Error.as_str(), "error");
}

// --- rules and scan -------------------------------------------------------

#[test]
fn rules_exclude() {
    let mut c = config(vec![]);
    c.backup.excludes = strings(&[" *.log ", ""]);
    let mut a = app("a", &[]);
    a.excludes = strings(&["Cache/**"]);
    assert_eq!(combined_excludes(&a, &c), strings(&["*.log", "Cache/**"]));

    let set = exclude_set(&strings(&["*.log", "Cache/**"])).unwrap();
    assert!(is_excluded(&set, "/r/a.log", "a.log", Linux));
    assert!(is_excluded(&set, "/r/Cache/x", "Cache/x", Linux));
    assert!(is_excluded(&set, "C:\\r\\Cache\\x", "Cache\\x", Windows));
    assert!(!is_excluded(&set, "/r/a.txt", "a.txt", Linux));
    assert!(entry_excluded(&set, "/r", "/r/Cache/x", Linux));
    assert!(!entry_excluded(&set, "/r", "/r/Cache", Linux));

    let abs = exclude_set(&strings(&["/r/secret/**"])).unwrap();
    assert!(is_excluded(&abs, "/r/secret/k", "k", Linux));

    let none = exclude_set(&vec![]).unwrap();
    assert!(!is_excluded(&none, "/r/a.log", "a.log", Linux));
}

#[test]
fn a_bad_rule_is_refused() {
    let err = match exclude_set(&strings(&["ok", "[z-a]", "[x"])) {
        Ok(_) => panic!("should be refused"),
        Err(e) => e,
    };
    assert!(err.contains("[z-a]"), "{err}");
    match rule_builder(&strings(&["ok", "[z-a]", "[x"])) {
        Ok(_) => panic!("should be refused"),
        Err(e) => assert_eq!(e, err),
    }
}

#[test]
fn good_rules_are_all_taken() {
    let builder = rule_builder(&strings(&["*.log", "Cache/**"])).unwrap();
    let set = builder.build().unwrap();
    assert_eq!(set.len(), 2);
    assert!(is_excluded(&set, "/r/a.log", "a.log", Linux));
    assert!(is_excluded(&set, "/r/Cache/x", "Cache/x", Linux));
    let set = rule_builder(&vec![]).unwrap().build().unwrap();
    assert!(set.is_empty());
    assert!(!is_excluded(&set, "C:\\r\\a", "a\\b", Linux));
    assert!(!entry_excluded(&set, "/r", "/r/a\\b", Linux));
}

#[test]
fn walks_enter_roots_and_what_is_not_excluded() {
    assert!(walk_enters(0, true));
    assert!(walk_enters(1, false));
    assert!(!walk_enters(1, true));
}

fn file(path: &str, size: u64, excluded: bool) -> Visit {
    Visit::File {
        root: "/r".to_string(),
        path: path.to_string(),
        size,
        excluded,
    }
}

#[test]
fn scans_add_up() {
    let mut s = Scan::new("a", Linux);
    assert!(s.visit(&Visit::Dir { path: "/r".to_string() }, 0).is_none());
    assert!(s.visit(&Visit::Dir { path: "/r/d".to_string() }, 500).is_none());
    assert!(s.visit(&file("/r/d/x", 5, false), 99).is_none());
    assert!(s.visit(&file("/r/d/y", 7, true), 100).is_none());
    let ev = s.visit(&file("/r/z", 2, false), 100);
    assert!(matches!(ev, Some(Event::ScanUpdate { files_scanned: 2, .. })));
    let ev = s.visit(&Visit::Failed { error: "denied".to_string() }, 0);
    assert!(matches!(
        ev,
        Some(Event::Log { level: LogLevel::Warn, msg }) if msg == "app a: walk error: denied"
    ));
    assert_eq!(s.files, strings(&["/r/d/x", "/r/z"]));
    assert_eq!(s.bytes_total, 7);
    assert_eq!(s.scanned, 2);
    // Directories go by their whole path, places above files by that below the
    // root.
    assert_eq!(s.empty_dirs(), strings(&["/r", "/r/d"]));
    assert!(!s.can_visit(&file("/r/big", u64::MAX, false)));
    assert!(s.can_visit(&file("/r/big", u64::MAX, true)));
}

// --- packing --------------------------------------------------------------

fn roots(list: &[(&str, &str)]) -> Vec<(String, String)> {
    list.iter()
        .map(|(r, p)| (r.to_string(), p.to_string()))
        .collect()
}

#[test]
fn files_go_to_the_first_root_once() {
    let roots = roots(&[("/r", "r"), ("/r/sub", "sub"), ("/q", "q")]);
    let files = strings(&["/q/c", "/r/a", "/r/sub/b", "/r//a", "/nowhere/d"]);
    let plan = plan_files(&roots, &files, &Placement::Archive, Linux);
    let places: Vec<&str> = plan.steps.iter().map(|s| s.place.as_str()).collect();
    assert_eq!(places, ["r/a", "r/sub/b", "q/c"]);
    assert!(plan.looks_further);
    let some = strings(&["/r/a", "/q/c"]);
    assert!(!plan_files(&roots, &some, &Placement::Archive, Linux).looks_further);
    let none = plan_files(&roots, &vec![], &Placement::Archive, Linux);
    assert!(none.steps.is_empty() && !none.looks_further);
    let kept = strings(&["/r/sub", "/nowhere", "/q"]);
    let dirs = plan_dirs(&roots, &kept, &Placement::Archive, Linux);
    let places: Vec<Vec<&str>> = dirs
        .iter()
        .map(|g| g.iter().map(|s| s.place.as_str()).collect())
        .collect();
    assert_eq!(places, [vec!["r/sub", "sub"], vec![], vec!["q"]]);
    let dir = Placement::Directory {
        dir: "/t".to_string(),
    };
    let plan = plan_files(&roots, &files, &dir, Linux);
    assert_eq!(plan.steps[1].place, "/t/r/sub/b");
    assert_eq!(plan.steps[1].path, "/r/sub/b");
}

fn step() -> PackStep {
    PackStep {
        path: "/r/a".to_string(),
        place: "r/a".to_string(),
    }
}

#[test]
fn progress_of_packing() {
    let mut run = PackRun::new("a", Format::Zip, 2, 9);
    let events = run.take(&step(), &FileOutcome::Written { bytes: 4 });
    assert_eq!(events.len(), 2);
    assert!(matches!(
        &events[0],
        Event::FileDone { path, bytes_written: 4, .. } if path == "r/a"
    ));
    assert!(matches!(
        &events[1],
        Event::AppProgress {
            files_done: 1,
            files_total: 2,
            bytes_done: 4,
            bytes_total: 9,
            ..
        }
    ));
    let mut tar = PackRun::new("a", Format::TarGz, 2, 9);
    assert_eq!(tar.take(&step(), &FileOutcome::Written { bytes: 4 }).len(), 1);
    assert!(!tar.can_take(&FileOutcome::Written { bytes: u64::MAX }));
}

#[test]
fn files_that_are_left_out_are_told() {
    let tell = |format: Format, outcome: FileOutcome| -> String {
        let mut run = PackRun::new("a", format, 1, 1);
        let events = run.take(&step(), &outcome);
        assert_eq!(run.done, 0);
        match &events[0] {
            Event::Log {
                level: LogLevel::Warn,
                msg,
            } => msg.clone(),
            other => panic!("unexpected: {other:?}"),
        }
    };
    let e = || "e".to_string();
    assert_eq!(
        tell(Format::Zip, FileOutcome::NotOpened { error: e() }),
        "cannot open /r/a, skipped: e"
    );
    assert_eq!(
        tell(Format::Zip, FileOutcome::NotAdded { error: e() }),
        "failed to add /r/a to archive: e"
    );
    assert_eq!(
        tell(Format::TarGz, FileOutcome::NotCopied { error: e() }),
        "failed to pack /r/a, skipped: e"
    );
    assert_eq!(
        tell(Format::Dir, FileOutcome::NotCopied { error: e() }),
        "failed to copy /r/a, skipped: e"
    );
}

fn packer(format: Format, roots: &[&str], files: &[&str], dirs: &[&str]) -> Packer {
    let mut c = config(vec![]);
    c.backup.format = format;
    let exist = vec![true; roots.len()];
    let scanning = match begin(app("a", roots), &c).probed(&exist) {
        AfterProbe::Scan { next, .. } => next,
        AfterProbe::Ended(_) => panic!("goes on"),
    };
    let making = match scanning.scanned(strings(files), strings(dirs), 5, false) {
        AfterScanning::MakeDir { next, .. } => next,
        AfterScanning::Ended(_) => panic!("goes on"),
    };
    match making.made(Ok(()), false, "t") {
        AfterDir::Pack(next) => next.start(&vec![]),
        AfterDir::Ended(_) => panic!("goes on"),
    }
}

#[test]
fn a_cancelled_backup_is_not_finished() {
    for format in [Format::Zip, Format::TarGz, Format::Dir] {
        // A file under no root is looked at too.
        let mut p = packer(format, &["/r"], &["/elsewhere/x"], &[]);
        assert!(matches!(p.next(true), PackAction::Abort { .. }));
        assert!(matches!(p.next(false), PackAction::Finish { .. }));

        // Cancelled in the last file of the first root, with the second to come.
        let mut p = packer(format, &["/r", "/q"], &["/r/x"], &[]);
        assert!(matches!(p.next(false), PackAction::AddFile(s) if s.path == "/r/x"));
        assert!(matches!(p.next(true), PackAction::Abort { .. }));

        // Nothing is left to look at behind the last file of the last root.
        let mut p = packer(format, &["/r", "/q"], &["/r/x", "/q/y"], &[]);
        assert!(matches!(p.next(false), PackAction::AddFile(_)));
        assert!(matches!(p.next(false), PackAction::AddFile(s) if s.path == "/q/y"));
        assert!(matches!(p.next(true), PackAction::Finish { .. }));
    }
    // A directory under no root is looked at as well, but not in a plain copy.
    let mut p = packer(Format::Zip, &["/r"], &[], &["/elsewhere"]);
    assert!(matches!(p.next(true), PackAction::Abort { .. }));
    assert!(matches!(p.next(false), PackAction::AddDir(s) if s.is_empty()));
    assert!(matches!(p.next(true), PackAction::Finish { .. }));
    let mut p = packer(Format::Dir, &["/r"], &[], &["/elsewhere"]);
    assert!(matches!(p.next(true), PackAction::AddDir(s) if s.is_empty()));
    assert!(matches!(p.next(true), PackAction::Finish { .. }));
}

#[test]
fn packing_stops_between_files() {
    let ready = |format: Format| packer(format, &["/r"], &["/r/x", "/r/y"], &["/r"]);
    for format in [Format::Zip, Format::TarGz] {
        let mut packer = ready(format);
        assert!(matches!(packer.next(true), PackAction::Abort { .. }));
        assert!(matches!(packer.next(false), PackAction::AddDir(s) if s[0].place == "r"));
        assert!(packer.dir_done(Err("e".to_string())).is_ok());
        assert!(matches!(packer.next(false), PackAction::AddFile(s) if s.place == "r/x"));
        assert!(matches!(
            packer.next(true),
            PackAction::Abort { remove, error } if remove == packer.tmp_path && error == "cancelled"
        ));
    }
    let mut packer = ready(Format::Dir);
    assert!(matches!(
        packer.next(true),
        PackAction::AddDir(s) if s.len() == 1 && s[0].place == "/dest/a/a_t.dir.tmp/r"
    ));
    assert_eq!(packer.dir_done(Err("e".to_string())), Err("e".to_string()));
    assert!(matches!(packer.next(true), PackAction::Abort { .. }));
    assert!(matches!(packer.next(false), PackAction::AddFile(_)));
    assert!(matches!(packer.next(false), PackAction::AddFile(_)));
    assert!(matches!(
        packer.next(true),
        PackAction::Finish { from, to } if from == "/dest/a/a_t.dir.tmp" && to == "/dest/a/a_t.dir"
    ));
}

#[test]
fn sizes_and_links() {
    assert_eq!(stored_as(true), Stored::Link);
    assert_eq!(stored_as(false), Stored::Contents);
    assert_eq!(dir_size(&vec![1, 2, 3]), Some(6));
    assert_eq!(dir_size(&vec![u64::MAX, 1]), None);
}

// --- runs -----------------------------------------------------------------

#[test]
fn runs_are_planned() {
    let mut off = app("off", &["/x"]);
    off.enabled = false;
    let mut c = config(vec![app("a", &["/x"]), off, app("b", &["/y"])]);
    let all = BackupOptions::default();
    let ids = |o: &BackupOptions| -> Vec<String> {
        select_apps(&c, o).into_iter().map(|a| a.id).collect()
    };
    assert_eq!(ids(&all), ["a", "b"]);
    let named = BackupOptions {
        app_ids: strings(&["off", "a", "ghost"]),
    };
    assert_eq!(ids(&named), ["a", "off"]);
    assert_eq!(announced_apps(&c, &all), 2);
    assert_eq!(announced_apps(&c, &named), 3);

    for (parallel, workers) in [(0, 1), (1, 1), (2, 2), (9, 2)] {
        c.backup.parallel = parallel;
        let plan = plan_backup(&c, &all, Linux, &env()).unwrap();
        assert_eq!(plan.workers, workers);
        assert_eq!(plan.dest, "/dest");
        assert!(matches!(
            &plan.announcement,
            Event::Log { level: LogLevel::Info, msg } if msg == "backup started: 2 app(s) -> /dest"
        ));
    }
    let ghost = BackupOptions {
        app_ids: strings(&["ghost"]),
    };
    assert_eq!(
        plan_backup(&c, &ghost, Linux, &env()).unwrap_err(),
        ConfigError::NoApps
    );
    c.backup.dest = "$X".to_string();
    assert_eq!(
        plan_backup(&c, &ghost, Linux, &env()).unwrap_err(),
        ConfigError::DestVar { var: "X".to_string() }
    );
}

#[test]
fn cleaning_up_is_decided_by_the_settings() {
    let mut c = config(vec![]);
    assert!(cleans_after_each(&c) && !cleans_at_end(&c));
    c.backup.cleanup = CleanupMode::AtEnd;
    assert!(!cleans_after_each(&c) && cleans_at_end(&c));
    c.backup.retention = 0;
    assert!(!cleans_after_each(&c) && !cleans_at_end(&c));
}

fn begin(app: App, config: &Config) -> Probing {
    Course {
        app,
        config: config.clone(),
        dest: "/dest".to_string(),
        platform: Platform::Linux,
        started_at: "s".to_string(),
    }
    .begin(&env())
}

fn last_detail(events: &[Event]) -> (AppResult, String) {
    match events.last() {
        Some(Event::AppFinished { result, detail, .. }) => (*result, detail.clone()),
        other => panic!("unexpected: {other:?}"),
    }
}

#[test]
fn apps_without_anything_to_back_up_are_skipped() {
    let c = config(vec![]);
    let probing = begin(app("a", &["/gone", "$NOPE/x", "%X%"]), &c);
    assert!(matches!(&probing.started, Event::AppStarted { app_id } if app_id == "a"));
    match probing.probed(&vec![false, false, false]) {
        AfterProbe::Ended(end) => {
            assert_eq!(end.outcome.result, AppResult::Skipped);
            assert_eq!(
                end.outcome.detail,
                "path missing: /gone; env var not defined: NOPE"
            );
            assert_eq!(end.events.len(), 4);
            assert_eq!(last_detail(&end.events).1, end.outcome.detail);
        }
        _ => panic!("should be skipped"),
    }
    match begin(app("a", &[]), &c).probed(&vec![]) {
        AfterProbe::Ended(end) => {
            assert_eq!(end.outcome.detail, "not configured for this platform")
        }
        _ => panic!("should be skipped"),
    }
}

#[test]
fn bad_rules_fail_the_app() {
    let mut a = app("a", &["/r"]);
    a.excludes = strings(&["[z-a]"]);
    match begin(a, &config(vec![])).probed(&vec![true]) {
        AfterProbe::Ended(end) => {
            assert_eq!(end.outcome.result, AppResult::Failed);
            assert!(end.outcome.detail.starts_with("invalid exclude rule: "));
            assert_eq!(end.events.len(), 2);
        }
        _ => panic!("should fail"),
    }
}

#[test]
fn rules_are_taken_as_they_came_out() {
    let c = config(vec![]);
    match begin(app("a", &["/r"]), &c).settled(&vec![true], Err("why".to_string())) {
        AfterProbe::Ended(end) => {
            assert_eq!(end.outcome.result, AppResult::Failed);
            assert_eq!(end.outcome.detail, "invalid exclude rule: why");
        }
        _ => panic!("should fail"),
    }
    match begin(app("a", &["/r"]), &c).settled(&vec![false], Err("why".to_string())) {
        AfterProbe::Ended(end) => assert_eq!(end.outcome.result, AppResult::Skipped),
        _ => panic!("should be skipped"),
    }
    match begin(app("a", &["/r"]), &c).settled(&vec![true], exclude_set(&vec![])) {
        AfterProbe::Scan { roots, rules, .. } => {
            assert_eq!(roots, strings(&["/r"]));
            assert!(!is_excluded(&rules, "/r/x", "x", Linux));
        }
        _ => panic!("goes on"),
    }
}

#[test]
fn every_step_can_end_the_app() {
    let c = config(vec![]);
    let scanning = || match begin(app("a", &["/r", "/gone"]), &c).probed(&vec![true, false]) {
        AfterProbe::Scan { next, roots, .. } => {
            assert_eq!(roots, strings(&["/r"]));
            assert_eq!(next.prefixes.all.len(), 2);
            assert_eq!(next.prefixes.packed, vec![("/r".to_string(), "r".to_string())]);
            next
        }
        AfterProbe::Ended(_) => panic!("goes on"),
    };
    match scanning().scanned(strings(&["/r/x"]), vec![], 5, true) {
        AfterScanning::Ended(end) => {
            assert_eq!(
                last_detail(&end.events),
                (AppResult::Cancelled, "cancelled during scan".to_string())
            );
            assert!(matches!(
                &end.events[1],
                Event::Log { msg, .. } if msg == "app a: scanned 1 file(s), 5 bytes"
            ));
        }
        _ => panic!("cancelled"),
    }
    let making = || match scanning().scanned(strings(&["/r/x"]), vec![], 5, false) {
        AfterScanning::MakeDir { next, .. } => next,
        AfterScanning::Ended(_) => panic!("goes on"),
    };
    assert_eq!(making().app_dir, "/dest/a");
    match making().made(Err("full".to_string()), false, "t") {
        AfterDir::Ended(end) => {
            assert_eq!(end.outcome.detail, "cannot create dest dir: full")
        }
        _ => panic!("fails"),
    }
    match making().made(Ok(()), true, "t") {
        AfterDir::Ended(end) => {
            assert_eq!(end.outcome.result, AppResult::Cancelled);
            assert_eq!(end.outcome.detail, "cancelled: cancelled before pack");
        }
        _ => panic!("cancelled"),
    }
    let packing = || match making().made(Ok(()), false, "t") {
        AfterDir::Pack(next) => next,
        AfterDir::Ended(_) => panic!("goes on"),
    };
    assert_eq!(packing().base_name, "a_t");
    assert_eq!(packing().format, Format::Zip);
    match packing().packed(Err("boom".to_string()), false) {
        AfterPack::Ended(end) => assert_eq!(end.outcome.detail, "pack failed: boom"),
        _ => panic!("fails"),
    }
    match packing().packed(Err("cancelled".to_string()), true) {
        AfterPack::Ended(end) => {
            assert_eq!(
                last_detail(&end.events),
                (AppResult::Cancelled, "cancelled: cancelled".to_string())
            )
        }
        _ => panic!("cancelled"),
    }
    let sealing = || match packing().packed(Ok(("/dest/a/a_t.zip".to_string(), 42)), false) {
        AfterPack::Seal(next) => next,
        AfterPack::Ended(_) => panic!("goes on"),
    };
    assert!(sealing().wants_checksum);
    let summarizing = || sealing().sealed(Some("d1".to_string()), "f".to_string());
    assert_eq!(summarizing().summary.paths.len(), 2);
    assert_eq!(summarizing().summary.paths[1].archive_root, "gone");
    assert!(!summarizing().summary.paths[1].existed);
    match summarizing().written(Err("denied".to_string())) {
        AfterSummary::Failed { ending, remove } => {
            assert_eq!(remove, "/dest/a/a_t.zip");
            assert_eq!(ending.outcome.detail, "summary write failed: denied");
            assert!(matches!(
                &ending.events[0],
                Event::Log { level: LogLevel::Error, msg }
                    if msg == "app a: summary write failed: denied"
            ));
        }
        _ => panic!("fails"),
    }
    match summarizing().written(Ok(())) {
        AfterSummary::Done(done) => {
            assert_eq!(done.outcome.result, AppResult::Succeeded);
            assert_eq!(done.outcome.detail, "42 bytes");
            assert_eq!(done.outcome.checksum.as_deref(), Some("d1"));
            assert_eq!(done.entry.file, "a_t.zip");
            assert_eq!(done.entry.format, "zip");
            assert_eq!(done.entry.started_at, "s");
            assert!(matches!(
                &done.events[0],
                Event::Log { msg, .. } if msg == "app a: finished /dest/a/a_t.zip, 42 bytes"
            ));
        }
        _ => panic!("succeeds"),
    }
}

fn outcome(result: AppResult) -> AppOutcome {
    AppOutcome {
        app_id: "a".to_string(),
        name: "A".to_string(),
        result,
        detail: "d".to_string(),
        size: 1,
        checksum: None,
    }
}

fn report(results: &[AppResult]) -> BackupReport {
    BackupReport {
        dest: "/dest".to_string(),
        started_at: String::new(),
        finished_at: String::new(),
        outcomes: results.iter().map(|r| outcome(*r)).collect(),
    }
}

#[test]
fn reports_count() {
    let r = report(&[Succeeded, Failed, Skipped, Succeeded, Cancelled]);
    assert_eq!((r.ok(), r.failed(), r.skipped(), r.cancelled()), (2, 1, 1, 1));
    assert_eq!(exit_code(&r), 1);
    assert_eq!(exit_code(&report(&[Skipped])), 0);
    assert_eq!(count_line(&r), "  ok=2 failed=1 skipped=1 cancelled=1");
    let v = report_view(&r);
    assert_eq!((v.ok, v.failed, v.skipped, v.cancelled), (2, 1, 1, 1));
    assert_eq!(v.outcomes[1].result, "failed");

    let plan = plan_backup(
        &config(vec![app("a", &[])]),
        &BackupOptions::default(),
        Linux,
        &env(),
    )
    .unwrap();
    let started = plan.started_at.clone();
    let closed = close_backup(plan, vec![outcome(Failed)]);
    assert_eq!(closed.dest, "/dest");
    assert_eq!(closed.started_at, started);
    assert_eq!(closed.failed(), 1);
}

// --- command line ---------------------------------------------------------

#[test]
fn lines_of_the_command_line() {
    assert_eq!(outcome_line(&outcome(AppResult::Failed)), "  ✗ a  d");
    assert!(matches!(event_line(&finish(AppResult::Skipped)), Line::Output(t) if t == "– a: "));
    let log = Event::Log {
        level: LogLevel::Info,
        msg: "m".to_string(),
    };
    assert!(matches!(event_line(&log), Line::Diagnostic(t) if t == "[info] m"));
    assert!(matches!(event_line(&scan_done(1)), Line::Nothing));
    assert_eq!(
        progress_line(1, 2, 30, 60, 50),
        "⏳ apps 1/2  bytes 30/60 (50%)   "
    );
    let e = HistoryEntry {
        app_id: "a".to_string(),
        file: "f".to_string(),
        format: "zip".to_string(),
        size: 7,
        files: 1,
        bytes_total: 1,
        started_at: String::new(),
        finished_at: String::new(),
        checksum: None,
        status: "ok".to_string(),
    };
    assert_eq!(history_line(&e), "a\tf\t7\tok");
    let mut a = app("x", &["/p", "/q"]);
    a.enabled = false;
    a.excludes = strings(&["1", "2"]);
    assert_eq!(
        app_lines(&a),
        strings(&["x (App x) [disabled] - 1,2", "    linux: /p", "    linux: /q"])
    );
    let at = PathState::Resolved {
        path: "/p".to_string(),
    };
    assert_eq!(check_line("x", &at, true), "  x -> /p [ok]");
    assert_eq!(check_line("x", &at, false), "  x -> /p [missing]");
    let var = PathState::UndefinedVar {
        var: "V".to_string(),
    };
    assert_eq!(check_line("x", &var, false), "  x -> UNDEFINED VAR V");
    let other = PathState::OtherPlatform {
        raw: "r".to_string(),
    };
    assert_eq!(check_line("x", &other, false), "  x -> other platform, ignored");
}

#[test]
fn format_can_be_overridden() {
    let c = override_format(config(vec![]), Some("tar.gz")).unwrap();
    assert_eq!(c.backup.format, Format::TarGz);
    let c = override_format(c, None).unwrap();
    assert_eq!(c.backup.format, Format::TarGz);
    assert_eq!(
        override_format(c, Some("rar")).unwrap_err(),
        "unknown format: rar"
    );
}

#[test]
fn apps_are_added_with_an_id_of_their_own() {
    let c = config(vec![app("my-app", &["/x"])]);
    let last = |c: Config| c.apps.last().unwrap().id.clone();
    let add = |id: &str, name: &str| stage_add_app(&c, id, name, "/p", Linux);
    assert_eq!(last(add("my-app", "Other").unwrap()), "my-app-2");
    assert_eq!(last(add("", "My App").unwrap()), "my-app-2");
    assert_eq!(last(add("fresh", "My App").unwrap()), "fresh");
    let added = add("fresh", "N").unwrap();
    assert_eq!(added.apps.len(), 2);
    assert_eq!(added.apps[0].id, "my-app");
    assert_eq!(added.apps[1].paths.get("linux"), Some(&strings(&["/p"])));
    assert!(added.apps[1].enabled && added.apps[1].compress);
    assert_eq!(add("fresh", "").unwrap_err(), "名称不能为空");
    assert_eq!(
        stage_add_app(&c, "fresh", "N", " ", Linux).unwrap_err(),
        "至少需要填写一个备份路径"
    );
}
