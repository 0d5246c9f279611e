//! Whole backups on a disk that lives in memory.

use backup_core::backup::{
    cleans_after_each, close_backup, plan_backup, removal_of, AppOutcome, BackupOptions, BackupReport,
};
use backup_core::checksum::sha256_hex;
use backup_core::config::{App, BackupSettings, CleanupMode, Config, Format};
use backup_core::course::{AfterDir, AfterPack, AfterProbe, AfterScanning, AfterSummary, Course};
use backup_core::events::{AppResult, Event, LogLevel};
use backup_core::history::{load_history, FoundFile, History, HistoryEntry, HistoryWriter};
use backup_core::pack::{dir_size, FileOutcome};
use backup_core::packer::PackAction;
use backup_core::pathres::{Environment, PathState};
use backup_core::scan::{entry_excluded, walk_enters, Scan, Visit};
use backup_core::summary::{summary_path_for, BackupSummary};
use backup_core::table::PathTable;
use backup_core::Platform;
use serde_json::Value;
use std::collections::{BTreeMap, BTreeSet};

const P: Platform = Platform::Linux;

fn env() -> Environment {
    Environment {
        vars: vec![],
        current_dir: "/work".to_string(),
    }
}

/// What is on the disk: files, directories, backups with the names in them,
/// summaries and the index.
#[derive(Default)]
struct Disk {
    files: BTreeMap<String, String>,
    dirs: BTreeSet<String>,
    archives: BTreeMap<String, Vec<String>>,
    copies: BTreeMap<String, String>,
    summaries: BTreeMap<String, BackupSummary>,
    blocked: BTreeSet<String>,
    /// The text of the index.
    index: Option<String>,
    events: Vec<Event>,
}

impl Disk {
    fn write(&mut self, path: &str, contents: &str) {
        self.files.insert(path.to_string(), contents.to_string());
        let mut dir = path;
        while let Some(at) = dir.rfind('/') {
            dir = &dir[..at];
            self.dirs.insert(dir.to_string());
        }
    }

    fn holds(&self, path: &str) -> bool {
        self.files.contains_key(path) || self.dirs.contains(path)
    }

    fn archive_names(&self, dir: &str) -> Vec<String> {
        let head = format!("{dir}/");
        self.archives
            .keys()
            .filter_map(|p| p.strip_prefix(&head).map(|n| n.to_string()))
            .collect()
    }

    fn history(&self, dest: &str) -> History {
        let head = format!("{dest}/");
        let found: Vec<FoundFile> = self
            .archives
            .iter()
            .filter_map(|(path, names)| {
                let (app_dir, name) = path.strip_prefix(&head)?.split_once('/')?;
                Some(FoundFile {
                    app_dir: app_dir.to_string(),
                    name: name.to_string(),
                    size: Some(names.len() as u64),
                    summary: self.summaries.get(&summary_path_for(path, P)).cloned(),
                })
            })
            .collect();
        let stored = self.index.as_deref().and_then(read_index);
        load_history(stored, &found)
    }

    fn scan(&self, app_id: &str, roots: &[String], rules: &globset::GlobSet) -> Scan {
        let mut scan = Scan::new(app_id, P);
        for root in roots {
            let mut pruned: Vec<String> = vec![];
            let under = |p: &String| p == root || p.starts_with(&format!("{root}/"));
            let mut found: Vec<(String, bool)> = self
                .dirs
                .iter()
                .filter(|p| under(p))
                .map(|p| (p.clone(), true))
                .collect();
            found.extend(self.files.keys().filter(|p| under(p)).map(|p| (p.clone(), false)));
            found.sort();
            for (path, is_dir) in found {
                if pruned.iter().any(|d| path.starts_with(&format!("{d}/"))) {
                    continue;
                }
                let excluded = entry_excluded(rules, root, &path, P);
                let depth = path[root.len()..].matches('/').count();
                if !walk_enters(depth, excluded) {
                    pruned.push(path);
                    continue;
                }
                let visit = if is_dir {
                    Visit::Dir { path }
                } else {
                    Visit::File {
                        root: root.clone(),
                        size: self.files[&path].len() as u64,
                        path,
                        excluded,
                    }
                };
                assert!(scan.can_visit(&visit));
                assert!(scan.visit(&visit, 0).is_none());
            }
        }
        scan
    }

    fn run_app(&mut self, app: &App, config: &Config, dest: &str, time: &str) -> AppOutcome {
        let course = Course {
            app: app.clone(),
            config: config.clone(),
            dest: dest.to_string(),
            platform: P,
            started_at: "start".to_string(),
        };
        let probing = course.begin(&env());
        self.events.push(probing.started.clone());
        let exist: Vec<bool> = probing
            .candidates
            .iter()
            .map(|c| matches!(&c.state, PathState::Resolved { path } if self.holds(path)))
            .collect();
        let (scanning, roots, rules) = match probing.probed(&exist) {
            AfterProbe::Ended(end) => {
                self.events.extend(end.events);
                return end.outcome;
            }
            AfterProbe::Scan {
                next,
                roots,
                rules,
                events,
            } => {
                self.events.extend(events);
                (next, roots, rules)
            }
        };
        let scan = self.scan(&app.id, &roots, &rules);
        let dirs = scan.empty_dirs();
        let bytes_total = scan.bytes_total;
        let making = match scanning.scanned(scan.files, dirs, bytes_total, false) {
            AfterScanning::Ended(_) => panic!("not cancelled"),
            AfterScanning::MakeDir { next, events } => {
                self.events.extend(events);
                next
            }
        };
        let packing = match making.made(Ok(()), false, time) {
            AfterDir::Ended(_) => panic!("not cancelled"),
            AfterDir::Pack(next) => next,
        };

        let mut packer = packing.start(&self.archive_names(&packing.app_dir));
        let mut names = vec![];
        let mut sizes = vec![];
        let final_path = loop {
            match packer.next(false) {
                PackAction::AddDir(steps) => {
                    for step in steps {
                        packer.dir_done(Ok(())).unwrap();
                        names.push(format!("{}/", step.place));
                    }
                }
                PackAction::AddFile(step) => {
                    let contents = self.files[&step.path].clone();
                    let bytes = contents.len() as u64;
                    let outcome = FileOutcome::Written { bytes };
                    assert!(packer.can_take(&outcome));
                    self.events.extend(packer.file_done(&step, &outcome));
                    sizes.push(bytes);
                    let place = step.place.replace(&packer.tmp_path, &packer.final_path);
                    names.push(place.clone());
                    self.copies.insert(place, contents);
                }
                PackAction::Abort { .. } => panic!("not cancelled"),
                PackAction::Finish { to, .. } => break to,
            }
        };
        let size = dir_size(&sizes).unwrap() + 22;
        self.archives.insert(final_path.clone(), names);
        let sealing = match packing.packed(Ok((final_path, size)), false) {
            AfterPack::Ended(_) => panic!("packed"),
            AfterPack::Seal(next) => next,
        };
        let checksum = Some(self.digest(&sealing.final_path));
        let summarizing = sealing.sealed(checksum, "end".to_string());
        let sidecar = summary_path_for(&summarizing.packed.final_path, P);
        let written = if self.blocked.contains(&sidecar) {
            Err("Is a directory".to_string())
        } else {
            self.summaries.insert(sidecar, summarizing.summary.clone());
            Ok(())
        };
        match summarizing.written(written) {
            AfterSummary::Failed { ending, remove } => {
                self.archives.remove(&remove);
                self.events.extend(ending.events);
                ending.outcome
            }
            AfterSummary::Done(done) => {
                self.events.extend(done.events);
                let mut history = self.history(dest);
                HistoryWriter::new().append(&mut history, done.entry);
                self.index = Some(index_text(&history));
                done.outcome
            }
        }
    }

    fn digest(&self, archive: &str) -> String {
        sha256_hex(&self.archives[archive].join("\n").into_bytes())
    }

    fn backup(&mut self, config: &Config, time: &str) -> BackupReport {
        let plan = plan_backup(config, &BackupOptions::default(), P, &env()).unwrap();
        self.events.push(plan.announcement.clone());
        let mut outcomes = vec![];
        let mut removed = vec![];
        for app in &plan.apps {
            outcomes.push(self.run_app(app, config, &plan.dest, time));
            if cleans_after_each(config) {
                let mut history = self.history(&plan.dest);
                removed
                    .extend(HistoryWriter::new().apply_retention(&mut history, config.backup.retention));
                self.index = Some(index_text(&history));
            }
        }
        for (app_id, file) in &removed {
            let gone = removal_of(&plan.dest, app_id, file, P);
            self.archives.remove(&gone.archive);
            self.summaries.remove(&gone.sidecar);
        }
        close_backup(plan, outcomes)
    }
}

/// An index as it is stored.
fn index_text(h: &History) -> String {
    let text = |s: &str| Value::from(s);
    let entries = h.entries.iter().map(|e| {
        let mut o = serde_json::Map::new();
        o.insert("app_id".to_string(), text(&e.app_id));
        o.insert("file".to_string(), text(&e.file));
        o.insert("format".to_string(), text(&e.format));
        o.insert("size".to_string(), Value::from(e.size));
        o.insert("files".to_string(), Value::from(e.files));
        o.insert("bytes_total".to_string(), Value::from(e.bytes_total));
        o.insert("started_at".to_string(), text(&e.started_at));
        o.insert("finished_at".to_string(), text(&e.finished_at));
        o.insert("checksum".to_string(), Value::from(e.checksum.clone()));
        o.insert("status".to_string(), text(&e.status));
        Value::Object(o)
    });
    let mut o = serde_json::Map::new();
    o.insert("version".to_string(), Value::from(h.version));
    o.insert("entries".to_string(), Value::Array(entries.collect()));
    serde_json::to_string_pretty(&Value::Object(o)).unwrap()
}

/// Reads an index back; `None` where the text is none.
fn read_index(text: &str) -> Option<History> {
    let value: Value = serde_json::from_str(text).ok()?;
    let entries = value.get("entries")?.as_array()?.iter().map(|e| {
        let text = |key: &str| Some(e.get(key)?.as_str()?.to_string());
        let number = |key: &str| e.get(key)?.as_u64();
        Some(HistoryEntry {
            app_id: text("app_id")?,
            file: text("file")?,
            format: text("format")?,
            size: number("size")?,
            files: number("files")?,
            bytes_total: number("bytes_total")?,
            started_at: text("started_at")?,
            finished_at: text("finished_at")?,
            checksum: text("checksum"),
            status: text("status")?,
        })
    });
    Some(History {
        version: value.get("version")?.as_u64()?.try_into().ok()?,
        entries: entries.collect::<Option<Vec<_>>>()?,
    })
}

fn config_for(dest: &str, paths: &[&str], format: Format, retention: usize) -> Config {
    let mut table = PathTable::new();
    table.insert(
        P.as_str().to_string(),
        paths.iter().map(|p| p.to_string()).collect(),
    );
    Config {
        version: 1,
        backup: BackupSettings {
            dest: dest.to_string(),
            format,
            parallel: 2,
            retention,
            cleanup: CleanupMode::default(),
            checksum: true,
            excludes: vec![],
        },
        apps: vec![App {
            id: "testapp".to_string(),
            name: "Test App".to_string(),
            enabled: true,
            paths: table,
            excludes: vec!["**/*.log".to_string()],
            compress: true,
        }],
        source: None,
    }
}

fn build_config(src: &str, dest: &str) -> Config {
    config_for(dest, &[src], Format::Zip, 0)
}

fn find_archive(disk: &Disk, app_dir: &str, suffix: &str) -> String {
    disk.archive_names(app_dir)
        .into_iter()
        .find(|n| n.ends_with(suffix) && !n.ends_with(".tmp"))
        .unwrap_or_else(|| panic!("no {suffix} archive in {app_dir}"))
}

const DEST: &str = "/t/backups";
const APP_DIR: &str = "/t/backups/testapp";
const TIME: &str = "20260829_093000";

#[test]
fn backup_creates_zip_and_history() {
    let mut disk = Disk::default();
    disk.write("/t/src/settings.json", "{\"theme\":\"dark\"}");
    disk.write("/t/src/keybindings.json", "{\"ctrl+k\":\"cmd\"}");
    disk.write("/t/src/Cache/big.bin", "cache-data");
    disk.write("/t/src/debug.log", "should be excluded");
    disk.dirs.insert("/t/src/EmptyDir".to_string());

    let config = build_config("/t/src", DEST);
    let report = disk.backup(&config, TIME);

    assert_eq!(report.ok(), 1);
    let outcome = &report.outcomes[0];
    assert_eq!(outcome.result, AppResult::Succeeded);
    assert!(outcome.size > 0);
    assert!(outcome.checksum.is_some());

    // Archive preserves the root directory as `src/...`.
    let zip_file = find_archive(&disk, APP_DIR, ".zip");
    let zip_path = format!("{APP_DIR}/{zip_file}");
    let names = disk.archives[&zip_path].clone();
    assert!(
        names.contains(&"src/settings.json".to_string()),
        "names: {names:?}"
    );
    assert!(names.contains(&"src/keybindings.json".to_string()));
    assert!(names.contains(&"src/Cache/big.bin".to_string()));
    assert!(names.contains(&"src/EmptyDir/".to_string()));
    assert!(
        !names.iter().any(|n| n.ends_with(".log")),
        "excluded .log leaked"
    );

    // Summary sidecar describes the archive and matches the bytes on disk.
    let summary = disk.summaries[&format!("{zip_path}.summary.json")].clone();
    assert_eq!(summary.version, 1);
    assert_eq!(summary.app_id, "testapp");
    assert_eq!(summary.app_name, "Test App");
    assert_eq!(summary.platform, P.as_str());
    assert_eq!(summary.archive, zip_file);
    assert_eq!(summary.format, "zip");
    assert_eq!(summary.size, outcome.size);
    assert_eq!(summary.files, 3);
    let expected_bytes = disk.files["/t/src/settings.json"].len()
        + disk.files["/t/src/keybindings.json"].len()
        + disk.files["/t/src/Cache/big.bin"].len();
    assert_eq!(summary.bytes_total, expected_bytes as u64);
    assert_eq!(summary.status, "ok");
    assert_eq!(summary.excludes, vec!["**/*.log".to_string()]);
    let checksum = summary.checksum.as_ref().expect("zip checksum");
    assert_eq!(checksum.algorithm, "sha256");
    assert_eq!(checksum.digest, disk.digest(&zip_path));
    assert_eq!(outcome.checksum.as_deref(), Some(checksum.digest.as_str()));
    assert_eq!(summary.paths.len(), 1);
    assert_eq!(summary.paths[0].archive_root, "src");
    assert_eq!(summary.paths[0].restore_to, "/t/src");
    assert!(summary.paths[0].existed);

    // History index written, with the same checksum.
    let history = disk.history(DEST);
    let entry = history.entries_for("testapp");
    assert_eq!(entry.len(), 1);
    assert_eq!(entry[0].status, "ok");
    assert_eq!(entry[0].files, 3);
    assert_eq!(entry[0].checksum.as_deref(), Some(checksum.digest.as_str()));

    // Events were published.
    let mut saw_started = false;
    let mut saw_finished = false;
    for ev in &disk.events {
        match ev {
            Event::AppStarted { app_id } if app_id == "testapp" => saw_started = true,
            Event::AppFinished { app_id, result, .. }
                if app_id == "testapp" && *result == AppResult::Succeeded =>
            {
                saw_finished = true
            }
            Event::Log {
                level: LogLevel::Warn,
                ..
            } => {
                panic!("unexpected warning event")
            }
            _ => {}
        }
    }
    assert!(saw_started);
    assert!(saw_finished);
}

#[test]
fn backup_missing_path_is_skipped() {
    let mut disk = Disk::default();
    let config = build_config("/t/does-not-exist", DEST);
    let report = disk.backup(&config, TIME);

    assert_eq!(report.skipped(), 1);
    assert_eq!(report.ok(), 0);
}

#[test]
fn backup_dir_copy_format_keeps_root_basename() {
    let mut disk = Disk::default();
    disk.write("/t/src/a.txt", "alpha");
    disk.write("/t/src/sub/b.txt", "beta");

    let mut config = build_config("/t/src", DEST);
    config.backup.format = Format::Dir;
    let report = disk.backup(&config, TIME);

    assert_eq!(report.ok(), 1);
    let dir_backup = find_archive(&disk, APP_DIR, ".dir");
    let copied = format!("{APP_DIR}/{dir_backup}/src/sub/b.txt");
    assert_eq!(disk.copies[&copied], "beta");

    let summary = &disk.summaries[&format!("{APP_DIR}/{dir_backup}.summary.json")];
    assert_eq!(summary.format, "dir");
    assert!(summary.checksum.is_none(), "dir backups have no checksum");
    assert_eq!(summary.files, 2);
    let expected_bytes = disk.files["/t/src/a.txt"].len() + disk.files["/t/src/sub/b.txt"].len();
    assert_eq!(summary.bytes_total, expected_bytes as u64);
}

#[test]
fn backup_prefixes_include_root_basename_and_disambiguate() {
    let mut disk = Disk::default();
    disk.write("/t/a/example/x.txt", "x");
    disk.write("/t/b/example/y.txt", "y");
    disk.write("/t/single.txt", "single");

    let config = config_for(
        DEST,
        &["/t/a/example", "/t/b/example", "/t/single.txt"],
        Format::Zip,
        0,
    );
    let report = disk.backup(&config, TIME);
    assert_eq!(report.ok(), 1);

    let zip_file = find_archive(&disk, APP_DIR, ".zip");
    let names = &disk.archives[&format!("{APP_DIR}/{zip_file}")];

    // Each same-named root gets a unique prefix built from its parent; a
    // single-file root is stored under its own file name.
    assert!(
        names.contains(&"a/example/x.txt".to_string()),
        "names: {names:?}"
    );
    assert!(names.contains(&"b/example/y.txt".to_string()));
    assert!(names.contains(&"single.txt".to_string()));
    assert!(
        !names.iter().any(|n| n == "example/x.txt" || n == "x.txt"),
        "bare root content leaked: {names:?}"
    );

    let summary = &disk.summaries[&format!("{APP_DIR}/{zip_file}.summary.json")];
    let roots: Vec<&str> = summary
        .paths
        .iter()
        .map(|p| p.archive_root.as_str())
        .collect();
    assert!(roots.contains(&"a/example"), "roots: {roots:?}");
    assert!(roots.contains(&"b/example"), "roots: {roots:?}");
    assert!(roots.contains(&"single.txt"), "roots: {roots:?}");
}

#[test]
fn backup_targz_keeps_root_basename() {
    let mut disk = Disk::default();
    disk.write("/t/src/a.txt", "alpha");
    disk.write("/t/src/sub/b.txt", "beta");

    let config = config_for(DEST, &["/t/src"], Format::TarGz, 0);
    let report = disk.backup(&config, TIME);
    assert_eq!(report.ok(), 1);

    let tar_file = find_archive(&disk, APP_DIR, ".tar.gz");
    let names = &disk.archives[&format!("{APP_DIR}/{tar_file}")];
    assert!(names.contains(&"src/a.txt".to_string()), "names: {names:?}");
    assert!(names.contains(&"src/sub/b.txt".to_string()));
}

#[test]
fn retention_keeps_newest() {
    let mut disk = Disk::default();
    disk.write("/t/src/a.txt", "alpha");

    let mut config = build_config("/t/src", DEST);
    config.backup.retention = 2;

    disk.backup(&config, "20260829_093000");
    disk.backup(&config, "20260829_093001");
    disk.backup(&config, "20260829_093002");

    let names = disk.archive_names(APP_DIR);
    let zips = names.iter().filter(|n| n.ends_with(".zip")).count();
    assert!(
        zips <= 2,
        "expected retention to cap backups at 2, got {zips}"
    );
    assert_eq!(
        names,
        ["testapp_20260829_093001.zip", "testapp_20260829_093002.zip"]
    );

    let history = disk.history(DEST);
    assert!(history.entries_for("testapp").len() <= 2);
}

#[test]
fn retention_deletes_archive_and_sidecar_together() {
    let mut disk = Disk::default();
    disk.write("/t/src/a.txt", "alpha");

    let mut config = build_config("/t/src", DEST);
    config.backup.retention = 1;

    disk.backup(&config, TIME);
    disk.backup(&config, TIME);

    let zips = disk.archive_names(APP_DIR);
    let sidecars: Vec<&String> = disk.summaries.keys().collect();
    assert_eq!(zips.len(), 1, "files: {zips:?}");
    assert_eq!(sidecars.len(), 1, "files: {sidecars:?}");
    assert_eq!(
        *sidecars[0],
        format!("{APP_DIR}/{}.summary.json", zips[0])
    );

    assert_eq!(disk.history(DEST).entries_for("testapp").len(), 1);
}

#[test]
fn summary_write_failure_removes_archive_and_fails_app() {
    let mut disk = Disk::default();
    disk.write("/t/src/a.txt", "alpha");

    // Block the predicted sidecar path so the summary write must fail.
    disk.blocked
        .insert(format!("{APP_DIR}/testapp_{TIME}.zip.summary.json"));

    let config = build_config("/t/src", DEST);
    let report = disk.backup(&config, TIME);

    assert_eq!(report.failed(), 1);
    assert_eq!(report.outcomes[0].result, AppResult::Failed);
    assert!(
        report.outcomes[0].detail.contains("summary"),
        "detail: {}",
        report.outcomes[0].detail
    );
    let remaining = disk.archive_names(APP_DIR);
    assert!(
        !remaining.iter().any(|n| n.ends_with(".zip")),
        "orphan archive left behind: {remaining:?}"
    );
    assert!(disk.history(DEST).entries_for("testapp").is_empty());
}

#[test]
fn backup_packs_overlapping_roots_once() {
    let mut disk = Disk::default();
    disk.write("/t/src/a.txt", "alpha");
    disk.write("/t/src/sub/b.txt", "beta");

    // src/sub is nested inside src: b.txt is reachable from both roots.
    let config = config_for(DEST, &["/t/src", "/t/src/sub"], Format::Zip, 0);
    let report = disk.backup(&config, TIME);
    assert_eq!(report.ok(), 1);

    let zip_file = find_archive(&disk, APP_DIR, ".zip");
    let names = &disk.archives[&format!("{APP_DIR}/{zip_file}")];
    let count = names.iter().filter(|n| n.ends_with("sub/b.txt")).count();
    assert_eq!(count, 1, "duplicate entry for overlapping root: {names:?}");
}

#[test]
fn rebuild_from_fs_uses_summary_sidecar() {
    let mut disk = Disk::default();
    disk.write("/t/src/a.txt", "alpha");
    disk.write("/t/src/sub/b.txt", "beta");

    let config = build_config("/t/src", DEST);
    let report = disk.backup(&config, TIME);
    assert_eq!(report.ok(), 1);

    let zip_file = find_archive(&disk, APP_DIR, ".zip");
    let zip_path = format!("{APP_DIR}/{zip_file}");
    let summary = disk.summaries[&summary_path_for(&zip_path, P)].clone();

    // Missing index -> rebuild, enriched from the sidecar.
    disk.index = None;
    let history = disk.history(DEST);
    let entries = history.entries_for("testapp");
    assert_eq!(entries.len(), 1);
    assert_eq!(entries[0].file, zip_file);
    assert_eq!(entries[0].format, "zip");
    assert_eq!(entries[0].size, summary.size);
    assert_eq!(entries[0].files, 2);
    assert_eq!(
        entries[0].checksum.as_deref(),
        Some(summary.checksum.as_ref().unwrap().digest.as_str())
    );
    assert!(!entries[0].started_at.is_empty());
    assert!(!entries[0].finished_at.is_empty());
    assert_eq!(entries[0].status, "ok");

    // Corrupt index -> rebuild as well.
    disk.index = Some("{ not json".to_string());
    let history = disk.history(DEST);
    let entries = history.entries_for("testapp");
    assert_eq!(entries.len(), 1);
    assert_eq!(entries[0].size, summary.size);

    // A legacy archive without a sidecar is still listed.
    let legacy_name = "testapp_20200101_000000.zip";
    disk.archives
        .insert(format!("{APP_DIR}/{legacy_name}"), vec!["legacy-bytes".to_string()]);
    let history = disk.history(DEST);
    let entries = history.entries_for("testapp");
    let legacy = entries
        .iter()
        .find(|e| e.file == legacy_name)
        .expect("legacy archive should be listed");
    assert_eq!(legacy.files, 0);
    assert_eq!(legacy.status, "ok");
    assert!(legacy.checksum.is_none());
}

#[test]
fn plain_copies_ignore_the_format() {
    let mut disk = Disk::default();
    disk.write("/t/src/a.txt", "alpha");
    let mut config = config_for(DEST, &["/t/src"], Format::TarGz, 0);
    config.apps[0].compress = false;
    let report = disk.backup(&config, TIME);
    assert_eq!(report.ok(), 1);
    assert!(report.outcomes[0].checksum.is_none());
    assert_eq!(disk.archive_names(APP_DIR), [format!("testapp_{TIME}.dir")]);
}
