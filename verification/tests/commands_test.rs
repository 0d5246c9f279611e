use backup_core::commands::{
    app_from_input, app_meta, commit_config, convert, default_settings, get_app, get_history,
    load_or_create_config, path_preview, reload_source, result_str, settings_view, stage_remove_app,
    stage_save_app, stage_settings, write_targets, AppInput, AppState, LoadStep, SettingsInput, UiEvent,
};
use backup_core::config::{
    first_config, load_config, App, BackupSettings, CleanupMode, Config, ConfigError, Format,
};
use backup_core::events::{AppResult, Event, LogLevel};
use backup_core::history::{History, HistoryEntry};
use backup_core::job::root_candidates;
use backup_core::pathres::{Environment, PathState};
use backup_core::table::PathTable;
use backup_core::Platform;
use serde_json::Value;

const SOURCE: &str = "/tmp/x/config.json";

fn current() -> Platform {
    Platform::current("linux").unwrap()
}

fn env() -> Environment {
    Environment {
        vars: vec![("HOME".to_string(), "/home/u".to_string())],
        current_dir: "/work".to_string(),
    }
}

fn config_with(backup: BackupSettings, apps: Vec<App>) -> Config {
    Config {
        version: 1,
        backup,
        apps,
        source: Some(SOURCE.to_string()),
    }
}

fn sample_app(id: &str) -> App {
    let mut paths = PathTable::new();
    paths.insert(current().as_str().to_string(), vec!["/tmp/src".to_string()]);
    App {
        id: id.to_string(),
        name: id.to_string(),
        enabled: true,
        compress: true,
        paths,
        excludes: vec![],
    }
}

fn sample_input(id: &str) -> AppInput {
    AppInput {
        id: id.to_string(),
        name: id.to_string(),
        enabled: true,
        compress: true,
        paths: vec!["/tmp/src".to_string()],
        excludes: vec![],
    }
}

fn settings_input(dest: &str, format: &str) -> SettingsInput {
    SettingsInput {
        dest: dest.to_string(),
        format: format.to_string(),
        parallel: 2,
        retention: 10,
        cleanup: "after_each".to_string(),
        excludes: vec![],
    }
}

/// The settings of a configuration as they are stored.
fn config_text(c: &Config) -> String {
    let b = &c.backup;
    let mut o = serde_json::Map::new();
    o.insert("dest".to_string(), Value::from(b.dest.as_str()));
    o.insert("format".to_string(), Value::from(b.format.extension()));
    o.insert("parallel".to_string(), Value::from(b.parallel));
    o.insert("retention".to_string(), Value::from(b.retention));
    o.insert("cleanup".to_string(), Value::from(b.cleanup.as_str()));
    o.insert("checksum".to_string(), Value::from(b.checksum));
    o.insert("excludes".to_string(), Value::from(b.excludes.clone()));
    let mut whole = serde_json::Map::new();
    whole.insert("version".to_string(), Value::from(c.version));
    whole.insert("backup".to_string(), Value::Object(o));
    serde_json::to_string_pretty(&Value::Object(whole)).unwrap()
}

/// Reads them back.
fn read_config(text: &str) -> Option<Config> {
    let value: Value = serde_json::from_str(text).ok()?;
    let b = value.get("backup")?;
    let excludes = b.get("excludes")?.as_array()?.iter();
    Some(Config {
        version: value.get("version")?.as_u64()?.try_into().ok()?,
        backup: BackupSettings {
            dest: b.get("dest")?.as_str()?.to_string(),
            format: Format::parse(b.get("format")?.as_str()?)?,
            parallel: b.get("parallel")?.as_u64()?.try_into().ok()?,
            retention: b.get("retention")?.as_u64()?.try_into().ok()?,
            cleanup: CleanupMode::parse(b.get("cleanup")?.as_str()?)?,
            checksum: b.get("checksum")?.as_bool()?,
            excludes: excludes
                .map(|x| x.as_str().map(|x| x.to_string()))
                .collect::<Option<Vec<_>>>()?,
        },
        apps: vec![],
        source: None,
    })
}

/// Saves as the front end does, with the given result of writing the file.
fn save_app_inner(
    config: &mut Option<Config>,
    input: AppInput,
    written: Result<(), String>,
) -> Result<(), String> {
    let candidate = stage_save_app(config, input, current())?;
    commit_config(config, candidate, written)
}

fn remove_app_inner(
    config: &mut Option<Config>,
    id: &str,
    written: Result<(), String>,
) -> Result<(), String> {
    let candidate = stage_remove_app(config, id)?;
    commit_config(config, candidate, written)
}

fn save_settings_inner(config: &mut Option<Config>, input: SettingsInput) -> Result<(), String> {
    let candidate = stage_settings(config, input, current(), &env())?;
    commit_config(config, candidate, Ok(()))
}

#[test]
fn app_from_input_keeps_current_platform_paths() {
    let input = AppInput {
        id: "test".to_string(),
        name: "Test".to_string(),
        enabled: true,
        compress: true,
        paths: vec!["/tmp/src".to_string()],
        excludes: vec!["*.log".to_string()],
    };
    let app = app_from_input(input, current());
    assert_eq!(
        app.paths.get(current().as_str()),
        Some(&vec!["/tmp/src".to_string()])
    );
}

#[test]
fn missing_config_is_created_with_empty_apps() {
    let path = "/tmp/x/nested/config.json";
    let mut on_disk: Option<Config> = None;
    let loaded = load_config(
        Err(ConfigError::Io("not found".to_string())),
        path,
        current(),
        &env(),
    );
    let config = match load_or_create_config(loaded.map(|(c, _)| c), on_disk.is_none()) {
        LoadStep::Create => {
            on_disk = Some(first_config(current()));
            load_config(Ok(on_disk.clone().unwrap()), path, current(), &env())
                .expect("config should be created")
                .0
        }
        other => panic!("unexpected: {other:?}"),
    };
    assert!(on_disk.is_some());
    assert_eq!(config.source.as_deref(), Some(path));
    assert!(config.apps.is_empty());
}

#[test]
fn save_app_write_failure_keeps_in_memory_config() {
    let mut guard = Some(config_with(BackupSettings::default(), vec![]));
    let err = save_app_inner(
        &mut guard,
        sample_input("newapp"),
        Err("is a directory".to_string()),
    )
    .expect_err("write should fail");
    assert!(!err.is_empty());
    assert!(guard.as_ref().unwrap().apps.is_empty());
}

#[test]
fn remove_app_write_failure_keeps_in_memory_config() {
    let mut guard = Some(config_with(BackupSettings::default(), vec![sample_app("demo")]));
    let err = remove_app_inner(&mut guard, "demo", Err("is a directory".to_string()))
        .expect_err("write should fail");
    assert!(!err.is_empty());
    assert_eq!(guard.as_ref().unwrap().apps.len(), 1);
}

#[test]
fn remove_app_missing_id_returns_error() {
    let mut guard = Some(config_with(BackupSettings::default(), vec![sample_app("demo")]));
    let err =
        remove_app_inner(&mut guard, "missing", Ok(())).expect_err("missing id should fail");
    assert!(err.contains("未找到应用"));
    assert_eq!(guard.as_ref().unwrap().apps.len(), 1);
}

#[test]
fn save_app_empty_id_auto_generates() {
    let mut guard = Some(config_with(BackupSettings::default(), vec![]));
    let input = AppInput {
        id: String::new(),
        name: "My App".to_string(),
        enabled: true,
        compress: true,
        paths: vec!["/tmp/src".to_string()],
        excludes: vec![],
    };
    save_app_inner(&mut guard, input, Ok(())).expect("save should succeed");

    let apps = &guard.as_ref().unwrap().apps;
    assert_eq!(apps.len(), 1);
    assert_eq!(apps[0].id, "my-app");
    assert_eq!(apps[0].name, "My App");
}

#[test]
fn save_app_existing_id_stays_stable() {
    let mut guard = Some(config_with(BackupSettings::default(), vec![sample_app("vscode")]));
    let input = AppInput {
        id: "vscode".to_string(),
        name: "VSCode 改名".to_string(),
        enabled: false,
        compress: true,
        paths: vec!["/tmp/vscode".to_string()],
        excludes: vec![],
    };
    save_app_inner(&mut guard, input, Ok(())).expect("save should succeed");

    let apps = &guard.as_ref().unwrap().apps;
    assert_eq!(apps.len(), 1);
    assert_eq!(apps[0].id, "vscode");
    assert_eq!(apps[0].name, "VSCode 改名");
    assert!(!apps[0].enabled);
}

#[test]
fn save_app_generated_id_avoids_conflicts_with_suffix() {
    let mut guard = Some(config_with(
        BackupSettings::default(),
        vec![sample_app("my-app"), sample_app("my-app-2")],
    ));
    let input = AppInput {
        id: String::new(),
        name: "My App".to_string(),
        enabled: true,
        compress: true,
        paths: vec!["/tmp/src".to_string()],
        excludes: vec![],
    };
    save_app_inner(&mut guard, input, Ok(())).expect("save should succeed");

    let apps = &guard.as_ref().unwrap().apps;
    assert_eq!(apps.len(), 3);
    assert_eq!(apps[2].id, "my-app-3");
}

#[test]
fn save_settings_invalid_dest_keeps_memory_unchanged() {
    let dest = "/tmp/x".to_string();
    let mut guard = Some(config_with(
        BackupSettings {
            dest: dest.clone(),
            ..Default::default()
        },
        vec![],
    ));
    let err =
        save_settings_inner(&mut guard, settings_input("   ", "zip")).expect_err("should fail");
    assert!(!err.is_empty());
    assert_eq!(guard.as_ref().unwrap().backup.dest, dest);
}

#[test]
fn save_settings_invalid_format_keeps_memory_unchanged() {
    let dest = "/tmp/x/backups".to_string();
    let mut guard = Some(config_with(
        BackupSettings {
            dest: dest.clone(),
            ..Default::default()
        },
        vec![],
    ));
    let err = save_settings_inner(&mut guard, settings_input(&dest, "rar"))
        .expect_err("unsupported format should fail");
    assert!(err.contains("rar"));
    assert_eq!(guard.as_ref().unwrap().backup.format, Format::Zip);
}

#[test]
fn save_settings_valid_commits_to_memory_and_disk() {
    let dest = "/tmp/x/backups".to_string();
    let mut guard = Some(config_with(BackupSettings::default(), vec![]));
    let input = SettingsInput {
        dest: dest.clone(),
        format: "tar.gz".to_string(),
        parallel: 4,
        retention: 3,
        cleanup: "at_end".to_string(),
        excludes: vec!["*.tmp".to_string(), "  ".to_string()],
    };
    let candidate = stage_settings(&guard, input, current(), &env()).expect("save should succeed");
    let on_disk = config_text(&candidate);
    commit_config(&mut guard, candidate, Ok(())).expect("save should succeed");

    let backup = &guard.as_ref().unwrap().backup;
    assert_eq!(backup.dest, dest);
    assert_eq!(backup.format, Format::TarGz);
    assert_eq!(backup.parallel, 4);
    assert_eq!(backup.retention, 3);
    assert_eq!(backup.cleanup, CleanupMode::AtEnd);
    assert_eq!(backup.excludes, vec!["*.tmp".to_string()]);

    let read = read_config(&on_disk).expect("what was written can be read");
    let (stored, _) =
        load_config(Ok(read), SOURCE, current(), &env()).expect("what was written can be loaded");
    assert_eq!(stored.backup.dest, dest);
    assert_eq!(stored.backup.format, Format::TarGz);
    assert_eq!(stored.backup.parallel, 4);
    assert_eq!(stored.backup.retention, 3);
    assert_eq!(stored.backup.cleanup, CleanupMode::AtEnd);
    assert_eq!(stored.backup.excludes, vec!["*.tmp".to_string()]);
    assert_eq!(stored.source.as_deref(), Some(SOURCE));
}

#[test]
fn settings_say_what_is_wrong() {
    let guard = Some(config_with(BackupSettings::default(), vec![]));
    let fail = |input: SettingsInput| stage_settings(&guard, input, current(), &env()).unwrap_err();
    assert_eq!(fail(settings_input("", "zip")), "备份位置不能为空");
    assert_eq!(fail(settings_input("/d", "rar")), "不支持的备份格式: rar");
    let mut none = settings_input("/d", "zip");
    none.parallel = 0;
    assert_eq!(fail(none), "并行备份数必须大于 0");
    let mut odd = settings_input("/d", "zip");
    odd.cleanup = "never".to_string();
    assert_eq!(fail(odd), "不支持的清理时机: never");
    assert_eq!(
        fail(settings_input("$NOPE/d", "zip")),
        "backup dest variable not defined: NOPE"
    );
    assert_eq!(
        stage_settings(&None, settings_input("/d", "zip"), current(), &env()).unwrap_err(),
        "无法加载配置文件"
    );
}

#[test]
fn nothing_can_be_edited_without_a_config() {
    assert_eq!(
        stage_save_app(&None, sample_input("a"), current()).unwrap_err(),
        "无法加载配置文件"
    );
    assert_eq!(stage_remove_app(&None, "a").unwrap_err(), "无法加载配置文件");
    let state = AppState::new(None);
    assert_eq!(
        state.config("/c.json").unwrap_err(),
        "无法加载配置文件: /c.json（可用 BACKUP_TOOL_CONFIG 指定路径）"
    );
}

#[test]
fn cancelling_lasts_until_the_next_run() {
    let mut state = AppState::new(Some(config_with(BackupSettings::default(), vec![])));
    assert!(!state.cancel.is_cancelled());
    state.cancel();
    assert!(state.cancel.is_cancelled());
    state.cancel();
    assert!(state.cancel.is_cancelled());
    state.begin_run();
    assert!(!state.cancel.is_cancelled());
    assert_eq!(state.config("").unwrap().source.as_deref(), Some(SOURCE));
}

#[test]
fn a_broken_config_is_not_replaced() {
    let broken = Err(ConfigError::Json("bad".to_string()));
    assert!(matches!(load_or_create_config(broken, false), LoadStep::GiveUp));
    let locked = Err(ConfigError::Io("denied".to_string()));
    assert!(matches!(load_or_create_config(locked, false), LoadStep::GiveUp));
    let fine = Ok(first_config(current()));
    assert!(matches!(load_or_create_config(fine, false), LoadStep::Use(_)));
}

#[test]
fn config_is_written_beside_itself() {
    let config = config_with(BackupSettings::default(), vec![]);
    let t = write_targets(&config, current()).unwrap();
    assert_eq!(t.source, SOURCE);
    assert_eq!(t.tmp, "/tmp/x/config.json.tmp");
    assert_eq!(t.dir.as_deref(), Some("/tmp/x"));
    assert_eq!(reload_source(&Some(config)).unwrap(), SOURCE);

    let mut nowhere = config_with(BackupSettings::default(), vec![]);
    nowhere.source = None;
    assert_eq!(
        write_targets(&nowhere, current()).unwrap_err(),
        "配置文件路径未知，无法保存"
    );
    assert_eq!(
        reload_source(&Some(nowhere)).unwrap_err(),
        "配置文件路径未知，无法重新加载"
    );
    assert_eq!(
        reload_source(&None).unwrap_err(),
        "配置文件路径未知，无法重新加载"
    );
}

#[test]
fn settings_are_shown() {
    let mut config = config_with(BackupSettings::default(), vec![]);
    let v = settings_view(&config, current(), &env());
    assert_eq!(v.dest, "/home/u/backups");
    assert_eq!(v.dest_raw, "~/backups");
    assert_eq!(v.format, "zip");
    assert_eq!(v.cleanup, "after_each");
    assert_eq!(v.config_path, SOURCE);
    config.backup.dest = "$NOPE".to_string();
    config.source = None;
    let v = settings_view(&config, current(), &env());
    assert_eq!(v.dest, "$NOPE");
    assert_eq!(v.config_path, "未知");

    let d = default_settings(&config, Platform::Windows);
    assert_eq!(d.dest, "%USERPROFILE%\\backups");
    assert_eq!(d.dest_raw, d.dest);
    assert_eq!(d.parallel, 2);
    assert_eq!(d.retention, 10);
    assert_eq!(d.excludes.len(), 2);
}

fn entry(app_id: &str, file: &str) -> HistoryEntry {
    HistoryEntry {
        app_id: app_id.to_string(),
        file: file.to_string(),
        format: "zip".to_string(),
        size: 7,
        files: 2,
        bytes_total: 9,
        started_at: "s".to_string(),
        finished_at: "f".to_string(),
        checksum: None,
        status: "ok".to_string(),
    }
}

#[test]
fn apps_are_listed_with_what_is_missing() {
    let mut app = sample_app("a");
    app.paths.insert(
        "linux".to_string(),
        vec![
            "/there".to_string(),
            "/gone".to_string(),
            "%APPDATA%".to_string(),
        ],
    );
    let config = config_with(BackupSettings::default(), vec![app.clone()]);
    let candidates = root_candidates(&app, &config, current(), &env());
    let history = History {
        version: 1,
        entries: vec![entry("b", "z"), entry("a", "y"), entry("a", "x")],
    };
    let m = app_meta(&app, &candidates, &vec![true, false, false], &history);
    assert!(m.has_paths && m.has_missing);
    assert_eq!(m.last_backup.as_deref(), Some("y"));
    let m = app_meta(&app, &candidates, &vec![true, true, false], &history);
    assert!(m.has_paths && !m.has_missing);
    let m = app_meta(&app, &candidates, &vec![false, false, false], &History::default());
    assert!(!m.has_paths && m.has_missing);
    assert_eq!(m.last_backup, None);

    app.paths.insert("linux".to_string(), vec!["$NOPE".to_string()]);
    let candidates = root_candidates(&app, &config, current(), &env());
    let m = app_meta(&app, &candidates, &vec![false], &history);
    assert!(!m.has_paths && m.has_missing);
}

#[test]
fn history_is_shown_newest_first() {
    let history = History {
        version: 1,
        entries: vec![entry("a", "a_1"), entry("b", "b_1"), entry("a", "a_2")],
    };
    let all: Vec<String> = get_history(&history, None).into_iter().map(|v| v.file).collect();
    assert_eq!(all, ["b_1", "a_2", "a_1"]);
    let one = get_history(&history, Some("a"));
    assert_eq!(one.len(), 2);
    assert_eq!(one[0].file, "a_2");
    assert_eq!(one[0].size, 7);
    assert!(get_history(&history, Some("c")).is_empty());
}

#[test]
fn an_app_is_shown_for_editing() {
    let config = config_with(BackupSettings::default(), vec![sample_app("a")]);
    let d = get_app(&config, "a", current()).unwrap();
    assert_eq!(d.paths, vec!["/tmp/src".to_string()]);
    assert!(get_app(&config, "a", Platform::Windows).unwrap().paths.is_empty());
    assert_eq!(get_app(&config, "b", current()).unwrap_err(), "未找到应用: b");
}

#[test]
fn paths_are_previewed() {
    let p = path_preview(&PathState::Resolved { path: "/a".to_string() }, true);
    assert_eq!((p.resolved.as_str(), p.exists, p.state.as_str()), ("/a", true, "ok"));
    let p = path_preview(&PathState::Resolved { path: "/a".to_string() }, false);
    assert_eq!(p.state, "missing");
    let p = path_preview(&PathState::UndefinedVar { var: "V".to_string() }, false);
    assert_eq!(p.state, "undefined");
    assert_eq!(p.note, "环境变量 V 未定义");
    let p = path_preview(&PathState::OtherPlatform { raw: "%V%".to_string() }, true);
    assert_eq!(p.state, "other_platform");
    assert!(!p.exists);
    assert_eq!(p.note, "该语法属于其他平台，仅在其他系统生效");
}

#[test]
fn events_are_shown() {
    let log = convert(Event::Log {
        level: LogLevel::Warn,
        msg: "m".to_string(),
    });
    assert!(matches!(log, Some(UiEvent::Log { level, msg }) if level == "warn" && msg == "m"));
    let end = convert(Event::AppFinished {
        app_id: "a".to_string(),
        result: AppResult::Skipped,
        detail: "d".to_string(),
        size: 3,
        checksum: None,
    });
    assert!(matches!(
        end,
        Some(UiEvent::AppFinished { result, size: 3, .. }) if result == "skipped"
    ));
    assert!(convert(Event::ScanUpdate {
        app_id: "a".to_string(),
        files_scanned: 1
    })
    .is_none());
    assert!(convert(Event::FileDone {
        app_id: "a".to_string(),
        path: "p".to_string(),
        bytes_written: 1
    })
    .is_none());
    assert_eq!(result_str(AppResult::Succeeded), "ok");
    assert_eq!(result_str(AppResult::Failed), "failed");
    assert_eq!(result_str(AppResult::Cancelled), "cancelled");
}
