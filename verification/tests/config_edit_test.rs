use backup_core::config::{App, BackupSettings, CleanupMode, Config, Format};
use backup_core::table::PathTable;
use backup_core::Platform;

fn current() -> Platform {
    Platform::current("linux").unwrap()
}

fn strings(list: &[&str]) -> Vec<String> {
    list.iter().map(|s| s.to_string()).collect()
}

fn base_config() -> Config {
    let mut paths = PathTable::new();
    paths.insert("windows".to_string(), strings(&["C:/exists/demo"]));
    paths.insert("linux".to_string(), strings(&["/tmp/demo"]));
    Config {
        version: 1,
        backup: BackupSettings {
            dest: "~/backups".to_string(),
            format: Format::Zip,
            parallel: 2,
            retention: 5,
            cleanup: CleanupMode::AfterEach,
            checksum: true,
            excludes: vec![],
        },
        apps: vec![App {
            id: "demo".to_string(),
            name: "Demo".to_string(),
            enabled: true,
            paths,
            excludes: strings(&["*.log"]),
            compress: true,
        }],
        source: None,
    }
}

fn app(id: &str, name: &str, paths: &[&str]) -> App {
    app_for_platform(id, name, current(), paths)
}

fn app_for_platform(id: &str, name: &str, platform: Platform, paths: &[&str]) -> App {
    let mut table = PathTable::new();
    table.insert(platform.as_str().to_string(), strings(paths));
    app_from_paths(id, name, table)
}

fn app_from_paths(id: &str, name: &str, paths: PathTable) -> App {
    App {
        id: id.to_string(),
        name: name.to_string(),
        enabled: true,
        compress: true,
        paths,
        excludes: vec![],
    }
}

#[test]
fn upsert_adds_new_app() {
    let mut cfg = base_config();
    let platform = current();
    cfg.upsert_app(app("newapp", "New App", &["/tmp/src"]), platform)
        .unwrap();

    assert_eq!(cfg.apps.len(), 2);
    let a = cfg.apps.iter().find(|a| a.id == "newapp").unwrap();
    assert_eq!(a.name, "New App");
    // paths normalized to the current platform key only
    assert_eq!(a.paths.len(), 1);
    assert!(a.paths.contains_key(platform.as_str()));
    assert_eq!(a.paths.get(platform.as_str()).unwrap(), &strings(&["/tmp/src"]));
}

#[test]
fn upsert_updates_existing_app() {
    let mut cfg = base_config();
    let platform = current();
    let mut existing = app("demo", "Demo Renamed", &["%APPDATA%\\Demo"]);
    existing.enabled = false;
    cfg.upsert_app(existing, platform).unwrap();

    assert_eq!(cfg.apps.len(), 1, "should not duplicate");
    let a = &cfg.apps[0];
    assert_eq!(a.name, "Demo Renamed");
    assert!(!a.enabled);
    assert_eq!(
        a.paths.get(platform.as_str()).unwrap(),
        &strings(&["%APPDATA%\\Demo"])
    );
    // other platform paths preserved
    let other = if platform == Platform::Windows {
        Platform::Linux
    } else {
        Platform::Windows
    };
    let expected = base_config();
    assert_eq!(
        a.paths.get(other.as_str()),
        expected.apps[0].paths.get(other.as_str())
    );
}

#[test]
fn upsert_preserves_other_platform_paths() {
    let mut cfg = base_config();
    let mut existing = app_for_platform(
        "demo",
        "Demo Linux Update",
        Platform::Linux,
        &["/srv/demo"],
    );
    existing.enabled = false;
    existing.compress = false;
    existing.excludes = strings(&["tmp/**"]);
    cfg.upsert_app(existing, Platform::Linux).unwrap();

    assert_eq!(cfg.apps.len(), 1, "should not duplicate");
    let a = &cfg.apps[0];
    assert_eq!(a.name, "Demo Linux Update");
    assert!(!a.enabled);
    assert!(!a.compress);
    assert_eq!(a.excludes, strings(&["tmp/**"]));
    assert_eq!(a.paths.get("linux").unwrap(), &strings(&["/srv/demo"]));
    assert_eq!(a.paths.get("windows").unwrap(), &strings(&["C:/exists/demo"]));
}

#[test]
fn upsert_uses_only_current_platform_input_paths() {
    let mut cfg = base_config();
    let platform = current();
    let other = if platform == Platform::Windows {
        "linux"
    } else {
        "windows"
    };

    let mut paths = PathTable::new();
    paths.insert(platform.as_str().to_string(), strings(&["/from/current"]));
    paths.insert(other.to_string(), strings(&["/from/other"]));
    cfg.upsert_app(app_from_paths("multi", "Multi", paths), platform)
        .unwrap();

    let a = cfg.apps.iter().find(|a| a.id == "multi").unwrap();
    assert_eq!(a.paths.len(), 1);
    assert_eq!(
        a.paths.get(platform.as_str()),
        Some(&strings(&["/from/current"]))
    );
}

#[test]
fn upsert_keeps_other_platforms_when_current_key_missing() {
    let mut cfg = base_config();
    let platform = current();
    let other = if platform == Platform::Windows {
        "linux"
    } else {
        "windows"
    };
    cfg.apps[0].paths.remove(platform.as_str());
    let other_paths = cfg.apps[0].paths.get(other).unwrap().clone();

    cfg.upsert_app(app("demo", "Demo", &["/current/new"]), platform)
        .unwrap();

    assert_eq!(cfg.apps.len(), 1);
    let a = &cfg.apps[0];
    assert!(a.paths.contains_key(platform.as_str()));
    assert_eq!(a.paths.get(platform.as_str()).unwrap(), &strings(&["/current/new"]));
    assert_eq!(a.paths.get(other).unwrap(), &other_paths);
}

#[test]
fn upsert_rejects_invalid_input() {
    let mut cfg = base_config();
    let platform = current();
    assert!(cfg.upsert_app(app("", "X", &["/tmp"]), platform).is_err());
    assert!(cfg
        .upsert_app(app("Bad ID!", "X", &["/tmp"]), platform)
        .is_err());
    assert!(cfg.upsert_app(app("ok", "", &["/tmp"]), platform).is_err());
    assert!(cfg
        .upsert_app(app("ok", "X", &["  ", ""]), platform)
        .is_err());
    // empty excludes/paths filtered but still valid if at least one path present
    assert!(cfg
        .upsert_app(app("ok", "X", &["/tmp", "  "]), platform)
        .is_ok());
    assert_eq!(cfg.apps.len(), 2);
}

#[test]
fn remove_app_deletes() {
    let mut cfg = base_config();
    assert!(cfg.remove_app("demo"));
    assert_eq!(cfg.apps.len(), 0);
    assert!(!cfg.remove_app("demo"));
}

#[test]
fn upsert_says_what_is_wrong() {
    let mut cfg = base_config();
    let p = current();
    let cases: [(&str, &str, &[&str], &str); 4] = [
        (" ", "X", &["/t"], "ID 不能为空"),
        ("É", "X", &["/t"], "ID 只能包含小写字母、数字、- 和 _"),
        ("ok", " ", &["/t"], "名称不能为空"),
        ("ok", "X", &[" "], "至少需要填写一个备份路径"),
    ];
    for (id, name, paths, why) in cases {
        assert_eq!(cfg.upsert_app(app(id, name, paths), p).unwrap_err(), why);
        assert_eq!(cfg.apps.len(), 1);
    }
}

#[test]
fn upsert_trims_and_is_idempotent() {
    let mut cfg = base_config();
    let p = current();
    for _ in 0..2 {
        let mut a = app(" new ", " New ", &[" /a ", ""]);
        a.excludes = strings(&[" *.tmp ", " "]);
        cfg.upsert_app(a, p).unwrap();
        assert_eq!(cfg.apps.len(), 2);
        assert_eq!(cfg.apps[0].id, "demo");
        assert_eq!(cfg.apps[1].id, "new");
        assert_eq!(cfg.apps[1].name, "New");
        assert_eq!(cfg.apps[1].paths.get("linux").unwrap(), &strings(&["/a"]));
        assert_eq!(cfg.apps[1].excludes, strings(&["*.tmp"]));
    }
}

#[test]
fn remove_takes_all_with_the_id_and_keeps_the_rest() {
    let mut cfg = base_config();
    cfg.apps.push(app("b", "B", &["/b"]));
    cfg.apps.push(app("demo", "Again", &["/c"]));
    assert!(cfg.remove_app("demo"));
    assert_eq!(cfg.apps.len(), 1);
    assert_eq!(cfg.apps[0].id, "b");
    assert_eq!(cfg.find_app("demo"), 1);
}

#[test]
fn table_keeps_keys_once() {
    let mut t = PathTable::new();
    t.insert("a".to_string(), strings(&["1"]));
    t.insert("b".to_string(), strings(&["2"]));
    t.insert("a".to_string(), strings(&["3"]));
    assert_eq!(t.len(), 2);
    assert_eq!(t.key(0), "a");
    assert_eq!(t.paths(0), &strings(&["3"]));
    assert!(t.remove("a"));
    assert!(!t.remove("a"));
    assert_eq!(t.get("a"), None);
    assert_eq!(t.clone().get("b"), Some(&strings(&["2"])));
}
