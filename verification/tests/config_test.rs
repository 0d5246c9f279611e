use backup_core::appid::app_id_from_lowered;
use backup_core::config::{
    default_config_path, default_config_path_in, default_true, default_version, first_config,
    generate_app_id, load_config, valid_id, App, BackupSettings, CleanupMode, Config, ConfigError, Format,
};
use backup_core::pathres::Environment;
use backup_core::table::PathTable;
use backup_core::Platform;

#[test]
fn generate_app_id_basic_rules() {
    assert_eq!(generate_app_id("  My App  ", &[]), "my-app");
    assert_eq!(generate_app_id("My___App", &[]), "my-app");
    assert_eq!(generate_app_id("Hello, World!", &[]), "hello-world");
    assert_eq!(generate_app_id("VSCode", &[]), "vscode");
    assert_eq!(generate_app_id("已存在 App", &[]), "app");
}

#[test]
fn generate_app_id_empty_falls_back() {
    assert_eq!(generate_app_id("", &[]), "app");
    assert_eq!(generate_app_id("   ", &[]), "app");
    assert_eq!(generate_app_id("!!!", &[]), "app");
    assert_eq!(generate_app_id("中文名", &[]), "app");
}

#[test]
fn generate_app_id_avoids_conflicts() {
    let ids = ["app", "app-2", "my-app"];
    assert_eq!(generate_app_id("App", &ids), "app-3");
    assert_eq!(generate_app_id("My App", &ids), "my-app-2");
    assert_eq!(generate_app_id("Brand New", &ids), "brand-new");
}

#[test]
fn generate_app_id_truncates_then_resolves_conflicts() {
    let long_name = "a".repeat(80);
    let id = generate_app_id(&long_name, &[]);
    assert_eq!(id.len(), 64);
    assert!(id.chars().all(|c| c == 'a'));

    let existing = [id.as_str()];
    let conflicted = generate_app_id(&long_name, &existing);
    assert_eq!(conflicted.len(), 64);
    assert!(conflicted.ends_with("-2"));
    assert_eq!(conflicted.chars().filter(|&c| c == 'a').count(), 62);
}

fn env(home: &str) -> Environment {
    Environment {
        vars: vec![("HOME".to_string(), home.to_string())],
        current_dir: "/work".to_string(),
    }
}

fn strings(list: &[&str]) -> Vec<String> {
    list.iter().map(|s| s.to_string()).collect()
}

fn table(entries: &[(&str, &[&str])]) -> PathTable {
    let mut t = PathTable::new();
    for (key, paths) in entries {
        t.insert(key.to_string(), strings(paths));
    }
    t
}

fn empty_config() -> Config {
    Config {
        version: default_version(),
        backup: BackupSettings::default(),
        apps: vec![],
        source: None,
    }
}

#[test]
fn parse_sample_config() {
    let config = Config {
        version: 1,
        backup: BackupSettings {
            dest: "~/backups".to_string(),
            format: Format::parse("zip").unwrap(),
            parallel: 2,
            retention: 10,
            cleanup: CleanupMode::default(),
            checksum: true,
            excludes: strings(&["**/.DS_Store"]),
        },
        apps: vec![App {
            id: "vscode".to_string(),
            name: "VSCode".to_string(),
            enabled: true,
            paths: table(&[
                ("windows", &["%APPDATA%\\Code\\User"]),
                ("linux", &["$HOME/.config/Code/User"]),
            ]),
            excludes: strings(&["Cache/**"]),
            compress: default_true(),
        }],
        source: None,
    };
    assert_eq!(config.backup.format, Format::Zip);
    assert_eq!(config.backup.parallel, 2);
    assert_eq!(config.apps.len(), 1);
    let app = &config.apps[0];
    let linux_paths = config.paths_for(app, Platform::Linux);
    assert_eq!(linux_paths.len(), 1);
    assert_eq!(linux_paths[0], "$HOME/.config/Code/User");
}

#[test]
fn defaults_apply() {
    let config = empty_config();
    assert_eq!(config.version, 1);
    assert_eq!(config.backup.format, Format::Zip);
    assert!(config.backup.checksum);
    assert_eq!(config.backup.parallel, 2);
}

#[test]
fn rejects_bad_dest_syntax() {
    let mut config = empty_config();
    config.backup.dest = "$HOME/x".to_string();
    assert!(matches!(
        config.resolved_dest(Platform::Windows, &env("/home/u")),
        Err(ConfigError::DestSyntax { .. })
    ));
    assert!(matches!(
        config.resolved_dest(Platform::Linux, &env("/home/u")),
        Ok(_)
    ));
}

#[test]
fn dest_is_seen_from_the_directory_of_the_file() {
    let mut config = empty_config();
    config.backup.dest = "store/here".to_string();
    config.source = Some("/etc/backup/config.json".to_string());
    assert_eq!(config.config_dir(Platform::Linux).unwrap(), "/etc/backup");
    assert_eq!(
        config.resolved_dest(Platform::Linux, &env("/home/u")).unwrap(),
        "/etc/backup/store/here"
    );
    config.source = None;
    assert_eq!(
        config.resolved_dest(Platform::Linux, &env("/home/u")).unwrap(),
        "/work/store/here"
    );
}

#[test]
fn undefined_dest_variable_is_an_error() {
    let mut config = empty_config();
    config.backup.dest = "$NOWHERE/x".to_string();
    let err = config
        .resolved_dest(Platform::Linux, &env("/home/u"))
        .unwrap_err();
    assert_eq!(err, ConfigError::DestVar { var: "NOWHERE".to_string() });
    assert_eq!(err.message(), "backup dest variable not defined: NOWHERE");
}

#[test]
fn errors_have_words() {
    assert_eq!(
        ConfigError::Io("gone".to_string()).message(),
        "cannot read config file: gone"
    );
    assert_eq!(
        ConfigError::Json("bad".to_string()).message(),
        "invalid config JSON: bad"
    );
    assert_eq!(
        ConfigError::DestSyntax { raw: "%X%".to_string() }.message(),
        "backup dest uses foreign-platform syntax: %X%"
    );
    assert_eq!(ConfigError::NoApps.message(), "no apps defined");
}

#[test]
fn loading_binds_the_file_and_warns() {
    let (config, warnings) =
        load_config(Ok(empty_config()), "conf/c.json", Platform::Linux, &env("/home/u")).unwrap();
    assert_eq!(config.source.as_deref(), Some("/work/conf/c.json"));
    assert_eq!(warnings, strings(&["no apps defined in config"]));

    let mut config = empty_config();
    config.apps.push(App {
        id: "  ".to_string(),
        name: "Nameless".to_string(),
        enabled: true,
        paths: table(&[("linux", &["", "/x"]), ("beos", &[" "])]),
        excludes: vec![],
        compress: true,
    });
    let (_, warnings) =
        load_config(Ok(config), "/c.json", Platform::Linux, &env("/home/u")).unwrap();
    assert_eq!(
        warnings,
        strings(&[
            "app 'Nameless' has empty id",
            "app '  ': empty path under 'linux'",
            "app '  ': unknown platform key 'beos'",
            "app '  ': empty path under 'beos'",
        ])
    );
}

#[test]
fn loading_fails_as_reading_did() {
    let err = load_config(
        Err(ConfigError::Io("no such file".to_string())),
        "/c.json",
        Platform::Linux,
        &env("/home/u"),
    )
    .unwrap_err();
    assert_eq!(err, ConfigError::Io("no such file".to_string()));

    let mut config = empty_config();
    config.backup.dest = "%APPDATA%\\b".to_string();
    let err = load_config(Ok(config), "/c.json", Platform::Linux, &env("/home/u")).unwrap_err();
    assert_eq!(
        err,
        ConfigError::DestSyntax { raw: "%APPDATA%\\b".to_string() }
    );
}

#[test]
fn default_place_of_the_config() {
    assert_eq!(
        default_config_path_in(Platform::Windows, Some("C:\\Cfg"), Some("C:\\Home")),
        "C:\\Cfg\\backup_tool\\config.json"
    );
    assert_eq!(
        default_config_path_in(Platform::Windows, None, Some("C:\\Home")),
        "C:\\Home\\backup_tool\\config.json"
    );
    assert_eq!(
        default_config_path_in(Platform::Linux, Some("/cfg"), Some("/home/u")),
        "/home/u/.backup_tool/config.json"
    );
    assert_eq!(
        default_config_path_in(Platform::Linux, None, None),
        "./.backup_tool/config.json"
    );
    assert!(default_config_path(Platform::Linux).ends_with("/.backup_tool/config.json"));
    assert!(default_config_path(Platform::Windows).ends_with("\\backup_tool\\config.json"));
}

#[test]
fn first_config_has_the_proposed_settings() {
    let c = first_config(Platform::Windows);
    assert_eq!(c.version, 1);
    assert_eq!(c.backup.dest, "%USERPROFILE%\\backups");
    assert_eq!(c.backup.excludes, strings(&["**/.DS_Store", "**/desktop.ini"]));
    assert_eq!(c.backup.retention, 10);
    assert!(c.apps.is_empty());
    assert_eq!(first_config(Platform::Macos).backup.dest, "~/backups");
}

#[test]
fn generated_ids_have_one_shape() {
    let long = "x".repeat(80);
    for name in ["A_b", "_", "--Z--9", "Ärger", long.as_str(), "1"] {
        let mut taken: Vec<String> = vec![];
        for _ in 0..12 {
            let refs: Vec<&str> = taken.iter().map(|s| s.as_str()).collect();
            let id = generate_app_id(name, &refs);
            assert!(!taken.contains(&id) && id.len() <= 64, "{id}");
            assert!(id.starts_with(|c: char| c.is_ascii_lowercase() || c.is_ascii_digit()), "{id}");
            assert!(
                id.chars()
                    .all(|c| c.is_ascii_lowercase() || c.is_ascii_digit() || c == '-'),
                "{id}"
            );
            taken.push(id);
        }
    }
}

#[test]
fn ids_of_odd_names() {
    assert_eq!(app_id_from_lowered("a--b__c", &[]), "a-b-c");
    assert_eq!(app_id_from_lowered("-x-", &[]), "x");
    assert_eq!(app_id_from_lowered("UP", &[]), "app");
    assert!(valid_id("a-b_9"));
    assert!(!valid_id(""));
    assert!(!valid_id("A"));
}

#[test]
fn formats_and_modes_are_found_by_name() {
    for f in [Format::Zip, Format::TarGz, Format::Dir] {
        assert_eq!(Format::parse(f.extension()), Some(f));
    }
    assert_eq!(Format::parse("rar"), None);
    for m in [CleanupMode::AfterEach, CleanupMode::AtEnd] {
        assert_eq!(CleanupMode::parse(m.as_str()), Some(m));
    }
    assert_eq!(CleanupMode::parse("never"), None);
    for p in [Platform::Windows, Platform::Linux, Platform::Macos] {
        assert_eq!(Platform::current(p.as_str()), Some(p));
    }
    assert_eq!(Platform::current("beos"), None);
    assert_eq!(Platform::Macos.label(), "macOS");
}
