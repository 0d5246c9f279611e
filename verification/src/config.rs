//! The configuration: apps, their paths and the settings of a backup.

pub use crate::appid::{generate_app_id, valid_id};

use crate::appid::is_valid_id;
use crate::pathres::{
    doubled_percent_is_kept, expand_path, home_is_put_in_front, lookup,
    plain_text_holds_no_variable, resolved, text_without_variables_is_kept, EnvView, Environment,
    PathState, PathView,
};
use crate::paths::{
    components, is_absolute, is_firm, is_plain_name, is_sep, join, join_adds_component,
    joining_on_unix, parent,
    parent_of_joined_is_dir, path_is_absolute, path_join, path_parent, prefix_len, same_path,
};
use crate::platform::{platform_key_round_trip, platform_keys_distinct, Platform};
use crate::table::{
    distinct_keys, key_index_first, paths_after_insert, paths_under, with_paths, PathTable,
};
use crate::text::{
    blank, cat, cat3, clone_opt, clone_texts, ends_in, ends_in_what_is_put_behind, opt_str,
    opt_text, same, texts, trim, trim_all, trimmed, trimmed_holds, trimmed_nonempty,
    trimming_keeps_core, trimming_undoes_padding,
};
use vstd::prelude::*;
use vstd::string::*;

verus! {

#[derive(Debug, Clone, Copy, PartialEq, Eq, Structural)]
pub enum Format {
    Zip,
    TarGz,
    Dir,
}

impl Default for Format {
    fn default() -> (r: Format)
        ensures
            r == Format::Zip,
    {
        Format::Zip
    }
}

impl Format {
    /// What a backup's name ends in, behind a dot.
    pub open spec fn suffix(self) -> Seq<char> {
        match self {
            Format::Zip => "zip"@,
            Format::TarGz => "tar.gz"@,
            Format::Dir => "dir"@,
        }
    }

    pub fn extension(&self) -> (r: &'static str)
        ensures
            r@ == self.suffix(),
    {
        match self {
            Format::Zip => "zip",
            Format::TarGz => "tar.gz",
            Format::Dir => "dir",
        }
    }

    /// The format with the given name.
    pub open spec fn of_name(name: Seq<char>) -> Option<Format> {
        if name == "zip"@ {
            Some(Format::Zip)
        } else if name == "tar.gz"@ {
            Some(Format::TarGz)
        } else if name == "dir"@ {
            Some(Format::Dir)
        } else {
            None
        }
    }

    /// The format with the given name.
    pub fn parse(name: &str) -> (r: Option<Format>)
        ensures
            r == Format::of_name(name@),
    {
        if same(name, "zip") {
            Some(Format::Zip)
        } else if same(name, "tar.gz") {
            Some(Format::TarGz)
        } else if same(name, "dir") {
            Some(Format::Dir)
        } else {
            None
        }
    }
}

/// A format is found again by its extension.
pub proof fn format_name_round_trip(f: Format)
    ensures
        Format::of_name(f.suffix()) == Some(f),
{
    reveal_strlit("zip");
    reveal_strlit("tar.gz");
    reveal_strlit("dir");
    assert("zip"@.len() == 3 && "tar.gz"@.len() == 6 && "dir"@.len() == 3);
    assert("zip"@[0] == 'z' && "dir"@[0] == 'd');
}

/// When old backups are cleaned up.
#[derive(Debug, Clone, Copy, PartialEq, Eq, Structural)]
pub enum CleanupMode {
    AfterEach,
    AtEnd,
}

impl Default for CleanupMode {
    fn default() -> (r: CleanupMode)
        ensures
            r == CleanupMode::AfterEach,
    {
        CleanupMode::AfterEach
    }
}

impl CleanupMode {
    /// The name of the mode in a configuration.
    pub open spec fn name(self) -> Seq<char> {
        match self {
            CleanupMode::AfterEach => "after_each"@,
            CleanupMode::AtEnd => "at_end"@,
        }
    }

    pub fn as_str(&self) -> (r: &'static str)
        ensures
            r@ == self.name(),
    {
        match self {
            CleanupMode::AfterEach => "after_each",
            CleanupMode::AtEnd => "at_end",
        }
    }

    /// The mode with the given name.
    pub open spec fn of_name(name: Seq<char>) -> Option<CleanupMode> {
        if name == "after_each"@ {
            Some(CleanupMode::AfterEach)
        } else if name == "at_end"@ {
            Some(CleanupMode::AtEnd)
        } else {
            None
        }
    }

    /// The mode with the given name.
    pub fn parse(name: &str) -> (r: Option<CleanupMode>)
        ensures
            r == CleanupMode::of_name(name@),
    {
        if same(name, "after_each") {
            Some(CleanupMode::AfterEach)
        } else if same(name, "at_end") {
            Some(CleanupMode::AtEnd)
        } else {
            None
        }
    }
}

/// A cleanup mode is found again by its name.
pub proof fn cleanup_name_round_trip(m: CleanupMode)
    ensures
        CleanupMode::of_name(m.name()) == Some(m),
{
    reveal_strlit("after_each");
    reveal_strlit("at_end");
    assert("after_each"@.len() == 10 && "at_end"@.len() == 6);
}

#[derive(Debug)]
pub struct BackupSettings {
    /// Base backup directory. May hold variables.
    pub dest: String,
    pub format: Format,
    /// How many apps are backed up at the same time.
    pub parallel: usize,
    /// How many backups of an app are kept; 0 keeps all.
    pub retention: usize,
    pub cleanup: CleanupMode,
    pub checksum: bool,
    pub excludes: Vec<String>,
}

/// The contents of [`BackupSettings`].
#[verifier::ext_equal]
pub struct SettingsContents {
    pub dest: Seq<char>,
    pub format: Format,
    pub parallel: usize,
    pub retention: usize,
    pub cleanup: CleanupMode,
    pub checksum: bool,
    pub excludes: Seq<Seq<char>>,
}

impl View for BackupSettings {
    type V = SettingsContents;

    open spec fn view(&self) -> SettingsContents {
        SettingsContents {
            dest: self.dest@,
            format: self.format,
            parallel: self.parallel,
            retention: self.retention,
            cleanup: self.cleanup,
            checksum: self.checksum,
            excludes: texts(self.excludes@),
        }
    }
}

impl Clone for BackupSettings {
    fn clone(&self) -> (r: BackupSettings)
        ensures
            r@ == self@,
    {
        BackupSettings {
            dest: self.dest.clone(),
            format: self.format,
            parallel: self.parallel,
            retention: self.retention,
            cleanup: self.cleanup,
            checksum: self.checksum,
            excludes: clone_texts(&self.excludes),
        }
    }
}

pub fn default_parallel() -> (r: usize)
    ensures
        r == 2,
{
    2
}

pub fn default_retention() -> (r: usize)
    ensures
        r == 10,
{
    10
}

pub fn default_checksum() -> (r: bool)
    ensures
        r,
{
    true
}

/// Whether an app is enabled and compressed where the configuration does not
/// say.
pub fn default_true() -> (r: bool)
    ensures
        r,
{
    true
}

pub fn default_version() -> (r: u32)
    ensures
        r == 1,
{
    1
}

/// The settings where the configuration holds none.
pub open spec fn default_contents() -> SettingsContents {
    SettingsContents {
        dest: "~/backups"@,
        format: Format::Zip,
        parallel: 2,
        retention: 10,
        cleanup: CleanupMode::AfterEach,
        checksum: true,
        excludes: Seq::empty(),
    }
}

impl Default for BackupSettings {
    fn default() -> (r: BackupSettings)
        ensures
            r@ == default_contents(),
    {
        let r = BackupSettings {
            dest: "~/backups".to_string(),
            format: Format::Zip,
            parallel: default_parallel(),
            retention: default_retention(),
            cleanup: CleanupMode::AfterEach,
            checksum: default_checksum(),
            excludes: Vec::new(),
        };
        assert(r@ =~= default_contents());
        r
    }
}

#[derive(Debug)]
pub struct App {
    pub id: String,
    pub name: String,
    pub enabled: bool,
    /// Raw path strings per platform key ("windows", "linux", "macos").
    pub paths: PathTable,
    pub excludes: Vec<String>,
    pub compress: bool,
}

/// The contents of an [`App`].
#[verifier::ext_equal]
pub struct AppContents {
    pub id: Seq<char>,
    pub name: Seq<char>,
    pub enabled: bool,
    pub paths: Seq<(Seq<char>, Seq<Seq<char>>)>,
    pub excludes: Seq<Seq<char>>,
    pub compress: bool,
}

impl View for App {
    type V = AppContents;

    open spec fn view(&self) -> AppContents {
        AppContents {
            id: self.id@,
            name: self.name@,
            enabled: self.enabled,
            paths: self.paths@,
            excludes: texts(self.excludes@),
            compress: self.compress,
        }
    }
}

impl Clone for App {
    fn clone(&self) -> (r: App)
        ensures
            r@ == self@,
    {
        App {
            id: self.id.clone(),
            name: self.name.clone(),
            enabled: self.enabled,
            paths: self.paths.clone(),
            excludes: clone_texts(&self.excludes),
            compress: self.compress,
        }
    }
}

/// The contents of each app.
pub open spec fn app_list(apps: Seq<App>) -> Seq<AppContents> {
    apps.map_values(|a: App| a@)
}

#[derive(Debug)]
pub struct Config {
    pub version: u32,
    pub backup: BackupSettings,
    pub apps: Vec<App>,
    /// Absolute path of the file this config was loaded from.
    pub source: Option<String>,
}

/// The contents of a [`Config`].
#[verifier::ext_equal]
pub struct ConfigContents {
    pub version: u32,
    pub backup: SettingsContents,
    pub apps: Seq<AppContents>,
    pub source: Option<Seq<char>>,
}

impl View for Config {
    type V = ConfigContents;

    open spec fn view(&self) -> ConfigContents {
        ConfigContents {
            version: self.version,
            backup: self.backup@,
            apps: app_list(self.apps@),
            source: opt_text(self.source),
        }
    }
}

fn clone_apps(apps: &Vec<App>) -> (r: Vec<App>)
    ensures
        app_list(r@) == app_list(apps@),
{
    let mut r: Vec<App> = Vec::new();
    let mut i: usize = 0;
    while i < apps.len()
        invariant
            i <= apps@.len(),
            app_list(r@) == app_list(apps@).take(i as int),
        decreases apps@.len() - i,
    {
        let ghost so_far = r@;
        r.push(apps[i].clone());
        i = i + 1;
        proof {
            assert(app_list(r@) =~= app_list(so_far).push(apps@[i - 1]@));
            assert(app_list(apps@).take(i as int) =~= app_list(apps@).take(i - 1).push(
                app_list(apps@)[i - 1],
            ));
        }
    }
    assert(app_list(apps@).take(i as int) =~= app_list(apps@));
    r
}

impl Clone for Config {
    fn clone(&self) -> (r: Config)
        ensures
            r@ == self@,
    {
        Config {
            version: self.version,
            backup: self.backup.clone(),
            apps: clone_apps(&self.apps),
            source: clone_opt(&self.source),
        }
    }
}

#[derive(Debug, Clone, PartialEq, Eq)]
pub enum ConfigError {
    /// The file cannot be read; why.
    Io(String),
    /// The file holds no valid configuration; why.
    Json(String),
    DestVar { var: String },
    DestSyntax { raw: String },
    NoApps,
}

/// The contents of a [`ConfigError`].
#[verifier::ext_equal]
pub enum ErrorContents {
    Io(Seq<char>),
    Json(Seq<char>),
    DestVar { var: Seq<char> },
    DestSyntax { raw: Seq<char> },
    NoApps,
}

impl View for ConfigError {
    type V = ErrorContents;

    open spec fn view(&self) -> ErrorContents {
        match self {
            ConfigError::Io(why) => ErrorContents::Io(why@),
            ConfigError::Json(why) => ErrorContents::Json(why@),
            ConfigError::DestVar { var } => ErrorContents::DestVar { var: var@ },
            ConfigError::DestSyntax { raw } => ErrorContents::DestSyntax { raw: raw@ },
            ConfigError::NoApps => ErrorContents::NoApps,
        }
    }
}

impl ErrorContents {
    /// The error in words.
    pub open spec fn words(self) -> Seq<char> {
        match self {
            ErrorContents::Io(why) => "cannot read config file: "@ + why,
            ErrorContents::Json(why) => "invalid config JSON: "@ + why,
            ErrorContents::DestVar { var } => "backup dest variable not defined: "@ + var,
            ErrorContents::DestSyntax { raw } => "backup dest uses foreign-platform syntax: "@ + raw,
            ErrorContents::NoApps => "no apps defined"@,
        }
    }
}

impl ConfigError {
    /// The error in words.
    pub fn message(&self) -> (r: String)
        ensures
            r@ == self@.words(),
    {
        match self {
            ConfigError::Io(why) => cat("cannot read config file: ", why.as_str()),
            ConfigError::Json(why) => cat("invalid config JSON: ", why.as_str()),
            ConfigError::DestVar { var } => cat("backup dest variable not defined: ", var.as_str()),
            ConfigError::DestSyntax { raw } => cat(
                "backup dest uses foreign-platform syntax: ",
                raw.as_str(),
            ),
            ConfigError::NoApps => "no apps defined".to_string(),
        }
    }
}

impl AppContents {
    /// The path strings for a platform; none where it has no key.
    pub open spec fn paths_on(self, p: Platform) -> Seq<Seq<char>> {
        match paths_under(self.paths, p.key()) {
            Some(paths) => paths,
            None => Seq::empty(),
        }
    }
}

impl ConfigContents {
    /// The directory of the file the configuration was loaded from.
    pub open spec fn dir(self, p: Platform) -> Option<Seq<char>> {
        match self.source {
            Some(s) => parent(p, s),
            None => None,
        }
    }

    /// Where the backups go.
    pub open spec fn dest(self, p: Platform, env: EnvView) -> Result<Seq<char>, ErrorContents> {
        match resolved(p, env, self.backup.dest, self.dir(p)) {
            PathView::Resolved { path } => Ok(path),
            PathView::UndefinedVar { var } => Err(ErrorContents::DestVar { var }),
            PathView::OtherPlatform { raw } => Err(ErrorContents::DestSyntax { raw }),
        }
    }

    /// Where the first app with the given id stands, or the number of apps.
    pub open spec fn app_index(self, id: Seq<char>) -> int {
        app_index_in(self.apps, id)
    }
}

/// Where the first app with the given id stands, or the number of apps.
pub open spec fn app_index_in(apps: Seq<AppContents>, id: Seq<char>) -> int
    decreases apps.len(),
{
    if apps.len() == 0 {
        0
    } else if apps[0].id == id {
        0
    } else {
        1 + app_index_in(apps.skip(1), id)
    }
}

/// Why an app cannot be added, if it cannot.
pub open spec fn app_fault(app: AppContents, p: Platform) -> Option<Seq<char>> {
    let id = trimmed(app.id);
    if id.len() == 0 {
        Some("ID 不能为空"@)
    } else if !is_valid_id(id) {
        Some("ID 只能包含小写字母、数字、- 和 _"@)
    } else if trimmed(app.name).len() == 0 {
        Some("名称不能为空"@)
    } else if trimmed_nonempty(app.paths_on(p)).len() == 0 {
        Some("至少需要填写一个备份路径"@)
    } else {
        None
    }
}

/// The configuration with `app` added, or put in the place of the app with its
/// id. Paths under other platforms than `p` stay as they were.
pub open spec fn with_app(c: ConfigContents, app: AppContents, p: Platform) -> ConfigContents {
    let id = trimmed(app.id);
    let i = c.app_index(id);
    let old_paths = if i < c.apps.len() {
        c.apps[i].paths
    } else {
        Seq::empty()
    };
    let clean = AppContents {
        id,
        name: trimmed(app.name),
        enabled: app.enabled,
        paths: with_paths(old_paths, p.key(), trimmed_nonempty(app.paths_on(p))),
        excludes: trimmed_nonempty(app.excludes),
        compress: app.compress,
    };
    ConfigContents {
        apps: if i < c.apps.len() {
            c.apps.update(i, clean)
        } else {
            c.apps.push(clean)
        },
        ..c
    }
}

/// The configuration without the apps that have the given id.
pub open spec fn without_app(c: ConfigContents, id: Seq<char>) -> ConfigContents {
    ConfigContents { apps: c.apps.filter(|a: AppContents| a.id != id), ..c }
}

impl Config {
    /// Path strings for the given platform; other keys are ignored.
    pub fn paths_for<'a>(&self, app: &'a App, platform: Platform) -> (r: Vec<&'a String>)
        ensures
            r@.map_values(|s: &String| s@) == app@.paths_on(platform),
    {
        let ghost view = |s: &String| s@;
        let ghost all = app@.paths_on(platform);
        let mut r: Vec<&'a String> = Vec::new();
        if let Some(paths) = app.paths.get(platform.as_str()) {
            let mut i: usize = 0;
            while i < paths.len()
                invariant
                    i <= paths@.len(),
                    all == texts(paths@),
                    view == (|s: &String| s@),
                    r@.map_values(view) == all.take(i as int),
                decreases paths@.len() - i,
            {
                let ghost so_far = r@;
                r.push(&paths[i]);
                i = i + 1;
                proof {
                    assert(r@.map_values(view) =~= so_far.map_values(view).push(paths@[i - 1]@));
                    assert(all.take(i as int) =~= all.take(i - 1).push(all[i - 1]));
                }
            }
            assert(all.take(i as int) =~= all);
        }
        assert(r@.map_values(|s: &String| s@) =~= all);
        r
    }

    /// Directory of the file this config was loaded from, if any.
    pub fn config_dir(&self, platform: Platform) -> (r: Option<String>)
        ensures
            opt_text(r) == self@.dir(platform),
    {
        match &self.source {
            Some(s) => path_parent(platform, s.as_str()),
            None => None,
        }
    }

    /// What a path of this configuration stands for.
    pub fn expand(&self, raw: &str, platform: Platform, env: &Environment) -> (r: PathState)
        ensures
            r@ == resolved(platform, env@, raw@, self@.dir(platform)),
    {
        match self.config_dir(platform) {
            Some(dir) => expand_path(raw, platform, Some(dir.as_str()), env),
            None => expand_path(raw, platform, None, env),
        }
    }

    /// Resolve the backup destination.
    pub fn resolved_dest(&self, platform: Platform, env: &Environment) -> (r: Result<
        String,
        ConfigError,
    >)
        ensures
            match self@.dest(platform, env@) {
                Ok(path) => r is Ok && r->Ok_0@ == path,
                Err(e) => r is Err && r->Err_0@ == e,
            },
    {
        match self.expand(self.backup.dest.as_str(), platform, env) {
            PathState::Resolved { path } => Ok(path),
            PathState::UndefinedVar { var } => Err(ConfigError::DestVar { var }),
            PathState::OtherPlatform { raw } => Err(ConfigError::DestSyntax { raw }),
        }
    }

    /// Where the first app with the given id stands, or the number of apps.
    pub fn find_app(&self, id: &str) -> (r: usize)
        ensures
            r == self@.app_index(id@),
            r <= self@.apps.len(),
    {
        let ghost all = self@.apps;
        let mut i: usize = 0;
        assert(all.skip(0) =~= all);
        while i < self.apps.len()
            invariant
                i <= self.apps@.len(),
                all == self@.apps,
                app_index_in(all, id@) == i + app_index_in(all.skip(i as int), id@),
            decreases self.apps@.len() - i,
        {
            assert(all.skip(i as int)[0] == all[i as int]);
            if same(self.apps[i].id.as_str(), id) {
                return i;
            }
            assert(all.skip(i as int).skip(1) =~= all.skip(i + 1));
            i = i + 1;
        }
        i
    }

    /// Validate and add or update an app. Only paths stored under the given
    /// platform key are read; paths for other platforms are preserved.
    /// Returns a user-facing error message on invalid input.
    pub fn upsert_app(&mut self, app: App, platform: Platform) -> (r: Result<(), String>)
        ensures
            match app_fault(app@, platform) {
                Some(why) => r is Err && r->Err_0@ == why && final(self)@ == old(self)@,
                None => r is Ok && final(self)@ == with_app(old(self)@, app@, platform),
            },
    {
        let ghost given = app@;
        let ghost before = self@;
        let id = trim(app.id.as_str());
        if id.as_str().is_empty() {
            return Err("ID 不能为空".to_string());
        }
        if !valid_id(id.as_str()) {
            return Err("ID 只能包含小写字母、数字、- 和 _".to_string());
        }
        let name = trim(app.name.as_str());
        if name.as_str().is_empty() {
            return Err("名称不能为空".to_string());
        }
        let paths: Vec<String> = match app.paths.get(platform.as_str()) {
            Some(list) => trim_all(list),
            None => trim_all(&Vec::new()),
        };
        assert(texts(Seq::<String>::empty()) =~= Seq::<Seq<char>>::empty());
        assert(texts(paths@) == trimmed_nonempty(given.paths_on(platform)));
        if paths.len() == 0 {
            return Err("至少需要填写一个备份路径".to_string());
        }
        let excludes = trim_all(&app.excludes);
        let i: usize = self.find_app(id.as_str());
        if i < self.apps.len() {
            let old_app = self.apps.remove(i);
            let mut table = old_app.paths;
            table.insert(platform.as_str().to_string(), paths);
            let clean = App {
                id,
                name,
                enabled: app.enabled,
                paths: table,
                excludes,
                compress: app.compress,
            };
            self.apps.insert(i, clean);
            assert(self@.apps =~= with_app(before, given, platform).apps);
        } else {
            let mut table = PathTable::new();
            table.insert(platform.as_str().to_string(), paths);
            let clean = App {
                id,
                name,
                enabled: app.enabled,
                paths: table,
                excludes,
                compress: app.compress,
            };
            self.apps.push(clean);
            assert(self@.apps =~= with_app(before, given, platform).apps);
        }
        Ok(())
    }

    /// Remove an app by id. Returns true if an app was removed.
    pub fn remove_app(&mut self, id: &str) -> (r: bool)
        ensures
            final(self)@ == without_app(old(self)@, id@),
            r == exists|i: int|
                0 <= i < old(self)@.apps.len() && (#[trigger] old(self)@.apps[i]).id == id@,
    {
        let ghost before = self@;
        let ghost all = before.apps;
        let ghost keep = |a: AppContents| a.id != id@;
        let mut i: usize = 0;
        let mut removed = false;
        let ghost mut seen: int = 0;
        proof {
            reveal(Seq::filter);
            assert(all.take(0).filter(keep) =~= Seq::empty());
            assert(all.take(0).filter(keep) + all.skip(0) =~= all);
        }
        while i < self.apps.len()
            invariant
                0 <= seen <= all.len(),
                i <= self.apps@.len(),
                self.apps@.len() - i == all.len() - seen,
                before == old(self)@,
                all == before.apps,
                keep == (|a: AppContents| a.id != id@),
                self@ == (ConfigContents { apps: self@.apps, ..before }),
                self@.apps == all.take(seen).filter(keep) + all.skip(seen),
                i == all.take(seen).filter(keep).len(),
                removed == exists|k: int| 0 <= k < seen && (#[trigger] all[k]).id == id@,
            decreases self.apps@.len() - i,
        {
            let ghost now = self@.apps;
            proof {
                reveal(Seq::filter);
                assert(all.take(seen + 1).drop_last() =~= all.take(seen));
                assert(now[i as int] == all[seen]);
                assert(app_list(self.apps@)[i as int] == self.apps@[i as int]@);
            }
            if same(self.apps[i].id.as_str(), id) {
                self.apps.remove(i);
                removed = true;
                proof {
                    assert(all[seen].id == id@);
                    assert(self@.apps =~= now.remove(i as int));
                    assert(self@.apps =~= all.take(seen + 1).filter(keep) + all.skip(seen + 1));
                }
            } else {
                i = i + 1;
                proof {
                    assert(self@.apps =~= all.take(seen + 1).filter(keep) + all.skip(seen + 1));
                }
            }
            proof {
                seen = seen + 1;
            }
        }
        proof {
            assert(all.take(seen) =~= all);
            assert(self@.apps =~= all.filter(keep));
        }
        removed
    }
}

// ---------------------------------------------------------------------------
// Loading
// ---------------------------------------------------------------------------

/// The directory of the settings of programs, as `dirs::config_dir` gives it.
/// What it returns depends on the machine; nothing is stated of it. What is not
/// UTF-8 in its name is replaced.
#[verifier::external_body]
fn user_config_dir() -> (r: Option<String>) {
    dirs::config_dir().map(|d| d.to_string_lossy().into_owned())
}

/// The home directory, as `dirs::home_dir` gives it. What it returns depends on
/// the machine; nothing is stated of it. What is not UTF-8 in its name is
/// replaced.
#[verifier::external_body]
fn user_home_dir() -> (r: Option<String>) {
    dirs::home_dir().map(|d| d.to_string_lossy().into_owned())
}

/// Where the configuration is kept, given the directories of the user.
pub open spec fn default_location(
    p: Platform,
    config_dir: Option<Seq<char>>,
    home_dir: Option<Seq<char>>,
) -> Seq<char> {
    let home = match home_dir {
        Some(d) => d,
        None => "."@,
    };
    if p is Windows {
        let dir = match config_dir {
            Some(d) => d,
            None => home,
        };
        join(p, join(p, dir, "backup_tool"@), "config.json"@)
    } else {
        join(p, join(p, home, ".backup_tool"@), "config.json"@)
    }
}

/// Where the configuration is kept, given the directories of the user.
pub fn default_config_path_in(
    platform: Platform,
    config_dir: Option<&str>,
    home_dir: Option<&str>,
) -> (r: String)
    ensures
        r@ == default_location(platform, opt_str(config_dir), opt_str(home_dir)),
{
    let home: &str = match home_dir {
        Some(d) => d,
        None => ".",
    };
    match platform {
        Platform::Windows => {
            let dir: &str = match config_dir {
                Some(d) => d,
                None => home,
            };
            let d = path_join(platform, dir, "backup_tool");
            path_join(platform, d.as_str(), "config.json")
        },
        _ => {
            let d = path_join(platform, home, ".backup_tool");
            path_join(platform, d.as_str(), "config.json")
        },
    }
}

/// Default config file location.
pub fn default_config_path(platform: Platform) -> (r: String)
    ensures
        exists|config_dir: Option<Seq<char>>, home_dir: Option<Seq<char>>|
            r@ == #[trigger] default_location(platform, config_dir, home_dir),
{
    let config_dir = user_config_dir();
    let home_dir = user_home_dir();
    let c: Option<&str> = match &config_dir {
        Some(d) => Some(d.as_str()),
        None => None,
    };
    let h: Option<&str> = match &home_dir {
        Some(d) => Some(d.as_str()),
        None => None,
    };
    default_config_path_in(platform, c, h)
}

/// `path`, seen from the current directory.
pub open spec fn absolute_from(p: Platform, current_dir: Seq<char>, path: Seq<char>) -> Seq<char> {
    if is_absolute(p, path) {
        path
    } else {
        join(p, current_dir, path)
    }
}

fn absolute_of(path: &str, platform: Platform, env: &Environment) -> (r: String)
    ensures
        r@ == absolute_from(platform, env@.current_dir, path@),
{
    if path_is_absolute(platform, path) {
        path.to_string()
    } else {
        path_join(platform, env.current_dir.as_str(), path)
    }
}

/// The warnings on the paths under one key.
pub open spec fn path_warnings(id: Seq<char>, key: Seq<char>, paths: Seq<Seq<char>>) -> Seq<
    Seq<char>,
>
    decreases paths.len(),
{
    if paths.len() == 0 {
        Seq::empty()
    } else {
        let rest = path_warnings(id, key, paths.drop_last());
        if trimmed(paths.last()).len() == 0 {
            rest.push("app '"@ + id + "': empty path under '"@ + key + "'"@)
        } else {
            rest
        }
    }
}

/// The warnings on a table of paths.
pub open spec fn table_warnings(
    id: Seq<char>,
    table: Seq<(Seq<char>, Seq<Seq<char>>)>,
) -> Seq<Seq<char>>
    decreases table.len(),
{
    if table.len() == 0 {
        Seq::empty()
    } else {
        let (key, paths) = table.last();
        let unknown = if Platform::of_key(key) is None {
            seq!["app '"@ + id + "': unknown platform key '"@ + key + "'"@]
        } else {
            Seq::empty()
        };
        table_warnings(id, table.drop_last()) + unknown + path_warnings(id, key, paths)
    }
}

/// The warnings on the apps.
pub open spec fn app_warnings(apps: Seq<AppContents>) -> Seq<Seq<char>>
    decreases apps.len(),
{
    if apps.len() == 0 {
        Seq::empty()
    } else {
        let a = apps.last();
        let no_id = if trimmed(a.id).len() == 0 {
            seq!["app '"@ + a.name + "' has empty id"@]
        } else {
            Seq::empty()
        };
        app_warnings(apps.drop_last()) + no_id + table_warnings(a.id, a.paths)
    }
}

/// The warnings on a configuration.
pub open spec fn config_warnings(apps: Seq<AppContents>) -> Seq<Seq<char>> {
    if apps.len() == 0 {
        seq!["no apps defined in config"@]
    } else {
        app_warnings(apps)
    }
}

fn warn_paths(id: &str, key: &str, paths: &Vec<String>, out: &mut Vec<String>)
    ensures
        texts(final(out)@) == texts(old(out)@) + path_warnings(id@, key@, texts(paths@)),
{
    let ghost before = texts(out@);
    let ghost all = texts(paths@);
    let mut i: usize = 0;
    assert(texts(out@) =~= before + path_warnings(id@, key@, all.take(0)));
    while i < paths.len()
        invariant
            i <= paths@.len(),
            all == texts(paths@),
            texts(out@) == before + path_warnings(id@, key@, all.take(i as int)),
        decreases paths@.len() - i,
    {
        let ghost so_far = out@;
        let t = trim(paths[i].as_str());
        assert(all.take(i + 1).drop_last() =~= all.take(i as int));
        assert(all.take(i + 1).last() == paths@[i as int]@);
        if t.as_str().is_empty() {
            let head = cat3("app '", id, "': empty path under '");
            let msg = cat3(head.as_str(), key, "'");
            out.push(msg);
            proof {
                assert(texts(out@) =~= texts(so_far).push(msg@));
                assert(texts(out@) =~= before + path_warnings(id@, key@, all.take(i + 1)));
            }
        }
        i = i + 1;
    }
    assert(all.take(i as int) =~= all);
}

fn warn_table(id: &str, table: &PathTable, out: &mut Vec<String>)
    ensures
        texts(final(out)@) == texts(old(out)@) + table_warnings(id@, table@),
{
    let ghost before = texts(out@);
    let ghost all = table@;
    let mut i: usize = 0;
    assert(texts(out@) =~= before + table_warnings(id@, all.take(0)));
    while i < table.len()
        invariant
            i <= table@.len(),
            all == table@,
            texts(out@) == before + table_warnings(id@, all.take(i as int)),
        decreases table@.len() - i,
    {
        let ghost so_far = out@;
        let ghost done = table_warnings(id@, all.take(i as int));
        let key = table.key(i);
        proof {
            assert(all.take(i + 1).drop_last() =~= all.take(i as int));
            assert(all.take(i + 1).last() == all[i as int]);
        }
        let ghost mut extra: Seq<Seq<char>> = Seq::empty();
        if Platform::current(key.as_str()).is_none() {
            let head = cat3("app '", id, "': unknown platform key '");
            let msg = cat3(head.as_str(), key.as_str(), "'");
            out.push(msg);
            proof {
                extra = seq![msg@];
                assert(texts(out@) =~= texts(so_far).push(msg@));
            }
        }
        assert(texts(out@) =~= before + (done + extra));
        warn_paths(id, key.as_str(), table.paths(i), out);
        i = i + 1;
        assert(texts(out@) =~= before + table_warnings(id@, all.take(i as int)));
    }
    assert(all.take(i as int) =~= all);
}

fn warn_apps(apps: &Vec<App>, out: &mut Vec<String>)
    ensures
        texts(final(out)@) == texts(old(out)@) + app_warnings(app_list(apps@)),
{
    let ghost before = texts(out@);
    let ghost all = app_list(apps@);
    let mut i: usize = 0;
    assert(texts(out@) =~= before + app_warnings(all.take(0)));
    while i < apps.len()
        invariant
            i <= apps@.len(),
            all == app_list(apps@),
            texts(out@) == before + app_warnings(all.take(i as int)),
        decreases apps@.len() - i,
    {
        let ghost so_far = out@;
        let ghost done = app_warnings(all.take(i as int));
        let app = &apps[i];
        proof {
            assert(all.take(i + 1).drop_last() =~= all.take(i as int));
            assert(all.take(i + 1).last() == app@);
        }
        let ghost mut extra: Seq<Seq<char>> = Seq::empty();
        let id = trim(app.id.as_str());
        if id.as_str().is_empty() {
            let msg = cat3("app '", app.name.as_str(), "' has empty id");
            out.push(msg);
            proof {
                extra = seq![msg@];
                assert(texts(out@) =~= texts(so_far).push(msg@));
            }
        }
        assert(texts(out@) =~= before + (done + extra));
        warn_table(app.id.as_str(), &app.paths, out);
        i = i + 1;
        assert(texts(out@) =~= before + app_warnings(all.take(i as int)));
    }
    assert(all.take(i as int) =~= all);
}

/// The configuration `parsed`, as loaded from the file `path`.
pub open spec fn loaded(
    p: Platform,
    env: EnvView,
    parsed: ConfigContents,
    path: Seq<char>,
) -> ConfigContents {
    ConfigContents { source: Some(absolute_from(p, env.current_dir, path)), ..parsed }
}

/// Finishes loading a configuration from the file `path`: what was read and
/// parsed from it is bound to the file and looked over. A destination that does
/// not resolve is an error. Returns the config plus a list of non-fatal
/// warnings.
pub fn load_config(
    parsed: Result<Config, ConfigError>,
    path: &str,
    platform: Platform,
    env: &Environment,
) -> (r: Result<(Config, Vec<String>), ConfigError>)
    ensures
        match parsed {
            Err(e) => r is Err && r->Err_0@ == e@,
            Ok(c) => {
                let l = loaded(platform, env@, c@, path@);
                match l.dest(platform, env@) {
                    Ok(_) => r is Ok && r->Ok_0.0@ == l && texts(r->Ok_0.1@) == config_warnings(
                        l.apps,
                    ),
                    Err(e) => r is Err && r->Err_0@ == e,
                }
            },
        },
{
    match parsed {
        Err(e) => Err(e),
        Ok(c) => {
            let mut config = c;
            config.source = Some(absolute_of(path, platform, env));
            let mut warnings: Vec<String> = Vec::new();
            if config.apps.len() == 0 {
                warnings.push("no apps defined in config".to_string());
                assert(texts(warnings@) =~= config_warnings(config@.apps));
            } else {
                warn_apps(&config.apps, &mut warnings);
                assert(texts(warnings@) =~= config_warnings(config@.apps));
            }
            match config.resolved_dest(platform, env) {
                Ok(_) => Ok((config, warnings)),
                Err(e) => Err(e),
            }
        },
    }
}

// ---------------------------------------------------------------------------
// The first configuration
// ---------------------------------------------------------------------------

/// The destination that is proposed on a platform.
pub open spec fn proposed_dest(p: Platform) -> Seq<char> {
    if p is Windows {
        "%USERPROFILE%\\backups"@
    } else {
        "~/backups"@
    }
}

/// The settings that are proposed on a platform.
pub open spec fn proposed_settings(p: Platform) -> SettingsContents {
    SettingsContents {
        dest: proposed_dest(p),
        excludes: seq!["**/.DS_Store"@, "**/desktop.ini"@],
        ..default_contents()
    }
}

/// The settings that are proposed on a platform.
pub fn platform_settings(platform: Platform) -> (r: BackupSettings)
    ensures
        r@ == proposed_settings(platform),
{
    let mut r = BackupSettings::default();
    r.dest = match platform {
        Platform::Windows => "%USERPROFILE%\\backups".to_string(),
        _ => "~/backups".to_string(),
    };
    let mut excludes: Vec<String> = Vec::new();
    excludes.push("**/.DS_Store".to_string());
    excludes.push("**/desktop.ini".to_string());
    r.excludes = excludes;
    assert(texts(r.excludes@) =~= seq!["**/.DS_Store"@, "**/desktop.ini"@]);
    r
}

/// The configuration that is written where there is none yet: the proposed
/// settings and no apps.
pub fn first_config(platform: Platform) -> (r: Config)
    ensures
        r@ == (ConfigContents {
            version: 1,
            backup: proposed_settings(platform),
            apps: Seq::empty(),
            source: None,
        }),
{
    let r = Config {
        version: default_version(),
        backup: platform_settings(platform),
        apps: Vec::new(),
        source: None,
    };
    assert(r@.apps =~= Seq::empty());
    r
}

// ---------------------------------------------------------------------------
// Laws
// ---------------------------------------------------------------------------

/// Whether no two apps have the same id.
pub open spec fn unique_ids(apps: Seq<AppContents>) -> bool {
    forall|i: int, j: int| 0 <= i < j < apps.len() ==> (#[trigger] apps[i]).id != (
    #[trigger] apps[j]).id
}

proof fn lemma_app_index(apps: Seq<AppContents>, id: Seq<char>)
    ensures
        0 <= app_index_in(apps, id) <= apps.len(),
        app_index_in(apps, id) < apps.len() ==> apps[app_index_in(apps, id)].id == id,
        forall|j: int| 0 <= j < app_index_in(apps, id) ==> (#[trigger] apps[j]).id != id,
    decreases apps.len(),
{
    if apps.len() > 0 && apps[0].id != id {
        lemma_app_index(apps.skip(1), id);
        assert forall|j: int| 0 <= j < app_index_in(apps, id) implies (#[trigger] apps[j]).id
            != id by {
            if j > 0 {
                assert(apps[j] == apps.skip(1)[j - 1]);
            }
        }
    }
}

/// An app that was added or updated is found under its id, with what was given.
pub proof fn upserted_app_is_found(c: ConfigContents, app: AppContents, p: Platform)
    requires
        app_fault(app, p) is None,
        forall|i: int| 0 <= i < c.apps.len() ==> distinct_keys((#[trigger] c.apps[i]).paths),
    ensures
        ({
            let id = trimmed(app.id);
            let n = with_app(c, app, p);
            let i = n.app_index(id);
            &&& i == c.app_index(id)
            &&& i < n.apps.len()
            &&& n.apps[i].id == id
            &&& n.apps[i].name == trimmed(app.name)
            &&& n.apps[i].enabled == app.enabled
            &&& n.apps[i].compress == app.compress
            &&& n.apps[i].excludes == trimmed_nonempty(app.excludes)
            &&& n.apps[i].paths_on(p) == trimmed_nonempty(app.paths_on(p))
        }),
{
    let id = trimmed(app.id);
    let n = with_app(c, app, p);
    let at = c.app_index(id);
    lemma_app_index(c.apps, id);
    lemma_app_index(n.apps, id);
    assert(n.apps[at].id == id);
    if n.app_index(id) < at {
        assert(n.apps[n.app_index(id)] == c.apps[n.app_index(id)]);
    }
    let old_paths = if at < c.apps.len() {
        c.apps[at].paths
    } else {
        Seq::empty()
    };
    paths_after_insert(old_paths, p.key(), trimmed_nonempty(app.paths_on(p)), p.key());
}

/// Adding or updating an app leaves the other apps, their order and all other
/// settings as they were.
pub proof fn upsert_keeps_other_apps(c: ConfigContents, app: AppContents, p: Platform, j: int)
    requires
        0 <= j < c.apps.len(),
        j != c.app_index(trimmed(app.id)),
    ensures
        with_app(c, app, p).apps[j] == c.apps[j],
        with_app(c, app, p).apps.len() == if c.app_index(trimmed(app.id)) < c.apps.len() {
            c.apps.len()
        } else {
            c.apps.len() + 1
        },
        with_app(c, app, p).backup == c.backup,
        with_app(c, app, p).source == c.source,
        with_app(c, app, p).version == c.version,
{
    lemma_app_index(c.apps, trimmed(app.id));
}

/// Updating an app for one platform keeps its paths for the others.
pub proof fn upsert_keeps_other_platforms(
    c: ConfigContents,
    app: AppContents,
    p: Platform,
    q: Platform,
)
    requires
        p != q,
        c.app_index(trimmed(app.id)) < c.apps.len(),
        distinct_keys(c.apps[c.app_index(trimmed(app.id))].paths),
    ensures
        with_app(c, app, p).apps[c.app_index(trimmed(app.id))].paths_on(q)
            == c.apps[c.app_index(trimmed(app.id))].paths_on(q),
{
    lemma_app_index(c.apps, trimmed(app.id));
    platform_keys_distinct(p, q);
    paths_after_insert(
        c.apps[c.app_index(trimmed(app.id))].paths,
        p.key(),
        trimmed_nonempty(app.paths_on(p)),
        q.key(),
    );
}

/// Ids stay unique when an app is added or updated.
pub proof fn upsert_keeps_ids_unique(c: ConfigContents, app: AppContents, p: Platform)
    requires
        unique_ids(c.apps),
    ensures
        unique_ids(with_app(c, app, p).apps),
{
    lemma_app_index(c.apps, trimmed(app.id));
}

/// Giving the same app twice is the same as giving it once.
pub proof fn upsert_is_idempotent(c: ConfigContents, app: AppContents, p: Platform)
    requires
        app_fault(app, p) is None,
        forall|i: int| 0 <= i < c.apps.len() ==> distinct_keys((#[trigger] c.apps[i]).paths),
    ensures
        with_app(with_app(c, app, p), app, p) == with_app(c, app, p),
{
    let id = trimmed(app.id);
    let n = with_app(c, app, p);
    let i = n.app_index(id);
    let new_paths = trimmed_nonempty(app.paths_on(p));
    upserted_app_is_found(c, app, p);
    lemma_app_index(c.apps, id);
    let old_paths = if i < c.apps.len() {
        c.apps[i].paths
    } else {
        Seq::empty()
    };
    let t = with_paths(old_paths, p.key(), new_paths);
    paths_after_insert(old_paths, p.key(), new_paths, p.key());
    key_index_first(t, p.key());
    assert(with_paths(t, p.key(), new_paths) =~= t);
    assert(with_app(n, app, p).apps =~= n.apps);
}

/// A removed app is gone and the others stay in order.
pub proof fn removed_app_is_gone(c: ConfigContents, id: Seq<char>)
    ensures
        without_app(c, id).app_index(id) == without_app(c, id).apps.len(),
        without_app(without_app(c, id), id) == without_app(c, id),
        (forall|i: int| 0 <= i < c.apps.len() ==> (#[trigger] c.apps[i]).id != id) ==> without_app(
            c,
            id,
        ) == c,
{
    let keep = |a: AppContents| a.id != id;
    let left = without_app(c, id).apps;
    lemma_filter_kept(c.apps, keep);
    lemma_app_index(left, id);
    lemma_filter_all(left, keep);
    if forall|i: int| 0 <= i < c.apps.len() ==> (#[trigger] c.apps[i]).id != id {
        lemma_filter_all(c.apps, keep);
    }
}

proof fn lemma_filter_kept(apps: Seq<AppContents>, keep: spec_fn(AppContents) -> bool)
    ensures
        forall|i: int| 0 <= i < apps.filter(keep).len() ==> keep(#[trigger] apps.filter(keep)[i]),
    decreases apps.len(),
{
    reveal(Seq::filter);
    if apps.len() > 0 {
        lemma_filter_kept(apps.drop_last(), keep);
    }
}

proof fn lemma_filter_all(apps: Seq<AppContents>, keep: spec_fn(AppContents) -> bool)
    requires
        forall|i: int| 0 <= i < apps.len() ==> keep(#[trigger] apps[i]),
    ensures
        apps.filter(keep) == apps,
    decreases apps.len(),
{
    reveal(Seq::filter);
    if apps.len() > 0 {
        let t = apps.drop_last();
        assert forall|i: int| 0 <= i < t.len() implies keep(#[trigger] t[i]) by {
            assert(t[i] == apps[i]);
        }
        lemma_filter_all(t, keep);
        assert(keep(apps[apps.len() - 1]));
        assert(t.push(apps.last()) =~= apps);
    } else {
        assert(apps.filter(keep) =~= apps);
    }
}

/// An app with an id of its own is left alone when another one is removed.
pub proof fn remove_keeps_other_apps(c: ConfigContents, id: Seq<char>, i: int)
    requires
        0 <= i < c.apps.len(),
        c.apps[i].id != id,
    ensures
        without_app(c, id).apps.contains(c.apps[i]),
        without_app(c, id).backup == c.backup,
        without_app(c, id).source == c.source,
{
    lemma_filter_holds(c.apps, |a: AppContents| a.id != id, i);
}

proof fn lemma_filter_holds(apps: Seq<AppContents>, keep: spec_fn(AppContents) -> bool, i: int)
    requires
        0 <= i < apps.len(),
        keep(apps[i]),
    ensures
        apps.filter(keep).contains(apps[i]),
    decreases apps.len(),
{
    reveal(Seq::filter);
    let rest = apps.drop_last().filter(keep);
    if i == apps.len() - 1 {
        assert(apps.filter(keep)[rest.len() as int] == apps[i]);
    } else {
        lemma_filter_holds(apps.drop_last(), keep, i);
        let k = choose|k: int| 0 <= k < rest.len() && rest[k] == apps[i];
        assert(apps.filter(keep)[k] == apps[i]);
    }
}

/// An id is found exactly where an app has it.
pub proof fn app_found(apps: Seq<AppContents>, id: Seq<char>)
    ensures
        app_index_in(apps, id) < apps.len() <==> apps.map_values(|a: AppContents| a.id).contains(id),
{
    let ids = apps.map_values(|a: AppContents| a.id);
    lemma_app_index(apps, id);
    if app_index_in(apps, id) < apps.len() {
        assert(ids[app_index_in(apps, id)] == id);
    }
    if ids.contains(id) {
        let i = choose|i: int| 0 <= i < ids.len() && ids[i] == id;
        assert(apps[i].id == id);
    }
}

// ---------------------------------------------------------------------------
// Laws of loading and checking
// ---------------------------------------------------------------------------

/// An app can be added where its id, without white space around it, is valid, its name
/// is not blank and one of its paths on the platform is not blank, and only there.
pub proof fn faultless_apps_are_accepted(app: AppContents, p: Platform)
    ensures
        app_fault(app, p) is None <==> is_valid_id(trimmed(app.id)) && !blank(
            app.name,
            0,
            app.name.len() as int,
        ) && exists|i: int|
            0 <= i < app.paths_on(p).len() && !blank(
                #[trigger] app.paths_on(p)[i],
                0,
                app.paths_on(p)[i].len() as int,
            ),
{
    let paths = app.paths_on(p);
    let left = trimmed_nonempty(paths);
    trimming_keeps_core(app.name);
    if left.len() > 0 {
        trimmed_holds(paths, left[0]);
        assert(left.contains(left[0]));
    }
    if exists|i: int| 0 <= i < paths.len() && !blank(#[trigger] paths[i], 0, paths[i].len() as int) {
        let i = choose|i: int|
            0 <= i < paths.len() && !blank(#[trigger] paths[i], 0, paths[i].len() as int);
        trimmed_holds(paths, trimmed(paths[i]));
        assert(left.contains(trimmed(paths[i])));
    }
}

/// Where backups go is what the path in the settings stands for, seen from the
/// directory of the configuration; where it stands for nothing, that is the error.
pub proof fn destination_is_what_settings_say(c: ConfigContents, p: Platform, env: EnvView)
    ensures
        match resolved(p, env, c.backup.dest, c.dir(p)) {
            PathView::Resolved { path } => c.dest(p, env) == Ok::<Seq<char>, ErrorContents>(path),
            PathView::UndefinedVar { var } => c.dest(p, env) == Err::<Seq<char>, ErrorContents>(
                ErrorContents::DestVar { var },
            ),
            PathView::OtherPlatform { raw } => c.dest(p, env) == Err::<Seq<char>, ErrorContents>(
                ErrorContents::DestSyntax { raw },
            ),
        },
{
}

/// Paths of a configuration are seen from the directory that its file is in; those of
/// one without a file from the current directory.
pub proof fn paths_are_seen_from_config(
    c: ConfigContents,
    p: Platform,
    dir: Seq<char>,
    name: Seq<char>,
)
    requires
        is_firm(p, dir),
        is_plain_name(p, name),
    ensures
        c.source == Some(join(p, dir, name)) ==> (c.dir(p) matches Some(d) && same_path(p, d, dir)),
        c.source is None ==> c.dir(p) is None,
{
    parent_of_joined_is_dir(p, dir, name);
}

/// Loading binds a configuration to its file, by its absolute path, and leaves the
/// rest as it was read.
pub proof fn loading_keeps_what_was_read(
    p: Platform,
    env: EnvView,
    parsed: ConfigContents,
    path: Seq<char>,
)
    ensures
        ({
            let l = loaded(p, env, parsed, path);
            &&& l.version == parsed.version
            &&& l.backup == parsed.backup
            &&& l.apps == parsed.apps
            &&& is_absolute(p, path) ==> l.source == Some(path)
            &&& !is_absolute(p, path) ==> l.source == Some(join(p, env.current_dir, path))
        }),
{
}

/// Whether there is nothing to warn of in an app: it has an id, its paths are those of
/// known platforms, and none is blank.
pub open spec fn is_sound(a: AppContents) -> bool {
    &&& !blank(a.id, 0, a.id.len() as int)
    &&& forall|k: int|
        0 <= k < a.paths.len() ==> exists|q: Platform| (#[trigger] a.paths[k]).0 == (#[trigger] q.key())
    &&& forall|k: int, i: int|
        0 <= k < a.paths.len() && 0 <= i < a.paths[k].1.len() ==> !blank(
            #[trigger] a.paths[k].1[i],
            0,
            a.paths[k].1[i].len() as int,
        )
}

proof fn lemma_no_path_warnings(id: Seq<char>, key: Seq<char>, paths: Seq<Seq<char>>)
    requires
        forall|i: int|
            0 <= i < paths.len() ==> !blank(#[trigger] paths[i], 0, paths[i].len() as int),
    ensures
        path_warnings(id, key, paths) == Seq::<Seq<char>>::empty(),
    decreases paths.len(),
{
    if paths.len() > 0 {
        let rest = paths.drop_last();
        assert forall|i: int| 0 <= i < rest.len() implies !blank(
            #[trigger] rest[i],
            0,
            rest[i].len() as int,
        ) by {
            assert(rest[i] == paths[i]);
        }
        lemma_no_path_warnings(id, key, rest);
        trimming_keeps_core(paths.last());
        assert(paths.last() == paths[paths.len() - 1]);
    }
}

proof fn lemma_no_table_warnings(id: Seq<char>, table: Seq<(Seq<char>, Seq<Seq<char>>)>)
    requires
        forall|k: int|
            0 <= k < table.len() ==> exists|q: Platform| (#[trigger] table[k]).0 == (#[trigger] q.key()),
        forall|k: int, i: int|
            0 <= k < table.len() && 0 <= i < table[k].1.len() ==> !blank(
                #[trigger] table[k].1[i],
                0,
                table[k].1[i].len() as int,
            ),
    ensures
        table_warnings(id, table) == Seq::<Seq<char>>::empty(),
    decreases table.len(),
{
    if table.len() > 0 {
        let rest = table.drop_last();
        let last = table.len() - 1;
        assert forall|k: int| 0 <= k < rest.len() implies exists|q: Platform|
            (#[trigger] rest[k]).0 == (#[trigger] q.key()) by {
            assert(rest[k] == table[k]);
        }
        assert forall|k: int, i: int| 0 <= k < rest.len() && 0 <= i < rest[k].1.len() implies !blank(
            #[trigger] rest[k].1[i],
            0,
            rest[k].1[i].len() as int,
        ) by {
            assert(rest[k].1[i] == table[k].1[i]);
        }
        lemma_no_table_warnings(id, rest);
        let (key, paths) = table.last();
        assert forall|i: int| 0 <= i < paths.len() implies !blank(
            #[trigger] paths[i],
            0,
            paths[i].len() as int,
        ) by {
            assert(table[last].1[i] == paths[i]);
        }
        lemma_no_path_warnings(id, key, paths);
        assert(table[last].0 == key);
        let q = choose|q: Platform| table[last].0 == (#[trigger] q.key());
        platform_key_round_trip(q);
        assert(table_warnings(id, table) =~= Seq::empty());
    }
}

/// A configuration with apps that are sound is loaded without a warning.
pub proof fn sound_config_has_no_warnings(apps: Seq<AppContents>)
    requires
        forall|i: int| 0 <= i < apps.len() ==> is_sound(#[trigger] apps[i]),
    ensures
        app_warnings(apps) == Seq::<Seq<char>>::empty(),
        apps.len() > 0 ==> config_warnings(apps) == Seq::<Seq<char>>::empty(),
        apps.len() == 0 ==> config_warnings(apps).len() == 1,
    decreases apps.len(),
{
    if apps.len() > 0 {
        let rest = apps.drop_last();
        assert forall|i: int| 0 <= i < rest.len() implies is_sound(#[trigger] rest[i]) by {
            assert(rest[i] == apps[i]);
        }
        sound_config_has_no_warnings(rest);
        let a = apps.last();
        assert(is_sound(apps[apps.len() - 1]));
        trimming_keeps_core(a.id);
        lemma_no_table_warnings(a.id, a.paths);
        assert(app_warnings(apps) =~= Seq::empty());
    }
}

proof fn lemma_path_warned(id: Seq<char>, key: Seq<char>, paths: Seq<Seq<char>>, i: int)
    requires
        0 <= i < paths.len(),
        blank(paths[i], 0, paths[i].len() as int),
    ensures
        path_warnings(id, key, paths).contains("app '"@ + id + "': empty path under '"@ + key + "'"@),
    decreases paths.len(),
{
    let rest = paths.drop_last();
    let msg = "app '"@ + id + "': empty path under '"@ + key + "'"@;
    let before = path_warnings(id, key, rest);
    let now = path_warnings(id, key, paths);
    trimming_keeps_core(paths.last());
    if i < rest.len() {
        assert(rest[i] == paths[i]);
        lemma_path_warned(id, key, rest, i);
        let k = choose|k: int| 0 <= k < before.len() && before[k] == msg;
        assert(now[k] == msg);
    } else {
        assert(now[before.len() as int] == msg);
    }
}

proof fn lemma_table_warned(
    id: Seq<char>,
    table: Seq<(Seq<char>, Seq<Seq<char>>)>,
    k: int,
    msg: Seq<char>,
)
    requires
        0 <= k < table.len(),
        path_warnings(id, table[k].0, table[k].1).contains(msg) || (Platform::of_key(
            table[k].0,
        ) is None && msg == "app '"@ + id + "': unknown platform key '"@ + table[k].0 + "'"@),
    ensures
        table_warnings(id, table).contains(msg),
    decreases table.len(),
{
    let rest = table.drop_last();
    let (key, paths) = table.last();
    let before = table_warnings(id, rest);
    let unknown = if Platform::of_key(key) is None {
        seq!["app '"@ + id + "': unknown platform key '"@ + key + "'"@]
    } else {
        Seq::empty()
    };
    let own = path_warnings(id, key, paths);
    let now = table_warnings(id, table);
    assert(now =~= before + unknown + own);
    if k < rest.len() {
        assert(rest[k] == table[k]);
        lemma_table_warned(id, rest, k, msg);
        let j = choose|j: int| 0 <= j < before.len() && before[j] == msg;
        assert(now[j] == msg);
    } else if own.contains(msg) {
        let j = choose|j: int| 0 <= j < own.len() && own[j] == msg;
        assert(now[before.len() + unknown.len() + j] == msg);
    } else {
        assert(unknown[0] == msg);
        assert(now[before.len() as int] == msg);
    }
}

proof fn lemma_app_warned(apps: Seq<AppContents>, i: int, msg: Seq<char>)
    requires
        0 <= i < apps.len(),
        table_warnings(apps[i].id, apps[i].paths).contains(msg) || (trimmed(apps[i].id).len() == 0
            && msg == "app '"@ + apps[i].name + "' has empty id"@),
    ensures
        app_warnings(apps).contains(msg),
    decreases apps.len(),
{
    let rest = apps.drop_last();
    let a = apps.last();
    let before = app_warnings(rest);
    let no_id = if trimmed(a.id).len() == 0 {
        seq!["app '"@ + a.name + "' has empty id"@]
    } else {
        Seq::empty()
    };
    let own = table_warnings(a.id, a.paths);
    let now = app_warnings(apps);
    assert(now =~= before + no_id + own);
    if i < rest.len() {
        assert(rest[i] == apps[i]);
        lemma_app_warned(rest, i, msg);
        let j = choose|j: int| 0 <= j < before.len() && before[j] == msg;
        assert(now[j] == msg);
    } else if own.contains(msg) {
        let j = choose|j: int| 0 <= j < own.len() && own[j] == msg;
        assert(now[before.len() + no_id.len() + j] == msg);
    } else {
        assert(no_id[0] == msg);
        assert(now[before.len() as int] == msg);
    }
}

/// An app without an id, a key of no platform and a blank path are warned of, with the
/// app and the key.
pub proof fn faults_are_warned_of(apps: Seq<AppContents>, i: int, k: int, j: int)
    requires
        0 <= i < apps.len(),
    ensures
        blank(apps[i].id, 0, apps[i].id.len() as int) ==> config_warnings(apps).contains(
            "app '"@ + apps[i].name + "' has empty id"@,
        ),
        0 <= k < apps[i].paths.len() && Platform::of_key(apps[i].paths[k].0) is None
            ==> config_warnings(apps).contains(
            "app '"@ + apps[i].id + "': unknown platform key '"@ + apps[i].paths[k].0 + "'"@,
        ),
        0 <= k < apps[i].paths.len() && 0 <= j < apps[i].paths[k].1.len() && blank(
            apps[i].paths[k].1[j],
            0,
            apps[i].paths[k].1[j].len() as int,
        ) ==> config_warnings(apps).contains(
            "app '"@ + apps[i].id + "': empty path under '"@ + apps[i].paths[k].0 + "'"@,
        ),
{
    let a = apps[i];
    trimming_keeps_core(a.id);
    if blank(a.id, 0, a.id.len() as int) {
        lemma_app_warned(apps, i, "app '"@ + a.name + "' has empty id"@);
    }
    if 0 <= k < a.paths.len() {
        let (key, paths) = a.paths[k];
        if Platform::of_key(key) is None {
            let msg = "app '"@ + a.id + "': unknown platform key '"@ + key + "'"@;
            lemma_table_warned(a.id, a.paths, k, msg);
            lemma_app_warned(apps, i, msg);
        }
        if 0 <= j < paths.len() && blank(paths[j], 0, paths[j].len() as int) {
            let msg = "app '"@ + a.id + "': empty path under '"@ + key + "'"@;
            lemma_path_warned(a.id, key, paths, j);
            lemma_table_warned(a.id, a.paths, k, msg);
            lemma_app_warned(apps, i, msg);
        }
    }
}

/// The configuration is kept in a directory of its own: on Windows in that of the
/// settings of programs, or the home directory where there is none; elsewhere always
/// in the home directory, with a dot before its name.
pub proof fn config_lies_in_its_directory(
    p: Platform,
    config_dir: Option<Seq<char>>,
    home: Seq<char>,
)
    requires
        is_firm(p, home),
        config_dir matches Some(d) ==> is_firm(p, d),
    ensures
        ({
            let at = default_location(p, config_dir, Some(home));
            let top = if p is Windows && config_dir is Some {
                config_dir->0
            } else {
                home
            };
            let name = if p is Windows {
                "backup_tool"@
            } else {
                ".backup_tool"@
            };
            components(p, at) == components(p, top).push(name).push("config.json"@)
        }),
{
    reveal_strlit("backup_tool");
    reveal_strlit(".backup_tool");
    reveal_strlit("config.json");
    reveal(prefix_len);
    let top = if p is Windows && config_dir is Some {
        config_dir->0
    } else {
        home
    };
    let name = if p is Windows {
        "backup_tool"@
    } else {
        ".backup_tool"@
    };
    lemma_config_names(p);
    join_adds_component(p, top, name);
    join_adds_component(p, join(p, top, name), "config.json"@);
}

proof fn lemma_config_names(p: Platform)
    ensures
        is_plain_name(p, "backup_tool"@),
        is_plain_name(p, ".backup_tool"@),
        is_plain_name(p, "config.json"@),
{
    reveal_strlit("backup_tool");
    reveal_strlit(".backup_tool");
    reveal_strlit("config.json");
    reveal(prefix_len);
    let a = "backup_tool"@;
    let b = ".backup_tool"@;
    let c = "config.json"@;
    assert(a.len() == 11 && b.len() == 12 && c.len() == 11);
    assert(a[0] == 'b' && a[1] == 'a');
    assert(b[0] == '.' && b[1] == 'b');
    assert(c[0] == 'c' && c[1] == 'o');
    assert forall|i: int| 0 <= i < a.len() implies !is_sep(p, #[trigger] a[i]) by {}
    assert forall|i: int| 0 <= i < b.len() implies !is_sep(p, #[trigger] b[i]) by {}
    assert forall|i: int| 0 <= i < c.len() implies !is_sep(p, #[trigger] c[i]) by {}
    assert(seq!['.'].len() == 1 && seq!['.', '.'].len() == 2);
}

/// What is told of an error ends with what it is about.
pub proof fn error_words_end_with_cause(why: Seq<char>)
    ensures
        ends_in(ErrorContents::Io(why).words(), why),
        ends_in(ErrorContents::Json(why).words(), why),
        ends_in(ErrorContents::DestVar { var: why }.words(), why),
        ends_in(ErrorContents::DestSyntax { raw: why }.words(), why),
{
    ends_in_what_is_put_behind("cannot read config file: "@, why);
    ends_in_what_is_put_behind("invalid config JSON: "@, why);
    ends_in_what_is_put_behind("backup dest variable not defined: "@, why);
    ends_in_what_is_put_behind("backup dest uses foreign-platform syntax: "@, why);
}

/// Removing an app leaves the others in their order.
pub proof fn removal_keeps_app_order(
    c: ConfigContents,
    more: ConfigContents,
    a: AppContents,
    id: Seq<char>,
)
    requires
        more.apps == c.apps.push(a),
    ensures
        without_app(more, id).apps == if a.id == id {
            without_app(c, id).apps
        } else {
            without_app(c, id).apps.push(a)
        },
        without_app(c, id).version == c.version,
        without_app(c, id).backup == c.backup,
        without_app(c, id).source == c.source,
{
    reveal(Seq::filter);
    assert(c.apps.push(a).drop_last() =~= c.apps);
}

/// The settings that are proposed put backups into a directory below the home
/// directory: elsewhere than on Windows that of `HOME`.
pub proof fn proposed_destination_is_below_home(
    p: Platform,
    env: EnvView,
    home: Seq<char>,
    base: Option<Seq<char>>,
)
    requires
        !(p is Windows),
        lookup(env.vars, "HOME"@) == Some(home),
        home.len() > 0,
        home[0] == '/',
        !home.contains('%'),
        !home.contains('$'),
        !home.contains('~'),
    ensures
        resolved(p, env, proposed_dest(p), base) == (PathView::Resolved {
            path: home + "/backups"@,
        }),
{
    reveal_strlit("~/backups");
    reveal_strlit("/backups");
    let raw = "~/backups"@;
    let tail = seq!['b', 'a', 'c', 'k', 'u', 'p', 's'];
    let end = home + "/backups"@;
    assert(raw =~= seq!['~', '/'] + tail);
    assert(end =~= home + seq!['/'] + tail);
    assert(raw.len() == 9 && raw[0] == '~' && raw.last() == 's');
    trimming_undoes_padding(raw, Seq::empty(), Seq::empty());
    home_is_put_in_front(p, env.vars, tail);
    assert(end[0] == '/');
    assert forall|c: char| end.contains(c) implies c != '%' && c != '$' && c != '~' by {
        let i = choose|i: int| 0 <= i < end.len() && end[i] == c;
        if i < home.len() {
            assert(home[i] == c);
            assert(home.contains(c));
        } else {
            assert(end[i] == "/backups"@[i - home.len()]);
        }
    }
    plain_text_holds_no_variable(p, end);
    text_without_variables_is_kept(p, env.vars, end);
    let others = seq!['/'] + tail;
    assert(raw =~= seq!['~'] + others);
    assert forall|i: int| 0 <= i < raw.len() implies raw[i] != '%' by {}
    assert(!raw.contains('%'));
    doubled_percent_is_kept(env.vars, raw, Seq::empty(), Seq::empty());
    joining_on_unix(p, Seq::empty(), end);
}

/// The settings that are proposed are those where a configuration holds none, but for
/// the destination and for rules that leave out what systems put into directories.
pub proof fn proposed_settings_are_the_defaults(p: Platform)
    ensures
        ({
            let s = proposed_settings(p);
            let d = default_contents();
            &&& s.format == d.format && d.format == Format::Zip
            &&& s.parallel == d.parallel && d.parallel == 2
            &&& s.retention == d.retention && d.retention == 10
            &&& s.cleanup == d.cleanup && d.cleanup == CleanupMode::AfterEach
            &&& s.checksum == d.checksum && d.checksum
            &&& s.excludes.len() == 2 && d.excludes.len() == 0
            &&& !(p is Windows) ==> s.dest == d.dest
        }),
{
}

/// The contents of a configuration are what stands in it.
pub proof fn config_contents_are_exact(c: Config, i: int)
    ensures
        c@.version == c.version,
        c@.source == opt_text(c.source),
        c@.backup.dest == c.backup.dest@,
        c@.backup.format == c.backup.format,
        c@.backup.parallel == c.backup.parallel,
        c@.backup.retention == c.backup.retention,
        c@.backup.cleanup == c.backup.cleanup,
        c@.backup.checksum == c.backup.checksum,
        c@.backup.excludes == texts(c.backup.excludes@),
        c@.apps.len() == c.apps@.len(),
        0 <= i < c.apps@.len() ==> c@.apps[i].id == c.apps@[i].id@ && c@.apps[i].name
            == c.apps@[i].name@ && c@.apps[i].enabled == c.apps@[i].enabled && c@.apps[i].compress
            == c.apps@[i].compress && c@.apps[i].excludes == texts(c.apps@[i].excludes@)
            && c@.apps[i].paths == c.apps@[i].paths@,
{
}

} // verus!
