//! The summary that is kept beside each backup.
//!
//! After every successful backup a `<archive-name>.summary.json` file is
//! written next to the archive itself. It records how the archive was built and
//! where each root should be restored, so that the archive describes itself
//! even where `history.json` is lost or corrupted.

use crate::paths::{
    components, file_name, is_firm, is_plain_name, is_sep, join, join_adds_component,
    path_file_name, path_with_name, prefix_len, renamed_path_stays_beside, with_name,
};
use crate::platform::Platform;
use crate::text::{cat, texts};
use vstd::prelude::*;

verus! {

#[derive(Debug, Clone)]
pub struct ChecksumInfo {
    pub algorithm: String,
    pub digest: String,
}

#[derive(Debug, Clone)]
pub struct BackupPathInfo {
    /// Raw path as written in the config.
    pub raw: String,
    /// Resolved absolute path (empty when an environment variable was undefined).
    pub resolved: String,
    /// Whether the path existed and was actually archived.
    pub existed: bool,
    /// Root prefix used inside the archive for this path.
    pub archive_root: String,
    /// Where this root should be restored (original location).
    pub restore_to: String,
}

#[derive(Debug, Clone)]
pub struct BackupSummary {
    pub version: u32,
    pub app_id: String,
    pub app_name: String,
    pub platform: String,
    pub archive: String,
    pub format: String,
    pub size: u64,
    pub files: u64,
    pub bytes_total: u64,
    pub started_at: String,
    pub finished_at: String,
    pub checksum: Option<ChecksumInfo>,
    pub status: String,
    pub excludes: Vec<String>,
    pub paths: Vec<BackupPathInfo>,
}

/// The contents of a [`ChecksumInfo`].
#[verifier::ext_equal]
pub struct ChecksumView {
    pub algorithm: Seq<char>,
    pub digest: Seq<char>,
}

impl View for ChecksumInfo {
    type V = ChecksumView;

    open spec fn view(&self) -> ChecksumView {
        ChecksumView { algorithm: self.algorithm@, digest: self.digest@ }
    }
}

/// The contents of an optional [`ChecksumInfo`].
pub open spec fn checksum_view(c: Option<ChecksumInfo>) -> Option<ChecksumView> {
    match c {
        Some(info) => Some(info@),
        None => None,
    }
}

/// The contents of a [`BackupPathInfo`].
#[verifier::ext_equal]
pub struct PathInfoView {
    pub raw: Seq<char>,
    pub resolved: Seq<char>,
    pub existed: bool,
    pub archive_root: Seq<char>,
    pub restore_to: Seq<char>,
}

impl View for BackupPathInfo {
    type V = PathInfoView;

    open spec fn view(&self) -> PathInfoView {
        PathInfoView {
            raw: self.raw@,
            resolved: self.resolved@,
            existed: self.existed,
            archive_root: self.archive_root@,
            restore_to: self.restore_to@,
        }
    }
}

/// The contents of each [`BackupPathInfo`].
pub open spec fn path_infos(list: Seq<BackupPathInfo>) -> Seq<PathInfoView> {
    list.map_values(|i: BackupPathInfo| i@)
}

/// The contents of a [`BackupSummary`].
#[verifier::ext_equal]
pub struct SummaryView {
    pub version: u32,
    pub app_id: Seq<char>,
    pub app_name: Seq<char>,
    pub platform: Seq<char>,
    pub archive: Seq<char>,
    pub format: Seq<char>,
    pub size: u64,
    pub files: u64,
    pub bytes_total: u64,
    pub started_at: Seq<char>,
    pub finished_at: Seq<char>,
    pub checksum: Option<ChecksumView>,
    pub status: Seq<char>,
    pub excludes: Seq<Seq<char>>,
    pub paths: Seq<PathInfoView>,
}

impl View for BackupSummary {
    type V = SummaryView;

    open spec fn view(&self) -> SummaryView {
        SummaryView {
            version: self.version,
            app_id: self.app_id@,
            app_name: self.app_name@,
            platform: self.platform@,
            archive: self.archive@,
            format: self.format@,
            size: self.size,
            files: self.files,
            bytes_total: self.bytes_total,
            started_at: self.started_at@,
            finished_at: self.finished_at@,
            checksum: checksum_view(self.checksum),
            status: self.status@,
            excludes: texts(self.excludes@),
            paths: path_infos(self.paths@),
        }
    }
}

/// The name of a path, or nothing where it has none.
pub open spec fn name_or_empty(p: Platform, path: Seq<char>) -> Seq<char> {
    match file_name(p, path) {
        Some(name) => name,
        None => Seq::empty(),
    }
}

/// The name of a path, or nothing where it has none.
pub fn file_name_text(platform: Platform, path: &str) -> (r: String)
    ensures
        r@ == name_or_empty(platform, path@),
{
    match path_file_name(platform, path) {
        Some(name) => name,
        None => {
            let r = String::new();
            assert(r@ =~= Seq::empty());
            r
        },
    }
}

/// The path beside `path` whose name has `tail` at its end.
pub open spec fn beside(p: Platform, path: Seq<char>, tail: Seq<char>) -> Seq<char> {
    with_name(p, path, name_or_empty(p, path) + tail)
}

/// The path beside `path` whose name has `tail` at its end.
pub fn path_beside(platform: Platform, path: &str, tail: &str) -> (r: String)
    ensures
        r@ == beside(platform, path@, tail@),
{
    let name = file_name_text(platform, path);
    let with_tail = cat(name.as_str(), tail);
    path_with_name(platform, path, with_tail.as_str())
}

/// Sidecar path for an archive, e.g. `a.zip` -> `a.zip.summary.json`.
pub fn summary_path_for(archive: &str, platform: Platform) -> (r: String)
    ensures
        r@ == beside(platform, archive@, ".summary.json"@),
{
    path_beside(platform, archive, ".summary.json")
}

/// Where the sidecar of an archive is written before it takes its place.
pub fn summary_tmp_path_for(archive: &str, platform: Platform) -> (r: String)
    ensures
        r@ == beside(platform, beside(platform, archive@, ".summary.json"@), ".tmp"@),
{
    let path = summary_path_for(archive, platform);
    path_beside(platform, path.as_str(), ".tmp")
}

// ---------------------------------------------------------------------------
// Laws
// ---------------------------------------------------------------------------

/// A plain name stays one with more behind it.
pub proof fn longer_name_is_plain(p: Platform, name: Seq<char>, tail: Seq<char>)
    requires
        is_plain_name(p, name),
        tail.len() >= 2,
        tail[0] != ':',
        forall|i: int| 0 <= i < tail.len() ==> !is_sep(p, #[trigger] tail[i]),
    ensures
        is_plain_name(p, name + tail),
{
    let s = name + tail;
    reveal(prefix_len);
    assert forall|i: int| 0 <= i < s.len() implies !is_sep(p, #[trigger] s[i]) by {
        if i < name.len() {
            assert(s[i] == name[i]);
        } else {
            assert(s[i] == tail[i - name.len()]);
        }
    }
    assert(!is_sep(p, s[0]));
    assert(s.len() >= 3);
    if name.len() == 1 {
        assert(s[1] == tail[0]);
    } else {
        assert(s[1] == name[1]);
    }
}

/// The summary of a backup lies in the same directory, under the name of the
/// backup with `.summary.json` behind it.
pub proof fn summary_lies_beside(p: Platform, dir: Seq<char>, name: Seq<char>)
    requires
        is_firm(p, dir),
        is_plain_name(p, name),
    ensures
        components(p, beside(p, join(p, dir, name), ".summary.json"@)) == components(p, dir).push(
            name + ".summary.json"@,
        ),
        file_name(p, beside(p, join(p, dir, name), ".summary.json"@)) == Some(
            name + ".summary.json"@,
        ),
{
    reveal_strlit(".summary.json");
    join_adds_component(p, dir, name);
    longer_name_is_plain(p, name, ".summary.json"@);
    renamed_path_stays_beside(p, dir, name, name + ".summary.json"@);
}

/// The contents of a summary are what stands in it.
pub proof fn summary_contents_are_exact(s: BackupSummary, i: int)
    ensures
        s@.version == s.version,
        s@.app_id == s.app_id@,
        s@.app_name == s.app_name@,
        s@.platform == s.platform@,
        s@.archive == s.archive@,
        s@.format == s.format@,
        s@.size == s.size,
        s@.files == s.files,
        s@.bytes_total == s.bytes_total,
        s@.started_at == s.started_at@,
        s@.finished_at == s.finished_at@,
        s@.status == s.status@,
        s@.checksum is Some == s.checksum is Some,
        s.checksum matches Some(c) ==> s@.checksum->0.digest == c.digest@
            && s@.checksum->0.algorithm == c.algorithm@,
        s@.excludes == texts(s.excludes@),
        s@.paths.len() == s.paths@.len(),
        0 <= i < s.paths@.len() ==> s@.paths[i].raw == s.paths@[i].raw@ && s@.paths[i].resolved
            == s.paths@[i].resolved@ && s@.paths[i].existed == s.paths@[i].existed
            && s@.paths[i].archive_root == s.paths@[i].archive_root@ && s@.paths[i].restore_to
            == s.paths@[i].restore_to@,
{
}

} // verus!
