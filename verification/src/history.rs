//! The index of backups.

use crate::config::Format;
use crate::paths::{join, path_join};
use crate::platform::Platform;
use crate::summary::{BackupSummary, SummaryView};
use crate::text::{
    before, before_asymmetric, before_total, before_transitive, clone_opt, ends_in, ends_with, is_before,
    opt_text, same,
};
use vstd::prelude::*;

verus! {

#[derive(Debug)]
pub struct HistoryEntry {
    pub app_id: String,
    pub file: String,
    pub format: String,
    pub size: u64,
    pub files: u64,
    pub bytes_total: u64,
    pub started_at: String,
    pub finished_at: String,
    pub checksum: Option<String>,
    pub status: String,
}

/// The contents of a [`HistoryEntry`].
#[verifier::ext_equal]
pub struct EntryView {
    pub app_id: Seq<char>,
    pub file: Seq<char>,
    pub format: Seq<char>,
    pub size: u64,
    pub files: u64,
    pub bytes_total: u64,
    pub started_at: Seq<char>,
    pub finished_at: Seq<char>,
    pub checksum: Option<Seq<char>>,
    pub status: Seq<char>,
}

impl View for HistoryEntry {
    type V = EntryView;

    open spec fn view(&self) -> EntryView {
        EntryView {
            app_id: self.app_id@,
            file: self.file@,
            format: self.format@,
            size: self.size,
            files: self.files,
            bytes_total: self.bytes_total,
            started_at: self.started_at@,
            finished_at: self.finished_at@,
            checksum: opt_text(self.checksum),
            status: self.status@,
        }
    }
}

impl Clone for HistoryEntry {
    fn clone(&self) -> (r: HistoryEntry)
        ensures
            r@ == self@,
    {
        HistoryEntry {
            app_id: self.app_id.clone(),
            file: self.file.clone(),
            format: self.format.clone(),
            size: self.size,
            files: self.files,
            bytes_total: self.bytes_total,
            started_at: self.started_at.clone(),
            finished_at: self.finished_at.clone(),
            checksum: clone_opt(&self.checksum),
            status: self.status.clone(),
        }
    }
}

/// The contents of each entry.
pub open spec fn entry_list(entries: Seq<HistoryEntry>) -> Seq<EntryView> {
    entries.map_values(|e: HistoryEntry| e@)
}

#[derive(Debug)]
pub struct History {
    pub version: u32,
    pub entries: Vec<HistoryEntry>,
}

/// The contents of a [`History`].
#[verifier::ext_equal]
pub struct HistoryContents {
    pub version: u32,
    pub entries: Seq<EntryView>,
}

impl View for History {
    type V = HistoryContents;

    open spec fn view(&self) -> HistoryContents {
        HistoryContents { version: self.version, entries: entry_list(self.entries@) }
    }
}

impl Default for History {
    fn default() -> (r: History)
        ensures
            r@ == (HistoryContents { version: 0, entries: Seq::empty() }),
    {
        let r = History { version: 0, entries: Vec::new() };
        assert(r@.entries =~= Seq::empty());
        r
    }
}

/// The version of an index that does not name one.
pub fn default_version() -> (r: u32)
    ensures
        r == 1,
{
    1
}

/// The entries of one app, in order.
pub open spec fn of_app(entries: Seq<EntryView>, app_id: Seq<char>) -> Seq<EntryView> {
    entries.filter(|e: EntryView| e.app_id == app_id)
}

impl History {
    /// The entries of one app, in order.
    pub fn entries_for(&self, app_id: &str) -> (r: Vec<&HistoryEntry>)
        ensures
            r@.map_values(|e: &HistoryEntry| e@) == of_app(self@.entries, app_id@),
    {
        let ghost all = self@.entries;
        let ghost view = |e: &HistoryEntry| e@;
        let ghost wanted = |e: EntryView| e.app_id == app_id@;
        let mut r: Vec<&HistoryEntry> = Vec::new();
        let mut i: usize = 0;
        proof {
            reveal(Seq::filter);
            assert(r@.map_values(view) =~= all.take(0).filter(wanted));
        }
        while i < self.entries.len()
            invariant
                i <= self.entries@.len(),
                all == self@.entries,
                view == (|e: &HistoryEntry| e@),
                wanted == (|e: EntryView| e.app_id == app_id@),
                r@.map_values(view) == all.take(i as int).filter(wanted),
            decreases self.entries@.len() - i,
        {
            let ghost so_far = r@;
            proof {
                reveal(Seq::filter);
                assert(all.take(i + 1).drop_last() =~= all.take(i as int));
                assert(all.take(i + 1).last() == self.entries@[i as int]@);
            }
            if same(self.entries[i].app_id.as_str(), app_id) {
                r.push(&self.entries[i]);
                assert(r@.map_values(view) =~= so_far.map_values(view).push(
                    self.entries@[i as int]@,
                ));
            }
            i = i + 1;
        }
        assert(all.take(i as int) =~= all);
        r
    }
}

/// Where the index of the backups in `dest` is kept.
pub fn history_path(dest: &str, platform: Platform) -> (r: String)
    ensures
        r@ == join(platform, dest@, "history.json"@),
{
    path_join(platform, dest, "history.json")
}

/// Where the index is written before it takes its place.
pub fn history_tmp_path(dest: &str, platform: Platform) -> (r: String)
    ensures
        r@ == join(platform, dest@, "history.json.tmp"@),
{
    path_join(platform, dest, "history.json.tmp")
}

// ---------------------------------------------------------------------------
// Order
// ---------------------------------------------------------------------------

/// `list` with `e` put in before the first entry whose file comes before its
/// own.
pub open spec fn put_in(list: Seq<EntryView>, e: EntryView) -> Seq<EntryView>
    decreases list.len(),
{
    if list.len() == 0 {
        seq![e]
    } else if before(list[0].file, e.file) {
        seq![e] + list
    } else {
        seq![list[0]] + put_in(list.skip(1), e)
    }
}

/// The entries from the last file name to the first; those with the same name
/// keep their order.
pub open spec fn newest_first(entries: Seq<EntryView>) -> Seq<EntryView>
    decreases entries.len(),
{
    if entries.len() == 0 {
        Seq::empty()
    } else {
        put_in(newest_first(entries.drop_last()), entries.last())
    }
}

fn insert_entry(list: &mut Vec<HistoryEntry>, e: HistoryEntry)
    ensures
        entry_list(final(list)@) == put_in(entry_list(old(list)@), e@),
{
    let ghost all = entry_list(list@);
    let ghost new = e@;
    let mut i: usize = 0;
    proof {
        assert(all.skip(0) =~= all);
        assert(all.take(0) + put_in(all, new) =~= put_in(all, new));
    }
    while i < list.len() && !is_before(list[i].file.as_str(), e.file.as_str())
        invariant
            i <= list@.len(),
            list@ == old(list)@,
            all == entry_list(old(list)@),
            new == e@,
            put_in(all, new) == all.take(i as int) + put_in(all.skip(i as int), new),
        decreases list@.len() - i,
    {
        proof {
            assert(all.skip(i as int)[0] == list@[i as int]@);
            assert(all.skip(i as int).skip(1) =~= all.skip(i + 1));
            assert(all.take(i as int) + (seq![all[i as int]] + put_in(all.skip(i + 1), new))
                =~= all.take(i + 1) + put_in(all.skip(i + 1), new));
        }
        i = i + 1;
    }
    proof {
        if i < list@.len() {
            assert(all.skip(i as int)[0] == list@[i as int]@);
        } else {
            assert(all.skip(i as int) =~= Seq::empty());
        }
    }
    list.insert(i, e);
    assert(entry_list(list@) =~= all.take(i as int) + (seq![new] + all.skip(i as int)));
    assert(seq![new] + Seq::<EntryView>::empty() =~= seq![new]);
}

/// The entries from the last file name to the first; those with the same name
/// keep their order.
pub fn sort_entries(entries: Vec<HistoryEntry>) -> (r: Vec<HistoryEntry>)
    ensures
        entry_list(r@) == newest_first(entry_list(entries@)),
{
    let ghost all = entry_list(entries@);
    let mut r: Vec<HistoryEntry> = Vec::new();
    let mut i: usize = 0;
    assert(entry_list(r@) =~= newest_first(all.take(0)));
    while i < entries.len()
        invariant
            i <= entries@.len(),
            all == entry_list(entries@),
            entry_list(r@) == newest_first(all.take(i as int)),
        decreases entries@.len() - i,
    {
        proof {
            assert(all.take(i + 1).drop_last() =~= all.take(i as int));
            assert(all.take(i + 1).last() == entries@[i as int]@);
        }
        insert_entry(&mut r, entries[i].clone());
        i = i + 1;
    }
    assert(all.take(i as int) =~= all);
    r
}

// ---------------------------------------------------------------------------
// Changing the index
// ---------------------------------------------------------------------------

/// The entries but those for the given file of the given app.
pub open spec fn without_file(
    entries: Seq<EntryView>,
    app_id: Seq<char>,
    file: Seq<char>,
) -> Seq<EntryView> {
    entries.filter(|e: EntryView| e.file != file || e.app_id != app_id)
}

/// The index with `entry` in the place of what it held for the same file.
pub open spec fn with_entry(h: HistoryContents, entry: EntryView) -> HistoryContents {
    HistoryContents {
        entries: newest_first(without_file(h.entries, entry.app_id, entry.file).push(entry)),
        ..h
    }
}

fn drop_file(entries: &Vec<HistoryEntry>, app_id: &str, file: &str) -> (r: Vec<HistoryEntry>)
    ensures
        entry_list(r@) == without_file(entry_list(entries@), app_id@, file@),
{
    let ghost all = entry_list(entries@);
    let ghost keep = |e: EntryView| e.file != file@ || e.app_id != app_id@;
    let mut r: Vec<HistoryEntry> = Vec::new();
    let mut i: usize = 0;
    proof {
        reveal(Seq::filter);
        assert(entry_list(r@) =~= all.take(0).filter(keep));
    }
    while i < entries.len()
        invariant
            i <= entries@.len(),
            all == entry_list(entries@),
            keep == (|e: EntryView| e.file != file@ || e.app_id != app_id@),
            entry_list(r@) == all.take(i as int).filter(keep),
        decreases entries@.len() - i,
    {
        let ghost so_far = r@;
        proof {
            reveal(Seq::filter);
            assert(all.take(i + 1).drop_last() =~= all.take(i as int));
            assert(all.take(i + 1).last() == entries@[i as int]@);
        }
        if !same(entries[i].file.as_str(), file) || !same(entries[i].app_id.as_str(), app_id) {
            r.push(entries[i].clone());
            assert(entry_list(r@) =~= entry_list(so_far).push(entries@[i as int]@));
        }
        i = i + 1;
    }
    assert(all.take(i as int) =~= all);
    r
}

/// How many entries an app has.
pub open spec fn count_of(entries: Seq<EntryView>, app_id: Seq<char>) -> nat
    decreases entries.len(),
{
    if entries.len() == 0 {
        0
    } else {
        count_of(entries.drop_last(), app_id) + if entries.last().app_id == app_id {
            1nat
        } else {
            0nat
        }
    }
}

/// How many of the first `n` numbers have a property.
pub open spec fn how_many(has: spec_fn(int) -> bool, n: nat) -> nat
    decreases n,
{
    if n == 0 {
        0
    } else {
        how_many(has, (n - 1) as nat) + if has(n - 1) {
            1nat
        } else {
            0nat
        }
    }
}

/// Whether the entry at `j` is newer than that at `i` of the same app: its file
/// name comes later, or is the same and stands before it.
pub open spec fn is_newer(entries: Seq<EntryView>, j: int, i: int) -> bool {
    entries[j].app_id == entries[i].app_id && (before(entries[i].file, entries[j].file) || (
    entries[j].file == entries[i].file && j < i))
}

/// How many entries of the same app are newer than the one at `i`.
pub open spec fn newer_count(entries: Seq<EntryView>, i: int) -> nat {
    how_many(|j: int| is_newer(entries, j, i), entries.len())
}

/// Whether the entry at `i` is one of the newest `keep` of its app.
pub open spec fn stays(entries: Seq<EntryView>, keep: nat, i: int) -> bool {
    newer_count(entries, i) < keep
}

/// Those of the first `n` entries that stay, in order.
pub open spec fn retained_of(entries: Seq<EntryView>, keep: nat, n: nat) -> Seq<EntryView>
    decreases n,
{
    if n == 0 {
        Seq::empty()
    } else {
        let rest = retained_of(entries, keep, (n - 1) as nat);
        if stays(entries, keep, n - 1) {
            rest.push(entries[n - 1])
        } else {
            rest
        }
    }
}

/// App and file of each of the first `n` entries that go, in order.
pub open spec fn dropped_of(entries: Seq<EntryView>, keep: nat, n: nat) -> Seq<
    (Seq<char>, Seq<char>),
>
    decreases n,
{
    if n == 0 {
        Seq::empty()
    } else {
        let rest = dropped_of(entries, keep, (n - 1) as nat);
        if stays(entries, keep, n - 1) {
            rest
        } else {
            rest.push((entries[n - 1].app_id, entries[n - 1].file))
        }
    }
}

/// The newest `keep` entries of each app, in the order of the index.
pub open spec fn retained(entries: Seq<EntryView>, keep: nat) -> Seq<EntryView> {
    retained_of(entries, keep, entries.len())
}

/// App and file of each other entry, in the order of the index.
pub open spec fn dropped(entries: Seq<EntryView>, keep: nat) -> Seq<(Seq<char>, Seq<char>)> {
    dropped_of(entries, keep, entries.len())
}

/// The contents of each pair.
pub open spec fn pair_list(pairs: Seq<(String, String)>) -> Seq<(Seq<char>, Seq<char>)> {
    pairs.map_values(|p: (String, String)| (p.0@, p.1@))
}

fn count_newer(entries: &Vec<HistoryEntry>, i: usize) -> (r: usize)
    requires
        i < entries@.len(),
    ensures
        r == newer_count(entry_list(entries@), i as int),
{
    let ghost all = entry_list(entries@);
    let ghost newer = |j: int| is_newer(all, j, i as int);
    let app_id = entries[i].app_id.as_str();
    let file = entries[i].file.as_str();
    let mut count: usize = 0;
    let mut j: usize = 0;
    while j < entries.len()
        invariant
            i < entries@.len(),
            j <= entries@.len(),
            all == entry_list(entries@),
            app_id@ == all[i as int].app_id,
            file@ == all[i as int].file,
            newer == (|j: int| is_newer(all, j, i as int)),
            count == how_many(newer, j as nat),
            count <= j,
        decreases entries@.len() - j,
    {
        let e = &entries[j];
        assert(all[j as int] == e@);
        if same(e.app_id.as_str(), app_id) && (is_before(file, e.file.as_str()) || (j < i && same(
            e.file.as_str(),
            file,
        ))) {
            count = count + 1;
        }
        j = j + 1;
    }
    count
}

/// Apply retention: keep the newest `keep` entries per app in the index, where
/// `keep` is not 0, whatever the order of the index. Returns the files that were removed so that callers can
/// delete them from disk.
pub fn apply_retention_index(history: &mut History, keep: usize) -> (r: Vec<(String, String)>)
    ensures
        keep == 0 ==> final(history)@ == old(history)@ && r@.len() == 0,
        keep > 0 ==> final(history)@ == (HistoryContents {
            entries: retained(old(history)@.entries, keep as nat),
            ..old(history)@
        }) && pair_list(r@) == dropped(old(history)@.entries, keep as nat),
{
    let mut removed: Vec<(String, String)> = Vec::new();
    if keep == 0 {
        return removed;
    }
    let ghost all = history@.entries;
    let mut kept: Vec<HistoryEntry> = Vec::new();
    let mut i: usize = 0;
    proof {
        assert(entry_list(kept@) =~= Seq::empty());
        assert(pair_list(removed@) =~= Seq::empty());
    }
    while i < history.entries.len()
        invariant
            i <= history.entries@.len(),
            history@ == old(history)@,
            all == history@.entries,
            entry_list(kept@) == retained_of(all, keep as nat, i as nat),
            pair_list(removed@) == dropped_of(all, keep as nat, i as nat),
        decreases history.entries@.len() - i,
    {
        let ghost kept_before = kept@;
        let ghost removed_before = removed@;
        let e = &history.entries[i];
        assert(all[i as int] == e@);
        let newer: usize = count_newer(&history.entries, i);
        if newer < keep {
            kept.push(e.clone());
            assert(entry_list(kept@) =~= entry_list(kept_before).push(e@));
        } else {
            removed.push((e.app_id.clone(), e.file.clone()));
            assert(pair_list(removed@) =~= pair_list(removed_before).push((e@.app_id, e@.file)));
        }
        i = i + 1;
    }
    assert(all.len() == history.entries@.len());
    history.entries = kept;
    removed
}

/// Makes the changes to an index. Those who share one file take turns.
#[derive(Debug, Clone, Copy, Default)]
pub struct HistoryWriter {}

impl HistoryWriter {
    pub fn new() -> HistoryWriter {
        HistoryWriter {  }
    }

    /// Puts an entry into the index, in the place of what it held for the same
    /// file. Other entries stay.
    pub fn append(&self, history: &mut History, entry: HistoryEntry)
        ensures
            final(history)@ == with_entry(old(history)@, entry@),
    {
        let ghost added = entry@;
        let mut list = drop_file(
            &history.entries,
            entry.app_id.as_str(),
            entry.file.as_str(),
        );
        let ghost rest = list@;
        list.push(entry);
        assert(entry_list(list@) =~= entry_list(rest).push(added));
        history.entries = sort_entries(list);
    }

    /// Removes the entry for a file of an app.
    pub fn remove(&self, history: &mut History, app_id: &str, file: &str)
        ensures
            final(history)@ == (HistoryContents {
                entries: without_file(old(history)@.entries, app_id@, file@),
                ..old(history)@
            }),
    {
        history.entries = drop_file(&history.entries, app_id, file);
    }

    /// Applies retention to the index. Returns app and file of each entry that
    /// was removed.
    pub fn apply_retention(&self, history: &mut History, keep: usize) -> (r: Vec<(String, String)>)
        ensures
            keep == 0 ==> final(history)@ == old(history)@ && r@.len() == 0,
            keep > 0 ==> final(history)@ == (HistoryContents {
                entries: retained(old(history)@.entries, keep as nat),
                ..old(history)@
            }) && pair_list(r@) == dropped(old(history)@.entries, keep as nat),
    {
        apply_retention_index(history, keep)
    }
}

// ---------------------------------------------------------------------------
// Rebuilding the index
// ---------------------------------------------------------------------------

/// Whether a file of this name is a backup: neither a summary nor unfinished,
/// and of a known format.
pub open spec fn archive_named(name: Seq<char>) -> bool {
    &&& !ends_in(name, ".summary.json"@)
    &&& !ends_in(name, ".tmp"@)
    &&& ends_in(name, ".zip"@) || ends_in(name, ".tar.gz"@) || ends_in(name, ".dir"@)
}

/// Whether a file of this name is a backup.
pub fn is_archive_name(name: &str) -> (r: bool)
    ensures
        r == archive_named(name@),
{
    !ends_with(name, ".summary.json") && !ends_with(name, ".tmp") && (ends_with(name, ".zip")
        || ends_with(name, ".tar.gz") || ends_with(name, ".dir"))
}

/// The format that the name of a backup tells.
pub open spec fn format_by_name(name: Seq<char>) -> Seq<char> {
    if ends_in(name, ".tar.gz"@) {
        "tar.gz"@
    } else if ends_in(name, ".zip"@) {
        "zip"@
    } else {
        "dir"@
    }
}

/// The format that the name of a backup tells.
pub fn guess_format(name: &str) -> (r: &'static str)
    ensures
        r@ == format_by_name(name@),
{
    if ends_with(name, ".tar.gz") {
        "tar.gz"
    } else if ends_with(name, ".zip") {
        "zip"
    } else {
        "dir"
    }
}

/// A file in the directory of an app.
#[derive(Debug, Clone)]
pub struct FoundFile {
    /// The name of the directory.
    pub app_dir: String,
    pub name: String,
    /// The size on disk, where it can be told.
    pub size: Option<u64>,
    /// The summary beside it, where there is one that can be read.
    pub summary: Option<BackupSummary>,
}

/// The contents of a [`FoundFile`].
#[verifier::ext_equal]
pub struct FoundView {
    pub app_dir: Seq<char>,
    pub name: Seq<char>,
    pub size: Option<u64>,
    pub summary: Option<SummaryView>,
}

impl View for FoundFile {
    type V = FoundView;

    open spec fn view(&self) -> FoundView {
        FoundView {
            app_dir: self.app_dir@,
            name: self.name@,
            size: self.size,
            summary: match self.summary {
                Some(s) => Some(s@),
                None => None,
            },
        }
    }
}

/// The contents of each file.
pub open spec fn found_list(found: Seq<FoundFile>) -> Seq<FoundView> {
    found.map_values(|f: FoundFile| f@)
}

/// The entry for a backup that was found. What its summary says goes first; a
/// backup without one is listed with what can be told from the disk.
pub open spec fn found_entry(f: FoundView) -> EntryView {
    match f.summary {
        Some(s) => EntryView {
            app_id: s.app_id,
            file: f.name,
            format: format_by_name(f.name),
            size: s.size,
            files: s.files,
            bytes_total: s.bytes_total,
            started_at: s.started_at,
            finished_at: s.finished_at,
            checksum: match s.checksum {
                Some(c) => Some(c.digest),
                None => None,
            },
            status: s.status,
        },
        None => EntryView {
            app_id: f.app_dir,
            file: f.name,
            format: format_by_name(f.name),
            size: match f.size {
                Some(n) => n,
                None => 0,
            },
            files: 0,
            bytes_total: 0,
            started_at: Seq::empty(),
            finished_at: Seq::empty(),
            checksum: None,
            status: "ok"@,
        },
    }
}

/// The entries for those of the found files that are backups, as found.
pub open spec fn found_entries(found: Seq<FoundView>) -> Seq<EntryView>
    decreases found.len(),
{
    if found.len() == 0 {
        Seq::empty()
    } else {
        let rest = found_entries(found.drop_last());
        if archive_named(found.last().name) {
            rest.push(found_entry(found.last()))
        } else {
            rest
        }
    }
}

/// The index of what was found.
pub open spec fn rebuilt(found: Seq<FoundView>) -> HistoryContents {
    HistoryContents { version: 1, entries: newest_first(found_entries(found)) }
}

fn entry_of_found(f: &FoundFile) -> (r: HistoryEntry)
    ensures
        r@ == found_entry(f@),
{
    let format = guess_format(f.name.as_str()).to_string();
    match &f.summary {
        Some(s) => HistoryEntry {
            app_id: s.app_id.clone(),
            file: f.name.clone(),
            format,
            size: s.size,
            files: s.files,
            bytes_total: s.bytes_total,
            started_at: s.started_at.clone(),
            finished_at: s.finished_at.clone(),
            checksum: match &s.checksum {
                Some(c) => Some(c.digest.clone()),
                None => None,
            },
            status: s.status.clone(),
        },
        None => {
            let started_at = String::new();
            let finished_at = String::new();
            assert(started_at@ =~= Seq::empty());
            assert(finished_at@ =~= Seq::empty());
            HistoryEntry {
                app_id: f.app_dir.clone(),
                file: f.name.clone(),
                format,
                size: match f.size {
                    Some(n) => n,
                    None => 0,
                },
                files: 0,
                bytes_total: 0,
                started_at,
                finished_at,
                checksum: None,
                status: "ok".to_string(),
            }
        },
    }
}

/// Rebuilds the index from the files in the directories of the apps.
pub fn rebuild_from_fs(found: &Vec<FoundFile>) -> (r: History)
    ensures
        r@ == rebuilt(found_list(found@)),
{
    let ghost all = found_list(found@);
    let mut entries: Vec<HistoryEntry> = Vec::new();
    let mut i: usize = 0;
    assert(entry_list(entries@) =~= found_entries(all.take(0)));
    while i < found.len()
        invariant
            i <= found@.len(),
            all == found_list(found@),
            entry_list(entries@) == found_entries(all.take(i as int)),
        decreases found@.len() - i,
    {
        let ghost so_far = entries@;
        proof {
            assert(all.take(i + 1).drop_last() =~= all.take(i as int));
            assert(all.take(i + 1).last() == found@[i as int]@);
        }
        if is_archive_name(found[i].name.as_str()) {
            entries.push(entry_of_found(&found[i]));
            assert(entry_list(entries@) =~= entry_list(so_far).push(found_entry(found@[i as int]@)));
        }
        i = i + 1;
    }
    assert(all.take(i as int) =~= all);
    History { version: 1, entries: sort_entries(entries) }
}

/// The index: as it is stored, or rebuilt from what was found where the stored
/// one is missing or corrupt.
pub fn load_history(stored: Option<History>, found: &Vec<FoundFile>) -> (r: History)
    ensures
        r@ == match stored {
            Some(h) => h@,
            None => rebuilt(found_list(found@)),
        },
{
    match stored {
        Some(h) => h,
        None => rebuild_from_fs(found),
    }
}

// ---------------------------------------------------------------------------
// Laws
// ---------------------------------------------------------------------------

/// Whether the file names never rise from one entry to a later one.
pub open spec fn is_newest_first(entries: Seq<EntryView>) -> bool {
    forall|i: int, j: int|
        0 <= i < j < entries.len() ==> !before((#[trigger] entries[i]).file, (
        #[trigger] entries[j]).file)
}

proof fn lemma_put_in(list: Seq<EntryView>, e: EntryView)
    ensures
        put_in(list, e).to_multiset() == list.to_multiset().insert(e),
        put_in(list, e).len() == list.len() + 1,
    decreases list.len(),
{
    broadcast use vstd::seq_lib::group_to_multiset_ensures;

    if list.len() == 0 {
        assert(seq![e] =~= Seq::<EntryView>::empty().push(e));
        assert(list =~= Seq::empty());
    } else if before(list[0].file, e.file) {
        vstd::seq_lib::lemma_multiset_commutative(seq![e], list);
        assert(seq![e] =~= Seq::<EntryView>::empty().push(e));
        assert(put_in(list, e).to_multiset() =~= list.to_multiset().insert(e));
    } else {
        lemma_put_in(list.skip(1), e);
        let head = seq![list[0]];
        assert(list =~= head + list.skip(1));
        vstd::seq_lib::lemma_multiset_commutative(head, list.skip(1));
        vstd::seq_lib::lemma_multiset_commutative(head, put_in(list.skip(1), e));
        assert(put_in(list, e).to_multiset() =~= list.to_multiset().insert(e));
    }
}

/// What stands in front after an entry was put in.
proof fn lemma_put_in_members(list: Seq<EntryView>, e: EntryView, i: int)
    requires
        0 <= i < put_in(list, e).len(),
    ensures
        put_in(list, e)[i] == e || list.contains(put_in(list, e)[i]),
    decreases list.len(),
{
    let n = put_in(list, e);
    if list.len() == 0 {
    } else if before(list[0].file, e.file) {
        if i > 0 {
            assert(n[i] == list[i - 1]);
        }
    } else if i > 0 {
        lemma_put_in_members(list.skip(1), e, i - 1);
        assert(n[i] == put_in(list.skip(1), e)[i - 1]);
        if n[i] != e {
            let k = choose|k: int| 0 <= k < list.skip(1).len() && list.skip(1)[k] == n[i];
            assert(list[k + 1] == n[i]);
        }
    } else {
        assert(n[0] == list[0]);
    }
}

proof fn lemma_put_in_sorted(list: Seq<EntryView>, e: EntryView)
    requires
        is_newest_first(list),
    ensures
        is_newest_first(put_in(list, e)),
    decreases list.len(),
{
    let n = put_in(list, e);
    if list.len() == 0 {
    } else if before(list[0].file, e.file) {
        assert forall|i: int, j: int| 0 <= i < j < n.len() implies !before(
            (#[trigger] n[i]).file,
            (#[trigger] n[j]).file,
        ) by {
            assert(n[j] == list[j - 1]);
            if i == 0 {
                if before(e.file, list[j - 1].file) {
                    before_transitive(list[0].file, e.file, list[j - 1].file);
                    if j == 1 {
                        before_asymmetric(list[0].file, e.file);
                    }
                }
            } else {
                assert(n[i] == list[i - 1]);
            }
        }
    } else {
        let rest = list.skip(1);
        assert forall|i: int, j: int| 0 <= i < j < rest.len() implies !before(
            (#[trigger] rest[i]).file,
            (#[trigger] rest[j]).file,
        ) by {
            assert(rest[i] == list[i + 1] && rest[j] == list[j + 1]);
        }
        lemma_put_in_sorted(rest, e);
        let m = put_in(rest, e);
        assert forall|i: int, j: int| 0 <= i < j < n.len() implies !before(
            (#[trigger] n[i]).file,
            (#[trigger] n[j]).file,
        ) by {
            assert(n[j] == m[j - 1]);
            if i > 0 {
                assert(n[i] == m[i - 1]);
            } else {
                lemma_put_in_members(rest, e, j - 1);
                if m[j - 1] != e {
                    let k = choose|k: int| 0 <= k < rest.len() && rest[k] == m[j - 1];
                    assert(list[k + 1] == m[j - 1]);
                    assert(n[0] == list[0]);
                }
            }
        }
    }
}

/// Sorting orders the entries and neither adds nor loses one.
pub proof fn newest_first_sorts(entries: Seq<EntryView>)
    ensures
        is_newest_first(newest_first(entries)),
        newest_first(entries).to_multiset() == entries.to_multiset(),
        newest_first(entries).len() == entries.len(),
    decreases entries.len(),
{
    broadcast use vstd::seq_lib::group_to_multiset_ensures;

    if entries.len() > 0 {
        let rest = entries.drop_last();
        newest_first_sorts(rest);
        lemma_put_in(newest_first(rest), entries.last());
        lemma_put_in_sorted(newest_first(rest), entries.last());
        assert(entries =~= rest.push(entries.last()));
    } else {
        assert(newest_first(entries) =~= entries);
    }
}

proof fn lemma_put_last(list: Seq<EntryView>, e: EntryView)
    requires
        forall|i: int| 0 <= i < list.len() ==> !before((#[trigger] list[i]).file, e.file),
    ensures
        put_in(list, e) == list.push(e),
    decreases list.len(),
{
    if list.len() == 0 {
        assert(list.push(e) =~= seq![e]);
    } else {
        let rest = list.skip(1);
        assert forall|i: int| 0 <= i < rest.len() implies !before(
            (#[trigger] rest[i]).file,
            e.file,
        ) by {
            assert(rest[i] == list[i + 1]);
        }
        lemma_put_last(rest, e);
        assert(seq![list[0]] + rest.push(e) =~= list.push(e));
    }
}

/// Entries that are in order stay where they are.
pub proof fn sorted_entries_stay(entries: Seq<EntryView>)
    requires
        is_newest_first(entries),
    ensures
        newest_first(entries) == entries,
    decreases entries.len(),
{
    if entries.len() > 0 {
        let rest = entries.drop_last();
        assert forall|i: int, j: int| 0 <= i < j < rest.len() implies !before(
            (#[trigger] rest[i]).file,
            (#[trigger] rest[j]).file,
        ) by {
            assert(rest[i] == entries[i] && rest[j] == entries[j]);
        }
        sorted_entries_stay(rest);
        assert forall|i: int| 0 <= i < rest.len() implies !before(
            (#[trigger] rest[i]).file,
            entries.last().file,
        ) by {
            assert(rest[i] == entries[i]);
            assert(entries.last() == entries[entries.len() - 1]);
        }
        lemma_put_last(rest, entries.last());
        assert(rest.push(entries.last()) =~= entries);
    } else {
        assert(newest_first(entries) =~= entries);
    }
}

proof fn lemma_filtered(entries: Seq<EntryView>, keep: spec_fn(EntryView) -> bool)
    ensures
        forall|i: int|
            0 <= i < entries.filter(keep).len() ==> keep(#[trigger] entries.filter(keep)[i]),
    decreases entries.len(),
{
    reveal(Seq::filter);
    if entries.len() > 0 {
        lemma_filtered(entries.drop_last(), keep);
    }
}

proof fn lemma_filter_holds(entries: Seq<EntryView>, keep: spec_fn(EntryView) -> bool, i: int)
    requires
        0 <= i < entries.len(),
        keep(entries[i]),
    ensures
        entries.filter(keep).contains(entries[i]),
    decreases entries.len(),
{
    reveal(Seq::filter);
    let rest = entries.drop_last().filter(keep);
    if i == entries.len() - 1 {
        assert(entries.filter(keep)[rest.len() as int] == entries[i]);
    } else {
        lemma_filter_holds(entries.drop_last(), keep, i);
        let k = choose|k: int| 0 <= k < rest.len() && rest[k] == entries[i];
        assert(entries.filter(keep)[k] == entries[i]);
    }
}

/// After an append the index is in order and holds the entry and what it held
/// before but for the same file.
pub proof fn appended_index(h: HistoryContents, entry: EntryView)
    ensures
        is_newest_first(with_entry(h, entry).entries),
        with_entry(h, entry).entries.to_multiset() == without_file(
            h.entries,
            entry.app_id,
            entry.file,
        ).to_multiset().insert(entry),
        with_entry(h, entry).version == h.version,
{
    broadcast use vstd::seq_lib::group_to_multiset_ensures;

    newest_first_sorts(without_file(h.entries, entry.app_id, entry.file).push(entry));
}

/// After an append the entry is the only one for its file and app.
pub proof fn appended_entry_is_unique(h: HistoryContents, entry: EntryView, i: int)
    requires
        0 <= i < with_entry(h, entry).entries.len(),
        with_entry(h, entry).entries[i].app_id == entry.app_id,
        with_entry(h, entry).entries[i].file == entry.file,
    ensures
        with_entry(h, entry).entries[i] == entry,
{
    let rest = without_file(h.entries, entry.app_id, entry.file);
    let x = with_entry(h, entry).entries[i];
    lemma_filtered(h.entries, |e: EntryView| e.file != entry.file || e.app_id != entry.app_id);
    lemma_sorted_members(rest.push(entry), i);
    let k = choose|k: int| 0 <= k < rest.push(entry).len() && rest.push(entry)[k] == x;
    if k < rest.len() {
        assert(rest[k] == x);
    }
}

proof fn lemma_sorted_members(entries: Seq<EntryView>, i: int)
    requires
        0 <= i < newest_first(entries).len(),
    ensures
        entries.contains(newest_first(entries)[i]),
    decreases entries.len(),
{
    let x = newest_first(entries)[i];
    let rest = entries.drop_last();
    lemma_put_in_members(newest_first(rest), entries.last(), i);
    if x != entries.last() {
        let k = choose|k: int| 0 <= k < newest_first(rest).len() && newest_first(rest)[k] == x;
        lemma_sorted_members(rest, k);
        let m = choose|m: int| 0 <= m < rest.len() && rest[m] == x;
        assert(entries[m] == x);
    } else {
        assert(entries[entries.len() - 1] == x);
    }
}

/// After a removal the index holds nothing for the file of the app, and all the
/// rest.
pub proof fn removed_entry_is_gone(
    entries: Seq<EntryView>,
    app_id: Seq<char>,
    file: Seq<char>,
    e: EntryView,
)
    ensures
        without_file(entries, app_id, file).contains(e) <==> entries.contains(e) && !(e.app_id
            == app_id && e.file == file),
{
    let keep = |e: EntryView| e.file != file || e.app_id != app_id;
    lemma_filtered(entries, keep);
    if entries.contains(e) && keep(e) {
        let i = choose|i: int| 0 <= i < entries.len() && entries[i] == e;
        lemma_filter_holds(entries, keep, i);
    }
    if without_file(entries, app_id, file).contains(e) {
        lemma_filter_from(entries, keep, e);
    }
}

proof fn lemma_filter_from(entries: Seq<EntryView>, keep: spec_fn(EntryView) -> bool, e: EntryView)
    requires
        entries.filter(keep).contains(e),
    ensures
        entries.contains(e),
    decreases entries.len(),
{
    reveal(Seq::filter);
    if entries.len() > 0 {
        let rest = entries.drop_last();
        let k = choose|k: int| 0 <= k < entries.filter(keep).len() && entries.filter(keep)[k] == e;
        if k < rest.filter(keep).len() {
            assert(rest.filter(keep)[k] == e);
            lemma_filter_from(rest, keep, e);
            let m = choose|m: int| 0 <= m < rest.len() && rest[m] == e;
            assert(entries[m] == e);
        } else {
            assert(entries[entries.len() - 1] == e);
        }
    }
}

proof fn lemma_filter_all(entries: Seq<EntryView>, keep: spec_fn(EntryView) -> bool)
    requires
        forall|i: int| 0 <= i < entries.len() ==> keep(#[trigger] entries[i]),
    ensures
        entries.filter(keep) == entries,
    decreases entries.len(),
{
    reveal(Seq::filter);
    if entries.len() > 0 {
        let rest = entries.drop_last();
        assert forall|i: int| 0 <= i < rest.len() implies keep(#[trigger] rest[i]) by {
            assert(rest[i] == entries[i]);
        }
        lemma_filter_all(rest, keep);
        assert(keep(entries[entries.len() - 1]));
        assert(rest.push(entries.last()) =~= entries);
    } else {
        assert(entries.filter(keep) =~= entries);
    }
}

/// What is filtered out again makes no difference to where it was put in.
proof fn lemma_filter_put_in(
    list: Seq<EntryView>,
    e: EntryView,
    keep: spec_fn(EntryView) -> bool,
)
    requires
        !keep(e),
    ensures
        put_in(list, e).filter(keep) == list.filter(keep),
    decreases list.len(),
{
    let one = seq![e];
    reveal(Seq::filter);
    assert(one.drop_last() =~= Seq::empty());
    assert(one.drop_last().filter(keep) =~= Seq::empty());
    assert(one.last() == e);
    assert(one.filter(keep) =~= Seq::empty());
    if list.len() == 0 {
        assert(list.filter(keep) =~= Seq::empty());
    } else if before(list[0].file, e.file) {
        Seq::filter_distributes_over_add(one, list, keep);
        assert(Seq::empty() + list.filter(keep) =~= list.filter(keep));
    } else {
        let first = seq![list[0]];
        lemma_filter_put_in(list.skip(1), e, keep);
        Seq::filter_distributes_over_add(first, put_in(list.skip(1), e), keep);
        Seq::filter_distributes_over_add(first, list.skip(1), keep);
        assert(first + list.skip(1) =~= list);
    }
}

/// Removing an entry that was put into an index undoes that, up to order: where
/// there was none for its file, what is left are the entries from before, sorted.
/// An entry of another app or for another file is still there.
pub proof fn remove_undoes_append(h: HistoryContents, entry: EntryView)
    requires
        forall|i: int|
            0 <= i < h.entries.len() ==> !((#[trigger] h.entries[i]).app_id == entry.app_id
                && h.entries[i].file == entry.file),
    ensures
        ({
            let left = without_file(with_entry(h, entry).entries, entry.app_id, entry.file);
            &&& left == newest_first(h.entries)
            &&& left.to_multiset() == h.entries.to_multiset()
            &&& is_newest_first(left)
        }),
{
    let keep = |e: EntryView| e.file != entry.file || e.app_id != entry.app_id;
    let sorted = newest_first(h.entries);
    lemma_filter_all(h.entries, keep);
    assert(h.entries.push(entry).drop_last() =~= h.entries);
    lemma_filter_put_in(sorted, entry, keep);
    assert forall|i: int| 0 <= i < sorted.len() implies keep(#[trigger] sorted[i]) by {
        lemma_sorted_members(h.entries, i);
        let k = choose|k: int| 0 <= k < h.entries.len() && h.entries[k] == sorted[i];
        assert(!(h.entries[k].app_id == entry.app_id && h.entries[k].file == entry.file));
    }
    lemma_filter_all(sorted, keep);
    newest_first_sorts(h.entries);
}

/// What is left of entries in order is in order.
proof fn lemma_filter_sorted(entries: Seq<EntryView>, keep: spec_fn(EntryView) -> bool)
    requires
        is_newest_first(entries),
    ensures
        is_newest_first(entries.filter(keep)),
    decreases entries.len(),
{
    reveal(Seq::filter);
    if entries.len() > 0 {
        let rest = entries.drop_last();
        let left = rest.filter(keep);
        let all = entries.filter(keep);
        assert forall|i: int, j: int| 0 <= i < j < rest.len() implies !before(
            (#[trigger] rest[i]).file,
            (#[trigger] rest[j]).file,
        ) by {
            assert(rest[i] == entries[i] && rest[j] == entries[j]);
        }
        lemma_filter_sorted(rest, keep);
        assert forall|i: int, j: int| 0 <= i < j < all.len() implies !before(
            (#[trigger] all[i]).file,
            (#[trigger] all[j]).file,
        ) by {
            assert(all[i] == left[i]);
            if j < left.len() {
                assert(all[j] == left[j]);
            } else {
                lemma_filter_from(rest, keep, left[i]);
                let k = choose|k: int| 0 <= k < rest.len() && rest[k] == left[i];
                assert(entries[k] == all[i] && entries[entries.len() - 1] == all[j]);
            }
        }
    }
}

/// How often an entry that is kept occurs does not change.
proof fn lemma_filter_count(
    entries: Seq<EntryView>,
    keep: spec_fn(EntryView) -> bool,
    e: EntryView,
)
    requires
        keep(e),
    ensures
        entries.filter(keep).to_multiset().count(e) == entries.to_multiset().count(e),
    decreases entries.len(),
{
    broadcast use vstd::seq_lib::group_to_multiset_ensures;

    reveal(Seq::filter);
    if entries.len() > 0 {
        let rest = entries.drop_last();
        lemma_filter_count(rest, keep, e);
        assert(entries =~= rest.push(entries.last()));
    } else {
        assert(entries.filter(keep) =~= entries);
    }
}

/// After an append the entries of each app are in order, so that the first has the
/// greatest file name. They are all and only the entries of the index with that
/// app, and the new entry occurs once among those of its own.
pub proof fn appended_entries_of_app(h: HistoryContents, entry: EntryView, app_id: Seq<char>)
    ensures
        ({
            let all = with_entry(h, entry).entries;
            let own = of_app(all, app_id);
            &&& is_newest_first(own)
            &&& forall|i: int|
                0 <= i < own.len() ==> !before(own[0].file, (#[trigger] own[i]).file)
            &&& forall|e: EntryView| #[trigger]
                own.contains(e) <==> all.contains(e) && e.app_id == app_id
            &&& app_id == entry.app_id ==> own.to_multiset().count(entry) == 1
        }),
{
    broadcast use vstd::seq_lib::group_to_multiset_ensures;

    let all = with_entry(h, entry).entries;
    let wanted = |e: EntryView| e.app_id == app_id;
    let own = of_app(all, app_id);
    appended_index(h, entry);
    lemma_filter_sorted(all, wanted);
    lemma_filtered(all, wanted);
    assert forall|i: int| 0 <= i < own.len() implies !before(
        own[0].file,
        (#[trigger] own[i]).file,
    ) by {
        if i == 0 {
            before_asymmetric(own[0].file, own[0].file);
        }
    }
    assert forall|e: EntryView| #[trigger] own.contains(e) <==> all.contains(e) && e.app_id
        == app_id by {
        if own.contains(e) {
            lemma_filter_from(all, wanted, e);
        }
        if all.contains(e) && e.app_id == app_id {
            let i = choose|i: int| 0 <= i < all.len() && all[i] == e;
            lemma_filter_holds(all, wanted, i);
        }
    }
    if app_id == entry.app_id {
        let rest = without_file(h.entries, entry.app_id, entry.file);
        lemma_filter_count(all, wanted, entry);
        removed_entry_is_gone(h.entries, entry.app_id, entry.file, entry);
        assert(!rest.contains(entry));
        assert(rest.to_multiset().count(entry) == 0);
    }
}

proof fn lemma_how_many_same(a: spec_fn(int) -> bool, b: spec_fn(int) -> bool, n: nat)
    requires
        forall|i: int| 0 <= i < n ==> #[trigger] a(i) == b(i),
    ensures
        how_many(a, n) == how_many(b, n),
    decreases n,
{
    if n > 0 {
        lemma_how_many_same(a, b, (n - 1) as nat);
        assert(a(n - 1) == b(n - 1));
    }
}

/// Fewer numbers have a property that is narrower, and fewer still where one is
/// told apart.
proof fn lemma_how_many_narrower(a: spec_fn(int) -> bool, b: spec_fn(int) -> bool, n: nat)
    requires
        forall|i: int| 0 <= i < n && #[trigger] a(i) ==> b(i),
    ensures
        how_many(a, n) <= how_many(b, n),
        (exists|k: int| 0 <= k < n && !#[trigger] a(k) && b(k)) ==> how_many(a, n) < how_many(b, n),
    decreases n,
{
    if n > 0 {
        let m = (n - 1) as nat;
        lemma_how_many_narrower(a, b, m);
        assert(a(n - 1) ==> b(n - 1));
        if exists|k: int| 0 <= k < n && !#[trigger] a(k) && b(k) {
            let k = choose|k: int| 0 <= k < n && !#[trigger] a(k) && b(k);
            if k < m {
                assert(exists|x: int| 0 <= x < m && !#[trigger] a(x) && b(x));
            }
        }
    }
}

/// Without one of its numbers, a property has one number less.
proof fn lemma_how_many_without(a: spec_fn(int) -> bool, m: int, n: nat)
    requires
        0 <= m < n,
        a(m),
    ensures
        how_many(a, n) == how_many(|i: int| a(i) && i != m, n) + 1,
    decreases n,
{
    let b = |i: int| a(i) && i != m;
    if m == n - 1 {
        lemma_how_many_same(a, b, (n - 1) as nat);
    } else {
        lemma_how_many_without(a, m, (n - 1) as nat);
    }
}

proof fn lemma_how_many_none(a: spec_fn(int) -> bool, n: nat)
    requires
        forall|i: int| 0 <= i < n ==> !#[trigger] a(i),
    ensures
        how_many(a, n) == 0,
    decreases n,
{
    if n > 0 {
        lemma_how_many_none(a, (n - 1) as nat);
        assert(!a(n - 1));
    }
}

/// Newer is a strict order, and of two entries of an app one is newer.
proof fn lemma_newer_order(entries: Seq<EntryView>, i: int, j: int, k: int)
    ensures
        is_newer(entries, i, j) && is_newer(entries, j, k) ==> is_newer(entries, i, k),
        !(is_newer(entries, i, j) && is_newer(entries, j, i)),
        i != j && entries[i].app_id == entries[j].app_id ==> is_newer(entries, i, j) || is_newer(
            entries,
            j,
            i,
        ),
{
    let (a, b, c) = (entries[i].file, entries[j].file, entries[k].file);
    before_asymmetric(a, b);
    before_total(a, b);
    if before(b, a) && before(c, b) {
        before_transitive(c, b, a);
    }
}

/// Among the first `n` entries that `some` tells, all of one app, one is older
/// than all others.
proof fn lemma_oldest(entries: Seq<EntryView>, some: spec_fn(int) -> bool, n: nat) -> (m: int)
    requires
        exists|i: int| 0 <= i < n && #[trigger] some(i),
        forall|i: int, j: int|
            0 <= i < n && 0 <= j < n && #[trigger] some(i) && #[trigger] some(j)
                ==> entries[i].app_id == entries[j].app_id,
    ensures
        0 <= m < n,
        some(m),
        forall|i: int| 0 <= i < n && #[trigger] some(i) && i != m ==> is_newer(entries, i, m),
    decreases n,
{
    let last = n - 1;
    if exists|i: int| 0 <= i < last && #[trigger] some(i) {
        let m = lemma_oldest(entries, some, (n - 1) as nat);
        if !some(last) {
            m
        } else {
            lemma_newer_order(entries, m, last, m);
            if is_newer(entries, m, last) {
                assert forall|i: int| 0 <= i < n && #[trigger] some(i) && i != last implies is_newer(
                    entries,
                    i,
                    last,
                ) by {
                    lemma_newer_order(entries, i, m, last);
                }
                last
            } else {
                assert(some(m) && some(last));
                m
            }
        }
    } else {
        let i = choose|i: int| 0 <= i < n && #[trigger] some(i);
        assert(i == last);
        last
    }
}

/// Of the entries that `some` tells, all of one app, as many have less than
/// `keep` newer ones among them as there are, but at most `keep`.
proof fn lemma_newest_count(
    entries: Seq<EntryView>,
    some: spec_fn(int) -> bool,
    keep: nat,
    n: nat,
)
    requires
        forall|i: int, j: int|
            0 <= i < n && 0 <= j < n && #[trigger] some(i) && #[trigger] some(j)
                ==> entries[i].app_id == entries[j].app_id,
    ensures
        how_many(
            |i: int|
                some(i) && how_many(|j: int| some(j) && is_newer(entries, j, i), n) < keep,
            n,
        ) == if how_many(some, n) <= keep {
            how_many(some, n)
        } else {
            keep
        },
    decreases how_many(some, n),
{
    let kept = |i: int| some(i) && how_many(|j: int| some(j) && is_newer(entries, j, i), n) < keep;
    if exists|i: int| 0 <= i < n && #[trigger] some(i) {
        let m = lemma_oldest(entries, some, n);
        let rest = |i: int| some(i) && i != m;
        lemma_how_many_without(some, m, n);
        assert forall|i: int, j: int|
            0 <= i < n && 0 <= j < n && #[trigger] rest(i) && #[trigger] rest(
                j,
            ) implies entries[i].app_id == entries[j].app_id by {
            assert(some(i) && some(j));
        }
        lemma_newest_count(entries, rest, keep, n);
        let kept_rest = |i: int|
            rest(i) && how_many(|j: int| rest(j) && is_newer(entries, j, i), n) < keep;
        // The oldest is newer than no other, so the others count the same.
        assert forall|i: int| 0 <= i < n implies #[trigger] kept_rest(i) == (kept(i) && i != m) by {
            if rest(i) {
                let x = |j: int| some(j) && is_newer(entries, j, i);
                let y = |j: int| rest(j) && is_newer(entries, j, i);
                assert(some(i) && is_newer(entries, i, m));
                lemma_newer_order(entries, i, m, i);
                lemma_how_many_same(x, y, n);
            }
        }
        // All others are newer than the oldest.
        let above = |j: int| some(j) && is_newer(entries, j, m);
        lemma_newer_order(entries, m, m, m);
        lemma_how_many_same(above, rest, n);
        let kept_others = |i: int| kept(i) && i != m;
        lemma_how_many_same(kept_rest, kept_others, n);
        if kept(m) {
            lemma_how_many_without(kept, m, n);
        } else {
            lemma_how_many_same(kept, kept_others, n);
        }
    } else {
        lemma_how_many_none(some, n);
        assert forall|i: int| 0 <= i < n implies !#[trigger] kept(i) by {
            assert(!some(i));
        }
        lemma_how_many_none(kept, n);
    }
}

proof fn lemma_count_of(entries: Seq<EntryView>, app_id: Seq<char>, n: nat)
    requires
        n <= entries.len(),
    ensures
        count_of(entries.take(n as int), app_id) == how_many(
            |i: int| entries[i].app_id == app_id,
            n,
        ),
    decreases n,
{
    if n > 0 {
        lemma_count_of(entries, app_id, (n - 1) as nat);
        assert(entries.take(n as int).drop_last() =~= entries.take(n - 1));
    }
}

proof fn lemma_count_retained(entries: Seq<EntryView>, keep: nat, app_id: Seq<char>, n: nat)
    requires
        n <= entries.len(),
    ensures
        count_of(retained_of(entries, keep, n), app_id) == how_many(
            |i: int| entries[i].app_id == app_id && stays(entries, keep, i),
            n,
        ),
    decreases n,
{
    if n > 0 {
        lemma_count_retained(entries, keep, app_id, (n - 1) as nat);
        let rest = retained_of(entries, keep, (n - 1) as nat);
        assert(rest.push(entries[n - 1]).drop_last() =~= rest);
    }
}

/// Retention leaves each app the lesser of what it had and what is kept.
pub proof fn retention_caps_each_app(entries: Seq<EntryView>, keep: nat, app_id: Seq<char>)
    ensures
        count_of(retained(entries, keep), app_id) == if count_of(entries, app_id) <= keep {
            count_of(entries, app_id)
        } else {
            keep
        },
{
    let n = entries.len();
    let some = |i: int| entries[i].app_id == app_id;
    lemma_count_of(entries, app_id, n);
    assert(entries.take(n as int) =~= entries);
    lemma_count_retained(entries, keep, app_id, n);
    lemma_newest_count(entries, some, keep, n);
    let kept = |i: int| some(i) && how_many(|j: int| some(j) && is_newer(entries, j, i), n) < keep;
    let staying = |i: int| entries[i].app_id == app_id && stays(entries, keep, i);
    assert forall|i: int| 0 <= i < n implies #[trigger] kept(i) == staying(i) by {
        if some(i) {
            lemma_how_many_same(
                |j: int| some(j) && is_newer(entries, j, i),
                |j: int| is_newer(entries, j, i),
                n,
            );
        }
    }
    lemma_how_many_same(kept, staying, n);
}

/// Fewer entries are newer than one of an app than the app has.
proof fn lemma_newer_less(entries: Seq<EntryView>, i: int)
    requires
        0 <= i < entries.len(),
    ensures
        newer_count(entries, i) < count_of(entries, entries[i].app_id),
{
    let n = entries.len();
    let newer = |j: int| is_newer(entries, j, i);
    let own = |j: int| entries[j].app_id == entries[i].app_id;
    lemma_newer_order(entries, i, i, i);
    assert(!newer(i) && own(i));
    lemma_how_many_narrower(newer, own, n);
    lemma_count_of(entries, entries[i].app_id, n);
    assert(entries.take(n as int) =~= entries);
}

proof fn lemma_all_stay(entries: Seq<EntryView>, keep: nat, n: nat)
    requires
        n <= entries.len(),
        forall|i: int| 0 <= i < entries.len() ==> #[trigger] stays(entries, keep, i),
    ensures
        retained_of(entries, keep, n) == entries.take(n as int),
        dropped_of(entries, keep, n).len() == 0,
    decreases n,
{
    if n > 0 {
        lemma_all_stay(entries, keep, (n - 1) as nat);
        assert(stays(entries, keep, n - 1));
        assert(entries.take(n as int) =~= entries.take(n - 1).push(entries[n - 1]));
    } else {
        assert(entries.take(0) =~= Seq::empty());
    }
}

/// Applying retention a second time, with the same bound or a larger one, changes
/// nothing.
pub proof fn retention_is_idempotent(entries: Seq<EntryView>, keep: nat, again: nat)
    requires
        keep <= again,
    ensures
        retained(retained(entries, keep), again) == retained(entries, keep),
        dropped(retained(entries, keep), again).len() == 0,
{
    let r = retained(entries, keep);
    assert forall|i: int| 0 <= i < r.len() implies #[trigger] stays(r, again, i) by {
        lemma_newer_less(r, i);
        retention_caps_each_app(entries, keep, r[i].app_id);
    }
    lemma_all_stay(r, again, r.len());
    assert(r.take(r.len() as int) =~= r);
}

/// What stays and what goes of the first `n` entries.
proof fn lemma_parted(entries: Seq<EntryView>, keep: nat, n: nat, i: int)
    requires
        0 <= i < n <= entries.len(),
    ensures
        stays(entries, keep, i) ==> retained_of(entries, keep, n).contains(entries[i]),
        !stays(entries, keep, i) ==> dropped_of(entries, keep, n).contains(
            (entries[i].app_id, entries[i].file),
        ),
    decreases n,
{
    let m = (n - 1) as nat;
    let r = retained_of(entries, keep, m);
    let d = dropped_of(entries, keep, m);
    if i == m {
        if stays(entries, keep, i) {
            assert(retained_of(entries, keep, n)[r.len() as int] == entries[i]);
        } else {
            assert(dropped_of(entries, keep, n)[d.len() as int] == (
                entries[i].app_id,
                entries[i].file,
            ));
        }
    } else {
        lemma_parted(entries, keep, m, i);
        if stays(entries, keep, i) {
            let k = choose|k: int| 0 <= k < r.len() && r[k] == entries[i];
            assert(retained_of(entries, keep, n)[k] == entries[i]);
        } else {
            let pair = (entries[i].app_id, entries[i].file);
            let k = choose|k: int| 0 <= k < d.len() && d[k] == pair;
            assert(dropped_of(entries, keep, n)[k] == pair);
        }
    }
}

proof fn lemma_parted_len(entries: Seq<EntryView>, keep: nat, n: nat)
    ensures
        retained_of(entries, keep, n).len() + dropped_of(entries, keep, n).len() == n,
    decreases n,
{
    if n > 0 {
        lemma_parted_len(entries, keep, (n - 1) as nat);
    }
}

/// Each entry stays or is reported as removed.
pub proof fn retention_accounts_for_all(entries: Seq<EntryView>, keep: nat, i: int)
    requires
        0 <= i < entries.len(),
    ensures
        retained(entries, keep).contains(entries[i]) || dropped(entries, keep).contains(
            (entries[i].app_id, entries[i].file),
        ),
        retained(entries, keep).len() + dropped(entries, keep).len() == entries.len(),
{
    lemma_parted(entries, keep, entries.len(), i);
    lemma_parted_len(entries, keep, entries.len());
}

/// Where in the index an entry stood that stays.
proof fn lemma_retained_from(entries: Seq<EntryView>, keep: nat, n: nat, k: int) -> (i: int)
    requires
        n <= entries.len(),
        0 <= k < retained_of(entries, keep, n).len(),
    ensures
        0 <= i < n,
        stays(entries, keep, i),
        retained_of(entries, keep, n)[k] == entries[i],
    decreases n,
{
    let m = (n - 1) as nat;
    if k < retained_of(entries, keep, m).len() {
        lemma_retained_from(entries, keep, m, k)
    } else {
        n - 1
    }
}

/// Where in the index an entry stood that goes.
proof fn lemma_dropped_from(entries: Seq<EntryView>, keep: nat, n: nat, k: int) -> (i: int)
    requires
        n <= entries.len(),
        0 <= k < dropped_of(entries, keep, n).len(),
    ensures
        0 <= i < n,
        !stays(entries, keep, i),
        dropped_of(entries, keep, n)[k] == (entries[i].app_id, entries[i].file),
    decreases n,
{
    let m = (n - 1) as nat;
    if k < dropped_of(entries, keep, m).len() {
        lemma_dropped_from(entries, keep, m, k)
    } else {
        n - 1
    }
}

/// What retention removes of an app is not newer than what it keeps of it,
/// whatever the order of the index.
pub proof fn retention_keeps_newest(entries: Seq<EntryView>, keep: nat, i: int, j: int)
    requires
        0 <= i < retained(entries, keep).len(),
        0 <= j < dropped(entries, keep).len(),
        retained(entries, keep)[i].app_id == dropped(entries, keep)[j].0,
    ensures
        !before(retained(entries, keep)[i].file, dropped(entries, keep)[j].1),
{
    let n = entries.len();
    let a = lemma_retained_from(entries, keep, n, i);
    let b = lemma_dropped_from(entries, keep, n, j);
    if before(entries[a].file, entries[b].file) {
        let newer_a = |x: int| is_newer(entries, x, a);
        let newer_b = |x: int| is_newer(entries, x, b);
        assert forall|x: int| 0 <= x < n && #[trigger] newer_b(x) implies newer_a(x) by {
            lemma_newer_order(entries, x, b, a);
        }
        lemma_how_many_narrower(newer_b, newer_a, n);
    }
}

/// What stays keeps the order of the index.
pub proof fn retention_keeps_order(entries: Seq<EntryView>, keep: nat)
    requires
        is_newest_first(entries),
    ensures
        is_newest_first(retained(entries, keep)),
{
    lemma_retained_sorted(entries, keep, entries.len());
}

proof fn lemma_retained_sorted(entries: Seq<EntryView>, keep: nat, n: nat)
    requires
        is_newest_first(entries),
        n <= entries.len(),
    ensures
        is_newest_first(retained_of(entries, keep, n)),
    decreases n,
{
    if n > 0 {
        let m = (n - 1) as nat;
        let r = retained_of(entries, keep, m);
        let all = retained_of(entries, keep, n);
        lemma_retained_sorted(entries, keep, m);
        assert forall|i: int, j: int| 0 <= i < j < all.len() implies !before(
            (#[trigger] all[i]).file,
            (#[trigger] all[j]).file,
        ) by {
            assert(all[i] == r[i]);
            if j < r.len() {
                assert(all[j] == r[j]);
            } else {
                let x = lemma_retained_from(entries, keep, m, i);
                assert(entries[x] == all[i] && entries[n - 1] == all[j]);
            }
        }
    }
}

/// The name of a backup that ends in its extension is told as a backup, and its
/// format by its name.
pub proof fn backup_name_tells_format(name: Seq<char>, format: Format)
    requires
        ends_in(name, "."@ + format.suffix()),
    ensures
        archive_named(name),
        format_by_name(name) == format.suffix(),
{
    reveal_strlit(".");
    reveal_strlit("zip");
    reveal_strlit("tar.gz");
    reveal_strlit("dir");
    reveal_strlit(".zip");
    reveal_strlit(".tar.gz");
    reveal_strlit(".dir");
    reveal_strlit(".summary.json");
    reveal_strlit(".tmp");
    let tail = "."@ + format.suffix();
    let n = name.len() as int;
    let t = tail.len() as int;
    assert(name.skip(n - t) == tail);
    assert(name.skip(n - t)[t - 1] == name[n - 1]);
    assert(name.last() == tail.last());
    if ends_in(name, ".summary.json"@) {
        assert(name.skip(n - 13)[12] == name[n - 1]);
        assert(".summary.json"@[12] == 'n');
    }
    if ends_in(name, ".tmp"@) {
        assert(name.skip(n - 4)[3] == name[n - 1]);
        assert(name.skip(n - 4)[2] == name[n - 2]);
        assert(".tmp"@[3] == 'p' && ".tmp"@[2] == 'm');
        assert(name.skip(n - t)[t - 2] == name[n - 2]);
    }
    assert(".zip"@ =~= "."@ + "zip"@);
    assert(".tar.gz"@ =~= "."@ + "tar.gz"@);
    assert(".dir"@ =~= "."@ + "dir"@);
    if ends_in(name, ".tar.gz"@) {
        assert(name.skip(n - 7)[6] == name[n - 1]);
        assert(".tar.gz"@[6] == 'z');
    }
    if ends_in(name, ".zip"@) {
        assert(name.skip(n - 4)[3] == name[n - 1]);
        assert(".zip"@[3] == 'p');
    }
}

/// A rebuilt index is in order and holds the entry of each backup that was
/// found, and no other.
pub proof fn rebuilt_index_is_complete(found: Seq<FoundView>, e: EntryView)
    ensures
        is_newest_first(rebuilt(found).entries),
        rebuilt(found).entries.to_multiset() == found_entries(found).to_multiset(),
        found_entries(found).contains(e) <==> exists|i: int|
            0 <= i < found.len() && archive_named((#[trigger] found[i]).name) && found_entry(found[i])
                == e,
{
    newest_first_sorts(found_entries(found));
    lemma_found_entries(found, e);
}

proof fn lemma_found_entries(found: Seq<FoundView>, e: EntryView)
    ensures
        found_entries(found).contains(e) <==> exists|i: int|
            0 <= i < found.len() && archive_named((#[trigger] found[i]).name) && found_entry(found[i])
                == e,
    decreases found.len(),
{
    if found.len() > 0 {
        let rest = found.drop_last();
        let before = found_entries(rest);
        let all = found_entries(found);
        lemma_found_entries(rest, e);
        if all.contains(e) {
            let k = choose|k: int| 0 <= k < all.len() && all[k] == e;
            if k < before.len() {
                assert(before[k] == e);
                let i = choose|i: int|
                    0 <= i < rest.len() && archive_named((#[trigger] rest[i]).name) && found_entry(
                        rest[i],
                    ) == e;
                assert(found[i] == rest[i]);
            } else {
                assert(found[found.len() - 1] == found.last());
            }
        }
        if exists|i: int|
            0 <= i < found.len() && archive_named((#[trigger] found[i]).name) && found_entry(found[i])
                == e {
            let i = choose|i: int|
                0 <= i < found.len() && archive_named((#[trigger] found[i]).name) && found_entry(
                    found[i],
                ) == e;
            if i < rest.len() {
                assert(rest[i] == found[i]);
                let k = choose|k: int| 0 <= k < before.len() && before[k] == e;
                assert(all[k] == e);
            } else {
                assert(all[before.len() as int] == e);
            }
        }
    }
}

/// An entry that is made from a summary says, in each place, what the summary says
/// there; the name of the file is that on the disk, and its format is the one that
/// the name ends in.
pub proof fn found_entry_says_what_summary_says(f: FoundView)
    requires
        f.summary is Some,
    ensures
        ({
            let s = f.summary->0;
            let e = found_entry(f);
            &&& e.app_id == s.app_id
            &&& e.file == f.name
            &&& e.size == s.size
            &&& e.files == s.files
            &&& e.bytes_total == s.bytes_total
            &&& e.started_at == s.started_at
            &&& e.finished_at == s.finished_at
            &&& e.status == s.status
            &&& match s.checksum {
                Some(sum) => e.checksum == Some(sum.digest),
                None => e.checksum is None,
            }
            &&& archive_named(f.name) ==> ends_in(f.name, "."@ + e.format)
        }),
{
    if archive_named(f.name) {
        lemma_format_is_end_of_name(f.name);
    }
}

/// A backup without a summary is listed under the app whose directory it is in,
/// with its size on the disk.
pub proof fn found_entry_without_summary(f: FoundView)
    requires
        f.summary is None,
    ensures
        ({
            let e = found_entry(f);
            &&& e.app_id == f.app_dir
            &&& e.file == f.name
            &&& f.size matches Some(n) ==> e.size == n
            &&& f.size is None ==> e.size == 0
            &&& e.files == 0
            &&& e.bytes_total == 0
            &&& e.started_at.len() == 0
            &&& e.finished_at.len() == 0
            &&& e.checksum is None
            &&& e.status == "ok"@
            &&& archive_named(f.name) ==> ends_in(f.name, "."@ + e.format)
        }),
{
    if archive_named(f.name) {
        lemma_format_is_end_of_name(f.name);
    }
}

proof fn lemma_format_is_end_of_name(name: Seq<char>)
    requires
        archive_named(name),
    ensures
        ends_in(name, "."@ + format_by_name(name)),
{
    reveal_strlit(".");
    reveal_strlit("zip");
    reveal_strlit("tar.gz");
    reveal_strlit("dir");
    reveal_strlit(".zip");
    reveal_strlit(".tar.gz");
    reveal_strlit(".dir");
    assert("."@ + "zip"@ =~= ".zip"@);
    assert("."@ + "tar.gz"@ =~= ".tar.gz"@);
    assert("."@ + "dir"@ =~= ".dir"@);
}

// ---------------------------------------------------------------------------
// Laws of entries and names
// ---------------------------------------------------------------------------

/// A name is that of a backup where it ends in the extension of one of the formats,
/// with its dot, and only there.
pub proof fn backups_are_told_by_extension(name: Seq<char>)
    ensures
        archive_named(name) <==> exists|f: Format| ends_in(name, "."@ + (#[trigger] f.suffix())),
{
    if archive_named(name) {
        lemma_format_is_end_of_name(name);
        let f = if format_by_name(name) == Format::TarGz.suffix() {
            Format::TarGz
        } else if format_by_name(name) == Format::Zip.suffix() {
            Format::Zip
        } else {
            Format::Dir
        };
        assert(ends_in(name, "."@ + f.suffix()));
    }
    if exists|f: Format| ends_in(name, "."@ + (#[trigger] f.suffix())) {
        let f = choose|f: Format| ends_in(name, "."@ + (#[trigger] f.suffix()));
        backup_name_tells_format(name, f);
    }
}

/// The entries of an app are those that name it, in the order of the index.
pub proof fn entries_of_app_keep_order(entries: Seq<EntryView>, e: EntryView, app_id: Seq<char>)
    ensures
        of_app(Seq::empty(), app_id) == Seq::<EntryView>::empty(),
        of_app(entries.push(e), app_id) == if e.app_id == app_id {
            of_app(entries, app_id).push(e)
        } else {
            of_app(entries, app_id)
        },
{
    reveal(Seq::filter);
    assert(entries.push(e).drop_last() =~= entries);
}

/// Removing leaves the other entries in their order.
pub proof fn removal_keeps_order(
    entries: Seq<EntryView>,
    e: EntryView,
    app_id: Seq<char>,
    file: Seq<char>,
)
    ensures
        without_file(Seq::empty(), app_id, file) == Seq::<EntryView>::empty(),
        without_file(entries.push(e), app_id, file) == if e.app_id == app_id && e.file == file {
            without_file(entries, app_id, file)
        } else {
            without_file(entries, app_id, file).push(e)
        },
{
    reveal(Seq::filter);
    assert(entries.push(e).drop_last() =~= entries);
}

/// Entries for the same file name keep their order when they are sorted.
pub proof fn sorting_is_stable(entries: Seq<EntryView>)
    requires
        forall|i: int, j: int|
            0 <= i < j < entries.len() ==> (#[trigger] entries[i]).file == (
            #[trigger] entries[j]).file,
    ensures
        newest_first(entries) == entries,
{
    assert forall|i: int, j: int| 0 <= i < j < entries.len() implies !before(
        (#[trigger] entries[i]).file,
        (#[trigger] entries[j]).file,
    ) by {
        before_asymmetric(entries[i].file, entries[i].file);
    }
    sorted_entries_stay(entries);
}

/// The index that is rebuilt when it is lost holds each backup as it was listed: the
/// entry that a summary restores is among what is found.
pub proof fn rebuilt_index_lists_found_backup(found: Seq<FoundView>, i: int)
    requires
        0 <= i < found.len(),
        archive_named(found[i].name),
    ensures
        rebuilt(found).version == 1,
        rebuilt(found).entries.contains(found_entry(found[i])),
{
    broadcast use vstd::seq_lib::group_to_multiset_ensures;

    let e = found_entry(found[i]);
    rebuilt_index_is_complete(found, e);
    let all = found_entries(found);
    let k = choose|k: int| 0 <= k < all.len() && all[k] == e;
    assert(all.to_multiset().count(e) > 0);
    assert(rebuilt(found).entries.to_multiset().count(e) > 0);
}

/// Whether the entry at `j` stands before that at `i` and is of the same app.
spec fn stands_before(entries: Seq<EntryView>, j: int, i: int) -> bool {
    j < i && entries[j].app_id == entries[i].app_id
}

proof fn lemma_newer_stand_before(entries: Seq<EntryView>, i: int)
    requires
        is_newest_first(entries),
        0 <= i < entries.len(),
    ensures
        newer_count(entries, i) == of_app(entries.take(i), entries[i].app_id).len(),
{
    let newer = |j: int| is_newer(entries, j, i);
    let earlier = |j: int| stands_before(entries, j, i);
    assert forall|j: int| 0 <= j < entries.len() implies #[trigger] newer(j) == earlier(j) by {
        before_asymmetric(entries[i].file, entries[j].file);
        before_total(entries[i].file, entries[j].file);
        if j < i {
            assert(!before(entries[j].file, entries[i].file));
        } else if i < j {
            assert(!before(entries[i].file, entries[j].file));
        }
    }
    lemma_how_many_same(newer, earlier, entries.len());
    lemma_earlier_count(entries, i, entries.len());
}

proof fn lemma_earlier_count(entries: Seq<EntryView>, i: int, n: nat)
    requires
        0 <= i < entries.len(),
        n <= entries.len(),
    ensures
        how_many(|j: int| stands_before(entries, j, i), n) == of_app(
            entries.take(if n <= i {
                n as int
            } else {
                i
            }),
            entries[i].app_id,
        ).len(),
    decreases n,
{
    reveal(Seq::filter);
    if n > 0 {
        let m = (n - 1) as nat;
        lemma_earlier_count(entries, i, m);
        if n <= i {
            assert(entries.take(n as int).drop_last() =~= entries.take(m as int));
            assert(entries.take(n as int).last() == entries[m as int]);
        }
    } else {
        assert(entries.take(0) =~= Seq::empty());
    }
}

/// Of an index in order, retention keeps the first entries of each app, as many as are
/// to be kept.
pub proof fn retention_keeps_first_of_each_app(
    entries: Seq<EntryView>,
    keep: nat,
    app_id: Seq<char>,
)
    requires
        is_newest_first(entries),
    ensures
        of_app(retained(entries, keep), app_id) == if of_app(entries, app_id).len() <= keep {
            of_app(entries, app_id)
        } else {
            of_app(entries, app_id).take(keep as int)
        },
{
    lemma_first_kept(entries, keep, app_id, entries.len());
    assert(entries.take(entries.len() as int) =~= entries);
}

proof fn lemma_first_kept(entries: Seq<EntryView>, keep: nat, app_id: Seq<char>, n: nat)
    requires
        is_newest_first(entries),
        n <= entries.len(),
    ensures
        of_app(retained_of(entries, keep, n), app_id) == if of_app(
            entries.take(n as int),
            app_id,
        ).len() <= keep {
            of_app(entries.take(n as int), app_id)
        } else {
            of_app(entries.take(n as int), app_id).take(keep as int)
        },
    decreases n,
{
    if n > 0 {
        let m = (n - 1) as nat;
        let e = entries[m as int];
        lemma_first_kept(entries, keep, app_id, m);
        lemma_newer_stand_before(entries, m as int);
        assert(entries.take(n as int) =~= entries.take(m as int).push(e));
        let rest = retained_of(entries, keep, m);
        let own = of_app(entries.take(m as int), app_id);
        entries_of_app_keep_order(entries.take(m as int), e, app_id);
        entries_of_app_keep_order(rest, e, app_id);
        if e.app_id == app_id {
            if own.len() < keep {
                assert(of_app(retained_of(entries, keep, n), app_id) =~= own.push(e));
            } else {
                assert(own.push(e).take(keep as int) =~= own.take(keep as int));
                assert(own.take(own.len() as int) =~= own);
            }
        }
    } else {
        assert(entries.take(0) =~= Seq::empty());
        entries_of_app_keep_order(Seq::empty(), arbitrary(), app_id);
    }
}

/// The contents of an entry are what stands in it.
pub proof fn entry_contents_are_exact(e: HistoryEntry)
    ensures
        e@.app_id == e.app_id@,
        e@.file == e.file@,
        e@.format == e.format@,
        e@.size == e.size,
        e@.files == e.files,
        e@.bytes_total == e.bytes_total,
        e@.started_at == e.started_at@,
        e@.finished_at == e.finished_at@,
        e@.checksum == opt_text(e.checksum),
        e@.status == e.status@,
{
}

} // verus!
