//! What a walk through the roots of an app finds.

use crate::events::{opt_event, report_due, Event, EventView, LogLevel, OVERALL_INTERVAL_MS};
use crate::excludes::{all_portable, excluded_by, is_excluded, portable, set_globs};
use crate::paths::{
    below, is_firm, is_plain_name, join, joined_name_is_below, key_of, parent, parent_is_shorter,
    path_key, path_parent, path_strip, slashed,
};
use crate::platform::Platform;
use crate::text::{cat4, ends_in, texts};
use globset::GlobSet;
use vstd::hash_set::StringHashSet;
use vstd::prelude::*;

verus! {

/// The place of a path below its root; the path itself where it is not below.
pub open spec fn place_below(p: Platform, root: Seq<char>, path: Seq<char>) -> Seq<char> {
    match below(p, path, root) {
        Some(rel) => rel,
        None => path,
    }
}

fn relative_to(root: &str, path: &str, platform: Platform) -> (r: String)
    ensures
        r@ == place_below(platform, root@, path@),
{
    match path_strip(platform, path, root) {
        Some(rel) => rel,
        None => path.to_string(),
    }
}

/// Whether the rules exclude what a walk found at `path` below `root`.
pub fn entry_excluded(excludes: &GlobSet, root: &str, path: &str, platform: Platform) -> (r: bool)
    ensures
        set_globs(*excludes).len() == 0 ==> !r,
        all_portable(set_globs(*excludes)) && portable(slashed(platform, path@)) ==> r
            == excluded_by(
            platform,
            set_globs(*excludes),
            path@,
            place_below(platform, root@, path@),
        ),
{
    let rel = relative_to(root, path, platform);
    is_excluded(excludes, path, rel.as_str(), platform)
}

/// Whether a walk goes on with what it found: the root itself always, the rest
/// where no rule excludes it. What is below an excluded directory is not looked
/// at.
pub fn walk_enters(depth: usize, excluded: bool) -> (r: bool)
    ensures
        r == (depth == 0 || !excluded),
{
    depth == 0 || !excluded
}

/// One find of a walk.
#[derive(Debug, Clone)]
pub enum Visit {
    Dir { path: String },
    /// Anything but a directory. A symbolic link counts as itself.
    File { root: String, path: String, size: u64, excluded: bool },
    /// Something could not be looked at.
    Failed { error: String },
}

/// The contents of a [`Visit`].
#[verifier::ext_equal]
pub enum VisitView {
    Dir { path: Seq<char> },
    File { root: Seq<char>, path: Seq<char>, size: u64, excluded: bool },
    Failed { error: Seq<char> },
}

impl View for Visit {
    type V = VisitView;

    open spec fn view(&self) -> VisitView {
        match *self {
            Visit::Dir { path } => VisitView::Dir { path: path@ },
            Visit::File { root, path, size, excluded } => VisitView::File {
                root: root@,
                path: path@,
                size,
                excluded,
            },
            Visit::Failed { error } => VisitView::Failed { error: error@ },
        }
    }
}

/// The directories above a relative path, each in its normal form.
pub open spec fn ancestors(p: Platform, rel: Seq<char>) -> Set<Seq<char>>
    decreases rel.len(),
{
    match parent(p, rel) {
        Some(d) => if d.len() > 0 {
            proof {
                parent_is_shorter(p, rel);
            }
            ancestors(p, d).insert(key_of(p, d))
        } else {
            Set::empty()
        },
        None => Set::empty(),
    }
}

/// What a walk has found so far.
pub struct Scan {
    pub app_id: String,
    pub platform: Platform,
    pub files: Vec<String>,
    pub dirs: Vec<String>,
    /// The directories above the files, as seen from their roots.
    pub above_files: StringHashSet,
    pub bytes_total: u64,
    pub scanned: u64,
}

/// The contents of a [`Scan`].
#[verifier::ext_equal]
pub struct ScanView {
    pub app_id: Seq<char>,
    pub platform: Platform,
    pub files: Seq<Seq<char>>,
    pub dirs: Seq<Seq<char>>,
    pub above_files: Set<Seq<char>>,
    pub bytes_total: u64,
    pub scanned: u64,
}

impl View for Scan {
    type V = ScanView;

    open spec fn view(&self) -> ScanView {
        ScanView {
            app_id: self.app_id@,
            platform: self.platform,
            files: texts(self.files@),
            dirs: texts(self.dirs@),
            above_files: self.above_files@,
            bytes_total: self.bytes_total,
            scanned: self.scanned,
        }
    }
}

impl ScanView {
    /// Whether the counters can take the find.
    pub open spec fn has_room(self, v: VisitView) -> bool {
        match v {
            VisitView::File { size, excluded, .. } => excluded || (self.bytes_total + size
                <= u64::MAX && self.scanned < u64::MAX),
            _ => true,
        }
    }

    /// What a walk has found with one more find.
    pub open spec fn with(self, v: VisitView) -> ScanView {
        match v {
            VisitView::Dir { path } => ScanView { dirs: self.dirs.push(path), ..self },
            VisitView::File { root, path, size, excluded } => if excluded {
                self
            } else {
                ScanView {
                    files: self.files.push(path),
                    bytes_total: (self.bytes_total + size) as u64,
                    scanned: (self.scanned + 1) as u64,
                    above_files: self.above_files.union(
                        ancestors(self.platform, place_below(self.platform, root, path)),
                    ),
                    ..self
                }
            },
            VisitView::Failed { .. } => self,
        }
    }

    /// What is reported of a find, when the last report is `elapsed_ms` ago.
    pub open spec fn report(self, v: VisitView, elapsed_ms: u128) -> Option<EventView> {
        match v {
            VisitView::Dir { .. } => None,
            VisitView::File { excluded, .. } => if !excluded && elapsed_ms >= OVERALL_INTERVAL_MS {
                Some(
                    EventView::ScanUpdate {
                        app_id: self.app_id,
                        files_scanned: self.with(v).scanned,
                    },
                )
            } else {
                None
            },
            VisitView::Failed { error } => Some(
                EventView::Log {
                    level: LogLevel::Warn,
                    msg: "app "@ + self.app_id + ": walk error: "@ + error,
                },
            ),
        }
    }

    /// The directories that are kept on their own: those whose path is not that
    /// of a place above a file. A directory goes by its whole path, a place above
    /// a file by its path below the root: directories that were found under an
    /// absolute path are all kept.
    pub open spec fn lone_dirs(self) -> Seq<Seq<char>> {
        let p = self.platform;
        self.dirs.filter(|d: Seq<char>| !self.above_files.contains(key_of(p, d)))
    }
}

impl Scan {
    /// Nothing is found yet.
    pub fn new(app_id: &str, platform: Platform) -> (r: Scan)
        ensures
            r@ == (ScanView {
                app_id: app_id@,
                platform,
                files: Seq::empty(),
                dirs: Seq::empty(),
                above_files: Set::empty(),
                bytes_total: 0,
                scanned: 0,
            }),
    {
        let r = Scan {
            app_id: app_id.to_string(),
            platform,
            files: Vec::new(),
            dirs: Vec::new(),
            above_files: StringHashSet::new(),
            bytes_total: 0,
            scanned: 0,
        };
        assert(r@.files =~= Seq::empty());
        assert(r@.dirs =~= Seq::empty());
        r
    }

    /// Whether the counters can take the find.
    pub fn can_visit(&self, v: &Visit) -> (r: bool)
        ensures
            r == self@.has_room(v@),
    {
        match v {
            Visit::File { size, excluded, .. } => *excluded || (*size <= u64::MAX
                - self.bytes_total && self.scanned < u64::MAX),
            _ => true,
        }
    }

    fn note_ancestors(&mut self, rel: &str)
        ensures
            final(self)@ == (ScanView {
                above_files: old(self)@.above_files.union(ancestors(old(self)@.platform, rel@)),
                ..old(self)@
            }),
    {
        let platform = self.platform;
        let ghost before = self@;
        let mut at = path_parent(platform, rel);
        let ghost mut from = rel@;
        assert(before.above_files.union(ancestors(platform, rel@)) =~= self@.above_files.union(
            ancestors(platform, from),
        ));
        loop
            invariant
                platform == before.platform,
                before == old(self)@,
                self@ == (ScanView { above_files: self@.above_files, ..before }),
                match at {
                    Some(d) => parent(platform, from) == Some(d@),
                    None => parent(platform, from) is None,
                },
                before.above_files.union(ancestors(platform, rel@)) == self@.above_files.union(
                    ancestors(platform, from),
                ),
            decreases from.len(),
        {
            let d = match at {
                Some(d) => d,
                None => {
                    assert(self@.above_files.union(Set::empty()) =~= self@.above_files);
                    return;
                },
            };
            if d.as_str().is_empty() {
                assert(self@.above_files.union(Set::empty()) =~= self@.above_files);
                return;
            }
            let ghost held = self@.above_files;
            let key = path_key(platform, d.as_str());
            self.above_files.insert(key);
            proof {
                parent_is_shorter(platform, from);
                assert(self@.above_files.union(ancestors(platform, d@)) =~= held.union(
                    ancestors(platform, from),
                ));
                from = d@;
            }
            at = path_parent(platform, d.as_str());
        }
    }

    /// Takes in one find. Returns what is to be reported of it.
    pub fn visit(&mut self, v: &Visit, elapsed_ms: u128) -> (r: Option<Event>)
        requires
            old(self)@.has_room(v@),
        ensures
            final(self)@ == old(self)@.with(v@),
            opt_event(r) == old(self)@.report(v@, elapsed_ms),
    {
        let ghost before = self@;
        let ghost files = self.files@;
        let ghost dirs = self.dirs@;
        match v {
            Visit::Dir { path } => {
                self.dirs.push(path.clone());
                assert(self@.dirs =~= texts(dirs).push(path@));
                None
            },
            Visit::File { root, path, size, excluded } => {
                if *excluded {
                    return None;
                }
                let rel = relative_to(root.as_str(), path.as_str(), self.platform);
                self.files.push(path.clone());
                assert(texts(self.files@) =~= texts(files).push(path@));
                self.bytes_total = self.bytes_total + *size;
                self.scanned = self.scanned + 1;
                self.note_ancestors(rel.as_str());
                if report_due(elapsed_ms) {
                    Some(
                        Event::ScanUpdate {
                            app_id: self.app_id.clone(),
                            files_scanned: self.scanned,
                        },
                    )
                } else {
                    None
                }
            },
            Visit::Failed { error } => Some(
                Event::Log {
                    level: LogLevel::Warn,
                    msg: cat4("app ", self.app_id.as_str(), ": walk error: ", error.as_str()),
                },
            ),
        }
    }

    /// The directories that are kept on their own.
    pub fn empty_dirs(&self) -> (r: Vec<String>)
        ensures
            texts(r@) == self@.lone_dirs(),
    {
        let platform = self.platform;
        let ghost all = texts(self.dirs@);
        let ghost lone = |d: Seq<char>| !self@.above_files.contains(key_of(platform, d));
        let mut r: Vec<String> = Vec::new();
        let mut i: usize = 0;
        proof {
            reveal(Seq::filter);
            assert(texts(r@) =~= all.take(0).filter(lone));
        }
        while i < self.dirs.len()
            invariant
                i <= self.dirs@.len(),
                platform == self.platform,
                all == texts(self.dirs@),
                lone == (|d: Seq<char>| !self@.above_files.contains(key_of(platform, d))),
                texts(r@) == all.take(i as int).filter(lone),
            decreases self.dirs@.len() - i,
        {
            let ghost so_far = r@;
            proof {
                reveal(Seq::filter);
                assert(all.take(i + 1).drop_last() =~= all.take(i as int));
                assert(all.take(i + 1).last() == self.dirs@[i as int]@);
            }
            let key = path_key(platform, self.dirs[i].as_str());
            if !self.above_files.contains(key.as_str()) {
                r.push(self.dirs[i].clone());
                assert(texts(r@) =~= texts(so_far).push(self.dirs@[i as int]@));
            }
            i = i + 1;
        }
        assert(all.take(i as int) =~= all);
        r
    }
}

// ---------------------------------------------------------------------------
// Laws
// ---------------------------------------------------------------------------

/// What a walk has found after several finds.
pub open spec fn visited(s: ScanView, visits: Seq<VisitView>) -> ScanView
    decreases visits.len(),
{
    if visits.len() == 0 {
        s
    } else {
        visited(s, visits.drop_last()).with(visits.last())
    }
}

/// The files among the finds that no rule excludes, in order.
pub open spec fn kept_paths(visits: Seq<VisitView>) -> Seq<Seq<char>>
    decreases visits.len(),
{
    if visits.len() == 0 {
        Seq::empty()
    } else {
        let rest = kept_paths(visits.drop_last());
        match visits.last() {
            VisitView::File { path, excluded, .. } => if excluded {
                rest
            } else {
                rest.push(path)
            },
            _ => rest,
        }
    }
}

/// The bytes of the files that no rule excludes.
pub open spec fn kept_bytes(visits: Seq<VisitView>) -> nat
    decreases visits.len(),
{
    if visits.len() == 0 {
        0
    } else {
        kept_bytes(visits.drop_last()) + match visits.last() {
            VisitView::File { size, excluded, .. } => if excluded {
                0nat
            } else {
                size as nat
            },
            _ => 0nat,
        }
    }
}

/// A scan lists each file that no rule excludes, in order, and adds up their
/// number and their bytes.
pub proof fn scan_adds_up(s: ScanView, visits: Seq<VisitView>)
    requires
        s.bytes_total + kept_bytes(visits) <= u64::MAX,
        s.scanned + kept_paths(visits).len() <= u64::MAX,
    ensures
        visited(s, visits).files == s.files + kept_paths(visits),
        visited(s, visits).bytes_total == s.bytes_total + kept_bytes(visits),
        visited(s, visits).scanned == s.scanned + kept_paths(visits).len(),
        visited(s, visits).platform == s.platform,
        visited(s, visits).app_id == s.app_id,
    decreases visits.len(),
{
    if visits.len() > 0 {
        scan_adds_up(s, visits.drop_last());
        assert(visited(s, visits).files =~= s.files + kept_paths(visits));
    } else {
        assert(visited(s, visits).files =~= s.files + kept_paths(visits));
    }
}

/// The directories among the finds, in order.
pub open spec fn found_dirs(visits: Seq<VisitView>) -> Seq<Seq<char>>
    decreases visits.len(),
{
    if visits.len() == 0 {
        Seq::empty()
    } else {
        let rest = found_dirs(visits.drop_last());
        match visits.last() {
            VisitView::Dir { path } => rest.push(path),
            _ => rest,
        }
    }
}

/// A scan lists each directory, in order.
pub proof fn scan_lists_directories(s: ScanView, visits: Seq<VisitView>)
    ensures
        visited(s, visits).dirs == s.dirs + found_dirs(visits),
        visited(s, visits).platform == s.platform,
    decreases visits.len(),
{
    if visits.len() > 0 {
        scan_lists_directories(s, visits.drop_last());
    }
    assert(visited(s, visits).dirs =~= s.dirs + found_dirs(visits));
}

/// What lies directly in a root is seen from it by its name; what does not lie in the
/// root is seen by its whole path.
pub proof fn place_below_root_is_name(p: Platform, root: Seq<char>, name: Seq<char>)
    requires
        is_firm(p, root),
        is_plain_name(p, name),
    ensures
        place_below(p, root, join(p, root, name)) == name,
{
    joined_name_is_below(p, root, name);
}

/// The directories that are kept on their own are those that were found and are not
/// noted as lying above a file, in order.
pub proof fn lone_directories_are_exact(s: ScanView, d: Seq<char>)
    ensures
        s.lone_dirs().contains(d) <==> s.dirs.contains(d) && !s.above_files.contains(
            key_of(s.platform, d),
        ),
        s.lone_dirs().len() <= s.dirs.len(),
{
    let p = s.platform;
    let lone = |x: Seq<char>| !s.above_files.contains(key_of(p, x));
    lemma_lone(s.dirs, lone, d);
}

proof fn lemma_lone(dirs: Seq<Seq<char>>, lone: spec_fn(Seq<char>) -> bool, d: Seq<char>)
    ensures
        dirs.filter(lone).contains(d) <==> dirs.contains(d) && lone(d),
        dirs.filter(lone).len() <= dirs.len(),
    decreases dirs.len(),
{
    reveal(Seq::filter);
    if dirs.len() > 0 {
        let rest = dirs.drop_last();
        lemma_lone(rest, lone, d);
        let kept = rest.filter(lone);
        let all = dirs.filter(lone);
        if all.contains(d) {
            let k = choose|k: int| 0 <= k < all.len() && all[k] == d;
            if k < kept.len() {
                assert(kept[k] == d);
                let i = choose|i: int| 0 <= i < rest.len() && rest[i] == d;
                assert(dirs[i] == d);
            } else {
                assert(dirs[dirs.len() - 1] == d);
            }
        }
        if dirs.contains(d) && lone(d) {
            let i = choose|i: int| 0 <= i < dirs.len() && dirs[i] == d;
            if i < rest.len() {
                assert(rest[i] == d);
                let k = choose|k: int| 0 <= k < kept.len() && kept[k] == d;
                assert(all[k] == d);
            } else {
                assert(all[kept.len() as int] == d);
            }
        }
    }
}

/// The directory that a file lies in, as seen from its root, is noted as lying above
/// it, and so is each above that. An excluded file leaves no note, nor does anything
/// but a file.
pub proof fn directories_above_a_file_are_noted(
    s: ScanView,
    root: Seq<char>,
    path: Seq<char>,
    size: u64,
    v: VisitView,
)
    ensures
        ({
            let now = s.with(VisitView::File { root, path, size, excluded: false }).above_files;
            let rel = place_below(s.platform, root, path);
            &&& s.above_files.subset_of(now)
            &&& parent(s.platform, rel) is Some && parent(s.platform, rel)->0.len() > 0
                ==> now.contains(key_of(s.platform, parent(s.platform, rel)->0)) && ancestors(
                s.platform,
                parent(s.platform, rel)->0,
            ).subset_of(now)
            &&& parent(s.platform, rel) is None || parent(s.platform, rel)->0.len() == 0 ==> now
                == s.above_files
        }),
        !(v matches VisitView::File { excluded, .. } && !excluded) ==> s.with(v).above_files
            == s.above_files,
{
    let now = s.with(VisitView::File { root, path, size, excluded: false }).above_files;
    let rel = place_below(s.platform, root, path);
    if parent(s.platform, rel) is None || parent(s.platform, rel)->0.len() == 0 {
        assert(now =~= s.above_files);
    }
}

/// A file is reported with how many are found with it, where it is not excluded and
/// the last report is a while ago. What could not be looked at is warned of, with why.
pub proof fn finds_are_reported(s: ScanView, v: VisitView, elapsed_ms: u128)
    requires
        s.scanned < u64::MAX,
    ensures
        match v {
            VisitView::Dir { .. } => s.report(v, elapsed_ms) is None,
            VisitView::File { excluded, .. } => {
                &&& (s.report(v, elapsed_ms) is Some) == (!excluded && elapsed_ms >= 100)
                &&& s.report(v, elapsed_ms) matches Some(ev) ==> ev == (EventView::ScanUpdate {
                    app_id: s.app_id,
                    files_scanned: (s.scanned + 1) as u64,
                })
            },
            VisitView::Failed { error } => s.report(v, elapsed_ms) matches Some(
                EventView::Log { level, msg },
            ) && level == LogLevel::Warn && ends_in(msg, error) && s.with(v) == s,
        },
{
    if let VisitView::Failed { error } = v {
        let msg = "app "@ + s.app_id + ": walk error: "@ + error;
        assert(msg.skip(msg.len() - error.len()) =~= error);
    }
}

/// The counters can take a find where the sums still fit.
pub proof fn scan_takes_what_fits(s: ScanView, v: VisitView)
    requires
        s.scanned < u64::MAX,
        v matches VisitView::File { size, .. } ==> s.bytes_total + size <= u64::MAX,
    ensures
        s.has_room(v),
{
}

} // verus!
