//! What goes into a backup, and the progress of putting it there.

use crate::archive::{
    archive_name, archive_target, backup_name_is_plain, candidate_file, file_names_end_in_extension,
    first_free_file_at, is_first_free_file, name_in_archive, place_in_dir, root_pairs,
    unique_dest_file,
};
use crate::clock::is_stamp;
use crate::config::Format;
use crate::events::{event_list, Event, EventView, LogLevel};
use crate::history::{archive_named, backup_name_tells_format};
use crate::paths::{
    components, is_firm, is_plain_name, is_under, join, join_adds_component, key_of,
    key_tells_path, path_join, path_key, path_starts_with, same_path,
};
use crate::platform::Platform;
use crate::summary::{file_name_text, longer_name_is_plain, name_or_empty};
use crate::text::{cat, cat3, cat4, ends_in, texts};
use vstd::hash_set::StringHashSet;
use vstd::prelude::*;
use vstd::string::*;

verus! {

/// Where things go inside a backup.
#[derive(Debug, Clone)]
pub enum Placement {
    /// Under names in an archive.
    Archive,
    /// Below the directory `dir`.
    Directory { dir: String },
}

/// The contents of a [`Placement`].
#[verifier::ext_equal]
pub enum PlacementView {
    Archive,
    Directory { dir: Seq<char> },
}

impl View for Placement {
    type V = PlacementView;

    open spec fn view(&self) -> PlacementView {
        match self {
            Placement::Archive => PlacementView::Archive,
            Placement::Directory { dir } => PlacementView::Directory { dir: dir@ },
        }
    }
}

/// Where what lies at `path` in a root goes.
pub open spec fn placed(
    p: Platform,
    placement: PlacementView,
    prefix: Seq<char>,
    root: Seq<char>,
    path: Seq<char>,
) -> Seq<char> {
    match placement {
        PlacementView::Archive => name_in_archive(p, prefix, root, path),
        PlacementView::Directory { dir } => place_in_dir(p, dir, prefix, root, path),
    }
}

fn place(placement: &Placement, prefix: &str, root: &str, path: &str, platform: Platform) -> (r:
    String)
    ensures
        r@ == placed(platform, placement@, prefix@, root@, path@),
{
    match placement {
        Placement::Archive => archive_name(prefix, root, path, platform),
        Placement::Directory { dir } => archive_target(dir.as_str(), prefix, root, path, platform),
    }
}

/// One thing to put into a backup: what lies at `path` goes to `place`.
#[derive(Debug, Clone)]
pub struct PackStep {
    pub path: String,
    pub place: String,
}

/// The contents of a [`PackStep`].
#[verifier::ext_equal]
pub struct StepView {
    pub path: Seq<char>,
    pub place: Seq<char>,
}

impl View for PackStep {
    type V = StepView;

    open spec fn view(&self) -> StepView {
        StepView { path: self.path@, place: self.place@ }
    }
}

/// The contents of each step.
pub open spec fn step_list(steps: Seq<PackStep>) -> Seq<StepView> {
    steps.map_values(|s: PackStep| s@)
}

/// The contents of each list of steps.
pub open spec fn step_lists(groups: Seq<Vec<PackStep>>) -> Seq<Seq<StepView>> {
    groups.map_values(|g: Vec<PackStep>| step_list(g@))
}

/// Where a directory goes: once for each root that it is in, in the order of the
/// first `n` roots.
pub open spec fn dir_places(
    p: Platform,
    placement: PlacementView,
    roots: Seq<(Seq<char>, Seq<char>)>,
    dir: Seq<char>,
    n: nat,
) -> Seq<StepView>
    decreases n,
{
    if n == 0 {
        Seq::empty()
    } else {
        let (root, prefix) = roots[n - 1];
        let rest = dir_places(p, placement, roots, dir, (n - 1) as nat);
        if is_under(p, dir, root) {
            rest.push(StepView { path: dir, place: placed(p, placement, prefix, root, dir) })
        } else {
            rest
        }
    }
}

/// Where each directory goes.
pub open spec fn dir_steps(
    p: Platform,
    placement: PlacementView,
    roots: Seq<(Seq<char>, Seq<char>)>,
    dirs: Seq<Seq<char>>,
) -> Seq<Seq<StepView>> {
    dirs.map_values(|dir: Seq<char>| dir_places(p, placement, roots, dir, roots.len()))
}

/// Where the first `n` files go that are in a root and not yet in `seen`, and
/// what is seen after them.
pub open spec fn root_steps(
    p: Platform,
    placement: PlacementView,
    root: Seq<char>,
    prefix: Seq<char>,
    files: Seq<Seq<char>>,
    seen: Set<Seq<char>>,
    n: nat,
) -> (Seq<StepView>, Set<Seq<char>>)
    decreases n,
{
    if n == 0 {
        (Seq::empty(), seen)
    } else {
        let (steps, now) = root_steps(p, placement, root, prefix, files, seen, (n - 1) as nat);
        let path = files[n - 1];
        if is_under(p, path, root) && !now.contains(key_of(p, path)) {
            (
                steps.push(StepView { path, place: placed(p, placement, prefix, root, path) }),
                now.insert(key_of(p, path)),
            )
        } else {
            (steps, now)
        }
    }
}

/// Where the files go: each once, in the first of the first `n` roots that it is
/// in.
pub open spec fn file_steps(
    p: Platform,
    placement: PlacementView,
    roots: Seq<(Seq<char>, Seq<char>)>,
    files: Seq<Seq<char>>,
    n: nat,
) -> (Seq<StepView>, Set<Seq<char>>)
    decreases n,
{
    if n == 0 {
        (Seq::empty(), Set::empty())
    } else {
        let (steps, seen) = file_steps(p, placement, roots, files, (n - 1) as nat);
        let (root, prefix) = roots[n - 1];
        let (more, now) = root_steps(p, placement, root, prefix, files, seen, files.len());
        (steps + more, now)
    }
}

/// Whether the file at `i` is packed in the root at `k`: it is in that root, and
/// was not packed before.
pub open spec fn packed_in(
    p: Platform,
    placement: PlacementView,
    roots: Seq<(Seq<char>, Seq<char>)>,
    files: Seq<Seq<char>>,
    k: int,
    i: int,
) -> bool {
    let (root, prefix) = roots[k];
    let had = file_steps(p, placement, roots, files, k as nat).1;
    let now = root_steps(p, placement, root, prefix, files, had, i as nat).1;
    is_under(p, files[i], root) && !now.contains(key_of(p, files[i]))
}

/// Whether files are still looked at behind the last one that is packed, which
/// is so where the last file is not packed in the last root.
pub open spec fn looks_further(
    p: Platform,
    placement: PlacementView,
    roots: Seq<(Seq<char>, Seq<char>)>,
    files: Seq<Seq<char>>,
) -> bool {
    roots.len() > 0 && files.len() > 0 && !packed_in(
        p,
        placement,
        roots,
        files,
        roots.len() - 1,
        files.len() - 1,
    )
}

/// Where the directories go that are kept on their own.
pub fn plan_dirs(
    roots: &Vec<(String, String)>,
    dirs: &Vec<String>,
    placement: &Placement,
    platform: Platform,
) -> (r: Vec<Vec<PackStep>>)
    ensures
        step_lists(r@) == dir_steps(platform, placement@, root_pairs(roots@), texts(dirs@)),
{
    let ghost all = dir_steps(platform, placement@, root_pairs(roots@), texts(dirs@));
    let mut r: Vec<Vec<PackStep>> = Vec::new();
    let mut i: usize = 0;
    assert(step_lists(r@) =~= all.take(0));
    while i < dirs.len()
        invariant
            i <= dirs@.len(),
            all == dir_steps(platform, placement@, root_pairs(roots@), texts(dirs@)),
            step_lists(r@) == all.take(i as int),
        decreases dirs@.len() - i,
    {
        let ghost so_far = r@;
        let group = places_of(roots, dirs[i].as_str(), placement, platform);
        r.push(group);
        proof {
            assert(step_list(group@) == all[i as int]);
            assert(step_lists(r@) =~= step_lists(so_far).push(step_list(group@)));
            assert(all.take(i + 1) =~= all.take(i as int).push(all[i as int]));
        }
        i = i + 1;
    }
    assert(all.take(i as int) =~= all);
    r
}

fn places_of(
    roots: &Vec<(String, String)>,
    dir: &str,
    placement: &Placement,
    platform: Platform,
) -> (r: Vec<PackStep>)
    ensures
        step_list(r@) == dir_places(
            platform,
            placement@,
            root_pairs(roots@),
            dir@,
            root_pairs(roots@).len(),
        ),
{
    let ghost pairs = root_pairs(roots@);
    let mut r: Vec<PackStep> = Vec::new();
    let mut k: usize = 0;
    assert(step_list(r@) =~= Seq::empty());
    while k < roots.len()
        invariant
            k <= roots@.len(),
            pairs == root_pairs(roots@),
            step_list(r@) == dir_places(platform, placement@, pairs, dir@, k as nat),
        decreases roots@.len() - k,
    {
        let ghost so_far = r@;
        let root = roots[k].0.as_str();
        let prefix = roots[k].1.as_str();
        assert(pairs[k as int] == (root@, prefix@));
        if path_starts_with(platform, dir, root) {
            let step = PackStep {
                path: dir.to_string(),
                place: place(placement, prefix, root, dir, platform),
            };
            r.push(step);
            assert(step_list(r@) =~= step_list(so_far).push(step@));
        }
        k = k + 1;
    }
    r
}

/// Where the files go.
#[derive(Debug, Clone)]
pub struct FilePlan {
    /// Each file once, in the first root that it is in.
    pub steps: Vec<PackStep>,
    /// Whether files are still looked at behind the last of them.
    pub looks_further: bool,
}

/// Where the files go: each once, in the first root that it is in.
pub fn plan_files(
    roots: &Vec<(String, String)>,
    files: &Vec<String>,
    placement: &Placement,
    platform: Platform,
) -> (r: FilePlan)
    ensures
        step_list(r.steps@) == file_steps(
            platform,
            placement@,
            root_pairs(roots@),
            texts(files@),
            roots@.len(),
        ).0,
        r.looks_further == looks_further(
            platform,
            placement@,
            root_pairs(roots@),
            texts(files@),
        ),
{
    let ghost pairs = root_pairs(roots@);
    let ghost all = texts(files@);
    let mut seen = StringHashSet::new();
    let mut steps: Vec<PackStep> = Vec::new();
    let mut passed = false;
    let mut k: usize = 0;
    assert(step_list(steps@) =~= Seq::empty());
    while k < roots.len()
        invariant
            k <= roots@.len(),
            pairs == root_pairs(roots@),
            all == texts(files@),
            step_list(steps@) == file_steps(platform, placement@, pairs, all, k as nat).0,
            seen@ == file_steps(platform, placement@, pairs, all, k as nat).1,
            passed == (k > 0 && all.len() > 0 && !packed_in(
                platform,
                placement@,
                pairs,
                all,
                k - 1,
                all.len() - 1,
            )),
        decreases roots@.len() - k,
    {
        let ghost done = step_list(steps@);
        let ghost before = seen@;
        let root = roots[k].0.as_str();
        let prefix = roots[k].1.as_str();
        assert(pairs[k as int] == (root@, prefix@));
        let mut i: usize = 0;
        assert(step_list(steps@) =~= done + Seq::empty());
        while i < files.len()
            invariant
                i <= files@.len(),
                k < roots@.len(),
                pairs == root_pairs(roots@),
                all == texts(files@),
                pairs[k as int] == (root@, prefix@),
                before == file_steps(platform, placement@, pairs, all, k as nat).1,
                step_list(steps@) == done + root_steps(
                    platform,
                    placement@,
                    root@,
                    prefix@,
                    all,
                    before,
                    i as nat,
                ).0,
                seen@ == root_steps(platform, placement@, root@, prefix@, all, before, i as nat).1,
                i > 0 ==> passed == !packed_in(
                    platform,
                    placement@,
                    pairs,
                    all,
                    k as int,
                    i - 1,
                ),
                i == 0 && all.len() == 0 ==> !passed,
            decreases files@.len() - i,
        {
            let ghost so_far = steps@;
            let path = files[i].as_str();
            assert(all[i as int] == path@);
            passed = true;
            if path_starts_with(platform, path, root) {
                let key = path_key(platform, path);
                if !seen.contains(key.as_str()) {
                    seen.insert(key);
                    let step = PackStep {
                        path: path.to_string(),
                        place: place(placement, prefix, root, path, platform),
                    };
                    steps.push(step);
                    passed = false;
                    assert(step_list(steps@) =~= step_list(so_far).push(step@));
                    assert(step_list(steps@) =~= done + root_steps(
                        platform,
                        placement@,
                        root@,
                        prefix@,
                        all,
                        before,
                        (i + 1) as nat,
                    ).0);
                }
            }
            i = i + 1;
        }
        k = k + 1;
    }
    FilePlan { steps, looks_further: passed }
}

// ---------------------------------------------------------------------------
// Where a backup is written
// ---------------------------------------------------------------------------

/// Where a backup ends up and where it is written before.
#[derive(Debug, Clone)]
pub struct PackPaths {
    pub final_path: String,
    pub tmp_path: String,
}

/// What stands between the name of a backup and `.tmp` while it is written.
pub open spec fn tmp_tail(format: Format) -> Seq<char> {
    "."@ + format.suffix() + ".tmp"@
}

/// Whether the paths are right for a backup of this format: an archive takes the
/// first name that is free, a directory always the same.
pub open spec fn are_pack_paths(
    p: Platform,
    app_dir: Seq<char>,
    base_name: Seq<char>,
    format: Format,
    taken: Seq<Seq<char>>,
    final_path: Seq<char>,
    tmp_path: Seq<char>,
) -> bool {
    if format is Dir {
        &&& final_path == join(p, app_dir, base_name + ".dir"@)
        &&& tmp_path == join(p, app_dir, base_name + ".dir.tmp"@)
    } else {
        &&& exists|name: Seq<char>|
            #[trigger] is_first_free_file(base_name, format, taken, name) && final_path == join(
                p,
                app_dir,
                name,
            )
        &&& tmp_path == join(p, app_dir, name_or_empty(p, final_path) + tmp_tail(format))
    }
}

/// Where the next backup goes and where it is written before. `taken` are the
/// names of what is in `app_dir`.
pub fn pack_paths(
    app_dir: &str,
    base_name: &str,
    format: Format,
    taken: &Vec<String>,
    platform: Platform,
) -> (r: PackPaths)
    ensures
        are_pack_paths(
            platform,
            app_dir@,
            base_name@,
            format,
            texts(taken@),
            r.final_path@,
            r.tmp_path@,
        ),
{
    match format {
        Format::Dir => {
            let name = cat(base_name, ".dir");
            let tmp = cat(base_name, ".dir.tmp");
            PackPaths {
                final_path: path_join(platform, app_dir, name.as_str()),
                tmp_path: path_join(platform, app_dir, tmp.as_str()),
            }
        },
        _ => {
            let final_path = unique_dest_file(app_dir, base_name, format, taken, platform);
            let name = file_name_text(platform, final_path.as_str());
            let tail = cat3(".", format.extension(), ".tmp");
            let tmp = cat(name.as_str(), tail.as_str());
            PackPaths { tmp_path: path_join(platform, app_dir, tmp.as_str()), final_path }
        },
    }
}

// ---------------------------------------------------------------------------
// Progress
// ---------------------------------------------------------------------------

/// What came of one file.
#[derive(Debug, Clone)]
pub enum FileOutcome {
    /// It is in the backup, with so many bytes.
    Written { bytes: u64 },
    /// It could not be opened.
    NotOpened { error: String },
    /// The archive took no entry for it.
    NotAdded { error: String },
    /// Its contents could not be copied.
    NotCopied { error: String },
}

/// The contents of a [`FileOutcome`].
#[verifier::ext_equal]
pub enum OutcomeOf {
    Written { bytes: u64 },
    NotOpened { error: Seq<char> },
    NotAdded { error: Seq<char> },
    NotCopied { error: Seq<char> },
}

impl View for FileOutcome {
    type V = OutcomeOf;

    open spec fn view(&self) -> OutcomeOf {
        match *self {
            FileOutcome::Written { bytes } => OutcomeOf::Written { bytes },
            FileOutcome::NotOpened { error } => OutcomeOf::NotOpened { error: error@ },
            FileOutcome::NotAdded { error } => OutcomeOf::NotAdded { error: error@ },
            FileOutcome::NotCopied { error } => OutcomeOf::NotCopied { error: error@ },
        }
    }
}

/// How far the backup of an app has come.
#[derive(Debug, Clone)]
pub struct PackRun {
    pub app_id: String,
    pub format: Format,
    pub files_total: u64,
    pub bytes_total: u64,
    pub done: u64,
    pub bytes_done: u64,
}

/// The contents of a [`PackRun`].
#[verifier::ext_equal]
pub struct RunView {
    pub app_id: Seq<char>,
    pub format: Format,
    pub files_total: u64,
    pub bytes_total: u64,
    pub done: u64,
    pub bytes_done: u64,
}

impl View for PackRun {
    type V = RunView;

    open spec fn view(&self) -> RunView {
        RunView {
            app_id: self.app_id@,
            format: self.format,
            files_total: self.files_total,
            bytes_total: self.bytes_total,
            done: self.done,
            bytes_done: self.bytes_done,
        }
    }
}

/// The warning on a file that is left out.
pub open spec fn left_out(format: Format, path: Seq<char>, outcome: OutcomeOf) -> Seq<char> {
    match outcome {
        OutcomeOf::Written { .. } => Seq::empty(),
        OutcomeOf::NotOpened { error } => "cannot open "@ + path + ", skipped: "@ + error,
        OutcomeOf::NotAdded { error } => "failed to add "@ + path + " to archive: "@ + error,
        OutcomeOf::NotCopied { error } => if format is Dir {
            "failed to copy "@ + path + ", skipped: "@ + error
        } else {
            "failed to pack "@ + path + ", skipped: "@ + error
        },
    }
}

impl RunView {
    /// Whether the counters can take the outcome.
    pub open spec fn has_room(self, outcome: OutcomeOf) -> bool {
        outcome matches OutcomeOf::Written { bytes } ==> self.done < u64::MAX && self.bytes_done
            + bytes <= u64::MAX
    }

    /// How far the backup has come after one more file.
    pub open spec fn with(self, outcome: OutcomeOf) -> RunView {
        match outcome {
            OutcomeOf::Written { bytes } => RunView {
                done: (self.done + 1) as u64,
                bytes_done: (self.bytes_done + bytes) as u64,
                ..self
            },
            _ => self,
        }
    }

    /// The report on how far the backup has come.
    pub open spec fn progress(self) -> EventView {
        EventView::AppProgress {
            app_id: self.app_id,
            files_done: self.done,
            files_total: self.files_total,
            bytes_done: self.bytes_done,
            bytes_total: self.bytes_total,
            eta: None,
        }
    }

    /// What is reported of one file. Only for a zip is each file named.
    pub open spec fn report(self, step: StepView, outcome: OutcomeOf) -> Seq<EventView> {
        match outcome {
            OutcomeOf::Written { bytes } => {
                let named = if self.format is Zip {
                    seq![
                        EventView::FileDone {
                            app_id: self.app_id,
                            path: step.place,
                            bytes_written: bytes,
                        },
                    ]
                } else {
                    Seq::empty()
                };
                named.push(self.with(outcome).progress())
            },
            _ => seq![
                EventView::Log {
                    level: LogLevel::Warn,
                    msg: left_out(self.format, step.path, outcome),
                },
            ],
        }
    }
}

impl PackRun {
    /// Nothing is packed yet.
    pub fn new(app_id: &str, format: Format, files_total: u64, bytes_total: u64) -> (r: PackRun)
        ensures
            r@ == (RunView {
                app_id: app_id@,
                format,
                files_total,
                bytes_total,
                done: 0,
                bytes_done: 0,
            }),
    {
        PackRun {
            app_id: app_id.to_string(),
            format,
            files_total,
            bytes_total,
            done: 0,
            bytes_done: 0,
        }
    }

    /// Whether the counters can take the outcome.
    pub fn can_take(&self, outcome: &FileOutcome) -> (r: bool)
        ensures
            r == self@.has_room(outcome@),
    {
        match outcome {
            FileOutcome::Written { bytes } => self.done < u64::MAX && *bytes <= u64::MAX
                - self.bytes_done,
            _ => true,
        }
    }

    fn warning(&self, step: &PackStep, outcome: &FileOutcome) -> (r: String)
        ensures
            r@ == left_out(self.format, step@.path, outcome@),
    {
        let path = step.path.as_str();
        match outcome {
            FileOutcome::Written { .. } => {
                let r = String::new();
                assert(r@ =~= Seq::empty());
                r
            },
            FileOutcome::NotOpened { error } => cat4(
                "cannot open ",
                path,
                ", skipped: ",
                error.as_str(),
            ),
            FileOutcome::NotAdded { error } => cat4(
                "failed to add ",
                path,
                " to archive: ",
                error.as_str(),
            ),
            FileOutcome::NotCopied { error } => match self.format {
                Format::Dir => cat4("failed to copy ", path, ", skipped: ", error.as_str()),
                _ => cat4("failed to pack ", path, ", skipped: ", error.as_str()),
            },
        }
    }

    /// Takes in what came of one file. Returns what is to be reported of it.
    pub fn take(&mut self, step: &PackStep, outcome: &FileOutcome) -> (r: Vec<Event>)
        requires
            old(self)@.has_room(outcome@),
        ensures
            final(self)@ == old(self)@.with(outcome@),
            event_list(r@) == old(self)@.report(step@, outcome@),
    {
        let ghost before = self@;
        let mut events: Vec<Event> = Vec::new();
        match outcome {
            FileOutcome::Written { bytes } => {
                self.done = self.done + 1;
                self.bytes_done = self.bytes_done + *bytes;
                match self.format {
                    Format::Zip => {
                        events.push(
                            Event::FileDone {
                                app_id: self.app_id.clone(),
                                path: step.place.clone(),
                                bytes_written: *bytes,
                            },
                        );
                    },
                    _ => {},
                }
                events.push(
                    Event::AppProgress {
                        app_id: self.app_id.clone(),
                        files_done: self.done,
                        files_total: self.files_total,
                        bytes_done: self.bytes_done,
                        bytes_total: self.bytes_total,
                        eta: None,
                    },
                );
            },
            _ => {
                events.push(
                    Event::Log { level: LogLevel::Warn, msg: self.warning(step, outcome) },
                );
            },
        }
        assert(event_list(events@) =~= before.report(step@, outcome@));
        events
    }
}

/// How a file that is no directory is stored.
#[derive(Debug, Clone, Copy, PartialEq, Eq, Structural)]
pub enum Stored {
    /// As the link that it is.
    Link,
    /// With its contents.
    Contents,
}

/// How a file is stored: a symbolic link as itself, whatever it points to.
pub fn stored_as(is_symlink: bool) -> (r: Stored)
    ensures
        r == if is_symlink {
            Stored::Link
        } else {
            Stored::Contents
        },
{
    if is_symlink {
        Stored::Link
    } else {
        Stored::Contents
    }
}

/// The sum of sizes.
pub open spec fn size_sum(sizes: Seq<u64>) -> nat
    decreases sizes.len(),
{
    if sizes.len() == 0 {
        0
    } else {
        size_sum(sizes.drop_last()) + sizes.last() as nat
    }
}

/// The size of a directory whose files have these sizes; `None` where it is more
/// than the counter holds.
pub fn dir_size(sizes: &Vec<u64>) -> (r: Option<u64>)
    ensures
        r == if size_sum(sizes@) <= u64::MAX {
            Some(size_sum(sizes@) as u64)
        } else {
            None
        },
{
    let mut total: u64 = 0;
    let mut i: usize = 0;
    while i < sizes.len()
        invariant
            i <= sizes@.len(),
            total == size_sum(sizes@.take(i as int)),
        decreases sizes@.len() - i,
    {
        proof {
            assert(sizes@.take(i + 1).drop_last() =~= sizes@.take(i as int));
            lemma_size_sum_take(sizes@, i + 1);
        }
        if sizes[i] > u64::MAX - total {
            return None;
        }
        total = total + sizes[i];
        i = i + 1;
    }
    assert(sizes@.take(i as int) =~= sizes@);
    Some(total)
}

proof fn lemma_size_sum_take(sizes: Seq<u64>, n: int)
    requires
        0 <= n <= sizes.len(),
    ensures
        size_sum(sizes.take(n)) <= size_sum(sizes),
    decreases sizes.len() - n,
{
    if n < sizes.len() {
        lemma_size_sum_take(sizes, n + 1);
        assert(sizes.take(n + 1).drop_last() =~= sizes.take(n));
    } else {
        assert(sizes.take(n) =~= sizes);
    }
}

// ---------------------------------------------------------------------------
// Laws
// ---------------------------------------------------------------------------

/// Whether the steps speak of different paths, all of them in `seen`.
pub open spec fn packs_once(p: Platform, steps: Seq<StepView>, seen: Set<Seq<char>>) -> bool {
    &&& forall|i: int, j: int|
        0 <= i < j < steps.len() ==> key_of(p, (#[trigger] steps[i]).path) != key_of(
            p,
            (#[trigger] steps[j]).path,
        )
    &&& forall|i: int|
        0 <= i < steps.len() ==> seen.contains(key_of(p, (#[trigger] steps[i]).path))
}

/// Whether one of the steps speaks of the path with this normal form.
spec fn packs(p: Platform, steps: Seq<StepView>, x: Seq<char>) -> bool {
    exists|i: int| 0 <= i < steps.len() && key_of(p, (#[trigger] steps[i]).path) == x
}

proof fn lemma_root_steps(
    p: Platform,
    placement: PlacementView,
    root: Seq<char>,
    prefix: Seq<char>,
    files: Seq<Seq<char>>,
    seen: Set<Seq<char>>,
    n: nat,
)
    requires
        n <= files.len(),
    ensures
        ({
            let (steps, now) = root_steps(p, placement, root, prefix, files, seen, n);
            &&& packs_once(p, steps, now)
            &&& seen.subset_of(now)
            &&& forall|i: int|
                0 <= i < steps.len() ==> !seen.contains(key_of(p, (#[trigger] steps[i]).path))
            &&& forall|i: int|
                0 <= i < steps.len() ==> files.contains((#[trigger] steps[i]).path) && is_under(
                    p,
                    steps[i].path,
                    root,
                ) && steps[i].place == placed(p, placement, prefix, root, steps[i].path)
            &&& forall|k: int|
                0 <= k < n && is_under(p, #[trigger] files[k], root) ==> now.contains(
                    key_of(p, files[k]),
                )
            &&& forall|x: Seq<char>|
                #[trigger] now.contains(x) ==> seen.contains(x) || packs(p, steps, x)
        }),
    decreases n,
{
    if n > 0 {
        let m = (n - 1) as nat;
        lemma_root_steps(p, placement, root, prefix, files, seen, m);
        let (before, had) = root_steps(p, placement, root, prefix, files, seen, m);
        let (steps, now) = root_steps(p, placement, root, prefix, files, seen, n);
        let path = files[n - 1];
        assert forall|x: Seq<char>| #[trigger] now.contains(x) implies seen.contains(x) || packs(
            p,
            steps,
            x,
        ) by {
            if had.contains(x) && !seen.contains(x) {
                let i = choose|i: int|
                    0 <= i < before.len() && key_of(p, (#[trigger] before[i]).path) == x;
                assert(steps[i] == before[i]);
            } else if !had.contains(x) {
                assert(steps[before.len() as int].path == path);
            }
        }
        assert forall|i: int| 0 <= i < steps.len() implies files.contains((#[trigger] steps[i]).path)
            && is_under(p, steps[i].path, root) && steps[i].place == placed(
            p,
            placement,
            prefix,
            root,
            steps[i].path,
        ) by {
            if i < before.len() {
                assert(steps[i] == before[i]);
            } else {
                assert(files[n - 1] == path);
            }
        }
        assert forall|i: int| 0 <= i < steps.len() implies !seen.contains(
            key_of(p, (#[trigger] steps[i]).path),
        ) by {
            if i < before.len() {
                assert(steps[i] == before[i]);
            }
        }
        assert(packs_once(p, steps, now)) by {
            assert forall|i: int, j: int| 0 <= i < j < steps.len() implies key_of(
                p,
                (#[trigger] steps[i]).path,
            ) != key_of(p, (#[trigger] steps[j]).path) by {
                assert(steps[i] == before[i]);
                if j < before.len() {
                    assert(steps[j] == before[j]);
                }
            }
            assert forall|i: int| 0 <= i < steps.len() implies now.contains(
                key_of(p, (#[trigger] steps[i]).path),
            ) by {
                if i < before.len() {
                    assert(steps[i] == before[i]);
                }
            }
        }
    }
}

proof fn lemma_file_steps(
    p: Platform,
    placement: PlacementView,
    roots: Seq<(Seq<char>, Seq<char>)>,
    files: Seq<Seq<char>>,
    n: nat,
)
    requires
        n <= roots.len(),
    ensures
        ({
            let (steps, seen) = file_steps(p, placement, roots, files, n);
            &&& packs_once(p, steps, seen)
            &&& forall|i: int| 0 <= i < steps.len() ==> files.contains((#[trigger] steps[i]).path)
            &&& forall|k: int, r: int|
                0 <= k < files.len() && 0 <= r < n && #[trigger] is_under(
                    p,
                    files[k],
                    roots[r].0,
                ) ==> seen.contains(key_of(p, files[k]))
            &&& forall|x: Seq<char>| #[trigger] seen.contains(x) ==> packs(p, steps, x)
        }),
    decreases n,
{
    if n > 0 {
        let m = (n - 1) as nat;
        lemma_file_steps(p, placement, roots, files, m);
        let (before, had) = file_steps(p, placement, roots, files, m);
        let (root, prefix) = roots[n - 1];
        lemma_root_steps(p, placement, root, prefix, files, had, files.len());
        let (more, now) = root_steps(p, placement, root, prefix, files, had, files.len());
        let steps = before + more;
        assert(file_steps(p, placement, roots, files, n) == (steps, now));
        assert(packs_once(p, steps, now)) by {
            assert forall|i: int, j: int| 0 <= i < j < steps.len() implies key_of(
                p,
                (#[trigger] steps[i]).path,
            ) != key_of(p, (#[trigger] steps[j]).path) by {
                if i < before.len() {
                    assert(steps[i] == before[i]);
                    if j < before.len() {
                        assert(steps[j] == before[j]);
                    } else {
                        assert(steps[j] == more[j - before.len()]);
                    }
                } else {
                    assert(steps[i] == more[i - before.len()]);
                    assert(steps[j] == more[j - before.len()]);
                }
            }
            assert forall|i: int| 0 <= i < steps.len() implies now.contains(
                key_of(p, (#[trigger] steps[i]).path),
            ) by {
                if i < before.len() {
                    assert(steps[i] == before[i]);
                } else {
                    assert(steps[i] == more[i - before.len()]);
                }
            }
        }
        assert forall|i: int| 0 <= i < steps.len() implies files.contains(
            (#[trigger] steps[i]).path,
        ) by {
            if i < before.len() {
                assert(steps[i] == before[i]);
            } else {
                assert(steps[i] == more[i - before.len()]);
            }
        }
        assert forall|x: Seq<char>| #[trigger] now.contains(x) implies packs(p, steps, x) by {
            if had.contains(x) {
                let i = choose|i: int|
                    0 <= i < before.len() && key_of(p, (#[trigger] before[i]).path) == x;
                assert(steps[i] == before[i]);
            } else {
                assert(packs(p, more, x));
                let i = choose|i: int|
                    0 <= i < more.len() && key_of(p, (#[trigger] more[i]).path) == x;
                assert(steps[before.len() + i] == more[i]);
            }
        }
        assert forall|k: int, r: int|
            0 <= k < files.len() && 0 <= r < n && #[trigger] is_under(
                p,
                files[k],
                roots[r].0,
            ) implies now.contains(key_of(p, files[k])) by {
            if r < m {
                assert(had.contains(key_of(p, files[k])));
            }
        }
    }
}

/// No file is packed twice, though roots overlap or list it again.
pub proof fn files_are_packed_once(
    p: Platform,
    placement: PlacementView,
    roots: Seq<(Seq<char>, Seq<char>)>,
    files: Seq<Seq<char>>,
    i: int,
    j: int,
)
    requires
        0 <= i < j < file_steps(p, placement, roots, files, roots.len()).0.len(),
    ensures
        !same_path(
            p,
            file_steps(p, placement, roots, files, roots.len()).0[i].path,
            file_steps(p, placement, roots, files, roots.len()).0[j].path,
        ),
{
    let steps = file_steps(p, placement, roots, files, roots.len()).0;
    lemma_file_steps(p, placement, roots, files, roots.len());
    key_tells_path(p, steps[i].path, steps[j].path);
}

/// Every file that lies in a root is packed.
pub proof fn files_in_roots_are_packed(
    p: Platform,
    placement: PlacementView,
    roots: Seq<(Seq<char>, Seq<char>)>,
    files: Seq<Seq<char>>,
    k: int,
    r: int,
)
    requires
        0 <= k < files.len(),
        0 <= r < roots.len(),
        is_under(p, files[k], roots[r].0),
    ensures
        exists|i: int|
            0 <= i < file_steps(p, placement, roots, files, roots.len()).0.len() && same_path(
                p,
                (#[trigger] file_steps(p, placement, roots, files, roots.len()).0[i]).path,
                files[k],
            ),
{
    let (steps, seen) = file_steps(p, placement, roots, files, roots.len());
    lemma_file_steps(p, placement, roots, files, roots.len());
    assert(seen.contains(key_of(p, files[k])));
    let i = choose|i: int|
        0 <= i < steps.len() && key_of(p, (#[trigger] steps[i]).path) == key_of(p, files[k]);
    key_tells_path(p, steps[i].path, files[k]);
}

/// Where there are roots and files, some file is looked at: it is packed, or
/// passed over behind all that are.
pub proof fn some_file_is_looked_at(
    p: Platform,
    placement: PlacementView,
    roots: Seq<(Seq<char>, Seq<char>)>,
    files: Seq<Seq<char>>,
)
    requires
        roots.len() > 0,
        files.len() > 0,
    ensures
        file_steps(p, placement, roots, files, roots.len()).0.len() > 0 || looks_further(
            p,
            placement,
            roots,
            files,
        ),
{
}

/// Only files that were found are packed.
pub proof fn only_found_files_are_packed(
    p: Platform,
    placement: PlacementView,
    roots: Seq<(Seq<char>, Seq<char>)>,
    files: Seq<Seq<char>>,
    i: int,
)
    requires
        0 <= i < file_steps(p, placement, roots, files, roots.len()).0.len(),
    ensures
        files.contains(file_steps(p, placement, roots, files, roots.len()).0[i].path),
{
    lemma_file_steps(p, placement, roots, files, roots.len());
}

/// What stands behind the name of a backup while it is written.
spec fn unfinished_tail(format: Format) -> Seq<char> {
    if format is Dir {
        ".tmp"@
    } else {
        tmp_tail(format)
    }
}

/// With it a plain name stays plain and is taken for no backup.
proof fn lemma_unfinished(p: Platform, name: Seq<char>, format: Format)
    requires
        is_plain_name(p, name),
    ensures
        is_plain_name(p, name + unfinished_tail(format)),
        !archive_named(name + unfinished_tail(format)),
{
    reveal_strlit(".");
    reveal_strlit(".tmp");
    reveal_strlit("zip");
    reveal_strlit("tar.gz");
    let tail = unfinished_tail(format);
    let whole = name + tail;
    longer_name_is_plain(p, name, tail);
    assert(whole.skip(whole.len() - 4) =~= ".tmp"@);
}

/// The paths of a backup are those of one of the names that are tried.
proof fn lemma_pack_paths(
    p: Platform,
    dir: Seq<char>,
    base: Seq<char>,
    format: Format,
    taken: Seq<Seq<char>>,
    final_path: Seq<char>,
    tmp_path: Seq<char>,
) -> (n: nat)
    requires
        are_pack_paths(p, dir, base, format, taken, final_path, tmp_path),
    ensures
        final_path == join(p, dir, candidate_file(base, format, n)),
        format is Dir ==> tmp_path == join(
            p,
            dir,
            candidate_file(base, format, n) + unfinished_tail(format),
        ),
{
    if format is Dir {
        reveal_strlit(".");
        reveal_strlit("dir");
        reveal_strlit(".dir");
        reveal_strlit(".dir.tmp");
        reveal_strlit(".tmp");
        assert(candidate_file(base, format, 0) =~= base + ".dir"@);
        assert(base + ".dir.tmp"@ =~= base + ".dir"@ + ".tmp"@);
        0
    } else {
        let name = choose|name: Seq<char>|
            #[trigger] is_first_free_file(base, format, taken, name) && final_path == join(
                p,
                dir,
                name,
            );
        choose|n: nat|
            #[trigger] first_free_file_at(base, format, taken, n) && name == candidate_file(
                base,
                format,
                n,
            )
    }
}

/// A backup lies in the directory of its app, under a name that tells its format.
/// Until it is finished it lies there too, under a name that is taken for no
/// backup.
pub proof fn backup_lies_in_app_dir(
    p: Platform,
    dest: Seq<char>,
    id: Seq<char>,
    time: Seq<char>,
    format: Format,
    taken: Seq<Seq<char>>,
    final_path: Seq<char>,
    tmp_path: Seq<char>,
)
    requires
        is_firm(p, dest),
        is_plain_name(p, id),
        is_stamp(time),
        are_pack_paths(
            p,
            join(p, dest, id),
            id + "_"@ + time,
            format,
            taken,
            final_path,
            tmp_path,
        ),
    ensures
        components(p, final_path) == components(p, dest).push(id).push(
            name_or_empty(p, final_path),
        ),
        ends_in(name_or_empty(p, final_path), "."@ + format.suffix()),
        archive_named(name_or_empty(p, final_path)),
        components(p, tmp_path) == components(p, dest).push(id).push(name_or_empty(p, tmp_path)),
        !archive_named(name_or_empty(p, tmp_path)),
{
    let dir = join(p, dest, id);
    let base = id + "_"@ + time;
    let n = lemma_pack_paths(p, dir, base, format, taken, final_path, tmp_path);
    let name = candidate_file(base, format, n);
    let unfinished = name + unfinished_tail(format);
    join_adds_component(p, dest, id);
    backup_name_is_plain(p, id, time, format, n);
    join_adds_component(p, dir, name);
    file_names_end_in_extension(base, format, n);
    backup_name_tells_format(name, format);
    lemma_unfinished(p, name, format);
    join_adds_component(p, dir, unfinished);
}

/// The bytes that all outcomes together have written.
pub open spec fn bytes_written(outcomes: Seq<OutcomeOf>) -> nat
    decreases outcomes.len(),
{
    if outcomes.len() == 0 {
        0
    } else {
        bytes_written(outcomes.drop_last()) + match outcomes.last() {
            OutcomeOf::Written { bytes } => bytes as nat,
            _ => 0nat,
        }
    }
}

/// How many of the outcomes are files that are in the backup.
pub open spec fn files_written(outcomes: Seq<OutcomeOf>) -> nat
    decreases outcomes.len(),
{
    if outcomes.len() == 0 {
        0
    } else {
        files_written(outcomes.drop_last()) + if outcomes.last() is Written {
            1nat
        } else {
            0nat
        }
    }
}

/// How far a backup has come after several files.
pub open spec fn after_files(run: RunView, outcomes: Seq<OutcomeOf>) -> RunView
    decreases outcomes.len(),
{
    if outcomes.len() == 0 {
        run
    } else {
        after_files(run, outcomes.drop_last()).with(outcomes.last())
    }
}

/// Progress counts the files that are in the backup and their bytes, and never
/// those that were left out.
pub proof fn progress_adds_up(run: RunView, outcomes: Seq<OutcomeOf>)
    requires
        run.done + files_written(outcomes) <= u64::MAX,
        run.bytes_done + bytes_written(outcomes) <= u64::MAX,
    ensures
        after_files(run, outcomes).done == run.done + files_written(outcomes),
        after_files(run, outcomes).bytes_done == run.bytes_done + bytes_written(outcomes),
        after_files(run, outcomes).files_total == run.files_total,
        after_files(run, outcomes).bytes_total == run.bytes_total,
    decreases outcomes.len(),
{
    if outcomes.len() > 0 {
        progress_adds_up(run, outcomes.drop_last());
    }
}

// ---------------------------------------------------------------------------
// Laws of where things go
// ---------------------------------------------------------------------------

/// Whether a step packs what lies at its path in the root at `k`, which is the first
/// that it is in.
pub open spec fn goes_to_root(
    p: Platform,
    placement: PlacementView,
    roots: Seq<(Seq<char>, Seq<char>)>,
    step: StepView,
    k: int,
) -> bool {
    &&& is_under(p, step.path, roots[k].0)
    &&& step.place == match placement {
        PlacementView::Archive => name_in_archive(p, roots[k].1, roots[k].0, step.path),
        PlacementView::Directory { dir } => place_in_dir(
            p,
            dir,
            roots[k].1,
            roots[k].0,
            step.path,
        ),
    }
    &&& forall|j: int| 0 <= j < k ==> !is_under(p, step.path, (#[trigger] roots[j]).0)
}

/// Each file goes below the prefix of the first root that it is in: under that name
/// into an archive, or to that place in a plain copy.
pub proof fn file_goes_below_prefix_of_first_root(
    p: Platform,
    placement: PlacementView,
    roots: Seq<(Seq<char>, Seq<char>)>,
    files: Seq<Seq<char>>,
    n: nat,
    i: int,
)
    requires
        n <= roots.len(),
        0 <= i < file_steps(p, placement, roots, files, n).0.len(),
    ensures
        exists|k: int|
            0 <= k < n && #[trigger] goes_to_root(
                p,
                placement,
                roots,
                file_steps(p, placement, roots, files, n).0[i],
                k,
            ),
    decreases n,
{
    if n > 0 {
        let m = (n - 1) as nat;
        let (before, had) = file_steps(p, placement, roots, files, m);
        let (root, prefix) = roots[n - 1];
        lemma_file_steps(p, placement, roots, files, m);
        lemma_root_steps(p, placement, root, prefix, files, had, files.len());
        let (more, now) = root_steps(p, placement, root, prefix, files, had, files.len());
        let steps = file_steps(p, placement, roots, files, n).0;
        if i < before.len() {
            assert(steps[i] == before[i]);
            file_goes_below_prefix_of_first_root(p, placement, roots, files, m, i);
            let k = choose|k: int|
                0 <= k < m && #[trigger] goes_to_root(p, placement, roots, before[i], k);
            assert(goes_to_root(p, placement, roots, steps[i], k));
        } else {
            let s = more[i - before.len()];
            assert(steps[i] == s);
            assert forall|j: int| 0 <= j < m implies !is_under(
                p,
                s.path,
                (#[trigger] roots[j]).0,
            ) by {
                if is_under(p, s.path, roots[j].0) {
                    let x = choose|x: int| 0 <= x < files.len() && files[x] == s.path;
                    assert(had.contains(key_of(p, files[x])));
                }
            }
            assert(goes_to_root(p, placement, roots, s, m as int));
        }
    }
}

/// The paths of the steps.
pub open spec fn step_paths(steps: Seq<StepView>) -> Seq<Seq<char>> {
    steps.map_values(|s: StepView| s.path)
}

/// Files that are different paths and all lie in one root are packed in their order.
pub proof fn files_of_one_root_stay_in_order(
    p: Platform,
    placement: PlacementView,
    root: Seq<char>,
    prefix: Seq<char>,
    files: Seq<Seq<char>>,
)
    requires
        forall|k: int| 0 <= k < files.len() ==> is_under(p, #[trigger] files[k], root),
        forall|j: int, k: int|
            0 <= j < k < files.len() ==> !same_path(p, #[trigger] files[j], #[trigger] files[k]),
    ensures
        step_paths(file_steps(p, placement, seq![(root, prefix)], files, 1).0) == files,
{
    let roots = seq![(root, prefix)];
    lemma_in_order(p, placement, root, prefix, files, files.len());
    reveal_with_fuel(file_steps, 2);
    let more = root_steps(p, placement, root, prefix, files, Set::empty(), files.len()).0;
    assert(file_steps(p, placement, roots, files, 1).0 =~= more);
    assert(files.take(files.len() as int) =~= files);
}

proof fn lemma_in_order(
    p: Platform,
    placement: PlacementView,
    root: Seq<char>,
    prefix: Seq<char>,
    files: Seq<Seq<char>>,
    n: nat,
)
    requires
        n <= files.len(),
        forall|k: int| 0 <= k < files.len() ==> is_under(p, #[trigger] files[k], root),
        forall|j: int, k: int|
            0 <= j < k < files.len() ==> !same_path(p, #[trigger] files[j], #[trigger] files[k]),
    ensures
        step_paths(root_steps(p, placement, root, prefix, files, Set::empty(), n).0) == files.take(
            n as int,
        ),
        forall|x: Seq<char>| #[trigger]
            root_steps(p, placement, root, prefix, files, Set::empty(), n).1.contains(x)
                ==> exists|k: int| 0 <= k < n && key_of(p, #[trigger] files[k]) == x,
    decreases n,
{
    if n > 0 {
        let m = (n - 1) as nat;
        lemma_in_order(p, placement, root, prefix, files, m);
        let (steps, now) = root_steps(p, placement, root, prefix, files, Set::empty(), m);
        let (all, end) = root_steps(p, placement, root, prefix, files, Set::empty(), n);
        let path = files[m as int];
        assert(!now.contains(key_of(p, path))) by {
            if now.contains(key_of(p, path)) {
                let k = choose|k: int| 0 <= k < m && key_of(p, #[trigger] files[k]) == key_of(p, path);
                key_tells_path(p, files[k], path);
                assert(!same_path(p, files[k], files[m as int]));
            }
        }
        assert(is_under(p, files[m as int], root));
        assert(step_paths(all) =~= step_paths(steps).push(path));
        assert(files.take(n as int) =~= files.take(m as int).push(path));
        assert forall|x: Seq<char>| #[trigger] end.contains(x) implies exists|k: int|
            0 <= k < n && key_of(p, #[trigger] files[k]) == x by {
            if now.contains(x) {
                let k = choose|k: int| 0 <= k < m && key_of(p, #[trigger] files[k]) == x;
                assert(key_of(p, files[k]) == x);
            } else {
                assert(key_of(p, files[m as int]) == x);
            }
        }
    } else {
        assert(step_paths(
            root_steps(p, placement, root, prefix, files, Set::empty(), n).0,
        ) =~= files.take(n as int));
    }
}

/// A directory goes below the prefix of each root that it is in, in the order of the
/// roots, and nowhere else.
pub proof fn directory_goes_below_each_prefix(
    p: Platform,
    placement: PlacementView,
    roots: Seq<(Seq<char>, Seq<char>)>,
    dir: Seq<char>,
    n: nat,
    k: int,
)
    requires
        n <= roots.len(),
    ensures
        0 <= k < n && is_under(p, dir, roots[k].0) ==> dir_places(
            p,
            placement,
            roots,
            dir,
            n,
        ).contains(
            StepView {
                path: dir,
                place: match placement {
                    PlacementView::Archive => name_in_archive(p, roots[k].1, roots[k].0, dir),
                    PlacementView::Directory { dir: top } => place_in_dir(
                        p,
                        top,
                        roots[k].1,
                        roots[k].0,
                        dir,
                    ),
                },
            },
        ),
        0 <= k < dir_places(p, placement, roots, dir, n).len() ==> exists|j: int|
            0 <= j < n && #[trigger] lies_in_root(
                p,
                placement,
                roots,
                dir_places(p, placement, roots, dir, n)[k],
                j,
            ) && dir_places(p, placement, roots, dir, n)[k].path == dir,
        dir_places(p, placement, roots, dir, n).len() == roots_with(p, roots, dir, n),
    decreases n,
{
    if n > 0 {
        let m = (n - 1) as nat;
        directory_goes_below_each_prefix(p, placement, roots, dir, m, k);
        let rest = dir_places(p, placement, roots, dir, m);
        let all = dir_places(p, placement, roots, dir, n);
        let (root, prefix) = roots[m as int];
        assert forall|x: StepView| rest.contains(x) implies all.contains(x) by {
            let i = choose|i: int| 0 <= i < rest.len() && rest[i] == x;
            assert(all[i] == x);
        }
        if is_under(p, dir, root) {
            assert(all[rest.len() as int] == all.last());
            assert(lies_in_root(p, placement, roots, all.last(), m as int));
        }
        if 0 <= k < rest.len() {
            let j = choose|j: int|
                0 <= j < m && #[trigger] lies_in_root(p, placement, roots, rest[k], j)
                    && rest[k].path == dir;
            assert(lies_in_root(p, placement, roots, all[k], j));
        }
    }
}

/// Whether a step puts what lies at its path below the prefix of the root at `k`.
pub open spec fn lies_in_root(
    p: Platform,
    placement: PlacementView,
    roots: Seq<(Seq<char>, Seq<char>)>,
    step: StepView,
    k: int,
) -> bool {
    &&& is_under(p, step.path, roots[k].0)
    &&& step.place == match placement {
        PlacementView::Archive => name_in_archive(p, roots[k].1, roots[k].0, step.path),
        PlacementView::Directory { dir } => place_in_dir(
            p,
            dir,
            roots[k].1,
            roots[k].0,
            step.path,
        ),
    }
}

/// In how many of the first `n` roots a directory lies.
pub open spec fn roots_with(
    p: Platform,
    roots: Seq<(Seq<char>, Seq<char>)>,
    dir: Seq<char>,
    n: nat,
) -> nat
    decreases n,
{
    if n == 0 {
        0
    } else {
        roots_with(p, roots, dir, (n - 1) as nat) + if is_under(p, dir, roots[n - 1].0) {
            1nat
        } else {
            0nat
        }
    }
}

/// Every directory that is kept on its own has its places, in order.
pub proof fn each_directory_has_its_places(
    p: Platform,
    placement: PlacementView,
    roots: Seq<(Seq<char>, Seq<char>)>,
    dirs: Seq<Seq<char>>,
    i: int,
)
    requires
        0 <= i < dirs.len(),
    ensures
        dir_steps(p, placement, roots, dirs).len() == dirs.len(),
        dir_steps(p, placement, roots, dirs)[i] == dir_places(
            p,
            placement,
            roots,
            dirs[i],
            roots.len(),
        ),
{
}

/// A backup gets the name that is made for it, with its extension, where that is
/// free; no backup gets a name that is taken. A plain copy always has the same.
pub proof fn backup_name_is_the_one_made_for_it(
    p: Platform,
    dest: Seq<char>,
    id: Seq<char>,
    time: Seq<char>,
    format: Format,
    taken: Seq<Seq<char>>,
    final_path: Seq<char>,
    tmp_path: Seq<char>,
)
    requires
        is_firm(p, dest),
        is_plain_name(p, id),
        is_stamp(time),
        are_pack_paths(
            p,
            join(p, dest, id),
            id + "_"@ + time,
            format,
            taken,
            final_path,
            tmp_path,
        ),
    ensures
        format is Dir || !taken.contains(id + "_"@ + time + "."@ + format.suffix())
            ==> name_or_empty(p, final_path) == id + "_"@ + time + "."@ + format.suffix(),
        !(format is Dir) ==> !taken.contains(name_or_empty(p, final_path)),
        ({
            let name = name_or_empty(p, final_path);
            let base = id + "_"@ + time;
            name.len() >= base.len() && name.take(base.len() as int) == base
        }),
{
    let base = id + "_"@ + time;
    let n = lemma_backup_names(p, dest, id, time, format, taken, final_path, tmp_path);
    let name = candidate_file(base, format, n);
    assert(name.take(base.len() as int) =~= base);
    if n > 0 && !(format is Dir) {
        assert(taken.contains(candidate_file(base, format, 0)));
    }
}

/// Until it is finished a backup has its name with more behind it: `.tmp` for a plain
/// copy, its extension once more before that for an archive.
pub proof fn unfinished_backup_has_a_longer_name(
    p: Platform,
    dest: Seq<char>,
    id: Seq<char>,
    time: Seq<char>,
    format: Format,
    taken: Seq<Seq<char>>,
    final_path: Seq<char>,
    tmp_path: Seq<char>,
)
    requires
        is_firm(p, dest),
        is_plain_name(p, id),
        is_stamp(time),
        are_pack_paths(
            p,
            join(p, dest, id),
            id + "_"@ + time,
            format,
            taken,
            final_path,
            tmp_path,
        ),
    ensures
        name_or_empty(p, tmp_path) == name_or_empty(p, final_path) + if format is Dir {
            ".tmp"@
        } else {
            "."@ + format.suffix() + ".tmp"@
        },
{
    let _ = lemma_backup_names(p, dest, id, time, format, taken, final_path, tmp_path);
}

/// The names that a backup has, once it is finished and before.
proof fn lemma_backup_names(
    p: Platform,
    dest: Seq<char>,
    id: Seq<char>,
    time: Seq<char>,
    format: Format,
    taken: Seq<Seq<char>>,
    final_path: Seq<char>,
    tmp_path: Seq<char>,
) -> (n: nat)
    requires
        is_firm(p, dest),
        is_plain_name(p, id),
        is_stamp(time),
        are_pack_paths(
            p,
            join(p, dest, id),
            id + "_"@ + time,
            format,
            taken,
            final_path,
            tmp_path,
        ),
    ensures
        name_or_empty(p, final_path) == candidate_file(id + "_"@ + time, format, n),
        name_or_empty(p, tmp_path) == candidate_file(id + "_"@ + time, format, n)
            + unfinished_tail(format),
        format is Dir ==> n == 0,
        !(format is Dir) ==> first_free_file_at(id + "_"@ + time, format, taken, n),
{
    let dir = join(p, dest, id);
    let base = id + "_"@ + time;
    join_adds_component(p, dest, id);
    let n: nat = if format is Dir {
        lemma_dir_names(base);
        0
    } else {
        let name = choose|name: Seq<char>|
            #[trigger] is_first_free_file(base, format, taken, name) && final_path == join(
                p,
                dir,
                name,
            );
        choose|n: nat|
            #[trigger] first_free_file_at(base, format, taken, n) && name == candidate_file(
                base,
                format,
                n,
            )
    };
    let name = candidate_file(base, format, n);
    assert(final_path == join(p, dir, name));
    backup_name_is_plain(p, id, time, format, n);
    join_adds_component(p, dir, name);
    lemma_unfinished(p, name, format);
    join_adds_component(p, dir, name + unfinished_tail(format));
    n
}

proof fn lemma_dir_names(base: Seq<char>)
    ensures
        candidate_file(base, Format::Dir, 0) == base + ".dir"@,
        candidate_file(base, Format::Dir, 0) + ".tmp"@ == base + ".dir.tmp"@,
{
    reveal_strlit(".");
    reveal_strlit("dir");
    reveal_strlit(".dir");
    reveal_strlit(".dir.tmp");
    reveal_strlit(".tmp");
    assert(candidate_file(base, Format::Dir, 0) =~= base + ".dir"@);
    assert(base + ".dir.tmp"@ =~= base + ".dir"@ + ".tmp"@);
}

// ---------------------------------------------------------------------------
// Laws of reports on files
// ---------------------------------------------------------------------------

/// A file that is in the backup is reported with what is done after it, out of all
/// there is; for a zip it is named before that, with its place and its bytes.
pub proof fn packed_file_is_reported(run: RunView, step: StepView, bytes: u64)
    requires
        run.done < u64::MAX,
        run.bytes_done + bytes <= u64::MAX,
    ensures
        ({
            let events = run.report(step, OutcomeOf::Written { bytes });
            &&& events.len() == if run.format is Zip {
                2nat
            } else {
                1nat
            }
            &&& events.last() matches EventView::AppProgress {
                app_id,
                files_done,
                files_total,
                bytes_done,
                bytes_total,
                ..
            } && app_id == run.app_id && files_done == run.done + 1 && files_total
                == run.files_total && bytes_done == run.bytes_done + bytes && bytes_total
                == run.bytes_total
            &&& run.format is Zip ==> events[0] == (EventView::FileDone {
                app_id: run.app_id,
                path: step.place,
                bytes_written: bytes,
            })
        }),
{
}

/// Whether the text holds another, in its middle or at an end.
pub open spec fn mentions(text: Seq<char>, part: Seq<char>) -> bool {
    exists|i: int|
        0 <= i && i + part.len() <= text.len() && #[trigger] text.subrange(i, i + part.len())
            == part
}

/// A part between two others is mentioned.
pub proof fn middle_is_mentioned(a: Seq<char>, part: Seq<char>, b: Seq<char>)
    ensures
        mentions(a + part + b, part),
{
    let t = a + part + b;
    assert(t.subrange(a.len() as int, (a.len() + part.len()) as int) =~= part);
}

/// A file that is left out is warned of once, with its path and with what was wrong
/// at the end, and nothing is counted for it.
pub proof fn file_left_out_is_warned_of(run: RunView, step: StepView, outcome: OutcomeOf)
    requires
        !(outcome is Written),
    ensures
        run.with(outcome) == run,
        run.report(step, outcome).len() == 1,
        run.report(step, outcome)[0] matches EventView::Log { level, msg } && level
            == LogLevel::Warn && mentions(msg, step.path) && ends_in(
            msg,
            match outcome {
                OutcomeOf::NotOpened { error } => error,
                OutcomeOf::NotAdded { error } => error,
                OutcomeOf::NotCopied { error } => error,
                _ => Seq::empty(),
            },
        ),
{
    let path = step.path;
    match outcome {
        OutcomeOf::NotOpened { error } => {
            let msg = left_out(run.format, path, outcome);
            assert(msg =~= "cannot open "@ + path + (", skipped: "@ + error));
            middle_is_mentioned("cannot open "@, path, ", skipped: "@ + error);
            assert(msg.skip(msg.len() - error.len()) =~= error);
        },
        OutcomeOf::NotAdded { error } => {
            let msg = left_out(run.format, path, outcome);
            assert(msg =~= "failed to add "@ + path + (" to archive: "@ + error));
            middle_is_mentioned("failed to add "@, path, " to archive: "@ + error);
            assert(msg.skip(msg.len() - error.len()) =~= error);
        },
        OutcomeOf::NotCopied { error } => {
            let msg = left_out(run.format, path, outcome);
            let head = if run.format is Dir {
                "failed to copy "@
            } else {
                "failed to pack "@
            };
            assert(msg =~= head + path + (", skipped: "@ + error));
            middle_is_mentioned(head, path, ", skipped: "@ + error);
            assert(msg.skip(msg.len() - error.len()) =~= error);
        },
        _ => {},
    }
}

/// The size of a directory is that of all its files together, however they are
/// listed.
pub proof fn sizes_add_up(a: Seq<u64>, b: Seq<u64>, x: u64)
    ensures
        size_sum(a + b) == size_sum(a) + size_sum(b),
        size_sum(a.push(x)) == size_sum(a) + x,
        size_sum(Seq::empty()) == 0,
    decreases b.len(),
{
    assert(a.push(x).drop_last() =~= a);
    if b.len() > 0 {
        sizes_add_up(a, b.drop_last(), x);
        assert((a + b).drop_last() =~= a + b.drop_last());
    } else {
        assert(a + b =~= a);
    }
}

/// Files are looked at behind the last that is packed where the last file lies not in
/// the last root; not so where there is one root and each file is packed in it.
pub proof fn looking_further_is_told_by_last_file(
    p: Platform,
    placement: PlacementView,
    roots: Seq<(Seq<char>, Seq<char>)>,
    files: Seq<Seq<char>>,
)
    requires
        roots.len() > 0,
        files.len() > 0,
    ensures
        !is_under(p, files.last(), roots.last().0) ==> looks_further(p, placement, roots, files),
        roots.len() == 1 && (forall|k: int|
            0 <= k < files.len() ==> is_under(p, #[trigger] files[k], roots[0].0)) && (forall|
            j: int,
            k: int,
        |
            0 <= j < k < files.len() ==> !same_path(p, #[trigger] files[j], #[trigger] files[k]))
            ==> !looks_further(p, placement, roots, files),
{
    let last = files.len() - 1;
    if roots.len() == 1 && (forall|k: int|
        0 <= k < files.len() ==> is_under(p, #[trigger] files[k], roots[0].0)) && (forall|
        j: int,
        k: int,
    |
        0 <= j < k < files.len() ==> !same_path(p, #[trigger] files[j], #[trigger] files[k])) {
        let (root, prefix) = roots[0];
        lemma_in_order(p, placement, root, prefix, files, last as nat);
        let now = root_steps(p, placement, root, prefix, files, Set::empty(), last as nat).1;
        if now.contains(key_of(p, files[last])) {
            let k = choose|k: int|
                0 <= k < last && key_of(p, #[trigger] files[k]) == key_of(p, files[last]);
            key_tells_path(p, files[k], files[last]);
            assert(!same_path(p, files[k], files[last]));
        }
        assert(file_steps(p, placement, roots, files, 0).1 == Set::<Seq<char>>::empty());
        assert(is_under(p, files[last], roots[0].0));
        assert(packed_in(p, placement, roots, files, 0, last));
    }
}

/// The counters can take a file where the sums still fit.
pub proof fn run_takes_what_fits(run: RunView, outcome: OutcomeOf)
    requires
        run.done < u64::MAX,
        outcome matches OutcomeOf::Written { bytes } ==> run.bytes_done + bytes <= u64::MAX,
    ensures
        run.has_room(outcome),
{
}

} // verus!
