//! Packing a backup, one thing after the other.
//!
//! A [`Packer`] says what comes next; the work itself is done outside, and what
//! came of it goes back in.

use crate::archive::{name_in_archive, place_in_dir, root_pairs};
use crate::config::Format;
use crate::course::Packing;
use crate::events::{event_list, Event};
use crate::pack::{
    are_pack_paths, dir_steps, file_goes_below_prefix_of_first_root, file_steps,
    files_are_packed_once, files_in_roots_are_packed, goes_to_root, looks_further,
    only_found_files_are_packed, pack_paths, placed, plan_dirs, plan_files, some_file_is_looked_at,
    step_list, step_lists, FileOutcome, PackRun, PackStep, Placement, PlacementView, RunView,
    StepView,
};
use crate::paths::{is_under, same_path};
use crate::platform::Platform;
use crate::text::texts;
use vstd::prelude::*;
use vstd::string::*;

verus! {

/// What is packed, and how far that has come.
#[derive(Debug)]
pub struct Packer {
    /// Where each of the directories goes that are kept on their own.
    pub dirs: Vec<Vec<PackStep>>,
    pub files: Vec<PackStep>,
    /// Whether files are still looked at behind the last that is packed.
    pub looks_further: bool,
    /// How many directories have been handed out.
    pub dirs_at: usize,
    /// How many files have been handed out.
    pub files_at: usize,
    pub run: PackRun,
    /// Where the backup ends up.
    pub final_path: String,
    /// Where it is written before.
    pub tmp_path: String,
}

/// The contents of a [`Packer`].
#[verifier::ext_equal]
pub struct PackerView {
    pub dirs: Seq<Seq<StepView>>,
    pub files: Seq<StepView>,
    pub looks_further: bool,
    pub dirs_at: nat,
    pub files_at: nat,
    pub run: RunView,
    pub final_path: Seq<char>,
    pub tmp_path: Seq<char>,
}

impl View for Packer {
    type V = PackerView;

    open spec fn view(&self) -> PackerView {
        PackerView {
            dirs: step_lists(self.dirs@),
            files: step_list(self.files@),
            looks_further: self.looks_further,
            dirs_at: self.dirs_at as nat,
            files_at: self.files_at as nat,
            run: self.run@,
            final_path: self.final_path@,
            tmp_path: self.tmp_path@,
        }
    }
}

/// What is to be done next.
#[derive(Debug, Clone)]
pub enum PackAction {
    /// The directory is to be added or made at each of the places.
    AddDir(Vec<PackStep>),
    /// The file is to be added or copied.
    AddFile(PackStep),
    /// What has been written is to be removed; the backup fails with the error.
    Abort { remove: String, error: String },
    /// What has been written is to be closed and moved to its place.
    Finish { from: String, to: String },
}

/// The contents of a [`PackAction`].
#[verifier::ext_equal]
pub enum ActionView {
    AddDir(Seq<StepView>),
    AddFile(StepView),
    Abort { remove: Seq<char>, error: Seq<char> },
    Finish { from: Seq<char>, to: Seq<char> },
}

impl View for PackAction {
    type V = ActionView;

    open spec fn view(&self) -> ActionView {
        match self {
            PackAction::AddDir(s) => ActionView::AddDir(step_list(s@)),
            PackAction::AddFile(s) => ActionView::AddFile(s@),
            PackAction::Abort { remove, error } => ActionView::Abort {
                remove: remove@,
                error: error@,
            },
            PackAction::Finish { from, to } => ActionView::Finish { from: from@, to: to@ },
        }
    }
}

impl PackerView {
    /// What comes next: the directories, then the files, then the end. Once
    /// cancelled, what has been written is given up before the next directory or
    /// file is looked at, whether it is packed or not; but the directories of a
    /// plain copy are made without a look at that.
    pub open spec fn next_action(self, cancelled: bool) -> ActionView {
        let stop = ActionView::Abort { remove: self.tmp_path, error: "cancelled"@ };
        if self.dirs_at < self.dirs.len() {
            if cancelled && !(self.run.format is Dir) {
                stop
            } else {
                ActionView::AddDir(self.dirs[self.dirs_at as int])
            }
        } else if self.files_at < self.files.len() {
            if cancelled {
                stop
            } else {
                ActionView::AddFile(self.files[self.files_at as int])
            }
        } else if cancelled && self.looks_further {
            stop
        } else {
            ActionView::Finish { from: self.tmp_path, to: self.final_path }
        }
    }

    /// The packer once the next action is handed out.
    pub open spec fn advanced(self, cancelled: bool) -> PackerView {
        match self.next_action(cancelled) {
            ActionView::AddDir(_) => PackerView { dirs_at: self.dirs_at + 1, ..self },
            ActionView::AddFile(_) => PackerView { files_at: self.files_at + 1, ..self },
            _ => self,
        }
    }
}

/// Where things go in a backup that is written at `tmp_path`.
pub open spec fn placement_for(format: Format, tmp_path: Seq<char>) -> PlacementView {
    if format is Dir {
        PlacementView::Directory { dir: tmp_path }
    } else {
        PlacementView::Archive
    }
}

/// Whether a packer starts on what is ready for packing, given the names of what
/// is in the directory of the app.
pub open spec fn starts(packing: Packing, taken: Seq<Seq<char>>, v: PackerView) -> bool {
    let p = packing.course.platform;
    let roots = root_pairs(packing.prefixes.packed@);
    let placement = placement_for(packing.format, v.tmp_path);
    &&& are_pack_paths(
        p,
        packing.app_dir@,
        packing.base_name@,
        packing.format,
        taken,
        v.final_path,
        v.tmp_path,
    )
    &&& v.dirs == dir_steps(p, placement, roots, texts(packing.dirs@))
    &&& v.files == file_steps(p, placement, roots, texts(packing.files@), roots.len()).0
    &&& v.looks_further == looks_further(p, placement, roots, texts(packing.files@))
    &&& v.dirs_at == 0
    &&& v.files_at == 0
    &&& v.run == (RunView {
        app_id: packing.course.app@.id,
        format: packing.format,
        files_total: packing.files_total,
        bytes_total: packing.bytes_total,
        done: 0,
        bytes_done: 0,
    })
}

impl Packing {
    /// Starts packing. `taken` are the names of what is in the directory of the
    /// app.
    pub fn start(&self, taken: &Vec<String>) -> (r: Packer)
        ensures
            starts(*self, texts(taken@), r@),
    {
        let platform = self.course.platform;
        let paths = pack_paths(
            self.app_dir.as_str(),
            self.base_name.as_str(),
            self.format,
            taken,
            platform,
        );
        let placement = match self.format {
            Format::Dir => Placement::Directory { dir: paths.tmp_path.clone() },
            _ => Placement::Archive,
        };
        let dirs = plan_dirs(&self.prefixes.packed, &self.dirs, &placement, platform);
        let files = plan_files(&self.prefixes.packed, &self.files, &placement, platform);
        let run = PackRun::new(
            self.course.app.id.as_str(),
            self.format,
            self.files_total,
            self.bytes_total,
        );
        assert(root_pairs(self.prefixes.packed@).len() == self.prefixes.packed@.len());
        Packer {
            dirs,
            files: files.steps,
            looks_further: files.looks_further,
            dirs_at: 0,
            files_at: 0,
            run,
            final_path: paths.final_path,
            tmp_path: paths.tmp_path,
        }
    }
}

impl Packer {
    /// Hands out what is to be done next.
    pub fn next(&mut self, cancelled: bool) -> (r: PackAction)
        ensures
            r@ == old(self)@.next_action(cancelled),
            final(self)@ == old(self)@.advanced(cancelled),
    {
        proof {
            assert(self@.dirs.len() == self.dirs@.len());
            assert(self@.files.len() == self.files@.len());
        }
        let plain_copy = match self.run.format {
            Format::Dir => true,
            _ => false,
        };
        if self.dirs_at < self.dirs.len() {
            if cancelled && !plain_copy {
                return self.give_up();
            }
            let steps = copy_steps(&self.dirs[self.dirs_at]);
            self.dirs_at = self.dirs_at + 1;
            PackAction::AddDir(steps)
        } else if self.files_at < self.files.len() {
            if cancelled {
                return self.give_up();
            }
            let step = copy_step(&self.files[self.files_at]);
            self.files_at = self.files_at + 1;
            PackAction::AddFile(step)
        } else if cancelled && self.looks_further {
            self.give_up()
        } else {
            PackAction::Finish { from: self.tmp_path.clone(), to: self.final_path.clone() }
        }
    }

    fn give_up(&self) -> (r: PackAction)
        ensures
            r@ == (ActionView::Abort { remove: self@.tmp_path, error: "cancelled"@ }),
    {
        PackAction::Abort { remove: self.tmp_path.clone(), error: "cancelled".to_string() }
    }

    /// What came of a directory: where it could not be made, a plain copy fails,
    /// and an archive goes on without it.
    pub fn dir_done(&self, result: Result<(), String>) -> (r: Result<(), String>)
        ensures
            match result {
                Err(e) => if self@.run.format is Dir {
                    r is Err && r->Err_0@ == e@
                } else {
                    r is Ok
                },
                Ok(_) => r is Ok,
            },
    {
        match self.run.format {
            Format::Dir => result,
            _ => Ok(()),
        }
    }

    /// Whether the counters can take what came of a file.
    pub fn can_take(&self, outcome: &FileOutcome) -> (r: bool)
        ensures
            r == self@.run.has_room(outcome@),
    {
        self.run.can_take(outcome)
    }

    /// Takes in what came of a file. Returns what is to be reported of it.
    pub fn file_done(&mut self, step: &PackStep, outcome: &FileOutcome) -> (r: Vec<Event>)
        requires
            old(self)@.run.has_room(outcome@),
        ensures
            final(self)@ == (PackerView { run: old(self)@.run.with(outcome@), ..old(self)@ }),
            event_list(r@) == old(self)@.run.report(step@, outcome@),
    {
        self.run.take(step, outcome)
    }
}

fn copy_step(s: &PackStep) -> (r: PackStep)
    ensures
        r@ == s@,
{
    PackStep { path: s.path.clone(), place: s.place.clone() }
}

fn copy_steps(steps: &Vec<PackStep>) -> (r: Vec<PackStep>)
    ensures
        step_list(r@) == step_list(steps@),
{
    let mut r: Vec<PackStep> = Vec::new();
    let mut i: usize = 0;
    assert(step_list(r@) =~= step_list(steps@).take(0));
    while i < steps.len()
        invariant
            i <= steps@.len(),
            step_list(r@) == step_list(steps@).take(i as int),
        decreases steps@.len() - i,
    {
        let ghost so_far = r@;
        r.push(copy_step(&steps[i]));
        proof {
            assert(step_list(r@) =~= step_list(so_far).push(steps[i as int]@));
            assert(step_list(steps@).take(i + 1) =~= step_list(steps@).take(i as int).push(
                step_list(steps@)[i as int],
            ));
        }
        i = i + 1;
    }
    assert(step_list(steps@).take(i as int) =~= step_list(steps@));
    r
}

// ---------------------------------------------------------------------------
// Laws
// ---------------------------------------------------------------------------

/// The packer after `n` actions of a run that is not cancelled.
pub open spec fn after_actions(v: PackerView, n: nat) -> PackerView
    decreases n,
{
    if n == 0 {
        v
    } else {
        after_actions(v, (n - 1) as nat).advanced(false)
    }
}

/// A run that is not cancelled hands out each directory and each file once, in
/// order, and then the end.
pub proof fn run_hands_out_everything(v: PackerView, n: nat)
    requires
        v.dirs_at == 0,
        v.files_at == 0,
        n <= v.dirs.len() + v.files.len(),
    ensures
        after_actions(v, n) == if n <= v.dirs.len() {
            PackerView { dirs_at: n, ..v }
        } else {
            PackerView { dirs_at: v.dirs.len(), files_at: (n - v.dirs.len()) as nat, ..v }
        },
        after_actions(v, n).next_action(false) == if n < v.dirs.len() {
            ActionView::AddDir(v.dirs[n as int])
        } else if n < v.dirs.len() + v.files.len() {
            ActionView::AddFile(v.files[n - v.dirs.len()])
        } else {
            ActionView::Finish { from: v.tmp_path, to: v.final_path }
        },
    decreases n,
{
    if n > 0 {
        run_hands_out_everything(v, (n - 1) as nat);
    }
}

/// Once cancelled, no file is handed out any more, and a backup is moved to its
/// place only where nothing is left to look at: otherwise it is given up.
pub proof fn cancelled_run_packs_no_file(v: PackerView)
    ensures
        !(v.next_action(true) is AddFile),
        v.next_action(true) is Finish <==> v.dirs_at >= v.dirs.len() && v.files_at >= v.files.len()
            && !v.looks_further,
        v.next_action(true) matches ActionView::Abort { remove, .. } ==> remove == v.tmp_path
            && v.advanced(true) == v,
{
}

/// The packer after `n` actions of a run that is cancelled.
pub open spec fn after_cancelled(v: PackerView, n: nat) -> PackerView
    decreases n,
{
    if n == 0 {
        v
    } else {
        after_cancelled(v, (n - 1) as nat).advanced(true)
    }
}

proof fn lemma_after_cancelled(v: PackerView, n: nat)
    requires
        v.dirs_at == 0,
        v.files_at == 0,
        v.files.len() > 0 || v.looks_further,
    ensures
        after_cancelled(v, n) == (PackerView {
            dirs_at: if !(v.run.format is Dir) {
                0
            } else if n <= v.dirs.len() {
                n
            } else {
                v.dirs.len()
            },
            ..v
        }),
    decreases n,
{
    if n > 0 {
        lemma_after_cancelled(v, (n - 1) as nat);
    }
}

/// A run on roots and files that is cancelled before it starts packs no file and
/// is given up: it never gets to the end, and once the directories of a plain
/// copy are made, what has been written is removed.
pub proof fn run_cancelled_at_start_is_given_up(
    packing: Packing,
    taken: Seq<Seq<char>>,
    v: PackerView,
    n: nat,
)
    requires
        starts(packing, taken, v),
        packing.prefixes.packed@.len() > 0,
        packing.files@.len() > 0,
    ensures
        !(after_cancelled(v, n).next_action(true) is Finish),
        !(after_cancelled(v, n).next_action(true) is AddFile),
        !(v.run.format is Dir) || n >= v.dirs.len() ==> after_cancelled(v, n).next_action(true)
            == (ActionView::Abort { remove: v.tmp_path, error: "cancelled"@ }),
{
    let roots = root_pairs(packing.prefixes.packed@);
    let files = texts(packing.files@);
    assert(roots.len() == packing.prefixes.packed@.len());
    assert(files.len() == packing.files@.len());
    some_file_is_looked_at(
        packing.course.platform,
        placement_for(packing.format, v.tmp_path),
        roots,
        files,
    );
    lemma_after_cancelled(v, n);
}

/// A plain copy is made in the place where it is written until it is finished; an
/// archive holds names.
pub proof fn plain_copy_is_made_where_it_is_written(
    p: Platform,
    format: Format,
    tmp_path: Seq<char>,
    prefix: Seq<char>,
    root: Seq<char>,
    path: Seq<char>,
)
    ensures
        format is Dir ==> placed(p, placement_for(format, tmp_path), prefix, root, path)
            == place_in_dir(p, tmp_path, prefix, root, path),
        !(format is Dir) ==> placed(p, placement_for(format, tmp_path), prefix, root, path)
            == name_in_archive(p, prefix, root, path),
{
}

/// A packer starts with nothing done of all that the scan found, for the app and in
/// the format that it is for.
pub proof fn packer_starts_with_nothing_done(
    packing: Packing,
    taken: Seq<Seq<char>>,
    v: PackerView,
)
    requires
        starts(packing, taken, v),
    ensures
        v.run.app_id == packing.course.app@.id,
        v.run.format == packing.format,
        v.run.files_total == packing.files_total,
        v.run.bytes_total == packing.bytes_total,
        v.run.done == 0,
        v.run.bytes_done == 0,
        v.dirs_at == 0,
        v.files_at == 0,
        v.dirs.len() == packing.dirs@.len(),
{
    assert(texts(packing.dirs@).len() == packing.dirs@.len());
}

/// Each file that a packer hands out was found by the scan, lies in a root that is
/// packed, and goes below the prefix of the first of these: under a name in an
/// archive, or to a place below where a plain copy is written.
pub proof fn packer_hands_out_found_files(
    packing: Packing,
    taken: Seq<Seq<char>>,
    v: PackerView,
    i: int,
)
    requires
        starts(packing, taken, v),
        0 <= i < v.files.len(),
    ensures
        texts(packing.files@).contains(v.files[i].path),
        packing.format is Dir ==> exists|k: int|
            0 <= k < packing.prefixes.packed@.len() && #[trigger] goes_to_root(
                packing.course.platform,
                PlacementView::Directory { dir: v.tmp_path },
                root_pairs(packing.prefixes.packed@),
                v.files[i],
                k,
            ),
        !(packing.format is Dir) ==> exists|k: int|
            0 <= k < packing.prefixes.packed@.len() && #[trigger] goes_to_root(
                packing.course.platform,
                PlacementView::Archive,
                root_pairs(packing.prefixes.packed@),
                v.files[i],
                k,
            ),
{
    let p = packing.course.platform;
    let roots = root_pairs(packing.prefixes.packed@);
    let placement = placement_for(packing.format, v.tmp_path);
    assert(roots.len() == packing.prefixes.packed@.len());
    only_found_files_are_packed(p, placement, roots, texts(packing.files@), i);
    file_goes_below_prefix_of_first_root(
        p,
        placement,
        roots,
        texts(packing.files@),
        roots.len(),
        i,
    );
}

/// Every file that the scan found in a root that is packed is handed out, once.
pub proof fn packer_hands_out_all_found_files(
    packing: Packing,
    taken: Seq<Seq<char>>,
    v: PackerView,
    i: int,
    r: int,
)
    requires
        starts(packing, taken, v),
        0 <= i < packing.files@.len(),
        0 <= r < packing.prefixes.packed@.len(),
        is_under(
            packing.course.platform,
            packing.files@[i]@,
            packing.prefixes.packed@[r].0@,
        ),
    ensures
        exists|k: int|
            0 <= k < v.files.len() && same_path(
                packing.course.platform,
                (#[trigger] v.files[k]).path,
                packing.files@[i]@,
            ),
        forall|a: int, b: int|
            0 <= a < b < v.files.len() ==> !same_path(
                packing.course.platform,
                (#[trigger] v.files[a]).path,
                (#[trigger] v.files[b]).path,
            ),
{
    let p = packing.course.platform;
    let roots = root_pairs(packing.prefixes.packed@);
    let files = texts(packing.files@);
    let placement = placement_for(packing.format, v.tmp_path);
    assert(roots[r] == (packing.prefixes.packed@[r].0@, packing.prefixes.packed@[r].1@));
    assert(files[i] == packing.files@[i]@);
    files_in_roots_are_packed(p, placement, roots, files, i, r);
    assert forall|a: int, b: int| 0 <= a < b < v.files.len() implies !same_path(
        p,
        (#[trigger] v.files[a]).path,
        (#[trigger] v.files[b]).path,
    ) by {
        files_are_packed_once(p, placement, roots, files, a, b);
    }
}

} // verus!
