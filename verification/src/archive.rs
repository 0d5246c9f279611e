//! Names inside a backup and of a backup.

use crate::clock::{is_stamp, stamp_characters};
use crate::config::Format;
use crate::paths::{
    added, added_separator_is_idle, below, below_grows_by_name, below_is_not_empty, components,
    dot_behind_drive, ends_with_name, file_name, has_root, head_parts, is_absolute, is_firm, is_name,
    is_plain_name, is_relative, is_sep, is_under, is_verbatim, join, join_adds_component,
    joined_name_is_below, main_sep, name_is_part_of_path, names, names_hold_no_separator,
    names_spell_path, nothing_below_itself, path_file_name, path_join, path_names, path_strip,
    prefix_len, respelled,
    same_path, separators_are_alike, slashed, verbatim_join_in_turn, verbatim_join_of_slashed,
    verbatim_stays,
};
use crate::platform::Platform;
use crate::summary::longer_name_is_plain;
use crate::text::{
    cat, cat3, clone_texts, decimal, decimal_digits, decimal_injective, decimal_text, distinct_within, ends_in,
    holds, joined, replace_char, replaced, same, texts,
};
use vstd::prelude::*;
use vstd::string::*;

verus! {

// ---------------------------------------------------------------------------
// Prefixes of roots
// ---------------------------------------------------------------------------

/// The name a root goes by: its last component, or `root` where it has none.
pub open spec fn root_name(p: Platform, root: Seq<char>) -> Seq<char> {
    match file_name(p, root) {
        Some(name) => if name.len() > 0 {
            replaced(name, '\\', '/')
        } else {
            "root"@
        },
        None => "root"@,
    }
}

/// The components of a root that name a file or directory.
pub open spec fn root_parts(p: Platform, root: Seq<char>) -> Seq<Seq<char>> {
    names(p, root).filter(|n: Seq<char>| n != seq!['.'] && n != seq!['.', '.']).map_values(
        |n: Seq<char>| replaced(n, '\\', '/'),
    )
}

/// A root on the way to a prefix of its own.
#[verifier::ext_equal]
pub struct RootState {
    pub root: Seq<char>,
    /// The name the root goes by.
    pub base: Seq<char>,
    pub prefix: Seq<char>,
    pub parts: Seq<Seq<char>>,
    /// How many parts, from the last, are in the prefix.
    pub used: nat,
}

/// Whether another root has the same prefix as the one at `i`.
pub open spec fn shares_prefix(states: Seq<RootState>, i: int) -> bool {
    exists|j: int|
        0 <= j < states.len() && j != i && (#[trigger] states[j]).prefix == states[i].prefix
}

/// Whether no two roots have the same prefix.
pub open spec fn prefixes_differ(states: Seq<RootState>) -> bool {
    forall|i: int, j: int|
        0 <= i < j < states.len() ==> (#[trigger] states[i]).prefix != (#[trigger] states[j]).prefix
}

/// The prefix of each root.
pub open spec fn prefix_list(states: Seq<RootState>) -> Seq<Seq<char>> {
    states.map_values(|s: RootState| s.prefix)
}

/// `base` with a number at its end.
pub open spec fn numbered(base: Seq<char>, k: nat) -> Seq<char> {
    base + "-"@ + decimal(k)
}

/// The first number from `k` on, of at most `fuel` that are tried, with which
/// `base` is not taken.
pub open spec fn free_number(base: Seq<char>, taken: Seq<Seq<char>>, k: nat, fuel: nat) -> nat
    decreases fuel,
{
    if fuel == 0 || !taken.contains(numbered(base, k)) {
        k
    } else {
        free_number(base, taken, k + 1, (fuel - 1) as nat)
    }
}

/// `base` with the first number from 2 on with which it is not taken.
pub open spec fn free_name(base: Seq<char>, taken: Seq<Seq<char>>) -> Seq<char> {
    numbered(base, free_number(base, taken, 2, taken.len() + 1))
}

/// The first `n` roots after one round, and the numbered names that the round
/// has given out. A root that shares its prefix gets the next of its parents in
/// front of it, or, where it has none left, a numbered name.
pub open spec fn round(start: Seq<RootState>, n: nat) -> (Seq<RootState>, Seq<Seq<char>>)
    decreases n,
{
    if n == 0 {
        (Seq::empty(), Seq::empty())
    } else {
        let (done, given) = round(start, (n - 1) as nat);
        let s = start[n - 1];
        if !shares_prefix(start, n - 1) {
            (done.push(s), given)
        } else if s.used < s.parts.len() {
            (
                done.push(
                    RootState {
                        prefix: s.parts[s.parts.len() - 1 - s.used] + "/"@ + s.prefix,
                        used: s.used + 1,
                        ..s
                    },
                ),
                given,
            )
        } else {
            let name = free_name(s.base, prefix_list(start) + given);
            (done.push(RootState { prefix: name, ..s }), given.push(name))
        }
    }
}

/// All roots after one round.
pub open spec fn rounded(start: Seq<RootState>) -> Seq<RootState> {
    round(start, start.len()).0
}

/// How many parts are left that could go into prefixes.
pub open spec fn parts_left(states: Seq<RootState>) -> nat
    decreases states.len(),
{
    if states.len() == 0 {
        0
    } else {
        let s = states.last();
        parts_left(states.drop_last()) + if s.used < s.parts.len() {
            (s.parts.len() - s.used) as nat
        } else {
            0nat
        }
    }
}

/// Each round shortens the way to different prefixes.
pub proof fn rounds_end(start: Seq<RootState>)
    requires
        !prefixes_differ(start),
    ensures
        parts_left(rounded(start)) < parts_left(start) || (parts_left(rounded(start)) == parts_left(
            start,
        ) && prefixes_differ(rounded(start))),
{
    lemma_round(start, start.len());
    let end = rounded(start);
    lemma_parts_left(start, end);
    if parts_left(end) == parts_left(start) {
        lemma_parts_left_same(start, end);
        assert forall|i: int| 0 <= i < start.len() && shares_prefix(start, i) implies (
        #[trigger] start[i]).used >= start[i].parts.len() by {
            assert(end[i].parts == start[i].parts);
        }
        lemma_round_fresh(start, start.len());
    }
}

/// The roots after as many rounds as it takes for all prefixes to differ.
pub open spec fn settled(states: Seq<RootState>) -> Seq<RootState>
    decreases
            parts_left(states),
            if prefixes_differ(states) {
                0int
            } else {
                1int
            },
{
    if prefixes_differ(states) {
        states
    } else {
        proof {
            rounds_end(states);
        }
        settled(rounded(states))
    }
}

/// A root before the first round: it goes by its name.
pub open spec fn fresh_root(p: Platform, root: Seq<char>) -> RootState {
    RootState {
        root,
        base: root_name(p, root),
        prefix: root_name(p, root),
        parts: root_parts(p, root),
        used: 1,
    }
}

/// Each root with its prefix.
pub open spec fn root_prefixes(p: Platform, roots: Seq<Seq<char>>) -> Seq<(Seq<char>, Seq<char>)> {
    settled(roots.map_values(|r: Seq<char>| fresh_root(p, r))).map_values(
        |s: RootState| (s.root, s.prefix),
    )
}

/// A numbered name tells its number.
proof fn lemma_numbered_differ(base: Seq<char>, j: nat, k: nat)
    requires
        numbered(base, j) == numbered(base, k),
    ensures
        j == k,
{
    let head = base + "-"@;
    assert(numbered(base, j).skip(head.len() as int) =~= decimal(j));
    assert(numbered(base, k).skip(head.len() as int) =~= decimal(k));
    decimal_injective(j, k);
}

/// When `base` is taken with all numbers from 2 to before `k`, at least so many
/// names are taken.
proof fn lemma_numbers_taken(base: Seq<char>, taken: Seq<Seq<char>>, k: nat)
    requires
        k >= 2,
        forall|j: nat| 2 <= j < k ==> taken.contains(#[trigger] numbered(base, j)),
    ensures
        k - 2 <= taken.len(),
{
    let some = Seq::new((k - 2) as nat, |i: int| numbered(base, (i + 2) as nat));
    assert(some.no_duplicates()) by {
        assert forall|i: int, j: int|
            0 <= i < some.len() && 0 <= j < some.len() && i != j implies some[i] != some[j] by {
            if some[i] == some[j] {
                lemma_numbered_differ(base, (i + 2) as nat, (j + 2) as nat);
            }
        }
    }
    distinct_within(some, taken);
}

proof fn lemma_free_number(base: Seq<char>, taken: Seq<Seq<char>>, k: nat, fuel: nat)
    requires
        k >= 2,
        k - 2 + fuel == taken.len() + 1,
        forall|j: nat| 2 <= j < k ==> taken.contains(#[trigger] numbered(base, j)),
    ensures
        !taken.contains(numbered(base, free_number(base, taken, k, fuel))),
    decreases fuel,
{
    lemma_numbers_taken(base, taken, k);
    if taken.contains(numbered(base, k)) {
        assert forall|j: nat| 2 <= j < k + 1 implies taken.contains(
            #[trigger] numbered(base, j),
        ) by {
            if j == k {
            }
        }
        lemma_numbers_taken(base, taken, k + 1);
        lemma_free_number(base, taken, k + 1, (fuel - 1) as nat);
    }
}

/// The first free name is not taken.
pub proof fn free_name_is_free(base: Seq<char>, taken: Seq<Seq<char>>)
    ensures
        !taken.contains(free_name(base, taken)),
{
    lemma_free_number(base, taken, 2, taken.len() + 1);
}

/// What one round does to each root.
proof fn lemma_round(start: Seq<RootState>, n: nat)
    requires
        n <= start.len(),
    ensures
        round(start, n).0.len() == n,
        forall|i: int|
            0 <= i < n ==> {
                let s = start[i];
                let t = #[trigger] round(start, n).0[i];
                &&& t.root == s.root
                &&& t.base == s.base
                &&& t.parts == s.parts
                &&& !shares_prefix(start, i) ==> t == s
                &&& shares_prefix(start, i) && s.used < s.parts.len() ==> t.used == s.used + 1
                    && t.prefix == s.parts[s.parts.len() - 1 - s.used] + "/"@ + s.prefix
                &&& shares_prefix(start, i) && s.used >= s.parts.len() ==> t.used == s.used
            },
    decreases n,
{
    if n > 0 {
        lemma_round(start, (n - 1) as nat);
        let before = round(start, (n - 1) as nat).0;
        let after = round(start, n).0;
        assert forall|i: int| 0 <= i < n - 1 implies after[i] == before[i] by {}
    }
}

proof fn lemma_parts_left(start: Seq<RootState>, end: Seq<RootState>)
    requires
        start.len() == end.len(),
        forall|i: int|
            0 <= i < start.len() ==> (#[trigger] end[i]).parts == start[i].parts && end[i].used
                >= start[i].used,
    ensures
        parts_left(end) <= parts_left(start),
    decreases start.len(),
{
    if start.len() > 0 {
        let a = start.drop_last();
        let b = end.drop_last();
        assert forall|i: int| 0 <= i < a.len() implies (#[trigger] b[i]).parts == a[i].parts
            && b[i].used >= a[i].used by {
            assert(end[i] == b[i]);
        }
        lemma_parts_left(a, b);
        assert(end.last() == end[end.len() - 1]);
    }
}

/// When no part went into a prefix, each root that shares its prefix had none
/// left.
proof fn lemma_parts_left_same(start: Seq<RootState>, end: Seq<RootState>)
    requires
        start.len() == end.len(),
        forall|i: int|
            0 <= i < start.len() ==> (#[trigger] end[i]).parts == start[i].parts && end[i].used
                >= start[i].used,
        parts_left(end) == parts_left(start),
    ensures
        forall|i: int|
            0 <= i < start.len() ==> (start[i].used < start[i].parts.len() ==> (#[trigger] end[i]).used
                == start[i].used),
    decreases start.len(),
{
    if start.len() > 0 {
        let a = start.drop_last();
        let b = end.drop_last();
        assert forall|i: int| 0 <= i < a.len() implies (#[trigger] b[i]).parts == a[i].parts
            && b[i].used >= a[i].used by {
            assert(end[i] == b[i]);
        }
        lemma_parts_left(a, b);
        assert(end.last() == end[end.len() - 1]);
        lemma_parts_left_same(a, b);
        assert forall|i: int|
            0 <= i < start.len() && start[i].used < start[i].parts.len() implies (
        #[trigger] end[i]).used == start[i].used by {
            if i < a.len() {
                assert(b[i] == end[i]);
                assert(a[i] == start[i]);
            }
        }
    }
}

/// In a round that puts no part into a prefix, the roots that shared theirs get
/// names that no root had and that differ from each other.
proof fn lemma_round_fresh(start: Seq<RootState>, n: nat)
    requires
        n <= start.len(),
        forall|i: int|
            0 <= i < n && shares_prefix(start, i) ==> (#[trigger] start[i]).used
                >= start[i].parts.len(),
    ensures
        prefixes_differ(round(start, n).0),
        forall|i: int|
            0 <= i < n ==> {
                let t = #[trigger] round(start, n).0[i];
                if shares_prefix(start, i) {
                    !prefix_list(start).contains(t.prefix) && round(start, n).1.contains(t.prefix)
                } else {
                    t.prefix == start[i].prefix
                }
            },
    decreases n,
{
    if n > 0 {
        let m = (n - 1) as nat;
        lemma_round_fresh(start, m);
        lemma_round(start, n);
        lemma_round(start, m);
        let (done, given) = round(start, m);
        let (end, given_now) = round(start, n);
        let s = start[m as int];
        let name = free_name(s.base, prefix_list(start) + given);
        free_name_is_free(s.base, prefix_list(start) + given);
        assert forall|i: int| 0 <= i < m implies end[i] == done[i] by {}
        assert forall|x: Seq<char>| given.contains(x) implies given_now.contains(x) by {
            let k = choose|k: int| 0 <= k < given.len() && given[k] == x;
            assert(given_now[k] == x);
        }
        if shares_prefix(start, m as int) {
            assert(s.used >= s.parts.len());
            assert(end[m as int].prefix == name);
            assert(given_now[given.len() as int] == name);
            let all = prefix_list(start) + given;
            assert(!prefix_list(start).contains(name)) by {
                if prefix_list(start).contains(name) {
                    let k = choose|k: int|
                        0 <= k < prefix_list(start).len() && prefix_list(start)[k] == name;
                    assert(all[k] == name);
                }
            }
            assert(!given.contains(name)) by {
                if given.contains(name) {
                    let k = choose|k: int| 0 <= k < given.len() && given[k] == name;
                    assert(all[prefix_list(start).len() + k] == name);
                }
            }
        }
        assert forall|i: int| 0 <= i < n implies {
            let t = #[trigger] end[i];
            if shares_prefix(start, i) {
                !prefix_list(start).contains(t.prefix) && given_now.contains(t.prefix)
            } else {
                t.prefix == start[i].prefix
            }
        } by {
            if i < m {
                assert(end[i] == done[i]);
            }
        }
        assert forall|i: int, j: int| 0 <= i < j < n implies (#[trigger] end[i]).prefix != (
        #[trigger] end[j]).prefix by {
            assert(end[i] == done[i]);
            assert(prefix_list(start)[i] == start[i].prefix);
            if j < m {
                assert(end[j] == done[j]);
            } else if shares_prefix(start, m as int) {
                if shares_prefix(start, i) {
                    assert(given.contains(done[i].prefix));
                } else {
                    assert(prefix_list(start).contains(done[i].prefix));
                }
            } else {
                // The last one keeps a prefix that no other root had.
                assert(prefix_list(start)[m as int] == s.prefix);
                assert(start[i].prefix != s.prefix);
            }
        }
    }
}

struct RootEntry {
    root: String,
    base: String,
    prefix: String,
    parts: Vec<String>,
    used: usize,
}

impl View for RootEntry {
    type V = RootState;

    closed spec fn view(&self) -> RootState {
        RootState {
            root: self.root@,
            base: self.base@,
            prefix: self.prefix@,
            parts: texts(self.parts@),
            used: self.used as nat,
        }
    }
}

spec fn states(entries: Seq<RootEntry>) -> Seq<RootState> {
    entries.map_values(|e: RootEntry| e@)
}

fn base_of(root: &str, platform: Platform) -> (r: String)
    ensures
        r@ == root_name(platform, root@),
{
    match path_file_name(platform, root) {
        Some(name) => {
            if name.as_str().is_empty() {
                "root".to_string()
            } else {
                replace_char(name.as_str(), '\\', '/')
            }
        },
        None => "root".to_string(),
    }
}

fn components_of(root: &str, platform: Platform) -> (r: Vec<String>)
    ensures
        texts(r@) == root_parts(platform, root@),
{
    let list = path_names(platform, root);
    let ghost all = texts(list@);
    let ghost normal = |n: Seq<char>| n != seq!['.'] && n != seq!['.', '.'];
    let ghost slashed = |n: Seq<char>| replaced(n, '\\', '/');
    let mut r: Vec<String> = Vec::new();
    let mut i: usize = 0;
    proof {
        reveal(Seq::filter);
        reveal_strlit(".");
        reveal_strlit("..");
        assert("."@ =~= seq!['.']);
        assert(".."@ =~= seq!['.', '.']);
        assert(texts(r@) =~= all.take(0).filter(normal).map_values(slashed));
    }
    while i < list.len()
        invariant
            i <= list@.len(),
            all == texts(list@),
            normal == (|n: Seq<char>| n != seq!['.'] && n != seq!['.', '.']),
            slashed == (|n: Seq<char>| replaced(n, '\\', '/')),
            "."@ == seq!['.'],
            ".."@ == seq!['.', '.'],
            texts(r@) == all.take(i as int).filter(normal).map_values(slashed),
        decreases list@.len() - i,
    {
        let ghost so_far = r@;
        let ghost kept = all.take(i as int).filter(normal);
        proof {
            reveal(Seq::filter);
            assert(all.take(i + 1).drop_last() =~= all.take(i as int));
            assert(all.take(i + 1).last() == list@[i as int]@);
        }
        if !same(list[i].as_str(), ".") && !same(list[i].as_str(), "..") {
            r.push(replace_char(list[i].as_str(), '\\', '/'));
            proof {
                assert(texts(r@) =~= texts(so_far).push(replaced(list@[i as int]@, '\\', '/')));
                assert(kept.push(list@[i as int]@).map_values(slashed) =~= kept.map_values(
                    slashed,
                ).push(replaced(list@[i as int]@, '\\', '/')));
            }
        }
        i = i + 1;
    }
    assert(all.take(i as int) =~= all);
    r
}

fn shares(entries: &Vec<RootEntry>, i: usize) -> (r: bool)
    requires
        i < entries@.len(),
    ensures
        r == shares_prefix(states(entries@), i as int),
{
    let ghost all = states(entries@);
    let mut j: usize = 0;
    while j < entries.len()
        invariant
            j <= entries@.len(),
            i < entries@.len(),
            all == states(entries@),
            forall|k: int|
                0 <= k < j && k != i ==> (#[trigger] all[k]).prefix != all[i as int].prefix,
        decreases entries@.len() - j,
    {
        if j != i && same(entries[j].prefix.as_str(), entries[i].prefix.as_str()) {
            assert(all[j as int].prefix == all[i as int].prefix);
            return true;
        }
        j = j + 1;
    }
    false
}

fn find_free_name(base: &str, taken: &Vec<String>) -> (r: String)
    ensures
        r@ == free_name(base@, texts(taken@)),
{
    let ghost list = texts(taken@);
    let total: usize = taken.len();
    let mut k: u128 = 2;
    let head = cat(base, "-");
    let number = decimal_text(k);
    let mut name = cat(head.as_str(), number.as_str());
    while holds(taken, name.as_str())
        invariant
            total == taken@.len(),
            list == texts(taken@),
            2 <= k <= total + 2,
            head@ == base@ + "-"@,
            name@ == numbered(base@, k as nat),
            free_number(base@, list, 2, total as nat + 1) == free_number(
                base@,
                list,
                k as nat,
                (total + 3 - k) as nat,
            ),
            forall|j: nat| 2 <= j < k ==> list.contains(#[trigger] numbered(base@, j)),
        decreases total + 3 - k,
    {
        proof {
            assert forall|j: nat| 2 <= j < k + 1 implies list.contains(
                #[trigger] numbered(base@, j),
            ) by {
                if j == k {
                }
            }
            lemma_numbers_taken(base@, list, (k + 1) as nat);
        }
        k = k + 1;
        let next = decimal_text(k);
        name = cat(head.as_str(), next.as_str());
    }
    name
}

fn prefixes_of(entries: &Vec<RootEntry>) -> (r: Vec<String>)
    ensures
        texts(r@) == prefix_list(states(entries@)),
{
    let ghost all = prefix_list(states(entries@));
    let mut r: Vec<String> = Vec::new();
    let mut i: usize = 0;
    while i < entries.len()
        invariant
            i <= entries@.len(),
            all == prefix_list(states(entries@)),
            texts(r@) == all.take(i as int),
        decreases entries@.len() - i,
    {
        let ghost so_far = r@;
        r.push(entries[i].prefix.clone());
        i = i + 1;
        proof {
            assert(all[i - 1] == entries@[i - 1].prefix@);
            assert(texts(r@) =~= texts(so_far).push(entries@[i - 1].prefix@));
            assert(all.take(i as int) =~= all.take(i - 1).push(all[i - 1]));
        }
    }
    assert(all.take(i as int) =~= all);
    r
}

/// One round over all roots. Tells whether it changed anything.
fn run_round(entries: &mut Vec<RootEntry>) -> (changed: bool)
    ensures
        changed == !prefixes_differ(states(old(entries)@)),
        changed ==> states(final(entries)@) == rounded(states(old(entries)@)),
        !changed ==> states(final(entries)@) == states(old(entries)@),
{
    let ghost start = states(entries@);
    let mut taken = prefixes_of(entries);
    let ghost first = texts(taken@);
    let mut done: Vec<RootEntry> = Vec::new();
    let mut changed = false;
    let mut i: usize = 0;
    proof {
        assert(states(done@) =~= round(start, 0).0);
        assert(texts(taken@) =~= first + round(start, 0).1);
    }
    while i < entries.len()
        invariant
            i <= entries@.len(),
            entries@ == old(entries)@,
            start == states(entries@),
            first == prefix_list(start),
            states(done@) == round(start, i as nat).0,
            texts(taken@) == first + round(start, i as nat).1,
            changed == exists|k: int| 0 <= k < i && #[trigger] shares_prefix(start, k),
        decreases entries@.len() - i,
    {
        let ghost done_before = done@;
        let ghost taken_before = taken@;
        let ghost given = round(start, i as nat).1;
        let e = &entries[i];
        let ghost s = start[i as int];
        assert(s == e@);
        let next: RootEntry;
        if !shares(entries, i) {
            next = RootEntry {
                root: e.root.clone(),
                base: e.base.clone(),
                prefix: e.prefix.clone(),
                parts: clone_texts(&e.parts),
                used: e.used,
            };
        } else {
            changed = true;
            assert(shares_prefix(start, i as int));
            if e.used < e.parts.len() {
                let parent = &e.parts[e.parts.len() - 1 - e.used];
                next = RootEntry {
                    root: e.root.clone(),
                    base: e.base.clone(),
                    prefix: cat3(parent.as_str(), "/", e.prefix.as_str()),
                    parts: clone_texts(&e.parts),
                    used: e.used + 1,
                };
            } else {
                let name = find_free_name(e.base.as_str(), &taken);
                taken.push(name.clone());
                assert(texts(taken@) =~= texts(taken_before).push(name@));
                assert(texts(taken@) =~= first + given.push(name@));
                next = RootEntry {
                    root: e.root.clone(),
                    base: e.base.clone(),
                    prefix: name,
                    parts: clone_texts(&e.parts),
                    used: e.used,
                };
            }
        }
        let ghost next_view = next@;
        done.push(next);
        i = i + 1;
        proof {
            assert(states(done@) =~= states(done_before).push(next_view));
            assert(states(done@) =~= round(start, i as nat).0);
            assert(texts(taken@) =~= first + round(start, i as nat).1);
        }
    }
    proof {
        if changed {
            let k = choose|k: int| 0 <= k < i && #[trigger] shares_prefix(start, k);
            let j = choose|j: int|
                0 <= j < start.len() && j != k && (#[trigger] start[j]).prefix == start[k].prefix;
            if j < k {
                assert(start[j].prefix == start[k].prefix);
            } else {
                assert(start[k].prefix == start[j].prefix);
            }
            assert(!prefixes_differ(start));
        } else {
            assert forall|a: int, b: int| 0 <= a < b < start.len() implies (
            #[trigger] start[a]).prefix != (#[trigger] start[b]).prefix by {
                if start[a].prefix == start[b].prefix {
                    assert(shares_prefix(start, a));
                }
            }
        }
    }
    if changed {
        *entries = done;
    }
    changed
}

/// The contents of each pair of a root and its prefix.
pub open spec fn root_pairs(v: Seq<(String, String)>) -> Seq<(Seq<char>, Seq<char>)> {
    v.map_values(|p: (String, String)| (p.0@, p.1@))
}

/// Archive prefix for every root. Each root is archived under its basename;
/// colliding basenames get parent path components prepended until every prefix
/// is unique. Identical roots fall back to numeric suffixes.
pub fn build_archive_prefixes(roots: &Vec<String>, platform: Platform) -> (r: Vec<
    (String, String),
>)
    ensures
        root_pairs(r@) == root_prefixes(platform, texts(roots@)),
{
    let ghost fresh = |r: Seq<char>| fresh_root(platform, r);
    let ghost start = texts(roots@).map_values(fresh);
    let mut entries: Vec<RootEntry> = Vec::new();
    let mut i: usize = 0;
    while i < roots.len()
        invariant
            i <= roots@.len(),
            fresh == (|r: Seq<char>| fresh_root(platform, r)),
            start == texts(roots@).map_values(fresh),
            states(entries@) == start.take(i as int),
        decreases roots@.len() - i,
    {
        let ghost so_far = entries@;
        let root = roots[i].as_str();
        let base = base_of(root, platform);
        let e = RootEntry {
            root: root.to_string(),
            base: base.clone(),
            prefix: base,
            parts: components_of(root, platform),
            used: 1,
        };
        let ghost view = e@;
        entries.push(e);
        i = i + 1;
        proof {
            assert(view == fresh_root(platform, roots@[i - 1]@));
            assert(start[i - 1] == view);
            assert(states(entries@) =~= states(so_far).push(view));
            assert(start.take(i as int) =~= start.take(i - 1).push(start[i - 1]));
        }
    }
    assert(start.take(i as int) =~= start);
    let mut going = true;
    while going
        invariant
            going ==> settled(states(entries@)) == settled(start),
            !going ==> states(entries@) == settled(start),
        decreases
                parts_left(states(entries@)),
                if prefixes_differ(states(entries@)) {
                    0int
                } else {
                    1int
                },
                if going {
                    1int
                } else {
                    0int
                },
    {
        proof {
            if !prefixes_differ(states(entries@)) {
                rounds_end(states(entries@));
            }
        }
        going = run_round(&mut entries);
    }
    let ghost end = states(entries@);
    let ghost pair = |s: RootState| (s.root, s.prefix);
    let mut r: Vec<(String, String)> = Vec::new();
    let mut k: usize = 0;
    while k < entries.len()
        invariant
            k <= entries@.len(),
            end == states(entries@),
            pair == (|s: RootState| (s.root, s.prefix)),
            root_pairs(r@) == end.map_values(pair).take(k as int),
        decreases entries@.len() - k,
    {
        let ghost so_far = r@;
        r.push((entries[k].root.clone(), entries[k].prefix.clone()));
        k = k + 1;
        proof {
            assert(end[k - 1] == entries@[k - 1]@);
            assert(root_pairs(r@) =~= root_pairs(so_far).push((end[k - 1].root, end[k - 1].prefix)));
            assert(end.map_values(pair).take(k as int) =~= end.map_values(pair).take(k - 1).push(
                end.map_values(pair)[k - 1],
            ));
        }
    }
    assert(end.map_values(pair).take(k as int) =~= end.map_values(pair));
    r
}

// ---------------------------------------------------------------------------
// Names inside a backup
// ---------------------------------------------------------------------------

/// The name in the archive of what lies at `path` in a root.
pub open spec fn name_in_archive(
    p: Platform,
    prefix: Seq<char>,
    root: Seq<char>,
    path: Seq<char>,
) -> Seq<char> {
    match below(p, path, root) {
        Some(rel) => if rel.len() == 0 {
            prefix
        } else {
            prefix + "/"@ + replaced(rel, '\\', '/')
        },
        None => prefix,
    }
}

/// Archive name for `path` inside `root`, prefixed with the root's archive
/// prefix. The root itself maps to the bare prefix.
pub fn archive_name(prefix: &str, root: &str, path: &str, platform: Platform) -> (r: String)
    ensures
        r@ == name_in_archive(platform, prefix@, root@, path@),
{
    match path_strip(platform, path, root) {
        Some(rel) => {
            if rel.as_str().is_empty() {
                prefix.to_string()
            } else {
                let slashed = replace_char(rel.as_str(), '\\', '/');
                cat3(prefix, "/", slashed.as_str())
            }
        },
        None => prefix.to_string(),
    }
}

/// The place in a directory backup of what lies at `path` in a root.
pub open spec fn place_in_dir(
    p: Platform,
    dir: Seq<char>,
    prefix: Seq<char>,
    root: Seq<char>,
    path: Seq<char>,
) -> Seq<char> {
    match below(p, path, root) {
        Some(rel) => if rel.len() == 0 {
            join(p, dir, prefix)
        } else {
            join(p, join(p, dir, prefix), rel)
        },
        None => join(p, dir, prefix),
    }
}

/// Target path inside a directory backup, mirroring `archive_name`.
pub fn archive_target(tmp: &str, prefix: &str, root: &str, path: &str, platform: Platform) -> (r:
    String)
    ensures
        r@ == place_in_dir(platform, tmp@, prefix@, root@, path@),
{
    let top = path_join(platform, tmp, prefix);
    match path_strip(platform, path, root) {
        Some(rel) => {
            if rel.as_str().is_empty() {
                top
            } else {
                path_join(platform, top.as_str(), rel.as_str())
            }
        },
        None => top,
    }
}

// ---------------------------------------------------------------------------
// Names of backups
// ---------------------------------------------------------------------------

/// The `n`-th name that is tried for a backup.
pub open spec fn candidate_file(base_name: Seq<char>, format: Format, n: nat) -> Seq<char> {
    if n == 0 {
        base_name + "."@ + format.suffix()
    } else {
        base_name + "_"@ + decimal(n) + "."@ + format.suffix()
    }
}

/// Whether the `n`-th name is the first that is not taken.
pub open spec fn first_free_file_at(
    base_name: Seq<char>,
    format: Format,
    taken: Seq<Seq<char>>,
    n: nat,
) -> bool {
    &&& !taken.contains(candidate_file(base_name, format, n))
    &&& forall|j: nat| j < n ==> taken.contains(#[trigger] candidate_file(base_name, format, j))
}

/// Whether `name` is the first name for a backup that is not taken.
pub open spec fn is_first_free_file(
    base_name: Seq<char>,
    format: Format,
    taken: Seq<Seq<char>>,
    name: Seq<char>,
) -> bool {
    exists|n: nat|
        #[trigger] first_free_file_at(base_name, format, taken, n) && name == candidate_file(
            base_name,
            format,
            n,
        )
}

/// Different numbers give different names.
proof fn lemma_files_differ(base_name: Seq<char>, format: Format, j: nat, k: nat)
    requires
        1 <= j,
        1 <= k,
        candidate_file(base_name, format, j) == candidate_file(base_name, format, k),
    ensures
        j == k,
{
    let a = candidate_file(base_name, format, j);
    let b = candidate_file(base_name, format, k);
    let head = (base_name + "_"@).len() as int;
    let tail = ("."@ + format.suffix()).len() as int;
    assert(a.len() == head + decimal(j).len() + tail);
    assert(b.len() == head + decimal(k).len() + tail);
    assert(a.subrange(head, a.len() - tail) =~= decimal(j));
    assert(b.subrange(head, b.len() - tail) =~= decimal(k));
    decimal_injective(j, k);
}

proof fn lemma_files_taken(base_name: Seq<char>, format: Format, taken: Seq<Seq<char>>, n: nat)
    requires
        n >= 1,
        forall|j: nat| j < n ==> taken.contains(#[trigger] candidate_file(base_name, format, j)),
    ensures
        n - 1 <= taken.len(),
{
    let some = Seq::new((n - 1) as nat, |i: int| candidate_file(base_name, format, (i + 1) as nat));
    assert(some.no_duplicates()) by {
        assert forall|i: int, j: int|
            0 <= i < some.len() && 0 <= j < some.len() && i != j implies some[i] != some[j] by {
            if some[i] == some[j] {
                lemma_files_differ(base_name, format, (i + 1) as nat, (j + 1) as nat);
            }
        }
    }
    distinct_within(some, taken);
}

fn file_candidate(base_name: &str, format: Format, n: u128) -> (r: String)
    ensures
        r@ == candidate_file(base_name@, format, n as nat),
{
    if n == 0 {
        cat3(base_name, ".", format.extension())
    } else {
        let number = decimal_text(n);
        let head = cat3(base_name, "_", number.as_str());
        cat3(head.as_str(), ".", format.extension())
    }
}

/// Where the next backup goes: in `app_dir`, under the first name that none of
/// the files there has.
pub fn unique_dest_file(
    app_dir: &str,
    base_name: &str,
    format: Format,
    taken: &Vec<String>,
    platform: Platform,
) -> (r: String)
    ensures
        exists|name: Seq<char>|
            #[trigger] is_first_free_file(base_name@, format, texts(taken@), name) && r@ == join(
                platform,
                app_dir@,
                name,
            ),
{
    let ghost list = texts(taken@);
    let total: usize = taken.len();
    let mut n: u128 = 0;
    let mut name = file_candidate(base_name, format, n);
    while holds(taken, name.as_str())
        invariant
            total == taken@.len(),
            list == texts(taken@),
            n <= total + 1,
            name@ == candidate_file(base_name@, format, n as nat),
            forall|j: nat|
                j < n ==> list.contains(#[trigger] candidate_file(base_name@, format, j)),
        decreases total + 2 - n,
    {
        proof {
            assert forall|j: nat| j < n + 1 implies list.contains(
                #[trigger] candidate_file(base_name@, format, j),
            ) by {
                if j == n {
                }
            }
            lemma_files_taken(base_name@, format, list, (n + 1) as nat);
        }
        n = n + 1;
        name = file_candidate(base_name, format, n);
    }
    proof {
        assert(first_free_file_at(base_name@, format, list, n as nat));
        assert(is_first_free_file(base_name@, format, list, name@));
    }
    path_join(platform, app_dir, name.as_str())
}

// ---------------------------------------------------------------------------
// Laws
// ---------------------------------------------------------------------------

proof fn lemma_settled(start: Seq<RootState>)
    ensures
        settled(start).len() == start.len(),
        prefixes_differ(settled(start)),
        forall|i: int|
            0 <= i < start.len() ==> (#[trigger] settled(start)[i]).root == start[i].root && settled(
                start,
            )[i].base == start[i].base,
    decreases
            parts_left(start),
            if prefixes_differ(start) {
                0int
            } else {
                1int
            },
{
    if !prefixes_differ(start) {
        rounds_end(start);
        lemma_round(start, start.len());
        lemma_settled(rounded(start));
        assert forall|i: int| 0 <= i < start.len() implies (#[trigger] settled(start)[i]).root
            == start[i].root && settled(start)[i].base == start[i].base by {
            assert(rounded(start)[i].root == start[i].root);
        }
    }
}

/// Every root gets a prefix, in the order of the roots, and no two prefixes are
/// the same.
pub proof fn prefixes_are_distinct(p: Platform, roots: Seq<Seq<char>>)
    ensures
        root_prefixes(p, roots).len() == roots.len(),
        forall|i: int| 0 <= i < roots.len() ==> (#[trigger] root_prefixes(p, roots)[i]).0 == roots[i],
        forall|i: int, j: int|
            0 <= i < j < roots.len() ==> (#[trigger] root_prefixes(p, roots)[i]).1 != (
            #[trigger] root_prefixes(p, roots)[j]).1,
{
    let start = roots.map_values(|r: Seq<char>| fresh_root(p, r));
    lemma_settled(start);
    assert forall|i: int| 0 <= i < roots.len() implies (#[trigger] root_prefixes(p, roots)[i]).0
        == roots[i] by {
        assert(settled(start)[i].root == start[i].root);
    }
}

proof fn lemma_settled_unique(start: Seq<RootState>, i: int)
    requires
        0 <= i < start.len(),
        start[i].prefix == start[i].base,
        !start[i].base.contains('/'),
        !shares_prefix(start, i),
    ensures
        settled(start)[i].prefix == start[i].base,
    decreases
            parts_left(start),
            if prefixes_differ(start) {
                0int
            } else {
                1int
            },
{
    if !prefixes_differ(start) {
        let next = rounded(start);
        rounds_end(start);
        lemma_round(start, start.len());
        assert(next[i] == start[i]);
        assert forall|j: int| 0 <= j < next.len() && j != i implies (#[trigger] next[j]).prefix
            != next[i].prefix by {
            let s = start[j];
            assert(s.prefix != start[i].prefix);
            if shares_prefix(start, j) {
                if s.used < s.parts.len() {
                    let front = s.parts[s.parts.len() - 1 - s.used];
                    reveal_strlit("/");
                    assert(next[j].prefix[front.len() as int] == '/');
                    assert(next[j].prefix.contains('/'));
                } else {
                    lemma_round_numbered(start, start.len(), j);
                    assert(prefix_list(start)[i] == start[i].prefix);
                }
            }
        }
        lemma_settled_unique(next, i);
    }
}

/// A numbered name of a round is none that a root had before it.
proof fn lemma_round_numbered(start: Seq<RootState>, n: nat, j: int)
    requires
        n <= start.len(),
        0 <= j < n,
        shares_prefix(start, j),
        start[j].used >= start[j].parts.len(),
    ensures
        !prefix_list(start).contains(round(start, n).0[j].prefix),
        exists|k: nat| round(start, n).0[j].prefix == #[trigger] numbered(start[j].base, k),
    decreases n,
{
    lemma_round(start, n);
    let m = (n - 1) as nat;
    lemma_round(start, m);
    let (done, given) = round(start, m);
    if j < m {
        lemma_round_numbered(start, m, j);
        assert(round(start, n).0[j] == done[j]);
    } else {
        let s = start[j];
        let taken = prefix_list(start) + given;
        free_name_is_free(s.base, taken);
        if prefix_list(start).contains(free_name(s.base, taken)) {
            let k = choose|k: int|
                0 <= k < prefix_list(start).len() && prefix_list(start)[k] == free_name(
                    s.base,
                    taken,
                );
            assert(taken[k] == free_name(s.base, taken));
        }
        let number = free_number(s.base, taken, 2, taken.len() + 1);
        assert(round(start, n).0[j].prefix == numbered(s.base, number));
    }
}

/// A root whose basename no other root has is archived under its basename. This
/// speaks of basenames without a `/`, which stands for a backslash in a name.
pub proof fn unique_basename_is_kept(p: Platform, roots: Seq<Seq<char>>, i: int)
    requires
        0 <= i < roots.len(),
        forall|j: int|
            0 <= j < roots.len() && j != i ==> root_name(p, #[trigger] roots[j]) != root_name(
                p,
                roots[i],
            ),
        !root_name(p, roots[i]).contains('/'),
    ensures
        root_prefixes(p, roots)[i].1 == root_name(p, roots[i]),
{
    let start = roots.map_values(|r: Seq<char>| fresh_root(p, r));
    assert forall|j: int| 0 <= j < start.len() && j != i implies (#[trigger] start[j]).prefix
        != start[i].prefix by {
        assert(root_name(p, roots[j]) != root_name(p, roots[i]));
    }
    lemma_settled(start);
    lemma_settled_unique(start, i);
}

/// Whether a prefix is a basename with parents in front of it or a number
/// behind it.
pub open spec fn keeps_basename(prefix: Seq<char>, base: Seq<char>) -> bool {
    ends_in(prefix, base) || exists|k: nat| prefix == #[trigger] numbered(base, k)
}

proof fn lemma_settled_basename(start: Seq<RootState>, i: int)
    requires
        0 <= i < start.len(),
        keeps_basename(start[i].prefix, start[i].base),
        start[i].used < start[i].parts.len() ==> ends_in(start[i].prefix, start[i].base),
    ensures
        keeps_basename(settled(start)[i].prefix, start[i].base),
    decreases
            parts_left(start),
            if prefixes_differ(start) {
                0int
            } else {
                1int
            },
{
    if !prefixes_differ(start) {
        let s = start[i];
        let t = rounded(start)[i];
        rounds_end(start);
        lemma_round(start, start.len());
        assert(t.base == s.base);
        if shares_prefix(start, i) {
            if s.used < s.parts.len() {
                let front = s.parts[s.parts.len() - 1 - s.used] + "/"@;
                assert(t.prefix =~= front + s.prefix);
                assert(t.prefix.skip(t.prefix.len() - s.base.len()) =~= s.prefix.skip(
                    s.prefix.len() - s.base.len(),
                ));
            } else {
                lemma_round_numbered(start, start.len(), i);
            }
        }
        lemma_settled_basename(rounded(start), i);
    }
}

/// Every prefix keeps the basename of its root.
pub proof fn prefix_keeps_basename(p: Platform, roots: Seq<Seq<char>>, i: int)
    requires
        0 <= i < roots.len(),
    ensures
        keeps_basename(root_prefixes(p, roots)[i].1, root_name(p, roots[i])),
{
    let start = roots.map_values(|r: Seq<char>| fresh_root(p, r));
    let base = start[i].base;
    assert(base.skip(0) =~= base);
    lemma_settled(start);
    lemma_settled_basename(start, i);
}

/// The root itself is named by the bare prefix, unless it is no more than a drive
/// and `.`.
pub proof fn root_is_named_by_prefix(p: Platform, prefix: Seq<char>, root: Seq<char>)
    requires
        dot_behind_drive(p, root) ==> names(p, root).len() > 0,
    ensures
        name_in_archive(p, prefix, root, root) == prefix,
{
    nothing_below_itself(p, root);
}

/// What lies directly in a root is named by the prefix, `/` and its own name.
pub proof fn child_is_named_below_prefix(
    p: Platform,
    prefix: Seq<char>,
    root: Seq<char>,
    name: Seq<char>,
)
    requires
        is_firm(p, root),
        is_plain_name(p, name),
    ensures
        name_in_archive(p, prefix, root, join(p, root, name)) == prefix + "/"@ + replaced(
            name,
            '\\',
            '/',
        ),
{
    joined_name_is_below(p, root, name);
}

/// What lies in a directory below a root is named by the name of the directory,
/// `/` and its own name: the levels of directories are kept. A directory that
/// starts with `\\?\` is spelled as joining spells it.
pub proof fn levels_are_kept(
    p: Platform,
    prefix: Seq<char>,
    root: Seq<char>,
    dir: Seq<char>,
    name: Seq<char>,
)
    requires
        is_firm(p, dir),
        dir == respelled(p, dir),
        is_plain_name(p, name),
        ends_with_name(p, dir),
        is_under(p, dir, root),
        components(p, root).len() < components(p, dir).len(),
        components(p, root).len() >= head_parts(p, dir).len(),
    ensures
        name_in_archive(p, prefix, root, join(p, dir, name)) == name_in_archive(
            p,
            prefix,
            root,
            dir,
        ) + "/"@ + replaced(name, '\\', '/'),
{
    below_grows_by_name(p, root, dir, name);
    below_is_not_empty(p, root, dir);
    let rel = below(p, dir, root)->0;
    let whole = rel + seq![main_sep(p)] + name;
    reveal_strlit("/");
    assert("/"@ =~= seq!['/']);
    assert(replaced(whole, '\\', '/') =~= replaced(rel, '\\', '/') + seq!['/'] + replaced(
        name,
        '\\',
        '/',
    ));
    assert(prefix + "/"@ + replaced(whole, '\\', '/') =~= prefix + "/"@ + replaced(
        rel,
        '\\',
        '/',
    ) + "/"@ + replaced(name, '\\', '/'));
}

/// What is seen from a directory by a prefix and then by what is left below a
/// root, and what is seen by the name that both make.
proof fn lemma_mirrors_added(
    p: Platform,
    dir: Seq<char>,
    prefix: Seq<char>,
    rel: Seq<char>,
    name: Seq<char>,
)
    requires
        prefix.len() > 0,
        p is Windows ==> is_relative(p, prefix),
        rel.len() > 0,
        is_relative(p, rel),
        !is_verbatim(p, dir),
        !is_verbatim(p, join(p, dir, prefix)),
        name == prefix + seq!['/'] + replaced(rel, '\\', '/'),
    ensures
        ({
            let top = join(p, dir, prefix);
            &&& top.len() > 0
            &&& top.last() == prefix.last()
            &&& join(p, top, rel) == added(p, top, rel)
            &&& !(top.len() == 2 && prefix_len(p, top) == 2)
            &&& join(p, dir, name) == top + seq!['/'] + replaced(rel, '\\', '/')
        }),
{
    let tail = replaced(rel, '\\', '/');
    let top = join(p, dir, prefix);
    reveal(prefix_len);
    assert(name[0] == prefix[0]);
    assert(name[1] == if prefix.len() > 1 {
        prefix[1]
    } else {
        '/'
    });
    assert(prefix_len(p, name) == 0);
    assert(has_root(p, name) == has_root(p, prefix));
    assert(top.last() == prefix.last());
    assert(join(p, dir, name) =~= top + seq!['/'] + tail);
}

/// What is put behind a separator, and what is put there with `/` for its
/// separators and one more before it.
proof fn lemma_mirrors_behind_sep(p: Platform, top: Seq<char>, rel: Seq<char>)
    requires
        p is Windows,
        top.len() > 1,
        is_sep(p, top.last()),
        rel.len() > 0,
        is_relative(p, rel),
        prefix_len(p, top + rel) < top.len(),
        !is_verbatim(p, top + rel),
        !is_verbatim(p, top + seq!['/'] + replaced(rel, '\\', '/')),
    ensures
        same_path(p, top + rel, top + seq!['/'] + replaced(rel, '\\', '/')),
{
    let tail = replaced(rel, '\\', '/');
    let place = top + rel;
    let other = top + tail;
    assert(slashed(p, rel) =~= slashed(p, tail));
    assert(slashed(p, place) =~= slashed(p, other));
    assert(!is_verbatim(p, rel)) by {
        assert(!has_root(p, rel));
    }
    assert forall|i: int| 0 <= i < tail.len() implies tail[i] != '\\' by {}
    if is_verbatim(p, other) {
        assert(top.len() >= 4);
        assert forall|i: int| 0 <= i < 4 implies place[i] == other[i] by {
            assert(place[i] == top[i] && other[i] == top[i]);
        }
    }
    separators_are_alike(p, rel, tail);
    separators_are_alike(p, place, other);
    added_separator_is_idle(p, top, tail);
}

proof fn lemma_mirrors_plain(
    p: Platform,
    dir: Seq<char>,
    prefix: Seq<char>,
    rel: Seq<char>,
    name: Seq<char>,
)
    requires
        prefix.len() > 0,
        p is Windows ==> is_relative(p, prefix) && (is_sep(p, prefix.last()) ==> prefix_len(
            p,
            join(p, join(p, dir, prefix), rel),
        ) < join(p, dir, prefix).len()),
        rel.len() > 0,
        is_relative(p, rel),
        p is Windows || !rel.contains('\\'),
        !is_verbatim(p, dir),
        !is_verbatim(p, join(p, join(p, dir, prefix), rel)),
        name == prefix + seq!['/'] + replaced(rel, '\\', '/'),
    ensures
        !is_sep(p, prefix.last()) ==> slashed(p, join(p, join(p, dir, prefix), rel)) == slashed(
            p,
            join(p, dir, name),
        ),
        same_path(p, join(p, join(p, dir, prefix), rel), join(p, dir, name)),
{
    let tail = replaced(rel, '\\', '/');
    let top = join(p, dir, prefix);
    let place = join(p, top, rel);
    let other = join(p, dir, name);
    if is_verbatim(p, top) {
        verbatim_stays(p, top, rel);
    }
    lemma_mirrors_added(p, dir, prefix, rel, name);
    if is_verbatim(p, other) {
        if top.len() < 4 {
            assert(other[top.len() as int] == '/');
        } else {
            assert forall|i: int| 0 <= i < 4 implies place[i] == other[i] by {
                assert(place[i] == top[i] && other[i] == top[i]);
            }
        }
    }
    if !(p is Windows) {
        assert forall|i: int| 0 <= i < rel.len() implies tail[i] == rel[i] by {
            assert(rel.contains(rel[i]));
        }
        assert(tail =~= rel);
        added_separator_is_idle(p, top, rel);
    } else if is_sep(p, prefix.last()) {
        lemma_mirrors_behind_sep(p, top, rel);
    }
    if !is_sep(p, prefix.last()) {
        assert(place =~= top + seq![main_sep(p)] + rel);
        assert(slashed(p, place) =~= slashed(p, other));
        separators_are_alike(p, place, other);
    }
}

proof fn lemma_mirrors_verbatim(
    p: Platform,
    dir: Seq<char>,
    prefix: Seq<char>,
    rel: Seq<char>,
    name: Seq<char>,
)
    requires
        prefix.len() > 0,
        is_relative(p, prefix),
        rel.len() > 0,
        is_relative(p, rel),
        is_verbatim(p, dir),
        is_firm(p, dir),
        name == prefix + seq!['/'] + replaced(rel, '\\', '/'),
    ensures
        join(p, join(p, dir, prefix), rel) == join(p, dir, name),
{
    let tail = replaced(rel, '\\', '/');
    assert(slashed(p, rel) =~= slashed(p, tail));
    assert(tail[0] != '\\');
    verbatim_join_of_slashed(p, dir, rel, tail);
    assert(name[0] == prefix[0]);
    assert(name[1] == if prefix.len() > 1 {
        prefix[1]
    } else {
        '/'
    });
    assert(is_relative(p, name)) by {
        reveal(prefix_len);
    }
    verbatim_join_in_turn(p, dir, prefix, tail);
    verbatim_join_of_slashed(p, join(p, dir, prefix), rel, tail);
}

/// A directory backup mirrors an archive: what goes under a name into an archive
/// goes to that name below the directory. Up to which separator is written the
/// texts are equal, where the prefix does not end in one; on Unix they are equal
/// altogether. What is left of the path below the root has neither drive nor root
/// and, but on Windows, holds no backslash. On Windows the prefix has neither drive
/// nor root, a directory that starts with `\\?\` has a complete prefix and a root,
/// no other becomes one that does, and where the prefix ends in a separator, what
/// is left of the path does not become part of a share.
pub proof fn directory_mirrors_archive(
    p: Platform,
    dir: Seq<char>,
    prefix: Seq<char>,
    root: Seq<char>,
    path: Seq<char>,
)
    requires
        prefix.len() > 0,
        below(p, path, root) matches Some(rel) ==> is_relative(p, rel) && (p is Windows
            || !rel.contains('\\')),
        p is Windows ==> is_relative(p, prefix) && is_verbatim(p, dir) == is_verbatim(
            p,
            place_in_dir(p, dir, prefix, root, path),
        ),
        p is Windows && is_sep(p, prefix.last()) ==> prefix_len(
            p,
            place_in_dir(p, dir, prefix, root, path),
        ) < join(p, dir, prefix).len(),
        is_verbatim(p, dir) ==> is_firm(p, dir),
    ensures
        !(p is Windows) && !is_sep(p, prefix.last()) ==> place_in_dir(p, dir, prefix, root, path)
            == join(p, dir, name_in_archive(p, prefix, root, path)),
        !is_sep(p, prefix.last()) ==> slashed(p, place_in_dir(p, dir, prefix, root, path))
            == slashed(p, join(p, dir, name_in_archive(p, prefix, root, path))),
        same_path(
            p,
            place_in_dir(p, dir, prefix, root, path),
            join(p, dir, name_in_archive(p, prefix, root, path)),
        ),
{
    let name = name_in_archive(p, prefix, root, path);
    if let Some(rel) = below(p, path, root) {
        if rel.len() > 0 {
            reveal_strlit("/");
            assert("/"@ =~= seq!['/']);
            if is_verbatim(p, dir) {
                lemma_mirrors_verbatim(p, dir, prefix, rel, name);
            } else {
                lemma_mirrors_plain(p, dir, prefix, rel, name);
            }
        }
    }
}

/// The names that are tried for a backup are plain names where that of the app
/// is one.
pub proof fn backup_name_is_plain(
    p: Platform,
    id: Seq<char>,
    time: Seq<char>,
    format: Format,
    n: nat,
)
    requires
        is_plain_name(p, id),
        is_stamp(time),
    ensures
        is_plain_name(p, candidate_file(id + "_"@ + time, format, n)),
{
    reveal_strlit("_");
    reveal_strlit(".");
    reveal_strlit("zip");
    reveal_strlit("tar.gz");
    reveal_strlit("dir");
    let number = if n == 0 {
        Seq::empty()
    } else {
        "_"@ + decimal(n)
    };
    decimal_digits(n);
    let stem = "_"@ + time + number;
    let end = "."@ + format.suffix();
    let tail = stem + end;
    assert(candidate_file(id + "_"@ + time, format, n) =~= id + tail);
    assert forall|i: int| 0 <= i < end.len() implies !is_sep(p, #[trigger] end[i]) by {}
    assert forall|i: int| 0 <= i < tail.len() implies !is_sep(p, #[trigger] tail[i]) by {
        if i == 0 {
        } else if i <= time.len() {
            assert(tail[i] == time[i - 1]);
            stamp_characters(time, i - 1);
        } else if i < stem.len() {
            assert(tail[i] == number[i - 1 - time.len()]);
            if i > time.len() + 1 {
                assert(number[i - 1 - time.len()] == decimal(n)[i - 2 - time.len()]);
            }
        } else {
            assert(tail[i] == end[i - stem.len()]);
        }
    }
    longer_name_is_plain(p, id, tail);
}

/// The names that are tried for a backup end in the extension of its format.
pub proof fn file_names_end_in_extension(base_name: Seq<char>, format: Format, n: nat)
    ensures
        ends_in(candidate_file(base_name, format, n), "."@ + format.suffix()),
{
    let name = candidate_file(base_name, format, n);
    let tail = "."@ + format.suffix();
    assert(name.skip(name.len() - tail.len()) =~= tail);
}

// ---------------------------------------------------------------------------
// Laws of prefixes
// ---------------------------------------------------------------------------

/// What names a file or directory in a root stands among its parts, whatever it
/// starts with: one directory more is one part more, and the last.
pub proof fn parts_grow_by_name(p: Platform, dir: Seq<char>, name: Seq<char>)
    requires
        is_firm(p, dir),
        is_plain_name(p, name),
    ensures
        root_parts(p, join(p, dir, name)) == root_parts(p, dir).push(replaced(name, '\\', '/')),
        root_name(p, join(p, dir, name)) == replaced(name, '\\', '/'),
{
    reveal(Seq::filter);
    join_adds_component(p, dir, name);
    let normal = |n: Seq<char>| n != seq!['.'] && n != seq!['.', '.'];
    let slash = |n: Seq<char>| replaced(n, '\\', '/');
    let all = names(p, dir).push(name);
    assert(all.drop_last() =~= names(p, dir));
    assert(all.last() == name);
    let kept = names(p, dir).filter(normal);
    assert(all.filter(normal) =~= kept.push(name));
    assert(kept.push(name).map_values(slash) =~= kept.map_values(slash).push(slash(name)));
}

/// The parts of a root are all its components in order, where none of them is `.` or
/// `..`. On Unix the parts of an absolute root without a backslash spell it.
pub proof fn parts_spell_root(p: Platform, root: Seq<char>)
    requires
        forall|k: int| 0 <= k < names(p, root).len() ==> is_name(#[trigger] names(p, root)[k]),
        !root.contains('\\'),
        !is_verbatim(p, root),
    ensures
        components(p, root) == head_parts(p, root) + root_parts(p, root),
        !(p is Windows) && is_absolute(p, root) ==> same_path(
            p,
            seq!['/'] + joined(root_parts(p, root), seq!['/']),
            root,
        ),
{
    let all = names(p, root);
    let normal = |n: Seq<char>| n != seq!['.'] && n != seq!['.', '.'];
    let slash = |n: Seq<char>| replaced(n, '\\', '/');
    lemma_all_kept(all, normal);
    assert forall|k: int| 0 <= k < all.len() implies #[trigger] slash(all[k]) == all[k] by {
        name_is_part_of_path(p, root, k);
        assert forall|i: int| 0 <= i < all[k].len() implies all[k][i] != '\\' by {
            assert(root.contains(all[k][i]));
        }
        assert(replaced(all[k], '\\', '/') =~= all[k]);
    }
    assert(all.map_values(slash) =~= all);
    if !(p is Windows) && is_absolute(p, root) {
        assert(!all.contains(seq!['.', '.'])) by {
            if all.contains(seq!['.', '.']) {
                let k = choose|k: int| 0 <= k < all.len() && all[k] == seq!['.', '.'];
                assert(is_name(all[k]));
            }
        }
        names_spell_path(p, root);
    }
}

proof fn lemma_all_kept(all: Seq<Seq<char>>, keep: spec_fn(Seq<char>) -> bool)
    requires
        forall|k: int| 0 <= k < all.len() ==> keep(#[trigger] all[k]),
    ensures
        all.filter(keep) == all,
    decreases all.len(),
{
    reveal(Seq::filter);
    if all.len() > 0 {
        let rest = all.drop_last();
        assert forall|k: int| 0 <= k < rest.len() implies keep(#[trigger] rest[k]) by {
            assert(rest[k] == all[k]);
        }
        lemma_all_kept(rest, keep);
        assert(keep(all[all.len() - 1]));
        assert(rest.push(all.last()) =~= all);
    } else {
        assert(all.filter(keep) =~= all);
    }
}

/// The last `k` of the parts.
pub open spec fn last_parts(parts: Seq<Seq<char>>, k: nat) -> Seq<Seq<char>> {
    parts.skip(parts.len() - k)
}

/// Whether the parts `a` are the end of the parts `b`.
pub open spec fn is_end_of(a: Seq<Seq<char>>, b: Seq<Seq<char>>) -> bool {
    a.len() <= b.len() && last_parts(b, a.len()) == a
}

/// Whether two roots have the last `k` parts in common.
pub open spec fn end_alike(a: Seq<Seq<char>>, b: Seq<Seq<char>>, k: nat) -> bool {
    k <= a.len() && k <= b.len() && last_parts(a, k) == last_parts(b, k)
}

/// Whether none of the parts holds a `/`.
pub open spec fn no_slash(parts: Seq<Seq<char>>) -> bool {
    forall|i: int| 0 <= i < parts.len() ==> !(#[trigger] parts[i]).contains('/')
}

proof fn lemma_joined_front(x: Seq<char>, rest: Seq<Seq<char>>, sep: Seq<char>)
    requires
        rest.len() > 0,
    ensures
        joined(seq![x] + rest, sep) == x + sep + joined(rest, sep),
    decreases rest.len(),
{
    let all = seq![x] + rest;
    if rest.len() == 1 {
        assert(all.drop_last() =~= seq![x]);
        assert(joined(seq![x], sep) == x);
        assert(all.last() == rest[0]);
    } else {
        lemma_joined_front(x, rest.drop_last(), sep);
        assert(all.drop_last() =~= seq![x] + rest.drop_last());
        assert(all.last() == rest.last());
        assert(x + sep + joined(rest.drop_last(), sep) + sep + rest.last() =~= x + sep + (joined(
            rest.drop_last(),
            sep,
        ) + sep + rest.last()));
    }
}

/// What is between the slashes tells the parts.
proof fn lemma_joined_injective(a: Seq<Seq<char>>, b: Seq<Seq<char>>)
    requires
        a.len() > 0,
        b.len() > 0,
        no_slash(a),
        no_slash(b),
        joined(a, "/"@) == joined(b, "/"@),
    ensures
        a == b,
    decreases a.len(),
{
    reveal_strlit("/");
    let t = joined(a, "/"@);
    let x = a.last();
    let y = b.last();
    assert(!a[a.len() - 1].contains('/'));
    assert(!b[b.len() - 1].contains('/'));
    assert(t.skip(t.len() - x.len()) =~= x);
    assert(t.skip(t.len() - y.len()) =~= y);
    if x.len() < y.len() {
        assert(a.len() > 1);
        assert(t[t.len() - x.len() - 1] == '/');
        assert(y[y.len() - x.len() - 1] == '/');
        assert(y.contains('/'));
    }
    if y.len() < x.len() {
        assert(b.len() > 1);
        assert(t[t.len() - y.len() - 1] == '/');
        assert(x[x.len() - y.len() - 1] == '/');
        assert(x.contains('/'));
    }
    assert(x == y);
    let c = a.drop_last();
    let d = b.drop_last();
    if a.len() > 1 && b.len() > 1 {
        assert(t.take(t.len() - x.len() - 1) =~= joined(c, "/"@));
        assert(t.take(t.len() - x.len() - 1) =~= joined(d, "/"@));
        assert forall|i: int| 0 <= i < c.len() implies !(#[trigger] c[i]).contains('/') by {
            assert(c[i] == a[i]);
        }
        assert forall|i: int| 0 <= i < d.len() implies !(#[trigger] d[i]).contains('/') by {
            assert(d[i] == b[i]);
        }
        lemma_joined_injective(c, d);
    }
    assert(a =~= c.push(x));
    assert(b =~= d.push(y));
    if a.len() == 1 || b.len() == 1 {
        assert(a.len() == 1 && b.len() == 1) by {
            if a.len() == 1 {
                assert(t.len() == x.len());
            } else {
                assert(t.len() == y.len());
            }
        }
        assert(c =~= d);
    }
}

/// Whether a root goes by the last of its parts, `used` of them.
spec fn goes_by_parts(s: RootState) -> bool {
    &&& 1 <= s.used <= s.parts.len()
    &&& no_slash(s.parts)
    &&& s.prefix == joined(last_parts(s.parts, s.used), "/"@)
}

/// Whether a root goes by its parts or, with no parts left, by a name that holds no `/`
/// and is not that of the root `of`.
spec fn keeps_clear(s: RootState, of: RootState) -> bool {
    &&& s.parts.len() > 0
    &&& s.base == s.parts.last()
    &&& no_slash(s.parts)
    &&& goes_by_parts(s) || (!s.prefix.contains('/') && s.prefix != of.prefix && s.used
        >= s.parts.len())
}

proof fn lemma_last_parts_alike(a: RootState, b: RootState)
    requires
        goes_by_parts(a),
        goes_by_parts(b),
        a.prefix == b.prefix,
    ensures
        a.used == b.used,
        end_alike(b.parts, a.parts, a.used),
{
    let x = last_parts(a.parts, a.used);
    let y = last_parts(b.parts, b.used);
    assert(no_slash(x)) by {
        assert forall|i: int| 0 <= i < x.len() implies !(#[trigger] x[i]).contains('/') by {
            assert(x[i] == a.parts[a.parts.len() - a.used + i]);
        }
    }
    assert(no_slash(y)) by {
        assert forall|i: int| 0 <= i < y.len() implies !(#[trigger] y[i]).contains('/') by {
            assert(y[i] == b.parts[b.parts.len() - b.used + i]);
        }
    }
    lemma_joined_injective(x, y);
    assert(x.len() == a.used);
    assert(y.len() == b.used);
}

/// What one round makes of a root that is the end of no other, and of the others.
proof fn lemma_round_parts(start: Seq<RootState>, i: int)
    requires
        0 <= i < start.len(),
        goes_by_parts(start[i]),
        forall|k: int| 0 <= k < start.len() ==> keeps_clear(#[trigger] start[k], start[i]),
        forall|k: int|
            0 <= k < start.len() && k != i ==> !is_end_of(
                start[i].parts,
                (#[trigger] start[k]).parts,
            ),
    ensures
        rounded(start).len() == start.len(),
        goes_by_parts(rounded(start)[i]),
        rounded(start)[i].used == start[i].used || (rounded(start)[i].used == start[i].used + 1
            && exists|j: int|
            0 <= j < start.len() && j != i && #[trigger] end_alike(
                start[j].parts,
                start[i].parts,
                start[i].used,
            )),
        forall|k: int|
            0 <= k < start.len() ==> keeps_clear(#[trigger] rounded(start)[k], rounded(start)[i])
                && rounded(start)[k].parts == start[k].parts,
{
    let next = rounded(start);
    lemma_round(start, start.len());
    let s = start[i];
    let t = next[i];
    reveal_strlit("/");
    assert(next[i].parts == s.parts);
    if shares_prefix(start, i) {
        let j = choose|j: int|
            0 <= j < start.len() && j != i && (#[trigger] start[j]).prefix == start[i].prefix;
        assert(keeps_clear(start[j], start[i]));
        lemma_last_parts_alike(s, start[j]);
        if s.used == s.parts.len() {
            assert(last_parts(s.parts, s.used) =~= s.parts);
            assert(is_end_of(s.parts, start[j].parts));
        }
        lemma_one_part_more(s, t);
    }
    assert(t.prefix == s.prefix || t.prefix.contains('/'));
    assert forall|k: int| 0 <= k < start.len() implies keeps_clear(#[trigger] next[k], next[i])
        && next[k].parts == start[k].parts by {
        let a = start[k];
        let b = next[k];
        assert(keeps_clear(start[k], start[i]));
        assert(b.base == a.base && b.parts == a.parts);
        if shares_prefix(start, k) && a.used < a.parts.len() {
            lemma_one_part_more(a, b);
        } else if shares_prefix(start, k) {
            lemma_round_numbered(start, start.len(), k);
            let n = choose|n: nat| b.prefix == #[trigger] numbered(a.base, n);
            assert(!a.parts[a.parts.len() - 1].contains('/'));
            lemma_numbered_no_slash(a.base, n);
            assert(prefix_list(start)[i] == s.prefix);
            assert(prefix_list(start).contains(s.prefix));
        } else if !goes_by_parts(a) {
            assert(b == a);
        }
    }
}

/// With one part more in front a root still goes by its parts.
proof fn lemma_one_part_more(s: RootState, t: RootState)
    requires
        goes_by_parts(s),
        s.used < s.parts.len(),
        t.parts == s.parts,
        t.used == s.used + 1,
        t.prefix == s.parts[s.parts.len() - 1 - s.used] + "/"@ + s.prefix,
    ensures
        goes_by_parts(t),
        t.prefix.contains('/'),
{
    reveal_strlit("/");
    let front = s.parts[s.parts.len() - 1 - s.used];
    let rest = last_parts(s.parts, s.used);
    assert(last_parts(s.parts, t.used) =~= seq![front] + rest);
    lemma_joined_front(front, rest, "/"@);
    assert(t.prefix[front.len() as int] == '/');
}

proof fn lemma_settled_parts(start: Seq<RootState>, i: int)
    requires
        0 <= i < start.len(),
        goes_by_parts(start[i]),
        forall|k: int| 0 <= k < start.len() ==> keeps_clear(#[trigger] start[k], start[i]),
        forall|k: int|
            0 <= k < start.len() && k != i ==> !is_end_of(
                start[i].parts,
                (#[trigger] start[k]).parts,
            ),
    ensures
        settled(start).len() == start.len(),
        goes_by_parts(settled(start)[i]),
        settled(start)[i].parts == start[i].parts,
        settled(start)[i].used == start[i].used || exists|j: int|
            0 <= j < start.len() && j != i && #[trigger] end_alike(
                start[j].parts,
                start[i].parts,
                (settled(start)[i].used - 1) as nat,
            ),
    decreases
            parts_left(start),
            if prefixes_differ(start) {
                0int
            } else {
                1int
            },
{
    if !prefixes_differ(start) {
        let next = rounded(start);
        rounds_end(start);
        lemma_round_parts(start, i);
        assert(next[i].parts == start[i].parts);
        assert forall|k: int| 0 <= k < next.len() && k != i implies !is_end_of(
            next[i].parts,
            (#[trigger] next[k]).parts,
        ) by {
            assert(next[k].parts == start[k].parts);
            assert(!is_end_of(start[i].parts, start[k].parts));
        }
        lemma_settled_parts(next, i);
        let end = settled(start)[i];
        if end.used != next[i].used {
            let j = choose|j: int|
                0 <= j < next.len() && j != i && #[trigger] end_alike(
                    next[j].parts,
                    next[i].parts,
                    (end.used - 1) as nat,
                );
            assert(next[j].parts == start[j].parts);
            assert(end_alike(start[j].parts, start[i].parts, (end.used - 1) as nat));
        } else if end.used != start[i].used {
            let j = choose|j: int|
                0 <= j < start.len() && j != i && #[trigger] end_alike(
                    start[j].parts,
                    start[i].parts,
                    start[i].used,
                );
            assert((end.used - 1) as nat == start[i].used);
            assert(end_alike(start[j].parts, start[i].parts, (end.used - 1) as nat));
        }
    }
}

/// Whether a prefix is the last `k` parts of its root with `/` between them, where
/// another root has all of them but the first too.
pub open spec fn is_run_of_parts(
    p: Platform,
    roots: Seq<Seq<char>>,
    i: int,
    prefix: Seq<char>,
    k: nat,
) -> bool {
    &&& 1 <= k <= root_parts(p, roots[i]).len()
    &&& prefix == joined(last_parts(root_parts(p, roots[i]), k), "/"@)
    &&& k == 1 || exists|j: int|
        0 <= j < roots.len() && j != i && #[trigger] end_alike(
            root_parts(p, roots[j]),
            root_parts(p, roots[i]),
            (k - 1) as nat,
        )
}

/// A root whose parts are not the end of those of another is told apart by its parents
/// alone: its prefix is a run of its last parts, no longer than another root makes
/// necessary, and gets no number. This speaks of roots that have a name and whose parts
/// hold no `/`, which would stand for a backslash.
pub proof fn parents_tell_roots_apart(p: Platform, roots: Seq<Seq<char>>, i: int)
    requires
        0 <= i < roots.len(),
        forall|j: int| 0 <= j < roots.len() ==> file_name(p, #[trigger] roots[j]) is Some,
        forall|j: int| 0 <= j < roots.len() ==> no_slash(root_parts(p, #[trigger] roots[j])),
        forall|j: int|
            0 <= j < roots.len() && j != i ==> !is_end_of(
                root_parts(p, roots[i]),
                root_parts(p, #[trigger] roots[j]),
            ),
    ensures
        exists|k: nat| #[trigger]
            is_run_of_parts(p, roots, i, root_prefixes(p, roots)[i].1, k),
{
    let start = roots.map_values(|r: Seq<char>| fresh_root(p, r));
    assert forall|k: int| 0 <= k < start.len() implies goes_by_parts(#[trigger] start[k])
        && keeps_clear(start[k], start[i]) by {
        assert(start[k] == fresh_root(p, roots[k]));
        lemma_named_root(p, roots[k]);
        let parts = root_parts(p, roots[k]);
        assert(last_parts(parts, 1) =~= seq![parts.last()]);
        assert(no_slash(root_parts(p, roots[k])));
    }
    assert forall|k: int| 0 <= k < start.len() && k != i implies !is_end_of(
        start[i].parts,
        (#[trigger] start[k]).parts,
    ) by {
        assert(!is_end_of(root_parts(p, roots[i]), root_parts(p, roots[k])));
    }
    lemma_settled(start);
    lemma_settled_parts(start, i);
    let end = settled(start)[i];
    if end.used != 1 {
        let j = choose|j: int|
            0 <= j < start.len() && j != i && #[trigger] end_alike(
                start[j].parts,
                start[i].parts,
                (end.used - 1) as nat,
            );
        assert(end_alike(
            root_parts(p, roots[j]),
            root_parts(p, roots[i]),
            (end.used - 1) as nat,
        ));
    }
    assert(is_run_of_parts(p, roots, i, root_prefixes(p, roots)[i].1, end.used));
}

/// The name of a root that has one is the last of its parts.
proof fn lemma_named_root(p: Platform, root: Seq<char>)
    requires
        file_name(p, root) is Some,
    ensures
        root_parts(p, root).len() > 0,
        root_parts(p, root).last() == root_name(p, root),
{
    reveal(Seq::filter);
    let all = names(p, root);
    names_hold_no_separator(p, root, all.len() - 1);
    let normal = |n: Seq<char>| n != seq!['.'] && n != seq!['.', '.'];
    let kept = all.filter(normal);
    assert(kept == all.drop_last().filter(normal).push(all.last()));
    assert(root_parts(p, root).last() == replaced(kept.last(), '\\', '/'));
}

/// A root without a name, such as `/`, goes by `root`.
pub proof fn root_without_name_goes_by_root(p: Platform, root: Seq<char>)
    requires
        names(p, root).len() == 0,
    ensures
        root_name(p, root) == "root"@,
        root_parts(p, root).len() == 0,
{
    reveal(Seq::filter);
    assert(names(p, root) =~= Seq::empty());
}

/// A numbered name is the base, `-` and the first number from 2 on with which it is
/// not taken.
pub proof fn numbers_are_tried_from_two(base: Seq<char>, taken: Seq<Seq<char>>)
    ensures
        exists|k: nat|
            k >= 2 && free_name(base, taken) == base + seq!['-'] + #[trigger] decimal(k)
                && !taken.contains(free_name(base, taken)) && forall|j: nat|
                2 <= j < k ==> taken.contains(base + seq!['-'] + #[trigger] decimal(j)),
{
    reveal_strlit("-");
    assert("-"@ =~= seq!['-']);
    free_name_is_free(base, taken);
    lemma_smaller_taken(base, taken, 2, taken.len() + 1);
    let k = free_number(base, taken, 2, taken.len() + 1);
    assert forall|j: nat| 2 <= j < k implies taken.contains(
        base + seq!['-'] + #[trigger] decimal(j),
    ) by {
        assert(taken.contains(numbered(base, j)));
    }
    assert(free_name(base, taken) == base + seq!['-'] + decimal(k));
}

proof fn lemma_smaller_taken(base: Seq<char>, taken: Seq<Seq<char>>, k: nat, fuel: nat)
    ensures
        k <= free_number(base, taken, k, fuel),
        forall|j: nat|
            k <= j < free_number(base, taken, k, fuel) ==> taken.contains(
                #[trigger] numbered(base, j),
            ),
    decreases fuel,
{
    if fuel > 0 && taken.contains(numbered(base, k)) {
        lemma_smaller_taken(base, taken, k + 1, (fuel - 1) as nat);
        assert forall|j: nat| k <= j < free_number(base, taken, k, fuel) implies taken.contains(
            #[trigger] numbered(base, j),
        ) by {
            if j == k {
            }
        }
    }
}

proof fn lemma_numbered_no_slash(base: Seq<char>, k: nat)
    requires
        !base.contains('/'),
    ensures
        !numbered(base, k).contains('/'),
        numbered(base, k) != base,
{
    reveal_strlit("-");
    let s = numbered(base, k);
    decimal_digits(k);
    assert(s.len() > base.len());
    if s.contains('/') {
        let i = choose|i: int| 0 <= i < s.len() && s[i] == '/';
        if i < base.len() {
            assert(base[i] == '/');
            assert(base.contains('/'));
        } else if i > base.len() {
            assert(s[i] == decimal(k)[i - base.len() - 1]);
        }
    }
}

/// What a root goes by that goes by its parts is its name, or holds a `/`.
proof fn lemma_run_is_no_number(s: RootState, k: nat)
    requires
        goes_by_parts(s),
        s.base == s.parts.last(),
    ensures
        s.prefix != numbered(s.base, k),
{
    let run = last_parts(s.parts, s.used);
    assert(run.last() == s.parts.last());
    assert(!s.parts[s.parts.len() - 1].contains('/'));
    lemma_numbered_no_slash(s.base, k);
    if s.used == 1 {
        assert(s.prefix == run[0]);
    } else {
        reveal_strlit("/");
        let head = joined(run.drop_last(), "/"@);
        assert(s.prefix[head.len() as int] == '/');
        assert(s.prefix.contains('/'));
    }
}

proof fn lemma_twins(s: RootState)
    requires
        goes_by_parts(s),
        s.base == s.parts.last(),
    ensures
        settled(seq![s, s]).len() == 2,
        settled(seq![s, s])[0].prefix == numbered(s.base, 2),
        settled(seq![s, s])[1].prefix == numbered(s.base, 3),
    decreases s.parts.len() - s.used,
{
    let start = seq![s, s];
    let next = rounded(start);
    assert(start[0].prefix == start[1].prefix);
    assert(shares_prefix(start, 0));
    assert(shares_prefix(start, 1));
    assert(!prefixes_differ(start));
    rounds_end(start);
    lemma_round(start, 2);
    if s.used < s.parts.len() {
        let t = next[0];
        assert(next[1] == t);
        assert(next =~= seq![t, t]);
        let front = s.parts[s.parts.len() - 1 - s.used];
        let rest = last_parts(s.parts, s.used);
        assert(last_parts(s.parts, t.used) =~= seq![front] + rest);
        lemma_joined_front(front, rest, "/"@);
        lemma_twins(t);
    } else {
        lemma_run_is_no_number(s, 2);
        lemma_run_is_no_number(s, 3);
        let a = numbered(s.base, 2);
        let b = numbered(s.base, 3);
        if a == b {
            lemma_numbered_differ(s.base, 2, 3);
        }
        let had = prefix_list(start);
        assert(had =~= seq![s.prefix, s.prefix]);
        assert(had + Seq::<Seq<char>>::empty() =~= had);
        assert(!had.contains(a));
        assert(free_name(s.base, had) == a);
        reveal_with_fuel(round, 3);
        let taken = had + seq![a];
        assert(Seq::<Seq<char>>::empty().push(a) =~= seq![a]);
        assert(taken[2] == a);
        assert(!taken.contains(b)) by {
            if taken.contains(b) {
                let i = choose|i: int| 0 <= i < taken.len() && taken[i] == b;
            }
        }
        reveal_with_fuel(free_number, 3);
        assert(free_name(s.base, taken) == b);
        assert(next[0].prefix == a);
        assert(next[1].prefix == b);
        assert(prefixes_differ(next));
        reveal_with_fuel(settled, 2);
        assert(settled(next) == next);
        assert(settled(start) == settled(next));
    }
}

/// A root that is given twice is told apart by numbers behind its name, from 2 on. This
/// speaks of roots whose parts hold no `/`, which would stand for a backslash.
pub proof fn identical_roots_are_numbered(p: Platform, root: Seq<char>)
    requires
        file_name(p, root) is Some,
        no_slash(root_parts(p, root)),
    ensures
        root_prefixes(p, seq![root, root])[0].1 == root_name(p, root) + seq!['-', '2'],
        root_prefixes(p, seq![root, root])[1].1 == root_name(p, root) + seq!['-', '3'],
{
    let roots = seq![root, root];
    let s = fresh_root(p, root);
    let start = roots.map_values(|r: Seq<char>| fresh_root(p, r));
    assert(start =~= seq![s, s]);
    lemma_named_root(p, root);
    let parts = root_parts(p, root);
    assert(last_parts(parts, 1) =~= seq![parts.last()]);
    lemma_twins(s);
    reveal_strlit("-");
    assert(decimal(2) =~= seq!['2']);
    assert(decimal(3) =~= seq!['3']);
    assert(numbered(s.base, 2) =~= s.base + seq!['-', '2']);
    assert(numbered(s.base, 3) =~= s.base + seq!['-', '3']);
}

/// Where a name is taken, the names that are tried are it with `_` and a number from 1
/// on before its extension, one after the other.
pub proof fn taken_names_are_numbered(
    base_name: Seq<char>,
    format: Format,
    taken: Seq<Seq<char>>,
    name: Seq<char>,
)
    requires
        is_first_free_file(base_name, format, taken, name),
        taken.contains(base_name + seq!['.'] + format.suffix()),
    ensures
        exists|n: nat|
            n >= 1 && name == base_name + seq!['_'] + #[trigger] decimal(n) + seq!['.']
                + format.suffix() && forall|j: nat|
                1 <= j < n ==> taken.contains(
                    base_name + seq!['_'] + #[trigger] decimal(j) + seq!['.'] + format.suffix(),
                ),
        !taken.contains(name),
{
    reveal_strlit(".");
    reveal_strlit("_");
    assert("."@ =~= seq!['.']);
    assert("_"@ =~= seq!['_']);
    let n = choose|n: nat|
        #[trigger] first_free_file_at(base_name, format, taken, n) && name == candidate_file(
            base_name,
            format,
            n,
        );
    assert(candidate_file(base_name, format, 0) == base_name + seq!['.'] + format.suffix());
    assert forall|j: nat| 1 <= j < n implies taken.contains(
        base_name + seq!['_'] + #[trigger] decimal(j) + seq!['.'] + format.suffix(),
    ) by {
        assert(taken.contains(candidate_file(base_name, format, j)));
    }
    assert(name == base_name + seq!['_'] + decimal(n) + seq!['.'] + format.suffix());
}

} // verus!
