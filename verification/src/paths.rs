//! Paths as text, read by the rules of a given platform.
//!
//! A path is an optional prefix (on Windows only), an optional root and a
//! sequence of components. Repeated separators and `.` components carry no
//! meaning, but for a `.` at the very start of a path without prefix and root.
//!
//! A prefix is a drive such as `C:`, a share such as `\\server\share`, a device
//! such as `\\.\COM42`, or one of those that start with `\\?\`: a share such as
//! `\\?\UNC\server\share`, a drive such as `\\?\C:`, or any name. A path that
//! starts with `\\?\` is taken as it is written: only `\` separates in it, and `.`
//! is a component like others.

use crate::platform::Platform;
use crate::text::{
    cat, cat3, chars_of, check_letter, decimal, decimal_digits, decimal_injective, decimal_text,
    is_digit, is_letter, join_texts, joined, opt_text, replace_char, replaced, same, text_of,
    text_range, texts,
};
use vstd::prelude::*;
use vstd::string::*;

verus! {

/// A character that separates components.
pub open spec fn is_sep(p: Platform, c: char) -> bool {
    c == '/' || (p is Windows && c == '\\')
}

/// The separator that is put between components.
pub open spec fn main_sep(p: Platform) -> char {
    if p is Windows {
        '\\'
    } else {
        '/'
    }
}

/// The text with `/` for every separator.
pub open spec fn slashed(p: Platform, s: Seq<char>) -> Seq<char> {
    if p is Windows {
        replaced(s, '\\', '/')
    } else {
        s
    }
}

/// Whether the path starts with `\\?\`.
pub open spec fn is_verbatim(p: Platform, s: Seq<char>) -> bool {
    p is Windows && s.len() >= 4 && s[0] == '\\' && s[1] == '\\' && s[2] == '?' && s[3] == '\\'
}

/// A character that separates components, in a path that starts with `\\?\` or in
/// another.
pub open spec fn splits(p: Platform, verbatim: bool, c: char) -> bool {
    if verbatim {
        c == '\\'
    } else {
        is_sep(p, c)
    }
}

/// Whether a separator stands at `i`.
pub open spec fn sep_at(p: Platform, s: Seq<char>, i: int) -> bool {
    splits(p, is_verbatim(p, s), s[i])
}

/// Where the first separator at or after `from` stands, or the length of `s`.
pub open spec fn next_sep(p: Platform, s: Seq<char>, from: int) -> int
    decreases s.len() - from,
{
    if from >= s.len() {
        s.len() as int
    } else if sep_at(p, s, from) {
        from
    } else {
        next_sep(p, s, from + 1)
    }
}

/// Whether a path that starts with `\\?\` goes on with `UNC\`.
pub open spec fn names_share(p: Platform, s: Seq<char>) -> bool {
    s.len() >= 8 && s[4] == 'U' && s[5] == 'N' && s[6] == 'C' && is_sep(p, s[7])
}

/// Whether a path that starts with `\\?\` goes on with a drive.
pub open spec fn names_drive(p: Platform, s: Seq<char>) -> bool {
    s.len() >= 6 && is_letter(s[4]) && s[5] == ':' && (s.len() == 6 || is_sep(p, s[6]))
}

/// Whether a path starts with `\\.\`.
pub open spec fn names_device(p: Platform, s: Seq<char>) -> bool {
    p is Windows && s.len() >= 4 && is_sep(p, s[0]) && is_sep(p, s[1]) && s[2] == '.' && is_sep(
        p,
        s[3],
    )
}

/// How many characters the prefix of `s` takes.
#[verifier::opaque]
pub open spec fn prefix_len(p: Platform, s: Seq<char>) -> int {
    if !(p is Windows) || s.len() < 2 {
        0
    } else if is_verbatim(p, s) {
        if names_share(p, s) {
            let server = next_sep(p, s, 8);
            let share = next_sep(p, s, server + 1);
            if server + 1 < share {
                share
            } else {
                server
            }
        } else if names_drive(p, s) {
            6
        } else {
            next_sep(p, s, 4)
        }
    } else if names_device(p, s) {
        next_sep(p, s, 4)
    } else if is_sep(p, s[0]) && is_sep(p, s[1]) {
        let server = next_sep(p, s, 2);
        let share = next_sep(p, s, server + 1);
        if 2 < server < s.len() && server + 1 < share {
            share
        } else {
            0
        }
    } else if is_letter(s[0]) && s[1] == ':' {
        2
    } else {
        0
    }
}

/// Whether a separator follows the prefix.
pub open spec fn has_root_sep(p: Platform, s: Seq<char>) -> bool {
    prefix_len(p, s) < s.len() && is_sep(p, s[prefix_len(p, s)])
}

/// Whether the path starts at a root. Any prefix but a drive is its own root.
pub open spec fn has_root(p: Platform, s: Seq<char>) -> bool {
    prefix_len(p, s) > 2 || has_root_sep(p, s)
}

/// Whether the path says where it is without reference to another.
pub open spec fn is_absolute(p: Platform, s: Seq<char>) -> bool {
    has_root(p, s) && (p is Windows ==> prefix_len(p, s) > 0)
}

/// Whether a path has neither prefix nor root.
pub open spec fn is_relative(p: Platform, s: Seq<char>) -> bool {
    prefix_len(p, s) == 0 && !has_root(p, s)
}

/// How many characters prefix and root take.
pub open spec fn body_at(p: Platform, s: Seq<char>) -> int {
    prefix_len(p, s) + if has_root_sep(p, s) {
        1int
    } else {
        0int
    }
}

/// Whether a `.` stands alone behind a drive without a root.
pub open spec fn dot_behind_drive(p: Platform, s: Seq<char>) -> bool {
    let k = prefix_len(p, s);
    k > 0 && !has_root(p, s) && k < s.len() && s[k] == '.' && next_sep(p, s, k) == k + 1
}

/// How many characters come before the components.
pub open spec fn head_len(p: Platform, s: Seq<char>) -> int {
    body_at(p, s) + if dot_behind_drive(p, s) {
        1int
    } else {
        0int
    }
}

/// Whether a component with meaning starts at `i`.
pub open spec fn starts_component(p: Platform, s: Seq<char>, i: int) -> bool {
    &&& body_at(p, s) <= i
    &&& !sep_at(p, s, i)
    &&& i == body_at(p, s) || sep_at(p, s, i - 1)
    &&& s[i] == '.' && next_sep(p, s, i) == i + 1 ==> i == 0 || is_verbatim(p, s)
}

/// The components at or after `i`, each as where it starts and ends.
pub open spec fn runs_from(p: Platform, s: Seq<char>, i: int) -> Seq<(int, int)>
    decreases s.len() - i,
{
    if i >= s.len() {
        Seq::empty()
    } else if starts_component(p, s, i) {
        seq![(i, next_sep(p, s, i))] + runs_from(p, s, i + 1)
    } else {
        runs_from(p, s, i + 1)
    }
}

/// The components of `s`, each as where it starts and ends.
pub open spec fn runs(p: Platform, s: Seq<char>) -> Seq<(int, int)> {
    runs_from(p, s, prefix_len(p, s))
}

/// The texts of the components of `s`.
pub open spec fn names(p: Platform, s: Seq<char>) -> Seq<Seq<char>> {
    runs(p, s).map_values(|r: (int, int)| s.subrange(r.0, r.1))
}

/// The letter in upper case.
pub open spec fn upper(c: char) -> char {
    if 'a' <= c <= 'z' {
        (c as u32 - 32) as char
    } else {
        c
    }
}

/// A prefix in a spelling that is the same for equal prefixes: a drive in upper
/// case, and one way to write separators.
pub open spec fn prefix_spelling(p: Platform, t: Seq<char>) -> Seq<char> {
    if t.len() == 2 {
        seq![upper(t[0]), ':']
    } else if !is_verbatim(p, t) {
        replaced(t, '\\', '/')
    } else if names_share(p, t) {
        t.update(7, '\\')
    } else if names_drive(p, t) {
        t.update(4, upper(t[4]))
    } else {
        t
    }
}

/// Prefix and root as components. A prefix that starts with `\\?\` has a root of its
/// own only where one is written.
pub open spec fn head_parts(p: Platform, s: Seq<char>) -> Seq<Seq<char>> {
    let k = prefix_len(p, s);
    (if k > 0 {
        seq![prefix_spelling(p, s.take(k))]
    } else {
        Seq::empty()
    }) + (if has_root_sep(p, s) || (k > 2 && !is_verbatim(p, s)) {
        seq![seq!['/']]
    } else {
        Seq::empty()
    })
}

/// Everything that has meaning in `s`: prefix, root and components.
pub open spec fn components(p: Platform, s: Seq<char>) -> Seq<Seq<char>> {
    head_parts(p, s) + names(p, s)
}

/// Whether two texts spell the same path.
pub open spec fn same_path(p: Platform, a: Seq<char>, b: Seq<char>) -> bool {
    components(p, a) == components(p, b)
}

/// The texts one behind the other, each with its length behind it.
pub open spec fn coded(parts: Seq<Seq<char>>) -> Seq<char>
    decreases parts.len(),
{
    if parts.len() == 0 {
        Seq::empty()
    } else {
        coded(parts.drop_last()) + parts.last() + seq![':'] + decimal(parts.last().len())
    }
}

/// A text that tells the path: paths are the same where their keys are.
pub open spec fn key_of(p: Platform, s: Seq<char>) -> Seq<char> {
    coded(components(p, s))
}

/// The last component, unless it is `.` or `..`.
pub open spec fn file_name(p: Platform, s: Seq<char>) -> Option<Seq<char>> {
    let n = names(p, s);
    if n.len() == 0 || !is_name(n.last()) {
        None
    } else {
        Some(n.last())
    }
}

/// Whether a component is neither `.` nor `..`.
pub open spec fn is_name(c: Seq<char>) -> bool {
    c != seq!['.'] && c != seq!['.', '.']
}

/// The path without its last component.
pub open spec fn parent(p: Platform, s: Seq<char>) -> Option<Seq<char>> {
    let r = runs(p, s);
    if r.len() == 0 {
        None
    } else if r.len() == 1 {
        Some(s.take(head_len(p, s)))
    } else {
        Some(s.take(r[r.len() - 2].1))
    }
}

/// `rel` behind `base`, with a separator between them where there is none.
pub open spec fn added(p: Platform, base: Seq<char>, rel: Seq<char>) -> Seq<char> {
    if base.len() == 0 || is_sep(p, base.last()) || (base.len() == 2 && prefix_len(p, base) == 2) {
        base + rel
    } else {
        base + seq![main_sep(p)] + rel
    }
}

/// Where the components `parts` lead from `at`: `.` stays, `..` leaves a name where
/// there is one, and a name goes down.
pub open spec fn walked(at: Seq<Seq<char>>, parts: Seq<Seq<char>>) -> Seq<Seq<char>>
    decreases parts.len(),
{
    if parts.len() == 0 {
        at
    } else {
        let here = walked(at, parts.drop_last());
        if parts.last() == seq!['.'] {
            here
        } else if parts.last() == seq!['.', '.'] {
            if here.len() > 0 && is_name(here.last()) {
                here.drop_last()
            } else {
                here
            }
        } else {
            here.push(parts.last())
        }
    }
}

/// A prefix that starts with `\\?\`, a root and names with `\` between them.
pub open spec fn written(prefix: Seq<char>, parts: Seq<Seq<char>>) -> Seq<char> {
    prefix + seq!['\\'] + joined(parts, seq!['\\'])
}

/// `rel` as seen from `base`. Where the base starts with `\\?\`, the whole is written
/// anew, and the `.` and `..` of `rel` are resolved.
pub open spec fn join(p: Platform, base: Seq<char>, rel: Seq<char>) -> Seq<char> {
    let prefix = base.take(prefix_len(p, base));
    if is_absolute(p, rel) || prefix_len(p, rel) > 0 {
        rel
    } else if is_verbatim(p, base) && rel.len() > 0 {
        let parts = walked(
            if has_root(p, rel) {
                Seq::empty()
            } else {
                names(p, base)
            },
            names(p, rel),
        );
        if parts.len() == 0 && !has_root_sep(p, base) && !has_root(p, rel) {
            prefix
        } else {
            written(prefix, parts)
        }
    } else if has_root(p, rel) {
        prefix + rel
    } else {
        added(p, base, rel)
    }
}

/// The path with its last component replaced by `name`.
pub open spec fn with_name(p: Platform, s: Seq<char>, name: Seq<char>) -> Seq<char> {
    if file_name(p, s) is Some {
        join(p, parent(p, s)->0, name)
    } else {
        join(p, s, name)
    }
}

/// Whether `s` is `root` or lies below it.
pub open spec fn is_under(p: Platform, s: Seq<char>, root: Seq<char>) -> bool {
    components(p, root).is_prefix_of(components(p, s))
}

/// What is left of `s` below `root`, as it is spelled in `s`.
pub open spec fn below(p: Platform, s: Seq<char>, root: Seq<char>) -> Option<Seq<char>> {
    if !is_under(p, s, root) {
        None
    } else {
        let r = runs(p, s);
        let k = components(p, root).len();
        let h = head_parts(p, s).len();
        let end = if r.len() > 0 {
            r.last().1
        } else {
            head_len(p, s)
        };
        let start = if k == 0 {
            0
        } else if k == 1 && prefix_len(p, s) > 0 {
            prefix_len(p, s)
        } else if k - h < r.len() {
            r[k - h].0
        } else {
            end
        };
        Some(s.subrange(start, end))
    }
}

// ---------------------------------------------------------------------------
// Executable forms
// ---------------------------------------------------------------------------

proof fn lemma_next_sep(p: Platform, s: Seq<char>, from: int)
    requires
        0 <= from,
    ensures
        from <= s.len() ==> from <= next_sep(p, s, from) <= s.len(),
        from < s.len() && !sep_at(p, s, from) ==> from < next_sep(p, s, from),
        from > s.len() ==> next_sep(p, s, from) == s.len(),
        next_sep(p, s, from) < s.len() ==> sep_at(p, s, next_sep(p, s, from)),
    decreases s.len() - from,
{
    if from < s.len() && !sep_at(p, s, from) {
        lemma_next_sep(p, s, from + 1);
    }
}

/// How long a prefix is, and what follows it.
proof fn lemma_prefix_len(p: Platform, s: Seq<char>)
    ensures
        0 <= prefix_len(p, s) <= s.len(),
        0 <= head_len(p, s) <= s.len(),
        prefix_len(p, s) == 0 || prefix_len(p, s) == 2 || prefix_len(p, s) >= 4,
        prefix_len(p, s) > 0 ==> p is Windows,
        prefix_len(p, s) == 2 ==> is_letter(s[0]) && s[1] == ':',
        prefix_len(p, s) == 2 ==> !is_verbatim(p, s),
        is_verbatim(p, s) ==> prefix_len(p, s) >= 4,
        2 < prefix_len(p, s) < s.len() ==> is_sep(p, s[prefix_len(p, s)]),
{
    reveal(prefix_len);
    if s.len() >= 2 {
        lemma_next_sep(p, s, 2);
        lemma_next_sep(p, s, next_sep(p, s, 2) + 1);
    }
    if s.len() >= 4 {
        lemma_next_sep(p, s, 4);
    }
    if s.len() >= 8 {
        lemma_next_sep(p, s, 8);
        lemma_next_sep(p, s, next_sep(p, s, 8) + 1);
    }
}

proof fn lemma_no_sep_between(p: Platform, s: Seq<char>, i: int, j: int)
    requires
        0 <= i <= j < next_sep(p, s, i),
    ensures
        j < s.len(),
        !sep_at(p, s, j),
    decreases j - i,
{
    lemma_next_sep(p, s, i);
    if i < j {
        lemma_no_sep_between(p, s, i + 1, j);
    }
}

proof fn lemma_runs_from_ge(p: Platform, s: Seq<char>, i: int, k: int)
    requires
        0 <= k < runs_from(p, s, i).len(),
    ensures
        i <= runs_from(p, s, i)[k].0,
    decreases s.len() - i,
{
    if starts_component(p, s, i) {
        if k > 0 {
            lemma_runs_from_ge(p, s, i + 1, k - 1);
        }
    } else {
        lemma_runs_from_ge(p, s, i + 1, k);
    }
}

/// Inside a component no other component starts.
proof fn lemma_run_after(p: Platform, s: Seq<char>, i: int, j: int, k: int)
    requires
        0 <= body_at(p, s) <= i < j <= next_sep(p, s, i),
        i < s.len(),
        0 <= k < runs_from(p, s, j).len(),
    ensures
        next_sep(p, s, i) <= runs_from(p, s, j)[k].0,
    decreases s.len() - j,
{
    lemma_next_sep(p, s, i);
    if j < next_sep(p, s, i) {
        lemma_no_sep_between(p, s, i, j - 1);
        lemma_run_after(p, s, i, j + 1, k);
    } else {
        lemma_runs_from_ge(p, s, j, k);
    }
}

/// Components are not empty, lie inside the text and follow each other.
proof fn lemma_run_bounds(p: Platform, s: Seq<char>, i: int, k: int)
    requires
        prefix_len(p, s) <= i,
        0 <= k < runs_from(p, s, i).len(),
    ensures
        i <= runs_from(p, s, i)[k].0 < runs_from(p, s, i)[k].1 <= s.len(),
        k > 0 ==> runs_from(p, s, i)[k - 1].1 <= runs_from(p, s, i)[k].0,
    decreases s.len() - i,
{
    lemma_prefix_len(p, s);
    lemma_next_sep(p, s, i);
    if starts_component(p, s, i) {
        if k > 0 {
            lemma_run_bounds(p, s, i + 1, k - 1);
            lemma_run_after(p, s, i, i + 1, k - 1);
        }
    } else {
        lemma_run_bounds(p, s, i + 1, k);
    }
}

proof fn lemma_run_order(p: Platform, s: Seq<char>, i: int, j: int, k: int)
    requires
        prefix_len(p, s) <= i,
        0 <= j <= k < runs_from(p, s, i).len(),
    ensures
        runs_from(p, s, i)[j].0 <= runs_from(p, s, i)[k].0,
        runs_from(p, s, i)[j].1 <= runs_from(p, s, i)[k].1,
    decreases k - j,
{
    lemma_run_bounds(p, s, i, k);
    if j < k {
        lemma_run_bounds(p, s, i, k - 1);
        lemma_run_order(p, s, i, j, k - 1);
    }
}

/// A component starts where it is said to and ends at the next separator.
proof fn lemma_run_is(p: Platform, s: Seq<char>, i: int, k: int)
    requires
        0 <= k < runs_from(p, s, i).len(),
    ensures
        ({
            let (a, b) = runs_from(p, s, i)[k];
            i <= a < s.len() && starts_component(p, s, a) && b == next_sep(p, s, a)
        }),
    decreases s.len() - i,
{
    if starts_component(p, s, i) {
        if k > 0 {
            lemma_run_is(p, s, i + 1, k - 1);
        }
    } else {
        lemma_run_is(p, s, i + 1, k);
    }
}

/// Components come behind prefix and root.
proof fn lemma_run_behind_head(p: Platform, s: Seq<char>, k: int)
    requires
        0 <= k < runs(p, s).len(),
    ensures
        head_len(p, s) <= runs(p, s)[k].0,
{
    let at = prefix_len(p, s);
    lemma_prefix_len(p, s);
    lemma_run_is(p, s, at, k);
    lemma_next_sep(p, s, at);
}

fn check_sep(p: Platform, c: char) -> (r: bool)
    ensures
        r == is_sep(p, c),
{
    match p {
        Platform::Windows => c == '/' || c == '\\',
        _ => c == '/',
    }
}

fn verbatim(p: Platform, v: &Vec<char>) -> (r: bool)
    ensures
        r == is_verbatim(p, v@),
{
    match p {
        Platform::Windows => v.len() >= 4 && v[0] == '\\' && v[1] == '\\' && v[2] == '?' && v[3]
            == '\\',
        _ => false,
    }
}

fn check_split(p: Platform, whole: bool, c: char) -> (r: bool)
    ensures
        r == splits(p, whole, c),
{
    if whole {
        c == '\\'
    } else {
        check_sep(p, c)
    }
}

fn find_sep(p: Platform, v: &Vec<char>, from: usize) -> (r: usize)
    requires
        from <= v@.len(),
    ensures
        r == next_sep(p, v@, from as int),
        from <= r <= v@.len(),
{
    let whole = verbatim(p, v);
    let mut i: usize = from;
    while i < v.len() && !check_split(p, whole, v[i])
        invariant
            from <= i <= v@.len(),
            whole == is_verbatim(p, v@),
            next_sep(p, v@, from as int) == next_sep(p, v@, i as int),
        decreases v@.len() - i,
    {
        i = i + 1;
    }
    i
}

fn share_named(p: Platform, v: &Vec<char>) -> (r: bool)
    ensures
        r == names_share(p, v@),
{
    v.len() >= 8 && v[4] == 'U' && v[5] == 'N' && v[6] == 'C' && check_sep(p, v[7])
}

fn drive_named(p: Platform, v: &Vec<char>) -> (r: bool)
    ensures
        r == names_drive(p, v@),
{
    v.len() >= 6 && check_letter(v[4]) && v[5] == ':' && (v.len() == 6 || check_sep(p, v[6]))
}

fn device_named(p: Platform, v: &Vec<char>) -> (r: bool)
    ensures
        r == names_device(p, v@),
{
    match p {
        Platform::Windows => v.len() >= 4 && check_sep(p, v[0]) && check_sep(p, v[1]) && v[2] == '.'
            && check_sep(p, v[3]),
        _ => false,
    }
}

fn prefix_end(p: Platform, v: &Vec<char>) -> (r: usize)
    ensures
        r == prefix_len(p, v@),
        r <= v@.len(),
{
    proof {
        reveal(prefix_len);
        lemma_prefix_len(p, v@);
        lemma_next_sep(p, v@, 8);
        lemma_next_sep(p, v@, next_sep(p, v@, 8) + 1);
    }
    match p {
        Platform::Windows => {
            if v.len() < 2 {
                0
            } else if verbatim(p, v) {
                if share_named(p, v) {
                    let server: usize = find_sep(p, v, 8);
                    if server < v.len() {
                        let share: usize = find_sep(p, v, server + 1);
                        if server + 1 < share {
                            share
                        } else {
                            server
                        }
                    } else {
                        server
                    }
                } else if drive_named(p, v) {
                    6
                } else {
                    find_sep(p, v, 4)
                }
            } else if device_named(p, v) {
                find_sep(p, v, 4)
            } else if check_sep(p, v[0]) && check_sep(p, v[1]) {
                let server: usize = find_sep(p, v, 2);
                if 2 < server && server < v.len() {
                    let share: usize = find_sep(p, v, server + 1);
                    if server + 1 < share {
                        share
                    } else {
                        0
                    }
                } else {
                    0
                }
            } else if check_letter(v[0]) && v[1] == ':' {
                2
            } else {
                0
            }
        },
        _ => 0,
    }
}

fn root_sep(p: Platform, v: &Vec<char>) -> (r: bool)
    ensures
        r == has_root_sep(p, v@),
{
    let e: usize = prefix_end(p, v);
    e < v.len() && check_sep(p, v[e])
}

fn rooted(p: Platform, v: &Vec<char>) -> (r: bool)
    ensures
        r == has_root(p, v@),
{
    prefix_end(p, v) > 2 || root_sep(p, v)
}

fn absolute(p: Platform, v: &Vec<char>) -> (r: bool)
    ensures
        r == is_absolute(p, v@),
{
    let prefixed = prefix_end(p, v) > 0;
    match p {
        Platform::Windows => rooted(p, v) && prefixed,
        _ => rooted(p, v),
    }
}

fn body_start(p: Platform, v: &Vec<char>) -> (r: usize)
    ensures
        r == body_at(p, v@),
        r <= v@.len(),
{
    let e: usize = prefix_end(p, v);
    if root_sep(p, v) {
        assert(e < v.len());
        e + 1
    } else {
        e
    }
}

fn head_end(p: Platform, v: &Vec<char>) -> (r: usize)
    ensures
        r == head_len(p, v@),
        r <= v@.len(),
{
    let e: usize = prefix_end(p, v);
    let body: usize = body_start(p, v);
    proof {
        lemma_prefix_len(p, v@);
    }
    if e > 0 && !rooted(p, v) && e < v.len() && v[e] == '.' && find_sep(p, v, e) == e + 1 {
        body + 1
    } else {
        body
    }
}

/// The ends of a component as integers.
pub open spec fn span(r: (usize, usize)) -> (int, int) {
    (r.0 as int, r.1 as int)
}

/// The ends of each component as integers.
pub open spec fn span_seq(v: Seq<(usize, usize)>) -> Seq<(int, int)> {
    v.map_values(|r: (usize, usize)| span(r))
}

fn spans(p: Platform, v: &Vec<char>) -> (r: Vec<(usize, usize)>)
    ensures
        span_seq(r@) == runs(p, v@),
        forall|k: int| 0 <= k < r@.len() ==> (#[trigger] r@[k]).0 < r@[k].1 <= v@.len(),
{
    let start: usize = prefix_end(p, v);
    let body: usize = body_start(p, v);
    let whole = verbatim(p, v);
    let mut r: Vec<(usize, usize)> = Vec::new();
    let mut i: usize = start;
    while i < v.len()
        invariant
            start == prefix_len(p, v@),
            body == body_at(p, v@),
            whole == is_verbatim(p, v@),
            start <= i <= v@.len(),
            span_seq(r@) + runs_from(p, v@, i as int) == runs(p, v@),
        decreases v@.len() - i,
    {
        let ghost so_far = r@;
        if body <= i && !check_split(p, whole, v[i]) && (i == body || check_split(
            p,
            whole,
            v[i - 1],
        )) {
            let end: usize = find_sep(p, v, i);
            if !(v[i] == '.' && end == i + 1) || i == 0 || whole {
                assert(starts_component(p, v@, i as int));
                r.push((i, end));
                assert(span_seq(r@) =~= span_seq(so_far).push((i as int, end as int)));
                assert(span_seq(r@) + runs_from(p, v@, i + 1) =~= span_seq(so_far) + runs_from(
                    p,
                    v@,
                    i as int,
                ));
            }
        }
        i = i + 1;
    }
    proof {
        assert(span_seq(r@) =~= runs(p, v@));
        assert forall|k: int| 0 <= k < r@.len() implies (#[trigger] r@[k]).0 < r@[k].1 <= v@.len()
            by {
            lemma_run_bounds(p, v@, start as int, k);
            assert(span_seq(r@)[k] == span(r@[k]));
        }
    }
    r
}

fn name_list(p: Platform, v: &Vec<char>) -> (r: Vec<String>)
    ensures
        texts(r@) == names(p, v@),
{
    let ends = spans(p, v);
    let mut r: Vec<String> = Vec::new();
    let mut i: usize = 0;
    while i < ends.len()
        invariant
            i <= ends@.len(),
            span_seq(ends@) == runs(p, v@),
            forall|k: int| 0 <= k < ends@.len() ==> (#[trigger] ends@[k]).0 < ends@[k].1 <= v@.len(),
            texts(r@) == names(p, v@).take(i as int),
        decreases ends@.len() - i,
    {
        let ghost so_far = r@;
        let (a, b) = ends[i];
        r.push(text_range(v, a, b));
        i = i + 1;
        proof {
            assert(span_seq(ends@)[i - 1] == span(ends@[i - 1]));
            assert(names(p, v@)[i - 1] == v@.subrange(a as int, b as int));
            assert(texts(r@) =~= texts(so_far).push(v@.subrange(a as int, b as int)));
            assert(names(p, v@).take(i as int) =~= names(p, v@).take(i - 1).push(
                names(p, v@)[i - 1],
            ));
        }
    }
    assert(names(p, v@).take(i as int) =~= names(p, v@));
    r
}

fn upper_of(c: char) -> (r: char)
    ensures
        r == upper(c),
{
    if 'a' <= c && c <= 'z' {
        ((c as u8) - 32) as char
    } else {
        c
    }
}

fn prefix_spelled(p: Platform, t: String) -> (r: String)
    ensures
        r@ == prefix_spelling(p, t@),
{
    let mut v = chars_of(t.as_str());
    if v.len() == 2 {
        let mut r = String::new();
        r.push(upper_of(v[0]));
        r.push(':');
        assert(r@ =~= prefix_spelling(p, t@));
        r
    } else if !verbatim(p, &v) {
        replace_char(t.as_str(), '\\', '/')
    } else if share_named(p, &v) {
        v.set(7, '\\');
        text_of(&v)
    } else if drive_named(p, &v) {
        let letter = upper_of(v[4]);
        v.set(4, letter);
        text_of(&v)
    } else {
        t
    }
}

/// Prefix, root and components of `s`.
pub fn path_components(p: Platform, s: &str) -> (r: Vec<String>)
    ensures
        texts(r@) == components(p, s@),
{
    let v = chars_of(s);
    let mut r: Vec<String> = Vec::new();
    let e: usize = prefix_end(p, &v);
    if e > 0 {
        let t = text_range(&v, 0, e);
        assert(t@ =~= s@.take(e as int));
        r.push(prefix_spelled(p, t));
    }
    if root_sep(p, &v) || (e > 2 && !verbatim(p, &v)) {
        let root = "/".to_string();
        proof {
            reveal_strlit("/");
            assert(root@ =~= seq!['/']);
        }
        r.push(root);
    }
    assert(texts(r@) =~= head_parts(p, s@));
    let mut rest = name_list(p, &v);
    let ghost tail = rest@;
    r.append(&mut rest);
    assert(texts(r@) =~= head_parts(p, s@) + texts(tail));
    r
}

/// The texts of the components of `s`.
pub fn path_names(p: Platform, s: &str) -> (r: Vec<String>)
    ensures
        texts(r@) == names(p, s@),
{
    let v = chars_of(s);
    name_list(p, &v)
}

/// A text that is the same for equal paths, and only for them.
pub fn path_key(p: Platform, s: &str) -> (r: String)
    ensures
        r@ == key_of(p, s@),
{
    let parts = path_components(p, s);
    let ghost all = texts(parts@);
    let mut r = String::new();
    let mut i: usize = 0;
    assert(r@ =~= coded(all.take(0)));
    while i < parts.len()
        invariant
            i <= parts@.len(),
            all == texts(parts@),
            r@ == coded(all.take(i as int)),
        decreases parts@.len() - i,
    {
        let part = parts[i].as_str();
        let n: usize = part.unicode_len();
        let number = decimal_text(n as u128);
        let item = cat3(part, ":", number.as_str());
        let ghost before = r@;
        r.append(item.as_str());
        proof {
            reveal_strlit(":");
            assert(":"@ =~= seq![':']);
            assert(all.take(i + 1).drop_last() =~= all.take(i as int));
            assert(all.take(i + 1).last() == part@);
            assert(r@ =~= before + part@ + seq![':'] + decimal(part@.len()));
        }
        i = i + 1;
    }
    assert(all.take(i as int) =~= all);
    r
}

/// Whether `s` says where it is without reference to another path.
pub fn path_is_absolute(p: Platform, s: &str) -> (r: bool)
    ensures
        r == is_absolute(p, s@),
{
    let v = chars_of(s);
    absolute(p, &v)
}

fn check_name(c: &str) -> (r: bool)
    ensures
        r == is_name(c@),
{
    proof {
        reveal_strlit(".");
        reveal_strlit("..");
        assert("."@ =~= seq!['.']);
        assert(".."@ =~= seq!['.', '.']);
    }
    !same(c, ".") && !same(c, "..")
}

/// The last component of `s`, unless it is `.` or `..`.
pub fn path_file_name(p: Platform, s: &str) -> (r: Option<String>)
    ensures
        opt_text(r) == file_name(p, s@),
{
    let v = chars_of(s);
    let mut list = name_list(p, &v);
    let ghost all = texts(list@);
    match list.pop() {
        Some(t) => {
            assert(all.last() == t@);
            if check_name(t.as_str()) {
                Some(t)
            } else {
                None
            }
        },
        None => None,
    }
}

/// `s` without its last component.
pub fn path_parent(p: Platform, s: &str) -> (r: Option<String>)
    ensures
        opt_text(r) == parent(p, s@),
{
    let v = chars_of(s);
    let ends = spans(p, &v);
    let n: usize = ends.len();
    if n == 0 {
        None
    } else if n == 1 {
        let h: usize = head_end(p, &v);
        let r = text_range(&v, 0, h);
        assert(r@ =~= s@.take(head_len(p, s@)));
        Some(r)
    } else {
        let e: usize = ends[n - 2].1;
        let r = text_range(&v, 0, e);
        assert(span_seq(ends@)[n - 2] == span(ends@[n - 2]));
        assert(r@ =~= s@.take(e as int));
        Some(r)
    }
}

fn path_add(p: Platform, base: &str, rel: &str) -> (r: String)
    ensures
        r@ == added(p, base@, rel@),
{
    let b = chars_of(base);
    if b.len() == 0 || check_sep(p, b[b.len() - 1]) || (b.len() == 2 && prefix_end(p, &b) == 2) {
        cat(base, rel)
    } else {
        let mut r = base.to_string();
        match p {
            Platform::Windows => r.push('\\'),
            _ => r.push('/'),
        }
        assert(r@ =~= base@ + seq![main_sep(p)]);
        r.append(rel);
        r
    }
}

fn walk(at: Vec<String>, parts: &Vec<String>) -> (r: Vec<String>)
    ensures
        texts(r@) == walked(texts(at@), texts(parts@)),
{
    let ghost start = texts(at@);
    let ghost all = texts(parts@);
    let mut r = at;
    let mut i: usize = 0;
    proof {
        reveal_strlit(".");
        reveal_strlit("..");
        assert("."@ =~= seq!['.']);
        assert(".."@ =~= seq!['.', '.']);
        assert(all.take(0) =~= Seq::empty());
    }
    while i < parts.len()
        invariant
            i <= parts@.len(),
            all == texts(parts@),
            "."@ == seq!['.'],
            ".."@ == seq!['.', '.'],
            texts(r@) == walked(start, all.take(i as int)),
        decreases parts@.len() - i,
    {
        let part = parts[i].as_str();
        let ghost here = r@;
        proof {
            assert(all.take(i + 1).drop_last() =~= all.take(i as int));
            assert(all.take(i + 1).last() == part@);
            assert(texts(here).len() == here.len());
        }
        if same(part, ".") {
        } else if same(part, "..") {
            let n: usize = r.len();
            if n > 0 && check_name(r[n - 1].as_str()) {
                let _ = r.pop();
                assert(texts(r@) =~= texts(here).drop_last());
            }
        } else {
            r.push(part.to_string());
            assert(texts(r@) =~= texts(here).push(part@));
        }
        i = i + 1;
    }
    assert(all.take(i as int) =~= all);
    r
}

/// `rel` as seen from `base`.
pub fn path_join(p: Platform, base: &str, rel: &str) -> (r: String)
    ensures
        r@ == join(p, base@, rel@),
{
    let b = chars_of(base);
    let v = chars_of(rel);
    if absolute(p, &v) || prefix_end(p, &v) > 0 {
        return rel.to_string();
    }
    let e: usize = prefix_end(p, &b);
    let mut prefix = text_range(&b, 0, e);
    assert(prefix@ =~= base@.take(e as int));
    if verbatim(p, &b) && v.len() > 0 {
        let from_root = rooted(p, &v);
        let start = if from_root {
            Vec::new()
        } else {
            name_list(p, &b)
        };
        let steps = name_list(p, &v);
        assert(from_root ==> texts(start@) =~= Seq::empty());
        let parts = walk(start, &steps);
        assert(texts(parts@).len() == parts@.len());
        if parts.len() == 0 && !root_sep(p, &b) && !from_root {
            return prefix;
        }
        let names = join_texts(&parts, "\\");
        proof {
            reveal_strlit("\\");
            assert("\\"@ =~= seq!['\\']);
        }
        prefix.append("\\");
        prefix.append(names.as_str());
        prefix
    } else if rooted(p, &v) {
        prefix.append(rel);
        prefix
    } else {
        path_add(p, base, rel)
    }
}

/// `s` with its last component replaced by `name`.
pub fn path_with_name(p: Platform, s: &str, name: &str) -> (r: String)
    ensures
        r@ == with_name(p, s@, name@),
{
    match path_file_name(p, s) {
        Some(_) => match path_parent(p, s) {
            Some(d) => path_join(p, d.as_str(), name),
            None => name.to_string(),
        },
        None => path_join(p, s, name),
    }
}

fn is_prefix(a: &Vec<String>, b: &Vec<String>) -> (r: bool)
    ensures
        r == texts(a@).is_prefix_of(texts(b@)),
{
    if a.len() > b.len() {
        return false;
    }
    let mut i: usize = 0;
    while i < a.len()
        invariant
            i <= a@.len() <= b@.len(),
            forall|k: int| 0 <= k < i ==> texts(a@)[k] == texts(b@)[k],
        decreases a@.len() - i,
    {
        if !same(a[i].as_str(), b[i].as_str()) {
            assert(texts(a@)[i as int] != texts(b@).subrange(0, a@.len() as int)[i as int]);
            return false;
        }
        i = i + 1;
    }
    assert(texts(a@) =~= texts(b@).subrange(0, a@.len() as int));
    true
}

/// Whether `s` is `root` or lies below it.
pub fn path_starts_with(p: Platform, s: &str, root: &str) -> (r: bool)
    ensures
        r == is_under(p, s@, root@),
{
    let a = path_components(p, root);
    let b = path_components(p, s);
    is_prefix(&a, &b)
}

/// What is left of `s` below `root`.
pub fn path_strip(p: Platform, s: &str, root: &str) -> (r: Option<String>)
    ensures
        opt_text(r) == below(p, s@, root@),
{
    let a = path_components(p, root);
    let b = path_components(p, s);
    if !is_prefix(&a, &b) {
        return None;
    }
    let v = chars_of(s);
    let ends = spans(p, &v);
    let n: usize = ends.len();
    let k: usize = a.len();
    proof {
        assert(span_seq(ends@).len() == n);
        assert(names(p, s@).len() == n);
    }
    let h: usize = b.len() - n;
    let prefix: usize = prefix_end(p, &v);
    let end: usize = if n > 0 {
        ends[n - 1].1
    } else {
        head_end(p, &v)
    };
    proof {
        lemma_prefix_len(p, s@);
        if n > 0 {
            lemma_run_bounds(p, s@, prefix as int, n - 1);
            assert(span_seq(ends@)[n - 1] == span(ends@[n - 1]));
            if h <= k < h + n {
                lemma_run_order(p, s@, prefix as int, k - h, n - 1);
                lemma_run_bounds(p, s@, prefix as int, k - h);
                assert(span_seq(ends@)[k - h] == span(ends@[k - h]));
            }
        }
    }
    let start: usize = if k == 0 {
        0
    } else if k == 1 && prefix > 0 {
        prefix
    } else if k - h < n {
        ends[k - h].0
    } else {
        end
    };
    Some(text_range(&v, start, end))
}

// ---------------------------------------------------------------------------
// Laws
// ---------------------------------------------------------------------------

proof fn lemma_coded_len(parts: Seq<Seq<char>>)
    requires
        parts.len() > 0,
    ensures
        ({
            let t = coded(parts);
            let d = decimal(parts.last().len());
            &&& t.len() > d.len()
            &&& t.skip(t.len() - d.len()) == d
            &&& t[t.len() - d.len() - 1] == ':'
            &&& t.len() - d.len() - 1 - parts.last().len() == coded(parts.drop_last()).len()
            &&& t.take(t.len() - d.len() - 1) == coded(parts.drop_last()) + parts.last()
        }),
{
    let t = coded(parts);
    let d = decimal(parts.last().len());
    let head = coded(parts.drop_last()) + parts.last();
    assert(t.skip(t.len() - d.len()) =~= d);
    assert(t.take(t.len() - d.len() - 1) =~= head);
}

/// Where a key ends tells its last component, and so all of them.
proof fn lemma_coded_injective(a: Seq<Seq<char>>, b: Seq<Seq<char>>)
    requires
        coded(a) == coded(b),
    ensures
        a == b,
    decreases a.len(),
{
    if a.len() == 0 || b.len() == 0 {
        if a.len() > 0 {
            lemma_coded_len(a);
        }
        if b.len() > 0 {
            lemma_coded_len(b);
        }
        assert(a =~= b);
    } else {
        lemma_coded_len(a);
        lemma_coded_len(b);
        let t = coded(a);
        let n = t.len() as int;
        let da = decimal(a.last().len());
        let db = decimal(b.last().len());
        decimal_digits(a.last().len());
        decimal_digits(b.last().len());
        if da.len() < db.len() {
            let i = db.len() - da.len() - 1;
            assert(db[i] == t.skip(n - db.len())[i]);
            assert(is_digit(db[i]));
        } else if db.len() < da.len() {
            let i = da.len() - db.len() - 1;
            assert(da[i] == t.skip(n - da.len())[i]);
            assert(is_digit(da[i]));
        }
        decimal_injective(a.last().len(), b.last().len());
        let head = t.take(n - da.len() - 1);
        let at = head.len() - a.last().len();
        assert(coded(a.drop_last()) =~= head.take(at));
        assert(coded(b.drop_last()) =~= head.take(at));
        assert(a.last() =~= head.skip(at));
        assert(b.last() =~= head.skip(at));
        lemma_coded_injective(a.drop_last(), b.drop_last());
        assert(a =~= a.drop_last().push(a.last()));
        assert(b =~= b.drop_last().push(b.last()));
    }
}

/// Two paths are the same exactly where their keys are.
pub proof fn key_tells_path(p: Platform, a: Seq<char>, b: Seq<char>)
    ensures
        key_of(p, a) == key_of(p, b) <==> same_path(p, a, b),
{
    if key_of(p, a) == key_of(p, b) {
        lemma_coded_injective(components(p, a), components(p, b));
    }
}

proof fn lemma_next_sep_agree(p: Platform, a: Seq<char>, b: Seq<char>, from: int)
    requires
        is_verbatim(p, a) == is_verbatim(p, b),
        0 <= from <= a.len(),
        next_sep(p, a, from) <= b.len(),
        forall|i: int| from <= i < next_sep(p, a, from) ==> a[i] == b[i],
        next_sep(p, a, from) < b.len() ==> sep_at(p, b, next_sep(p, a, from)),
    ensures
        next_sep(p, b, from) == next_sep(p, a, from),
    decreases a.len() - from,
{
    lemma_next_sep(p, a, from);
    lemma_next_sep(p, b, from);
    if from < a.len() && !sep_at(p, a, from) {
        lemma_next_sep_agree(p, a, b, from + 1);
        assert(a[from] == b[from]);
    }
}

proof fn lemma_sep_found(p: Platform, s: Seq<char>, from: int, at: int)
    requires
        0 <= from <= at < s.len(),
        sep_at(p, s, at),
    ensures
        next_sep(p, s, from) <= at,
    decreases at - from,
{
    if from < at && !sep_at(p, s, from) {
        lemma_sep_found(p, s, from + 1, at);
    }
}

proof fn lemma_next_sep_none(p: Platform, s: Seq<char>, from: int)
    requires
        0 <= from <= s.len(),
        forall|i: int| from <= i < s.len() ==> !#[trigger] sep_at(p, s, i),
    ensures
        next_sep(p, s, from) == s.len(),
    decreases s.len() - from,
{
    if from < s.len() {
        assert(!sep_at(p, s, from));
        lemma_next_sep_none(p, s, from + 1);
    }
}

/// Whether a path is absolute and what is put behind it does not change how its
/// prefix is read. That leaves out `\\.\` alone, and of the paths that start with
/// `\\?\` those without a root and those that name a server without a share.
pub open spec fn is_firm(p: Platform, s: Seq<char>) -> bool {
    &&& is_absolute(p, s)
    &&& names_device(p, s) ==> s.len() > 4
    &&& is_verbatim(p, s) ==> has_root_sep(p, s) && (names_share(p, s) ==> next_sep(p, s, 8)
        < prefix_len(p, s))
}

/// Whether names can go behind the path as it is written: it is firm, and a root
/// behind `\\?\` and a prefix is written as `\`.
spec fn is_base(p: Platform, s: Seq<char>) -> bool {
    is_firm(p, s) && (is_verbatim(p, s) ==> s[prefix_len(p, s)] == '\\')
}

/// A text that starts with the prefix of a firm path and goes on with a separator
/// has that prefix.
proof fn lemma_same_prefix(p: Platform, base: Seq<char>, s: Seq<char>)
    requires
        is_firm(p, base),
        prefix_len(p, base) <= s.len(),
        s.take(prefix_len(p, base)) == base.take(prefix_len(p, base)),
        s.len() > 0,
        prefix_len(p, base) < s.len() ==> is_sep(p, s[prefix_len(p, base)]),
        is_verbatim(p, base) ==> prefix_len(p, base) < s.len() && (s[prefix_len(p, base)] == '\\'
            || s[prefix_len(p, base)] == base[prefix_len(p, base)]),
        prefix_len(p, base) <= 2 ==> prefix_len(p, base) < s.len(),
        names_device(p, base) && prefix_len(p, base) == 4 ==> s.len() > 4,
    ensures
        prefix_len(p, s) == prefix_len(p, base),
        is_verbatim(p, s) == is_verbatim(p, base),
        is_firm(p, s),
{
    let k = prefix_len(p, base);
    lemma_prefix_len(p, base);
    assert forall|i: int| 0 <= i < k implies s[i] == base[i] by {
        assert(s[i] == s.take(k)[i]);
        assert(base[i] == base.take(k)[i]);
    }
    reveal(prefix_len);
    if p is Windows && k > 2 {
        assert(s[0] == base[0] && s[1] == base[1] && s[2] == base[2] && s[3] == base[3]);
        lemma_next_sep(p, base, 2);
        lemma_next_sep(p, base, 4);
        lemma_next_sep(p, base, 8);
        if is_verbatim(p, base) {
            if names_share(p, base) {
                let server = next_sep(p, base, 8);
                lemma_next_sep(p, base, server + 1);
                assert(s[4] == base[4] && s[5] == base[5] && s[6] == base[6] && s[7] == base[7]);
                lemma_next_sep_agree(p, base, s, 8);
                lemma_next_sep_agree(p, base, s, server + 1);
            } else if names_drive(p, base) {
                assert(s[4] == base[4] && s[5] == base[5]);
            } else {
                lemma_next_sep_agree(p, base, s, 4);
                if k > 4 {
                    assert(s[4] == base[4]);
                }
                if k > 5 {
                    assert(s[5] == base[5]);
                }
                if k > 6 {
                    assert(s[6] == base[6]);
                }
                if k > 7 {
                    assert(s[7] == base[7]);
                }
            }
        } else if names_device(p, base) {
            lemma_next_sep_agree(p, base, s, 4);
        } else {
            let server = next_sep(p, base, 2);
            lemma_next_sep(p, base, server + 1);
            lemma_next_sep_agree(p, base, s, 2);
            lemma_next_sep_agree(p, base, s, server + 1);
        }
    } else if p is Windows {
        assert(s[0] == base[0] && s[1] == base[1]);
    }
}

/// Whether a text can be a component, in a path that starts with `\\?\` or in
/// another.
spec fn fits(p: Platform, verbatim: bool, x: Seq<char>) -> bool {
    &&& x.len() > 0
    &&& forall|i: int| 0 <= i < x.len() ==> !splits(p, verbatim, #[trigger] x[i])
    &&& !verbatim ==> x != seq!['.']
}

/// Whether `s` is the path `b` with the component `x` behind it.
spec fn extends(p: Platform, b: Seq<char>, x: Seq<char>, s: Seq<char>) -> bool {
    let st = s.len() - x.len();
    &&& is_base(p, b)
    &&& fits(p, is_verbatim(p, b), x)
    &&& b.len() <= st <= b.len() + 1
    &&& s.take(b.len() as int) == b
    &&& s.skip(st) == x
    &&& prefix_len(p, b) < st
    &&& splits(p, is_verbatim(p, b), s[st - 1])
}

/// What such a path starts with.
proof fn lemma_grown_start(p: Platform, b: Seq<char>, x: Seq<char>, s: Seq<char>)
    requires
        extends(p, b, x, s),
    ensures
        prefix_len(p, s) == prefix_len(p, b),
        s.take(prefix_len(p, b)) == b.take(prefix_len(p, b)),
        is_verbatim(p, s) == is_verbatim(p, b),
        is_base(p, s),
        has_root_sep(p, s),
        forall|i: int| 0 <= i < b.len() ==> #[trigger] s[i] == b[i],
{
    let k = prefix_len(p, b);
    lemma_prefix_len(p, b);
    assert forall|i: int| 0 <= i < b.len() implies #[trigger] s[i] == b[i] by {
        assert(s[i] == s.take(b.len() as int)[i]);
    }
    assert(s.take(k) =~= b.take(k));
    lemma_same_prefix(p, b, s);
}

/// Inside a component nothing starts.
proof fn lemma_no_run_inside(p: Platform, s: Seq<char>, i: int)
    requires
        body_at(p, s) < i,
        0 < i <= s.len(),
        forall|k: int| i - 1 <= k < s.len() ==> !#[trigger] sep_at(p, s, k),
    ensures
        runs_from(p, s, i) == Seq::<(int, int)>::empty(),
    decreases s.len() - i,
{
    if i < s.len() {
        assert(!sep_at(p, s, i - 1));
        lemma_no_run_inside(p, s, i + 1);
    }
}

/// Behind the path that it was made from, such a path has the component alone.
proof fn lemma_grown_end(p: Platform, b: Seq<char>, x: Seq<char>, s: Seq<char>)
    requires
        extends(p, b, x, s),
    ensures
        runs_from(p, s, b.len() as int) == seq![(s.len() - x.len(), s.len() as int)],
{
    let st = s.len() - x.len();
    lemma_prefix_len(p, b);
    lemma_grown_start(p, b, x, s);
    assert forall|k: int| st <= k < s.len() implies !#[trigger] sep_at(p, s, k) by {
        assert(s[k] == s.skip(st)[k - st]);
    }
    lemma_next_sep_none(p, s, st);
    assert(s[st] == s.skip(st)[0]);
    assert(starts_component(p, s, st)) by {
        if s[st] == '.' && next_sep(p, s, st) == st + 1 {
            assert(x =~= seq!['.']);
        }
    }
    lemma_no_run_inside(p, s, st + 1);
    assert(runs_from(p, s, st) =~= seq![(st, s.len() as int)]);
    if st > b.len() {
        assert(sep_at(p, s, b.len() as int));
        assert(!starts_component(p, s, b.len() as int));
    }
}

proof fn lemma_grown_runs(p: Platform, b: Seq<char>, x: Seq<char>, s: Seq<char>, i: int)
    requires
        extends(p, b, x, s),
        prefix_len(p, b) <= i <= b.len(),
    ensures
        runs_from(p, s, i) == runs_from(p, b, i).push((s.len() - x.len(), s.len() as int)),
    decreases b.len() - i,
{
    let st = s.len() - x.len();
    lemma_prefix_len(p, b);
    lemma_grown_start(p, b, x, s);
    if i < b.len() {
        lemma_grown_runs(p, b, x, s, i + 1);
        assert(s[i] == b[i]);
        if i > 0 {
            assert(s[i - 1] == b[i - 1]);
        }
        lemma_next_sep(p, b, i);
        let e = next_sep(p, b, i);
        if e < b.len() {
            assert(s[e] == b[e]);
        } else if st == b.len() {
            // A separator ends the path, so the search stops at it.
            assert(s[b.len() - 1] == b[b.len() - 1]);
            lemma_sep_found(p, b, i, b.len() - 1);
        }
        lemma_next_sep_agree(p, b, s, i);
        assert(body_at(p, s) == body_at(p, b));
        assert(starts_component(p, s, i) == starts_component(p, b, i));
        assert(runs_from(p, s, i) =~= runs_from(p, b, i).push((st, s.len() as int)));
    } else {
        lemma_grown_end(p, b, x, s);
        assert(runs_from(p, b, i) =~= Seq::empty());
    }
}

/// Such a path has one component more, and it is the last.
proof fn lemma_grown(p: Platform, b: Seq<char>, x: Seq<char>, s: Seq<char>)
    requires
        extends(p, b, x, s),
    ensures
        is_base(p, s),
        prefix_len(p, s) == prefix_len(p, b),
        s.take(prefix_len(p, b)) == b.take(prefix_len(p, b)),
        is_verbatim(p, s) == is_verbatim(p, b),
        runs(p, s) == runs(p, b).push((s.len() - x.len(), s.len() as int)),
        names(p, s) == names(p, b).push(x),
        head_parts(p, s) == head_parts(p, b),
        components(p, s) == components(p, b).push(x),
{
    let st = s.len() - x.len();
    let k = prefix_len(p, b);
    let r = runs(p, b);
    lemma_prefix_len(p, b);
    lemma_grown_start(p, b, x, s);
    lemma_grown_runs(p, b, x, s, k);
    assert forall|j: int| 0 <= j < r.len() implies #[trigger] names(p, s)[j] == names(p, b)[j] by {
        lemma_run_bounds(p, b, k, j);
        assert(runs(p, s)[j] == r[j]);
        assert(s.subrange(r[j].0, r[j].1) =~= b.subrange(r[j].0, r[j].1));
    }
    assert(names(p, s)[r.len() as int] == s.subrange(st, s.len() as int));
    assert(s.subrange(st, s.len() as int) =~= s.skip(st));
    assert(names(p, s) =~= names(p, b).push(x));
    assert(has_root_sep(p, b) || (k > 2 && !is_verbatim(p, b)));
    assert(head_parts(p, s) =~= head_parts(p, b));
    assert(components(p, s) =~= components(p, b).push(x));
}

/// A prefix and a root alone have no components.
proof fn lemma_bare_root(p: Platform, base: Seq<char>, t: Seq<char>)
    requires
        is_firm(p, base),
        t.len() == prefix_len(p, base) + 1,
        t.take(prefix_len(p, base)) == base.take(prefix_len(p, base)),
        is_sep(p, t.last()),
        is_verbatim(p, base) ==> t.last() == '\\' || t.last() == base[prefix_len(p, base)],
    ensures
        is_firm(p, t),
        prefix_len(p, t) == prefix_len(p, base),
        is_verbatim(p, t) == is_verbatim(p, base),
        runs(p, t) == Seq::<(int, int)>::empty(),
        head_parts(p, t) == head_parts(p, base),
{
    let k = prefix_len(p, base);
    lemma_prefix_len(p, base);
    lemma_same_prefix(p, base, t);
    assert(runs_from(p, t, k + 1) =~= Seq::empty());
    assert(!starts_component(p, t, k));
    assert(head_parts(p, t) =~= head_parts(p, base));
}

/// A path that is written anew behind a prefix that starts with `\\?\` has the
/// components that it is written from.
proof fn lemma_written(p: Platform, base: Seq<char>, parts: Seq<Seq<char>>)
    requires
        is_firm(p, base),
        is_verbatim(p, base),
        forall|i: int| 0 <= i < parts.len() ==> fits(p, true, #[trigger] parts[i]),
    ensures
        ({
            let t = written(base.take(prefix_len(p, base)), parts);
            &&& is_base(p, t)
            &&& is_verbatim(p, t)
            &&& prefix_len(p, t) == prefix_len(p, base)
            &&& t.take(prefix_len(p, base)) == base.take(prefix_len(p, base))
            &&& names(p, t) == parts
            &&& head_parts(p, t) == head_parts(p, base)
        }),
    decreases parts.len(),
{
    let k = prefix_len(p, base);
    let prefix = base.take(k);
    let t = written(prefix, parts);
    lemma_prefix_len(p, base);
    if parts.len() == 0 {
        assert(t =~= prefix + seq!['\\']);
        assert(t.take(k) =~= prefix);
        lemma_bare_root(p, base, t);
        assert(names(p, t) =~= parts);
    } else {
        let rest = parts.drop_last();
        let b = written(prefix, rest);
        let x = parts.last();
        assert forall|i: int| 0 <= i < rest.len() implies fits(p, true, #[trigger] rest[i]) by {
            assert(rest[i] == parts[i]);
        }
        lemma_written(p, base, rest);
        assert(fits(p, true, parts[parts.len() - 1]));
        if parts.len() == 1 {
            assert(b =~= prefix + seq!['\\']);
            assert(t =~= b + x);
        } else {
            assert(t =~= b + seq!['\\'] + x);
        }
        assert(t.take(b.len() as int) =~= b);
        assert(t.skip(t.len() - x.len()) =~= x);
        lemma_grown(p, b, x, t);
        assert(t.take(k) =~= prefix);
        assert(names(p, t) =~= parts);
    }
}

/// The components of a path can be components.
proof fn lemma_names_fit(p: Platform, s: Seq<char>, k: int)
    requires
        0 <= k < names(p, s).len(),
    ensures
        names(p, s)[k].len() > 0,
        forall|i: int|
            0 <= i < names(p, s)[k].len() ==> !splits(p, is_verbatim(p, s), #[trigger] names(p, s)[k][i]),
        p is Windows ==> fits(p, true, names(p, s)[k]),
{
    let (a, b) = runs(p, s)[k];
    lemma_prefix_len(p, s);
    lemma_run_bounds(p, s, prefix_len(p, s), k);
    lemma_run_is(p, s, prefix_len(p, s), k);
    assert forall|i: int| 0 <= i < names(p, s)[k].len() implies !splits(
        p,
        is_verbatim(p, s),
        #[trigger] names(p, s)[k][i],
    ) by {
        lemma_no_sep_between(p, s, a, a + i);
    }
}

/// The parent of a path is shorter than the path.
pub proof fn parent_is_shorter(p: Platform, s: Seq<char>)
    ensures
        parent(p, s) matches Some(d) ==> d.len() < s.len(),
{
    let r = runs(p, s);
    let at = prefix_len(p, s);
    lemma_prefix_len(p, s);
    if r.len() == 1 {
        lemma_run_bounds(p, s, at, 0);
        lemma_run_behind_head(p, s, 0);
    } else if r.len() > 1 {
        lemma_run_bounds(p, s, at, r.len() - 1);
        lemma_run_bounds(p, s, at, r.len() - 2);
    }
}

/// Whether a text can be the name of a file: it is not empty, holds no
/// separator, is neither `.` nor `..`, and is no drive.
pub open spec fn is_plain_name(p: Platform, name: Seq<char>) -> bool {
    &&& name.len() > 0
    &&& forall|i: int| 0 <= i < name.len() ==> !is_sep(p, #[trigger] name[i])
    &&& is_name(name)
    &&& prefix_len(p, name) == 0
}

/// A plain name is its own and only component.
proof fn lemma_plain_names(p: Platform, name: Seq<char>)
    requires
        is_plain_name(p, name),
    ensures
        is_relative(p, name),
        names(p, name) == seq![name],
{
    assert(!is_sep(p, name[0]));
    assert forall|i: int| 0 <= i < name.len() implies !#[trigger] sep_at(p, name, i) by {
        assert(!is_sep(p, name[i]));
    }
    lemma_next_sep_none(p, name, 0);
    assert(starts_component(p, name, 0));
    lemma_no_run_inside(p, name, 1);
    assert(runs(p, name) =~= seq![(0int, name.len() as int)]);
    assert(name.subrange(0, name.len() as int) =~= name);
    assert(names(p, name) =~= seq![name]);
}

/// The path as names go behind it: one that starts with `\\?\` is written anew.
pub open spec fn respelled(p: Platform, s: Seq<char>) -> Seq<char> {
    if is_verbatim(p, s) {
        written(s.take(prefix_len(p, s)), names(p, s))
    } else {
        s
    }
}

/// Writing it anew does not change a path.
proof fn lemma_respelled(p: Platform, s: Seq<char>)
    requires
        is_firm(p, s),
    ensures
        is_base(p, respelled(p, s)),
        is_verbatim(p, respelled(p, s)) == is_verbatim(p, s),
        prefix_len(p, respelled(p, s)) == prefix_len(p, s),
        respelled(p, s).take(prefix_len(p, s)) == s.take(prefix_len(p, s)),
        names(p, respelled(p, s)) == names(p, s),
        head_parts(p, respelled(p, s)) == head_parts(p, s),
        components(p, respelled(p, s)) == components(p, s),
{
    if is_verbatim(p, s) {
        assert forall|i: int| 0 <= i < names(p, s).len() implies fits(
            p,
            true,
            #[trigger] names(p, s)[i],
        ) by {
            lemma_names_fit(p, s, i);
        }
        lemma_written(p, s, names(p, s));
    }
}

/// A firm path that is no more than a prefix does not end in a separator.
proof fn lemma_prefix_end(p: Platform, s: Seq<char>)
    requires
        is_firm(p, s),
        !is_verbatim(p, s),
    ensures
        prefix_len(p, s) == s.len() ==> s.len() > 2 && !is_sep(p, s.last()),
{
    let k = prefix_len(p, s);
    lemma_prefix_len(p, s);
    if k == s.len() && s.len() > 2 {
        reveal(prefix_len);
        if names_device(p, s) {
            lemma_no_sep_between(p, s, 4, k - 1);
        } else {
            lemma_next_sep(p, s, 2);
            lemma_no_sep_between(p, s, next_sep(p, s, 2) + 1, k - 1);
        }
    }
}

/// A plain name goes behind a path as a component.
#[verifier::rlimit(40)]
proof fn lemma_join_extends(p: Platform, base: Seq<char>, name: Seq<char>)
    requires
        is_firm(p, base),
        is_plain_name(p, name),
    ensures
        extends(p, respelled(p, base), name, join(p, base, name)),
{
    let b = respelled(p, base);
    let s = join(p, base, name);
    lemma_plain_names(p, name);
    lemma_respelled(p, base);
    lemma_prefix_len(p, base);
    lemma_prefix_len(p, b);
    assert(fits(p, is_verbatim(p, b), name)) by {
        assert forall|i: int| 0 <= i < name.len() implies !splits(
            p,
            is_verbatim(p, b),
            #[trigger] name[i],
        ) by {
            assert(!is_sep(p, name[i]));
        }
    }
    if is_verbatim(p, base) {
        let parts = names(p, base).push(name);
        let steps = seq![name];
        assert(steps.drop_last() =~= Seq::empty());
        assert(walked(names(p, base), steps.drop_last()) == names(p, base));
        assert(steps.last() == name);
        assert(walked(names(p, base), steps) == parts);
        assert(s == written(base.take(prefix_len(p, base)), parts));
        assert(parts.drop_last() =~= names(p, base));
        if names(p, base).len() == 0 {
            assert(b =~= base.take(prefix_len(p, base)) + seq!['\\']);
            assert(s =~= b + name);
            assert(b.last() == '\\');
        } else {
            assert(s =~= b + seq!['\\'] + name);
        }
    } else {
        lemma_prefix_end(p, base);
        assert(s == added(p, base, name));
    }
    assert(s.take(b.len() as int) =~= b);
    assert(s.skip(s.len() - name.len()) =~= name);
}

/// A plain name behind an absolute path is one component more, and the last.
pub proof fn join_adds_component(p: Platform, base: Seq<char>, name: Seq<char>)
    requires
        is_firm(p, base),
        is_plain_name(p, name),
    ensures
        names(p, join(p, base, name)) == names(p, base).push(name),
        components(p, join(p, base, name)) == components(p, base).push(name),
        file_name(p, join(p, base, name)) == Some(name),
        is_firm(p, join(p, base, name)),
{
    lemma_respelled(p, base);
    lemma_join_extends(p, base, name);
    lemma_grown(p, respelled(p, base), name, join(p, base, name));
}

/// What is seen from a path that starts with `\\?\` starts with that too, unless it
/// has a prefix of its own.
pub proof fn verbatim_stays(p: Platform, base: Seq<char>, rel: Seq<char>)
    requires
        is_verbatim(p, base),
        prefix_len(p, rel) == 0,
    ensures
        is_verbatim(p, join(p, base, rel)),
{
    let k = prefix_len(p, base);
    let s = join(p, base, rel);
    lemma_prefix_len(p, base);
    if rel.len() > 0 {
        assert(s.take(k) =~= base.take(k));
        assert forall|i: int| 0 <= i < 4 implies s[i] == base[i] by {
            assert(s[i] == s.take(k)[i]);
            assert(base[i] == base.take(k)[i]);
        }
    }
}

/// What is seen from an absolute path is absolute, unless it names a drive
/// without a root of its own.
pub proof fn join_is_absolute(p: Platform, base: Seq<char>, rel: Seq<char>)
    requires
        is_absolute(p, base),
        is_absolute(p, rel) || prefix_len(p, rel) == 0,
    ensures
        is_absolute(p, join(p, base, rel)),
{
    let k = prefix_len(p, base);
    let s = join(p, base, rel);
    lemma_prefix_len(p, base);
    lemma_prefix_len(p, s);
    if is_absolute(p, rel) {
    } else if is_verbatim(p, base) {
        verbatim_stays(p, base, rel);
    } else if names_device(p, base) {
        assert(names_device(p, s));
        lemma_device_absolute(p, s);
    } else {
        assert(is_firm(p, base));
        lemma_prefix_end(p, base);
        assert(s.take(k) =~= base.take(k));
        lemma_same_prefix(p, base, s);
    }
}

proof fn lemma_device_absolute(p: Platform, s: Seq<char>)
    requires
        names_device(p, s),
    ensures
        is_absolute(p, s),
{
    reveal(prefix_len);
    lemma_next_sep(p, s, 4);
}

/// What is seen from an absolute path by a plain name lies below the path, and
/// is what is left of it there.
pub proof fn joined_name_is_below(p: Platform, base: Seq<char>, name: Seq<char>)
    requires
        is_firm(p, base),
        is_plain_name(p, name),
    ensures
        is_under(p, join(p, base, name), base),
        below(p, join(p, base, name), base) == Some(name),
{
    let s = join(p, base, name);
    let b = respelled(p, base);
    lemma_respelled(p, base);
    lemma_join_extends(p, base, name);
    lemma_grown(p, b, name, s);
    lemma_prefix_len(p, b);
    assert(components(p, base) =~= components(p, s).subrange(0, components(p, base).len() as int));
    assert(names(p, b).len() == runs(p, b).len());
    assert(names(p, base).len() == runs(p, base).len());
    assert(head_parts(p, s).len() > 1 || prefix_len(p, s) == 0);
    assert(s.subrange(s.len() - name.len(), s.len() as int) =~= s.skip(s.len() - name.len()));
}

proof fn lemma_runs_last(p: Platform, s: Seq<char>, i: int, j: int)
    requires
        i <= j,
        runs_from(p, s, j).len() > 0,
    ensures
        runs_from(p, s, i).len() > 0,
        runs_from(p, s, i).last() == runs_from(p, s, j).last(),
    decreases j - i,
{
    if i < j {
        lemma_runs_last(p, s, i + 1, j);
    }
}

proof fn lemma_next_sep_inside(p: Platform, s: Seq<char>, a: int, i: int)
    requires
        0 <= a <= i < next_sep(p, s, a),
    ensures
        next_sep(p, s, i) == next_sep(p, s, a),
    decreases i - a,
{
    if a < i {
        lemma_next_sep(p, s, a);
        lemma_next_sep_inside(p, s, a + 1, i);
    }
}

/// A path that is cut behind its last component has the same components.
proof fn lemma_cut_runs(p: Platform, s: Seq<char>, t: Seq<char>, i: int)
    requires
        is_firm(p, s),
        runs(p, s).len() > 0,
        t == s.take(runs(p, s).last().1),
        prefix_len(p, s) <= i <= runs(p, s).last().1,
        prefix_len(p, t) == prefix_len(p, s),
        is_verbatim(p, t) == is_verbatim(p, s),
        has_root_sep(p, s),
        has_root_sep(p, t),
    ensures
        runs_from(p, t, i) == runs_from(p, s, i),
    decreases runs(p, s).last().1 - i,
{
    let at = prefix_len(p, s);
    let n = runs(p, s).len();
    let (a, x) = runs(p, s).last();
    lemma_prefix_len(p, s);
    lemma_run_bounds(p, s, at, n - 1);
    lemma_run_is(p, s, at, n - 1);
    if i == x {
        if runs_from(p, s, x).len() > 0 {
            lemma_runs_last(p, s, at, x);
            lemma_runs_from_ge(p, s, x, runs_from(p, s, x).len() - 1);
        }
        assert(runs_from(p, t, x) =~= Seq::empty());
        assert(runs_from(p, s, x) =~= Seq::empty());
    } else {
        lemma_cut_runs(p, s, t, i + 1);
        if body_at(p, s) <= i {
            let e = next_sep(p, s, i);
            lemma_next_sep(p, s, i);
            assert(e <= x) by {
                if i >= a {
                    lemma_next_sep_inside(p, s, a, i);
                } else {
                    lemma_sep_found(p, s, i, a - 1);
                }
            }
            lemma_next_sep_agree(p, s, t, i);
            assert(starts_component(p, t, i) == starts_component(p, s, i));
        }
    }
}

proof fn lemma_cut(p: Platform, s: Seq<char>)
    requires
        is_base(p, s),
        runs(p, s).len() > 0,
    ensures
        ({
            let t = s.take(runs(p, s).last().1);
            &&& is_firm(p, t)
            &&& components(p, t) == components(p, s)
        }),
{
    let k = prefix_len(p, s);
    let r = runs(p, s);
    let x = r.last().1;
    let t = s.take(x);
    lemma_prefix_len(p, s);
    lemma_run_bounds(p, s, k, r.len() - 1);
    lemma_run_behind_head(p, s, r.len() - 1);
    assert(has_root_sep(p, s));
    assert(t.take(k) =~= s.take(k));
    lemma_same_prefix(p, s, t);
    lemma_cut_runs(p, s, t, k);
    assert forall|j: int| 0 <= j < r.len() implies #[trigger] names(p, t)[j] == names(p, s)[j] by {
        lemma_run_bounds(p, s, k, j);
        lemma_run_order(p, s, k, j, r.len() - 1);
        assert(t.subrange(r[j].0, r[j].1) =~= s.subrange(r[j].0, r[j].1));
    }
    assert(names(p, t) =~= names(p, s));
    assert(head_parts(p, t) =~= head_parts(p, s));
}

/// Without its last component, a path made by a component is the path that it was
/// made from.
proof fn lemma_parent_of_grown(p: Platform, b: Seq<char>, x: Seq<char>, s: Seq<char>)
    requires
        extends(p, b, x, s),
    ensures
        parent(p, s) is Some,
        is_firm(p, parent(p, s)->0),
        components(p, parent(p, s)->0) == components(p, b),
{
    let k = prefix_len(p, b);
    let r = runs(p, b);
    lemma_prefix_len(p, b);
    lemma_grown_start(p, b, x, s);
    lemma_grown(p, b, x, s);
    assert(runs(p, s).len() == r.len() + 1);
    if r.len() == 0 {
        let t = s.take(k + 1);
        assert(parent(p, s) == Some(t));
        assert(t.take(k) =~= b.take(k));
        lemma_bare_root(p, b, t);
        assert(names(p, t) =~= names(p, b));
    } else {
        let end = r.last().1;
        lemma_run_bounds(p, b, k, r.len() - 1);
        assert(runs(p, s)[r.len() - 1] == r.last());
        assert(s.take(end) =~= b.take(end));
        lemma_cut(p, b);
    }
}

/// With its name replaced, a path stays where it was: it has the components of
/// the directory it was made from, then the new name.
pub proof fn renamed_path_stays_beside(
    p: Platform,
    base: Seq<char>,
    name: Seq<char>,
    other: Seq<char>,
)
    requires
        is_firm(p, base),
        is_plain_name(p, name),
        is_plain_name(p, other),
    ensures
        components(p, with_name(p, join(p, base, name), other)) == components(p, base).push(other),
        same_path(p, with_name(p, join(p, base, name), other), join(p, base, other)),
        file_name(p, with_name(p, join(p, base, name), other)) == Some(other),
{
    let s = join(p, base, name);
    join_adds_component(p, base, name);
    lemma_respelled(p, base);
    lemma_join_extends(p, base, name);
    lemma_parent_of_grown(p, respelled(p, base), name, s);
    join_adds_component(p, parent(p, s)->0, other);
    join_adds_component(p, base, other);
}

/// Whether the text of a path ends with its last component.
pub open spec fn ends_with_name(p: Platform, s: Seq<char>) -> bool {
    runs(p, s).len() > 0 && runs(p, s).last().1 == s.len()
}

/// Nothing is left of a path below itself, unless it is no more than a drive and
/// `.`.
pub proof fn nothing_below_itself(p: Platform, s: Seq<char>)
    requires
        dot_behind_drive(p, s) ==> runs(p, s).len() > 0,
    ensures
        is_under(p, s, s),
        below(p, s, s) == Some(Seq::<char>::empty()),
{
    let c = components(p, s);
    let r = runs(p, s);
    lemma_prefix_len(p, s);
    assert(c.subrange(0, c.len() as int) =~= c);
    assert(names(p, s).len() == r.len());
    if r.len() > 0 {
        lemma_run_bounds(p, s, prefix_len(p, s), r.len() - 1);
        lemma_run_behind_head(p, s, r.len() - 1);
    }
    assert(below(p, s, s)->0 =~= Seq::<char>::empty());
}

/// A path made by a plain name ends with it.
pub proof fn joined_path_ends_with_name(p: Platform, base: Seq<char>, name: Seq<char>)
    requires
        is_firm(p, base),
        is_plain_name(p, name),
    ensures
        ends_with_name(p, join(p, base, name)),
{
    lemma_join_extends(p, base, name);
    lemma_grown(p, respelled(p, base), name, join(p, base, name));
}

proof fn lemma_below_longer(
    p: Platform,
    root: Seq<char>,
    dir: Seq<char>,
    name: Seq<char>,
    s: Seq<char>,
)
    requires
        s == dir + seq![main_sep(p)] + name,
        runs(p, s) == runs(p, dir).push((s.len() - name.len(), s.len() as int)),
        components(p, s) == components(p, dir).push(name),
        head_parts(p, s).len() == head_parts(p, dir).len(),
        prefix_len(p, s) == prefix_len(p, dir),
        ends_with_name(p, dir),
        is_under(p, dir, root),
        components(p, root).len() < components(p, dir).len(),
        components(p, root).len() >= head_parts(p, dir).len(),
        prefix_len(p, dir) > 0 ==> head_parts(p, dir).len() > 1,
    ensures
        is_under(p, s, root),
        below(p, s, root) == Some(below(p, dir, root)->0 + seq![main_sep(p)] + name),
{
    let k = components(p, root).len() as int;
    let h = head_parts(p, dir).len() as int;
    let r = runs(p, dir);
    assert(names(p, dir).len() == r.len());
    assert(components(p, s).subrange(0, k) =~= components(p, dir).subrange(0, k));
    assert(runs(p, s)[k - h] == r[k - h]);
    lemma_prefix_len(p, dir);
    lemma_run_bounds(p, dir, prefix_len(p, dir), k - h);
    let from = if k == 0 {
        0
    } else {
        r[k - h].0
    };
    assert(below(p, s, root)->0 =~= s.subrange(from, s.len() as int));
    assert(below(p, dir, root)->0 =~= dir.subrange(from, dir.len() as int));
    assert(s.subrange(from, s.len() as int) =~= dir.subrange(from, dir.len() as int) + seq![
        main_sep(p),
    ] + name);
}

/// What is left below a root grows by a separator and the name as a path does. A
/// directory that starts with `\\?\` is spelled as joining spells it.
pub proof fn below_grows_by_name(p: Platform, root: Seq<char>, dir: Seq<char>, name: Seq<char>)
    requires
        is_firm(p, dir),
        dir == respelled(p, dir),
        is_plain_name(p, name),
        ends_with_name(p, dir),
        is_under(p, dir, root),
        components(p, root).len() < components(p, dir).len(),
        components(p, root).len() >= head_parts(p, dir).len(),
    ensures
        is_under(p, join(p, dir, name), root),
        below(p, join(p, dir, name), root) == Some(
            below(p, dir, root)->0 + seq![main_sep(p)] + name,
        ),
{
    let s = join(p, dir, name);
    lemma_respelled(p, dir);
    lemma_join_extends(p, dir, name);
    lemma_grown_behind_name(p, dir, name, s);
    lemma_join_sep(p, dir, name);
    lemma_below_grown(p, root, dir, name, s);
}

/// Behind a name another goes only with a separator between them.
proof fn lemma_grown_behind_name(p: Platform, dir: Seq<char>, name: Seq<char>, s: Seq<char>)
    requires
        extends(p, dir, name, s),
        ends_with_name(p, dir),
    ensures
        s.len() == dir.len() + 1 + name.len(),
{
    let at = prefix_len(p, dir);
    let r = runs(p, dir);
    lemma_prefix_len(p, dir);
    lemma_run_bounds(p, dir, at, r.len() - 1);
    lemma_run_is(p, dir, at, r.len() - 1);
    lemma_no_sep_between(p, dir, r.last().0, dir.len() - 1);
    assert(s[dir.len() - 1] == s.take(dir.len() as int)[dir.len() - 1]);
}

proof fn lemma_below_grown(
    p: Platform,
    root: Seq<char>,
    dir: Seq<char>,
    name: Seq<char>,
    s: Seq<char>,
)
    requires
        extends(p, dir, name, s),
        s.len() == dir.len() + 1 + name.len(),
        s[dir.len() as int] == main_sep(p),
        ends_with_name(p, dir),
        is_under(p, dir, root),
        components(p, root).len() < components(p, dir).len(),
        components(p, root).len() >= head_parts(p, dir).len(),
    ensures
        is_under(p, s, root),
        below(p, s, root) == Some(below(p, dir, root)->0 + seq![main_sep(p)] + name),
{
    lemma_prefix_len(p, dir);
    lemma_grown(p, dir, name, s);
    let whole = s.take(dir.len() as int) + seq![s[dir.len() as int]] + s.skip(dir.len() as int + 1);
    assert(s =~= whole);
    assert(prefix_len(p, dir) > 0 ==> head_parts(p, dir).len() > 1);
    lemma_below_longer(p, root, dir, name, s);
}

/// A name that is put behind a name has the separator of the platform before it.
proof fn lemma_join_sep(p: Platform, dir: Seq<char>, name: Seq<char>)
    requires
        is_firm(p, dir),
        dir == respelled(p, dir),
        is_plain_name(p, name),
        join(p, dir, name).len() == dir.len() + 1 + name.len(),
    ensures
        join(p, dir, name)[dir.len() as int] == main_sep(p),
{
    let s = join(p, dir, name);
    lemma_plain_names(p, name);
    lemma_prefix_len(p, dir);
    if is_verbatim(p, dir) {
        lemma_join_extends(p, dir, name);
    } else {
        assert(s == added(p, dir, name));
    }
}

/// Something is left of a path that lies deeper than a root.
pub proof fn below_is_not_empty(p: Platform, root: Seq<char>, dir: Seq<char>)
    requires
        is_under(p, dir, root),
        components(p, root).len() < components(p, dir).len(),
        components(p, root).len() >= head_parts(p, dir).len(),
    ensures
        below(p, dir, root)->0.len() > 0,
{
    let at = prefix_len(p, dir);
    let k = components(p, root).len() as int;
    let h = head_parts(p, dir).len() as int;
    let r = runs(p, dir);
    lemma_prefix_len(p, dir);
    assert(names(p, dir).len() == r.len());
    lemma_run_bounds(p, dir, at, k - h);
    lemma_run_bounds(p, dir, at, r.len() - 1);
    lemma_run_order(p, dir, at, k - h, r.len() - 1);
}

proof fn lemma_slashed_next_sep(p: Platform, a: Seq<char>, b: Seq<char>, i: int)
    requires
        slashed(p, a) == slashed(p, b),
        !is_verbatim(p, a),
        !is_verbatim(p, b),
        0 <= i,
    ensures
        a.len() == b.len(),
        i < a.len() ==> is_sep(p, a[i]) == is_sep(p, b[i]),
        i < a.len() && !is_sep(p, a[i]) ==> a[i] == b[i],
        next_sep(p, a, i) == next_sep(p, b, i),
    decreases a.len() - i,
{
    assert(slashed(p, a).len() == a.len() && slashed(p, b).len() == b.len());
    if i < a.len() {
        assert(slashed(p, a)[i] == slashed(p, b)[i]);
        if p is Windows {
            assert(slashed(p, a)[i] == if a[i] == '\\' { '/' } else { a[i] });
            assert(slashed(p, b)[i] == if b[i] == '\\' { '/' } else { b[i] });
        }
        lemma_slashed_next_sep(p, a, b, i + 1);
    }
}

proof fn lemma_slashed_head(p: Platform, a: Seq<char>, b: Seq<char>)
    requires
        slashed(p, a) == slashed(p, b),
        !is_verbatim(p, a),
        !is_verbatim(p, b),
    ensures
        prefix_len(p, a) == prefix_len(p, b),
        has_root_sep(p, a) == has_root_sep(p, b),
        head_parts(p, a) == head_parts(p, b),
{
    let n = prefix_len(p, a);
    lemma_prefix_len(p, a);
    lemma_prefix_len(p, b);
    lemma_slashed_next_sep(p, a, b, 0);
    lemma_slashed_next_sep(p, a, b, 1);
    lemma_slashed_next_sep(p, a, b, 2);
    lemma_slashed_next_sep(p, a, b, 3);
    lemma_slashed_next_sep(p, a, b, 4);
    lemma_next_sep(p, a, 2);
    if a.len() >= 2 {
        lemma_slashed_next_sep(p, a, b, next_sep(p, a, 2) + 1);
    }
    assert(prefix_len(p, a) == prefix_len(p, b)) by {
        reveal(prefix_len);
    }
    lemma_slashed_next_sep(p, a, b, n);
    if n > 2 {
        let x = a.take(n);
        let y = b.take(n);
        assert forall|i: int| 0 <= i < n implies #[trigger] replaced(x, '\\', '/')[i] == replaced(
            y,
            '\\',
            '/',
        )[i] by {
            lemma_slashed_next_sep(p, a, b, i);
        }
        assert(replaced(x, '\\', '/') =~= replaced(y, '\\', '/'));
        assert(!is_verbatim(p, x) && !is_verbatim(p, y));
    }
}

proof fn lemma_slashed_runs(p: Platform, a: Seq<char>, b: Seq<char>, i: int)
    requires
        slashed(p, a) == slashed(p, b),
        !is_verbatim(p, a),
        !is_verbatim(p, b),
        prefix_len(p, a) <= i,
    ensures
        runs_from(p, a, i) == runs_from(p, b, i),
    decreases a.len() - i,
{
    lemma_prefix_len(p, a);
    lemma_slashed_head(p, a, b);
    lemma_slashed_next_sep(p, a, b, i);
    if i < a.len() {
        if i > 0 {
            lemma_slashed_next_sep(p, a, b, i - 1);
        }
        assert(starts_component(p, a, i) == starts_component(p, b, i));
        lemma_slashed_runs(p, a, b, i + 1);
    }
}

/// Which of its separators a path is written with does not matter, unless it
/// starts with `\\?\`.
pub proof fn separators_are_alike(p: Platform, a: Seq<char>, b: Seq<char>)
    requires
        slashed(p, a) == slashed(p, b),
        !is_verbatim(p, a),
        !is_verbatim(p, b),
    ensures
        same_path(p, a, b),
        names(p, a) == names(p, b),
        prefix_len(p, a) == prefix_len(p, b),
        is_relative(p, a) == is_relative(p, b),
{
    let at = prefix_len(p, a);
    lemma_prefix_len(p, a);
    lemma_slashed_head(p, a, b);
    lemma_slashed_runs(p, a, b, at);
    let r = runs(p, a);
    assert forall|k: int| 0 <= k < r.len() implies #[trigger] names(p, a)[k] == names(p, b)[k] by {
        lemma_run_bounds(p, a, at, k);
        lemma_run_is(p, a, at, k);
        let (from, to) = r[k];
        assert forall|i: int| from <= i < to implies a[i] == b[i] by {
            lemma_no_sep_between(p, a, from, i);
            lemma_slashed_next_sep(p, a, b, i);
        }
        lemma_slashed_next_sep(p, a, b, 0);
        assert(a.subrange(from, to) =~= b.subrange(from, to));
    }
    assert(names(p, a) =~= names(p, b));
}

/// The texts of the components at or after `i`.
spec fn names_from(p: Platform, s: Seq<char>, i: int) -> Seq<Seq<char>> {
    runs_from(p, s, i).map_values(|r: (int, int)| s.subrange(r.0, r.1))
}

proof fn lemma_names_from(p: Platform, s: Seq<char>, i: int)
    ensures
        names_from(p, s, i) == if i >= s.len() {
            Seq::empty()
        } else if starts_component(p, s, i) {
            seq![s.subrange(i, next_sep(p, s, i))] + names_from(p, s, i + 1)
        } else {
            names_from(p, s, i + 1)
        },
{
    if i < s.len() && starts_component(p, s, i) {
        assert(names_from(p, s, i) =~= seq![s.subrange(i, next_sep(p, s, i))] + names_from(
            p,
            s,
            i + 1,
        ));
    } else if i >= s.len() {
        assert(names_from(p, s, i) =~= Seq::empty());
    }
}

/// Behind what it is put behind, a text has the components that it has alone, but
/// for a `.` at its start.
proof fn lemma_names_behind(p: Platform, x: Seq<char>, y: Seq<char>, s: Seq<char>, j: int)
    requires
        is_relative(p, y),
        prefix_len(p, s) == 0,
        !is_verbatim(p, s),
        !is_verbatim(p, y),
        body_at(p, s) <= x.len(),
        x.len() > 0,
        is_sep(p, x.last()),
        s == x + y,
        0 <= j <= y.len(),
    ensures
        next_sep(p, s, x.len() + j) == x.len() + next_sep(p, y, j),
        j > 0 ==> names_from(p, s, x.len() + j) == names_from(p, y, j),
    decreases y.len() - j,
{
    let m = x.len() as int;
    lemma_names_from(p, s, m + j);
    lemma_names_from(p, y, j);
    if j < y.len() {
        lemma_names_behind(p, x, y, s, j + 1);
        assert(s[m + j] == y[j]);
        if j > 0 {
            assert(s[m + j - 1] == y[j - 1]);
            lemma_next_sep(p, y, j);
            assert(s.subrange(m + j, m + next_sep(p, y, j)) =~= y.subrange(j, next_sep(p, y, j)));
        }
    }
}

/// The components of a path without prefix that are behind a separator and those
/// of what stands there.
proof fn lemma_names_at_join(p: Platform, x: Seq<char>, y: Seq<char>, s: Seq<char>)
    requires
        is_relative(p, y),
        prefix_len(p, s) == 0,
        !is_verbatim(p, s),
        !is_verbatim(p, y),
        body_at(p, s) <= x.len(),
        x.len() > 0,
        is_sep(p, x.last()),
        s == x + y,
    ensures
        names_from(p, s, x.len() as int) == without_dot(p, y),
{
    let m = x.len() as int;
    lemma_names_from(p, s, m);
    lemma_names_from(p, y, 0);
    lemma_names_behind(p, x, y, s, 0);
    if y.len() > 0 {
        lemma_names_behind(p, x, y, s, 1);
        lemma_next_sep(p, y, 0);
        assert(s[m] == y[0]);
        assert(s[m - 1] == x.last());
        assert(s.subrange(m, m + next_sep(p, y, 0)) =~= y.subrange(0, next_sep(p, y, 0)));
        assert(names_from(p, y, 0) == names(p, y));
        if starts_component(p, y, 0) {
            assert(names_from(p, y, 0).skip(1) =~= names_from(p, y, 1));
        }
    } else {
        assert(names_from(p, y, 0) == names(p, y));
    }
}

/// The components of a relative path, but for a `.` at its start.
spec fn without_dot(p: Platform, y: Seq<char>) -> Seq<Seq<char>> {
    if y.len() > 0 && y[0] == '.' && next_sep(p, y, 0) == 1 {
        names(p, y).skip(1)
    } else {
        names(p, y)
    }
}

proof fn lemma_names_before(p: Platform, x: Seq<char>, s: Seq<char>, i: int)
    requires
        prefix_len(p, x) == 0,
        prefix_len(p, s) == 0,
        !is_verbatim(p, x),
        !is_verbatim(p, s),
        0 <= i <= x.len() < s.len(),
        s.take(x.len() as int) == x,
        x.len() > 0,
        is_sep(p, s[x.len() as int]),
    ensures
        names_from(p, s, i) == names_from(p, x, i) + names_from(p, s, x.len() as int),
    decreases x.len() - i,
{
    lemma_names_from(p, s, i);
    lemma_names_from(p, x, i);
    if i < x.len() {
        lemma_names_before(p, x, s, i + 1);
        let e = next_sep(p, x, i);
        lemma_next_sep(p, x, i);
        assert forall|k: int| 0 <= k < x.len() implies x[k] == s[k] by {
            assert(s[k] == s.take(x.len() as int)[k]);
        }
        lemma_next_sep_agree(p, x, s, i);
        assert(body_at(p, s) == body_at(p, x));
        assert(starts_component(p, s, i) == starts_component(p, x, i));
        assert(s.subrange(i, e) =~= x.subrange(i, e));
        let here = if starts_component(p, x, i) {
            seq![x.subrange(i, e)]
        } else {
            Seq::empty()
        };
        assert(names_from(p, s, i) =~= here + names_from(p, s, i + 1));
        assert(names_from(p, x, i) =~= here + names_from(p, x, i + 1));
        assert(here + (names_from(p, x, i + 1) + names_from(p, s, x.len() as int)) =~= here
            + names_from(p, x, i + 1) + names_from(p, s, x.len() as int));
    } else {
        assert(names_from(p, s, i) =~= Seq::empty() + names_from(p, s, i));
    }
}

/// The components of a path and of a relative one behind it, but for a `.` at the
/// start of that.
proof fn lemma_names_in_turn(p: Platform, x: Seq<char>, y: Seq<char>)
    requires
        x.len() > 0,
        prefix_len(p, x) == 0,
        is_relative(p, y),
        prefix_len(p, x + seq!['/'] + y) == 0,
        !is_verbatim(p, x),
        !is_verbatim(p, y),
        !is_verbatim(p, x + seq!['/'] + y),
    ensures
        names(p, x + seq!['/'] + y) == names(p, x) + without_dot(p, y),
{
    let head = x + seq!['/'];
    let s = head + y;
    let m = x.len() as int;
    assert(s.take(m) =~= x);
    assert(s[m] == '/');
    lemma_names_before(p, x, s, 0);
    lemma_names_from(p, s, m);
    assert(s[0] == x[0]);
    lemma_names_at_join(p, head, y, s);
    assert(names_from(p, s, 0) == names(p, s));
    assert(names_from(p, x, 0) == names(p, x));
}

/// With one separator more behind one, a path keeps its prefix, if that ends before
/// them.
proof fn lemma_sep_more_head(p: Platform, x: Seq<char>, y: Seq<char>)
    requires
        x.len() > if p is Windows { 1nat } else { 0 },
        is_sep(p, x.last()),
        is_relative(p, y),
        !is_verbatim(p, x + y),
        !is_verbatim(p, x + seq!['/'] + y),
        prefix_len(p, x + y) < x.len(),
    ensures
        prefix_len(p, x + seq!['/'] + y) == prefix_len(p, x + y),
        head_parts(p, x + seq!['/'] + y) == head_parts(p, x + y),
        body_at(p, x + seq!['/'] + y) == body_at(p, x + y),
        body_at(p, x + y) <= x.len(),
{
    let s = x + y;
    let t = x + seq!['/'] + y;
    let m = x.len() as int;
    let k = prefix_len(p, s);
    lemma_prefix_len(p, s);
    lemma_prefix_len(p, t);
    lemma_prefix_len(p, y);
    assert forall|i: int| 0 <= i < m implies s[i] == x[i] && t[i] == x[i] by {}
    assert(t[m] == '/');
    assert(y.len() > 0 ==> s[m] == y[0] && !is_sep(p, y[0]));
    assert(prefix_len(p, t) == k) by {
        reveal(prefix_len);
        if p is Windows {
            lemma_sep_more_next(p, x, y, 2);
            lemma_sep_more_next(p, x, y, 4);
            lemma_next_sep(p, s, 2);
            lemma_next_sep(p, t, 2);
            lemma_next_sep(p, s, m);
            let server = next_sep(p, s, 2);
            lemma_sep_more_next(p, x, y, server + 1);
            lemma_next_sep(p, s, server + 1);
        }
    }
    assert(s.take(k) =~= t.take(k));
}

/// Up to where one separator more stands, the next separators are the same.
proof fn lemma_sep_more_next(p: Platform, x: Seq<char>, y: Seq<char>, i: int)
    requires
        x.len() > 0,
        is_sep(p, x.last()),
        !is_verbatim(p, x + y),
        !is_verbatim(p, x + seq!['/'] + y),
        0 <= i,
    ensures
        i < x.len() ==> next_sep(p, x + seq!['/'] + y, i) == next_sep(p, x + y, i) < x.len(),
        i >= x.len() ==> next_sep(p, x + seq!['/'] + y, i + 1) == next_sep(p, x + y, i) + 1,
    decreases x.len() + y.len() - i,
{
    let s = x + y;
    let t = x + seq!['/'] + y;
    let m = x.len() as int;
    if i < m {
        assert(s[i] == x[i] && t[i] == x[i]);
    } else if i < s.len() {
        assert(t[i + 1] == s[i]);
    }
    if i < s.len() {
        lemma_sep_more_next(p, x, y, i + 1);
    }
}

proof fn lemma_sep_more_names(p: Platform, x: Seq<char>, y: Seq<char>, i: int)
    requires
        x.len() > if p is Windows { 1nat } else { 0 },
        is_sep(p, x.last()),
        is_relative(p, y),
        !is_verbatim(p, x + y),
        !is_verbatim(p, x + seq!['/'] + y),
        prefix_len(p, x + y) < x.len(),
        0 <= i <= x.len() + y.len(),
    ensures
        i < x.len() ==> names_from(p, x + seq!['/'] + y, i) == names_from(p, x + y, i),
        i >= x.len() ==> names_from(p, x + seq!['/'] + y, i + 1) == names_from(p, x + y, i),
    decreases x.len() + y.len() - i,
{
    let s = x + y;
    let t = x + seq!['/'] + y;
    let m = x.len() as int;
    let j = if i < m {
        i
    } else {
        i + 1
    };
    lemma_names_from(p, s, i);
    lemma_names_from(p, t, j);
    if i < s.len() {
        lemma_prefix_len(p, s);
        lemma_sep_more_head(p, x, y);
        lemma_sep_more_names(p, x, y, i + 1);
        lemma_sep_more_next(p, x, y, i);
        lemma_next_sep(p, s, i);
        assert(t[m] == '/');
        assert(s[m - 1] == x.last() && t[m - 1] == x.last());
        let e = next_sep(p, s, i);
        if i < m {
            assert(t[i] == s[i]);
            if i > 0 {
                assert(t[i - 1] == s[i - 1]);
            }
            lemma_names_from(p, t, m);
            assert(t.subrange(i, e) =~= s.subrange(i, e));
        } else {
            assert(t[i + 1] == s[i]);
            if i > m {
                assert(t[i] == s[i - 1]);
            }
            assert(t.subrange(i + 1, e + 1) =~= s.subrange(i, e));
        }
        assert(starts_component(p, t, j) == starts_component(p, s, i));
    }
}

/// What is seen from a path by a relative one stays the same with a separator more
/// between them. On Windows the path is more than a separator, and what is seen has
/// its prefix before them.
pub proof fn added_separator_is_idle(p: Platform, x: Seq<char>, y: Seq<char>)
    requires
        x.len() > 0,
        is_relative(p, y),
        p is Windows ==> is_sep(p, x.last()) && x.len() > 1 && prefix_len(p, x + y) < x.len()
            && !is_verbatim(p, x + y) && !is_verbatim(p, x + seq!['/'] + y),
    ensures
        same_path(p, added(p, x, y), x + seq!['/'] + y),
{
    lemma_prefix_len(p, x);
    if is_sep(p, x.last()) {
        let s = x + y;
        let t = x + seq!['/'] + y;
        lemma_prefix_len(p, s);
        lemma_sep_more_head(p, x, y);
        lemma_sep_more_names(p, x, y, prefix_len(p, s));
        assert(names_from(p, s, prefix_len(p, s)) == names(p, s));
        assert(names_from(p, t, prefix_len(p, t)) == names(p, t));
    }
}

proof fn lemma_walked_in_turn(at: Seq<Seq<char>>, a: Seq<Seq<char>>, b: Seq<Seq<char>>)
    ensures
        walked(at, a + b) == walked(walked(at, a), b),
    decreases b.len(),
{
    if b.len() == 0 {
        assert(a + b =~= a);
    } else {
        lemma_walked_in_turn(at, a, b.drop_last());
        assert((a + b).drop_last() =~= a + b.drop_last());
        assert((a + b).last() == b.last());
    }
}

proof fn lemma_walked_fits(p: Platform, at: Seq<Seq<char>>, parts: Seq<Seq<char>>)
    requires
        forall|i: int| 0 <= i < at.len() ==> fits(p, true, #[trigger] at[i]),
        forall|i: int| 0 <= i < parts.len() ==> fits(p, true, #[trigger] parts[i]),
    ensures
        forall|i: int|
            0 <= i < walked(at, parts).len() ==> fits(p, true, #[trigger] walked(at, parts)[i]),
    decreases parts.len(),
{
    if parts.len() > 0 {
        let rest = parts.drop_last();
        assert forall|i: int| 0 <= i < rest.len() implies fits(p, true, #[trigger] rest[i]) by {
            assert(rest[i] == parts[i]);
        }
        lemma_walked_fits(p, at, rest);
        assert(fits(p, true, parts[parts.len() - 1]));
        let here = walked(at, rest);
        let end = walked(at, parts);
        assert forall|i: int| 0 <= i < end.len() implies fits(p, true, #[trigger] end[i]) by {
            if i < here.len() {
                assert(fits(p, true, here[i]));
            }
        }
    }
}

/// From a firm path that starts with `\\?\`, what is seen by two relative paths in
/// turn is what is seen by the second behind the first.
pub proof fn verbatim_join_in_turn(p: Platform, base: Seq<char>, x: Seq<char>, y: Seq<char>)
    requires
        is_firm(p, base),
        is_verbatim(p, base),
        x.len() > 0,
        y.len() > 0,
        is_relative(p, x),
        is_relative(p, y),
        is_relative(p, x + seq!['/'] + y),
    ensures
        join(p, base, x + seq!['/'] + y) == join(p, join(p, base, x), y),
        is_verbatim(p, join(p, base, x)),
        is_firm(p, join(p, base, x)),
{
    let top = walked(names(p, base), names(p, x));
    let s = x + seq!['/'] + y;
    lemma_prefix_len(p, base);
    lemma_prefix_len(p, x);
    lemma_prefix_len(p, y);
    lemma_prefix_len(p, s);
    assert forall|i: int| 0 <= i < names(p, base).len() implies fits(
        p,
        true,
        #[trigger] names(p, base)[i],
    ) by {
        lemma_names_fit(p, base, i);
    }
    assert forall|i: int| 0 <= i < names(p, x).len() implies fits(
        p,
        true,
        #[trigger] names(p, x)[i],
    ) by {
        lemma_names_fit(p, x, i);
    }
    lemma_walked_fits(p, names(p, base), names(p, x));
    lemma_written(p, base, top);
    lemma_names_in_turn(p, x, y);
    if y[0] == '.' && next_sep(p, y, 0) == 1 {
        let rest = names(p, y).skip(1);
        let dot = seq![seq!['.']];
        lemma_names_from(p, y, 0);
        assert(names_from(p, y, 0) == names(p, y));
        assert(y.subrange(0, 1) =~= seq!['.']);
        assert(names(p, y) =~= dot + rest);
        lemma_walked_in_turn(names(p, base), names(p, x), rest);
        lemma_walked_in_turn(top, dot, rest);
        assert(dot.drop_last() =~= Seq::empty());
        assert(walked(top, dot.drop_last()) == top);
        assert(walked(top, dot) == top);
    } else {
        lemma_walked_in_turn(names(p, base), names(p, x), names(p, y));
    }
}

/// Which separators are written in it does not matter to what is seen by a
/// relative path from one that starts with `\\?\`.
pub proof fn verbatim_join_of_slashed(p: Platform, base: Seq<char>, a: Seq<char>, b: Seq<char>)
    requires
        is_verbatim(p, base),
        slashed(p, a) == slashed(p, b),
        is_relative(p, a),
        !is_verbatim(p, b),
    ensures
        is_relative(p, b),
        a.len() > 0 ==> join(p, base, a) == join(p, base, b),
{
    lemma_prefix_len(p, a);
    lemma_slashed_next_sep(p, a, b, 0);
    separators_are_alike(p, a, b);
}

/// The components of a path are not empty and hold no separator. On Unix those of an
/// absolute one are plain names or `..`.
pub proof fn names_hold_no_separator(p: Platform, s: Seq<char>, k: int)
    requires
        0 <= k < names(p, s).len(),
    ensures
        names(p, s)[k].len() > 0,
        !is_verbatim(p, s) ==> forall|i: int|
            0 <= i < names(p, s)[k].len() ==> !is_sep(p, #[trigger] names(p, s)[k][i]),
        !(p is Windows) && is_absolute(p, s) ==> names(p, s)[k] == seq!['.', '.'] || is_plain_name(
            p,
            names(p, s)[k],
        ),
{
    lemma_names_fit(p, s, k);
    let name = names(p, s)[k];
    assert(!is_verbatim(p, s) ==> forall|i: int|
        0 <= i < name.len() ==> !is_sep(p, #[trigger] name[i])) by {
        if !is_verbatim(p, s) {
            assert forall|i: int| 0 <= i < name.len() implies !is_sep(p, #[trigger] name[i]) by {
                assert(!splits(p, false, names(p, s)[k][i]));
            }
        }
    }
    if !(p is Windows) && is_absolute(p, s) {
        let at = prefix_len(p, s);
        let (a, b) = runs(p, s)[k];
        lemma_prefix_len(p, s);
        lemma_prefix_len(p, name);
        lemma_run_bounds(p, s, at, k);
        lemma_run_is(p, s, at, k);
        if name == seq!['.'] {
            assert(name[0] == s[a]);
            assert(name.len() == b - a);
        }
    }
}

/// On Unix an absolute path is `/` and its components with `/` between them.
pub proof fn names_spell_path(p: Platform, s: Seq<char>)
    requires
        !(p is Windows),
        is_absolute(p, s),
        !names(p, s).contains(seq!['.', '.']),
    ensures
        same_path(p, seq!['/'] + joined(names(p, s), seq!['/']), s),
{
    let all = names(p, s);
    assert forall|k: int| 0 <= k < all.len() implies is_plain_name(p, #[trigger] all[k]) by {
        names_hold_no_separator(p, s, k);
        assert(all.contains(all[k]));
    }
    lemma_spelled(p, all);
    lemma_prefix_len(p, s);
    assert(head_parts(p, s) =~= seq![seq!['/']]);
}

proof fn lemma_spelled(p: Platform, parts: Seq<Seq<char>>)
    requires
        !(p is Windows),
        forall|k: int| 0 <= k < parts.len() ==> is_plain_name(p, #[trigger] parts[k]),
    ensures
        is_firm(p, seq!['/'] + joined(parts, seq!['/'])),
        components(p, seq!['/'] + joined(parts, seq!['/'])) == seq![seq!['/']] + parts,
    decreases parts.len(),
{
    let t = seq!['/'] + joined(parts, seq!['/']);
    reveal(prefix_len);
    if parts.len() == 0 {
        assert(t =~= seq!['/']);
        assert(!starts_component(p, t, 0));
        assert(runs_from(p, t, 1) =~= Seq::empty());
        assert(runs(p, t) =~= Seq::empty());
        assert(names(p, t) =~= Seq::empty());
        assert(components(p, t) =~= seq![seq!['/']] + parts);
    } else {
        let rest = parts.drop_last();
        let last = parts.last();
        assert(is_plain_name(p, parts[parts.len() - 1]));
        assert forall|k: int| 0 <= k < rest.len() implies is_plain_name(p, #[trigger] rest[k]) by {
            assert(rest[k] == parts[k]);
        }
        lemma_spelled(p, rest);
        let u = seq!['/'] + joined(rest, seq!['/']);
        join_adds_component(p, u, last);
        lemma_plain_names(p, last);
        if rest.len() == 0 {
            assert(u =~= seq!['/']);
            assert(t =~= u + last);
        } else {
            assert(t =~= u + seq!['/'] + last);
            lemma_joined_end(p, rest);
        }
        assert(join(p, u, last) == t);
        assert((seq![seq!['/']] + rest).push(last) =~= seq![seq!['/']] + parts);
    }
}

proof fn lemma_joined_end(p: Platform, parts: Seq<Seq<char>>)
    requires
        parts.len() > 0,
        forall|k: int| 0 <= k < parts.len() ==> is_plain_name(p, #[trigger] parts[k]),
    ensures
        joined(parts, seq!['/']).len() > 0,
        !is_sep(p, joined(parts, seq!['/']).last()),
{
    let last = parts[parts.len() - 1];
    assert(is_plain_name(p, last));
    assert(!is_sep(p, last[last.len() - 1]));
    assert(joined(parts, seq!['/']).last() == last.last());
}

/// Each component stands in the path as it is.
pub proof fn name_is_part_of_path(p: Platform, s: Seq<char>, k: int)
    requires
        0 <= k < names(p, s).len(),
    ensures
        forall|i: int| 0 <= i < names(p, s)[k].len() ==> s.contains(#[trigger] names(p, s)[k][i]),
{
    let (a, b) = runs(p, s)[k];
    lemma_prefix_len(p, s);
    lemma_run_bounds(p, s, prefix_len(p, s), k);
    assert forall|i: int| 0 <= i < names(p, s)[k].len() implies s.contains(
        #[trigger] names(p, s)[k][i],
    ) by {
        assert(names(p, s)[k][i] == s[a + i]);
    }
}

/// The directory of what a name is put behind is what it was put behind.
pub proof fn parent_of_joined_is_dir(p: Platform, dir: Seq<char>, name: Seq<char>)
    requires
        is_firm(p, dir),
        is_plain_name(p, name),
    ensures
        parent(p, join(p, dir, name)) matches Some(d) && same_path(p, d, dir),
{
    lemma_respelled(p, dir);
    lemma_join_extends(p, dir, name);
    lemma_parent_of_grown(p, respelled(p, dir), name, join(p, dir, name));
}

/// On Unix a path is absolute where it starts with `/`. From any other it is put behind
/// what it is seen from, with one `/` between them; an absolute one replaces it.
pub proof fn joining_on_unix(p: Platform, base: Seq<char>, rel: Seq<char>)
    requires
        !(p is Windows),
    ensures
        is_absolute(p, rel) <==> rel.len() > 0 && rel[0] == '/',
        is_absolute(p, rel) ==> join(p, base, rel) == rel,
        !is_absolute(p, rel) && base.len() > 0 && base.last() != '/' ==> join(p, base, rel) == base
            + seq!['/'] + rel,
        !is_absolute(p, rel) && (base.len() == 0 || base.last() == '/') ==> join(p, base, rel)
            == base + rel,
{
    reveal(prefix_len);
}

/// On Windows a drive with a separator behind it starts an absolute path; a drive
/// alone does not, nor does a single separator.
pub proof fn absolute_on_windows(drive: char, rest: Seq<char>)
    requires
        'a' <= drive <= 'z' || 'A' <= drive <= 'Z',
        rest.len() > 0 ==> rest[0] != '/' && rest[0] != '\\',
    ensures
        is_absolute(Platform::Windows, seq![drive, ':', '\\'] + rest),
        is_absolute(Platform::Windows, seq![drive, ':', '/'] + rest),
        !is_absolute(Platform::Windows, seq![drive, ':'] + rest),
        !is_absolute(Platform::Windows, seq!['\\'] + rest),
        !is_absolute(Platform::Windows, seq!['/'] + rest),
{
    reveal(prefix_len);
    let p = Platform::Windows;
    let a = seq![drive, ':', '\\'] + rest;
    let b = seq![drive, ':', '/'] + rest;
    let c = seq![drive, ':'] + rest;
    let d = seq!['\\'] + rest;
    let e = seq!['/'] + rest;
    assert(a[0] == drive && a[1] == ':' && a[2] == '\\');
    assert(b[0] == drive && b[1] == ':' && b[2] == '/');
    assert(c[0] == drive && c[1] == ':');
    assert(rest.len() > 0 ==> c[2] == rest[0] && d[1] == rest[0] && e[1] == rest[0]);
    assert(d[0] == '\\' && e[0] == '/');
    assert(prefix_len(p, a) == 2 && prefix_len(p, b) == 2 && prefix_len(p, c) == 2);
    assert(prefix_len(p, d) == 0 && prefix_len(p, e) == 0);
}

/// What a name is put behind contains what comes of it, with all that contains it; what
/// has another name in the same directory does not.
pub proof fn child_lies_under_its_directory(
    p: Platform,
    dir: Seq<char>,
    name: Seq<char>,
    other: Seq<char>,
    root: Seq<char>,
)
    requires
        is_firm(p, dir),
        is_plain_name(p, name),
        is_plain_name(p, other),
    ensures
        is_under(p, dir, dir),
        is_under(p, join(p, dir, name), dir),
        !is_under(p, dir, join(p, dir, name)),
        is_under(p, dir, root) ==> is_under(p, join(p, dir, name), root),
        name != other ==> !is_under(p, join(p, dir, name), join(p, dir, other)),
{
    join_adds_component(p, dir, name);
    join_adds_component(p, dir, other);
    let all = components(p, dir);
    assert(all.is_prefix_of(all.push(name)));
    if is_under(p, dir, root) {
        let top = components(p, root);
        assert(top =~= all.push(name).take(top.len() as int)) by {
            assert(top =~= all.take(top.len() as int));
        }
    }
    if name != other {
        assert(all.push(name)[all.len() as int] == name);
        assert(all.push(other)[all.len() as int] == other);
    }
}

/// The names at or behind `i` are the same in two paths that are the same from there on.
proof fn lemma_names_alike(p: Platform, a: Seq<char>, b: Seq<char>, from: int, i: int)
    requires
        a.len() == b.len(),
        0 <= from <= i,
        forall|k: int| from <= k < a.len() ==> a[k] == b[k],
        is_verbatim(p, a) == is_verbatim(p, b),
        prefix_len(p, a) == prefix_len(p, b) == from,
        from > 0,
    ensures
        runs_from(p, a, i) == runs_from(p, b, i),
    decreases a.len() - i,
{
    if i < a.len() {
        lemma_names_alike(p, a, b, from, i + 1);
        lemma_next_sep(p, a, i);
        lemma_next_sep_agree(p, a, b, i);
        assert(sep_at(p, a, i) == sep_at(p, b, i));
        if i > from {
            assert(sep_at(p, a, i - 1) == sep_at(p, b, i - 1));
        }
        assert(body_at(p, a) == body_at(p, b));
        assert(starts_component(p, a, i) == starts_component(p, b, i));
    }
}

/// A drive is the same in lower and in upper case, with all that lies on it.
pub proof fn drive_goes_by_either_case(lower: char, capital: char, rest: Seq<char>)
    requires
        'a' <= lower <= 'z',
        capital as u32 + 32 == lower as u32,
    ensures
        same_path(Platform::Windows, seq![lower, ':'] + rest, seq![capital, ':'] + rest),
{
    reveal(prefix_len);
    let p = Platform::Windows;
    let a = seq![lower, ':'] + rest;
    let b = seq![capital, ':'] + rest;
    assert(a[0] == lower && a[1] == ':' && b[0] == capital && b[1] == ':');
    assert forall|k: int| 2 <= k < a.len() implies a[k] == b[k] by {
        assert(a[k] == rest[k - 2] && b[k] == rest[k - 2]);
    }
    assert(prefix_len(p, a) == 2 && prefix_len(p, b) == 2);
    lemma_names_alike(p, a, b, 2, 2);
    assert forall|k: int| 0 <= k < names(p, a).len() implies names(p, a)[k] == names(p, b)[k] by {
        lemma_run_bounds(p, a, 2, k);
        lemma_runs_from_ge(p, a, 2, k);
        let r = runs(p, a)[k];
        assert(a.subrange(r.0, r.1) =~= b.subrange(r.0, r.1));
    }
    assert(names(p, a) =~= names(p, b));
    assert(a.take(2) =~= seq![lower, ':']);
    assert(b.take(2) =~= seq![capital, ':']);
    assert(head_parts(p, a) =~= head_parts(p, b));
}

/// Another drive is another path.
pub proof fn drives_are_told_apart(a: char, b: char, x: Seq<char>, y: Seq<char>)
    requires
        'A' <= a <= 'Z',
        'A' <= b <= 'Z',
        a != b,
    ensures
        !same_path(Platform::Windows, seq![a, ':'] + x, seq![b, ':'] + y),
{
    reveal(prefix_len);
    let p = Platform::Windows;
    let s = seq![a, ':'] + x;
    let t = seq![b, ':'] + y;
    assert(s[0] == a && s[1] == ':' && t[0] == b && t[1] == ':');
    assert(prefix_len(p, s) == 2 && prefix_len(p, t) == 2);
    assert(s.take(2) =~= seq![a, ':']);
    assert(t.take(2) =~= seq![b, ':']);
    assert(components(p, s)[0] == seq![a, ':']);
    assert(components(p, t)[0] == seq![b, ':']);
    assert(seq![a, ':'][0] != seq![b, ':'][0]);
}

/// On Windows what starts with `\\?\` or `\\.\` is absolute, and so is a share of a server.
pub proof fn devices_and_shares_are_absolute(
    rest: Seq<char>,
    server: Seq<char>,
    share: Seq<char>,
)
    requires
        is_plain_name(Platform::Windows, server),
        is_plain_name(Platform::Windows, share),
        server != seq!['?'],
    ensures
        is_absolute(Platform::Windows, seq!['\\', '\\', '?', '\\'] + rest),
        is_absolute(Platform::Windows, seq!['\\', '\\', '.', '\\'] + rest),
        is_absolute(Platform::Windows, seq!['\\', '\\'] + server + seq!['\\'] + share),
        names(Platform::Windows, seq!['\\', '\\'] + server + seq!['\\'] + share).len() == 0,
{
    reveal(prefix_len);
    let p = Platform::Windows;
    let a = seq!['\\', '\\', '?', '\\'] + rest;
    assert(a[0] == '\\' && a[1] == '\\' && a[2] == '?' && a[3] == '\\');
    lemma_next_sep(p, a, 4);
    if a.len() >= 8 {
        lemma_next_sep(p, a, 8);
        lemma_next_sep(p, a, next_sep(p, a, 8) + 1);
    }
    let b = seq!['\\', '\\', '.', '\\'] + rest;
    assert(b[0] == '\\' && b[1] == '\\' && b[2] == '.' && b[3] == '\\');
    lemma_next_sep(p, b, 4);
    lemma_share(server, share);
}

proof fn lemma_first_sep(p: Platform, s: Seq<char>, from: int, at: int)
    requires
        0 <= from <= at < s.len(),
        sep_at(p, s, at),
        forall|i: int| from <= i < at ==> !#[trigger] sep_at(p, s, i),
    ensures
        next_sep(p, s, from) == at,
    decreases at - from,
{
    if from < at {
        assert(!sep_at(p, s, from));
        lemma_first_sep(p, s, from + 1, at);
    }
}

proof fn lemma_share(server: Seq<char>, share: Seq<char>)
    requires
        is_plain_name(Platform::Windows, server),
        is_plain_name(Platform::Windows, share),
        server != seq!['?'],
    ensures
        ({
            let s = seq!['\\', '\\'] + server + seq!['\\'] + share;
            &&& prefix_len(Platform::Windows, s) == s.len()
            &&& names(Platform::Windows, s).len() == 0
            &&& s.len() > 2
        }),
{
    reveal(prefix_len);
    let p = Platform::Windows;
    let s = seq!['\\', '\\'] + server + seq!['\\'] + share;
    let n = server.len() as int;
    assert(s[0] == '\\' && s[1] == '\\' && s[2] == server[0] && s[2 + n] == '\\');
    assert forall|i: int| 0 <= i < n implies s[2 + i] == server[i] by {}
    assert forall|i: int| 0 <= i < share.len() implies s[3 + n + i] == share[i] by {}
    if n == 1 {
        assert(server =~= seq![server[0]]);
        assert(server != seq!['.']);
    } else {
        assert(s[3] == server[1]);
    }
    assert(!is_sep(p, server[0]));
    assert(n > 1 ==> !is_sep(p, server[1]));
    assert(!is_verbatim(p, s));
    assert(!names_device(p, s));
    assert forall|i: int| 2 <= i < 2 + n implies !#[trigger] sep_at(p, s, i) by {
        assert(s[2 + (i - 2)] == server[i - 2]);
    }
    lemma_first_sep(p, s, 2, 2 + n);
    assert forall|i: int| 3 + n <= i < s.len() implies !#[trigger] sep_at(p, s, i) by {
        assert(s[3 + n + (i - 3 - n)] == share[i - 3 - n]);
    }
    lemma_next_sep_none(p, s, 3 + n);
    assert(prefix_len(p, s) == s.len());
    assert(runs(p, s).len() == 0);
}

/// Behind `\\?\` only a backslash separates: what stands behind the drive is one name,
/// whatever else it holds.
pub proof fn slash_is_part_of_name_on_device(drive: char, name: Seq<char>)
    requires
        'a' <= drive <= 'z' || 'A' <= drive <= 'Z',
        name.len() > 0,
        !name.contains('\\'),
    ensures
        names(Platform::Windows, seq!['\\', '\\', '?', '\\', drive, ':', '\\'] + name) == seq![name],
{
    reveal(prefix_len);
    reveal_with_fuel(runs_from, 2);
    let p = Platform::Windows;
    let s = seq!['\\', '\\', '?', '\\', drive, ':', '\\'] + name;
    assert(s[0] == '\\' && s[1] == '\\' && s[2] == '?' && s[3] == '\\');
    assert(s[4] == drive && s[5] == ':' && s[6] == '\\');
    assert(is_verbatim(p, s));
    assert(!names_share(p, s));
    assert(prefix_len(p, s) == 6);
    assert forall|i: int| 7 <= i < s.len() implies !#[trigger] sep_at(p, s, i) by {
        assert(s[i] == name[i - 7]);
        assert(name.contains(name[i - 7]));
    }
    lemma_next_sep_none(p, s, 7);
    assert(!starts_component(p, s, 6));
    assert(starts_component(p, s, 7));
    lemma_no_runs_behind(p, s, 8);
    assert(runs(p, s) =~= seq![(7int, s.len() as int)]);
    assert(s.subrange(7, s.len() as int) =~= name);
    assert(names(p, s) =~= seq![name]);
}

proof fn lemma_no_runs_behind(p: Platform, s: Seq<char>, i: int)
    requires
        body_at(p, s) < i,
        0 <= body_at(p, s),
        forall|k: int| i - 1 <= k < s.len() ==> !#[trigger] sep_at(p, s, k),
    ensures
        runs_from(p, s, i).len() == 0,
    decreases s.len() - i,
{
    if i < s.len() {
        assert(!sep_at(p, s, i - 1));
        lemma_no_runs_behind(p, s, i + 1);
    }
}

/// Behind `\\?\UNC\` a server and its share are no names.
pub proof fn share_on_device_is_no_name(server: Seq<char>, share: Seq<char>)
    requires
        server.len() > 0,
        share.len() > 0,
        !server.contains('\\'),
        !share.contains('\\'),
    ensures
        ({
            let s = seq!['\\', '\\', '?', '\\', 'U', 'N', 'C', '\\'] + server + seq!['\\'] + share;
            names(Platform::Windows, s).len() == 0
        }),
{
    reveal(prefix_len);
    let p = Platform::Windows;
    let s = seq!['\\', '\\', '?', '\\', 'U', 'N', 'C', '\\'] + server + seq!['\\'] + share;
    let n = server.len() as int;
    assert(s[0] == '\\' && s[1] == '\\' && s[2] == '?' && s[3] == '\\');
    assert(s[4] == 'U' && s[5] == 'N' && s[6] == 'C' && s[7] == '\\');
    assert(s[8 + n] == '\\');
    assert forall|i: int| 8 <= i < 8 + n implies !#[trigger] sep_at(p, s, i) by {
        assert(s[i] == server[i - 8]);
        assert(server.contains(server[i - 8]));
    }
    lemma_first_sep(p, s, 8, 8 + n);
    assert forall|i: int| 9 + n <= i < s.len() implies !#[trigger] sep_at(p, s, i) by {
        assert(s[i] == share[i - 9 - n]);
        assert(share.contains(share[i - 9 - n]));
    }
    lemma_next_sep_none(p, s, 9 + n);
    assert(prefix_len(p, s) == s.len());
}

/// What a name behind a drive lies in is the drive, with the `.` where one stands there.
pub proof fn parent_keeps_dot_behind_drive(drive: char, name: Seq<char>)
    requires
        'a' <= drive <= 'z' || 'A' <= drive <= 'Z',
        is_plain_name(Platform::Windows, name),
    ensures
        parent(Platform::Windows, seq![drive, ':', '.', '\\'] + name) == Some(seq![drive, ':', '.']),
        parent(Platform::Windows, seq![drive, ':'] + name) == Some(seq![drive, ':']),
{
    reveal(prefix_len);
    reveal_with_fuel(runs_from, 4);
    reveal_with_fuel(next_sep, 3);
    let p = Platform::Windows;
    let s = seq![drive, ':', '.', '\\'] + name;
    assert(s[0] == drive && s[1] == ':' && s[2] == '.' && s[3] == '\\' && s[4] == name[0]);
    assert(prefix_len(p, s) == 2);
    assert(!has_root_sep(p, s));
    assert forall|i: int| 4 <= i < s.len() implies !#[trigger] sep_at(p, s, i) by {
        assert(s[i] == name[i - 4]);
    }
    lemma_next_sep_none(p, s, 4);
    if name.len() == 1 {
        assert(name =~= seq![name[0]]);
    }
    assert(sep_at(p, s, 3) && !sep_at(p, s, 2));
    assert(next_sep(p, s, 2) == 3);
    assert(!starts_component(p, s, 2) && !starts_component(p, s, 3));
    assert(starts_component(p, s, 4));
    lemma_no_runs_behind(p, s, 5);
    assert(runs(p, s) =~= seq![(4int, s.len() as int)]);
    assert(s.take(3) =~= seq![drive, ':', '.']);
    let t = seq![drive, ':'] + name;
    assert(t[0] == drive && t[1] == ':' && t[2] == name[0]);
    assert(prefix_len(p, t) == 2);
    assert forall|i: int| 2 <= i < t.len() implies !#[trigger] sep_at(p, t, i) by {
        assert(t[i] == name[i - 2]);
    }
    lemma_next_sep_none(p, t, 2);
    assert(!has_root_sep(p, t)) by {
        assert(!sep_at(p, t, 2));
    }
    assert(starts_component(p, t, 2));
    lemma_no_runs_behind(p, t, 3);
    assert(runs(p, t) =~= seq![(2int, t.len() as int)]);
    assert(t.take(2) =~= seq![drive, ':']);
}

} // verus!
