//! Expansion of user-supplied paths: variables, the home directory and
//! relative paths.

use crate::paths::{is_absolute, join, join_is_absolute, path_is_absolute, path_join, prefix_len};
use crate::platform::Platform;
use crate::text::{
    blank, cat, chars_of, check_alnum, find, find_char, find_char_bounds, is_alnum, is_space, opt_str,
    same, text_range, trim, trimmed, trimming_keeps_core, trimming_undoes_padding,
};
use vstd::prelude::*;
use vstd::string::*;

verus! {

/// What a path is resolved against: what the system says of variables, and the
/// directory the program runs in.
///
/// How a system tells names of variables from each other is its own affair. It is
/// asked for each variable by the name as it is written in a path, and its answer
/// goes in under that name.
#[derive(Debug, Clone)]
pub struct Environment {
    /// The names that the system was asked for, each with the value that it gave.
    pub vars: Vec<(String, String)>,
    pub current_dir: String,
}

/// The contents of an [`Environment`].
#[verifier::ext_equal]
pub struct EnvView {
    pub vars: Seq<(Seq<char>, Seq<char>)>,
    pub current_dir: Seq<char>,
}

impl View for Environment {
    type V = EnvView;

    open spec fn view(&self) -> EnvView {
        EnvView {
            vars: self.vars@.map_values(|v: (String, String)| (v.0@, v.1@)),
            current_dir: self.current_dir@,
        }
    }
}

/// Result of expanding a user-supplied path for a platform.
#[derive(Debug, Clone, PartialEq, Eq)]
pub enum PathState {
    /// The variables are resolved; the path may or may not exist on disk.
    Resolved { path: String },
    /// A variable of this platform is not defined.
    UndefinedVar { var: String },
    /// The syntax belongs to another platform (such as `%APPDATA%` on Linux).
    OtherPlatform { raw: String },
}

/// The contents of a [`PathState`].
#[verifier::ext_equal]
pub enum PathView {
    Resolved { path: Seq<char> },
    UndefinedVar { var: Seq<char> },
    OtherPlatform { raw: Seq<char> },
}

impl View for PathState {
    type V = PathView;

    open spec fn view(&self) -> PathView {
        match self {
            PathState::Resolved { path } => PathView::Resolved { path: path@ },
            PathState::UndefinedVar { var } => PathView::UndefinedVar { var: var@ },
            PathState::OtherPlatform { raw } => PathView::OtherPlatform { raw: raw@ },
        }
    }
}

impl PathState {
    /// The path, where the expansion gave one.
    pub fn resolved_path(&self) -> (r: Option<&String>)
        ensures
            match self@ {
                PathView::Resolved { path } => r is Some && r->0@ == path,
                _ => r is None,
            },
    {
        match self {
            PathState::Resolved { path } => Some(path),
            _ => None,
        }
    }
}

// ---------------------------------------------------------------------------
// Variables
// ---------------------------------------------------------------------------

/// The value of the variable `name`, if it is defined.
pub open spec fn lookup(vars: Seq<(Seq<char>, Seq<char>)>, name: Seq<char>) -> Option<Seq<char>>
    decreases vars.len(),
{
    if vars.len() == 0 {
        None
    } else if vars[0].0 == name {
        Some(vars[0].1)
    } else {
        lookup(vars.skip(1), name)
    }
}

impl Environment {
    /// The value of the variable `name`, if it is defined.
    pub fn var(&self, name: &str) -> (r: Option<&String>)
        ensures
            match lookup(self@.vars, name@) {
                Some(value) => r is Some && r->0@ == value,
                None => r is None,
            },
    {
        let ghost all = self@.vars;
        let mut i: usize = 0;
        assert(all.skip(0) =~= all);
        while i < self.vars.len()
            invariant
                i <= self.vars@.len(),
                all == self@.vars,
                lookup(all, name@) == lookup(all.skip(i as int), name@),
            decreases self.vars@.len() - i,
        {
            assert(all.skip(i as int)[0] == (self.vars@[i as int].0@, self.vars@[i as int].1@));
            if same(self.vars[i].0.as_str(), name) {
                return Some(&self.vars[i].1);
            }
            assert(all.skip(i as int).skip(1) =~= all.skip(i + 1));
            i = i + 1;
        }
        None
    }

    /// Takes in what the system says of a variable that was not defined so far.
    pub fn answer(&mut self, name: String, value: String)
        ensures
            final(self)@ == (EnvView {
                vars: old(self)@.vars.push((name@, value@)),
                ..old(self)@
            }),
    {
        let ghost before = self@.vars;
        self.vars.push((name, value));
        assert(self@.vars =~= before.push((name@, value@)));
    }
}

// ---------------------------------------------------------------------------
// Variable syntax
// ---------------------------------------------------------------------------

/// Whether `s` holds `%NAME%` with a non-empty name at or after `pos`. A lone
/// or doubled `%` is literal.
pub open spec fn windows_var_from(s: Seq<char>, pos: int) -> bool
    decreases s.len() - pos,
{
    let open = find_char(s, '%', pos);
    let close = find_char(s, '%', open + 1);
    if close >= s.len() {
        false
    } else if close == open + 1 {
        proof {
            find_char_bounds(s, '%', pos);
            find_char_bounds(s, '%', open + 1);
        }
        windows_var_from(s, close + 1)
    } else {
        true
    }
}

/// A character of a variable's name behind a `$`.
pub open spec fn is_name_char(c: char) -> bool {
    is_alnum(c) || c == '_'
}

/// Whether `s` starts with `~/`.
pub open spec fn starts_home(s: Seq<char>) -> bool {
    s.len() >= 2 && s[0] == '~' && s[1] == '/'
}

/// Whether a variable of Unix starts at `i`: a `$` before `{`, a letter, a
/// digit or `_`.
pub open spec fn dollar_var_at(s: Seq<char>, i: int) -> bool {
    s[i] == '$' && i + 1 < s.len() && (s[i + 1] == '{' || is_name_char(s[i + 1]))
}

/// Whether `s` holds the variable syntax of Unix: `~` alone, `~/` at the
/// start, or a variable behind a `$`.
pub open spec fn unix_var(s: Seq<char>) -> bool {
    s == seq!['~'] || starts_home(s) || exists|i: int| 0 <= i < s.len() && #[trigger] dollar_var_at(
        s,
        i,
    )
}

/// Whether `s` holds variable syntax of the platform.
pub open spec fn has_var(p: Platform, s: Seq<char>) -> bool {
    if p is Windows {
        windows_var_from(s, 0)
    } else {
        unix_var(s)
    }
}

/// Whether `s` holds variable syntax of another platform.
pub open spec fn has_foreign_var(p: Platform, s: Seq<char>) -> bool {
    if p is Windows {
        unix_var(s)
    } else {
        windows_var_from(s, 0)
    }
}

/// Whether `s` holds `%NAME%` with a non-empty name.
pub fn has_windows_var_syntax(s: &str) -> (r: bool)
    ensures
        r == windows_var_from(s@, 0),
{
    let v = chars_of(s);
    let mut pos: usize = 0;
    loop
        invariant
            pos <= v@.len(),
            v@ == s@,
            windows_var_from(s@, 0) == windows_var_from(s@, pos as int),
        decreases v@.len() - pos,
    {
        let open: usize = find(&v, '%', pos);
        if open >= v.len() {
            proof {
                find_char_bounds(s@, '%', open + 1);
            }
            return false;
        }
        let close: usize = find(&v, '%', open + 1);
        if close >= v.len() {
            return false;
        }
        if close != open + 1 {
            return true;
        }
        pos = close + 1;
    }
}

fn check_name_char(c: char) -> (r: bool)
    ensures
        r == is_name_char(c),
{
    check_alnum(c) || c == '_'
}

/// Whether `s` holds the variable syntax of Unix.
pub fn has_unix_var_syntax(s: &str) -> (r: bool)
    ensures
        r == unix_var(s@),
{
    let v = chars_of(s);
    if v.len() == 1 && v[0] == '~' {
        assert(s@ =~= seq!['~']);
        return true;
    }
    if v.len() >= 2 && v[0] == '~' && v[1] == '/' {
        return true;
    }
    let mut i: usize = 0;
    while i < v.len()
        invariant
            i <= v@.len(),
            v@ == s@,
            forall|k: int| 0 <= k < i ==> !#[trigger] dollar_var_at(s@, k),
        decreases v@.len() - i,
    {
        if v[i] == '$' && i + 1 < v.len() && (v[i + 1] == '{' || check_name_char(v[i + 1])) {
            assert(dollar_var_at(s@, i as int));
            return true;
        }
        i = i + 1;
    }
    false
}

fn holds_var(p: Platform, s: &str) -> (r: bool)
    ensures
        r == has_var(p, s@),
{
    match p {
        Platform::Windows => has_windows_var_syntax(s),
        _ => has_unix_var_syntax(s),
    }
}

// ---------------------------------------------------------------------------
// One pass of expansion
// ---------------------------------------------------------------------------

/// The text with `head` in front, or the same error.
pub open spec fn prefixed(
    head: Seq<char>,
    rest: Result<Seq<char>, Seq<char>>,
) -> Result<Seq<char>, Seq<char>> {
    match rest {
        Ok(t) => Ok(head + t),
        Err(var) => Err(var),
    }
}

/// `s` from `pos` on with each `%NAME%` replaced by its value; the first
/// variable that is not defined where there is one. A lone or doubled `%` stays.
pub open spec fn windows_pass(
    vars: Seq<(Seq<char>, Seq<char>)>,
    s: Seq<char>,
    pos: int,
) -> Result<Seq<char>, Seq<char>>
    decreases s.len() - pos,
{
    let open = find_char(s, '%', pos);
    let close = find_char(s, '%', open + 1);
    if close >= s.len() {
        Ok(s.skip(pos))
    } else {
        proof {
            find_char_bounds(s, '%', pos);
            find_char_bounds(s, '%', open + 1);
        }
        let name = s.subrange(open + 1, close);
        if close == open + 1 {
            prefixed(s.subrange(pos, close + 1), windows_pass(vars, s, close + 1))
        } else {
            match lookup(vars, name) {
                Some(value) => prefixed(
                    s.subrange(pos, open) + value,
                    windows_pass(vars, s, close + 1),
                ),
                None => Err(name),
            }
        }
    }
}

/// Where the name that starts at `from` ends.
pub open spec fn name_end(s: Seq<char>, from: int) -> int
    decreases s.len() - from,
{
    if from < s.len() && is_name_char(s[from]) {
        name_end(s, from + 1)
    } else {
        from
    }
}

/// A name ends inside the text and not before it starts.
pub proof fn name_end_bounds(s: Seq<char>, from: int)
    ensures
        from <= name_end(s, from),
        from <= s.len() ==> name_end(s, from) <= s.len(),
    decreases s.len() - from,
{
    if from < s.len() && is_name_char(s[from]) {
        name_end_bounds(s, from + 1);
    }
}

/// `s` from `pos` on with each `$NAME` and `${NAME}` replaced by its value; the
/// first variable that is not defined where there is one.
pub open spec fn unix_pass(
    vars: Seq<(Seq<char>, Seq<char>)>,
    s: Seq<char>,
    pos: int,
) -> Result<Seq<char>, Seq<char>>
    decreases s.len() - pos,
{
    let at = find_char(s, '$', pos);
    if at >= s.len() {
        Ok(s.skip(pos))
    } else {
        proof {
            find_char_bounds(s, '$', pos);
            find_char_bounds(s, '}', at + 1);
            name_end_bounds(s, at + 1);
        }
        let braced = at + 1 < s.len() && s[at + 1] == '{';
        let end = if braced {
            find_char(s, '}', at + 1)
        } else {
            name_end(s, at + 1)
        };
        if braced && end < s.len() {
            let name = s.subrange(at + 2, end);
            match lookup(vars, name) {
                Some(value) => prefixed(
                    s.subrange(pos, at) + value,
                    unix_pass(vars, s, end + 1),
                ),
                None => Err(name),
            }
        } else if braced || end == at + 1 {
            prefixed(s.subrange(pos, at + 1), unix_pass(vars, s, at + 1))
        } else {
            let name = s.subrange(at + 1, end);
            match lookup(vars, name) {
                Some(value) => prefixed(s.subrange(pos, at) + value, unix_pass(vars, s, end)),
                None => Err(name),
            }
        }
    }
}

/// One pass of expansion over all of `s`.
pub open spec fn pass(
    p: Platform,
    vars: Seq<(Seq<char>, Seq<char>)>,
    s: Seq<char>,
) -> Result<Seq<char>, Seq<char>> {
    if p is Windows {
        windows_pass(vars, s, 0)
    } else {
        unix_pass(vars, s, 0)
    }
}

/// The text of an expansion, or the name of a variable that is not defined.
pub open spec fn pass_view(r: Result<String, String>) -> Result<Seq<char>, Seq<char>> {
    match r {
        Ok(t) => Ok(t@),
        Err(var) => Err(var@),
    }
}

proof fn lemma_prefixed(a: Seq<char>, b: Seq<char>, rest: Result<Seq<char>, Seq<char>>)
    ensures
        prefixed(a, prefixed(b, rest)) == prefixed(a + b, rest),
{
    if rest is Ok {
        assert(a + (b + rest->Ok_0) =~= (a + b) + rest->Ok_0);
    }
}

fn expand_windows_once(raw: &str, env: &Environment) -> (r: Result<String, String>)
    ensures
        pass_view(r) == windows_pass(env@.vars, raw@, 0),
{
    let v = chars_of(raw);
    let mut out = String::new();
    let mut pos: usize = 0;
    let ghost whole = windows_pass(env@.vars, raw@, 0);
    proof {
        if whole is Ok {
            assert(out@ + whole->Ok_0 =~= whole->Ok_0);
        }
    }
    loop
        invariant
            pos <= v@.len(),
            v@ == raw@,
            whole == windows_pass(env@.vars, raw@, 0),
            whole == prefixed(out@, windows_pass(env@.vars, raw@, pos as int)),
        decreases v@.len() - pos,
    {
        let open: usize = find(&v, '%', pos);
        let ghost before = out@;
        let close: usize = if open < v.len() {
            find(&v, '%', open + 1)
        } else {
            proof {
                find_char_bounds(raw@, '%', open + 1);
            }
            v.len()
        };
        if close >= v.len() {
            let tail = text_range(&v, pos, v.len());
            out.append(tail.as_str());
            assert(raw@.subrange(pos as int, raw@.len() as int) =~= raw@.skip(pos as int));
            return Ok(out);
        }
        if close == open + 1 {
            let part = text_range(&v, pos, close + 1);
            out.append(part.as_str());
            proof {
                lemma_prefixed(before, part@, windows_pass(env@.vars, raw@, close + 1));
            }
            pos = close + 1;
        } else {
            let name = text_range(&v, open + 1, close);
            match env.var(name.as_str()) {
                Some(value) => {
                    let part = text_range(&v, pos, open);
                    out.append(part.as_str());
                    out.append(value.as_str());
                    proof {
                        assert(out@ =~= before + (part@ + value@));
                        lemma_prefixed(
                            before,
                            part@ + value@,
                            windows_pass(env@.vars, raw@, close + 1),
                        );
                    }
                    pos = close + 1;
                },
                None => {
                    return Err(name);
                },
            }
        }
    }
}

fn end_of_name(v: &Vec<char>, from: usize) -> (r: usize)
    requires
        from <= v@.len(),
    ensures
        r == name_end(v@, from as int),
        from <= r <= v@.len(),
{
    let mut i: usize = from;
    while i < v.len() && check_name_char(v[i])
        invariant
            from <= i <= v@.len(),
            name_end(v@, from as int) == name_end(v@, i as int),
        decreases v@.len() - i,
    {
        i = i + 1;
    }
    i
}

fn expand_unix_once(raw: &str, env: &Environment) -> (r: Result<String, String>)
    ensures
        pass_view(r) == unix_pass(env@.vars, raw@, 0),
{
    let v = chars_of(raw);
    let mut out = String::new();
    let mut pos: usize = 0;
    let ghost whole = unix_pass(env@.vars, raw@, 0);
    proof {
        if whole is Ok {
            assert(out@ + whole->Ok_0 =~= whole->Ok_0);
        }
    }
    loop
        invariant
            pos <= v@.len(),
            v@ == raw@,
            whole == unix_pass(env@.vars, raw@, 0),
            whole == prefixed(out@, unix_pass(env@.vars, raw@, pos as int)),
        decreases v@.len() - pos,
    {
        let ghost before = out@;
        let at: usize = find(&v, '$', pos);
        if at >= v.len() {
            let tail = text_range(&v, pos, v.len());
            out.append(tail.as_str());
            assert(raw@.subrange(pos as int, raw@.len() as int) =~= raw@.skip(pos as int));
            return Ok(out);
        }
        let braced = at + 1 < v.len() && v[at + 1] == '{';
        let end: usize = if braced {
            find(&v, '}', at + 1)
        } else {
            end_of_name(&v, at + 1)
        };
        if (braced && end >= v.len()) || (!braced && end == at + 1) {
            let part = text_range(&v, pos, at + 1);
            out.append(part.as_str());
            proof {
                lemma_prefixed(before, part@, unix_pass(env@.vars, raw@, at + 1));
            }
            pos = at + 1;
        } else {
            let from: usize = if braced {
                at + 2
            } else {
                at + 1
            };
            let after: usize = if braced {
                end + 1
            } else {
                end
            };
            assert(from <= end) by {
                if braced {
                    assert(v@[at + 1] != '}');
                    find_char_bounds(v@, '}', at + 2);
                }
            }
            let name = text_range(&v, from, end);
            match env.var(name.as_str()) {
                Some(value) => {
                    let part = text_range(&v, pos, at);
                    out.append(part.as_str());
                    out.append(value.as_str());
                    proof {
                        assert(out@ =~= before + (part@ + value@));
                        lemma_prefixed(
                            before,
                            part@ + value@,
                            unix_pass(env@.vars, raw@, after as int),
                        );
                    }
                    pos = after;
                },
                None => {
                    return Err(name);
                },
            }
        }
    }
}

fn expand_once(raw: &str, p: Platform, env: &Environment) -> (r: Result<String, String>)
    ensures
        pass_view(r) == pass(p, env@.vars, raw@),
{
    match p {
        Platform::Windows => expand_windows_once(raw, env),
        _ => expand_unix_once(raw, env),
    }
}

// ---------------------------------------------------------------------------
// Nested expansion
// ---------------------------------------------------------------------------

/// How often a text is expanded at most. A value may hold variables itself, and
/// definitions may go in circles.
pub const MAX_EXPANSION_PASSES: usize = 5;

/// What becomes of `s` in up to `n` passes: they end early once a pass changes
/// nothing or leaves no variable.
pub open spec fn passes(
    p: Platform,
    vars: Seq<(Seq<char>, Seq<char>)>,
    s: Seq<char>,
    n: nat,
) -> Result<Seq<char>, Seq<char>>
    decreases n,
{
    if n == 0 {
        Ok(s)
    } else {
        match pass(p, vars, s) {
            Ok(next) => if next == s || !has_var(p, next) {
                Ok(next)
            } else {
                passes(p, vars, next, (n - 1) as nat)
            },
            Err(var) => Err(var),
        }
    }
}

/// `raw` with the home directory in place of a leading `~` and the variables
/// replaced; the variable that is not defined where there is one.
pub open spec fn expanded(
    p: Platform,
    vars: Seq<(Seq<char>, Seq<char>)>,
    raw: Seq<char>,
) -> Result<Seq<char>, Seq<char>> {
    let home = lookup(vars, "HOME"@);
    if p is Windows || !(raw == seq!['~'] || starts_home(raw)) {
        passes(p, vars, raw, MAX_EXPANSION_PASSES as nat)
    } else {
        match home {
            None => Err("HOME"@),
            Some(h) => if raw == seq!['~'] {
                Ok(h)
            } else {
                passes(p, vars, h + raw.skip(1), MAX_EXPANSION_PASSES as nat)
            },
        }
    }
}

/// Why a text is not expanded.
#[derive(Debug, Clone)]
pub enum ExpandErr {
    /// A variable is not defined.
    Undefined { var: String },
    /// The text holds variable syntax of another platform.
    OtherPlatform,
}

/// The contents of an [`ExpandErr`].
#[verifier::ext_equal]
pub enum ExpandErrView {
    Undefined { var: Seq<char> },
    OtherPlatform,
}

impl View for ExpandErr {
    type V = ExpandErrView;

    open spec fn view(&self) -> ExpandErrView {
        match self {
            ExpandErr::Undefined { var } => ExpandErrView::Undefined { var: var@ },
            ExpandErr::OtherPlatform => ExpandErrView::OtherPlatform,
        }
    }
}

/// The text that `raw` is expanded to on a platform, or why it is not.
pub open spec fn expansion(
    p: Platform,
    vars: Seq<(Seq<char>, Seq<char>)>,
    raw: Seq<char>,
) -> Result<Seq<char>, ExpandErrView> {
    if has_foreign_var(p, raw) {
        Err(ExpandErrView::OtherPlatform)
    } else {
        match expanded(p, vars, raw) {
            Ok(t) => Ok(t),
            Err(var) => Err(ExpandErrView::Undefined { var }),
        }
    }
}

/// The contents of what came of an expansion.
pub open spec fn expansion_view(r: Result<String, ExpandErr>) -> Result<Seq<char>, ExpandErrView> {
    match r {
        Ok(t) => Ok(t@),
        Err(e) => Err(e@),
    }
}

/// What `raw` stands for on the platform `p`, seen from `base`, or from the
/// current directory where there is no base.
pub open spec fn resolved(
    p: Platform,
    env: EnvView,
    raw: Seq<char>,
    base: Option<Seq<char>>,
) -> PathView {
    let raw = trimmed(raw);
    let base = match base {
        Some(b) => b,
        None => env.current_dir,
    };
    if raw.len() == 0 {
        PathView::Resolved { path: Seq::empty() }
    } else {
        match expansion(p, env.vars, raw) {
            Err(ExpandErrView::OtherPlatform) => PathView::OtherPlatform { raw },
            Err(ExpandErrView::Undefined { var }) => PathView::UndefinedVar { var },
            Ok(t) => PathView::Resolved {
                path: if is_absolute(p, t) {
                    t
                } else {
                    join(p, base, t)
                },
            },
        }
    }
}

fn expand_passes(start: String, p: Platform, env: &Environment) -> (r: Result<String, String>)
    ensures
        pass_view(r) == passes(p, env@.vars, start@, MAX_EXPANSION_PASSES as nat),
{
    let ghost first = start@;
    let mut current = start;
    let mut left: usize = MAX_EXPANSION_PASSES;
    while left > 0
        invariant
            first == start@,
            passes(p, env@.vars, first, MAX_EXPANSION_PASSES as nat) == passes(
                p,
                env@.vars,
                current@,
                left as nat,
            ),
        decreases left,
    {
        match expand_once(current.as_str(), p, env) {
            Ok(next) => {
                if same(next.as_str(), current.as_str()) || !holds_var(p, next.as_str()) {
                    return Ok(next);
                }
                current = next;
            },
            Err(var) => {
                return Err(var);
            },
        }
        left = left - 1;
    }
    Ok(current)
}

fn expanded_or(r: Result<String, String>) -> (e: Result<String, ExpandErr>)
    ensures
        match pass_view(r) {
            Ok(t) => e is Ok && e->Ok_0@ == t,
            Err(var) => e is Err && e->Err_0@ == (ExpandErrView::Undefined { var }),
        },
{
    match r {
        Ok(t) => Ok(t),
        Err(var) => Err(ExpandErr::Undefined { var }),
    }
}

/// Expands the variables of Windows in `raw`. A text without variable syntax comes
/// back as it is.
pub fn expand_windows(raw: &str, env: &Environment) -> (r: Result<String, ExpandErr>)
    ensures
        expansion_view(r) == expansion(Platform::Windows, env@.vars, raw@),
        !windows_var_from(raw@, 0) && !unix_var(raw@) ==> r is Ok && r->Ok_0@ == raw@,
{
    proof {
        if !windows_var_from(raw@, 0) {
            text_without_variables_is_kept(Platform::Windows, env@.vars, raw@);
        }
    }
    if has_unix_var_syntax(raw) {
        return Err(ExpandErr::OtherPlatform);
    }
    expanded_or(expand_passes(raw.to_string(), Platform::Windows, env))
}

/// Expands the variables of Unix in `raw`. A text without variable syntax comes
/// back as it is.
pub fn expand_unix(raw: &str, p: Platform, env: &Environment) -> (r: Result<String, ExpandErr>)
    requires
        !(p is Windows),
    ensures
        expansion_view(r) == expansion(p, env@.vars, raw@),
        !windows_var_from(raw@, 0) && !unix_var(raw@) ==> r is Ok && r->Ok_0@ == raw@,
{
    proof {
        if !unix_var(raw@) {
            text_without_variables_is_kept(p, env@.vars, raw@);
        }
    }
    if has_windows_var_syntax(raw) {
        return Err(ExpandErr::OtherPlatform);
    }
    let v = chars_of(raw);
    let alone = v.len() == 1 && v[0] == '~';
    let below_home = v.len() >= 2 && v[0] == '~' && v[1] == '/';
    proof {
        if alone {
            assert(raw@ =~= seq!['~']);
        }
    }
    if !alone && !below_home {
        return expanded_or(expand_passes(raw.to_string(), p, env));
    }
    match env.var("HOME") {
        None => Err(ExpandErr::Undefined { var: "HOME".to_string() }),
        Some(home) => {
            if alone {
                Ok(home.clone())
            } else {
                let rest = text_range(&v, 1, v.len());
                assert(rest@ =~= raw@.skip(1));
                let start = cat(home.as_str(), rest.as_str());
                expanded_or(expand_passes(start, p, env))
            }
        },
    }
}

/// Resolve `raw` for `platform`. Relative paths are resolved against `base_dir`
/// when provided, otherwise against the current directory.
pub fn expand_path(
    raw: &str,
    platform: Platform,
    base_dir: Option<&str>,
    env: &Environment,
) -> (r: PathState)
    ensures
        r@ == resolved(platform, env@, raw@, opt_str(base_dir)),
{
    let raw = trim(raw);
    if raw.as_str().is_empty() {
        let path = String::new();
        assert(path@ =~= Seq::empty());
        return PathState::Resolved { path };
    }
    let expansion = match platform {
        Platform::Windows => expand_windows(raw.as_str(), env),
        _ => expand_unix(raw.as_str(), platform, env),
    };
    match expansion {
        Err(ExpandErr::OtherPlatform) => PathState::OtherPlatform { raw },
        Err(ExpandErr::Undefined { var }) => PathState::UndefinedVar { var },
        Ok(text) => {
            if path_is_absolute(platform, text.as_str()) {
                PathState::Resolved { path: text }
            } else {
                let path = match base_dir {
                    Some(base) => path_join(platform, base, text.as_str()),
                    None => path_join(platform, env.current_dir.as_str(), text.as_str()),
                };
                PathState::Resolved { path }
            }
        },
    }
}

// ---------------------------------------------------------------------------
// Laws
// ---------------------------------------------------------------------------

/// A variable that a pass reports is not defined.
pub proof fn reported_variable_is_undefined(
    p: Platform,
    vars: Seq<(Seq<char>, Seq<char>)>,
    s: Seq<char>,
)
    ensures
        pass(p, vars, s) matches Err(var) ==> lookup(vars, var) is None,
{
    if p is Windows {
        lemma_windows_reported(vars, s, 0);
    } else {
        lemma_unix_reported(vars, s, 0);
    }
}

proof fn lemma_windows_reported(vars: Seq<(Seq<char>, Seq<char>)>, s: Seq<char>, pos: int)
    ensures
        windows_pass(vars, s, pos) matches Err(var) ==> lookup(vars, var) is None,
    decreases s.len() - pos,
{
    let open = find_char(s, '%', pos);
    let close = find_char(s, '%', open + 1);
    find_char_bounds(s, '%', pos);
    find_char_bounds(s, '%', open + 1);
    if close < s.len() {
        lemma_windows_reported(vars, s, close + 1);
    }
}

proof fn lemma_unix_reported(vars: Seq<(Seq<char>, Seq<char>)>, s: Seq<char>, pos: int)
    ensures
        unix_pass(vars, s, pos) matches Err(var) ==> lookup(vars, var) is None,
    decreases s.len() - pos,
{
    let at = find_char(s, '$', pos);
    if at < s.len() {
        find_char_bounds(s, '$', pos);
        find_char_bounds(s, '}', at + 1);
        name_end_bounds(s, at + 1);
        lemma_unix_reported(vars, s, at + 1);
        if find_char(s, '}', at + 1) < s.len() {
            lemma_unix_reported(vars, s, find_char(s, '}', at + 1) + 1);
        }
        if name_end(s, at + 1) > at + 1 {
            lemma_unix_reported(vars, s, name_end(s, at + 1));
        }
    }
}

/// A path that is reported as having an undefined variable names one that is
/// not defined.
pub proof fn undefined_path_names_undefined_variable(
    p: Platform,
    env: EnvView,
    raw: Seq<char>,
    base: Option<Seq<char>>,
)
    ensures
        resolved(p, env, raw, base) matches PathView::UndefinedVar { var } ==> lookup(
            env.vars,
            var,
        ) is None,
{
    let raw = trimmed(raw);
    let home = lookup(env.vars, "HOME"@);
    lemma_passes_reported(p, env.vars, raw, MAX_EXPANSION_PASSES as nat);
    if home is Some {
        lemma_passes_reported(p, env.vars, home->0 + raw.skip(1), MAX_EXPANSION_PASSES as nat);
    }
}

proof fn lemma_passes_reported(
    p: Platform,
    vars: Seq<(Seq<char>, Seq<char>)>,
    s: Seq<char>,
    n: nat,
)
    ensures
        passes(p, vars, s, n) matches Err(var) ==> lookup(vars, var) is None,
    decreases n,
{
    if n > 0 {
        reported_variable_is_undefined(p, vars, s);
        if pass(p, vars, s) is Ok {
            lemma_passes_reported(p, vars, pass(p, vars, s)->Ok_0, (n - 1) as nat);
        }
    }
}

/// A variable that was not defined is, once it is answered, and no other changes.
pub proof fn answer_defines_variable(
    vars: Seq<(Seq<char>, Seq<char>)>,
    name: Seq<char>,
    value: Seq<char>,
    other: Seq<char>,
)
    requires
        lookup(vars, name) is None,
    ensures
        lookup(vars.push((name, value)), name) == Some(value),
        other != name ==> lookup(vars.push((name, value)), other) == lookup(vars, other),
    decreases vars.len(),
{
    let all = vars.push((name, value));
    if vars.len() > 0 {
        answer_defines_variable(vars.skip(1), name, value, other);
        assert(all.skip(1) =~= vars.skip(1).push((name, value)));
    } else {
        assert(all.skip(1) =~= Seq::empty());
        assert(lookup(all.skip(1), other) is None);
    }
}

/// A text without variable syntax is its own expansion: lone and doubled `%`
/// stay, and so does a `$` before no name.
pub proof fn text_without_variables_is_kept(
    p: Platform,
    vars: Seq<(Seq<char>, Seq<char>)>,
    s: Seq<char>,
)
    requires
        !has_var(p, s),
    ensures
        pass(p, vars, s) == Ok::<Seq<char>, Seq<char>>(s),
        expanded(p, vars, s) == Ok::<Seq<char>, Seq<char>>(s),
{
    if p is Windows {
        lemma_windows_plain(vars, s, 0);
    } else {
        lemma_unix_plain(vars, s, 0);
    }
    assert(s.skip(0) =~= s);
}

/// An absolute path without variable syntax, be it of this platform or of
/// another, is kept as it is.
pub proof fn path_without_variables_is_kept(
    p: Platform,
    env: EnvView,
    raw: Seq<char>,
    base: Option<Seq<char>>,
)
    requires
        trimmed(raw).len() > 0,
        !has_var(p, trimmed(raw)),
        !has_foreign_var(p, trimmed(raw)),
        is_absolute(p, trimmed(raw)),
    ensures
        resolved(p, env, raw, base) == (PathView::Resolved { path: trimmed(raw) }),
{
    text_without_variables_is_kept(p, env.vars, trimmed(raw));
}

proof fn lemma_find_char_hit(s: Seq<char>, c: char, from: int)
    requires
        find_char(s, c, from) < s.len(),
    ensures
        s[find_char(s, c, from)] == c,
    decreases s.len() - from,
{
    if s[from] != c {
        lemma_find_char_hit(s, c, from + 1);
    }
}

proof fn lemma_windows_plain(vars: Seq<(Seq<char>, Seq<char>)>, s: Seq<char>, pos: int)
    requires
        0 <= pos <= s.len(),
        !windows_var_from(s, pos),
    ensures
        windows_pass(vars, s, pos) == Ok::<Seq<char>, Seq<char>>(s.skip(pos)),
    decreases s.len() - pos,
{
    let open = find_char(s, '%', pos);
    let close = find_char(s, '%', open + 1);
    find_char_bounds(s, '%', pos);
    find_char_bounds(s, '%', open + 1);
    if close < s.len() {
        lemma_windows_plain(vars, s, close + 1);
        assert(s.subrange(pos, close + 1) + s.skip(close + 1) =~= s.skip(pos));
    }
}

proof fn lemma_unix_plain(vars: Seq<(Seq<char>, Seq<char>)>, s: Seq<char>, pos: int)
    requires
        0 <= pos <= s.len(),
        !unix_var(s),
    ensures
        unix_pass(vars, s, pos) == Ok::<Seq<char>, Seq<char>>(s.skip(pos)),
    decreases s.len() - pos,
{
    let at = find_char(s, '$', pos);
    find_char_bounds(s, '$', pos);
    if at < s.len() {
        lemma_find_char_hit(s, '$', pos);
        assert(!dollar_var_at(s, at));
        lemma_unix_plain(vars, s, at + 1);
        assert(s.subrange(pos, at + 1) + s.skip(at + 1) =~= s.skip(pos));
    }
}

/// A path that is not empty resolves to an absolute one where the directory it
/// is seen from is absolute, unless it names a drive without a root.
pub proof fn resolved_path_is_absolute(
    p: Platform,
    env: EnvView,
    raw: Seq<char>,
    base: Option<Seq<char>>,
)
    requires
        trimmed(raw).len() > 0,
        is_absolute(
            p,
            match base {
                Some(b) => b,
                None => env.current_dir,
            },
        ),
        expanded(p, env.vars, trimmed(raw)) matches Ok(t) ==> is_absolute(p, t) || prefix_len(p, t)
            == 0,
    ensures
        resolved(p, env, raw, base) matches PathView::Resolved { path } ==> is_absolute(p, path),
{
    let b = match base {
        Some(b) => b,
        None => env.current_dir,
    };
    if let Ok(t) = expanded(p, env.vars, trimmed(raw)) {
        join_is_absolute(p, b, t);
    }
}

// ---------------------------------------------------------------------------
// Laws of substitution
// ---------------------------------------------------------------------------

/// Whether a text with `head` in front of it is what came of an expansion, or the
/// same error did.
pub open spec fn goes_on(
    whole: Result<Seq<char>, Seq<char>>,
    head: Seq<char>,
    rest: Result<Seq<char>, Seq<char>>,
) -> bool {
    match rest {
        Ok(t) => whole == Ok::<Seq<char>, Seq<char>>(head + t),
        Err(var) => whole == Err::<Seq<char>, Seq<char>>(var),
    }
}

proof fn lemma_find_char_skip(s: Seq<char>, c: char, k: int, from: int)
    requires
        0 <= k <= from,
        k <= s.len(),
    ensures
        find_char(s, c, from) == k + find_char(s.skip(k), c, from - k),
    decreases s.len() - from,
{
    if from < s.len() {
        assert(s.skip(k)[from - k] == s[from]);
        lemma_find_char_skip(s, c, k, from + 1);
    }
}

proof fn lemma_name_end_skip(s: Seq<char>, k: int, from: int)
    requires
        0 <= k <= from <= s.len(),
    ensures
        name_end(s, from) == k + name_end(s.skip(k), from - k),
    decreases s.len() - from,
{
    if from < s.len() {
        assert(s.skip(k)[from - k] == s[from]);
        if is_name_char(s[from]) {
            lemma_name_end_skip(s, k, from + 1);
        }
    }
}

/// Where the first of a character stands that does not stand in front.
proof fn lemma_find_char_is(s: Seq<char>, c: char, from: int, at: int)
    requires
        0 <= from <= at <= s.len(),
        forall|i: int| from <= i < at ==> s[i] != c,
        at < s.len() ==> s[at] == c,
    ensures
        find_char(s, c, from) == at,
    decreases at - from,
{
    if from < at {
        lemma_find_char_is(s, c, from + 1, at);
    }
}

proof fn lemma_name_end_is(s: Seq<char>, from: int, at: int)
    requires
        0 <= from <= at <= s.len(),
        forall|i: int| from <= i < at ==> is_name_char(#[trigger] s[i]),
        at < s.len() ==> !is_name_char(s[at]),
    ensures
        name_end(s, from) == at,
    decreases at - from,
{
    if from < at {
        assert(is_name_char(s[from]));
        lemma_name_end_is(s, from + 1, at);
    }
}

/// What comes of a text from a place on does not depend on what is before it.
proof fn lemma_windows_pass_skip(
    vars: Seq<(Seq<char>, Seq<char>)>,
    s: Seq<char>,
    k: int,
    pos: int,
)
    requires
        0 <= k <= pos <= s.len(),
    ensures
        windows_pass(vars, s, pos) == windows_pass(vars, s.skip(k), pos - k),
    decreases s.len() - pos,
{
    let t = s.skip(k);
    let open = find_char(s, '%', pos);
    let close = find_char(s, '%', open + 1);
    find_char_bounds(s, '%', pos);
    find_char_bounds(s, '%', open + 1);
    lemma_find_char_skip(s, '%', k, pos);
    lemma_find_char_skip(s, '%', k, open + 1);
    find_char_bounds(t, '%', pos - k);
    find_char_bounds(t, '%', open + 1 - k);
    if close >= s.len() {
        assert(s.skip(pos) =~= t.skip(pos - k));
    } else {
        lemma_windows_pass_skip(vars, s, k, close + 1);
        assert(s.subrange(open + 1, close) =~= t.subrange(open + 1 - k, close - k));
        assert(s.subrange(pos, close + 1) =~= t.subrange(pos - k, close + 1 - k));
        assert(s.subrange(pos, open) =~= t.subrange(pos - k, open - k));
    }
}

/// What comes of a text from a place on does not depend on what is before it.
proof fn lemma_unix_pass_skip(vars: Seq<(Seq<char>, Seq<char>)>, s: Seq<char>, k: int, pos: int)
    requires
        0 <= k <= pos <= s.len(),
    ensures
        unix_pass(vars, s, pos) == unix_pass(vars, s.skip(k), pos - k),
    decreases s.len() - pos,
{
    let t = s.skip(k);
    let at = find_char(s, '$', pos);
    find_char_bounds(s, '$', pos);
    lemma_find_char_skip(s, '$', k, pos);
    if at >= s.len() {
        assert(s.skip(pos) =~= t.skip(pos - k));
    } else {
        let close = find_char(s, '}', at + 1);
        let end = name_end(s, at + 1);
        find_char_bounds(s, '}', at + 1);
        name_end_bounds(s, at + 1);
        lemma_find_char_skip(s, '}', k, at + 1);
        lemma_name_end_skip(s, k, at + 1);
        assert(at + 1 < s.len() ==> t[at + 1 - k] == s[at + 1]);
        lemma_unix_pass_skip(vars, s, k, at + 1);
        if at + 1 < s.len() && s[at + 1] == '{' && close < s.len() {
            find_char_bounds(s, '}', at + 2);
            lemma_unix_pass_skip(vars, s, k, close + 1);
            assert(s.subrange(at + 2, close) =~= t.subrange(at + 2 - k, close - k));
        }
        if end > at + 1 {
            lemma_unix_pass_skip(vars, s, k, end);
            assert(s.subrange(at + 1, end) =~= t.subrange(at + 1 - k, end - k));
        }
        assert(s.subrange(pos, at) =~= t.subrange(pos - k, at - k));
        assert(s.subrange(pos, at + 1) =~= t.subrange(pos - k, at + 1 - k));
    }
}

/// A variable of Unix in braces is replaced in its place: what is before it stays
/// before its value, and what is behind it is expanded on its own. One that is not
/// defined is reported.
pub proof fn braced_variable_is_replaced(
    p: Platform,
    vars: Seq<(Seq<char>, Seq<char>)>,
    a: Seq<char>,
    v: Seq<char>,
    t: Seq<char>,
)
    requires
        !(p is Windows),
        !a.contains('$'),
        !v.contains('}'),
    ensures
        lookup(vars, v) matches Some(value) ==> goes_on(
            pass(p, vars, a + seq!['$', '{'] + v + seq!['}'] + t),
            a + value,
            pass(p, vars, t),
        ),
        lookup(vars, v) is None ==> pass(p, vars, a + seq!['$', '{'] + v + seq!['}'] + t) == Err::<
            Seq<char>,
            Seq<char>,
        >(v),
{
    let s = a + seq!['$', '{'] + v + seq!['}'] + t;
    let at = a.len() as int;
    let end = at + 2 + v.len();
    assert forall|i: int| 0 <= i < at implies s[i] != '$' by {
        assert(s[i] == a[i]);
        assert(a.contains(a[i]));
    }
    assert(s[at] == '$');
    assert(s[at + 1] == '{');
    lemma_find_char_is(s, '$', 0, at);
    assert forall|i: int| at + 1 <= i < end implies s[i] != '}' by {
        if i > at + 1 {
            assert(s[i] == v[i - at - 2]);
            assert(v.contains(v[i - at - 2]));
        }
    }
    assert(s[end] == '}');
    lemma_find_char_is(s, '}', at + 1, end);
    assert(s.subrange(at + 2, end) =~= v);
    assert(s.subrange(0, at) =~= a);
    assert(s.skip(end + 1) =~= t);
    lemma_unix_pass_skip(vars, s, end + 1, end + 1);
}

/// Whether a character is an ASCII letter, an ASCII digit or `_`.
pub open spec fn is_word_char(c: char) -> bool {
    'a' <= c <= 'z' || 'A' <= c <= 'Z' || '0' <= c <= '9' || c == '_'
}

/// A variable of Unix behind a `$` is replaced in its place, its name being as long
/// as it can. One that is not defined is reported.
pub proof fn named_variable_is_replaced(
    p: Platform,
    vars: Seq<(Seq<char>, Seq<char>)>,
    a: Seq<char>,
    v: Seq<char>,
    t: Seq<char>,
)
    requires
        !(p is Windows),
        !a.contains('$'),
        v.len() > 0,
        forall|i: int| 0 <= i < v.len() ==> is_word_char(#[trigger] v[i]),
        t.len() > 0 ==> !is_word_char(t[0]),
    ensures
        lookup(vars, v) matches Some(value) ==> goes_on(
            pass(p, vars, a + seq!['$'] + v + t),
            a + value,
            pass(p, vars, t),
        ),
        lookup(vars, v) is None ==> pass(p, vars, a + seq!['$'] + v + t) == Err::<
            Seq<char>,
            Seq<char>,
        >(v),
{
    let s = a + seq!['$'] + v + t;
    let at = a.len() as int;
    let end = at + 1 + v.len();
    assert forall|i: int| 0 <= i < at implies s[i] != '$' by {
        assert(s[i] == a[i]);
        assert(a.contains(a[i]));
    }
    assert(s[at] == '$');
    lemma_find_char_is(s, '$', 0, at);
    assert forall|i: int| at + 1 <= i < end implies is_name_char(#[trigger] s[i]) by {
        assert(s[i] == v[i - at - 1]);
        assert(is_word_char(v[i - at - 1]));
    }
    assert(end < s.len() ==> s[end] == t[0]);
    lemma_name_end_is(s, at + 1, end);
    assert(is_name_char(s[at + 1]));
    assert(s.subrange(at + 1, end) =~= v);
    assert(s.subrange(0, at) =~= a);
    assert(s.skip(end) =~= t);
    lemma_unix_pass_skip(vars, s, end, end);
}

/// A `$` before neither a name nor a brace that is closed stays, and what is behind
/// it is expanded on its own. So does a text without one.
pub proof fn lone_dollar_is_kept(
    p: Platform,
    vars: Seq<(Seq<char>, Seq<char>)>,
    a: Seq<char>,
    t: Seq<char>,
)
    requires
        !(p is Windows),
        !a.contains('$'),
        t.len() > 0 ==> !is_word_char(t[0]) && (t[0] == '{' ==> !t.contains('}')),
    ensures
        pass(p, vars, a) == Ok::<Seq<char>, Seq<char>>(a),
        goes_on(pass(p, vars, a + seq!['$'] + t), a + seq!['$'], pass(p, vars, t)),
{
    let s = a + seq!['$'] + t;
    let at = a.len() as int;
    assert forall|i: int| 0 <= i < at implies s[i] != '$' && a[i] != '$' by {
        assert(s[i] == a[i]);
        assert(a.contains(a[i]));
    }
    assert(s[at] == '$');
    lemma_find_char_is(s, '$', 0, at);
    lemma_find_char_is(a, '$', 0, at);
    assert(a.skip(0) =~= a);
    assert(s.skip(at + 1) =~= t);
    assert(at + 1 < s.len() ==> s[at + 1] == t[0]);
    if t.len() > 0 && t[0] == '{' {
        assert forall|i: int| at + 1 <= i < s.len() implies s[i] != '}' by {
            assert(s[i] == t[i - at - 1]);
            assert(t.contains(t[i - at - 1]));
        }
        lemma_find_char_is(s, '}', at + 1, s.len() as int);
    } else {
        lemma_name_end_is(s, at + 1, at + 1);
    }
    assert(s.subrange(0, at + 1) =~= a + seq!['$']);
    lemma_unix_pass_skip(vars, s, at + 1, at + 1);
}

/// A variable of Windows is replaced in its place: what is before it stays before its
/// value, and what is behind it is expanded on its own. One that is not defined is
/// reported.
pub proof fn percent_variable_is_replaced(
    vars: Seq<(Seq<char>, Seq<char>)>,
    a: Seq<char>,
    v: Seq<char>,
    t: Seq<char>,
)
    requires
        !a.contains('%'),
        v.len() > 0,
        !v.contains('%'),
    ensures
        lookup(vars, v) matches Some(value) ==> goes_on(
            pass(Platform::Windows, vars, a + seq!['%'] + v + seq!['%'] + t),
            a + value,
            pass(Platform::Windows, vars, t),
        ),
        lookup(vars, v) is None ==> pass(
            Platform::Windows,
            vars,
            a + seq!['%'] + v + seq!['%'] + t,
        ) == Err::<Seq<char>, Seq<char>>(v),
        windows_var_from(a + seq!['%'] + v + seq!['%'] + t, 0),
{
    let s = a + seq!['%'] + v + seq!['%'] + t;
    let open = a.len() as int;
    let close = open + 1 + v.len();
    assert forall|i: int| 0 <= i < open implies s[i] != '%' by {
        assert(s[i] == a[i]);
        assert(a.contains(a[i]));
    }
    assert(s[open] == '%');
    lemma_find_char_is(s, '%', 0, open);
    assert forall|i: int| open + 1 <= i < close implies s[i] != '%' by {
        assert(s[i] == v[i - open - 1]);
        assert(v.contains(v[i - open - 1]));
    }
    assert(s[close] == '%');
    lemma_find_char_is(s, '%', open + 1, close);
    assert(s.subrange(open + 1, close) =~= v);
    assert(s.subrange(0, open) =~= a);
    assert(s.skip(close + 1) =~= t);
    lemma_windows_pass_skip(vars, s, close + 1, close + 1);
}

proof fn lemma_windows_var_skip(s: Seq<char>, k: int, pos: int)
    requires
        0 <= k <= pos <= s.len(),
    ensures
        windows_var_from(s, pos) == windows_var_from(s.skip(k), pos - k),
    decreases s.len() - pos,
{
    let t = s.skip(k);
    let open = find_char(s, '%', pos);
    let close = find_char(s, '%', open + 1);
    find_char_bounds(s, '%', pos);
    find_char_bounds(s, '%', open + 1);
    lemma_find_char_skip(s, '%', k, pos);
    lemma_find_char_skip(s, '%', k, open + 1);
    if close < s.len() && close == open + 1 {
        lemma_windows_var_skip(s, k, close + 1);
    }
}

/// A doubled `%` stays, and what is behind it is expanded on its own. So does a
/// single one with none behind it, and a text without one.
pub proof fn doubled_percent_is_kept(
    vars: Seq<(Seq<char>, Seq<char>)>,
    a: Seq<char>,
    b: Seq<char>,
    t: Seq<char>,
)
    requires
        !a.contains('%'),
        !b.contains('%'),
    ensures
        pass(Platform::Windows, vars, a) == Ok::<Seq<char>, Seq<char>>(a),
        !windows_var_from(a, 0),
        pass(Platform::Windows, vars, a + seq!['%'] + b) == Ok::<Seq<char>, Seq<char>>(
            a + seq!['%'] + b,
        ),
        !windows_var_from(a + seq!['%'] + b, 0),
        goes_on(
            pass(Platform::Windows, vars, a + seq!['%', '%'] + t),
            a + seq!['%', '%'],
            pass(Platform::Windows, vars, t),
        ),
        windows_var_from(a + seq!['%', '%'] + t, 0) == windows_var_from(t, 0),
{
    let s = a + seq!['%', '%'] + t;
    let one = a + seq!['%'] + b;
    let at = a.len() as int;
    assert forall|i: int| 0 <= i < at implies s[i] != '%' && a[i] != '%' && one[i] != '%' by {
        assert(s[i] == a[i]);
        assert(one[i] == a[i]);
        assert(a.contains(a[i]));
    }
    assert(s[at] == '%');
    assert(s[at + 1] == '%');
    assert(one[at] == '%');
    lemma_find_char_is(s, '%', 0, at);
    lemma_find_char_is(s, '%', at + 1, at + 1);
    lemma_find_char_is(a, '%', 0, at);
    find_char_bounds(a, '%', at + 1);
    lemma_find_char_is(one, '%', 0, at);
    assert forall|i: int| at + 1 <= i < one.len() implies one[i] != '%' by {
        assert(one[i] == b[i - at - 1]);
        assert(b.contains(b[i - at - 1]));
    }
    lemma_find_char_is(one, '%', at + 1, one.len() as int);
    assert(a.skip(0) =~= a);
    assert(one.skip(0) =~= one);
    assert(s.skip(at + 2) =~= t);
    assert(s.subrange(0, at + 2) =~= a + seq!['%', '%']);
    lemma_windows_pass_skip(vars, s, at + 2, at + 2);
    lemma_windows_var_skip(s, at + 2, at + 2);
}

/// Whether each text but the first is what one pass makes of the one before it.
pub open spec fn each_is_pass(
    p: Platform,
    vars: Seq<(Seq<char>, Seq<char>)>,
    steps: Seq<Seq<char>>,
) -> bool {
    forall|i: int|
        0 <= i < steps.len() - 1 ==> pass(p, vars, #[trigger] steps[i]) == Ok::<Seq<char>, Seq<char>>(
            steps[i + 1],
        )
}

/// Values that hold variables are expanded in their turn, until none is left or the
/// most passes are made.
pub proof fn values_are_expanded_in_turn(
    p: Platform,
    vars: Seq<(Seq<char>, Seq<char>)>,
    steps: Seq<Seq<char>>,
    n: nat,
)
    requires
        0 < steps.len() <= n + 1,
        each_is_pass(p, vars, steps),
        steps.len() == n + 1 || !has_var(p, steps.last()),
    ensures
        passes(p, vars, steps[0], n) == Ok::<Seq<char>, Seq<char>>(steps.last()),
    decreases n,
{
    if n > 0 {
        if steps.len() == 1 {
            text_without_variables_is_kept(p, vars, steps[0]);
        } else {
            let next = steps[1];
            let rest = steps.skip(1);
            assert(pass(p, vars, steps[0]) == Ok::<Seq<char>, Seq<char>>(steps[1]));
            assert forall|i: int| 0 <= i < rest.len() - 1 implies pass(p, vars, #[trigger] rest[i])
                == Ok::<Seq<char>, Seq<char>>(rest[i + 1]) by {
                assert(rest[i] == steps[i + 1]);
                assert(pass(p, vars, steps[i + 1]) == Ok::<Seq<char>, Seq<char>>(steps[i + 2]));
            }
            assert(rest.last() == steps.last());
            values_are_expanded_in_turn(p, vars, rest, (n - 1) as nat);
            if !has_var(p, next) {
                text_without_variables_is_kept(p, vars, next);
                lemma_steps_stay(p, vars, steps, 1);
            } else if next == steps[0] {
                lemma_steps_stay(p, vars, steps, 1);
            }
        }
    }
}

/// Where a pass changes nothing, further ones change nothing either.
proof fn lemma_steps_stay(
    p: Platform,
    vars: Seq<(Seq<char>, Seq<char>)>,
    steps: Seq<Seq<char>>,
    k: int,
)
    requires
        0 <= k < steps.len(),
        each_is_pass(p, vars, steps),
        pass(p, vars, steps[k]) == Ok::<Seq<char>, Seq<char>>(steps[k]),
    ensures
        steps.last() == steps[k],
    decreases steps.len() - k,
{
    if k < steps.len() - 1 {
        assert(pass(p, vars, steps[k]) == Ok::<Seq<char>, Seq<char>>(steps[k + 1]));
        lemma_steps_stay(p, vars, steps, k + 1);
    }
}

/// What is expanded without variables of another platform, in at most
/// `MAX_EXPANSION_PASSES` passes.
pub proof fn text_is_expanded_in_turn(
    p: Platform,
    vars: Seq<(Seq<char>, Seq<char>)>,
    steps: Seq<Seq<char>>,
)
    requires
        0 < steps.len() <= 6,
        each_is_pass(p, vars, steps),
        steps.len() == 6 || !has_var(p, steps.last()),
        !has_foreign_var(p, steps[0]),
        !(p is Windows) ==> steps[0] != seq!['~'] && !starts_home(steps[0]),
    ensures
        expansion(p, vars, steps[0]) == Ok::<Seq<char>, ExpandErrView>(steps.last()),
{
    values_are_expanded_in_turn(p, vars, steps, MAX_EXPANSION_PASSES as nat);
}

/// A variable that is not defined stops the expansion of the text, in whichever pass
/// it comes up.
pub proof fn undefined_variable_stops_expansion(
    p: Platform,
    vars: Seq<(Seq<char>, Seq<char>)>,
    steps: Seq<Seq<char>>,
    var: Seq<char>,
)
    requires
        0 < steps.len() <= 5,
        each_is_pass(p, vars, steps),
        pass(p, vars, steps.last()) == Err::<Seq<char>, Seq<char>>(var),
        !has_foreign_var(p, steps[0]),
        !(p is Windows) ==> steps[0] != seq!['~'] && !starts_home(steps[0]),
    ensures
        expansion(p, vars, steps[0]) == Err::<Seq<char>, ExpandErrView>(
            ExpandErrView::Undefined { var },
        ),
{
    lemma_undefined_in_turn(p, vars, steps, var, MAX_EXPANSION_PASSES as nat);
}

proof fn lemma_undefined_in_turn(
    p: Platform,
    vars: Seq<(Seq<char>, Seq<char>)>,
    steps: Seq<Seq<char>>,
    var: Seq<char>,
    n: nat,
)
    requires
        0 < steps.len() <= n,
        each_is_pass(p, vars, steps),
        pass(p, vars, steps.last()) == Err::<Seq<char>, Seq<char>>(var),
    ensures
        passes(p, vars, steps[0], n) == Err::<Seq<char>, Seq<char>>(var),
    decreases n,
{
    if steps.len() > 1 {
        let next = steps[1];
        let rest = steps.skip(1);
        assert(pass(p, vars, steps[0]) == Ok::<Seq<char>, Seq<char>>(steps[1]));
        assert forall|i: int| 0 <= i < rest.len() - 1 implies pass(p, vars, #[trigger] rest[i])
            == Ok::<Seq<char>, Seq<char>>(rest[i + 1]) by {
            assert(rest[i] == steps[i + 1]);
            assert(pass(p, vars, steps[i + 1]) == Ok::<Seq<char>, Seq<char>>(steps[i + 2]));
        }
        assert(rest.last() == steps.last());
        lemma_undefined_in_turn(p, vars, rest, var, (n - 1) as nat);
        if !has_var(p, next) {
            text_without_variables_is_kept(p, vars, next);
            lemma_steps_stay(p, vars, steps, 1);
        } else if next == steps[0] {
            lemma_steps_stay(p, vars, steps, 1);
        }
    }
}

/// A leading `~` on Unix stands for the home directory, which is that of the
/// variable `HOME`; what is behind it is expanded as if that directory were written
/// there. Elsewhere than at the start, and before anything but `/`, it is no more
/// than a character.
pub proof fn home_is_put_in_front(
    p: Platform,
    vars: Seq<(Seq<char>, Seq<char>)>,
    t: Seq<char>,
)
    requires
        !(p is Windows),
    ensures
        match lookup(vars, "HOME"@) {
            Some(home) => {
                &&& expanded(p, vars, seq!['~']) == Ok::<Seq<char>, Seq<char>>(home)
                &&& home.len() > 0 && home[0] == '/' ==> expanded(p, vars, seq!['~', '/'] + t)
                    == expanded(p, vars, home + seq!['/'] + t)
            },
            None => {
                &&& expanded(p, vars, seq!['~']) == Err::<Seq<char>, Seq<char>>("HOME"@)
                &&& expanded(p, vars, seq!['~', '/'] + t) == Err::<Seq<char>, Seq<char>>("HOME"@)
            },
        },
{
    let raw = seq!['~', '/'] + t;
    assert(raw[0] == '~' && raw[1] == '/');
    assert(raw.len() >= 2);
    assert(raw != seq!['~']) by {
        assert(seq!['~'].len() == 1);
    }
    if let Some(home) = lookup(vars, "HOME"@) {
        assert(home + raw.skip(1) =~= home + seq!['/'] + t);
        if home.len() > 0 && home[0] == '/' {
            let other = home + seq!['/'] + t;
            assert(other[0] == '/');
            assert(seq!['~'][0] == '~');
        }
    }
}

/// A path is what its text is expanded to where that is absolute; else it is seen
/// from the given directory, or from the current one. White space around the text
/// does not count. An empty text is an empty path.
pub proof fn path_is_expanded_and_placed(
    p: Platform,
    env: EnvView,
    raw: Seq<char>,
    front: Seq<char>,
    back: Seq<char>,
    base: Seq<char>,
)
    requires
        raw.len() > 0,
        !is_space(raw[0]),
        !is_space(raw.last()),
        blank(front, 0, front.len() as int),
        blank(back, 0, back.len() as int),
    ensures
        resolved(p, env, front + raw + back, Some(base)) == resolved(p, env, raw, Some(base)),
        resolved(p, env, raw, None) == resolved(p, env, raw, Some(env.current_dir)),
        match expansion(p, env.vars, raw) {
            Ok(t) => resolved(p, env, raw, Some(base)) == (PathView::Resolved {
                path: if is_absolute(p, t) {
                    t
                } else {
                    join(p, base, t)
                },
            }),
            Err(ExpandErrView::Undefined { var }) => resolved(p, env, raw, Some(base)) == (
            PathView::UndefinedVar { var }),
            Err(ExpandErrView::OtherPlatform) => resolved(p, env, raw, Some(base)) == (
            PathView::OtherPlatform { raw }),
        },
        resolved(p, env, Seq::empty(), Some(base)) == (PathView::Resolved { path: Seq::empty() }),
{
    trimming_undoes_padding(raw, front, back);
    trimming_keeps_core(Seq::<char>::empty());
}

/// A variable in braces in an absolute path is replaced in its place, where neither
/// its value nor the rest holds a variable.
pub proof fn path_with_variable_is_resolved(
    p: Platform,
    env: EnvView,
    a: Seq<char>,
    v: Seq<char>,
    t: Seq<char>,
    base: Option<Seq<char>>,
)
    requires
        !(p is Windows),
        a.len() > 0,
        a[0] == '/',
        !a.contains('$'),
        !v.contains('}'),
        lookup(env.vars, v) is Some,
        !has_foreign_var(p, a + seq!['$', '{'] + v + seq!['}'] + t),
        !t.contains('$'),
        t.len() > 0 ==> !is_space(t.last()),
        !unix_var(a + lookup(env.vars, v)->0 + t),
    ensures
        resolved(p, env, a + seq!['$', '{'] + v + seq!['}'] + t, base) == (PathView::Resolved {
            path: a + lookup(env.vars, v)->0 + t,
        }),
{
    let raw = a + seq!['$', '{'] + v + seq!['}'] + t;
    let end = a + lookup(env.vars, v)->0 + t;
    assert(raw[0] == '/');
    assert(end[0] == '/');
    assert(raw.last() == if t.len() > 0 { t.last() } else { '}' });
    trimming_undoes_padding(raw, Seq::empty(), Seq::empty());
    braced_variable_is_replaced(p, env.vars, a, v, t);
    lone_dollar_is_kept(p, env.vars, t, Seq::empty());
    let steps = seq![raw, end];
    assert(pass(p, env.vars, steps[0]) == Ok::<Seq<char>, Seq<char>>(steps[1]));
    assert(steps.last() == end);
    assert(seq!['~'][0] == '~');
    text_is_expanded_in_turn(p, env.vars, steps);
    assert(is_absolute(p, end)) by {
        reveal(prefix_len);
    }
}

/// A text with a variable of another platform is not expanded: `%NAME%` elsewhere than
/// on Windows; on Windows a leading `~` and a `$` before a name or a brace.
pub proof fn foreign_variable_is_not_expanded(
    p: Platform,
    vars: Seq<(Seq<char>, Seq<char>)>,
    a: Seq<char>,
    v: Seq<char>,
    t: Seq<char>,
)
    ensures
        !(p is Windows) && !a.contains('%') && v.len() > 0 && !v.contains('%') ==> expansion(
            p,
            vars,
            a + seq!['%'] + v + seq!['%'] + t,
        ) == Err::<Seq<char>, ExpandErrView>(ExpandErrView::OtherPlatform),
        p is Windows ==> {
            &&& expansion(p, vars, seq!['~']) == Err::<Seq<char>, ExpandErrView>(
                ExpandErrView::OtherPlatform,
            )
            &&& expansion(p, vars, seq!['~', '/'] + t) == Err::<Seq<char>, ExpandErrView>(
                ExpandErrView::OtherPlatform,
            )
            &&& t.len() > 0 && (t[0] == '{' || is_word_char(t[0])) ==> expansion(
                p,
                vars,
                a + seq!['$'] + t,
            ) == Err::<Seq<char>, ExpandErrView>(ExpandErrView::OtherPlatform)
        },
{
    if !(p is Windows) {
        if !a.contains('%') && v.len() > 0 && !v.contains('%') {
            percent_variable_is_replaced(vars, a, v, t);
        }
    } else {
        let home = seq!['~', '/'] + t;
        assert(home[0] == '~' && home[1] == '/');
        if t.len() > 0 && (t[0] == '{' || is_word_char(t[0])) {
            let s = a + seq!['$'] + t;
            assert(s[a.len() as int] == '$');
            assert(s[(a.len() + 1) as int] == t[0]);
            assert(dollar_var_at(s, a.len() as int));
        }
    }
}

/// A text without `%`, `$` and `~` holds no variable of any platform.
pub proof fn plain_text_holds_no_variable(p: Platform, s: Seq<char>)
    requires
        !s.contains('%'),
        !s.contains('$'),
        !s.contains('~'),
    ensures
        !has_var(p, s),
        !has_foreign_var(p, s),
{
    assert forall|i: int| 0 <= i < s.len() implies s[i] != '%' && s[i] != '$' && s[i] != '~' by {
        assert(s.contains(s[i]));
    }
    lemma_find_char_is(s, '%', 0, s.len() as int);
    find_char_bounds(s, '%', (s.len() + 1) as int);
    if s == seq!['~'] {
        assert(s[0] == '~');
    }
    assert forall|i: int| 0 <= i < s.len() implies !#[trigger] dollar_var_at(s, i) by {
        assert(s[i] != '$');
    }
}

} // verus!
