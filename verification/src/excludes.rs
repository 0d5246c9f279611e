//! Exclude rules.
//!
//! Whether a path matches a pattern is for the `globset` crate to say. Where a
//! pattern or a path holds a backslash, what it says depends on the machine:
//! a backslash separates components on Windows and escapes elsewhere.

use crate::config::{App, AppContents, Config, ConfigContents};
use crate::paths::slashed;
use crate::platform::Platform;
use crate::text::{
    blank, clone_texts, replace_char, replaced, texts, trim_all, trimmed, trimmed_holds,
    trimmed_nonempty, trimmed_of_both, trimmed_one_more,
};
use globset::{GlobSet, GlobSetBuilder};
use vstd::prelude::*;

verus! {

/// `globset::GlobSet`: patterns that are matched together.
#[verifier::external_type_specification]
#[verifier::external_body]
pub struct ExGlobSet(GlobSet);

/// `globset::GlobSetBuilder`: patterns on their way into a set.
#[verifier::external_type_specification]
#[verifier::external_body]
pub struct ExGlobSetBuilder(GlobSetBuilder);

/// The patterns that a builder holds, as they were written.
pub uninterp spec fn builder_globs(b: GlobSetBuilder) -> Seq<Seq<char>>;

/// The patterns that a set holds, as they were written.
pub uninterp spec fn set_globs(s: GlobSet) -> Seq<Seq<char>>;

/// What `globset::Glob::new` finds wrong with a pattern without a backslash, in
/// words.
pub uninterp spec fn glob_error(pattern: Seq<char>) -> Option<Seq<char>>;

/// Whether a pattern matches a path, both without a backslash, as
/// `globset::GlobSet::is_match` tells it of the set of that pattern alone.
pub uninterp spec fn glob_matches(pattern: Seq<char>, path: Seq<char>) -> bool;

/// Whether the text means the same to `globset` on every machine.
pub open spec fn portable(s: Seq<char>) -> bool {
    !s.contains('\\')
}

/// Whether each of the texts means the same to `globset` on every machine.
pub open spec fn all_portable(list: Seq<Seq<char>>) -> bool {
    forall|i: int| 0 <= i < list.len() ==> portable(#[trigger] list[i])
}

/// Whether one of the patterns matches the path.
pub open spec fn any_matches(patterns: Seq<Seq<char>>, path: Seq<char>) -> bool {
    exists|i: int| 0 <= i < patterns.len() && glob_matches(#[trigger] patterns[i], path)
}

/// Calls `globset::GlobSetBuilder::new`: the builder holds no pattern.
#[verifier::external_body]
fn new_builder() -> (r: GlobSetBuilder)
    ensures
        builder_globs(r) == Seq::<Seq<char>>::empty(),
{
    GlobSetBuilder::new()
}

/// Calls `globset::Glob::new` and, where it accepts the pattern,
/// `globset::GlobSetBuilder::add`: the builder then holds the pattern behind
/// those it held. A pattern that is not accepted leaves the builder as it was.
/// Which patterns with a backslash are accepted depends on the machine and is
/// not stated.
#[verifier::external_body]
fn add_glob(builder: &mut GlobSetBuilder, pattern: &str) -> (r: Result<(), String>)
    ensures
        r is Ok ==> builder_globs(*final(builder)) == builder_globs(*old(builder)).push(pattern@),
        r is Err ==> builder_globs(*final(builder)) == builder_globs(*old(builder)),
        portable(pattern@) ==> match r {
            Ok(_) => glob_error(pattern@) is None,
            Err(why) => glob_error(pattern@) == Some(why@),
        },
{
    let glob = globset::Glob::new(pattern).map_err(|e| e.to_string())?;
    builder.add(glob);
    Ok(())
}

/// Calls `globset::GlobSetBuilder::build`: the set holds the patterns of the
/// builder. A builder without patterns always gives a set. Otherwise it fails
/// where a pattern is nested too deep to be compiled or the compiled patterns
/// take too much room, which depends on the machine; when that is, and what the
/// error says, is not stated.
#[verifier::external_body]
fn build_set(builder: &GlobSetBuilder) -> (r: Result<GlobSet, String>)
    ensures
        r matches Ok(set) ==> set_globs(set) == builder_globs(*builder),
        builder_globs(*builder).len() == 0 ==> r is Ok,
{
    builder.build().map_err(|e| e.to_string())
}

/// Calls `globset::GlobSet::is_match`, which tells whether any pattern of the
/// set matches the path; a set without patterns matches none. Of a pattern or a
/// path with a backslash nothing else is stated.
#[verifier::external_body]
fn set_matches(set: &GlobSet, path: &str) -> (r: bool)
    ensures
        set_globs(*set).len() == 0 ==> !r,
        all_portable(set_globs(*set)) && portable(path@) ==> (r == (exists|i: int|
            (0 <= i < set_globs(*set).len() && glob_matches(#[trigger] set_globs(*set)[i], path@)))),
{
    set.is_match(path)
}

/// The rules that apply to an app: those for all apps, then its own, without
/// blanks around them and without empty ones.
pub open spec fn rules_for(app: AppContents, c: ConfigContents) -> Seq<Seq<char>> {
    trimmed_nonempty(c.backup.excludes + app.excludes)
}

/// Effective exclude rules: global settings first, then app-specific ones.
pub fn combined_excludes(app: &App, config: &Config) -> (r: Vec<String>)
    ensures
        texts(r@) == rules_for(app@, config@),
{
    let mut all = clone_texts(&config.backup.excludes);
    let mut own = clone_texts(&app.excludes);
    let ghost a = all@;
    let ghost b = own@;
    all.append(&mut own);
    assert(texts(all@) =~= texts(a) + texts(b));
    trim_all(&all)
}

/// What is wrong with the first rule that is not accepted, where there is one.
pub open spec fn first_fault(rules: Seq<Seq<char>>) -> Option<Seq<char>>
    decreases rules.len(),
{
    if rules.len() == 0 {
        None
    } else {
        match glob_error(rules[0]) {
            Some(why) => Some(why),
            None => first_fault(rules.skip(1)),
        }
    }
}

/// The given rules on their way into a set. Where none of them holds a backslash,
/// this succeeds if and only if all are accepted, and otherwise fails with what is
/// wrong with the first that is not.
pub fn rule_builder(rules: &Vec<String>) -> (r: Result<GlobSetBuilder, String>)
    ensures
        r matches Ok(b) ==> builder_globs(b) == texts(rules@),
        rules@.len() == 0 ==> r is Ok,
        all_portable(texts(rules@)) ==> match r {
            Ok(_) => first_fault(texts(rules@)) is None,
            Err(why) => first_fault(texts(rules@)) == Some(why@),
        },
{
    let ghost all = texts(rules@);
    let mut builder = new_builder();
    let mut i: usize = 0;
    assert(all.skip(0) =~= all);
    assert(builder_globs(builder) =~= all.take(0));
    while i < rules.len()
        invariant
            i <= rules@.len(),
            all == texts(rules@),
            builder_globs(builder) == all.take(i as int),
            all_portable(all) ==> first_fault(all) == first_fault(all.skip(i as int)),
        decreases rules@.len() - i,
    {
        proof {
            assert(all[i as int] == rules@[i as int]@);
            assert(all.skip(i as int)[0] == all[i as int]);
            assert(all.skip(i as int).skip(1) =~= all.skip(i + 1));
        }
        match add_glob(&mut builder, rules[i].as_str()) {
            Ok(_) => {},
            Err(why) => {
                return Err(why);
            },
        }
        assert(all.take(i as int).push(all[i as int]) =~= all.take(i + 1));
        i = i + 1;
    }
    assert(all.take(i as int) =~= all);
    Ok(builder)
}

/// The set of the given rules. Where none of them holds a backslash, the first
/// that is not accepted makes it fail; otherwise the set holds them all, unless
/// it grows too large. Without rules it never fails.
pub fn exclude_set(rules: &Vec<String>) -> (r: Result<GlobSet, String>)
    ensures
        r matches Ok(set) ==> set_globs(set) == texts(rules@),
        rules@.len() == 0 ==> r is Ok,
        all_portable(texts(rules@)) ==> (first_fault(texts(rules@)) matches Some(why) ==> r is Err
            && r->Err_0@ == why),
{
    assert(texts(rules@).len() == rules@.len());
    match rule_builder(rules) {
        Ok(builder) => build_set(&builder),
        Err(why) => Err(why),
    }
}

/// The set of the rules that apply to an app.
pub fn build_excludes(app: &App, config: &Config) -> (r: Result<GlobSet, String>)
    ensures
        r matches Ok(set) ==> set_globs(set) == rules_for(app@, config@),
        rules_for(app@, config@).len() == 0 ==> r is Ok,
        all_portable(rules_for(app@, config@)) ==> (first_fault(rules_for(app@, config@)) matches Some(
            why,
        ) ==> r is Err && r->Err_0@ == why),
{
    let rules = combined_excludes(app, config);
    assert(texts(rules@).len() == rules@.len());
    exclude_set(&rules)
}

/// Whether rules exclude what lies at `abs` and at `rel` below its root.
pub open spec fn excluded_by(
    p: Platform,
    rules: Seq<Seq<char>>,
    abs: Seq<char>,
    rel: Seq<char>,
) -> bool {
    any_matches(rules, replaced(rel, '\\', '/')) || any_matches(rules, slashed(p, abs))
}

proof fn lemma_replaced_portable(s: Seq<char>)
    ensures
        portable(replaced(s, '\\', '/')),
{
    let r = replaced(s, '\\', '/');
    if r.contains('\\') {
        let i = choose|i: int| 0 <= i < r.len() && r[i] == '\\';
        assert(r[i] == if s[i] == '\\' { '/' } else { s[i] });
    }
}

/// Whether the rules exclude what lies at `abs` and at `rel` below its root. A
/// path below the root is always matched with `/` between components. Without
/// rules nothing is excluded.
pub fn is_excluded(excludes: &GlobSet, abs: &str, rel: &str, platform: Platform) -> (r: bool)
    ensures
        set_globs(*excludes).len() == 0 ==> !r,
        all_portable(set_globs(*excludes)) && any_matches(
            set_globs(*excludes),
            replaced(rel@, '\\', '/'),
        ) ==> r,
        all_portable(set_globs(*excludes)) && portable(slashed(platform, abs@)) ==> r
            == excluded_by(platform, set_globs(*excludes), abs@, rel@),
{
    let rel_slash = replace_char(rel, '\\', '/');
    proof {
        lemma_replaced_portable(rel@);
    }
    if set_matches(excludes, rel_slash.as_str()) {
        return true;
    }
    match platform {
        Platform::Windows => {
            let abs_slash = replace_char(abs, '\\', '/');
            set_matches(excludes, abs_slash.as_str())
        },
        _ => set_matches(excludes, abs),
    }
}

// ---------------------------------------------------------------------------
// Laws
// ---------------------------------------------------------------------------

/// Whether one of the texts is not blank and, without white space around it, is
/// `rule`.
pub open spec fn has_rule(list: Seq<Seq<char>>, rule: Seq<char>) -> bool {
    exists|i: int|
        0 <= i < list.len() && trimmed(#[trigger] list[i]) == rule && !blank(
            list[i],
            0,
            list[i].len() as int,
        )
}

/// Every rule of the settings applies to every app, whatever rules of its own it
/// has; so does every rule of the app; and no other. Blank ones are none.
pub proof fn rules_are_those_of_settings_and_app(
    app: AppContents,
    c: ConfigContents,
    rule: Seq<char>,
)
    ensures
        rules_for(app, c).contains(rule) <==> has_rule(c.backup.excludes, rule) || has_rule(
            app.excludes,
            rule,
        ),
{
    let own = app.excludes;
    let all = c.backup.excludes;
    let both = all + own;
    trimmed_holds(both, rule);
    if has_rule(both, rule) {
        let i = choose|i: int|
            0 <= i < both.len() && trimmed(#[trigger] both[i]) == rule && !blank(
                both[i],
                0,
                both[i].len() as int,
            );
        if i < all.len() {
            assert(all[i] == both[i]);
        } else {
            assert(own[i - all.len()] == both[i]);
        }
    }
    if has_rule(all, rule) {
        let i = choose|i: int|
            0 <= i < all.len() && trimmed(#[trigger] all[i]) == rule && !blank(
                all[i],
                0,
                all[i].len() as int,
            );
        assert(both[i] == all[i]);
    }
    if has_rule(own, rule) {
        let i = choose|i: int|
            0 <= i < own.len() && trimmed(#[trigger] own[i]) == rule && !blank(
                own[i],
                0,
                own[i].len() as int,
            );
        assert(both[all.len() + i] == own[i]);
    }
}

/// The rules of the settings come before those of the app: an app has the rules
/// that one without its own has, and behind them those that it has where the
/// settings have none.
pub proof fn rules_of_settings_come_first(
    app: AppContents,
    plain: AppContents,
    c: ConfigContents,
    bare: ConfigContents,
)
    requires
        plain.excludes.len() == 0,
        bare.backup.excludes.len() == 0,
    ensures
        rules_for(app, c) == rules_for(plain, c) + rules_for(app, bare),
{
    assert(c.backup.excludes + plain.excludes =~= c.backup.excludes);
    assert(bare.backup.excludes + app.excludes =~= app.excludes);
    trimmed_of_both(c.backup.excludes, app.excludes);
}

/// One rule more of an app comes last, without white space around it; a blank one
/// changes nothing.
pub proof fn rule_of_app_comes_last(
    app: AppContents,
    more: AppContents,
    c: ConfigContents,
    rule: Seq<char>,
)
    requires
        more.excludes == app.excludes.push(rule),
    ensures
        rules_for(more, c) == if blank(rule, 0, rule.len() as int) {
            rules_for(app, c)
        } else {
            rules_for(app, c).push(trimmed(rule))
        },
{
    let both = c.backup.excludes + app.excludes;
    assert(c.backup.excludes + more.excludes =~= both.push(rule));
    trimmed_one_more(both, rule);
}

/// What a rule of the settings matches is excluded from the backup of every app.
pub proof fn settings_exclude_for_every_app(
    p: Platform,
    app: AppContents,
    c: ConfigContents,
    i: int,
    abs: Seq<char>,
    rel: Seq<char>,
)
    requires
        0 <= i < c.backup.excludes.len(),
        !blank(c.backup.excludes[i], 0, c.backup.excludes[i].len() as int),
        glob_matches(trimmed(c.backup.excludes[i]), replaced(rel, '\\', '/')) || glob_matches(
            trimmed(c.backup.excludes[i]),
            slashed(p, abs),
        ),
    ensures
        excluded_by(p, rules_for(app, c), abs, rel),
{
    let rule = trimmed(c.backup.excludes[i]);
    let rules = rules_for(app, c);
    rules_are_those_of_settings_and_app(app, c, rule);
    assert(has_rule(c.backup.excludes, rule));
    let k = choose|k: int| 0 <= k < rules.len() && rules[k] == rule;
    assert(glob_matches(rules[k], replaced(rel, '\\', '/')) || glob_matches(
        rules[k],
        slashed(p, abs),
    ));
}

/// Without rules nothing is excluded.
pub proof fn no_rules_exclude_nothing(p: Platform, abs: Seq<char>, rel: Seq<char>)
    ensures
        !excluded_by(p, Seq::empty(), abs, rel),
        first_fault(Seq::empty()) is None,
{
}

/// What rules exclude, more rules exclude too.
pub proof fn more_rules_exclude_more(
    p: Platform,
    rules: Seq<Seq<char>>,
    more: Seq<Seq<char>>,
    abs: Seq<char>,
    rel: Seq<char>,
)
    ensures
        excluded_by(p, rules + more, abs, rel) == (excluded_by(p, rules, abs, rel) || excluded_by(
            p,
            more,
            abs,
            rel,
        )),
{
    lemma_any_matches_split(rules, more, replaced(rel, '\\', '/'));
    lemma_any_matches_split(rules, more, slashed(p, abs));
}

proof fn lemma_any_matches_split(a: Seq<Seq<char>>, b: Seq<Seq<char>>, path: Seq<char>)
    ensures
        any_matches(a + b, path) == (any_matches(a, path) || any_matches(b, path)),
{
    let all = a + b;
    if any_matches(all, path) {
        let i = choose|i: int| 0 <= i < all.len() && glob_matches(#[trigger] all[i], path);
        if i < a.len() {
            assert(glob_matches(a[i], path));
        } else {
            assert(glob_matches(b[i - a.len()], path));
        }
    }
    if any_matches(a, path) {
        let i = choose|i: int| 0 <= i < a.len() && glob_matches(#[trigger] a[i], path);
        assert(glob_matches(all[i], path));
    }
    if any_matches(b, path) {
        let i = choose|i: int| 0 <= i < b.len() && glob_matches(#[trigger] b[i], path);
        assert(glob_matches(all[a.len() + i], path));
    }
}

/// A path is excluded where one of the rules matches it, be it as a whole or as it is
/// seen from its root, and only there. Separators are read as `/`.
pub proof fn excluded_means_a_rule_matches(
    p: Platform,
    rules: Seq<Seq<char>>,
    abs: Seq<char>,
    rel: Seq<char>,
)
    ensures
        excluded_by(p, rules, abs, rel) <==> exists|i: int|
            0 <= i < rules.len() && (glob_matches(
                #[trigger] rules[i],
                replaced(rel, '\\', '/'),
            ) || glob_matches(
                rules[i],
                if p is Windows {
                    replaced(abs, '\\', '/')
                } else {
                    abs
                },
            )),
{
    let r = replaced(rel, '\\', '/');
    let a = slashed(p, abs);
    if any_matches(rules, r) {
        let i = choose|i: int| 0 <= i < rules.len() && glob_matches(#[trigger] rules[i], r);
        assert(glob_matches(rules[i], r));
    }
    if any_matches(rules, a) {
        let i = choose|i: int| 0 <= i < rules.len() && glob_matches(#[trigger] rules[i], a);
        assert(glob_matches(rules[i], a));
    }
}

/// The fault that is told of rules is that of the first that is not accepted; where
/// all are accepted there is none.
pub proof fn first_fault_is_that_of_the_first_bad_rule(
    good: Seq<Seq<char>>,
    bad: Seq<char>,
    more: Seq<Seq<char>>,
)
    requires
        forall|i: int| 0 <= i < good.len() ==> glob_error(#[trigger] good[i]) is None,
        glob_error(bad) is Some,
    ensures
        first_fault(good) is None,
        first_fault(good + seq![bad] + more) == glob_error(bad),
    decreases good.len(),
{
    let all = good + seq![bad] + more;
    if good.len() > 0 {
        let rest = good.skip(1);
        assert forall|i: int| 0 <= i < rest.len() implies glob_error(#[trigger] rest[i]) is None by {
            assert(rest[i] == good[i + 1]);
        }
        first_fault_is_that_of_the_first_bad_rule(rest, bad, more);
        assert(all[0] == good[0]);
        assert(all.skip(1) =~= rest + seq![bad] + more);
    } else {
        assert(all[0] == bad);
    }
}

} // verus!
