//! What the command line prints and changes.

use crate::appid::{base_id, is_first_free, lowercase};
use crate::backup::{count_results, outcome_list, AppOutcome, BackupReport};
use crate::commands::{id_list, input_app, new_app_id, saved};
use crate::config::{App, AppContents, Config, ConfigContents, Format, SettingsContents};
use crate::events::{AppResult, Event, EventView};
use crate::history::HistoryEntry;
use crate::pathres::{PathState, PathView};
use crate::platform::Platform;
use crate::table::PathTable;
use crate::text::{
    blank, cat, cat3, cat4, decimal, decimal_text, ends_in, ends_in_what_is_put_behind, join_texts,
    joined, texts, trim, trimmed, trimming_keeps_core,
};
use vstd::prelude::*;
use vstd::string::*;

verus! {

/// The configuration with the format that the command line names, if it names
/// one.
pub fn override_format(config: Config, format: Option<&str>) -> (r: Result<Config, String>)
    ensures
        match format {
            None => r is Ok && r->Ok_0@ == config@,
            Some(name) => match Format::of_name(name@) {
                Some(f) => r is Ok && r->Ok_0@ == (ConfigContents {
                    backup: SettingsContents { format: f, ..config@.backup },
                    ..config@
                }),
                None => r is Err && r->Err_0@ == "unknown format: "@ + name@,
            },
        },
{
    let mut config = config;
    match format {
        None => Ok(config),
        Some(name) => match Format::parse(name) {
            Some(f) => {
                config.backup.format = f;
                Ok(config)
            },
            None => Err(cat("unknown format: ", name)),
        },
    }
}

/// The sign for a result.
pub open spec fn mark(r: AppResult) -> Seq<char> {
    match r {
        AppResult::Succeeded => "✓"@,
        AppResult::Skipped => "–"@,
        AppResult::Failed => "✗"@,
        AppResult::Cancelled => "×"@,
    }
}

/// The sign for a result.
pub fn result_mark(r: AppResult) -> (s: &'static str)
    ensures
        s@ == mark(r),
{
    match r {
        AppResult::Succeeded => "✓",
        AppResult::Skipped => "–",
        AppResult::Failed => "✗",
        AppResult::Cancelled => "×",
    }
}

/// What is printed of an event, and where.
#[derive(Debug, Clone)]
pub enum Line {
    /// A line of output.
    Output(String),
    /// A line of diagnostics.
    Diagnostic(String),
    Nothing,
}

/// The contents of a [`Line`].
#[verifier::ext_equal]
pub enum LineView {
    Output(Seq<char>),
    Diagnostic(Seq<char>),
    Nothing,
}

impl View for Line {
    type V = LineView;

    open spec fn view(&self) -> LineView {
        match self {
            Line::Output(t) => LineView::Output(t@),
            Line::Diagnostic(t) => LineView::Diagnostic(t@),
            Line::Nothing => LineView::Nothing,
        }
    }
}

/// What is printed of an event. Progress is printed on its own.
pub open spec fn printed(ev: EventView) -> LineView {
    match ev {
        EventView::Log { level, msg } => LineView::Diagnostic("["@ + level.name() + "] "@ + msg),
        EventView::AppStarted { app_id } => LineView::Output("▶ started "@ + app_id),
        EventView::AppFinished { app_id, result, detail, .. } => LineView::Output(
            mark(result) + " "@ + app_id + (": "@ + detail),
        ),
        _ => LineView::Nothing,
    }
}

/// What is printed of an event.
pub fn event_line(ev: &Event) -> (r: Line)
    ensures
        r@ == printed(ev@),
{
    match ev {
        Event::Log { level, msg } => Line::Diagnostic(cat4("[", level.as_str(), "] ", msg.as_str())),
        Event::AppStarted { app_id } => Line::Output(cat("▶ started ", app_id.as_str())),
        Event::AppFinished { app_id, result, detail, .. } => {
            let head = cat3(result_mark(*result), " ", app_id.as_str());
            let tail = cat(": ", detail.as_str());
            Line::Output(cat(head.as_str(), tail.as_str()))
        },
        _ => Line::Nothing,
    }
}

/// The line on the progress of all apps together; `percent` is the share of the
/// bytes that is done.
pub fn progress_line(
    apps_done: usize,
    apps_total: usize,
    bytes_done: u64,
    bytes_total: u64,
    percent: u32,
) -> (r: String)
    ensures
        r@ == "⏳ apps "@ + decimal(apps_done as nat) + "/"@ + decimal(apps_total as nat) + (
        "  bytes "@ + decimal(bytes_done as nat) + "/"@ + decimal(bytes_total as nat)) + (" ("@
            + decimal(percent as nat) + "%)   "@),
{
    let a = decimal_text(apps_done as u128);
    let b = decimal_text(apps_total as u128);
    let c = decimal_text(bytes_done as u128);
    let d = decimal_text(bytes_total as u128);
    let e = decimal_text(percent as u128);
    let apps = cat4("⏳ apps ", a.as_str(), "/", b.as_str());
    let bytes = cat4("  bytes ", c.as_str(), "/", d.as_str());
    let share = cat3(" (", e.as_str(), "%)   ");
    cat3(apps.as_str(), bytes.as_str(), share.as_str())
}

/// The line on what came of an app.
pub fn outcome_line(o: &AppOutcome) -> (r: String)
    ensures
        r@ == "  "@ + mark(o@.result) + " "@ + o@.app_id + ("  "@ + o@.detail),
{
    let head = cat4("  ", result_mark(o.result), " ", o.app_id.as_str());
    let tail = cat("  ", o.detail.as_str());
    cat(head.as_str(), tail.as_str())
}

/// The line with the counts of a run.
pub fn count_line(report: &BackupReport) -> (r: String)
    ensures
        ({
            let all = outcome_list(report.outcomes@);
            r@ == "  ok="@ + decimal(count_results(all, AppResult::Succeeded)) + " failed="@
                + decimal(count_results(all, AppResult::Failed)) + (" skipped="@ + decimal(
                count_results(all, AppResult::Skipped),
            ) + " cancelled="@ + decimal(count_results(all, AppResult::Cancelled)))
        }),
{
    let a = decimal_text(report.ok() as u128);
    let b = decimal_text(report.failed() as u128);
    let c = decimal_text(report.skipped() as u128);
    let d = decimal_text(report.cancelled() as u128);
    let head = cat4("  ok=", a.as_str(), " failed=", b.as_str());
    let tail = cat4(" skipped=", c.as_str(), " cancelled=", d.as_str());
    cat(head.as_str(), tail.as_str())
}

/// The exit code of a run: 1 where an app failed.
pub fn exit_code(report: &BackupReport) -> (r: i32)
    ensures
        r == if count_results(outcome_list(report.outcomes@), AppResult::Failed) > 0 {
            1i32
        } else {
            0i32
        },
{
    if report.failed() > 0 {
        1
    } else {
        0
    }
}

/// The line on an entry of the history.
pub fn history_line(e: &HistoryEntry) -> (r: String)
    ensures
        r@ == e@.app_id + "\t"@ + e@.file + "\t"@ + (decimal(e@.size as nat) + "\t"@ + e@.status),
{
    let size = decimal_text(e.size as u128);
    let head = cat4(e.app_id.as_str(), "\t", e.file.as_str(), "\t");
    let tail = cat3(size.as_str(), "\t", e.status.as_str());
    cat(head.as_str(), tail.as_str())
}

/// The first line on an app.
pub open spec fn app_headline(a: AppContents) -> Seq<char> {
    a.id + " ("@ + a.name + ") ["@ + ((if a.enabled {
        "enabled"@
    } else {
        "disabled"@
    }) + "] - "@ + joined(a.excludes, ","@))
}

/// The line on a path of an app.
pub open spec fn path_line(key: Seq<char>, path: Seq<char>) -> Seq<char> {
    "    "@ + key + ": "@ + path
}

/// The lines on the paths under a key.
pub open spec fn key_lines(key: Seq<char>, paths: Seq<Seq<char>>) -> Seq<Seq<char>> {
    paths.map_values(|path: Seq<char>| path_line(key, path))
}

/// The lines on the paths of an app.
pub open spec fn table_lines(table: Seq<(Seq<char>, Seq<Seq<char>>)>) -> Seq<Seq<char>>
    decreases table.len(),
{
    if table.len() == 0 {
        Seq::empty()
    } else {
        table_lines(table.drop_last()) + key_lines(table.last().0, table.last().1)
    }
}

/// The lines on an app.
pub fn app_lines(app: &App) -> (r: Vec<String>)
    ensures
        texts(r@) == seq![app_headline(app@)] + table_lines(app@.paths),
{
    let rules = join_texts(&app.excludes, ",");
    let enabled: &str = if app.enabled {
        "enabled"
    } else {
        "disabled"
    };
    let head = cat4(app.id.as_str(), " (", app.name.as_str(), ") [");
    let tail = cat3(enabled, "] - ", rules.as_str());
    let mut r: Vec<String> = Vec::new();
    r.push(cat(head.as_str(), tail.as_str()));
    let ghost first = seq![app_headline(app@)];
    let ghost all = app@.paths;
    let mut i: usize = 0;
    assert(texts(r@) =~= first + table_lines(all.take(0)));
    while i < app.paths.len()
        invariant
            i <= app.paths@.len(),
            all == app.paths@,
            texts(r@) == first + table_lines(all.take(i as int)),
        decreases app.paths@.len() - i,
    {
        let ghost done = texts(r@);
        let key = app.paths.key(i);
        let paths = app.paths.paths(i);
        let ghost lines = key_lines(key@, texts(paths@));
        let mut k: usize = 0;
        assert(texts(r@) =~= done + lines.take(0));
        while k < paths.len()
            invariant
                k <= paths@.len(),
                lines == key_lines(key@, texts(paths@)),
                texts(r@) == done + lines.take(k as int),
            decreases paths@.len() - k,
        {
            let ghost so_far = r@;
            let line = cat4("    ", key.as_str(), ": ", paths[k].as_str());
            r.push(line);
            k = k + 1;
            proof {
                assert(lines[k - 1] == line@);
                assert(texts(r@) =~= texts(so_far).push(line@));
                assert(lines.take(k as int) =~= lines.take(k - 1).push(lines[k - 1]));
                assert(texts(r@) =~= done + lines.take(k as int));
            }
        }
        proof {
            assert(lines.take(k as int) =~= lines);
            assert(all.take(i + 1).drop_last() =~= all.take(i as int));
            assert(all.take(i + 1).last() == all[i as int]);
        }
        i = i + 1;
        assert(texts(r@) =~= first + table_lines(all.take(i as int)));
    }
    assert(all.take(i as int) =~= all);
    r
}

/// The line on a configured path, given whether something exists there.
pub open spec fn checked_path(app_id: Seq<char>, state: PathView, exists_there: bool) -> Seq<char> {
    match state {
        PathView::Resolved { path } => "  "@ + app_id + " -> "@ + path + if exists_there {
            " [ok]"@
        } else {
            " [missing]"@
        },
        PathView::UndefinedVar { var } => "  "@ + app_id + " -> UNDEFINED VAR "@ + var,
        PathView::OtherPlatform { .. } => "  "@ + app_id + " -> other platform, ignored"@,
    }
}

/// The line on a configured path, given whether something exists there.
pub fn check_line(app_id: &str, state: &PathState, exists_there: bool) -> (r: String)
    ensures
        r@ == checked_path(app_id@, state@, exists_there),
{
    match state {
        PathState::Resolved { path } => {
            let head = cat4("  ", app_id, " -> ", path.as_str());
            if exists_there {
                cat(head.as_str(), " [ok]")
            } else {
                cat(head.as_str(), " [missing]")
            }
        },
        PathState::UndefinedVar { var } => cat4("  ", app_id, " -> UNDEFINED VAR ", var.as_str()),
        PathState::OtherPlatform { .. } => cat3("  ", app_id, " -> other platform, ignored"),
    }
}

/// The text that an id is made from: the name where no id is given, the given id
/// where it is taken.
pub open spec fn id_source(id: Seq<char>, name: Seq<char>) -> Seq<char> {
    if trimmed(id).len() == 0 {
        name
    } else {
        id
    }
}

/// The configuration with an app added, ready to be written. Where no id is
/// given, or one that is taken, a new one is made.
pub fn stage_add_app(config: &Config, id: &str, name: &str, path: &str, platform: Platform) -> (r:
    Result<Config, String>)
    ensures
        ({
            let c = config@;
            let given = trimmed(id@);
            let fresh = given.len() == 0 || id_list(c.apps).contains(given);
            exists|new_id: Seq<char>|
                {
                    &&& !fresh ==> new_id == given
                    &&& fresh ==> is_first_free(
                        base_id(lowercase(trimmed(id_source(id@, name@)))),
                        id_list(c.apps),
                        new_id,
                    )
                    &&& saved(
                        c,
                        #[trigger] input_app(
                            new_id,
                            name@,
                            true,
                            true,
                            seq![path@],
                            Seq::empty(),
                            platform,
                        ),
                        platform,
                        r,
                    )
                }
        }),
{
    let mut candidate = config.clone();
    let given = trim(id);
    let i: usize = config.find_app(given.as_str());
    proof {
        crate::config::app_found(config@.apps, given@);
    }
    let new_id = if given.as_str().is_empty() {
        new_app_id(config, name)
    } else if i < config.apps.len() {
        new_app_id(config, id)
    } else {
        given
    };
    let ghost id_now = new_id@;
    let mut paths = PathTable::new();
    let mut list: Vec<String> = Vec::new();
    list.push(path.to_string());
    let ghost only = texts(list@);
    assert(only =~= seq![path@]);
    paths.insert(platform.as_str().to_string(), list);
    assert(paths@ =~= seq![(platform.key(), seq![path@])]);
    let app = App {
        id: new_id,
        name: name.to_string(),
        enabled: true,
        paths,
        excludes: Vec::new(),
        compress: true,
    };
    let ghost app_view = app@;
    proof {
        assert(app_view.excludes =~= Seq::empty());
        assert(app_view == input_app(
            id_now,
            name@,
            true,
            true,
            seq![path@],
            Seq::empty(),
            platform,
        ));
    }
    let r = match candidate.upsert_app(app, platform) {
        Ok(_) => Ok(candidate),
        Err(why) => Err(why),
    };
    assert(saved(config@, app_view, platform, r));
    r
}

// ---------------------------------------------------------------------------
// Laws
// ---------------------------------------------------------------------------

/// Different results have different signs.
pub proof fn marks_differ(a: AppResult, b: AppResult)
    requires
        mark(a) == mark(b),
    ensures
        a == b,
{
    reveal_strlit("✓");
    reveal_strlit("–");
    reveal_strlit("✗");
    reveal_strlit("×");
    assert("✓"@[0] == '✓' && "–"@[0] == '–' && "✗"@[0] == '✗' && "×"@[0] == '×');
}

/// What is logged goes to the diagnostics and ends with its message; the start and the
/// end of an app go to the output, the end with its sign first, the app behind it and
/// the detail last. Of nothing else a line is printed.
pub proof fn events_are_printed_in_their_place(ev: EventView)
    ensures
        match ev {
            EventView::Log { level, msg } => printed(ev) matches LineView::Diagnostic(t) && ends_in(
                t,
                level.name() + "] "@ + msg,
            ),
            EventView::AppStarted { app_id } => printed(ev) matches LineView::Output(t) && ends_in(
                t,
                app_id,
            ),
            EventView::AppFinished { app_id, result, detail, .. } => printed(ev) matches LineView::Output(
                t,
            ) && ends_in(t, app_id + ": "@ + detail) && t.len() >= mark(result).len() && t.take(
                mark(result).len() as int,
            ) == mark(result),
            _ => printed(ev) is Nothing,
        },
{
    match ev {
        EventView::Log { level, msg } => {
            let tail = level.name() + "] "@ + msg;
            ends_in_what_is_put_behind("["@, tail);
            assert("["@ + level.name() + "] "@ + msg =~= "["@ + tail);
        },
        EventView::AppStarted { app_id } => {
            ends_in_what_is_put_behind("▶ started "@, app_id);
        },
        EventView::AppFinished { app_id, result, detail, .. } => {
            let tail = app_id + ": "@ + detail;
            let t = mark(result) + " "@ + app_id + (": "@ + detail);
            ends_in_what_is_put_behind(mark(result) + " "@, tail);
            assert(t =~= mark(result) + " "@ + tail);
            assert(t.take(mark(result).len() as int) =~= mark(result));
        },
        _ => {},
    }
}

/// How many paths a table holds.
pub open spec fn path_count(table: Seq<(Seq<char>, Seq<Seq<char>>)>) -> nat
    decreases table.len(),
{
    if table.len() == 0 {
        0
    } else {
        path_count(table.drop_last()) + table.last().1.len()
    }
}

/// Every path of an app is listed, with its key, and nothing else is.
pub proof fn every_path_is_listed(
    table: Seq<(Seq<char>, Seq<Seq<char>>)>,
    k: int,
    i: int,
)
    ensures
        table_lines(table).len() == path_count(table),
        0 <= k < table.len() && 0 <= i < table[k].1.len() ==> table_lines(table).contains(
            "    "@ + table[k].0 + ": "@ + table[k].1[i],
        ),
    decreases table.len(),
{
    if table.len() > 0 {
        let rest = table.drop_last();
        let (key, paths) = table.last();
        every_path_is_listed(rest, k, i);
        let before = table_lines(rest);
        let own = key_lines(key, paths);
        let all = table_lines(table);
        if 0 <= k < table.len() && 0 <= i < table[k].1.len() {
            let line = "    "@ + table[k].0 + ": "@ + table[k].1[i];
            if k < rest.len() {
                assert(rest[k] == table[k]);
                let j = choose|j: int| 0 <= j < before.len() && before[j] == line;
                assert(all[j] == line);
            } else {
                assert(own[i] == line);
                assert(all[before.len() + i] == line);
            }
        }
    }
}

/// The first line on an app starts with its id and its name, tells whether it is
/// enabled, and ends with its rules.
pub proof fn headline_tells_of_app(a: AppContents)
    ensures
        ({
            let head = a.id + " ("@ + a.name + ") ["@;
            let t = app_headline(a);
            &&& t.len() >= head.len()
            &&& t.take(head.len() as int) == head
            &&& a.enabled ==> t.skip(head.len() as int) == "enabled"@ + "] - "@ + joined(
                a.excludes,
                ","@,
            )
            &&& !a.enabled ==> t.skip(head.len() as int) == "disabled"@ + "] - "@ + joined(
                a.excludes,
                ","@,
            )
        }),
{
    let head = a.id + " ("@ + a.name + ") ["@;
    let tail = (if a.enabled {
        "enabled"@
    } else {
        "disabled"@
    }) + "] - "@ + joined(a.excludes, ","@);
    assert(app_headline(a) =~= head + tail);
    assert((head + tail).take(head.len() as int) =~= head);
    assert((head + tail).skip(head.len() as int) =~= tail);
}

/// The line on a path tells what it stands for and whether something is there, or
/// which variable is not defined.
pub proof fn check_tells_of_path(
    app_id: Seq<char>,
    path: Seq<char>,
    var: Seq<char>,
)
    ensures
        ends_in(checked_path(app_id, PathView::Resolved { path }, true), path + " [ok]"@),
        ends_in(checked_path(app_id, PathView::Resolved { path }, false), path + " [missing]"@),
        ends_in(checked_path(app_id, PathView::UndefinedVar { var }, true), var),
        ends_in(checked_path(app_id, PathView::UndefinedVar { var }, false), var),
{
    let head = "  "@ + app_id + " -> "@;
    ends_in_what_is_put_behind(head, path + " [ok]"@);
    ends_in_what_is_put_behind(head, path + " [missing]"@);
    ends_in_what_is_put_behind("  "@ + app_id + " -> UNDEFINED VAR "@, var);
    assert(head + path + " [ok]"@ =~= head + (path + " [ok]"@));
    assert(head + path + " [missing]"@ =~= head + (path + " [missing]"@));
}

/// An id is made from the name where none is given, and else from what is given.
pub proof fn given_id_goes_before_name(id: Seq<char>, name: Seq<char>)
    ensures
        blank(id, 0, id.len() as int) ==> id_source(id, name) == name,
        !blank(id, 0, id.len() as int) ==> id_source(id, name) == id,
{
    trimming_keeps_core(id);
}

} // verus!
