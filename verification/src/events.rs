//! What is reported while a backup runs, and the totals over all apps.

use crate::text::{clone_opt, opt_text, same};
use core::time::Duration;
use std::collections::VecDeque;
use vstd::prelude::*;

verus! {

#[derive(Debug, Clone, Copy, PartialEq, Eq, Structural)]
pub enum LogLevel {
    Debug,
    Info,
    Warn,
    Error,
}

impl LogLevel {
    /// The name of the level.
    pub open spec fn name(self) -> Seq<char> {
        match self {
            LogLevel::Debug => "debug"@,
            LogLevel::Info => "info"@,
            LogLevel::Warn => "warn"@,
            LogLevel::Error => "error"@,
        }
    }

    pub fn as_str(&self) -> (r: &'static str)
        ensures
            r@ == self.name(),
    {
        match self {
            LogLevel::Debug => "debug",
            LogLevel::Info => "info",
            LogLevel::Warn => "warn",
            LogLevel::Error => "error",
        }
    }
}

/// How the backup of an app ended.
#[derive(Debug, Clone, Copy, PartialEq, Eq, Structural)]
pub enum AppResult {
    Succeeded,
    Skipped,
    Failed,
    Cancelled,
}

#[derive(Debug)]
pub enum Event {
    Log { level: LogLevel, msg: String },
    AppStarted { app_id: String },
    ScanUpdate { app_id: String, files_scanned: u64 },
    ScanDone { app_id: String, files_total: u64, bytes_total: u64 },
    FileDone { app_id: String, path: String, bytes_written: u64 },
    AppProgress {
        app_id: String,
        files_done: u64,
        files_total: u64,
        bytes_done: u64,
        bytes_total: u64,
        eta: Option<Duration>,
    },
    OverallProgress {
        apps_done: usize,
        apps_total: usize,
        bytes_done: u64,
        bytes_total: u64,
        eta: Option<Duration>,
    },
    AppFinished {
        app_id: String,
        result: AppResult,
        detail: String,
        size: u64,
        checksum: Option<String>,
    },
}

/// The contents of an [`Event`].
#[verifier::ext_equal]
pub enum EventView {
    Log { level: LogLevel, msg: Seq<char> },
    AppStarted { app_id: Seq<char> },
    ScanUpdate { app_id: Seq<char>, files_scanned: u64 },
    ScanDone { app_id: Seq<char>, files_total: u64, bytes_total: u64 },
    FileDone { app_id: Seq<char>, path: Seq<char>, bytes_written: u64 },
    AppProgress {
        app_id: Seq<char>,
        files_done: u64,
        files_total: u64,
        bytes_done: u64,
        bytes_total: u64,
        eta: Option<Duration>,
    },
    OverallProgress {
        apps_done: usize,
        apps_total: usize,
        bytes_done: u64,
        bytes_total: u64,
        eta: Option<Duration>,
    },
    AppFinished {
        app_id: Seq<char>,
        result: AppResult,
        detail: Seq<char>,
        size: u64,
        checksum: Option<Seq<char>>,
    },
}

impl View for Event {
    type V = EventView;

    open spec fn view(&self) -> EventView {
        match *self {
            Event::Log { level, msg } => EventView::Log { level, msg: msg@ },
            Event::AppStarted { app_id } => EventView::AppStarted { app_id: app_id@ },
            Event::ScanUpdate { app_id, files_scanned } => EventView::ScanUpdate {
                app_id: app_id@,
                files_scanned,
            },
            Event::ScanDone { app_id, files_total, bytes_total } => EventView::ScanDone {
                app_id: app_id@,
                files_total,
                bytes_total,
            },
            Event::FileDone { app_id, path, bytes_written } => EventView::FileDone {
                app_id: app_id@,
                path: path@,
                bytes_written,
            },
            Event::AppProgress { app_id, files_done, files_total, bytes_done, bytes_total, eta } => {
                EventView::AppProgress {
                    app_id: app_id@,
                    files_done,
                    files_total,
                    bytes_done,
                    bytes_total,
                    eta,
                }
            },
            Event::OverallProgress { apps_done, apps_total, bytes_done, bytes_total, eta } => {
                EventView::OverallProgress { apps_done, apps_total, bytes_done, bytes_total, eta }
            },
            Event::AppFinished { app_id, result, detail, size, checksum } => {
                EventView::AppFinished {
                    app_id: app_id@,
                    result,
                    detail: detail@,
                    size,
                    checksum: opt_text(checksum),
                }
            },
        }
    }
}

/// The contents of each event.
pub open spec fn event_list(events: Seq<Event>) -> Seq<EventView> {
    events.map_values(|e: Event| e@)
}

impl Clone for Event {
    fn clone(&self) -> (r: Event)
        ensures
            r@ == self@,
    {
        match self {
            Event::Log { level, msg } => Event::Log { level: *level, msg: msg.clone() },
            Event::AppStarted { app_id } => Event::AppStarted { app_id: app_id.clone() },
            Event::ScanUpdate { app_id, files_scanned } => Event::ScanUpdate {
                app_id: app_id.clone(),
                files_scanned: *files_scanned,
            },
            Event::ScanDone { app_id, files_total, bytes_total } => Event::ScanDone {
                app_id: app_id.clone(),
                files_total: *files_total,
                bytes_total: *bytes_total,
            },
            Event::FileDone { app_id, path, bytes_written } => Event::FileDone {
                app_id: app_id.clone(),
                path: path.clone(),
                bytes_written: *bytes_written,
            },
            Event::AppProgress { app_id, files_done, files_total, bytes_done, bytes_total, eta } => {
                Event::AppProgress {
                    app_id: app_id.clone(),
                    files_done: *files_done,
                    files_total: *files_total,
                    bytes_done: *bytes_done,
                    bytes_total: *bytes_total,
                    eta: *eta,
                }
            },
            Event::OverallProgress { apps_done, apps_total, bytes_done, bytes_total, eta } => {
                Event::OverallProgress {
                    apps_done: *apps_done,
                    apps_total: *apps_total,
                    bytes_done: *bytes_done,
                    bytes_total: *bytes_total,
                    eta: *eta,
                }
            },
            Event::AppFinished { app_id, result, detail, size, checksum } => Event::AppFinished {
                app_id: app_id.clone(),
                result: *result,
                detail: detail.clone(),
                size: *size,
                checksum: clone_opt(checksum),
            },
        }
    }
}

// ---------------------------------------------------------------------------
// Cancellation
// ---------------------------------------------------------------------------

/// A request to stop. Once made it stands. There is one of it for all who look at
/// it: it is shared, not copied.
#[derive(Debug)]
pub struct CancelFlag {
    flag: bool,
}

impl View for CancelFlag {
    type V = bool;

    closed spec fn view(&self) -> bool {
        self.flag
    }
}

impl Default for CancelFlag {
    fn default() -> (r: CancelFlag)
        ensures
            !r@,
    {
        CancelFlag { flag: false }
    }
}

impl CancelFlag {
    pub fn new() -> (r: CancelFlag)
        ensures
            !r@,
    {
        CancelFlag { flag: false }
    }

    pub fn cancel(&mut self)
        ensures
            final(self)@,
    {
        self.flag = true;
    }

    pub fn is_cancelled(&self) -> (r: bool)
        ensures
            r == self@,
    {
        self.flag
    }
}

// ---------------------------------------------------------------------------
// Totals over all apps
// ---------------------------------------------------------------------------

/// How many bytes are done, by app.
pub open spec fn done_of(done: Seq<(Seq<char>, u64)>, app_id: Seq<char>) -> u64
    decreases done.len(),
{
    if done.len() == 0 {
        0
    } else if done[0].0 == app_id {
        done[0].1
    } else {
        done_of(done.skip(1), app_id)
    }
}

/// `done` with the bytes of an app raised to `bytes`, where they are less.
pub open spec fn raised(done: Seq<(Seq<char>, u64)>, app_id: Seq<char>, bytes: u64) -> Seq<
    (Seq<char>, u64),
>
    decreases done.len(),
{
    if done.len() == 0 {
        seq![(app_id, bytes)]
    } else if done[0].0 == app_id {
        done.update(0, (app_id, if done[0].1 < bytes { bytes } else { done[0].1 }))
    } else {
        seq![done[0]] + raised(done.skip(1), app_id, bytes)
    }
}

/// The bytes of all apps together.
pub open spec fn total(done: Seq<(Seq<char>, u64)>) -> int
    decreases done.len(),
{
    if done.len() == 0 {
        0
    } else {
        total(done.drop_last()) + done.last().1
    }
}

/// What is known of all apps together.
#[derive(Debug)]
pub struct Aggregator {
    /// Bytes done, by app id.
    pub done: Vec<(String, u64)>,
    pub bytes_total: u64,
    pub apps_done: usize,
    pub apps_total: usize,
}

/// The contents of an [`Aggregator`].
#[verifier::ext_equal]
pub struct Totals {
    pub done: Seq<(Seq<char>, u64)>,
    pub bytes_total: u64,
    pub apps_done: usize,
    pub apps_total: usize,
}

impl View for Aggregator {
    type V = Totals;

    open spec fn view(&self) -> Totals {
        Totals {
            done: self.done@.map_values(|d: (String, u64)| (d.0@, d.1)),
            bytes_total: self.bytes_total,
            apps_done: self.apps_done,
            apps_total: self.apps_total,
        }
    }
}

impl Totals {
    /// Whether the counters can take the event.
    pub open spec fn has_room(self, ev: EventView) -> bool {
        match ev {
            EventView::ScanDone { bytes_total, .. } => self.bytes_total + bytes_total <= u64::MAX,
            EventView::AppFinished { result, .. } => result != AppResult::Cancelled
                ==> self.apps_done < usize::MAX,
            _ => true,
        }
    }

    /// What is known after the event: a finished scan adds its bytes, progress
    /// raises the bytes of its app, and an app that ended, but for a cancelled
    /// one, counts as done.
    pub open spec fn after(self, ev: EventView) -> Totals {
        match ev {
            EventView::ScanDone { bytes_total, .. } => Totals {
                bytes_total: (self.bytes_total + bytes_total) as u64,
                ..self
            },
            EventView::AppProgress { app_id, bytes_done, .. } => Totals {
                done: raised(self.done, app_id, bytes_done),
                ..self
            },
            EventView::AppFinished { result, .. } => if result != AppResult::Cancelled {
                Totals { apps_done: (self.apps_done + 1) as usize, ..self }
            } else {
                self
            },
            _ => self,
        }
    }
}

/// Whether the event is mere progress.
pub open spec fn is_progress(ev: EventView) -> bool {
    ev is AppProgress || ev is ScanUpdate || ev is OverallProgress
}

/// How long progress of all apps together is not repeated, in milliseconds.
pub const OVERALL_INTERVAL_MS: u128 = 100;

/// How many events wait at most for the one who watches.
pub const EVENT_QUEUE_LEN: usize = 4096;

/// How many seconds pass before a remaining time is estimated.
pub const ETA_DELAY_SECS: u64 = 5;

/// Whether enough time has passed for the next report.
pub fn report_due(elapsed_ms: u128) -> (r: bool)
    ensures
        r == (elapsed_ms >= OVERALL_INTERVAL_MS),
{
    elapsed_ms >= OVERALL_INTERVAL_MS
}

fn check_progress(ev: &Event) -> (r: bool)
    ensures
        r == is_progress(ev@),
{
    match ev {
        Event::AppProgress { .. } => true,
        Event::ScanUpdate { .. } => true,
        Event::OverallProgress { .. } => true,
        _ => false,
    }
}

/// The bytes that are left, where a remaining time can be estimated: some bytes
/// are done and the backup has run for a while.
pub fn eta_bytes_left(elapsed_secs: u64, bytes_done: u64, bytes_total: u64) -> (r: Option<u64>)
    ensures
        r == if bytes_total == 0 || bytes_done == 0 || elapsed_secs < ETA_DELAY_SECS {
            None::<u64>
        } else if bytes_done < bytes_total {
            Some((bytes_total - bytes_done) as u64)
        } else {
            Some(0)
        },
{
    if bytes_total == 0 || bytes_done == 0 || elapsed_secs < ETA_DELAY_SECS {
        return None;
    }
    if bytes_done < bytes_total {
        Some(bytes_total - bytes_done)
    } else {
        Some(0)
    }
}

/// The report on all apps together.
pub open spec fn report_on(t: Totals, bytes_done: u64, eta: Option<Duration>) -> EventView {
    EventView::OverallProgress {
        apps_done: t.apps_done,
        apps_total: t.apps_total,
        bytes_done,
        bytes_total: t.bytes_total,
        eta,
    }
}

impl Aggregator {
    /// Nothing is known yet of `apps_total` apps.
    pub fn new(apps_total: usize) -> (r: Aggregator)
        ensures
            r@ == (Totals { done: Seq::empty(), bytes_total: 0, apps_done: 0, apps_total }),
    {
        let r = Aggregator { done: Vec::new(), bytes_total: 0, apps_done: 0, apps_total };
        assert(r@.done =~= Seq::empty());
        r
    }

    /// Whether the counters can take the event.
    pub fn can_observe(&self, ev: &Event) -> (r: bool)
        ensures
            r == self@.has_room(ev@),
    {
        match ev {
            Event::ScanDone { bytes_total, .. } => *bytes_total <= u64::MAX - self.bytes_total,
            Event::AppFinished { result, .. } => match result {
                AppResult::Cancelled => true,
                _ => self.apps_done < usize::MAX,
            },
            _ => true,
        }
    }

    fn raise(&mut self, app_id: &str, bytes: u64)
        ensures
            final(self)@ == (Totals { done: raised(old(self)@.done, app_id@, bytes), ..old(self)@ }),
    {
        let ghost all = self@.done;
        let ghost before = self@;
        let mut i: usize = 0;
        proof {
            assert(all.skip(0) =~= all);
            assert(all.take(0) + raised(all, app_id@, bytes) =~= raised(all, app_id@, bytes));
        }
        while i < self.done.len()
            invariant
                i <= self.done@.len(),
                before == old(self)@,
                self@ == before,
                all == before.done,
                raised(all, app_id@, bytes) == all.take(i as int) + raised(
                    all.skip(i as int),
                    app_id@,
                    bytes,
                ),
            decreases self.done@.len() - i,
        {
            assert(all.skip(i as int)[0] == all[i as int]);
            if same(self.done[i].0.as_str(), app_id) {
                if self.done[i].1 < bytes {
                    self.done.set(i, (app_id.to_string(), bytes));
                }
                proof {
                    let most = if all[i as int].1 < bytes {
                        bytes
                    } else {
                        all[i as int].1
                    };
                    assert(self@.done =~= all.update(i as int, (app_id@, most)));
                    assert(all.update(i as int, (app_id@, most)) =~= all.take(i as int) + all.skip(
                        i as int,
                    ).update(0, (app_id@, most)));
                }
                return;
            }
            proof {
                assert(all.skip(i as int).skip(1) =~= all.skip(i + 1));
                assert(all.take(i as int) + (seq![all[i as int]] + raised(
                    all.skip(i + 1),
                    app_id@,
                    bytes,
                )) =~= all.take(i + 1) + raised(all.skip(i + 1), app_id@, bytes));
            }
            i = i + 1;
        }
        self.done.push((app_id.to_string(), bytes));
        proof {
            assert(all.skip(i as int) =~= Seq::empty());
            assert(self@.done =~= all.push((app_id@, bytes)));
            assert(all.take(i as int) + seq![(app_id@, bytes)] =~= all.push((app_id@, bytes)));
        }
    }

    /// Takes an event into account.
    pub fn observe(&mut self, ev: &Event)
        requires
            old(self)@.has_room(ev@),
        ensures
            final(self)@ == old(self)@.after(ev@),
    {
        match ev {
            Event::ScanDone { bytes_total, .. } => {
                self.bytes_total = self.bytes_total + *bytes_total;
            },
            Event::AppProgress { app_id, bytes_done, .. } => {
                self.raise(app_id.as_str(), *bytes_done);
            },
            Event::AppFinished { result, .. } => match result {
                AppResult::Cancelled => {},
                _ => {
                    self.apps_done = self.apps_done + 1;
                },
            },
            _ => {},
        }
    }

    /// Takes an event into account when the last report is `elapsed_ms` ago.
    /// Returns whether the next report is due, which then counts the event.
    pub fn step(&mut self, ev: &Event, elapsed_ms: u128) -> (r: bool)
        requires
            old(self)@.has_room(ev@),
        ensures
            final(self)@ == old(self)@.after(ev@),
            r == (elapsed_ms >= OVERALL_INTERVAL_MS),
    {
        self.observe(ev);
        report_due(elapsed_ms)
    }

    /// The bytes of all apps together; `None` where they are more than the
    /// counter holds.
    pub fn bytes_done(&self) -> (r: Option<u64>)
        ensures
            r == if total(self@.done) <= u64::MAX {
                Some(total(self@.done) as u64)
            } else {
                None
            },
    {
        let ghost all = self@.done;
        let mut sum: u64 = 0;
        let mut i: usize = 0;
        while i < self.done.len()
            invariant
                i <= self.done@.len(),
                all == self@.done,
                sum == total(all.take(i as int)),
            decreases self.done@.len() - i,
        {
            proof {
                assert(all.take(i + 1).drop_last() =~= all.take(i as int));
                lemma_total_take(all, i + 1);
            }
            if self.done[i].1 > u64::MAX - sum {
                return None;
            }
            sum = sum + self.done[i].1;
            i = i + 1;
        }
        assert(all.take(i as int) =~= all);
        Some(sum)
    }

    /// The report on all apps together.
    pub fn overall(&self, bytes_done: u64, eta: Option<Duration>) -> (r: Event)
        ensures
            r@ == report_on(self@, bytes_done, eta),
    {
        Event::OverallProgress {
            apps_done: self.apps_done,
            apps_total: self.apps_total,
            bytes_done,
            bytes_total: self.bytes_total,
            eta,
        }
    }
}

proof fn lemma_total_take(done: Seq<(Seq<char>, u64)>, n: int)
    requires
        0 <= n <= done.len(),
    ensures
        total(done.take(n)) <= total(done),
    decreases done.len() - n,
{
    if n < done.len() {
        lemma_total_take(done, n + 1);
        assert(done.take(n + 1).drop_last() =~= done.take(n));
    } else {
        assert(done.take(n) =~= done);
    }
}

// ---------------------------------------------------------------------------
// Events that wait for the one who watches
// ---------------------------------------------------------------------------

/// Events that wait, at most `limit` of them. Where the one who watches falls
/// behind, the oldest progress gives way; all other events are kept.
#[derive(Debug)]
pub struct EventQueue {
    events: VecDeque<Event>,
    limit: usize,
}

/// The contents of an [`EventQueue`].
#[verifier::ext_equal]
pub struct QueueView {
    pub events: Seq<EventView>,
    pub limit: nat,
}

impl View for EventQueue {
    type V = QueueView;

    closed spec fn view(&self) -> QueueView {
        QueueView { events: event_list(self.events@), limit: self.limit as nat }
    }
}

/// Where the first progress at or after `from` stands, or the length of `events`.
pub open spec fn first_progress(events: Seq<EventView>, from: int) -> int
    decreases events.len() - from,
{
    if from >= events.len() {
        events.len() as int
    } else if is_progress(events[from]) {
        from
    } else {
        first_progress(events, from + 1)
    }
}

impl QueueView {
    /// Whether an event has to wait outside: the queue is full of events that
    /// are kept, and it is one of them.
    pub open spec fn holds_off(self, ev: EventView) -> bool {
        &&& self.events.len() >= self.limit
        &&& first_progress(self.events, 0) >= self.events.len()
        &&& !is_progress(ev)
    }

    /// The queue once an event is offered to it. Where it is full, the oldest
    /// progress gives way, be it the event itself.
    pub open spec fn offered(self, ev: EventView) -> QueueView {
        let oldest = first_progress(self.events, 0);
        if self.events.len() < self.limit {
            QueueView { events: self.events.push(ev), ..self }
        } else if oldest < self.events.len() {
            QueueView { events: self.events.remove(oldest).push(ev), ..self }
        } else {
            self
        }
    }
}

impl QueueView {
    /// The queue with a report behind what waits, where there is one and room for
    /// it.
    pub open spec fn noted(self, report: Option<EventView>) -> QueueView {
        match report {
            Some(ev) if self.events.len() < self.limit => QueueView {
                events: self.events.push(ev),
                ..self
            },
            _ => self,
        }
    }
}

/// The contents of an optional event.
pub open spec fn opt_event(e: Option<Event>) -> Option<EventView> {
    match e {
        Some(ev) => Some(ev@),
        None => None,
    }
}

impl EventQueue {
    /// An empty queue.
    pub fn new(limit: usize) -> (r: EventQueue)
        ensures
            r@ == (QueueView { events: Seq::empty(), limit: limit as nat }),
    {
        let r = EventQueue { events: VecDeque::new(), limit };
        assert(r@.events =~= Seq::empty());
        r
    }

    /// Whether another event has room beside those that wait.
    pub fn has_room(&self) -> (r: bool)
        ensures
            r == (self@.events.len() < self@.limit),
    {
        assert(self@.events.len() == self.events@.len());
        self.events.len() < self.limit
    }

    /// Offers an event to the queue. It comes back where it has to wait outside.
    pub fn offer(&mut self, ev: Event) -> (r: Option<Event>)
        ensures
            final(self)@ == old(self)@.offered(ev@),
            match r {
                Some(back) => old(self)@.holds_off(ev@) && back@ == ev@,
                None => !old(self)@.holds_off(ev@),
            },
    {
        let ghost before = self.events@;
        let ghost all = self@.events;
        assert(all.len() == before.len());
        if self.events.len() < self.limit {
            self.events.push_back(ev);
            assert(event_list(self.events@) =~= all.push(ev@));
            return None;
        }
        let mut i: usize = 0;
        while i < self.events.len() && !check_progress(&self.events[i])
            invariant
                i <= before.len(),
                self.events@ == before,
                all == event_list(before),
                self@ == old(self)@,
                first_progress(all, 0) == first_progress(all, i as int),
            decreases before.len() - i,
        {
            assert(all[i as int] == before[i as int]@);
            i = i + 1;
        }
        if i < self.events.len() {
            assert(all[i as int] == before[i as int]@);
            let _ = self.events.remove(i);
            self.events.push_back(ev);
            assert(event_list(self.events@) =~= all.remove(i as int).push(ev@));
            None
        } else if check_progress(&ev) {
            None
        } else {
            Some(ev)
        }
    }

    /// Passes an event on. The report that is due before it, if one is, goes in
    /// first, but only where there is room. The event comes back where it has to
    /// wait outside.
    pub fn pass(&mut self, report: Option<Event>, ev: Event) -> (r: Option<Event>)
        ensures
            final(self)@ == old(self)@.noted(opt_event(report)).offered(ev@),
            match r {
                Some(back) => old(self)@.noted(opt_event(report)).holds_off(ev@) && back@ == ev@,
                None => !old(self)@.noted(opt_event(report)).holds_off(ev@),
            },
    {
        match report {
            Some(due) => {
                if self.has_room() {
                    let _ = self.offer(due);
                }
            },
            None => {},
        }
        self.offer(ev)
    }

    /// Takes out the event that has waited longest.
    pub fn take(&mut self) -> (r: Option<Event>)
        ensures
            old(self)@.events.len() == 0 ==> r is None && final(self)@ == old(self)@,
            old(self)@.events.len() > 0 ==> r is Some && r->0@ == old(self)@.events[0]
                && final(self)@ == (QueueView { events: old(self)@.events.skip(1), ..old(self)@ }),
    {
        let ghost before = self.events@;
        let r = self.events.pop_front();
        proof {
            assert(event_list(before).len() == before.len());
            if before.len() > 0 {
                assert(event_list(self.events@) =~= event_list(before).skip(1));
            }
        }
        r
    }
}

// ---------------------------------------------------------------------------
// Laws
// ---------------------------------------------------------------------------

/// The bytes of an app never go down, and other apps are not touched.
pub proof fn progress_only_rises(done: Seq<(Seq<char>, u64)>, app_id: Seq<char>, bytes: u64, other: Seq<char>)
    ensures
        done_of(raised(done, app_id, bytes), app_id) >= bytes,
        done_of(raised(done, app_id, bytes), app_id) >= done_of(done, app_id),
        done_of(raised(done, app_id, bytes), app_id) == bytes || done_of(
            raised(done, app_id, bytes),
            app_id,
        ) == done_of(done, app_id),
        other != app_id ==> done_of(raised(done, app_id, bytes), other) == done_of(done, other),
    decreases done.len(),
{
    let n = raised(done, app_id, bytes);
    if done.len() == 0 {
        assert(n.skip(1) =~= Seq::empty());
        assert(done_of(n.skip(1), other) == 0);
    } else if done[0].0 == app_id {
        assert(n.skip(1) =~= done.skip(1));
    } else {
        progress_only_rises(done.skip(1), app_id, bytes, other);
        assert(n.skip(1) =~= raised(done.skip(1), app_id, bytes));
    }
}

/// What is known after several events.
pub open spec fn after_all(t: Totals, events: Seq<EventView>) -> Totals
    decreases events.len(),
{
    if events.len() == 0 {
        t
    } else {
        after_all(t, events.drop_last()).after(events.last())
    }
}

/// How many of the events say that an app ended, but for cancelled ones.
pub open spec fn ended_apps(events: Seq<EventView>) -> nat
    decreases events.len(),
{
    if events.len() == 0 {
        0
    } else {
        ended_apps(events.drop_last()) + match events.last() {
            EventView::AppFinished { result, .. } => if result != AppResult::Cancelled {
                1nat
            } else {
                0nat
            },
            _ => 0nat,
        }
    }
}

/// The bytes of all scans that the events report.
pub open spec fn scanned_bytes(events: Seq<EventView>) -> nat
    decreases events.len(),
{
    if events.len() == 0 {
        0
    } else {
        scanned_bytes(events.drop_last()) + match events.last() {
            EventView::ScanDone { bytes_total, .. } => bytes_total as nat,
            _ => 0nat,
        }
    }
}

/// The totals count each app that ended, but for cancelled ones, and add up the
/// bytes of all scans.
pub proof fn totals_add_up(t: Totals, events: Seq<EventView>)
    requires
        t.apps_done + ended_apps(events) <= usize::MAX,
        t.bytes_total + scanned_bytes(events) <= u64::MAX,
    ensures
        after_all(t, events).apps_done == t.apps_done + ended_apps(events),
        after_all(t, events).bytes_total == t.bytes_total + scanned_bytes(events),
        after_all(t, events).apps_total == t.apps_total,
    decreases events.len(),
{
    if events.len() > 0 {
        totals_add_up(t, events.drop_last());
    }
}

/// The last report of a run holds all its events: the apps that ended, but for
/// cancelled ones, the bytes of all scans, and for each app the most bytes that any
/// of its progress told.
pub proof fn last_report_holds_all(
    apps_total: usize,
    events: Seq<EventView>,
    done: u64,
    eta: Option<Duration>,
)
    requires
        ended_apps(events) <= usize::MAX,
        scanned_bytes(events) <= u64::MAX,
        done == total(
            after_all(
                Totals { done: Seq::empty(), bytes_total: 0, apps_done: 0, apps_total },
                events,
            ).done,
        ),
    ensures
        ({
            let start = Totals { done: Seq::empty(), bytes_total: 0, apps_done: 0, apps_total };
            let end = after_all(start, events);
            &&& report_on(end, done, eta) matches EventView::OverallProgress {
                apps_done,
                apps_total: of,
                bytes_done,
                bytes_total,
                ..
            } && apps_done == ended_apps(events) && of == apps_total && bytes_total
                == scanned_bytes(events) && bytes_done == total(end.done)
            &&& forall|app_id: Seq<char>| #[trigger]
                done_of(end.done, app_id) == most_bytes(events, app_id)
        }),
{
    let start = Totals { done: Seq::empty(), bytes_total: 0, apps_done: 0, apps_total };
    totals_add_up(start, events);
    assert forall|app_id: Seq<char>| #[trigger]
        done_of(after_all(start, events).done, app_id) == most_bytes(events, app_id) by {
        lemma_most_bytes(start, events, app_id);
    }
}

/// The most bytes that the progress of an app tells.
pub open spec fn most_bytes(events: Seq<EventView>, app_id: Seq<char>) -> u64
    decreases events.len(),
{
    if events.len() == 0 {
        0
    } else {
        let before = most_bytes(events.drop_last(), app_id);
        match events.last() {
            EventView::AppProgress { app_id: of, bytes_done, .. } => if of == app_id && bytes_done
                > before {
                bytes_done
            } else {
                before
            },
            _ => before,
        }
    }
}

proof fn lemma_most_bytes(start: Totals, events: Seq<EventView>, app_id: Seq<char>)
    requires
        start.done.len() == 0,
    ensures
        done_of(after_all(start, events).done, app_id) == most_bytes(events, app_id),
    decreases events.len(),
{
    if events.len() > 0 {
        let before = after_all(start, events.drop_last());
        lemma_most_bytes(start, events.drop_last(), app_id);
        if let EventView::AppProgress { app_id: of, bytes_done, .. } = events.last() {
            progress_only_rises(before.done, of, bytes_done, app_id);
        }
    }
}

/// The events that are not mere progress, in order.
pub open spec fn structural(events: Seq<EventView>) -> Seq<EventView> {
    events.filter(|e: EventView| !is_progress(e))
}

proof fn lemma_first_progress(events: Seq<EventView>, from: int)
    requires
        0 <= from <= events.len(),
    ensures
        from <= first_progress(events, from) <= events.len(),
        first_progress(events, from) < events.len() ==> is_progress(
            events[first_progress(events, from)],
        ),
        forall|i: int| from <= i < first_progress(events, from) ==> !is_progress(#[trigger] events[i]),
    decreases events.len() - from,
{
    if from < events.len() && !is_progress(events[from]) {
        lemma_first_progress(events, from + 1);
    }
}

/// A queue that is offered an event keeps all that is not mere progress, in
/// order, and the event behind it, unless it hands that back. It never grows
/// beyond its limit, and loses one event at most.
pub proof fn queue_keeps_structural_events(q: QueueView, ev: EventView)
    requires
        q.events.len() <= q.limit,
    ensures
        structural(q.offered(ev).events) == if q.holds_off(ev) || is_progress(ev) {
            structural(q.events)
        } else {
            structural(q.events).push(ev)
        },
        q.holds_off(ev) ==> q.offered(ev) == q && structural(q.events).len() == q.limit,
        q.offered(ev).events.len() <= q.limit,
        q.offered(ev).events.len() >= q.events.len(),
{
    let keep = |e: EventView| !is_progress(e);
    let all = q.events;
    let i = first_progress(all, 0);
    lemma_first_progress(all, 0);
    reveal(Seq::filter);
    if all.len() < q.limit {
        assert(all.push(ev).drop_last() =~= all);
    } else if i < all.len() {
        let rest = all.remove(i);
        let head = all.take(i);
        let tail = all.skip(i + 1);
        let gone = seq![all[i]];
        assert(all =~= head + gone + tail);
        assert(rest =~= head + tail);
        Seq::filter_distributes_over_add(head, tail, keep);
        Seq::filter_distributes_over_add(head + gone, tail, keep);
        Seq::filter_distributes_over_add(head, gone, keep);
        assert(gone.drop_last() =~= Seq::empty());
        assert(gone.drop_last().filter(keep) =~= Seq::empty());
        assert(gone.last() == all[i] && !keep(all[i]));
        assert(gone.filter(keep) =~= Seq::empty());
        assert(rest.push(ev).drop_last() =~= rest);
        assert(head.filter(keep) + Seq::empty() =~= head.filter(keep));
    } else {
        lemma_all_structural(all);
    }
}

proof fn lemma_all_structural(events: Seq<EventView>)
    requires
        forall|i: int| 0 <= i < events.len() ==> !is_progress(#[trigger] events[i]),
    ensures
        structural(events) == events,
    decreases events.len(),
{
    reveal(Seq::filter);
    if events.len() > 0 {
        let rest = events.drop_last();
        assert forall|i: int| 0 <= i < rest.len() implies !is_progress(#[trigger] rest[i]) by {
            assert(rest[i] == events[i]);
        }
        lemma_all_structural(rest);
        assert(!is_progress(events[events.len() - 1]));
        assert(rest.push(events.last()) =~= events);
    }
}

/// The bytes of all apps together rise by what those of an app rise by, and by
/// nothing else.
pub proof fn total_rises_with_app(done: Seq<(Seq<char>, u64)>, app_id: Seq<char>, bytes: u64)
    ensures
        total(Seq::empty()) == 0,
        total(raised(done, app_id, bytes)) == total(done) + (done_of(
            raised(done, app_id, bytes),
            app_id,
        ) - done_of(done, app_id)),
    decreases done.len(),
{
    let n = raised(done, app_id, bytes);
    if done.len() == 0 {
        reveal_with_fuel(total, 2);
        assert(n =~= seq![(app_id, bytes)]);
        assert(total(n) == bytes);
    } else if done[0].0 == app_id {
        lemma_total_first(done);
        lemma_total_first(n);
        assert(n.skip(1) =~= done.skip(1));
        assert(done_of(n, app_id) == n[0].1);
    } else {
        total_rises_with_app(done.skip(1), app_id, bytes);
        lemma_total_first(done);
        lemma_total_first(n);
        assert(n.skip(1) =~= raised(done.skip(1), app_id, bytes));
        assert(n[0] == done[0]);
        assert(done_of(n, app_id) == done_of(n.skip(1), app_id));
    }
}

proof fn lemma_total_first(done: Seq<(Seq<char>, u64)>)
    requires
        done.len() > 0,
    ensures
        total(done) == done[0].1 + total(done.skip(1)),
    decreases done.len(),
{
    let rest = done.skip(1);
    if done.len() == 1 {
        assert(rest =~= Seq::empty());
        assert(done.drop_last() =~= Seq::empty());
    } else {
        lemma_total_first(done.drop_last());
        assert(done.drop_last().skip(1) =~= rest.drop_last());
        assert(rest.last() == done.last());
    }
}

/// The events that are mere progress, in order.
pub open spec fn mere_progress(events: Seq<EventView>) -> Seq<EventView> {
    events.filter(|e: EventView| is_progress(e))
}

/// A queue with room takes every event at its end and loses none. In one without
/// room the oldest progress gives way to the event, and no other; where there is
/// none, progress that is offered is lost and other events wait outside.
pub proof fn oldest_progress_gives_way(q: QueueView, ev: EventView)
    ensures
        q.events.len() < q.limit ==> q.offered(ev).events == q.events.push(ev),
        q.events.len() >= q.limit && mere_progress(q.events).len() > 0 ==> {
            &&& q.offered(ev).events.len() == q.events.len()
            &&& q.offered(ev).events.last() == ev
            &&& mere_progress(q.offered(ev).events) == if is_progress(ev) {
                mere_progress(q.events).skip(1).push(ev)
            } else {
                mere_progress(q.events).skip(1)
            }
            &&& !q.holds_off(ev)
        },
        q.events.len() >= q.limit && mere_progress(q.events).len() == 0 ==> q.offered(ev) == q
            && q.holds_off(ev) == !is_progress(ev),
        q.offered(ev).limit == q.limit,
{
    let keep = |e: EventView| is_progress(e);
    let all = q.events;
    let i = first_progress(all, 0);
    lemma_first_progress(all, 0);
    if i < all.len() {
        lemma_without_oldest(all, i, ev);
    } else {
        assert forall|k: int| 0 <= k < all.len() implies !keep(#[trigger] all[k]) by {}
        lemma_none_kept(all, keep);
    }
}

proof fn lemma_one_kept(e: EventView, keep: spec_fn(EventView) -> bool)
    ensures
        keep(e) ==> seq![e].filter(keep) == seq![e],
        !keep(e) ==> seq![e].filter(keep) == Seq::<EventView>::empty(),
{
    reveal(Seq::filter);
    let one = seq![e];
    assert(one.drop_last() =~= Seq::empty());
    assert(one.drop_last().filter(keep) =~= Seq::empty());
    assert(one.last() == e);
    assert(Seq::<EventView>::empty().push(e) =~= one);
}

proof fn lemma_without_oldest(all: Seq<EventView>, i: int, ev: EventView)
    requires
        0 <= i < all.len(),
        is_progress(all[i]),
        forall|k: int| 0 <= k < i ==> !is_progress(#[trigger] all[k]),
    ensures
        mere_progress(all).len() > 0,
        mere_progress(all.remove(i).push(ev)) == if is_progress(ev) {
            mere_progress(all).skip(1).push(ev)
        } else {
            mere_progress(all).skip(1)
        },
{
    let keep = |e: EventView| is_progress(e);
    let head = all.take(i);
    let gone = seq![all[i]];
    let tail = all.skip(i + 1);
    assert(all =~= head + gone + tail);
    assert(all.remove(i).push(ev) =~= head + tail + seq![ev]);
    Seq::filter_distributes_over_add(head + gone, tail, keep);
    Seq::filter_distributes_over_add(head, gone, keep);
    Seq::filter_distributes_over_add(head + tail, seq![ev], keep);
    Seq::filter_distributes_over_add(head, tail, keep);
    assert forall|k: int| 0 <= k < head.len() implies !keep(#[trigger] head[k]) by {
        assert(head[k] == all[k]);
    }
    lemma_none_kept(head, keep);
    lemma_one_kept(all[i], keep);
    lemma_one_kept(ev, keep);
    let rest = tail.filter(keep);
    assert(mere_progress(all) =~= gone + rest);
    assert(mere_progress(all).skip(1) =~= rest);
    assert(Seq::empty() + rest =~= rest);
    assert(rest + Seq::empty() =~= rest);
    assert(rest + seq![ev] =~= rest.push(ev));
}

proof fn lemma_none_kept(events: Seq<EventView>, keep: spec_fn(EventView) -> bool)
    requires
        forall|k: int| 0 <= k < events.len() ==> !keep(#[trigger] events[k]),
    ensures
        events.filter(keep) == Seq::<EventView>::empty(),
    decreases events.len(),
{
    reveal(Seq::filter);
    if events.len() > 0 {
        let rest = events.drop_last();
        assert forall|k: int| 0 <= k < rest.len() implies !keep(#[trigger] rest[k]) by {
            assert(rest[k] == events[k]);
        }
        lemma_none_kept(rest, keep);
        assert(!keep(events[events.len() - 1]));
    } else {
        assert(events.filter(keep) =~= Seq::empty());
    }
}

/// A report that is due goes in before the event, at the end of what waits, where
/// there is room; else it is left out.
pub proof fn report_goes_before_event(q: QueueView, report: EventView, ev: EventView)
    ensures
        q.noted(None) == q,
        q.events.len() >= q.limit ==> q.noted(Some(report)) == q,
        q.events.len() < q.limit ==> q.noted(Some(report)).events == q.events.push(report),
        q.events.len() + 1 < q.limit ==> q.noted(Some(report)).offered(ev).events
            == q.events.push(report).push(ev),
        q.noted(Some(report)).limit == q.limit,
{
}

/// Different levels have different names.
pub proof fn level_names_differ(a: LogLevel, b: LogLevel)
    requires
        a.name() == b.name(),
    ensures
        a == b,
{
    reveal_strlit("debug");
    reveal_strlit("info");
    reveal_strlit("warn");
    reveal_strlit("error");
    assert("debug"@.len() == 5 && "info"@.len() == 4 && "warn"@.len() == 4 && "error"@.len() == 5);
    assert("debug"@[0] == 'd' && "info"@[0] == 'i' && "warn"@[0] == 'w' && "error"@[0] == 'e');
}

/// What an app starts and ends with, what is logged, what a scan came to and which file
/// is packed is never given up for want of room: a queue that is offered such an event
/// has it at its end, or hands it back.
pub proof fn results_are_never_lost(q: QueueView, ev: EventView)
    requires
        ev is AppStarted || ev is AppFinished || ev is Log || ev is ScanDone || ev is FileDone,
    ensures
        q.holds_off(ev) || (q.offered(ev).events.len() > 0 && q.offered(ev).events.last() == ev),
{
}

/// The counters can take an event where the sums still fit.
pub proof fn totals_take_what_fits(t: Totals, ev: EventView)
    requires
        t.apps_done < usize::MAX,
        ev matches EventView::ScanDone { bytes_total, .. } ==> t.bytes_total + bytes_total
            <= u64::MAX,
    ensures
        t.has_room(ev),
{
}

} // verus!
