//! What a watch reports of the events that the system delivers.
use crate::event::{
    event_models, is_rescan, reported_kind, EventModel, PathEvent, PathEventKind, WatchEvent,
    WatchEventModel,
};
use crate::path::{
    path_starts_with, translate_canonical_event_path, translated, PathModel, WatchPath,
};
use crate::pending::{is_pending_after, lemma_rescans_pending, path_listed, rescans_alone};
use crate::rescan::{lemma_filter_members, rescan_due};
use vstd::prelude::*;

verus! {

/// The systems whose watchers are known.
#[derive(Debug, Copy, Clone, PartialEq, Eq, Hash, Structural)]
pub enum Platform {
    /// A watch is of one directory, and goes by its canonical path.
    Linux,
    /// A watch includes everything below its directory.
    MacOs,
    /// A watch includes everything below its directory.
    Windows,
}

/// What a watch includes.
#[derive(Debug, Copy, Clone, PartialEq, Eq, Hash, Structural)]
pub enum RecursiveMode {
    /// Everything below the directory.
    Recursive,
    /// The entries of the directory alone.
    NonRecursive,
}

/// What a watch includes on each system.
pub open spec fn watch_mode(platform: Platform) -> RecursiveMode {
    match platform {
        Platform::Linux => RecursiveMode::NonRecursive,
        Platform::MacOs | Platform::Windows => RecursiveMode::Recursive,
    }
}

impl Platform {
    /// What a watch includes on this system.
    pub fn mode(self) -> (mode: RecursiveMode)
        ensures
            mode == watch_mode(self),
    {
        match self {
            Platform::Linux => RecursiveMode::NonRecursive,
            Platform::MacOs | Platform::Windows => RecursiveMode::Recursive,
        }
    }
}

/// Reports the events of one watch.
#[derive(Debug, PartialEq, Eq, Hash)]
pub struct EventReporter {
    pub platform: Platform,
    /// The path that was asked for.
    pub original_root: WatchPath,
    /// The path that is watched, in the form in which the system names it in events.
    pub canonical_root: WatchPath,
}

/// What a reporter is.
pub struct ReporterModel {
    pub platform: Platform,
    pub original_root: PathModel,
    pub canonical_root: PathModel,
}

impl View for EventReporter {
    type V = ReporterModel;

    open spec fn view(&self) -> ReporterModel {
        ReporterModel {
            platform: self.platform,
            original_root: self.original_root@,
            canonical_root: self.canonical_root@,
        }
    }
}

/// The path under which an event at `path` is reported. Where watches go by canonical paths, it is
/// translated below the path that was asked for; elsewhere it stays. A path outside of what is
/// watched is not reported.
pub open spec fn reported_path(reporter: ReporterModel, path: PathModel) -> Option<PathModel> {
    match reporter.platform {
        Platform::Linux => translated(path, reporter.canonical_root, reporter.original_root),
        Platform::MacOs | Platform::Windows => if path_starts_with(path, reporter.canonical_root) {
            Some(path)
        } else {
            None
        },
    }
}

/// The event that is reported for one path of an event of kind `kind`.
pub open spec fn reported_event(
    reporter: ReporterModel,
    kind: Option<PathEventKind>,
    path: PathModel,
) -> Option<EventModel> {
    match reported_path(reporter, path) {
        Some(path) => Some(EventModel { path, kind }),
        None => None,
    }
}

/// The rescan of the path that was asked for.
pub open spec fn root_rescan(reporter: ReporterModel) -> EventModel {
    EventModel { path: reporter.original_root, kind: Some(PathEventKind::Rescan) }
}

/// The events that are reported for the paths of an event.
pub open spec fn path_reports(
    reporter: ReporterModel,
    kind: Option<PathEventKind>,
    paths: Seq<PathModel>,
) -> Seq<EventModel> {
    paths.filter_map(|path: PathModel| reported_event(reporter, kind, path))
}

/// What is reported of an event: one event for each path that lies in what is watched, and where
/// events were lost, a rescan of the path that was asked for in place of what is at that path.
pub open spec fn reported_events(
    reporter: ReporterModel,
    event: WatchEventModel,
) -> Seq<EventModel> {
    let reports = path_reports(reporter, reported_kind(event.kind), event.paths);
    if event.need_rescan {
        reports.filter(|report: EventModel| report.path != reporter.original_root).push(
            root_rescan(reporter),
        )
    } else {
        reports
    }
}

impl EventReporter {
    /// The path under which an event at `path` is reported, if it is.
    pub fn report_path(&self, path: &WatchPath) -> (reported: Option<WatchPath>)
        ensures
            reported is Some <==> reported_path(self@, path@) is Some,
            reported matches Some(reported) ==> Some(reported@) == reported_path(self@, path@),
    {
        match self.platform {
            Platform::Linux => translate_canonical_event_path(
                path,
                &self.canonical_root,
                &self.original_root,
            ),
            Platform::MacOs | Platform::Windows => if path.starts_with(&self.canonical_root) {
                Some(path.clone())
            } else {
                None
            },
        }
    }

    /// What is reported of an event.
    pub fn path_events(&self, event: &WatchEvent) -> (path_events: Vec<PathEvent>)
        ensures
            event_models(path_events@) == reported_events(self@, event@),
    {
        let kind = event.kind.reported();
        let ghost make = |path: PathModel| reported_event(self@, kind, path);
        let ghost other = |report: EventModel| report.path != self@.original_root;
        let ghost paths = event@.paths;
        let mut path_events: Vec<PathEvent> = Vec::new();
        let mut i: usize = 0;
        proof {
            assert(paths.take(0) =~= Seq::<PathModel>::empty());
            reveal(Seq::filter_map);
            reveal(Seq::filter);
            assert(event_models(path_events@) =~= paths.take(0).filter_map(make));
            assert(paths.take(0).filter_map(make).filter(other) =~= Seq::<EventModel>::empty());
        }
        while i < event.paths.len()
            invariant
                paths == event@.paths,
                kind == reported_kind(event.kind),
                make == (|path: PathModel| reported_event(self@, kind, path)),
                other == (|report: EventModel| report.path != self@.original_root),
                i <= event.paths.len(),
                event_models(path_events@) == if event.need_rescan {
                    paths.take(i as int).filter_map(make).filter(other)
                } else {
                    paths.take(i as int).filter_map(make)
                },
            decreases event.paths.len() - i,
        {
            let ghost before = path_events@;
            proof {
                assert(paths[i as int] == event.paths@[i as int]@);
                paths.lemma_filter_map_take_succ(make, i as int);
            }
            if let Some(path) = self.report_path(&event.paths[i]) {
                proof {
                    let report = EventModel { path: path@, kind };
                    assert(make(paths[i as int]) == Some(report));
                    assert(paths.take(i + 1).filter_map(make) =~= paths.take(i as int).filter_map(
                        make,
                    ).push(report));
                    paths.take(i as int).filter_map(make).lemma_filter_push(report, other);
                }
                if !event.need_rescan || !path.same_path(&self.original_root) {
                    path_events.push(PathEvent { path, kind });
                    assert(event_models(path_events@) =~= event_models(before).push(
                        EventModel { path: path@, kind },
                    ));
                }
            } else {
                assert(make(paths[i as int]) is None);
                assert(paths.take(i + 1).filter_map(make) =~= paths.take(i as int).filter_map(
                    make,
                ));
            }
            i += 1;
        }
        assert(paths.take(paths.len() as int) =~= paths);
        if event.need_rescan {
            let ghost before = path_events@;
            let rescan = PathEvent {
                path: self.original_root.clone(),
                kind: Some(PathEventKind::Rescan),
            };
            path_events.push(rescan);
            assert(event_models(path_events@) =~= event_models(before).push(root_rescan(self@)));
        }
        path_events
    }
}

/// Each event that is reported is the root's rescan, or comes from one of the paths of the event
/// and has the event's kind.
pub proof fn lemma_report_origin(
    reporter: ReporterModel,
    event: WatchEventModel,
    report: EventModel,
)
    requires
        reported_events(reporter, event).contains(report),
    ensures
        ({
            ||| event.need_rescan && report == root_rescan(reporter)
            ||| {
                &&& report.kind == reported_kind(event.kind)
                &&& event.need_rescan ==> report.path != reporter.original_root
                &&& exists|path: PathModel| #[trigger]
                    event.paths.contains(path) && reported_path(reporter, path) == Some(report.path)
            }
        }),
{
    let kind = reported_kind(event.kind);
    let make = |path: PathModel| reported_event(reporter, kind, path);
    let other = |report: EventModel| report.path != reporter.original_root;
    let reports = path_reports(reporter, kind, event.paths);
    let all = reported_events(reporter, event);
    if !(event.need_rescan && report == root_rescan(reporter)) {
        if event.need_rescan {
            lemma_filter_members(reports, other);
            let i = choose|i: int| 0 <= i < all.len() && all[i] == report;
            assert(reports.filter(other)[i] == report);
            assert(reports.filter(other).contains(report));
        }
        assert(reports.contains(report));
        event.paths.lemma_filter_map_contains(make, report);
        let path = choose|path: PathModel| #[trigger]
            event.paths.contains(path) && make(path) == Some(report);
        assert(event.paths.contains(path));
    }
}

/// Of what is reported of one event, what is at one path is the same.
pub proof fn lemma_reports_agree(
    reporter: ReporterModel,
    event: WatchEventModel,
    a: EventModel,
    b: EventModel,
)
    requires
        reported_events(reporter, event).contains(a),
        reported_events(reporter, event).contains(b),
        a.path == b.path,
    ensures
        a == b,
{
    lemma_report_origin(reporter, event, a);
    lemma_report_origin(reporter, event, b);
}

/// A rescan is reported only where events were lost, and nothing else at its path with it.
pub proof fn lemma_reported_rescans_alone(reporter: ReporterModel, event: WatchEventModel)
    ensures
        rescans_alone(reported_events(reporter, event)),
        forall|report: EventModel| #[trigger]
            reported_events(reporter, event).contains(report) && is_rescan(report)
                ==> event.need_rescan && report == root_rescan(reporter),
{
    let all = reported_events(reporter, event);
    assert forall|report: EventModel| #[trigger]
        all.contains(report) && is_rescan(report) implies event.need_rescan && report
        == root_rescan(reporter) by {
        lemma_report_origin(reporter, event, report);
    }
    assert forall|a: EventModel, b: EventModel| #[trigger]
        all.contains(a) && #[trigger] all.contains(b) && is_rescan(a) && a.path
            == b.path implies is_rescan(b) by {
        lemma_reports_agree(reporter, event, a, b);
    }
}

/// Where the system says that events were lost, everything at and below the path that was asked
/// for is due for a rescan once the report has come in, whatever was pending.
pub proof fn lemma_lost_events_rescanned(
    reporter: ReporterModel,
    event: WatchEventModel,
    pending: Seq<EventModel>,
    after: Seq<EventModel>,
    path: PathModel,
)
    requires
        event.need_rescan,
        is_pending_after(pending, reported_events(reporter, event), after),
        path_starts_with(path, reporter.original_root),
    ensures
        rescan_due(after, path),
{
    let all = reported_events(reporter, event);
    lemma_reported_rescans_alone(reporter, event);
    assert(all[all.len() - 1] == root_rescan(reporter));
    assert(is_rescan(all[all.len() - 1]));
    lemma_rescans_pending(pending, all, after, path);
}

/// A report of an event without lost events neither asks for a rescan nor takes one back.
pub proof fn lemma_plain_events_keep_rescans(
    reporter: ReporterModel,
    event: WatchEventModel,
    pending: Seq<EventModel>,
    after: Seq<EventModel>,
    path: PathModel,
)
    requires
        !event.need_rescan,
        is_pending_after(pending, reported_events(reporter, event), after),
    ensures
        rescan_due(after, path) == rescan_due(pending, path),
{
    let all = reported_events(reporter, event);
    lemma_reported_rescans_alone(reporter, event);
    if rescan_due(all, path) {
        let i = choose|i: int|
            0 <= i < all.len() && is_rescan(#[trigger] all[i]) && path_starts_with(
                path,
                all[i].path,
            );
        assert(all.contains(all[i]));
    }
    lemma_rescans_pending(pending, all, after, path);
}

/// Each path of the event that lies in what is watched is reported, at its reported path.
pub proof fn lemma_watched_paths_reported(
    reporter: ReporterModel,
    event: WatchEventModel,
    path: PathModel,
)
    requires
        event.paths.contains(path),
        reported_path(reporter, path) is Some,
    ensures
        path_listed(reported_events(reporter, event), reported_path(reporter, path)->0),
{
    let kind = reported_kind(event.kind);
    let make = |path: PathModel| reported_event(reporter, kind, path);
    let other = |report: EventModel| report.path != reporter.original_root;
    let reports = path_reports(reporter, kind, event.paths);
    let all = reported_events(reporter, event);
    let report = EventModel { path: reported_path(reporter, path)->0, kind };
    lemma_filter_map_keeps(event.paths, make, path);
    assert(reports.contains(report));
    if event.need_rescan {
        if report.path == reporter.original_root {
            assert(all[all.len() - 1].path == report.path);
        } else {
            lemma_filter_members(reports, other);
            assert(reports.filter(other).contains(report));
            let i = choose|i: int|
                0 <= i < reports.filter(other).len() && reports.filter(other)[i] == report;
            assert(all[i].path == report.path);
        }
    } else {
        let i = choose|i: int| 0 <= i < all.len() && all[i] == report;
        assert(all[i].path == report.path);
    }
}

proof fn lemma_filter_map_keeps(
    paths: Seq<PathModel>,
    make: spec_fn(PathModel) -> Option<EventModel>,
    path: PathModel,
)
    requires
        paths.contains(path),
        make(path) is Some,
    ensures
        paths.filter_map(make).contains(make(path)->0),
    decreases paths.len(),
{
    let rest = paths.drop_last();
    let all = paths.filter_map(make);
    let few = rest.filter_map(make);
    if paths.last() == path {
        assert(all[all.len() - 1] == make(path)->0);
    } else {
        let i = choose|i: int| 0 <= i < paths.len() && paths[i] == path;
        assert(rest[i] == path);
        lemma_filter_map_keeps(rest, make, path);
        let j = choose|j: int| 0 <= j < few.len() && few[j] == make(path)->0;
        assert(all[j] == few[j]);
    }
}

} // verus!
