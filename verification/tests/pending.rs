use fs_watcher::{
    extend_sorted, EventKind, EventReporter, PathComponent, PathEvent, PathEventKind,
    PendingEvents, Platform, WatchEvent, WatchPath,
};
use std::path::{Component, Path};

fn path(text: &str) -> WatchPath {
    let components = Path::new(text)
        .components()
        .map(|component| match component {
            Component::Prefix(_) => unreachable!("no prefixes here"),
            Component::RootDir => PathComponent::RootDir,
            Component::CurDir => PathComponent::CurDir,
            Component::ParentDir => PathComponent::ParentDir,
            Component::Normal(name) => PathComponent::Normal(name.as_encoded_bytes().to_vec()),
        })
        .collect();
    WatchPath { components }
}

fn event(text: &str, kind: Option<PathEventKind>) -> PathEvent {
    PathEvent {
        path: path(text),
        kind,
    }
}

fn created(text: &str) -> PathEvent {
    event(text, Some(PathEventKind::Created))
}

fn changed(text: &str) -> PathEvent {
    event(text, Some(PathEventKind::Changed))
}

fn removed(text: &str) -> PathEvent {
    event(text, Some(PathEventKind::Removed))
}

fn rescan(text: &str) -> PathEvent {
    event(text, Some(PathEventKind::Rescan))
}

fn delivered(kind: EventKind, paths: &[&str], need_rescan: bool) -> WatchEvent {
    WatchEvent {
        kind,
        paths: paths.iter().map(|text| path(text)).collect(),
        need_rescan,
    }
}

fn reporter(platform: Platform, original: &str, canonical: &str) -> EventReporter {
    EventReporter {
        platform,
        original_root: path(original),
        canonical_root: path(canonical),
    }
}

#[test]
fn new_paths_are_merged_in_order() {
    let mut pending = vec![changed("/b"), changed("/d")];
    extend_sorted(
        &mut pending,
        vec![created("/a"), created("/b"), created("/c"), removed("/c"), created("/e")],
    );
    assert_eq!(
        pending,
        vec![created("/a"), changed("/b"), created("/c"), changed("/d"), created("/e")]
    );
}

#[test]
fn whoever_fetches_is_woken_when_something_comes_in_first() {
    let mut pending = PendingEvents::new();
    assert!(pending.is_empty());
    assert!(!pending.add(vec![]));
    assert!(pending.is_empty());
    assert!(pending.add(vec![changed("/b"), changed("/a")]));
    assert!(!pending.is_empty());
    assert!(!pending.add(vec![changed("/c")]));
    assert_eq!(pending.take(), vec![changed("/a"), changed("/b"), changed("/c")]);
    assert!(pending.is_empty());
    assert!(pending.add(vec![rescan("/a")]));
    assert_eq!(pending.take(), vec![rescan("/a")]);
    assert_eq!(pending.take(), vec![]);
}

#[test]
fn the_first_event_at_a_path_is_kept() {
    let mut pending = PendingEvents::new();
    pending.add(vec![created("/a")]);
    pending.add(vec![removed("/a"), changed("/b"), removed("/b")]);
    assert_eq!(pending.take(), vec![created("/a"), removed("/b")]);
}

#[test]
fn rescans_are_never_lost() {
    let mut pending = PendingEvents::new();
    pending.add(vec![changed("/root"), changed("/root/a"), rescan("/root/a/b")]);
    pending.add(vec![rescan("/root")]);
    assert_eq!(pending.take(), vec![rescan("/root"), changed("/root/a")]);

    pending.add(vec![rescan("/root")]);
    assert!(!pending.add(vec![rescan("/root/a"), changed("/other")]));
    assert_eq!(pending.take(), vec![changed("/other"), rescan("/root")]);
}

#[test]
fn kinds_of_events() {
    let reporter = reporter(Platform::Linux, "/a", "/a");
    for (kind, expected) in [
        (EventKind::Create, Some(PathEventKind::Created)),
        (EventKind::Modify, Some(PathEventKind::Changed)),
        (EventKind::Remove, Some(PathEventKind::Removed)),
        (EventKind::Any, None),
        (EventKind::Access, None),
        (EventKind::Other, None),
    ] {
        assert_eq!(
            reporter.path_events(&delivered(kind, &["/a/x"], false)),
            vec![event("/a/x", expected)]
        );
    }
}

#[test]
fn events_are_reported_below_the_path_that_was_asked_for() {
    let event = delivered(
        EventKind::Modify,
        &["/real/x", "/real", "/other", "/real-x", "/link/y"],
        false,
    );
    assert_eq!(
        reporter(Platform::Linux, "/link", "/real").path_events(&event),
        vec![changed("/link/x"), changed("/link")]
    );
    assert_eq!(
        reporter(Platform::MacOs, "/real", "/real").path_events(&event),
        vec![changed("/real/x"), changed("/real")]
    );
    assert_eq!(
        reporter(Platform::Windows, "/link", "/link").path_events(&event),
        vec![changed("/link/y")]
    );
}

#[test]
fn lost_events_give_a_rescan_in_place_of_the_root() {
    let event = delivered(EventKind::Other, &["/real", "/real/x", "/elsewhere"], true);
    assert_eq!(
        reporter(Platform::Linux, "/link", "/real").path_events(&event),
        vec![self::event("/link/x", None), rescan("/link")]
    );
    assert_eq!(
        reporter(Platform::MacOs, "/gone", "/gone").path_events(&delivered(
            EventKind::Other,
            &[],
            true
        )),
        vec![rescan("/gone")]
    );
}

#[test]
fn a_lost_event_reaches_whoever_fetches_as_a_rescan() {
    let reporter = reporter(Platform::Linux, "/link", "/real");
    let mut pending = PendingEvents::new();
    let change = delivered(EventKind::Create, &["/real", "/real/x"], false);
    assert!(pending.add(reporter.path_events(&change)));
    let lost = delivered(EventKind::Other, &["/real"], true);
    assert!(!pending.add(reporter.path_events(&lost)));
    assert_eq!(pending.take(), vec![rescan("/link"), created("/link/x")]);

    let elsewhere = delivered(EventKind::Create, &["/nowhere"], false);
    assert!(!pending.add(reporter.path_events(&elsewhere)));
    assert!(pending.is_empty());
}

#[test]
fn rescans_come_in_in_any_order() {
    let inner = vec![rescan("/a/b")];
    let outer = vec![event("/a/b", None), rescan("/a")];
    let mut pending = PendingEvents::new();
    pending.add(inner.clone());
    pending.add(outer.clone());
    let one = pending.take();
    pending.add(outer);
    pending.add(inner);
    assert_eq!(pending.take(), one);
    assert_eq!(one, vec![rescan("/a"), event("/a/b", None)]);
}

#[test]
fn plain_events_leave_rescans_pending() {
    let reporter = reporter(Platform::Linux, "/link", "/real");
    let mut pending = PendingEvents::new();
    pending.add(vec![rescan("/link")]);
    let change = delivered(EventKind::Modify, &["/real", "/real/x"], false);
    assert!(!pending.add(reporter.path_events(&change)));
    assert_eq!(pending.take(), vec![rescan("/link"), changed("/link/x")]);
}
