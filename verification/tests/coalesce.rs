use fs_watcher::{
    coalesce_pending_rescans, is_covered_rescan, PathComponent, PathEvent, PathEventKind, WatchPath,
};
use std::path::{Component, Path, PathBuf};

fn watch_path(path: &Path) -> WatchPath {
    let components = path
        .components()
        .map(|component| match component {
            Component::Prefix(_) => unreachable!("no prefixes here"),
            Component::RootDir => PathComponent::RootDir,
            Component::CurDir => PathComponent::CurDir,
            Component::ParentDir => PathComponent::ParentDir,
            Component::Normal(name) => PathComponent::Normal(name.as_encoded_bytes().to_vec()),
        })
        .collect();
    WatchPath { components }
}

fn event(path: &str, kind: Option<PathEventKind>) -> PathEvent {
    PathEvent {
        path: watch_path(&PathBuf::from(path)),
        kind,
    }
}

fn rescan(path: &str) -> PathEvent {
    event(path, Some(PathEventKind::Rescan))
}

fn changed(path: &str) -> PathEvent {
    event(path, Some(PathEventKind::Changed))
}

struct TestCase {
    name: &'static str,
    pending_paths: Vec<PathEvent>,
    path_events: Vec<PathEvent>,
    expected_pending_paths: Vec<PathEvent>,
    expected_path_events: Vec<PathEvent>,
}

fn run(test_cases: Vec<TestCase>) {
    for test_case in test_cases {
        let mut pending_paths = test_case.pending_paths;
        let mut path_events = test_case.path_events;

        coalesce_pending_rescans(&mut pending_paths, &mut path_events);

        assert_eq!(
            pending_paths, test_case.expected_pending_paths,
            "pending_paths mismatch for case: {}",
            test_case.name
        );
        assert_eq!(
            path_events, test_case.expected_path_events,
            "path_events mismatch for case: {}",
            test_case.name
        );
    }
}

#[test]
fn test_coalesce_pending_rescans() {
    run(vec![
        TestCase {
            name: "coalesces descendant rescans under pending ancestor",
            pending_paths: vec![rescan("/root")],
            path_events: vec![rescan("/root/child"), rescan("/root/child/grandchild")],
            expected_pending_paths: vec![rescan("/root")],
            expected_path_events: vec![],
        },
        TestCase {
            name: "new ancestor rescan replaces pending descendant rescans",
            pending_paths: vec![
                changed("/other"),
                rescan("/root/child"),
                rescan("/root/child/grandchild"),
            ],
            path_events: vec![rescan("/root")],
            expected_pending_paths: vec![changed("/other")],
            expected_path_events: vec![rescan("/root")],
        },
        TestCase {
            name: "same path rescan replaces pending non-rescan event",
            pending_paths: vec![changed("/root")],
            path_events: vec![rescan("/root")],
            expected_pending_paths: vec![],
            expected_path_events: vec![rescan("/root")],
        },
        TestCase {
            name: "unrelated rescans are preserved",
            pending_paths: vec![rescan("/root-a")],
            path_events: vec![rescan("/root-b")],
            expected_pending_paths: vec![rescan("/root-a")],
            expected_path_events: vec![rescan("/root-b")],
        },
        TestCase {
            name: "batch ancestor rescan replaces descendant rescan",
            pending_paths: vec![],
            path_events: vec![rescan("/root/child"), rescan("/root")],
            expected_pending_paths: vec![],
            expected_path_events: vec![rescan("/root")],
        },
    ]);
}

#[test]
fn coalescing_leaves_other_events_alone() {
    run(vec![
        TestCase {
            name: "nothing changes without a new rescan",
            pending_paths: vec![rescan("/root"), changed("/root/a")],
            path_events: vec![changed("/root/b"), changed("/root/a")],
            expected_pending_paths: vec![rescan("/root"), changed("/root/a")],
            expected_path_events: vec![changed("/root/b"), changed("/root/a")],
        },
        TestCase {
            name: "changes below a new rescan stay pending",
            pending_paths: vec![changed("/root/a")],
            path_events: vec![changed("/root/b"), rescan("/root")],
            expected_pending_paths: vec![changed("/root/a")],
            expected_path_events: vec![changed("/root/b"), rescan("/root")],
        },
        TestCase {
            name: "a rescan of the same path replaces the pending one",
            pending_paths: vec![rescan("/root")],
            path_events: vec![rescan("/root")],
            expected_pending_paths: vec![],
            expected_path_events: vec![rescan("/root")],
        },
        TestCase {
            name: "a rescan that is not needed replaces nothing",
            pending_paths: vec![rescan("/root"), rescan("/root/a/b"), changed("/root/a")],
            path_events: vec![rescan("/root/a")],
            expected_pending_paths: vec![rescan("/root"), rescan("/root/a/b"), changed("/root/a")],
            expected_path_events: vec![],
        },
        TestCase {
            name: "a rescan given twice stays twice",
            pending_paths: vec![],
            path_events: vec![rescan("/root"), rescan("/root")],
            expected_pending_paths: vec![],
            expected_path_events: vec![rescan("/root"), rescan("/root")],
        },
        TestCase {
            name: "a pending change above covers nothing",
            pending_paths: vec![changed("/root")],
            path_events: vec![rescan("/root/a")],
            expected_pending_paths: vec![changed("/root")],
            expected_path_events: vec![rescan("/root/a")],
        },
    ]);
}

#[test]
fn coalescing_again_changes_nothing() {
    let mut pending_paths = vec![rescan("/a/b"), changed("/c"), rescan("/d")];
    let mut path_events = vec![rescan("/a"), rescan("/d/e"), changed("/d/e"), rescan("/c")];
    coalesce_pending_rescans(&mut pending_paths, &mut path_events);
    assert_eq!(pending_paths, vec![rescan("/d")]);
    assert_eq!(path_events, vec![rescan("/a"), changed("/d/e"), rescan("/c")]);
    coalesce_pending_rescans(&mut pending_paths, &mut path_events);
    assert_eq!(pending_paths, vec![rescan("/d")]);
    assert_eq!(path_events, vec![rescan("/a"), changed("/d/e"), rescan("/c")]);
}

#[test]
fn covered_rescans() {
    let root = watch_path(Path::new("/root"));
    let child = watch_path(Path::new("/root/child"));
    let sibling = watch_path(Path::new("/root-a"));
    assert!(is_covered_rescan(Some(PathEventKind::Rescan), &child, &root));
    assert!(!is_covered_rescan(Some(PathEventKind::Rescan), &root, &root));
    assert!(!is_covered_rescan(Some(PathEventKind::Rescan), &root, &child));
    assert!(!is_covered_rescan(Some(PathEventKind::Rescan), &sibling, &root));
    assert!(!is_covered_rescan(Some(PathEventKind::Changed), &child, &root));
    assert!(!is_covered_rescan(None, &child, &root));
}
