use fs_watcher::{
    global, handle_event, AddAction, AddStep, EventKind, FollowStep, FsWatcher, GlobalWatcher,
    PathComponent, Platform, RecursiveMode, WatchEvent, WatchPath, WatcherRegistrationId,
};
use std::path::{Component, Path};

fn path(text: &str) -> WatchPath {
    let components = Path::new(text)
        .components()
        .map(|component| match component {
            Component::Prefix(_) => unreachable!("no prefixes here"),
            Component::RootDir => PathComponent::RootDir,
            Component::CurDir => PathComponent::CurDir,
            Component::ParentDir => PathComponent::ParentDir,
            Component::Normal(name) => PathComponent::Normal(name.as_encoded_bytes().to_vec()),
        })
        .collect();
    WatchPath { components }
}

fn register(
    registry: &mut GlobalWatcher<&'static str>,
    text: &str,
    callback: &'static str,
) -> WatcherRegistrationId {
    registry
        .finish_add::<()>(path(text), callback, Ok(()))
        .unwrap()
}

fn callbacks(registry: &GlobalWatcher<&'static str>) -> Vec<&'static str> {
    let mut callbacks: Vec<&'static str> = registry.callbacks().into_iter().copied().collect();
    callbacks.sort();
    callbacks
}

#[test]
fn a_path_is_watched_while_it_is_registered() {
    let mut registry = GlobalWatcher::new(Platform::Linux);
    assert_eq!(registry.add(&path("/a")), AddAction::Watch);
    let first = register(&mut registry, "/a", "first");
    assert_eq!(registry.add(&path("/a")), AddAction::Register);
    let second = register(&mut registry, "/a", "second");
    assert_ne!(first, second);
    assert_eq!(callbacks(&registry), vec!["first", "second"]);
    assert_eq!(registry.remove(first), None);
    assert_eq!(registry.add(&path("/a")), AddAction::Register);
    assert_eq!(callbacks(&registry), vec!["second"]);
    assert_eq!(registry.remove(first), None);
    assert_eq!(registry.remove(second), Some(path("/a")));
    assert_eq!(registry.remove(second), None);
    assert_eq!(registry.add(&path("/a")), AddAction::Watch);
    assert!(callbacks(&registry).is_empty());
    assert!(!registry.is_full());
}

#[test]
fn the_order_of_removals_makes_no_difference() {
    for swapped in [false, true] {
        let mut registry = GlobalWatcher::new(Platform::Linux);
        let kept = register(&mut registry, "/a", "kept");
        let mut ids = vec![
            register(&mut registry, "/a", "x"),
            register(&mut registry, "/b", "y"),
        ];
        if swapped {
            ids.reverse();
        }
        for id in ids {
            registry.remove(id);
        }
        assert_eq!(callbacks(&registry), vec!["kept"]);
        assert_eq!(registry.add(&path("/a")), AddAction::Register);
        assert_eq!(registry.add(&path("/b")), AddAction::Watch);
        assert_eq!(registry.remove(kept), Some(path("/a")));
    }
}

#[test]
fn numbers_start_at_the_default_and_are_not_used_again() {
    let mut registry = GlobalWatcher::new(Platform::Linux);
    let first = register(&mut registry, "/a", "a");
    assert_eq!(first, WatcherRegistrationId::default());
    registry.remove(first);
    let second = register(&mut registry, "/a", "a");
    assert_ne!(first, second);
}

#[test]
fn a_failed_watch_registers_nothing() {
    let mut registry: GlobalWatcher<&'static str> = GlobalWatcher::new(Platform::Linux);
    assert_eq!(
        registry.finish_add(path("/a"), "a", Err("no watches left")),
        Err("no watches left")
    );
    assert_eq!(registry.add(&path("/a")), AddAction::Watch);
    assert!(callbacks(&registry).is_empty());
}

#[test]
fn watches_above_cover_what_is_below_where_they_do() {
    for (platform, below) in [
        (Platform::Linux, AddAction::Watch),
        (Platform::MacOs, AddAction::Register),
        (Platform::Windows, AddAction::Register),
    ] {
        let mut registry = GlobalWatcher::new(platform);
        register(&mut registry, "/a", "a");
        assert_eq!(registry.add(&path("/a/b")), below);
        assert_eq!(registry.add(&path("/a")), AddAction::Register);
        assert_eq!(registry.add(&path("/ab")), AddAction::Watch);
        assert_eq!(registry.add(&path("/")), AddAction::Watch);
    }
}

#[test]
fn what_a_watch_includes() {
    assert_eq!(Platform::Linux.mode(), RecursiveMode::NonRecursive);
    assert_eq!(Platform::MacOs.mode(), RecursiveMode::Recursive);
    assert_eq!(Platform::Windows.mode(), RecursiveMode::Recursive);
}

#[test]
fn accesses_and_errors_are_not_delivered() {
    let event = |kind: EventKind| WatchEvent {
        kind,
        paths: vec![path("/a")],
        need_rescan: false,
    };
    for kind in [
        EventKind::Any,
        EventKind::Create,
        EventKind::Modify,
        EventKind::Remove,
        EventKind::Other,
    ] {
        assert_eq!(handle_event::<()>(Ok(event(kind))), Some(event(kind)));
    }
    assert_eq!(handle_event::<()>(Ok(event(EventKind::Access))), None);
    assert_eq!(handle_event(Err("overflow")), None);
}

#[test]
fn a_path_is_added_once() {
    let mut registry = GlobalWatcher::new(Platform::Linux);
    let mut watcher = FsWatcher::new(Platform::Linux);
    assert_eq!(watcher.add(&path("/link")), AddStep::Canonicalize);
    let watched = watcher.watch_path(&path("/link"), Some(path("/real")));
    assert_eq!(watched, path("/real"));
    assert_eq!(watcher.watch_path(&path("/link"), None), path("/link"));
    assert_eq!(registry.add(&watched), AddAction::Watch);
    let id = register(&mut registry, "/real", "link");
    assert_eq!(watcher.finish_add::<()>(path("/link"), Ok(id)), Ok(()));
    assert_eq!(watcher.add(&path("/link")), AddStep::AlreadyWatched);
    assert_eq!(watcher.add(&path("/link/x")), AddStep::Canonicalize);
    assert_eq!(watcher.add(&path("/real")), AddStep::Canonicalize);

    let request = watcher.add_request(&path("/link"), watched.clone(), watched);
    assert_eq!(request.watch_path, path("/real"));
    assert_eq!(request.mode, RecursiveMode::NonRecursive);
    let reporter = request.reporter.unwrap();
    assert_eq!(reporter.report_path(&path("/real/x")), Some(path("/link/x")));
    assert_eq!(reporter.report_path(&path("/link/x")), None);

    assert_eq!(watcher.remove(&path("/link")), vec![id]);
    assert_eq!(watcher.remove(&path("/link")), vec![]);
    assert_eq!(registry.remove(id), Some(path("/real")));
    assert_eq!(watcher.add(&path("/link")), AddStep::Canonicalize);
}

#[test]
fn a_failed_registration_is_not_held() {
    let mut watcher = FsWatcher::new(Platform::Linux);
    assert_eq!(watcher.finish_add(path("/a"), Err("no")), Err("no"));
    assert_eq!(watcher.add(&path("/a")), AddStep::Canonicalize);
    assert_eq!(
        watcher.finish_add_followed_path(path("/a"), Err("no")),
        Err("no")
    );
    assert_eq!(
        watcher.add_followed_path(&path("/a")),
        FollowStep::Canonicalize
    );
    assert_eq!(watcher.remove(&path("/a")), vec![]);
}

#[test]
fn aliases_share_one_watch() {
    let mut registry = GlobalWatcher::new(Platform::Linux);
    let mut watcher = FsWatcher::new(Platform::Linux);
    for alias in ["/one", "/two"] {
        let watched = watcher.watch_path(&path(alias), Some(path("/real")));
        let expected = if alias == "/one" {
            AddAction::Watch
        } else {
            AddAction::Register
        };
        assert_eq!(registry.add(&watched), expected);
        let id = registry.finish_add::<()>(watched, alias, Ok(())).unwrap();
        watcher.finish_add::<()>(path(alias), Ok(id)).unwrap();
    }
    for id in watcher.remove(&path("/one")) {
        assert_eq!(registry.remove(id), None);
    }
    assert_eq!(callbacks(&registry), vec!["/two"]);
    for id in watcher.remove(&path("/two")) {
        assert_eq!(registry.remove(id), Some(path("/real")));
    }
}

#[test]
fn paths_below_are_covered_where_watches_include_them() {
    for platform in [Platform::MacOs, Platform::Windows] {
        let mut watcher = FsWatcher::new(platform);
        assert_eq!(watcher.add(&path("/a")), AddStep::Register);
        assert_eq!(watcher.watch_path(&path("/a"), Some(path("/b"))), path("/a"));
        let id = WatcherRegistrationId::default();
        watcher.finish_add::<()>(path("/a"), Ok(id)).unwrap();
        assert_eq!(watcher.add(&path("/a")), AddStep::AlreadyWatched);
        assert_eq!(watcher.add(&path("/a/b/c")), AddStep::AlreadyWatched);
        assert_eq!(watcher.add(&path("/a-b")), AddStep::Register);
        assert_eq!(watcher.add(&path("/")), AddStep::Register);
        watcher.finish_add::<()>(path("/a/b"), Ok(id)).unwrap();
        assert_eq!(watcher.add(&path("/a/b/c")), AddStep::AlreadyWatched);
        assert_eq!(watcher.add(&path("/a/a")), AddStep::AlreadyWatched);
        assert_eq!(watcher.add(&path("/a/c")), AddStep::AlreadyWatched);
        assert_eq!(watcher.add(&path("/b")), AddStep::Register);
        let request = watcher.add_request(&path("/a"), path("/a"), path("/a"));
        assert_eq!(request.mode, RecursiveMode::Recursive);
        assert_eq!(request.reporter.unwrap().platform, platform);
    }
}

#[test]
fn a_path_below_any_registered_one_is_covered() {
    for platform in [Platform::MacOs, Platform::Windows] {
        let mut watcher = FsWatcher::new(platform);
        let id = WatcherRegistrationId::default();
        for text in ["/a/b", "/a"] {
            assert_eq!(watcher.add(&path(text)), AddStep::Register);
            watcher.finish_add::<()>(path(text), Ok(id)).unwrap();
        }
        assert_eq!(watcher.add(&path("/a/c")), AddStep::AlreadyWatched);
        watcher.remove(&path("/a"));
        assert_eq!(watcher.add(&path("/a/c")), AddStep::Register);
        assert_eq!(watcher.add(&path("/a/b/c")), AddStep::AlreadyWatched);
    }
}

#[test]
fn followed_paths() {
    let mut registry = GlobalWatcher::new(Platform::Linux);
    let mut watcher = FsWatcher::new(Platform::Linux);
    assert_eq!(
        watcher.add_followed_path(&path("/a")),
        FollowStep::Canonicalize
    );
    let request = watcher.follow_request(path("/target"));
    assert_eq!(request.watch_path, path("/target"));
    assert_eq!(request.mode, RecursiveMode::NonRecursive);
    assert_eq!(request.reporter, None);
    let followed = register(&mut registry, "/target", "followed");
    assert_eq!(
        watcher.finish_add_followed_path::<()>(path("/a"), Ok(followed)),
        Ok(())
    );
    assert_eq!(
        watcher.add_followed_path(&path("/a")),
        FollowStep::AlreadyFollowed
    );
    assert_eq!(watcher.add(&path("/a")), AddStep::Canonicalize);
    let own = register(&mut registry, "/a", "own");
    watcher.finish_add::<()>(path("/a"), Ok(own)).unwrap();
    assert_eq!(watcher.remove(&path("/a")), vec![own, followed]);
    assert_eq!(registry.remove(own), Some(path("/a")));
    assert_eq!(registry.remove(followed), Some(path("/target")));

    let followed = register(&mut registry, "/target", "followed");
    watcher
        .finish_add_followed_path::<()>(path("/a"), Ok(followed))
        .unwrap();
    let ids = watcher.remove(&path("/a"));
    assert_eq!(ids, vec![followed, followed]);
    assert_eq!(registry.remove(ids[0]), Some(path("/target")));
    assert_eq!(registry.remove(ids[1]), None);

    for platform in [Platform::MacOs, Platform::Windows] {
        let watcher = FsWatcher::new(platform);
        assert_eq!(watcher.add_followed_path(&path("/a")), FollowStep::Add);
    }
}

#[test]
fn a_watcher_that_goes_takes_its_registrations_with_it() {
    let mut registry = GlobalWatcher::new(Platform::Linux);
    let mut watcher = FsWatcher::new(Platform::Linux);
    let other = register(&mut registry, "/b", "other");
    let b = register(&mut registry, "/b", "b");
    let a = register(&mut registry, "/a", "a");
    let f = register(&mut registry, "/f", "f");
    watcher.finish_add::<()>(path("/b"), Ok(b)).unwrap();
    watcher.finish_add::<()>(path("/a"), Ok(a)).unwrap();
    watcher
        .finish_add_followed_path::<()>(path("/0"), Ok(f))
        .unwrap();
    let ids = watcher.drop_registrations();
    assert_eq!(ids, vec![a, b, f]);
    let unwatched: Vec<Option<WatchPath>> =
        ids.into_iter().map(|id| registry.remove(id)).collect();
    assert_eq!(unwatched, vec![Some(path("/a")), None, Some(path("/f"))]);
    assert_eq!(callbacks(&registry), vec!["other"]);
    assert_eq!(registry.remove(other), Some(path("/b")));
    assert_eq!(watcher.drop_registrations(), vec![]);
}

#[test]
fn the_registry_is_used_if_it_could_be_set_up() {
    let working: Result<u32, &str> = Ok(3);
    let broken: Result<u32, &str> = Err("no inotify");
    assert_eq!(global(&working, |g| g + 1), Ok(4));
    assert_eq!(global(&broken, |g| g + 1), Err(&"no inotify"));
}
