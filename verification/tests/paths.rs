use fs_watcher::{
    translate_canonical_event_path, Order, PathComponent, PathPrefix, PrefixKind, WatchPath,
};
use std::cmp::Ordering;
use std::path::{Component, Path};

fn path(text: &str) -> WatchPath {
    let components = Path::new(text)
        .components()
        .map(|component| match component {
            Component::Prefix(_) => unreachable!("no prefixes here"),
            Component::RootDir => PathComponent::RootDir,
            Component::CurDir => PathComponent::CurDir,
            Component::ParentDir => PathComponent::ParentDir,
            Component::Normal(name) => PathComponent::Normal(name.as_encoded_bytes().to_vec()),
        })
        .collect();
    WatchPath { components }
}

const PATHS: [&str; 26] = [
    "", "/", ".", "..", "a", "./a", "../a", "a/..", "/a", "/a/", "//a", "/a/b", "/a//b", "/a/./b",
    "/a/../b", "/a/b/c", "/a-b", "/a b", "/ab", "/b", "/A", "a/b", "b", "/a/b-c",
    "/\u{e9}", "/a/\u{e9}/c",
];

fn order(order: Ordering) -> Order {
    match order {
        Ordering::Less => Order::Less,
        Ordering::Equal => Order::Equal,
        Ordering::Greater => Order::Greater,
    }
}

#[test]
fn paths_compare_as_those_of_std() {
    for a in PATHS {
        for b in PATHS {
            let (x, y) = (Path::new(a), Path::new(b));
            assert_eq!(path(a).compare(&path(b)), order(x.cmp(y)), "{a:?} {b:?}");
            assert_eq!(path(a).same_path(&path(b)), x == y, "{a:?} {b:?}");
            assert_eq!(path(a).starts_with(&path(b)), x.starts_with(y), "{a:?} {b:?}");
            assert_eq!(path(a).is_below(&path(b)), x != y && x.starts_with(y), "{a:?} {b:?}");
        }
    }
}

#[test]
fn paths_are_taken_apart_and_joined_as_those_of_std() {
    for a in PATHS {
        for b in PATHS {
            let (x, y) = (Path::new(a), Path::new(b));
            let tail = x.strip_prefix(y).ok();
            assert_eq!(
                path(a).strip_prefix(&path(b)),
                tail.map(|tail| path(tail.to_str().unwrap())),
                "{a:?} {b:?}"
            );
            assert_eq!(
                path(a).join(&path(b)),
                path(x.join(y).to_str().unwrap()),
                "{a:?} {b:?}"
            );
            assert_eq!(path(a).is_empty(), x.as_os_str().is_empty(), "{a:?}");
        }
    }
}

#[test]
fn translation_goes_by_the_rules_of_std() {
    for event in PATHS {
        for canonical in PATHS {
            for original in PATHS {
                let expected = Path::new(event)
                    .strip_prefix(canonical)
                    .ok()
                    .map(|relative| {
                        if relative.as_os_str().is_empty() {
                            Path::new(original).to_path_buf()
                        } else {
                            Path::new(original).join(relative)
                        }
                    })
                    .map(|there| path(there.to_str().unwrap()));
                assert_eq!(
                    translate_canonical_event_path(&path(event), &path(canonical), &path(original)),
                    expected,
                    "{event:?} {canonical:?} {original:?}"
                );
            }
        }
    }
}

#[test]
fn translation_and_back() {
    let there = translate_canonical_event_path(
        &path("/private/var/x/y"),
        &path("/private/var"),
        &path("/var"),
    );
    assert_eq!(there, Some(path("/var/x/y")));
    let back = translate_canonical_event_path(
        &path("/var/x/y"),
        &path("/var"),
        &path("/private/var"),
    );
    assert_eq!(back, Some(path("/private/var/x/y")));
    assert_eq!(
        translate_canonical_event_path(&path("/private/var"), &path("/private/var"), &path("/var")),
        Some(path("/var"))
    );
    assert_eq!(
        translate_canonical_event_path(&path("/private/v"), &path("/private/var"), &path("/var")),
        None
    );
}

#[test]
fn names_need_not_be_text() {
    let odd = WatchPath {
        components: vec![PathComponent::RootDir, PathComponent::Normal(vec![0xff, 0x80])],
    };
    assert!(odd.starts_with(&path("/")));
    assert_eq!(odd.compare(&path("/a")), Order::Greater);
    assert_eq!(odd.clone(), odd);
}

#[test]
fn prefixes_come_first_and_are_ordered_by_form() {
    let prefix = |kind: PrefixKind, first: &str, second: &str| WatchPath {
        components: vec![
            PathComponent::Prefix(PathPrefix {
                kind,
                first: first.as_bytes().to_vec(),
                second: second.as_bytes().to_vec(),
            }),
            PathComponent::RootDir,
        ],
    };
    let in_order = [
        prefix(PrefixKind::Verbatim, "x", ""),
        prefix(PrefixKind::VerbatimUnc, "server", "share"),
        prefix(PrefixKind::VerbatimDisk, "C", ""),
        prefix(PrefixKind::DeviceNs, "device", ""),
        prefix(PrefixKind::Unc, "server", "a"),
        prefix(PrefixKind::Unc, "server", "b"),
        prefix(PrefixKind::Unc, "t", "a"),
        prefix(PrefixKind::Disk, "C", ""),
        prefix(PrefixKind::Disk, "D", ""),
        path("/"),
    ];
    for (i, a) in in_order.iter().enumerate() {
        for (j, b) in in_order.iter().enumerate() {
            assert_eq!(a.compare(b), order(i.cmp(&j)));
        }
    }
}

#[test]
fn what_is_joined_to_a_prefix() {
    let with_prefix = |kind: PrefixKind, first: &str, tail: &str| {
        let mut components = vec![PathComponent::Prefix(PathPrefix {
            kind,
            first: first.as_bytes().to_vec(),
            second: Vec::new(),
        })];
        components.extend(path(tail).components);
        WatchPath { components }
    };
    let disk = |name: &str, tail: &str| with_prefix(PrefixKind::Disk, name, tail);
    let verbatim = |tail: &str| with_prefix(PrefixKind::VerbatimDisk, "C", tail);
    assert_eq!(disk("D", "/x").join(&path("/f")), disk("D", "/f"));
    assert_eq!(disk("D", "/x").join(&path("f")), disk("D", "/x/f"));
    assert_eq!(disk("D", "/x").join(&path("../f")), disk("D", "/x/../f"));
    assert_eq!(disk("D", "/x").join(&path("./f")), disk("D", "/x/f"));
    assert_eq!(disk("D", "").join(&path("./f")), disk("D", "./f"));
    assert_eq!(disk("D", "/x").join(&path("")), disk("D", "/x"));
    assert_eq!(disk("D", "/x").join(&disk("C", "f")), disk("C", "f"));
    assert_eq!(verbatim("/x/y").join(&path("./../f/.")), verbatim("/x/f"));
    assert_eq!(verbatim("/").join(&path("../..")), verbatim("/"));
    assert_eq!(verbatim("/x/y").join(&path("/f")), verbatim("/f"));
    assert_eq!(
        translate_canonical_event_path(&disk("C", "/f"), &disk("C", ""), &disk("D", "/x")),
        Some(disk("D", "/f"))
    );
}
