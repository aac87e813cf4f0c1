//! Paths as sequences of components, which is how they are compared, ordered and taken apart.
use crate::order::{
    lemma_lex_irreflexive, lemma_lex_prefix, lemma_lex_skip, lemma_lex_total, lemma_lex_transitive,
    lex_less, strict_total_order,
};
use vstd::prelude::*;

verus! {

/// The forms that the prefix of a Windows path can take, in their order.
#[derive(Debug, Copy, Clone, PartialEq, Eq, Hash, Structural)]
pub enum PrefixKind {
    /// `\\?\name`
    Verbatim,
    /// `\\?\UNC\server\share`
    VerbatimUnc,
    /// `\\?\C:`
    VerbatimDisk,
    /// `\\.\device`
    DeviceNs,
    /// `\\server\share`
    Unc,
    /// `C:`
    Disk,
}

/// The prefix of a Windows path: its form, and the one or two names in it.
#[derive(Debug, PartialEq, Eq, Hash)]
pub struct PathPrefix {
    pub kind: PrefixKind,
    pub first: Vec<u8>,
    pub second: Vec<u8>,
}

/// One component of a path. A name is held as the bytes in which the system encodes it.
#[derive(Debug, PartialEq, Eq, Hash)]
pub enum PathComponent {
    /// A drive or share, on Windows.
    Prefix(PathPrefix),
    /// The separator that an absolute path starts with.
    RootDir,
    /// A leading `.`.
    CurDir,
    /// `..`.
    ParentDir,
    /// A file or directory name.
    Normal(Vec<u8>),
}

/// What a component is, with names as byte sequences.
pub enum ComponentModel {
    Prefix { kind: PrefixKind, first: Seq<u8>, second: Seq<u8> },
    RootDir,
    CurDir,
    ParentDir,
    Normal { name: Seq<u8> },
}

/// What a path is: its components from the root down.
pub type PathModel = Seq<ComponentModel>;

/// A path. Repeated separators, inner `.` and trailing separators do not show in it, so two
/// spellings of one path are the same value.
#[derive(Debug, PartialEq, Eq, Hash)]
pub struct WatchPath {
    pub components: Vec<PathComponent>,
}

/// The outcome of comparing two values.
#[derive(Debug, Copy, Clone, PartialEq, Eq, Structural)]
pub enum Order {
    Less,
    Equal,
    Greater,
}

impl View for PathComponent {
    type V = ComponentModel;

    open spec fn view(&self) -> ComponentModel {
        match self {
            PathComponent::Prefix(prefix) => ComponentModel::Prefix {
                kind: prefix.kind,
                first: prefix.first@,
                second: prefix.second@,
            },
            PathComponent::RootDir => ComponentModel::RootDir,
            PathComponent::CurDir => ComponentModel::CurDir,
            PathComponent::ParentDir => ComponentModel::ParentDir,
            PathComponent::Normal(name) => ComponentModel::Normal { name: name@ },
        }
    }
}

impl View for WatchPath {
    type V = PathModel;

    open spec fn view(&self) -> PathModel {
        self.components@.map_values(|c: PathComponent| c@)
    }
}

/// The order of bytes.
pub open spec fn byte_order() -> spec_fn(u8, u8) -> bool {
    |x: u8, y: u8| x < y
}

/// Names are ordered byte by byte.
pub open spec fn name_less(a: Seq<u8>, b: Seq<u8>) -> bool {
    lex_less(byte_order(), a, b)
}

/// The place of a form of prefix among all forms.
pub open spec fn prefix_rank(kind: PrefixKind) -> int {
    match kind {
        PrefixKind::Verbatim => 0,
        PrefixKind::VerbatimUnc => 1,
        PrefixKind::VerbatimDisk => 2,
        PrefixKind::DeviceNs => 3,
        PrefixKind::Unc => 4,
        PrefixKind::Disk => 5,
    }
}

/// The place of a kind of component among all kinds.
pub open spec fn component_rank(c: ComponentModel) -> int {
    match c {
        ComponentModel::Prefix { .. } => 0,
        ComponentModel::RootDir => 1,
        ComponentModel::CurDir => 2,
        ComponentModel::ParentDir => 3,
        ComponentModel::Normal { .. } => 4,
    }
}

/// Components are ordered by kind; prefixes then by form and names, names by their bytes.
pub open spec fn component_less(a: ComponentModel, b: ComponentModel) -> bool {
    match (a, b) {
        (
            ComponentModel::Prefix { kind: k1, first: f1, second: s1 },
            ComponentModel::Prefix { kind: k2, first: f2, second: s2 },
        ) => if k1 != k2 {
            prefix_rank(k1) < prefix_rank(k2)
        } else if f1 != f2 {
            name_less(f1, f2)
        } else {
            name_less(s1, s2)
        },
        (ComponentModel::Normal { name: n1 }, ComponentModel::Normal { name: n2 }) => name_less(
            n1,
            n2,
        ),
        _ => component_rank(a) < component_rank(b),
    }
}

/// The order of components.
pub open spec fn component_order() -> spec_fn(ComponentModel, ComponentModel) -> bool {
    |x: ComponentModel, y: ComponentModel| component_less(x, y)
}

/// Paths are ordered component by component.
pub open spec fn path_less(a: PathModel, b: PathModel) -> bool {
    lex_less(component_order(), a, b)
}

/// `path` is `ancestor` or lies below it.
pub open spec fn path_starts_with(path: PathModel, ancestor: PathModel) -> bool {
    ancestor.is_prefix_of(path)
}

/// `path` lies below `ancestor` and is not `ancestor`.
pub open spec fn path_below(path: PathModel, ancestor: PathModel) -> bool {
    path != ancestor && path_starts_with(path, ancestor)
}

/// The path starts with a prefix that switches off the usual reading of `.` and `..`.
pub open spec fn path_verbatim(path: PathModel) -> bool {
    path.len() > 0 && match path[0] {
        ComponentModel::Prefix { kind, .. } => match kind {
            PrefixKind::Verbatim | PrefixKind::VerbatimUnc | PrefixKind::VerbatimDisk => true,
            PrefixKind::DeviceNs | PrefixKind::Unc | PrefixKind::Disk => false,
        },
        _ => false,
    }
}

/// `base` with one more component behind it, where `base` is verbatim: the root leads back to the
/// prefix, `.` vanishes, and `..` takes back a name.
pub open spec fn path_resolved_step(base: PathModel, component: ComponentModel) -> PathModel {
    match component {
        ComponentModel::RootDir => base.take(1).push(component),
        ComponentModel::CurDir => base,
        ComponentModel::ParentDir => if base.len() > 0 && base.last() is Normal {
            base.drop_last()
        } else {
            base
        },
        ComponentModel::Prefix { .. } | ComponentModel::Normal { .. } => base.push(component),
    }
}

/// The components of `tail` one after the other behind a verbatim `base`.
pub open spec fn path_resolved(base: PathModel, tail: PathModel) -> PathModel
    decreases tail.len(),
{
    if tail.len() == 0 {
        base
    } else {
        path_resolved_step(path_resolved(base, tail.drop_last()), tail.last())
    }
}

/// `tail` read from `base` on. A `tail` with a prefix of its own stands for itself, and one that
/// starts at the root keeps no more of `base` than its prefix. Behind a verbatim `base` the `.` and
/// `..` of `tail` are resolved. Otherwise `tail` is appended, and a leading `.` shows only where
/// there is nothing in front of it or a bare prefix.
pub open spec fn path_joined(base: PathModel, tail: PathModel) -> PathModel {
    if tail.len() == 0 {
        base
    } else if tail[0] is Prefix {
        tail
    } else if path_verbatim(base) {
        path_resolved(base, tail)
    } else if tail[0] is RootDir {
        if base.len() > 0 && base[0] is Prefix {
            base.take(1) + tail
        } else {
            tail
        }
    } else if tail[0] is CurDir && base.len() > 0 && !(base.len() == 1 && base[0] is Prefix) {
        base + tail.skip(1)
    } else {
        base + tail
    }
}

/// Where an event at `event_path`, seen by a watch on `canonical_root`, lies below
/// `original_root`, the name under which that directory was asked for.
pub open spec fn translated(
    event_path: PathModel,
    canonical_root: PathModel,
    original_root: PathModel,
) -> Option<PathModel> {
    if path_starts_with(event_path, canonical_root) {
        Some(path_joined(original_root, event_path.skip(canonical_root.len() as int)))
    } else {
        None
    }
}

/// The components stand where they can stand in a path: a prefix only first, the root only first
/// or behind the prefix, and `.` only first or behind the prefix, but anywhere in a verbatim path.
pub open spec fn path_normal(path: PathModel) -> bool {
    &&& forall|i: int| 0 <= i < path.len() && #[trigger] path[i] is Prefix ==> i == 0
    &&& forall|i: int|
        0 <= i < path.len() && #[trigger] path[i] is RootDir ==> i == 0 || (i == 1
            && path[0] is Prefix)
    &&& path_verbatim(path) || forall|i: int|
        0 <= i < path.len() && #[trigger] path[i] is CurDir ==> i == 0 || (i == 1
            && path[0] is Prefix)
}

proof fn lemma_byte_order()
    ensures
        strict_total_order(byte_order()),
{
}

/// No component comes before itself.
pub proof fn lemma_component_irreflexive(a: ComponentModel)
    ensures
        !component_less(a, a),
{
    match a {
        ComponentModel::Prefix { second, .. } => lemma_lex_irreflexive(byte_order(), second),
        ComponentModel::Normal { name } => lemma_lex_irreflexive(byte_order(), name),
        _ => {},
    }
}

/// Of two different components one comes before the other.
pub proof fn lemma_component_total(a: ComponentModel, b: ComponentModel)
    ensures
        a == b || component_less(a, b) || component_less(b, a),
{
    lemma_byte_order();
    match (a, b) {
        (
            ComponentModel::Prefix { first: f1, second: s1, .. },
            ComponentModel::Prefix { first: f2, second: s2, .. },
        ) => {
            lemma_lex_total(byte_order(), f1, f2);
            lemma_lex_total(byte_order(), s1, s2);
        },
        (ComponentModel::Normal { name: n1 }, ComponentModel::Normal { name: n2 }) => {
            lemma_lex_total(byte_order(), n1, n2);
        },
        _ => {},
    }
}

/// The order of components is transitive.
pub proof fn lemma_component_transitive(a: ComponentModel, b: ComponentModel, c: ComponentModel)
    requires
        component_less(a, b),
        component_less(b, c),
    ensures
        component_less(a, c),
{
    lemma_byte_order();
    match (a, b, c) {
        (
            ComponentModel::Prefix { kind: k1, first: f1, second: s1 },
            ComponentModel::Prefix { kind: k2, first: f2, second: s2 },
            ComponentModel::Prefix { kind: k3, first: f3, second: s3 },
        ) => {
            if k1 == k2 && k2 == k3 {
                if f1 != f2 && f2 != f3 {
                    lemma_lex_transitive(byte_order(), f1, f2, f3);
                    lemma_lex_irreflexive(byte_order(), f1);
                } else if f1 == f2 && f2 == f3 {
                    lemma_lex_transitive(byte_order(), s1, s2, s3);
                }
            }
        },
        (
            ComponentModel::Normal { name: n1 },
            ComponentModel::Normal { name: n2 },
            ComponentModel::Normal { name: n3 },
        ) => {
            lemma_lex_transitive(byte_order(), n1, n2, n3);
        },
        _ => {},
    }
}

proof fn lemma_component_order()
    ensures
        strict_total_order(component_order()),
{
    let less = component_order();
    assert forall|x: ComponentModel| !#[trigger] less(x, x) by {
        lemma_component_irreflexive(x);
    }
    assert forall|x: ComponentModel, y: ComponentModel, z: ComponentModel| #[trigger]
        less(x, y) && #[trigger] less(y, z) implies less(x, z) by {
        lemma_component_transitive(x, y, z);
    }
    assert forall|x: ComponentModel, y: ComponentModel|
        x == y || #[trigger] less(x, y) || less(y, x) by {
        lemma_component_total(x, y);
    }
}

/// No path comes before itself.
pub proof fn lemma_path_irreflexive(a: PathModel)
    ensures
        !path_less(a, a),
{
    lemma_lex_irreflexive(component_order(), a);
}

/// The order of paths is transitive.
pub proof fn lemma_path_transitive(a: PathModel, b: PathModel, c: PathModel)
    requires
        path_less(a, b),
        path_less(b, c),
    ensures
        path_less(a, c),
{
    lemma_component_order();
    lemma_lex_transitive(component_order(), a, b, c);
}

/// Of two different paths one comes before the other.
pub proof fn lemma_path_total(a: PathModel, b: PathModel)
    ensures
        a == b || path_less(a, b) || path_less(b, a),
{
    lemma_component_order();
    lemma_lex_total(component_order(), a, b);
}

/// An ancestor comes before everything below it.
pub proof fn lemma_ancestor_first(path: PathModel, ancestor: PathModel)
    requires
        path_below(path, ancestor),
    ensures
        path_less(ancestor, path),
{
    if ancestor.len() == path.len() {
        assert(ancestor =~= path);
    }
    lemma_lex_prefix(component_order(), ancestor, path);
}

/// What lies below something below an ancestor lies below the ancestor.
pub proof fn lemma_starts_with_transitive(path: PathModel, middle: PathModel, ancestor: PathModel)
    requires
        path_starts_with(path, middle),
        path_starts_with(middle, ancestor),
    ensures
        path_starts_with(path, ancestor),
{
    assert(ancestor =~= path.subrange(0, ancestor.len() as int)) by {
        assert forall|i: int| 0 <= i < ancestor.len() implies ancestor[i] == path[i] by {
            assert(ancestor[i] == middle.subrange(0, ancestor.len() as int)[i]);
            assert(middle[i] == path.subrange(0, middle.len() as int)[i]);
        }
    }
}

/// A path that is translated, and then translated back with the two roots exchanged, is the path
/// again, where what lies below the roots is simply appended to them: it is not absolute, does not
/// start with `.`, and holds nothing that a verbatim root resolves.
pub proof fn lemma_translation_round_trip(
    event_path: PathModel,
    canonical_root: PathModel,
    original_root: PathModel,
)
    requires
        path_starts_with(event_path, canonical_root),
        ({
            let tail = event_path.skip(canonical_root.len() as int);
            &&& path_joined(original_root, tail) == original_root + tail
            &&& path_joined(canonical_root, tail) == canonical_root + tail
        }),
    ensures
        translated(event_path, canonical_root, original_root) is Some,
        translated(
            translated(event_path, canonical_root, original_root)->0,
            original_root,
            canonical_root,
        ) == Some(event_path),
{
    let tail = event_path.skip(canonical_root.len() as int);
    let there = original_root + tail;
    assert(original_root =~= there.subrange(0, original_root.len() as int));
    assert(there.skip(original_root.len() as int) =~= tail);
    assert(canonical_root + tail =~= event_path);
}

/// What starts with anything but a prefix, the root or `.` is simply appended, unless a verbatim
/// path is in front of it.
pub proof fn lemma_plain_tail_appended(base: PathModel, tail: PathModel)
    requires
        !path_verbatim(base),
        tail.len() > 0 ==> tail[0] is ParentDir || tail[0] is Normal,
    ensures
        path_joined(base, tail) == base + tail,
{
    if tail.len() == 0 {
        assert(base + tail =~= base);
    }
}

/// Translation leads below the root under which the directory was asked for, unless what lies
/// below the canonical root is itself absolute or the root is verbatim.
pub proof fn lemma_translation_below_root(
    event_path: PathModel,
    canonical_root: PathModel,
    original_root: PathModel,
)
    requires
        path_starts_with(event_path, canonical_root),
        event_path.len() > canonical_root.len() ==> {
            let head = event_path[canonical_root.len() as int];
            !(head is Prefix) && !(head is RootDir)
        },
        !path_verbatim(original_root),
    ensures
        path_starts_with(
            translated(event_path, canonical_root, original_root)->0,
            original_root,
        ),
{
    let there = translated(event_path, canonical_root, original_root)->0;
    let tail = event_path.skip(canonical_root.len() as int);
    assert(tail.len() > 0 ==> tail[0] == event_path[canonical_root.len() as int]);
    assert(original_root =~= there.subrange(0, original_root.len() as int));
}

proof fn lemma_resolved_normal(base: PathModel, tail: PathModel)
    requires
        path_verbatim(base),
        path_normal(base),
        forall|i: int| 0 <= i < tail.len() ==> !(#[trigger] tail[i] is Prefix),
    ensures
        path_verbatim(path_resolved(base, tail)),
        path_normal(path_resolved(base, tail)),
    decreases tail.len(),
{
    if tail.len() > 0 {
        let front = tail.drop_last();
        assert forall|i: int| 0 <= i < front.len() implies !(#[trigger] front[i] is Prefix) by {
            assert(front[i] == tail[i]);
        }
        lemma_resolved_normal(base, front);
        let before = path_resolved(base, front);
        let after = path_resolved(base, tail);
        assert(!(tail[tail.len() - 1] is Prefix));
        assert(after[0] == before[0]);
        assert forall|i: int| 0 <= i < after.len() && #[trigger] after[i] is Prefix implies i
            == 0 by {
            if i < before.len() && after[i] == before[i] {
                assert(before[i] is Prefix);
            }
        }
        assert forall|i: int| 0 <= i < after.len() && #[trigger] after[i] is RootDir implies i == 0
            || (i == 1 && after[0] is Prefix) by {
            if i < before.len() && after[i] == before[i] {
                assert(before[i] is RootDir);
            }
        }
    }
}

/// Translation of paths whose components stand where they can gives such a path, unless the event
/// is named by a verbatim path, in which `.` may stand anywhere.
pub proof fn lemma_translation_normal(
    event_path: PathModel,
    canonical_root: PathModel,
    original_root: PathModel,
)
    requires
        path_normal(event_path),
        !path_verbatim(event_path),
        path_normal(original_root),
        path_starts_with(event_path, canonical_root),
    ensures
        path_normal(translated(event_path, canonical_root, original_root)->0),
{
    let n = canonical_root.len() as int;
    let tail = event_path.skip(n);
    let there = translated(event_path, canonical_root, original_root)->0;
    assert forall|i: int| 0 <= i < tail.len() implies tail[i] == #[trigger] event_path[i + n] by {}
    if tail.len() == 0 || tail[0] is Prefix {
        assert(tail.len() > 0 ==> there =~= event_path);
    } else if path_verbatim(original_root) {
        assert forall|i: int| 0 <= i < tail.len() implies !(#[trigger] tail[i] is Prefix) by {
            assert(tail[i] == event_path[i + n]);
        }
        lemma_resolved_normal(original_root, tail);
    } else {
        let front = there.len() - tail.len();
        let k = if tail[0] is CurDir && original_root.len() > 0 && !(original_root.len() == 1
            && original_root[0] is Prefix) {
            1int
        } else {
            0int
        };
        assert forall|i: int| 0 <= i < there.len() implies #[trigger] there[i] == if i < front + k {
            original_root[i]
        } else {
            tail[i - front]
        } by {}
        assert forall|i: int| front + k <= i < there.len() implies #[trigger] there[i]
            == event_path[i - front + n] by {}
        assert forall|i: int| 0 <= i < there.len() && #[trigger] there[i] is Prefix implies i
            == 0 by {
            if i < front + k {
                assert(original_root[i] is Prefix);
            } else {
                assert(event_path[i - front + n] is Prefix);
            }
        }
        assert forall|i: int| 0 <= i < there.len() && #[trigger] there[i] is RootDir implies i == 0
            || (i == 1 && there[0] is Prefix) by {
            if i < front + k {
                assert(original_root[i] is RootDir);
            } else {
                assert(event_path[i - front + n] is RootDir);
            }
        }
        assert forall|i: int| 0 <= i < there.len() && #[trigger] there[i] is CurDir implies i == 0
            || (i == 1 && there[0] is Prefix) by {
            if i < front + k {
                assert(original_root[i] is CurDir);
            } else {
                assert(event_path[i - front + n] is CurDir);
            }
        }
    }
}

fn compare_names(a: &Vec<u8>, b: &Vec<u8>) -> (order: Order)
    ensures
        order is Less <==> name_less(a@, b@),
        order is Equal <==> a@ == b@,
        order is Greater <==> name_less(b@, a@),
{
    proof {
        lemma_byte_order();
        lemma_lex_irreflexive(byte_order(), a@);
    }
    let mut i: usize = 0;
    while i < a.len() && i < b.len()
        invariant
            i <= a.len(),
            i <= b.len(),
            forall|j: int| 0 <= j < i ==> a@[j] == b@[j],
            strict_total_order(byte_order()),
        decreases a.len() - i,
    {
        if a[i] != b[i] {
            proof {
                lemma_lex_skip(byte_order(), a@, b@, i as int);
                lemma_lex_skip(byte_order(), b@, a@, i as int);
            }
            if a[i] < b[i] {
                return Order::Less;
            } else {
                return Order::Greater;
            }
        }
        i += 1;
    }
    proof {
        lemma_lex_skip(byte_order(), a@, b@, i as int);
        lemma_lex_skip(byte_order(), b@, a@, i as int);
    }
    if i < b.len() {
        Order::Less
    } else if i < a.len() {
        Order::Greater
    } else {
        assert(a@ =~= b@);
        Order::Equal
    }
}

impl PrefixKind {
    fn rank(self) -> (rank: u8)
        ensures
            rank == prefix_rank(self),
    {
        match self {
            PrefixKind::Verbatim => 0,
            PrefixKind::VerbatimUnc => 1,
            PrefixKind::VerbatimDisk => 2,
            PrefixKind::DeviceNs => 3,
            PrefixKind::Unc => 4,
            PrefixKind::Disk => 5,
        }
    }
}

impl Clone for PathComponent {
    fn clone(&self) -> (copy: Self)
        ensures
            copy@ == self@,
    {
        match self {
            PathComponent::Prefix(prefix) => PathComponent::Prefix(
                PathPrefix {
                    kind: prefix.kind,
                    first: prefix.first.clone(),
                    second: prefix.second.clone(),
                },
            ),
            PathComponent::RootDir => PathComponent::RootDir,
            PathComponent::CurDir => PathComponent::CurDir,
            PathComponent::ParentDir => PathComponent::ParentDir,
            PathComponent::Normal(name) => PathComponent::Normal(name.clone()),
        }
    }
}

impl PathComponent {
    fn rank(&self) -> (rank: u8)
        ensures
            rank == component_rank(self@),
    {
        match self {
            PathComponent::Prefix(_) => 0,
            PathComponent::RootDir => 1,
            PathComponent::CurDir => 2,
            PathComponent::ParentDir => 3,
            PathComponent::Normal(_) => 4,
        }
    }

    /// Compares two components.
    pub fn compare(&self, other: &PathComponent) -> (order: Order)
        ensures
            order is Less <==> component_less(self@, other@),
            order is Equal <==> self@ == other@,
            order is Greater <==> component_less(other@, self@),
    {
        proof {
            lemma_component_irreflexive(self@);
        }
        match (self, other) {
            (PathComponent::Prefix(a), PathComponent::Prefix(b)) => {
                let (x, y): (u8, u8) = (a.kind.rank(), b.kind.rank());
                if x < y {
                    Order::Less
                } else if y < x {
                    Order::Greater
                } else {
                    match compare_names(&a.first, &b.first) {
                        Order::Less => Order::Less,
                        Order::Greater => Order::Greater,
                        Order::Equal => compare_names(&a.second, &b.second),
                    }
                }
            },
            (PathComponent::Normal(a), PathComponent::Normal(b)) => compare_names(a, b),
            _ => {
                let (x, y): (u8, u8) = (self.rank(), other.rank());
                if x < y {
                    Order::Less
                } else if y < x {
                    Order::Greater
                } else {
                    Order::Equal
                }
            },
        }
    }
}

impl Clone for WatchPath {
    fn clone(&self) -> (copy: Self)
        ensures
            copy@ == self@,
    {
        assert(self@.skip(0) =~= self@);
        self.tail_from(0)
    }
}

impl WatchPath {
    /// The components from `start` on.
    fn tail_from(&self, start: usize) -> (tail: WatchPath)
        requires
            start <= self@.len(),
        ensures
            tail@ == self@.skip(start as int),
    {
        let mut components: Vec<PathComponent> = Vec::new();
        let mut i: usize = start;
        while i < self.components.len()
            invariant
                start <= i <= self@.len(),
                components.len() == i - start,
                forall|j: int|
                    0 <= j < components.len() ==> (#[trigger] components@[j])@ == self@[start + j],
            decreases self@.len() - i,
        {
            components.push(self.components[i].clone());
            i += 1;
        }
        let tail = WatchPath { components };
        assert(tail@ =~= self@.skip(start as int));
        tail
    }

    /// Compares two paths component by component.
    pub fn compare(&self, other: &WatchPath) -> (order: Order)
        ensures
            order is Less <==> path_less(self@, other@),
            order is Equal <==> self@ == other@,
            order is Greater <==> path_less(other@, self@),
    {
        proof {
            lemma_path_irreflexive(self@);
        }
        let (a, b) = (&self.components, &other.components);
        let mut i: usize = 0;
        while i < a.len() && i < b.len()
            invariant
                a == &self.components,
                b == &other.components,
                i <= a.len(),
                i <= b.len(),
                forall|j: int| 0 <= j < i ==> self@[j] == other@[j],
            decreases a.len() - i,
        {
            let order = a[i].compare(&b[i]);
            if order != Order::Equal {
                proof {
                    lemma_lex_skip(component_order(), self@, other@, i as int);
                    lemma_lex_skip(component_order(), other@, self@, i as int);
                    lemma_component_irreflexive(self@[i as int]);
                    lemma_path_irreflexive(self@);
                    lemma_component_order();
                }
                return order;
            }
            i += 1;
        }
        proof {
            lemma_lex_skip(component_order(), self@, other@, i as int);
            lemma_lex_skip(component_order(), other@, self@, i as int);
        }
        if i < b.len() {
            Order::Less
        } else if i < a.len() {
            Order::Greater
        } else {
            assert(self@ =~= other@);
            Order::Equal
        }
    }

    /// Whether the two paths have the same components.
    pub fn same_path(&self, other: &WatchPath) -> (same: bool)
        ensures
            same == (self@ == other@),
    {
        self.compare(other) == Order::Equal
    }

    /// Whether this path is `ancestor` or lies below it.
    pub fn starts_with(&self, ancestor: &WatchPath) -> (below: bool)
        ensures
            below == path_starts_with(self@, ancestor@),
    {
        let (path, base) = (&self.components, &ancestor.components);
        if base.len() > path.len() {
            return false;
        }
        let mut i: usize = 0;
        while i < base.len()
            invariant
                path == &self.components,
                base == &ancestor.components,
                i <= base.len() <= path.len(),
                forall|j: int| 0 <= j < i ==> self@[j] == ancestor@[j],
            decreases base.len() - i,
        {
            if path[i].compare(&base[i]) != Order::Equal {
                assert(self@.subrange(0, ancestor@.len() as int)[i as int] != ancestor@[i as int]);
                return false;
            }
            i += 1;
        }
        assert(ancestor@ =~= self@.subrange(0, ancestor@.len() as int));
        true
    }

    /// Whether this path lies below `ancestor` and is not `ancestor`.
    pub fn is_below(&self, ancestor: &WatchPath) -> (below: bool)
        ensures
            below == path_below(self@, ancestor@),
    {
        !self.same_path(ancestor) && self.starts_with(ancestor)
    }

    /// What is left of this path below `base`, if it lies there.
    pub fn strip_prefix(&self, base: &WatchPath) -> (tail: Option<WatchPath>)
        ensures
            match tail {
                Some(tail) => path_starts_with(self@, base@) && tail@ == self@.skip(
                    base@.len() as int,
                ),
                None => !path_starts_with(self@, base@),
            },
    {
        if self.starts_with(base) {
            Some(self.tail_from(base.components.len()))
        } else {
            None
        }
    }

    /// Whether the path has no components.
    pub fn is_empty(&self) -> (empty: bool)
        ensures
            empty == (self@.len() == 0),
    {
        self.components.len() == 0
    }

    /// Whether the path starts with a verbatim prefix.
    fn is_verbatim(&self) -> (verbatim: bool)
        ensures
            verbatim == path_verbatim(self@),
    {
        assert(self@.len() > 0 ==> self@[0] == self.components@[0]@);
        if self.components.len() == 0 {
            return false;
        }
        match &self.components[0] {
            PathComponent::Prefix(prefix) => match prefix.kind {
                PrefixKind::Verbatim | PrefixKind::VerbatimUnc | PrefixKind::VerbatimDisk => true,
                PrefixKind::DeviceNs | PrefixKind::Unc | PrefixKind::Disk => false,
            },
            _ => false,
        }
    }

    /// This path with all components of `tail` behind it.
    fn append(&self, tail: WatchPath) -> (joined: WatchPath)
        ensures
            joined@ == self@ + tail@,
    {
        let head = self.clone();
        let ghost (front, back) = (head@, tail@);
        let mut components = head.components;
        let mut more = tail.components;
        components.append(&mut more);
        let joined = WatchPath { components };
        assert(joined@ =~= front + back);
        joined
    }

    /// The components of `tail` one after the other behind this path, where it is verbatim.
    fn resolve(&self, tail: &WatchPath) -> (resolved: WatchPath)
        requires
            path_verbatim(self@),
        ensures
            resolved@ == path_resolved(self@, tail@),
    {
        let mut resolved = self.clone();
        let mut i: usize = 0;
        assert(tail@.take(0) =~= Seq::<ComponentModel>::empty());
        while i < tail.components.len()
            invariant
                i <= tail.components.len(),
                resolved@.len() > 0 && resolved@[0] is Prefix,
                resolved@ == path_resolved(self@, tail@.take(i as int)),
            decreases tail.components.len() - i,
        {
            let ghost before = resolved@;
            let ghost last = tail@[i as int];
            assert(tail@.take(i + 1).drop_last() =~= tail@.take(i as int));
            assert(tail@.take(i + 1).last() == last);
            match &tail.components[i] {
                PathComponent::RootDir => {
                    resolved.components.truncate(1);
                    assert(resolved@ =~= before.take(1));
                    resolved.components.push(PathComponent::RootDir);
                    assert(resolved@ =~= before.take(1).push(last));
                },
                PathComponent::CurDir => {},
                PathComponent::ParentDir => {
                    let count = resolved.components.len();
                    if count > 0 {
                        assert(before.last() == resolved.components@[count - 1]@);
                        if let PathComponent::Normal(_) = &resolved.components[count - 1] {
                            resolved.components.truncate(count - 1);
                            assert(resolved@ =~= before.drop_last());
                        }
                    }
                },
                PathComponent::Prefix(_) | PathComponent::Normal(_) => {
                    resolved.components.push(tail.components[i].clone());
                    assert(resolved@ =~= before.push(last));
                },
            }
            i += 1;
        }
        assert(tail@.take(tail@.len() as int) =~= tail@);
        resolved
    }

    /// `tail` read from this path on.
    pub fn join(&self, tail: &WatchPath) -> (joined: WatchPath)
        ensures
            joined@ == path_joined(self@, tail@),
    {
        assert(tail@.len() > 0 ==> tail@[0] == tail.components@[0]@);
        assert(self@.len() > 0 ==> self@[0] == self.components@[0]@);
        if tail.components.len() == 0 {
            return self.clone();
        }
        let has_prefix = self.components.len() > 0 && match &self.components[0] {
            PathComponent::Prefix(_) => true,
            _ => false,
        };
        match &tail.components[0] {
            PathComponent::Prefix(_) => tail.clone(),
            _ if self.is_verbatim() => self.resolve(tail),
            PathComponent::RootDir => {
                if has_prefix {
                    let mut components: Vec<PathComponent> = Vec::new();
                    components.push(self.components[0].clone());
                    let prefix = WatchPath { components };
                    assert(prefix@ =~= self@.take(1));
                    prefix.append(tail.clone())
                } else {
                    tail.clone()
                }
            },
            PathComponent::CurDir if self.components.len() > 0 && !(self.components.len() == 1
                && has_prefix) => self.append(tail.tail_from(1)),
            _ => self.append(tail.clone()),
        }
    }
}

/// Turns the path of an event below the directory that is watched, `canonical_root`, into the
/// path below `original_root`, the name under which that directory was asked for. An event
/// elsewhere has none.
pub fn translate_canonical_event_path(
    event_path: &WatchPath,
    canonical_root: &WatchPath,
    original_root: &WatchPath,
) -> (path: Option<WatchPath>)
    ensures
        path is Some <==> path_starts_with(event_path@, canonical_root@),
        path matches Some(path) ==> Some(path@) == translated(
            event_path@,
            canonical_root@,
            original_root@,
        ),
{
    match event_path.strip_prefix(canonical_root) {
        None => None,
        Some(relative) => if relative.is_empty() {
            assert(original_root@ + relative@ =~= original_root@);
            Some(original_root.clone())
        } else {
            Some(original_root.join(&relative))
        },
    }
}

} // verus!
