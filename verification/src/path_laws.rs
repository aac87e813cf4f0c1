//! What the comparison, the joining and the translation of paths come to, component by component.
use crate::order::lex_less;
use crate::path::{
    byte_order, component_less, component_order, name_less, path_below, path_joined, path_less,
    path_resolved, path_resolved_step, path_starts_with, path_verbatim, translated, ComponentModel,
    PathComponent, PathModel, PrefixKind, WatchPath,
};
use vstd::prelude::*;

verus! {

/// The model of a component tells its kind, and every byte of its names.
pub proof fn lemma_component_model(component: PathComponent)
    ensures
        match component {
            PathComponent::Prefix(prefix) => component@ == (ComponentModel::Prefix {
                kind: prefix.kind,
                first: prefix.first@,
                second: prefix.second@,
            }),
            PathComponent::RootDir => component@ == ComponentModel::RootDir,
            PathComponent::CurDir => component@ == ComponentModel::CurDir,
            PathComponent::ParentDir => component@ == ComponentModel::ParentDir,
            PathComponent::Normal(name) => component@ == (ComponentModel::Normal { name: name@ }),
        },
{
}

/// The model of a path has the path's components, all of them and in their order.
pub proof fn lemma_path_model(path: WatchPath)
    ensures
        path@.len() == path.components@.len(),
        forall|i: int|
            0 <= i < path.components@.len() ==> #[trigger] path@[i] == path.components@[i]@,
{
}

/// A path starts with an ancestor exactly if it is the ancestor with something, or nothing, behind
/// it.
pub proof fn lemma_starts_with_exact(path: PathModel, ancestor: PathModel)
    ensures
        path_starts_with(path, ancestor) <==> ancestor.len() <= path.len() && (forall|i: int|
            0 <= i < ancestor.len() ==> path[i] == ancestor[i]),
        path_starts_with(path, ancestor) <==> exists|tail: PathModel| path == #[trigger] (ancestor
            + tail),
{
    if path_starts_with(path, ancestor) {
        assert forall|i: int| 0 <= i < ancestor.len() implies path[i] == ancestor[i] by {
            assert(ancestor[i] == path.subrange(0, ancestor.len() as int)[i]);
        }
        assert(path =~= ancestor + path.skip(ancestor.len() as int));
    }
    if ancestor.len() <= path.len() && (forall|i: int|
        0 <= i < ancestor.len() ==> path[i] == ancestor[i]) {
        assert(ancestor =~= path.subrange(0, ancestor.len() as int));
    }
    if exists|tail: PathModel| path == #[trigger] (ancestor + tail) {
        let tail = choose|tail: PathModel| path == #[trigger] (ancestor + tail);
        assert(ancestor =~= path.subrange(0, ancestor.len() as int));
    }
}

/// A path lies below an ancestor exactly if it is the ancestor with something behind it.
pub proof fn lemma_below_exact(path: PathModel, ancestor: PathModel)
    ensures
        path_below(path, ancestor) <==> ancestor.len() < path.len() && (forall|i: int|
            0 <= i < ancestor.len() ==> path[i] == ancestor[i]),
        path_below(path, ancestor) <==> exists|tail: PathModel|
            tail.len() > 0 && path == #[trigger] (ancestor + tail),
{
    lemma_starts_with_exact(path, ancestor);
    if path_starts_with(path, ancestor) {
        if path.len() == ancestor.len() {
            assert(path =~= ancestor);
        }
        let tail = path.skip(ancestor.len() as int);
        assert(path =~= ancestor + tail);
    }
}

/// One sequence comes before another exactly if they agree up to some place, and there the first
/// ends or has the smaller element.
pub proof fn lemma_lex_exact<T>(less: spec_fn(T, T) -> bool, a: Seq<T>, b: Seq<T>)
    ensures
        lex_less(less, a, b) <==> exists|n: int|
            0 <= n <= a.len() && n < b.len() && #[trigger] a.take(n) == b.take(n) && (n == a.len()
                || (a[n] != b[n] && less(a[n], b[n]))),
    decreases b.len(),
{
    let decided = |n: int|
        0 <= n <= a.len() && n < b.len() && a.take(n) == b.take(n) && (n == a.len() || (a[n] != b[n]
            && less(a[n], b[n])));
    if a.len() > 0 && b.len() > 0 && a[0] == b[0] {
        let (x, y) = (a.drop_first(), b.drop_first());
        lemma_lex_exact(less, x, y);
        if lex_less(less, x, y) {
            let n = choose|n: int|
                0 <= n <= x.len() && n < y.len() && #[trigger] x.take(n) == y.take(n) && (n
                    == x.len() || (x[n] != y[n] && less(x[n], y[n])));
            assert(a.take(n + 1) =~= seq![a[0]] + x.take(n));
            assert(b.take(n + 1) =~= seq![b[0]] + y.take(n));
            assert(decided(n + 1));
        }
        if exists|n: int|
            0 <= n <= a.len() && n < b.len() && #[trigger] a.take(n) == b.take(n) && (n == a.len()
                || (a[n] != b[n] && less(a[n], b[n]))) {
            let n = choose|n: int|
                0 <= n <= a.len() && n < b.len() && #[trigger] a.take(n) == b.take(n) && (n
                    == a.len() || (a[n] != b[n] && less(a[n], b[n])));
            assert(n > 0);
            assert forall|i: int| 0 <= i < n - 1 implies x[i] == y[i] by {
                assert(a.take(n)[i + 1] == b.take(n)[i + 1]);
            }
            assert(x.take(n - 1) =~= y.take(n - 1));
        }
    } else if b.len() > 0 {
        assert(a.take(0) =~= b.take(0));
        if exists|n: int|
            0 <= n <= a.len() && n < b.len() && #[trigger] a.take(n) == b.take(n) && (n == a.len()
                || (a[n] != b[n] && less(a[n], b[n]))) {
            let n = choose|n: int|
                0 <= n <= a.len() && n < b.len() && #[trigger] a.take(n) == b.take(n) && (n
                    == a.len() || (a[n] != b[n] && less(a[n], b[n])));
            if n > 0 {
                assert(a.take(n)[0] == b.take(n)[0]);
            }
        }
    }
}

/// Names are ordered by the first byte in which they differ, and a name comes before those that it
/// begins.
pub proof fn lemma_name_order_exact(a: Seq<u8>, b: Seq<u8>)
    ensures
        name_less(a, b) <==> exists|n: int|
            0 <= n <= a.len() && n < b.len() && #[trigger] a.take(n) == b.take(n) && (n == a.len()
                || a[n] < b[n]),
{
    let less = byte_order();
    lemma_lex_exact(less, a, b);
    assert forall|x: u8, y: u8| #[trigger] less(x, y) == (x < y) by {}
    if name_less(a, b) {
        let n = choose|n: int|
            0 <= n <= a.len() && n < b.len() && #[trigger] a.take(n) == b.take(n) && (n == a.len()
                || (a[n] != b[n] && less(a[n], b[n])));
        assert(a.take(n) == b.take(n));
    }
    if exists|n: int|
        0 <= n <= a.len() && n < b.len() && #[trigger] a.take(n) == b.take(n) && (n == a.len()
            || a[n] < b[n]) {
        let n = choose|n: int|
            0 <= n <= a.len() && n < b.len() && #[trigger] a.take(n) == b.take(n) && (n == a.len()
                || a[n] < b[n]);
        assert(n < a.len() ==> less(a[n], b[n]));
    }
}

/// Paths are ordered by the first component in which they differ, and a path comes before those
/// below it.
pub proof fn lemma_path_order_exact(a: PathModel, b: PathModel)
    ensures
        path_less(a, b) <==> exists|n: int|
            0 <= n <= a.len() && n < b.len() && #[trigger] a.take(n) == b.take(n) && (n == a.len()
                || (a[n] != b[n] && component_less(a[n], b[n]))),
{
    let less = component_order();
    lemma_lex_exact(less, a, b);
    assert forall|x: ComponentModel, y: ComponentModel| #[trigger]
        less(x, y) == component_less(x, y) by {}
    if path_less(a, b) {
        let n = choose|n: int|
            0 <= n <= a.len() && n < b.len() && #[trigger] a.take(n) == b.take(n) && (n == a.len()
                || (a[n] != b[n] && less(a[n], b[n])));
        assert(n < a.len() ==> component_less(a[n], b[n]));
    }
    if exists|n: int|
        0 <= n <= a.len() && n < b.len() && #[trigger] a.take(n) == b.take(n) && (n == a.len() || (
        a[n] != b[n] && component_less(a[n], b[n]))) {
        let n = choose|n: int|
            0 <= n <= a.len() && n < b.len() && #[trigger] a.take(n) == b.take(n) && (n == a.len()
                || (a[n] != b[n] && component_less(a[n], b[n])));
        assert(n < a.len() ==> less(a[n], b[n]));
    }
}

/// The kinds of components follow each other: prefix, root, `.`, `..`, names. Names go by their
/// bytes.
pub proof fn lemma_component_kinds_ordered(
    kind: PrefixKind,
    first: Seq<u8>,
    second: Seq<u8>,
    a: Seq<u8>,
    b: Seq<u8>,
)
    ensures
        ({
            let prefix = ComponentModel::Prefix { kind, first, second };
            let name = ComponentModel::Normal { name: a };
            let (root, here, up) = (
                ComponentModel::RootDir,
                ComponentModel::CurDir,
                ComponentModel::ParentDir,
            );
            &&& component_less(prefix, root)
            &&& component_less(root, here)
            &&& component_less(here, up)
            &&& component_less(up, name)
            &&& component_less(prefix, name)
            &&& component_less(name, ComponentModel::Normal { name: b }) <==> name_less(a, b)
        }),
{
}

/// Prefixes are ordered by form, then by the first and then by the second name.
pub proof fn lemma_prefixes_ordered(
    kind: PrefixKind,
    a: Seq<u8>,
    b: Seq<u8>,
    c: Seq<u8>,
    d: Seq<u8>,
)
    ensures
        ({
            let p = |kind: PrefixKind, first: Seq<u8>, second: Seq<u8>|
                ComponentModel::Prefix { kind, first, second };
            &&& component_less(p(PrefixKind::Verbatim, a, b), p(PrefixKind::VerbatimUnc, c, d))
            &&& component_less(p(PrefixKind::VerbatimUnc, a, b), p(PrefixKind::VerbatimDisk, c, d))
            &&& component_less(p(PrefixKind::VerbatimDisk, a, b), p(PrefixKind::DeviceNs, c, d))
            &&& component_less(p(PrefixKind::DeviceNs, a, b), p(PrefixKind::Unc, c, d))
            &&& component_less(p(PrefixKind::Unc, a, b), p(PrefixKind::Disk, c, d))
            &&& a != c ==> (component_less(p(kind, a, b), p(kind, c, d)) <==> name_less(a, c))
            &&& component_less(p(kind, a, b), p(kind, a, d)) <==> name_less(b, d)
        }),
{
}

/// A path is verbatim exactly if it starts with a prefix of one of the three verbatim forms.
pub proof fn lemma_verbatim_exact(path: PathModel)
    ensures
        path_verbatim(path) <==> path.len() > 0 && path[0] is Prefix && (path[0]->kind
            == PrefixKind::Verbatim || path[0]->kind == PrefixKind::VerbatimUnc || path[0]->kind
            == PrefixKind::VerbatimDisk),
{
}

/// Joining nothing changes nothing, and what has a prefix of its own stands for itself.
pub proof fn lemma_join_nothing_or_prefixed(base: PathModel, tail: PathModel)
    ensures
        tail.len() == 0 ==> path_joined(base, tail) == base,
        tail.len() > 0 && tail[0] is Prefix ==> path_joined(base, tail) == tail,
{
}

/// What starts at the root stands for itself behind a path without prefix, and behind the bare
/// prefix of one that has it.
pub proof fn lemma_join_rooted(base: PathModel, tail: PathModel)
    requires
        tail.len() > 0,
        tail[0] is RootDir,
        !path_verbatim(base),
    ensures
        base.len() == 0 || !(base[0] is Prefix) ==> path_joined(base, tail) == tail,
        base.len() > 0 && base[0] is Prefix ==> path_joined(base, tail) == seq![base[0]] + tail,
{
    if base.len() > 0 {
        assert(base.take(1) =~= seq![base[0]]);
    }
}

/// What starts with a name or `..` is appended as it is: the same components in the same order.
/// A leading `.` is left out, but behind nothing or a bare prefix.
pub proof fn lemma_join_appends(base: PathModel, tail: PathModel)
    requires
        tail.len() > 0,
        !path_verbatim(base),
    ensures
        tail[0] is Normal || tail[0] is ParentDir ==> path_joined(base, tail) == base + tail,
        tail[0] is CurDir && (base.len() == 0 || (base.len() == 1 && base[0] is Prefix))
            ==> path_joined(base, tail) == base + tail,
        tail[0] is CurDir && base.len() > 0 && !(base.len() == 1 && base[0] is Prefix)
            ==> path_joined(base, tail) == base + tail.subrange(1, tail.len() as int),
{
    assert(tail.skip(1) =~= tail.subrange(1, tail.len() as int));
}

/// Behind a verbatim path each further component acts on what is there: a name is appended, `.`
/// changes nothing, `..` takes back a name and nothing else, and the root leads back to the
/// prefix.
pub proof fn lemma_join_verbatim_step(base: PathModel, tail: PathModel, last: ComponentModel)
    requires
        path_verbatim(base),
        tail.len() > 0 ==> !(tail[0] is Prefix),
    ensures
        ({
            let so_far = path_joined(base, tail);
            let joined = path_joined(base, tail.push(last));
            match last {
                ComponentModel::Normal { .. } => joined == so_far.push(last),
                ComponentModel::CurDir => joined == so_far,
                ComponentModel::ParentDir => if so_far.len() > 0 && so_far.last() is Normal {
                    joined == so_far.subrange(0, so_far.len() - 1)
                } else {
                    joined == so_far
                },
                ComponentModel::RootDir => joined == so_far.subrange(0, 1).push(last),
                ComponentModel::Prefix { .. } => joined == if tail.len() == 0 {
                    seq![last]
                } else {
                    so_far.push(last)
                },
            }
        }),
{
    let more = tail.push(last);
    assert(more.drop_last() =~= tail);
    assert(more.last() == last);
    assert(more[0] == if tail.len() > 0 {
        tail[0]
    } else {
        last
    });
    if tail.len() == 0 {
        assert(more =~= seq![last]);
    }
    assert(path_joined(base, tail) == path_resolved(base, tail));
    let so_far = path_joined(base, tail);
    assert(path_resolved(base, more) == path_resolved_step(so_far, last));
    assert(so_far.take(1) =~= so_far.subrange(0, 1)) by {
        lemma_resolved_keeps_prefix(base, tail);
    }
}

proof fn lemma_resolved_keeps_prefix(base: PathModel, tail: PathModel)
    requires
        path_verbatim(base),
    ensures
        path_resolved(base, tail).len() > 0,
        path_resolved(base, tail)[0] is Prefix,
    decreases tail.len(),
{
    if tail.len() > 0 {
        lemma_resolved_keeps_prefix(base, tail.drop_last());
    }
}

/// An event has a translation exactly if it is at or below the canonical root.
pub proof fn lemma_translation_exists(
    event_path: PathModel,
    canonical_root: PathModel,
    original_root: PathModel,
)
    ensures
        translated(event_path, canonical_root, original_root) is Some <==> canonical_root.len()
            <= event_path.len() && (forall|i: int|
            0 <= i < canonical_root.len() ==> event_path[i] == canonical_root[i]),
{
    lemma_starts_with_exact(event_path, canonical_root);
}

/// What lies at a name or `..` below the canonical root lies at the very same components, in the
/// same order, below the root that was asked for; and the one root becomes the other.
pub proof fn lemma_translation_keeps_tail(
    canonical_root: PathModel,
    original_root: PathModel,
    tail: PathModel,
)
    requires
        !path_verbatim(original_root),
        tail.len() > 0 ==> tail[0] is Normal || tail[0] is ParentDir,
    ensures
        translated(canonical_root + tail, canonical_root, original_root) == Some(
            original_root + tail,
        ),
{
    let event_path = canonical_root + tail;
    lemma_starts_with_exact(event_path, canonical_root);
    assert(event_path.skip(canonical_root.len() as int) =~= tail);
    if tail.len() > 0 {
        lemma_join_appends(original_root, tail);
    } else {
        assert(original_root + tail =~= original_root);
    }
}

/// Whatever lies below the canonical root, its translation is that, joined to the root that was
/// asked for.
pub proof fn lemma_translation_joins(
    canonical_root: PathModel,
    original_root: PathModel,
    tail: PathModel,
)
    ensures
        translated(canonical_root + tail, canonical_root, original_root) == Some(
            path_joined(original_root, tail),
        ),
{
    let event_path = canonical_root + tail;
    lemma_starts_with_exact(event_path, canonical_root);
    assert(event_path.skip(canonical_root.len() as int) =~= tail);
}

/// Different events below one canonical root have different translations, where what lies below
/// it starts with a name or `..`.
pub proof fn lemma_translation_injective(
    canonical_root: PathModel,
    original_root: PathModel,
    a: PathModel,
    b: PathModel,
)
    requires
        !path_verbatim(original_root),
        a.len() > 0 ==> a[0] is Normal || a[0] is ParentDir,
        b.len() > 0 ==> b[0] is Normal || b[0] is ParentDir,
        translated(canonical_root + a, canonical_root, original_root) == translated(
            canonical_root + b,
            canonical_root,
            original_root,
        ),
    ensures
        a == b,
{
    lemma_translation_keeps_tail(canonical_root, original_root, a);
    lemma_translation_keeps_tail(canonical_root, original_root, b);
    let (x, y) = (original_root + a, original_root + b);
    assert(x == y);
    assert(x.len() == y.len());
    assert forall|i: int| 0 <= i < a.len() implies a[i] == b[i] by {
        assert(x[original_root.len() + i] == a[i]);
        assert(y[original_root.len() + i] == b[i]);
    }
    assert(a =~= b);
}

} // verus!
