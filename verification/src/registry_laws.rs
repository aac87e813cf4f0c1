//! What each step does to the registry and to a watcher, and what it leaves alone.
use crate::global_watcher::{
    lemma_registered_well_formed, lemma_registration_counted, lemma_removed_well_formed,
    registrations_of, GlobalModel, WatcherRegistrationId,
};
use crate::path::{path_below, path_less, path_starts_with, PathModel};
use crate::path_laws::{lemma_below_exact, lemma_starts_with_exact};
use crate::path_map::keys_increasing;
use crate::report::Platform;
use crate::watcher::{
    already_watched, in_path_order, registration_at, watched_path, FsModel, WatchRequest,
};
use vstd::prelude::*;

verus! {

/// The registry starts without registrations, and with the number zero.
pub proof fn lemma_registry_starts_empty<C>(id: u32, path: PathModel)
    ensures
        GlobalModel::<C>::empty().well_formed(),
        !GlobalModel::<C>::empty().watchers.contains_key(id),
        !GlobalModel::<C>::empty().path_registrations.contains_key(path),
        GlobalModel::<C>::empty().last_registration == 0,
{
    let model = GlobalModel::<C>::empty();
    assert forall|other: PathModel| #[trigger]
        registrations_of(model.watchers, other) =~= Set::<u32>::empty() by {}
}

/// Each path is counted once for each registration of it, and the paths that are counted are those
/// that are registered. `ids` are the registrations of `path`, each once.
pub proof fn lemma_paths_counted<C>(model: GlobalModel<C>, path: PathModel, ids: Seq<u32>)
    requires
        model.well_formed(),
        forall|i: int, j: int| 0 <= i < j < ids.len() ==> ids[i] != ids[j],
        forall|id: u32| #[trigger]
            ids.contains(id) <==> model.watchers.contains_key(id) && model.watchers[id].path
                == path,
    ensures
        model.count(path) == ids.len(),
        model.path_registrations.contains_key(path) <==> ids.len() > 0,
        ids.len() > 0 ==> model.path_registrations[path] == ids.len(),
{
    assert(ids.no_duplicates());
    ids.unique_seq_to_set();
    assert(ids.to_set() =~= registrations_of(model.watchers, path));
    assert(model.path_registrations.contains_key(path) <==> registrations_of(
        model.watchers,
        path,
    ).len() > 0);
    if model.path_registrations.contains_key(path) {
        assert(model.path_registrations[path] == registrations_of(model.watchers, path).len());
    }
}

/// A path is counted exactly if some registration has it.
pub proof fn lemma_counted_exact<C>(model: GlobalModel<C>, path: PathModel)
    requires
        model.well_formed(),
    ensures
        model.path_registrations.contains_key(path) <==> exists|id: u32| #[trigger]
            model.watchers.contains_key(id) && model.watchers[id].path == path,
        model.path_registrations.contains_key(path) <==> model.count(path) > 0,
{
    let ids = registrations_of(model.watchers, path);
    assert(model.path_registrations.contains_key(path) <==> ids.len() > 0);
    if model.path_registrations.contains_key(path) {
        assert(model.path_registrations[path] == ids.len());
        if forall|id: u32| !#[trigger] ids.contains(id) {
            assert(ids =~= Set::empty());
        }
        let id = choose|id: u32| #[trigger] ids.contains(id);
        assert(model.watchers.contains_key(id));
    }
    if exists|id: u32| #[trigger]
        model.watchers.contains_key(id) && model.watchers[id].path == path {
        let id = choose|id: u32| #[trigger]
            model.watchers.contains_key(id) && model.watchers[id].path == path;
        lemma_registration_counted(model, id);
    }
}

/// A registration holds its callback and its path under the next number and counts its path once
/// more; every other registration and the count of every other path stay as they were.
pub proof fn lemma_registered_exact<C>(
    model: GlobalModel<C>,
    path: PathModel,
    callback: C,
    id: u32,
    other: PathModel,
)
    requires
        model.well_formed(),
        model.last_registration < u32::MAX,
    ensures
        ({
            let after = model.registered(path, callback);
            &&& after.last_registration == model.last_registration + 1
            &&& after.watchers[model.last_registration].callback == callback
            &&& after.watchers[model.last_registration].path == path
            &&& after.watchers.contains_key(id) <==> id == model.last_registration
                || model.watchers.contains_key(id)
            &&& model.watchers.contains_key(id) ==> after.watchers[id] == model.watchers[id]
            &&& after.path_registrations.contains_key(other) <==> other == path
                || model.path_registrations.contains_key(other)
            &&& after.count(path) == model.count(path) + 1
            &&& other != path ==> after.count(other) == model.count(other)
        }),
{
    lemma_registered_well_formed(model, path, callback);
}

/// A removal takes out the one registration and counts its path once less; every other
/// registration, the count of every other path and the next number stay as they were. What is not
/// registered takes nothing with it.
pub proof fn lemma_removed_exact<C>(
    model: GlobalModel<C>,
    id: u32,
    other_id: u32,
    other: PathModel,
)
    requires
        model.well_formed(),
    ensures
        ({
            let after = model.removed(id);
            &&& after.last_registration == model.last_registration
            &&& after.watchers.contains_key(other_id) <==> other_id != id
                && model.watchers.contains_key(other_id)
            &&& after.watchers.contains_key(other_id) ==> after.watchers[other_id]
                == model.watchers[other_id]
            &&& after.count(other) == model.count(other) - if model.watchers.contains_key(id)
                && model.watchers[id].path == other {
                1int
            } else {
                0int
            }
            &&& after.path_registrations.contains_key(other) <==> after.count(other) > 0
        }),
{
    if model.watchers.contains_key(id) {
        lemma_registration_counted(model, id);
    }
    lemma_removed_well_formed(model, id);
    lemma_counted_exact(model.removed(id), other);
}

/// A path is to be unwatched exactly when the registration that is taken out has it and no other
/// has.
pub proof fn lemma_unwatched_exact<C>(model: GlobalModel<C>, id: u32, path: PathModel)
    requires
        model.well_formed(),
    ensures
        model.unwatched(id) == Some(path) <==> model.watchers.contains_key(id)
            && model.watchers[id].path == path && forall|other: u32| #[trigger]
            model.watchers.contains_key(other) && model.watchers[other].path == path ==> other
                == id,
        model.unwatched(id) is None ==> !model.watchers.contains_key(id) || exists|other: u32|
            other != id && #[trigger] model.watchers.contains_key(other)
                && model.watchers[other].path == model.watchers[id].path,
{
    if model.watchers.contains_key(id) {
        let own = model.watchers[id].path;
        let ids = registrations_of(model.watchers, own);
        lemma_registration_counted(model, id);
        assert(model.path_registrations[own] == ids.len());
        assert(ids.contains(id));
        assert(ids.finite()) by {
            let below = Set::<u32>::range(0, model.last_registration);
            vstd::set_lib::range_set_properties::<u32>(0, model.last_registration);
            assert(ids.subset_of(below));
            vstd::set_lib::lemma_len_subset(ids, below);
        }
        if ids.len() == 1 {
            assert forall|other: u32| #[trigger]
                model.watchers.contains_key(other) && model.watchers[other].path
                    == own implies other == id by {
                assert(ids.contains(other));
                if other != id {
                    assert(ids.remove(id).contains(other));
                    assert(ids.remove(id).len() == 0);
                    ids.remove(id).lemma_len0_is_empty();
                }
            }
        } else {
            assert(ids.remove(id).len() > 0);
            let other = ids.remove(id).choose();
            assert(ids.remove(id).contains(other));
            assert(model.watchers.contains_key(other));
        }
    }
}

/// Where a watch is of one directory, a path has to be watched exactly if no registration has it.
/// Where a watch includes what is below, exactly if no registration's path is a beginning of it.
pub proof fn lemma_needs_watch_exact<C>(model: GlobalModel<C>, platform: Platform, path: PathModel)
    requires
        model.well_formed(),
    ensures
        platform == Platform::Linux ==> (model.needs_watch(platform, path) <==> forall|id: u32|
         #[trigger]
            model.watchers.contains_key(id) ==> model.watchers[id].path != path),
        platform != Platform::Linux ==> (model.needs_watch(platform, path) <==> forall|id: u32|
         #[trigger]
            model.watchers.contains_key(id) ==> !model.watchers[id].path.is_prefix_of(path)),
{
    lemma_counted_exact(model, path);
    if platform != Platform::Linux {
        if model.needs_watch(platform, path) {
            assert forall|id: u32| #[trigger]
                model.watchers.contains_key(id) implies !model.watchers[id].path.is_prefix_of(
                path,
            ) by {
                let other = model.watchers[id].path;
                lemma_registration_counted(model, id);
                assert(model.path_registrations.contains_key(other));
                if other.is_prefix_of(path) {
                    lemma_prefix_below(path, other);
                }
            }
        }
        if forall|id: u32| #[trigger]
            model.watchers.contains_key(id) ==> !model.watchers[id].path.is_prefix_of(path) {
            assert forall|other: PathModel| #[trigger]
                model.path_registrations.contains_key(other) implies !path_below(path, other)
                && other != path by {
                lemma_counted_exact(model, other);
                let id = choose|id: u32| #[trigger]
                    model.watchers.contains_key(id) && model.watchers[id].path == other;
                assert(model.watchers.contains_key(id));
                lemma_prefix_below(path, other);
            }
        }
    }
}

proof fn lemma_prefix_below(path: PathModel, ancestor: PathModel)
    ensures
        ancestor.is_prefix_of(path) <==> ancestor == path || path_below(path, ancestor),
        ancestor.is_prefix_of(path) <==> path_starts_with(path, ancestor),
{
    lemma_starts_with_exact(path, ancestor);
    lemma_below_exact(path, ancestor);
    assert(path =~= path.subrange(0, path.len() as int));
    if ancestor.is_prefix_of(path) {
        assert forall|i: int| 0 <= i < ancestor.len() implies path[i] == ancestor[i] by {
            assert(ancestor[i] == path.subrange(0, ancestor.len() as int)[i]);
        }
        if ancestor.len() == path.len() {
            assert(ancestor =~= path);
        }
    }
    if path_starts_with(path, ancestor) {
        assert(ancestor =~= path.subrange(0, ancestor.len() as int));
    }
}

/// Where a watch is of one directory, a watcher has nothing to do exactly for the paths that it
/// registered itself: a registered directory says nothing of what is below it. Where a watch
/// includes what is below, exactly for the paths that a registered path is a beginning of.
pub proof fn lemma_already_watched_exact(
    platform: Platform,
    registrations: Map<PathModel, WatcherRegistrationId>,
    path: PathModel,
)
    ensures
        platform == Platform::Linux ==> (already_watched(platform, registrations, path)
            <==> registrations.contains_key(path)),
        platform != Platform::Linux ==> (already_watched(platform, registrations, path)
            <==> exists|ancestor: PathModel| #[trigger]
            registrations.contains_key(ancestor) && ancestor.is_prefix_of(path)),
{
    if platform != Platform::Linux {
        if already_watched(platform, registrations, path) {
            let ancestor = choose|ancestor: PathModel| #[trigger]
                registrations.contains_key(ancestor) && path_starts_with(path, ancestor);
            lemma_prefix_below(path, ancestor);
            assert(registrations.contains_key(ancestor));
        }
        if exists|ancestor: PathModel| #[trigger]
            registrations.contains_key(ancestor) && ancestor.is_prefix_of(path) {
            let ancestor = choose|ancestor: PathModel| #[trigger]
                registrations.contains_key(ancestor) && ancestor.is_prefix_of(path);
            lemma_prefix_below(path, ancestor);
            assert(registrations.contains_key(ancestor));
        }
    }
}

/// A canonical form is watched in place of the path on Linux; everywhere else, and where there is
/// none, the path itself is.
pub proof fn lemma_watched_path_exact(platform: Platform, path: PathModel, canonical: PathModel)
    ensures
        watched_path(platform, path, None) == path,
        watched_path(Platform::Linux, path, Some(canonical)) == canonical,
        platform != Platform::Linux ==> watched_path(platform, path, Some(canonical)) == path,
{
}

/// A watcher starts with nothing registered.
pub proof fn lemma_watcher_starts_empty(path: PathModel)
    ensures
        !FsModel::empty().registrations.contains_key(path),
        !FsModel::empty().followed_registrations.contains_key(path),
{
}

/// Adding a path holds its registration and leaves every other registration as it was.
pub proof fn lemma_added_exact(
    fs: FsModel,
    path: PathModel,
    id: WatcherRegistrationId,
    other: PathModel,
)
    ensures
        ({
            let after = fs.added(path, id);
            &&& after.registrations.contains_key(path)
            &&& after.registrations[path] == id
            &&& other != path ==> (after.registrations.contains_key(other)
                <==> fs.registrations.contains_key(other))
            &&& other != path && fs.registrations.contains_key(other) ==> after.registrations[other]
                == fs.registrations[other]
            &&& after.followed_registrations == fs.followed_registrations
        }),
{
}

/// Following a path holds the registration that stands for it and leaves every other registration
/// as it was.
pub proof fn lemma_followed_exact(
    fs: FsModel,
    path: PathModel,
    id: WatcherRegistrationId,
    other: PathModel,
)
    ensures
        ({
            let after = fs.followed(path, id);
            &&& after.followed_registrations.contains_key(path)
            &&& after.followed_registrations[path] == id
            &&& other != path ==> (after.followed_registrations.contains_key(other)
                <==> fs.followed_registrations.contains_key(other))
            &&& other != path && fs.followed_registrations.contains_key(other)
                ==> after.followed_registrations[other] == fs.followed_registrations[other]
            &&& after.registrations == fs.registrations
        }),
{
}

/// Forgetting a path forgets both of its registrations and leaves those of every other path as they
/// were.
pub proof fn lemma_forgotten_exact(fs: FsModel, path: PathModel, other: PathModel)
    ensures
        ({
            let after = fs.removed(path);
            &&& !after.registrations.contains_key(path)
            &&& !after.followed_registrations.contains_key(path)
            &&& other != path ==> (after.registrations.contains_key(other)
                <==> fs.registrations.contains_key(other)) && (
            after.followed_registrations.contains_key(other)
                <==> fs.followed_registrations.contains_key(other))
            &&& other != path && fs.registrations.contains_key(other) ==> after.registrations[other]
                == fs.registrations[other]
            &&& other != path && fs.followed_registrations.contains_key(other)
                ==> after.followed_registrations[other] == fs.followed_registrations[other]
        }),
{
}

/// Forgetting a path that was just added or followed, and was not known before, leaves what was
/// there before.
pub proof fn lemma_forgetting_undoes_adding(
    fs: FsModel,
    path: PathModel,
    id: WatcherRegistrationId,
    followed: WatcherRegistrationId,
)
    requires
        !fs.registrations.contains_key(path),
        !fs.followed_registrations.contains_key(path),
    ensures
        fs.added(path, id).removed(path) == fs,
        fs.followed(path, id).removed(path) == fs,
        fs.added(path, id).followed(path, followed).removed(path) == fs,
{
    let (own, other) = (fs.registrations, fs.followed_registrations);
    assert(own.insert(path, id).remove(path) =~= own);
    assert(own.remove(path) =~= own);
    assert(other.insert(path, id).remove(path) =~= other);
    assert(other.insert(path, followed).remove(path) =~= other);
    assert(other.remove(path) =~= other);
}

/// Steps for different paths can be taken in either order, and adding and following do not depend
/// on one another.
pub proof fn lemma_watcher_steps_commute(
    fs: FsModel,
    a: PathModel,
    b: PathModel,
    x: WatcherRegistrationId,
    y: WatcherRegistrationId,
)
    ensures
        fs.added(a, x).followed(b, y) == fs.followed(b, y).added(a, x),
        fs.removed(a).removed(b) == fs.removed(b).removed(a),
        a != b ==> fs.added(a, x).added(b, y) == fs.added(b, y).added(a, x),
        a != b ==> fs.followed(a, x).followed(b, y) == fs.followed(b, y).followed(a, x),
        a != b ==> fs.added(a, x).removed(b) == fs.removed(b).added(a, x),
        a != b ==> fs.followed(a, x).removed(b) == fs.removed(b).followed(a, x),
{
    let (own, other) = (fs.registrations, fs.followed_registrations);
    assert(own.remove(a).remove(b) =~= own.remove(b).remove(a));
    assert(other.remove(a).remove(b) =~= other.remove(b).remove(a));
    if a != b {
        assert(own.insert(a, x).insert(b, y) =~= own.insert(b, y).insert(a, x));
        assert(other.insert(a, x).insert(b, y) =~= other.insert(b, y).insert(a, x));
        assert(own.insert(a, x).remove(b) =~= own.remove(b).insert(a, x));
        assert(other.insert(a, x).remove(b) =~= other.remove(b).insert(a, x));
    }
}

/// What a map of registrations says of a path is the registration that it holds there.
pub proof fn lemma_registration_at_exact(
    registrations: Map<PathModel, WatcherRegistrationId>,
    path: PathModel,
    id: WatcherRegistrationId,
)
    ensures
        registration_at(registrations, path) == Some(id) <==> registrations.contains_key(path)
            && registrations[path] == id,
        registration_at(registrations, path) is None <==> !registrations.contains_key(path),
{
}

/// What has to be taken out for a path: its own registration and then the one that stands for it;
/// nothing if there is neither. The one that stands for it comes twice if the path has none of its
/// own.
pub proof fn lemma_ids_exact(fs: FsModel, path: PathModel)
    ensures
        ({
            let ids = fs.ids_of(path);
            let own = fs.registrations.contains_key(path);
            let followed = fs.followed_registrations.contains_key(path);
            &&& ids.len() == if followed {
                2int
            } else if own {
                1int
            } else {
                0int
            }
            &&& own ==> ids[0] == fs.registrations[path]
            &&& !own && followed ==> ids[0] == fs.followed_registrations[path]
            &&& followed ==> ids[1] == fs.followed_registrations[path]
        }),
{
}

/// Registrations in the order of their paths are one for each path, each at the place of its path
/// among the paths from first to last. The result are the paths.
pub proof fn lemma_path_order_of_ids(
    registrations: Map<PathModel, WatcherRegistrationId>,
    ids: Seq<WatcherRegistrationId>,
) -> (paths: Seq<PathModel>)
    requires
        in_path_order(registrations, ids),
    ensures
        ids.len() == paths.len(),
        forall|i: int|
            0 <= i < ids.len() ==> registrations.contains_key(paths[i]) && #[trigger] ids[i]
                == registrations[paths[i]],
        forall|i: int, j: int|
            0 <= i < j < paths.len() ==> path_less(#[trigger] paths[i], #[trigger] paths[j]),
        forall|path: PathModel| #[trigger]
            registrations.contains_key(path) <==> paths.contains(path),
{
    let paths = choose|paths: Seq<PathModel>|
        {
            &&& #[trigger] keys_increasing(paths)
            &&& paths.to_set() == registrations.dom()
            &&& ids == paths.map_values(|path: PathModel| registrations[path])
        };
    assert forall|path: PathModel| #[trigger]
        registrations.contains_key(path) <==> paths.contains(path) by {
        assert(registrations.dom().contains(path) <==> paths.to_set().contains(path));
    }
    assert forall|i: int| 0 <= i < ids.len() implies registrations.contains_key(paths[i])
        && #[trigger] ids[i] == registrations[paths[i]] by {
        assert(paths.contains(paths[i]));
    }
    paths
}

/// The model of a request has its path, its mode and the model of its reporter.
pub proof fn lemma_request_model(request: WatchRequest)
    ensures
        request@.watch_path == request.watch_path@,
        request@.mode == request.mode,
        request@.reporter is Some <==> request.reporter is Some,
        request.reporter matches Some(reporter) ==> request@.reporter == Some(reporter@),
{
}

} // verus!
