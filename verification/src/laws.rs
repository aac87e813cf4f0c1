//! What holds of the registry and of the watchers over several steps.
use crate::global_watcher::{
    lemma_registered_well_formed, lemma_registration_counted, lemma_removed_well_formed,
    registrations_of, GlobalModel, WatcherRegistrationId,
};
use crate::path::{path_starts_with, PathModel};
use crate::path_map::keys_increasing;
use crate::report::Platform;
use crate::watcher::{already_watched, in_path_order, watched_path, FsModel};
use vstd::prelude::*;

verus! {

/// A registration gets a number that no other has, and leaves the others alone.
pub proof fn lemma_registration_is_new<C>(
    model: GlobalModel<C>,
    path: PathModel,
    callback: C,
    other: u32,
)
    requires
        model.well_formed(),
        model.last_registration < u32::MAX,
    ensures
        !model.watchers.contains_key(model.last_registration),
        model.registered(path, callback).watchers.contains_key(model.last_registration),
        model.watchers.contains_key(other) ==> model.registered(
            path,
            callback,
        ).watchers.contains_key(other) && model.registered(path, callback).watchers[other]
            == model.watchers[other],
{
}

/// Taking out a registration that was just made leaves what was there before. The path is to be
/// unwatched then exactly if it was not registered before.
pub proof fn lemma_remove_undoes_add<C>(model: GlobalModel<C>, path: PathModel, callback: C)
    requires
        model.well_formed(),
        model.last_registration < u32::MAX,
    ensures
        ({
            let id = model.last_registration;
            let added = model.registered(path, callback);
            &&& added.removed(id).watchers == model.watchers
            &&& added.removed(id).path_registrations == model.path_registrations
            &&& added.unwatched(id) == if model.path_registrations.contains_key(path) {
                None
            } else {
                Some(path)
            }
        }),
{
    let id = model.last_registration;
    let added = model.registered(path, callback);
    lemma_registered_well_formed(model, path, callback);
    assert(added.count(path) == model.count(path) + 1);
    assert(added.removed(id).watchers =~= model.watchers);
    if model.path_registrations.contains_key(path) {
        assert(registrations_of(model.watchers, path).len() > 0);
        assert(model.path_registrations[path] > 0);
    }
    assert(added.removed(id).path_registrations =~= model.path_registrations);
}

/// Where a watch is of one directory, a path is asked to be watched exactly when it gets its
/// first registration, and asked to be unwatched exactly when it loses its last: the paths that
/// are watched are those that are registered.
pub proof fn lemma_watches_follow_registrations<C>(
    model: GlobalModel<C>,
    path: PathModel,
    callback: C,
    id: u32,
)
    requires
        model.well_formed(),
        model.last_registration < u32::MAX,
    ensures
        model.needs_watch(Platform::Linux, path) <==> !model.path_registrations.contains_key(path),
        model.registered(path, callback).path_registrations.dom()
            == model.path_registrations.dom().insert(path),
        match model.unwatched(id) {
            Some(gone) => model.path_registrations.contains_key(gone) && model.removed(
                id,
            ).path_registrations.dom() == model.path_registrations.dom().remove(gone),
            None => model.removed(id).path_registrations.dom() == model.path_registrations.dom(),
        },
{
    assert(model.registered(path, callback).path_registrations.dom()
        =~= model.path_registrations.dom().insert(path));
    if model.watchers.contains_key(id) {
        lemma_registration_counted(model, id);
        let gone = model.watchers[id].path;
        if model.count(gone) == 1 {
            assert(model.removed(id).path_registrations.dom()
                =~= model.path_registrations.dom().remove(gone));
        } else {
            assert(model.removed(id).path_registrations.dom()
                =~= model.path_registrations.dom());
        }
    }
}

/// Two names of one directory share one watch: it is the canonical path that is watched for both,
/// the second registration needs no watch, the watch stays when one of the two goes, and goes
/// with the other.
pub proof fn lemma_aliases_share_watch<C>(
    model: GlobalModel<C>,
    name: PathModel,
    alias: PathModel,
    path: PathModel,
    first: C,
    second: C,
)
    requires
        model.well_formed(),
        model.last_registration < u32::MAX - 1,
        !model.path_registrations.contains_key(path),
    ensures
        watched_path(Platform::Linux, name, Some(path)) == path,
        watched_path(Platform::Linux, alias, Some(path)) == path,
        ({
            let one = model.registered(path, first);
            let both = one.registered(path, second);
            let (a, b) = (model.last_registration, one.last_registration);
            &&& !one.needs_watch(Platform::Linux, path)
            &&& both.unwatched(a) is None
            &&& both.unwatched(b) is None
            &&& both.removed(a).watchers.contains_key(b)
            &&& both.removed(b).watchers.contains_key(a)
            &&& both.removed(a).unwatched(b) == Some(path)
            &&& both.removed(b).unwatched(a) == Some(path)
            &&& both.removed(a).removed(b).path_registrations == model.path_registrations
            &&& both.removed(b).removed(a).path_registrations == model.path_registrations
        }),
{
    let one = model.registered(path, first);
    let both = one.registered(path, second);
    let (a, b) = (model.last_registration, one.last_registration);
    lemma_registered_well_formed(model, path, first);
    lemma_registered_well_formed(one, path, second);
    assert(both.removed(a).removed(b).path_registrations =~= model.path_registrations);
    assert(both.removed(b).removed(a).path_registrations =~= model.path_registrations);
}

/// Taking out what is not there changes nothing and unwatches nothing; so taking out a
/// registration again is harmless.
pub proof fn lemma_remove_again<C>(model: GlobalModel<C>, id: u32)
    requires
        model.well_formed(),
    ensures
        model.removed(id).removed(id) == model.removed(id),
        model.removed(id).unwatched(id) is None,
        !model.removed(id).watchers.contains_key(id),
{
}

/// The order in which two registrations are taken out makes no difference to what is left.
pub proof fn lemma_removals_commute<C>(model: GlobalModel<C>, a: u32, b: u32)
    requires
        model.well_formed(),
    ensures
        model.removed(a).removed(b) == model.removed(b).removed(a),
{
    if a != b && model.watchers.contains_key(a) && model.watchers.contains_key(b) {
        let (x, y) = (model.removed(a).removed(b), model.removed(b).removed(a));
        lemma_removed_well_formed(model, a);
        lemma_removed_well_formed(model, b);
        lemma_registration_counted(model, a);
        lemma_registration_counted(model, b);
        lemma_registration_counted(model.removed(a), b);
        lemma_registration_counted(model.removed(b), a);
        assert(x.watchers =~= y.watchers);
        assert(x.path_registrations =~= y.path_registrations);
    }
}

/// The registry after `ids` were taken out one after the other.
pub open spec fn removed_all<C>(
    model: GlobalModel<C>,
    ids: Seq<WatcherRegistrationId>,
) -> GlobalModel<C>
    decreases ids.len(),
{
    if ids.len() == 0 {
        model
    } else {
        removed_all(model, ids.drop_last()).removed(ids.last()@)
    }
}

/// Taking out several registrations takes out exactly those, and keeps the registry well formed.
pub proof fn lemma_removed_all<C>(model: GlobalModel<C>, ids: Seq<WatcherRegistrationId>)
    requires
        model.well_formed(),
    ensures
        removed_all(model, ids).well_formed(),
        removed_all(model, ids).last_registration == model.last_registration,
        forall|id: u32|
            #![trigger removed_all(model, ids).watchers.contains_key(id)]
            removed_all(model, ids).watchers.contains_key(id) <==> model.watchers.contains_key(id)
                && !exists|i: int| 0 <= i < ids.len() && (#[trigger] ids[i])@ == id,
        forall|id: u32|
            removed_all(model, ids).watchers.contains_key(id) ==> #[trigger] removed_all(
                model,
                ids,
            ).watchers[id] == model.watchers[id],
    decreases ids.len(),
{
    if ids.len() > 0 {
        let front = ids.drop_last();
        lemma_removed_all(model, front);
        lemma_removed_well_formed(removed_all(model, front), ids.last()@);
        assert forall|id: u32|
            #![trigger removed_all(model, ids).watchers.contains_key(id)]
            removed_all(model, ids).watchers.contains_key(id) <==> model.watchers.contains_key(id)
                && !exists|i: int| 0 <= i < ids.len() && (#[trigger] ids[i])@ == id by {
            assert(removed_all(model, front).watchers.contains_key(id)
                <==> model.watchers.contains_key(id) && !exists|i: int|
                0 <= i < front.len() && (#[trigger] front[i])@ == id);
            if exists|i: int| 0 <= i < front.len() && (#[trigger] front[i])@ == id {
                let i = choose|i: int| 0 <= i < front.len() && (#[trigger] front[i])@ == id;
                assert(ids[i]@ == id);
            }
            if exists|i: int| 0 <= i < ids.len() && (#[trigger] ids[i])@ == id {
                let i = choose|i: int| 0 <= i < ids.len() && (#[trigger] ids[i])@ == id;
                if i < front.len() {
                    assert(front[i]@ == id);
                }
            }
            assert(ids[ids.len() - 1] == ids.last());
        }
    }
}

/// `id` is one of the watcher's registrations.
pub open spec fn holds(fs: FsModel, id: WatcherRegistrationId) -> bool {
    (exists|path: PathModel| #[trigger]
        fs.registrations.contains_key(path) && fs.registrations[path] == id) || (exists|
        path: PathModel,
    | #[trigger]
        fs.followed_registrations.contains_key(path) && fs.followed_registrations[path] == id)
}

/// The registrations that a watcher holds are in the registry, each held once.
pub open spec fn linked<C>(fs: FsModel, model: GlobalModel<C>) -> bool {
    &&& forall|path: PathModel| #[trigger]
        fs.registrations.contains_key(path) ==> model.watchers.contains_key(
            fs.registrations[path]@,
        )
    &&& forall|path: PathModel| #[trigger]
        fs.followed_registrations.contains_key(path) ==> model.watchers.contains_key(
            fs.followed_registrations[path]@,
        )
    &&& forall|a: PathModel, b: PathModel| #[trigger]
        fs.registrations.contains_key(a) && #[trigger] fs.registrations.contains_key(b) && a != b
            ==> fs.registrations[a]@ != fs.registrations[b]@
    &&& forall|a: PathModel, b: PathModel| #[trigger]
        fs.followed_registrations.contains_key(a)
            && #[trigger] fs.followed_registrations.contains_key(b) && a != b
            ==> fs.followed_registrations[a]@ != fs.followed_registrations[b]@
    &&& forall|a: PathModel, b: PathModel| #[trigger]
        fs.registrations.contains_key(a) && #[trigger] fs.followed_registrations.contains_key(b)
            ==> fs.registrations[a]@ != fs.followed_registrations[b]@
}

/// A watcher that was asked for nothing holds nothing that the registry lacks.
pub proof fn lemma_linked_new<C>(model: GlobalModel<C>)
    ensures
        linked(FsModel::empty(), model),
{
}

/// After a path was added, the watcher holds what the registry has, and so after a path that
/// stands for another.
pub proof fn lemma_linked_add<C>(
    fs: FsModel,
    model: GlobalModel<C>,
    path: PathModel,
    watched: PathModel,
    callback: C,
    id: WatcherRegistrationId,
)
    requires
        model.well_formed(),
        model.last_registration < u32::MAX,
        linked(fs, model),
        id@ == model.last_registration,
    ensures
        linked(fs.added(path, id), model.registered(watched, callback)),
        linked(fs.followed(path, id), model.registered(watched, callback)),
{
    let after = model.registered(watched, callback);
    assert(!model.watchers.contains_key(id@));
    let added = fs.added(path, id);
    assert forall|a: PathModel, b: PathModel| #[trigger]
        added.registrations.contains_key(a) && #[trigger] added.registrations.contains_key(b) && a
            != b implies added.registrations[a]@ != added.registrations[b]@ by {
        if a != path {
            assert(fs.registrations.contains_key(a));
        }
        if b != path {
            assert(fs.registrations.contains_key(b));
        }
    }
    assert forall|a: PathModel, b: PathModel| #[trigger]
        added.registrations.contains_key(a)
            && #[trigger] added.followed_registrations.contains_key(
            b,
        ) implies added.registrations[a]@ != added.followed_registrations[b]@ by {
        assert(fs.followed_registrations.contains_key(b));
        if a != path {
            assert(fs.registrations.contains_key(a));
        }
    }
    assert forall|a: PathModel| #[trigger]
        added.registrations.contains_key(a) implies after.watchers.contains_key(
        added.registrations[a]@,
    ) by {
        if a != path {
            assert(fs.registrations.contains_key(a));
        }
    }
    let followed = fs.followed(path, id);
    assert forall|a: PathModel, b: PathModel| #[trigger]
        followed.followed_registrations.contains_key(a)
            && #[trigger] followed.followed_registrations.contains_key(b) && a
            != b implies followed.followed_registrations[a]@
        != followed.followed_registrations[b]@ by {
        if a != path {
            assert(fs.followed_registrations.contains_key(a));
        }
        if b != path {
            assert(fs.followed_registrations.contains_key(b));
        }
    }
    assert forall|a: PathModel, b: PathModel| #[trigger]
        followed.registrations.contains_key(a)
            && #[trigger] followed.followed_registrations.contains_key(
            b,
        ) implies followed.registrations[a]@ != followed.followed_registrations[b]@ by {
        assert(fs.registrations.contains_key(a));
        if b != path {
            assert(fs.followed_registrations.contains_key(b));
        }
    }
    assert forall|a: PathModel| #[trigger]
        followed.followed_registrations.contains_key(a) implies after.watchers.contains_key(
        followed.followed_registrations[a]@,
    ) by {
        if a != path {
            assert(fs.followed_registrations.contains_key(a));
        }
    }
}

/// What other watchers do leaves a watcher linked: a registration by another, and the removal of
/// one that the watcher does not hold.
pub proof fn lemma_linked_others<C>(
    fs: FsModel,
    model: GlobalModel<C>,
    path: PathModel,
    callback: C,
    id: WatcherRegistrationId,
)
    requires
        model.well_formed(),
        model.last_registration < u32::MAX,
        linked(fs, model),
    ensures
        linked(fs, model.registered(path, callback)),
        !holds(fs, id) ==> linked(fs, model.removed(id@)),
{
    if !holds(fs, id) {
        assert forall|a: PathModel| #[trigger]
            fs.registrations.contains_key(a) implies model.removed(id@).watchers.contains_key(
            fs.registrations[a]@,
        ) by {
            if fs.registrations[a]@ == id@ {
                WatcherRegistrationId::lemma_same(fs.registrations[a], id);
            }
        }
        assert forall|a: PathModel| #[trigger]
            fs.followed_registrations.contains_key(a) implies model.removed(
            id@,
        ).watchers.contains_key(fs.followed_registrations[a]@) by {
            if fs.followed_registrations[a]@ == id@ {
                WatcherRegistrationId::lemma_same(fs.followed_registrations[a], id);
            }
        }
    }
}

/// After a path was removed, the watcher does not hold its registrations and the registry does not
/// have them; all others are where they were.
pub proof fn lemma_linked_remove<C>(fs: FsModel, model: GlobalModel<C>, path: PathModel)
    requires
        model.well_formed(),
        linked(fs, model),
    ensures
        linked(fs.removed(path), removed_all(model, fs.ids_of(path))),
        fs.registrations.contains_key(path) ==> !removed_all(
            model,
            fs.ids_of(path),
        ).watchers.contains_key(fs.registrations[path]@),
        fs.followed_registrations.contains_key(path) ==> !removed_all(
            model,
            fs.ids_of(path),
        ).watchers.contains_key(fs.followed_registrations[path]@),
{
    let ids = fs.ids_of(path);
    let after = removed_all(model, ids);
    let left = fs.removed(path);
    lemma_removed_all(model, ids);
    if fs.registrations.contains_key(path) {
        assert(ids[0] == fs.registrations[path]);
    }
    if fs.followed_registrations.contains_key(path) {
        assert(ids[1] == fs.followed_registrations[path]);
    }
    assert forall|i: int| 0 <= i < ids.len() implies (fs.registrations.contains_key(path)
        && #[trigger] ids[i] == fs.registrations[path]) || (
    fs.followed_registrations.contains_key(path) && ids[i]
        == fs.followed_registrations[path]) by {}
    assert forall|a: PathModel| #[trigger]
        left.registrations.contains_key(a) implies after.watchers.contains_key(
        left.registrations[a]@,
    ) by {
        assert(fs.registrations.contains_key(a));
        let id = fs.registrations[a]@;
        assert forall|i: int| 0 <= i < ids.len() implies (#[trigger] ids[i])@ != id by {}
    }
    assert forall|a: PathModel| #[trigger]
        left.followed_registrations.contains_key(a) implies after.watchers.contains_key(
        left.followed_registrations[a]@,
    ) by {
        assert(fs.followed_registrations.contains_key(a));
        let id = fs.followed_registrations[a]@;
        assert forall|i: int| 0 <= i < ids.len() implies (#[trigger] ids[i])@ != id by {}
    }
    assert forall|a: PathModel| #[trigger]
        left.registrations.contains_key(a) implies fs.registrations.contains_key(a) by {}
    assert forall|a: PathModel| #[trigger]
        left.followed_registrations.contains_key(a) implies fs.followed_registrations.contains_key(
        a,
    ) by {}
}

/// Removing a path that was just added leaves the watcher and the registry as they were, apart
/// from the number that was used. Where a watch is of one directory, the watched path is to be
/// unwatched then exactly if it had to be watched for this.
pub proof fn lemma_remove_undoes_watcher_add<C>(
    fs: FsModel,
    model: GlobalModel<C>,
    path: PathModel,
    watched: PathModel,
    callback: C,
    id: WatcherRegistrationId,
)
    requires
        model.well_formed(),
        model.last_registration < u32::MAX,
        id@ == model.last_registration,
        !fs.registrations.contains_key(path),
        !fs.followed_registrations.contains_key(path),
    ensures
        ({
            let added = fs.added(path, id);
            let after = removed_all(model.registered(watched, callback), added.ids_of(path));
            &&& added.removed(path) == fs
            &&& model.registered(watched, callback).unwatched(id@) == if model.needs_watch(
                Platform::Linux,
                watched,
            ) {
                Some(watched)
            } else {
                None
            }
            &&& after.watchers == model.watchers
            &&& after.path_registrations == model.path_registrations
        }),
{
    let added = fs.added(path, id);
    let ids = added.ids_of(path);
    assert(added.removed(path).registrations =~= fs.registrations);
    assert(added.removed(path).followed_registrations =~= fs.followed_registrations);
    assert(ids =~= seq![id]);
    lemma_remove_undoes_add(model, watched, callback);
    let registered = model.registered(watched, callback);
    assert(ids.drop_last() =~= seq![]);
    assert(removed_all(registered, ids.drop_last()) == registered);
    assert(removed_all(registered, ids) == registered.removed(id@));
}

/// When a watcher goes, the registry has none of its registrations any more, and keeps those of
/// all others.
pub proof fn lemma_drop_takes_out_all<C>(
    fs: FsModel,
    model: GlobalModel<C>,
    own: Seq<WatcherRegistrationId>,
    followed: Seq<WatcherRegistrationId>,
    id: WatcherRegistrationId,
)
    requires
        model.well_formed(),
        in_path_order(fs.registrations, own),
        in_path_order(fs.followed_registrations, followed),
    ensures
        removed_all(model, own + followed).watchers.contains_key(id@)
            <==> model.watchers.contains_key(id@) && !holds(fs, id),
        removed_all(model, own + followed).watchers.contains_key(id@) ==> removed_all(
            model,
            own + followed,
        ).watchers[id@] == model.watchers[id@],
{
    let ids = own + followed;
    lemma_removed_all(model, ids);
    let p = choose|paths: Seq<PathModel>|
        {
            &&& #[trigger] keys_increasing(paths)
            &&& paths.to_set() == fs.registrations.dom()
            &&& own == paths.map_values(|path: PathModel| fs.registrations[path])
        };
    let q = choose|paths: Seq<PathModel>|
        {
            &&& #[trigger] keys_increasing(paths)
            &&& paths.to_set() == fs.followed_registrations.dom()
            &&& followed == paths.map_values(|path: PathModel| fs.followed_registrations[path])
        };
    if holds(fs, id) {
        if exists|path: PathModel| #[trigger]
            fs.registrations.contains_key(path) && fs.registrations[path] == id {
            let path = choose|path: PathModel| #[trigger]
                fs.registrations.contains_key(path) && fs.registrations[path] == id;
            assert(p.to_set().contains(path));
            let i = choose|i: int| 0 <= i < p.len() && p[i] == path;
            assert(own[i] == id);
            assert(ids[i]@ == id@);
        } else {
            let path = choose|path: PathModel| #[trigger]
                fs.followed_registrations.contains_key(path) && fs.followed_registrations[path]
                    == id;
            assert(q.to_set().contains(path));
            let i = choose|i: int| 0 <= i < q.len() && q[i] == path;
            assert(followed[i] == id);
            assert(ids[own.len() + i]@ == id@);
        }
    }
    if exists|i: int| 0 <= i < ids.len() && (#[trigger] ids[i])@ == id@ {
        let i = choose|i: int| 0 <= i < ids.len() && (#[trigger] ids[i])@ == id@;
        WatcherRegistrationId::lemma_same(ids[i], id);
        if i < own.len() {
            assert(own[i] == id);
            assert(p.contains(p[i]));
            assert(p.to_set().contains(p[i]));
            assert(fs.registrations.contains_key(p[i]));
        } else {
            let j = i - own.len();
            assert(followed[j] == id);
            assert(q.contains(q[j]));
            assert(q.to_set().contains(q[j]));
            assert(fs.followed_registrations.contains_key(q[j]));
        }
    }
}

/// A watcher returns early only for paths that are registered or lie below one that is.
pub proof fn lemma_already_watched_is_registered(
    platform: Platform,
    registrations: Map<PathModel, WatcherRegistrationId>,
    path: PathModel,
)
    requires
        already_watched(platform, registrations, path),
    ensures
        exists|ancestor: PathModel| #[trigger]
            registrations.contains_key(ancestor) && path_starts_with(path, ancestor),
{
    assert(path =~= path.subrange(0, path.len() as int));
}

/// Where a watch includes what is below, a watcher returns early for every path at or below a
/// registered one, whatever else is registered.
pub proof fn lemma_registered_is_already_watched(
    platform: Platform,
    registrations: Map<PathModel, WatcherRegistrationId>,
    path: PathModel,
    ancestor: PathModel,
)
    requires
        platform != Platform::Linux,
        registrations.contains_key(ancestor),
        path_starts_with(path, ancestor),
    ensures
        already_watched(platform, registrations, path),
{
}

/// A path that is registered is always found to be watched.
pub proof fn lemma_own_path_already_watched(
    platform: Platform,
    registrations: Map<PathModel, WatcherRegistrationId>,
    path: PathModel,
)
    requires
        registrations.contains_key(path),
    ensures
        already_watched(platform, registrations, path),
{
    assert(path =~= path.subrange(0, path.len() as int));
}

} // verus!
