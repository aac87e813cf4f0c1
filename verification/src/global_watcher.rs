//! The registrations of all watchers, and how often each path is registered.
use crate::event::{EventKind, WatchEvent};
use crate::path::{path_below, PathModel, WatchPath};
use crate::path_map::PathMap;
use crate::report::Platform;
use std::collections::HashMap;
use vstd::prelude::*;
use vstd::std_specs::iter::IteratorSpec;

verus! {

broadcast use vstd::std_specs::hash::group_hash_axioms;

/// Names a registration. No two registrations have the same.
#[derive(Debug, Copy, Clone, PartialEq, Eq, Hash, Structural)]
pub struct WatcherRegistrationId(u32);

impl View for WatcherRegistrationId {
    type V = u32;

    closed spec fn view(&self) -> u32 {
        self.0
    }
}

impl Default for WatcherRegistrationId {
    fn default() -> (id: Self)
        ensures
            id@ == 0,
    {
        WatcherRegistrationId(0)
    }
}

impl WatcherRegistrationId {
    /// Names with the same number are the same.
    pub proof fn lemma_same(a: WatcherRegistrationId, b: WatcherRegistrationId)
        requires
            a@ == b@,
        ensures
            a == b,
    {
    }
}

/// A registration: what is to be told of events, and the path that is watched for it.
struct WatcherRegistrationState<C> {
    callback: C,
    path: WatchPath,
}

/// What a registration is.
pub struct RegistrationModel<C> {
    pub callback: C,
    pub path: PathModel,
}

/// What the registry of all watchers holds.
pub struct GlobalModel<C> {
    /// The registrations by number.
    pub watchers: Map<u32, RegistrationModel<C>>,
    /// How many registrations each path has that has any.
    pub path_registrations: Map<PathModel, u32>,
    /// The number that the next registration gets.
    pub last_registration: u32,
}

/// The numbers of the registrations of `path`.
pub open spec fn registrations_of<C>(
    watchers: Map<u32, RegistrationModel<C>>,
    path: PathModel,
) -> Set<u32> {
    watchers.dom().filter(|id: u32| watchers[id].path == path)
}

impl<C> GlobalModel<C> {
    /// The numbers of all registrations lie below the next one, and each path is counted as often
    /// as it is registered.
    pub open spec fn well_formed(self) -> bool {
        &&& forall|id: u32| #[trigger]
            self.watchers.contains_key(id) ==> id < self.last_registration
        &&& forall|path: PathModel| #[trigger]
            self.path_registrations.contains_key(path) <==> registrations_of(
                self.watchers,
                path,
            ).len() > 0
        &&& forall|path: PathModel|
            self.path_registrations.contains_key(path) ==> #[trigger] self.path_registrations[path]
                == registrations_of(self.watchers, path).len()
    }

    /// Nothing is registered.
    pub open spec fn empty() -> Self {
        GlobalModel {
            watchers: Map::empty(),
            path_registrations: Map::empty(),
            last_registration: 0,
        }
    }

    /// `path` lies below a registered path, in a system where a watch includes what is below.
    pub open spec fn covers(self, platform: Platform, path: PathModel) -> bool {
        platform != Platform::Linux && exists|other: PathModel| #[trigger]
            self.path_registrations.contains_key(other) && path_below(path, other)
    }

    /// `path` has to be watched before it is registered.
    pub open spec fn needs_watch(self, platform: Platform, path: PathModel) -> bool {
        !self.covers(platform, path) && !self.path_registrations.contains_key(path)
    }

    /// How often `path` is registered.
    pub open spec fn count(self, path: PathModel) -> int {
        if self.path_registrations.contains_key(path) {
            self.path_registrations[path] as int
        } else {
            0
        }
    }

    /// One more registration, under the next number.
    pub open spec fn registered(self, path: PathModel, callback: C) -> Self {
        GlobalModel {
            watchers: self.watchers.insert(
                self.last_registration,
                RegistrationModel { callback, path },
            ),
            path_registrations: self.path_registrations.insert(path, (self.count(path) + 1) as u32),
            last_registration: (self.last_registration + 1) as u32,
        }
    }

    /// The path that is no longer to be watched once registration `id` is gone: the one that it
    /// was the last to have.
    pub open spec fn unwatched(self, id: u32) -> Option<PathModel> {
        if self.watchers.contains_key(id) && self.count(self.watchers[id].path) == 1 {
            Some(self.watchers[id].path)
        } else {
            None
        }
    }

    /// Without registration `id`.
    pub open spec fn removed(self, id: u32) -> Self {
        if self.watchers.contains_key(id) {
            let path = self.watchers[id].path;
            GlobalModel {
                watchers: self.watchers.remove(id),
                path_registrations: if self.count(path) == 1 {
                    self.path_registrations.remove(path)
                } else {
                    self.path_registrations.insert(path, (self.count(path) - 1) as u32)
                },
                last_registration: self.last_registration,
            }
        } else {
            self
        }
    }
}

proof fn lemma_registrations_finite<C>(
    watchers: Map<u32, RegistrationModel<C>>,
    path: PathModel,
    last: u32,
)
    requires
        forall|id: u32| #[trigger] watchers.contains_key(id) ==> id < last,
    ensures
        registrations_of(watchers, path).finite(),
        registrations_of(watchers, path).len() <= last,
{
    let below = Set::<u32>::range(0, last);
    vstd::set_lib::range_set_properties::<u32>(0, last);
    assert(registrations_of(watchers, path).subset_of(below));
    vstd::set_lib::lemma_len_subset(registrations_of(watchers, path), below);
}

/// A registration keeps the registry well formed, while numbers last.
pub proof fn lemma_registered_well_formed<C>(model: GlobalModel<C>, path: PathModel, callback: C)
    requires
        model.well_formed(),
        model.last_registration < u32::MAX,
    ensures
        model.registered(path, callback).well_formed(),
        model.count(path) < u32::MAX,
{
    let after = model.registered(path, callback);
    let id = model.last_registration;
    lemma_registrations_finite(model.watchers, path, id);
    assert forall|other: PathModel| #[trigger]
        registrations_of(after.watchers, other) == if other == path {
            registrations_of(model.watchers, other).insert(id)
        } else {
            registrations_of(model.watchers, other)
        } by {
        assert(!model.watchers.contains_key(id));
        assert(registrations_of(after.watchers, other) =~= if other == path {
            registrations_of(model.watchers, other).insert(id)
        } else {
            registrations_of(model.watchers, other)
        });
    }
    assert(!registrations_of(model.watchers, path).contains(id));
    assert(registrations_of(after.watchers, path).len() == model.count(path) + 1) by {
        if !model.path_registrations.contains_key(path) {
            assert(registrations_of(model.watchers, path).len() == 0);
        }
    }
    assert forall|other: PathModel| #[trigger]
        after.path_registrations.contains_key(other) <==> registrations_of(
            after.watchers,
            other,
        ).len() > 0 by {
        assert(model.path_registrations.contains_key(other) <==> registrations_of(
            model.watchers,
            other,
        ).len() > 0);
    }
    assert forall|other: PathModel|
        after.path_registrations.contains_key(
            other,
        ) implies #[trigger] after.path_registrations[other] == registrations_of(
        after.watchers,
        other,
    ).len() by {
        if other != path {
            assert(model.path_registrations[other] == registrations_of(
                model.watchers,
                other,
            ).len());
        }
    }
}

/// The path of a registration is counted.
pub proof fn lemma_registration_counted<C>(model: GlobalModel<C>, id: u32)
    requires
        model.well_formed(),
        model.watchers.contains_key(id),
    ensures
        model.path_registrations.contains_key(model.watchers[id].path),
        model.count(model.watchers[id].path) > 0,
{
    let path = model.watchers[id].path;
    lemma_registrations_finite(model.watchers, path, model.last_registration);
    assert(registrations_of(model.watchers, path).contains(id));
    if registrations_of(model.watchers, path).len() == 0 {
        registrations_of(model.watchers, path).lemma_len0_is_empty();
    }
    assert(model.path_registrations.contains_key(path));
}

/// A removal keeps the registry well formed.
pub proof fn lemma_removed_well_formed<C>(model: GlobalModel<C>, id: u32)
    requires
        model.well_formed(),
    ensures
        model.removed(id).well_formed(),
{
    if model.watchers.contains_key(id) {
        let path = model.watchers[id].path;
        let after = model.removed(id);
        lemma_registrations_finite(model.watchers, path, model.last_registration);
        lemma_registration_counted(model, id);
        assert(registrations_of(model.watchers, path).contains(id));
        assert forall|other: PathModel| #[trigger]
            registrations_of(after.watchers, other) == if other == path {
                registrations_of(model.watchers, other).remove(id)
            } else {
                registrations_of(model.watchers, other)
            } by {
            assert(registrations_of(after.watchers, other) =~= if other == path {
                registrations_of(model.watchers, other).remove(id)
            } else {
                registrations_of(model.watchers, other)
            });
        }
        assert(model.path_registrations[path] == registrations_of(model.watchers, path).len());
        assert(registrations_of(after.watchers, path).len() == model.count(path) - 1);
        assert forall|other: PathModel| #[trigger]
            after.path_registrations.contains_key(other) <==> registrations_of(
                after.watchers,
                other,
            ).len() > 0 by {
            assert(model.path_registrations.contains_key(other) <==> registrations_of(
                model.watchers,
                other,
            ).len() > 0);
        }
        assert forall|other: PathModel|
            after.path_registrations.contains_key(
                other,
            ) implies #[trigger] after.path_registrations[other] == registrations_of(
        after.watchers,
        other,
    ).len() by {
            if other != path {
                assert(model.path_registrations[other] == registrations_of(
                    model.watchers,
                    other,
                ).len());
            }
        }
    }
}

/// What has to happen before a registration.
#[derive(Debug, Copy, Clone, PartialEq, Eq, Structural)]
pub enum AddAction {
    /// The path has to be watched.
    Watch,
    /// Nothing: the path is watched already.
    Register,
}

/// The registry of all watchers. What is told of events is up to whoever registers.
pub struct GlobalWatcher<C> {
    platform: Platform,
    watchers: HashMap<u32, WatcherRegistrationState<C>>,
    path_registrations: PathMap<u32>,
    last_registration: WatcherRegistrationId,
}

impl<C> View for GlobalWatcher<C> {
    type V = GlobalModel<C>;

    closed spec fn view(&self) -> GlobalModel<C> {
        GlobalModel {
            watchers: Map::new(
                |id: u32| self.watchers@.contains_key(id),
                |id: u32|
                    RegistrationModel {
                        callback: self.watchers@[id].callback,
                        path: self.watchers@[id].path@,
                    },
            ),
            path_registrations: self.path_registrations@,
            last_registration: self.last_registration@,
        }
    }
}

impl<C> GlobalWatcher<C> {
    /// The system that the registry is for.
    pub closed spec fn system(&self) -> Platform {
        self.platform
    }

    /// What the registry holds is well formed.
    pub closed spec fn well_formed(&self) -> bool {
        self.path_registrations.well_formed() && self@.well_formed()
    }

    /// What a well formed registry holds is well formed.
    pub proof fn lemma_well_formed(&self)
        requires
            self.well_formed(),
        ensures
            self@.well_formed(),
    {
    }

    /// A registry without registrations.
    pub fn new(platform: Platform) -> (global: Self)
        ensures
            global.well_formed(),
            global.system() == platform,
            global@ == GlobalModel::<C>::empty(),
    {
        let global = GlobalWatcher {
            platform,
            watchers: HashMap::new(),
            path_registrations: PathMap::new(),
            last_registration: WatcherRegistrationId::default(),
        };
        proof {
            assert(global@.watchers =~= Map::<u32, RegistrationModel<C>>::empty());
            assert(global@.path_registrations =~= Map::<PathModel, u32>::empty());
            assert forall|path: PathModel| #[trigger]
                registrations_of(global@.watchers, path) =~= Set::<u32>::empty() by {}
        }
        global
    }

    /// Whether no number is left for another registration.
    pub fn is_full(&self) -> (full: bool)
        ensures
            full == (self@.last_registration == u32::MAX),
    {
        self.last_registration.0 == u32::MAX
    }

    /// The first step of a registration: whether `path` has to be watched.
    pub fn add(&self, path: &WatchPath) -> (action: AddAction)
        requires
            self.well_formed(),
        ensures
            action is Watch <==> self@.needs_watch(self.system(), path@),
    {
        let path_already_covered = match self.platform {
            Platform::Linux => false,
            Platform::MacOs | Platform::Windows => self.path_registrations.any_above(path),
        };
        if !path_already_covered && !self.path_registrations.contains_key(path) {
            AddAction::Watch
        } else {
            AddAction::Register
        }
    }

    /// The last step of a registration. `watched` is what watching the path gave, where that was
    /// necessary. If it failed, nothing is registered.
    pub fn finish_add<E>(
        &mut self,
        path: WatchPath,
        callback: C,
        watched: Result<(), E>,
    ) -> (id: Result<WatcherRegistrationId, E>)
        requires
            old(self).well_formed(),
            watched is Ok ==> old(self)@.last_registration < u32::MAX,
        ensures
            final(self).well_formed(),
            final(self).system() == old(self).system(),
            match watched {
                Ok(()) => id matches Ok(id) && id@ == old(self)@.last_registration && final(self)@
                    == old(self)@.registered(path@, callback),
                Err(error) => id == Err::<WatcherRegistrationId, E>(error) && final(self)@ == old(
                    self,
                )@,
            },
    {
        match watched {
            Err(error) => return Err(error),
            Ok(()) => {},
        }
        let ghost before = self@;
        proof {
            lemma_registered_well_formed(before, path@, callback);
        }
        let id = self.last_registration;
        self.last_registration = WatcherRegistrationId(id.0 + 1);
        let count: u32 = match self.path_registrations.get(&path) {
            Some(count) => count,
            None => 0,
        };
        let watched_path = path.clone();
        self.watchers.insert(id.0, WatcherRegistrationState { callback, path });
        self.path_registrations.insert(watched_path, count + 1);
        assert(self@.watchers =~= before.registered(path@, callback).watchers);
        Ok(id)
    }

    /// Takes a registration out. Returns the path that is no longer to be watched, if this was
    /// its last registration.
    pub fn remove(&mut self, id: WatcherRegistrationId) -> (unwatch: Option<WatchPath>)
        requires
            old(self).well_formed(),
        ensures
            final(self).well_formed(),
            final(self).system() == old(self).system(),
            final(self)@ == old(self)@.removed(id@),
            unwatch is Some <==> old(self)@.unwatched(id@) is Some,
            unwatch matches Some(path) ==> old(self)@.unwatched(id@) == Some(path@),
    {
        let ghost before = self@;
        proof {
            lemma_removed_well_formed(before, id@);
            if before.watchers.contains_key(id@) {
                lemma_registration_counted(before, id@);
            }
        }
        let registration_state = match self.watchers.remove(&id.0) {
            Some(state) => state,
            None => {
                assert(self@.watchers =~= before.watchers);
                return None;
            },
        };
        assert(self@.watchers =~= before.watchers.remove(id@));
        let count: u32 = match self.path_registrations.get(&registration_state.path) {
            Some(count) => count,
            None => return None,
        };
        if count == 1 {
            self.path_registrations.remove(&registration_state.path);
            Some(registration_state.path)
        } else {
            self.path_registrations.insert(registration_state.path, count - 1);
            None
        }
    }

    /// What every registration has to be told of an event by, in no particular order.
    pub fn callbacks(&self) -> (callbacks: Vec<&C>)
        requires
            self.well_formed(),
        ensures
            exists|ids: Seq<u32>|
                {
                    &&& #[trigger] ids.no_duplicates()
                    &&& ids.to_set() == self@.watchers.dom()
                    &&& ids.len() == callbacks@.len()
                    &&& forall|i: int|
                        0 <= i < ids.len() ==> *#[trigger] callbacks@[i]
                            == self@.watchers[ids[i]].callback
                },
    {
        let mut callbacks: Vec<&C> = Vec::new();
        let ghost mut ids: Seq<u32> = Seq::empty();
        let entries = self.watchers.iter();
        let ghost pairs = entries.remaining();
        for entry in it: entries
            invariant
                it.seq() == pairs,
                pairs == vstd::std_specs::hash::spec_hash_map_iter(&self.watchers).remaining(),
                callbacks@.len() == it.index(),
                ids.len() == it.index(),
                forall|i: int| 0 <= i < ids.len() ==> #[trigger] ids[i] == *pairs[i].0,
                forall|i: int|
                    0 <= i < ids.len() ==> *#[trigger] callbacks@[i]
                        == self@.watchers[ids[i]].callback,
        {
            callbacks.push(&entry.1.callback);
            proof {
                let k = it.index() as int;
                assert(self.watchers@.contains_key(*pairs[k].0));
                ids = ids.push(*entry.0);
            }
        }
        proof {
            assert forall|i: int, j: int| 0 <= i < j < ids.len() implies ids[i] != ids[j] by {
                assert(self.watchers@[*pairs[i].0] == *pairs[i].1);
                assert(self.watchers@[*pairs[j].0] == *pairs[j].1);
                assert(pairs[i] != pairs[j]);
            }
            assert(ids.no_duplicates());
            assert forall|id: u32| #[trigger]
                self@.watchers.dom().contains(id) == ids.to_set().contains(id) by {
                if self.watchers@.contains_key(id) {
                    assert(pairs.contains((&id, &self.watchers@[id])));
                    let i = choose|i: int|
                        0 <= i < pairs.len() && pairs[i] == (&id, &self.watchers@[id]);
                    assert(ids[i] == id);
                }
                if ids.contains(id) {
                    let i = choose|i: int| 0 <= i < ids.len() && ids[i] == id;
                    assert(self.watchers@.contains_key(*pairs[i].0));
                }
            }
            assert(ids.to_set() =~= self@.watchers.dom());
        }
        callbacks
    }
}

/// Which events reach the registrations: all that were received but accesses.
pub fn handle_event<E>(event: Result<WatchEvent, E>) -> (delivered: Option<WatchEvent>)
    ensures
        delivered == match event {
            Ok(event) => if event.kind == EventKind::Access {
                None
            } else {
                Some(event)
            },
            Err(_) => None,
        },
{
    match event {
        Ok(event) => match event.kind {
            EventKind::Access => None,
            _ => Some(event),
        },
        Err(_) => None,
    }
}

} // verus!
