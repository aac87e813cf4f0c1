//! The paths that one watcher was asked for.
use crate::global_watcher::WatcherRegistrationId;
use crate::path::{path_below, path_starts_with, PathModel, WatchPath};
use crate::path_map::{keys_increasing, PathMap};
use crate::report::{watch_mode, EventReporter, Platform, RecursiveMode, ReporterModel};
use vstd::prelude::*;

verus! {

/// What one watcher holds: the registrations of the paths that it was asked for, and those of the
/// paths that stand for another one.
pub struct FsModel {
    pub registrations: Map<PathModel, WatcherRegistrationId>,
    pub followed_registrations: Map<PathModel, WatcherRegistrationId>,
}

/// A watcher has nothing to do for `path`. Where a watch is of one directory, the path is
/// registered; where it includes what is below, the path or one above it is.
pub open spec fn already_watched(
    platform: Platform,
    registrations: Map<PathModel, WatcherRegistrationId>,
    path: PathModel,
) -> bool {
    match platform {
        Platform::Linux => registrations.contains_key(path),
        Platform::MacOs | Platform::Windows => exists|ancestor: PathModel| #[trigger]
            registrations.contains_key(ancestor) && path_starts_with(path, ancestor),
    }
}

/// The path to watch for `path`: its canonical form where watches go by that and there is one, so
/// that all names of a directory share one watch.
pub open spec fn watched_path(
    platform: Platform,
    path: PathModel,
    canonical: Option<PathModel>,
) -> PathModel {
    match (platform, canonical) {
        (Platform::Linux, Some(canonical)) => canonical,
        _ => path,
    }
}

/// What a registration at `path` in `registrations` says.
pub open spec fn registration_at(
    registrations: Map<PathModel, WatcherRegistrationId>,
    path: PathModel,
) -> Option<WatcherRegistrationId> {
    if registrations.contains_key(path) {
        Some(registrations[path])
    } else {
        None
    }
}

impl FsModel {
    /// Nothing is registered.
    pub open spec fn empty() -> Self {
        FsModel { registrations: Map::empty(), followed_registrations: Map::empty() }
    }

    /// With a registration of `path`.
    pub open spec fn added(self, path: PathModel, id: WatcherRegistrationId) -> Self {
        FsModel { registrations: self.registrations.insert(path, id), ..self }
    }

    /// With a registration of a path that stands for `path`.
    pub open spec fn followed(self, path: PathModel, id: WatcherRegistrationId) -> Self {
        FsModel { followed_registrations: self.followed_registrations.insert(path, id), ..self }
    }

    /// Without the registrations of `path`.
    pub open spec fn removed(self, path: PathModel) -> Self {
        FsModel {
            registrations: self.registrations.remove(path),
            followed_registrations: self.followed_registrations.remove(path),
        }
    }

    /// The registrations that go with `path`.
    pub open spec fn ids_of(self, path: PathModel) -> Seq<WatcherRegistrationId> {
        match (
            registration_at(self.registrations, path),
            registration_at(self.followed_registrations, path),
        ) {
            (Some(id), Some(followed)) => seq![id, followed],
            (Some(id), None) => seq![id],
            (None, Some(followed)) => seq![followed, followed],
            (None, None) => seq![],
        }
    }
}

/// `ids` are the values of `registrations`, in the order of their paths.
pub open spec fn in_path_order(
    registrations: Map<PathModel, WatcherRegistrationId>,
    ids: Seq<WatcherRegistrationId>,
) -> bool {
    exists|paths: Seq<PathModel>|
        {
            &&& #[trigger] keys_increasing(paths)
            &&& paths.to_set() == registrations.dom()
            &&& ids == paths.map_values(|path: PathModel| registrations[path])
        }
}

/// What has to happen for a path that a watcher is asked for.
#[derive(Debug, Copy, Clone, PartialEq, Eq, Structural)]
pub enum AddStep {
    /// Nothing: it is watched already.
    AlreadyWatched,
    /// Its canonical form has to be found, and then it has to be registered.
    Canonicalize,
    /// It has to be registered.
    Register,
}

/// What has to happen for a path that stands for another one.
#[derive(Debug, Copy, Clone, PartialEq, Eq, Structural)]
pub enum FollowStep {
    /// Nothing: the path that it stands for is followed already.
    AlreadyFollowed,
    /// Its canonical form has to be found, and then it has to be registered without reports.
    Canonicalize,
    /// It has to be added like any other path.
    Add,
}

/// What is to be registered: the path to watch, what the watch includes, and what reports its
/// events, if anything does.
#[derive(Debug, PartialEq, Eq, Hash)]
pub struct WatchRequest {
    pub watch_path: WatchPath,
    pub mode: RecursiveMode,
    pub reporter: Option<EventReporter>,
}

/// What a request is.
pub struct RequestModel {
    pub watch_path: PathModel,
    pub mode: RecursiveMode,
    pub reporter: Option<ReporterModel>,
}

impl View for WatchRequest {
    type V = RequestModel;

    open spec fn view(&self) -> RequestModel {
        RequestModel {
            watch_path: self.watch_path@,
            mode: self.mode,
            reporter: match self.reporter {
                Some(reporter) => Some(reporter@),
                None => None,
            },
        }
    }
}

/// The paths that one watcher was asked for.
pub struct FsWatcher {
    platform: Platform,
    registrations: PathMap<WatcherRegistrationId>,
    followed_registrations: PathMap<WatcherRegistrationId>,
}

impl View for FsWatcher {
    type V = FsModel;

    closed spec fn view(&self) -> FsModel {
        FsModel {
            registrations: self.registrations@,
            followed_registrations: self.followed_registrations@,
        }
    }
}

impl FsWatcher {
    /// The system that the watcher is for.
    pub closed spec fn system(&self) -> Platform {
        self.platform
    }

    /// The maps of the watcher are well formed.
    pub closed spec fn well_formed(&self) -> bool {
        self.registrations.well_formed() && self.followed_registrations.well_formed()
    }

    /// A watcher that was asked for nothing.
    pub fn new(platform: Platform) -> (watcher: Self)
        ensures
            watcher.well_formed(),
            watcher.system() == platform,
            watcher@ == FsModel::empty(),
    {
        FsWatcher {
            platform,
            registrations: PathMap::new(),
            followed_registrations: PathMap::new(),
        }
    }

    /// The first step of adding `path`: what has to happen.
    pub fn add(&self, path: &WatchPath) -> (step: AddStep)
        requires
            self.well_formed(),
        ensures
            step == if already_watched(self.system(), self@.registrations, path@) {
                AddStep::AlreadyWatched
            } else if self.system() == Platform::Linux {
                AddStep::Canonicalize
            } else {
                AddStep::Register
            },
    {
        match self.platform {
            Platform::Linux => if self.registrations.contains_key(path) {
                AddStep::AlreadyWatched
            } else {
                AddStep::Canonicalize
            },
            Platform::MacOs | Platform::Windows => {
                let watched = self.registrations.contains_key(path)
                    || self.registrations.any_above(path);
                proof {
                    let registrations = self@.registrations;
                    assert(path_starts_with(path@, path@)) by {
                        assert(path@ =~= path@.subrange(0, path@.len() as int));
                    }
                    assert forall|ancestor: PathModel| #[trigger]
                        registrations.contains_key(ancestor) && path_starts_with(
                            path@,
                            ancestor,
                        ) implies ancestor == path@ || path_below(path@, ancestor) by {}
                }
                if watched {
                    AddStep::AlreadyWatched
                } else {
                    AddStep::Register
                }
            },
        }
    }

    /// The path to watch for `path`, of which `canonical` is the canonical form, if it was found.
    pub fn watch_path(&self, path: &WatchPath, canonical: Option<WatchPath>) -> (watched: WatchPath)
        ensures
            watched@ == watched_path(
                self.system(),
                path@,
                match canonical {
                    Some(canonical) => Some(canonical@),
                    None => None,
                },
            ),
    {
        match (self.platform, canonical) {
            (Platform::Linux, Some(canonical)) => canonical,
            _ => path.clone(),
        }
    }

    /// What to register for `path`: the path to watch for it, with a reporter of its events.
    /// `canonical_root` is the path to watch, in the form in which the system names it in events.
    pub fn add_request(
        &self,
        path: &WatchPath,
        watch_path: WatchPath,
        canonical_root: WatchPath,
    ) -> (request: WatchRequest)
        ensures
            request@ == (RequestModel {
                watch_path: watch_path@,
                mode: watch_mode(self.system()),
                reporter: Some(
                    ReporterModel {
                        platform: self.system(),
                        original_root: path@,
                        canonical_root: canonical_root@,
                    },
                ),
            }),
    {
        WatchRequest {
            watch_path,
            mode: self.platform.mode(),
            reporter: Some(
                EventReporter {
                    platform: self.platform,
                    original_root: path.clone(),
                    canonical_root,
                },
            ),
        }
    }

    /// The last step of adding `path`: holds its registration, if it was registered.
    pub fn finish_add<E>(
        &mut self,
        path: WatchPath,
        registered: Result<WatcherRegistrationId, E>,
    ) -> (added: Result<(), E>)
        requires
            old(self).well_formed(),
        ensures
            final(self).well_formed(),
            final(self).system() == old(self).system(),
            match registered {
                Ok(id) => added == Ok::<(), E>(()) && final(self)@ == old(self)@.added(path@, id),
                Err(error) => added == Err::<(), E>(error) && final(self)@ == old(self)@,
            },
    {
        match registered {
            Ok(id) => {
                self.registrations.insert(path, id);
                Ok(())
            },
            Err(error) => Err(error),
        }
    }

    /// The first step of adding a path that stands for `removable_path`: what has to happen.
    pub fn add_followed_path(&self, removable_path: &WatchPath) -> (step: FollowStep)
        requires
            self.well_formed(),
        ensures
            step == if self.system() != Platform::Linux {
                FollowStep::Add
            } else if self@.followed_registrations.contains_key(removable_path@) {
                FollowStep::AlreadyFollowed
            } else {
                FollowStep::Canonicalize
            },
    {
        match self.platform {
            Platform::Linux => if self.followed_registrations.contains_key(removable_path) {
                FollowStep::AlreadyFollowed
            } else {
                FollowStep::Canonicalize
            },
            Platform::MacOs | Platform::Windows => FollowStep::Add,
        }
    }

    /// What to register for a path that stands for another one: nothing is reported of it.
    pub fn follow_request(&self, watch_path: WatchPath) -> (request: WatchRequest)
        ensures
            request@ == (RequestModel {
                watch_path: watch_path@,
                mode: RecursiveMode::NonRecursive,
                reporter: None,
            }),
    {
        WatchRequest { watch_path, mode: RecursiveMode::NonRecursive, reporter: None }
    }

    /// The last step of adding a path that stands for `removable_path`: holds its registration,
    /// if it was registered.
    pub fn finish_add_followed_path<E>(
        &mut self,
        removable_path: WatchPath,
        registered: Result<WatcherRegistrationId, E>,
    ) -> (added: Result<(), E>)
        requires
            old(self).well_formed(),
        ensures
            final(self).well_formed(),
            final(self).system() == old(self).system(),
            match registered {
                Ok(id) => added == Ok::<(), E>(()) && final(self)@ == old(self)@.followed(
                    removable_path@,
                    id,
                ),
                Err(error) => added == Err::<(), E>(error) && final(self)@ == old(self)@,
            },
    {
        match registered {
            Ok(id) => {
                self.followed_registrations.insert(removable_path, id);
                Ok(())
            },
            Err(error) => Err(error),
        }
    }

    /// Forgets `path`. Returns the registrations that have to be taken out.
    pub fn remove(&mut self, path: &WatchPath) -> (ids: Vec<WatcherRegistrationId>)
        requires
            old(self).well_formed(),
        ensures
            final(self).well_formed(),
            final(self).system() == old(self).system(),
            final(self)@ == old(self)@.removed(path@),
            ids@ == old(self)@.ids_of(path@),
    {
        let registration = self.registrations.remove(path);
        let followed_registration = self.followed_registrations.remove(path);
        let mut ids: Vec<WatcherRegistrationId> = Vec::new();
        let first = match registration {
            Some(id) => Some(id),
            None => followed_registration,
        };
        if let Some(id) = first {
            ids.push(id);
            if let Some(followed_id) = followed_registration {
                ids.push(followed_id);
            }
        }
        assert(ids@ =~= old(self)@.ids_of(path@));
        ids
    }

    /// Forgets all paths. Returns the registrations that have to be taken out: those of the paths
    /// that were asked for, and then those of the paths that stand for others.
    pub fn drop_registrations(&mut self) -> (ids: Vec<WatcherRegistrationId>)
        requires
            old(self).well_formed(),
        ensures
            final(self).well_formed(),
            final(self).system() == old(self).system(),
            final(self)@ == FsModel::empty(),
            exists|own: Seq<WatcherRegistrationId>, followed: Seq<WatcherRegistrationId>|
                ids@ == own + followed && #[trigger] in_path_order(old(self)@.registrations, own)
                    && #[trigger] in_path_order(old(self)@.followed_registrations, followed),
    {
        let ghost (own_paths, followed_paths) = (
            self.registrations.keys(),
            self.followed_registrations.keys(),
        );
        proof {
            self.registrations.lemma_keys();
            self.followed_registrations.lemma_keys();
        }
        let mut ids = self.registrations.take_values();
        let ghost own = ids@;
        let mut followed_ids = self.followed_registrations.take_values();
        let ghost followed = followed_ids@;
        proof {
            let (a, b) = (old(self)@.registrations, old(self)@.followed_registrations);
            assert(own_paths.to_set() =~= a.dom());
            assert(own =~= own_paths.map_values(|path: PathModel| a[path]));
            assert(in_path_order(a, own));
            assert(followed_paths.to_set() =~= b.dom());
            assert(followed =~= followed_paths.map_values(|path: PathModel| b[path]));
            assert(in_path_order(b, followed));
        }
        ids.append(&mut followed_ids);
        ids
    }
}

/// Lets `f` use the registry of all watchers, if it could be set up; otherwise hands back why not.
pub fn global<G, E, T>(instance: &Result<G, E>, f: impl FnOnce(&G) -> T) -> (result: Result<T, &E>)
    requires
        instance matches Ok(g) ==> call_requires(f, (&g,)),
    ensures
        match instance {
            Ok(g) => result matches Ok(value) && call_ensures(f, (g,), value),
            Err(error) => result == Err::<T, &E>(error),
        },
{
    match instance {
        Ok(g) => Ok(f(g)),
        Err(error) => Err(error),
    }
}

} // verus!
