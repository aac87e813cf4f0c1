//! What the answer of each step says of what it was asked.
use crate::event::{EventKind, WatchEvent};
use crate::event_laws::{lemma_modes, lemma_recursive_reports_exact};
use crate::global_watcher::{handle_event, AddAction, GlobalWatcher};
use crate::path::{path_verbatim, translate_canonical_event_path, PathModel, WatchPath};
use crate::path_laws::{lemma_translation_exists, lemma_translation_keeps_tail};
use crate::registry_laws::{lemma_already_watched_exact, lemma_needs_watch_exact};
use crate::report::{EventReporter, Platform, RecursiveMode};
use crate::watcher::{AddStep, FollowStep, FsWatcher, WatchRequest};
use vstd::prelude::*;

verus! {

/// Every event that was received is delivered, unchanged, but for accesses; an error delivers
/// nothing.
pub proof fn lemma_events_delivered<E>(
    event: Result<WatchEvent, E>,
    delivered: Option<WatchEvent>,
)
    requires
        call_ensures(handle_event::<E>, (event,), delivered),
    ensures
        delivered is Some <==> event is Ok && event->Ok_0.kind != EventKind::Access,
        delivered is Some ==> delivered->0 == event->Ok_0,
{
}

/// A path has to be watched before it is registered exactly if no registration has it, nor, where
/// a watch includes what is below, a beginning of it.
pub proof fn lemma_watch_answers<C>(
    global: GlobalWatcher<C>,
    path: WatchPath,
    action: AddAction,
)
    requires
        global.well_formed(),
        call_ensures(GlobalWatcher::<C>::add, (&global, &path), action),
    ensures
        global.system() == Platform::Linux ==> (action == AddAction::Watch <==> forall|id: u32|
         #[trigger]
            global@.watchers.contains_key(id) ==> global@.watchers[id].path != path@),
        global.system() != Platform::Linux ==> (action == AddAction::Watch <==> forall|id: u32|
         #[trigger]
            global@.watchers.contains_key(id) ==> !global@.watchers[id].path.is_prefix_of(path@)),
{
    global.lemma_well_formed();
    lemma_needs_watch_exact(global@, global.system(), path@);
}

/// A watcher that is asked for a path has nothing to do if the path is registered, or, where a
/// watch includes what is below, a beginning of it. Otherwise the path is registered, on Linux by
/// its canonical form.
pub proof fn lemma_add_answers(watcher: FsWatcher, path: WatchPath, step: AddStep)
    requires
        call_ensures(FsWatcher::add, (&watcher, &path), step),
    ensures
        watcher.system() == Platform::Linux ==> step == if watcher@.registrations.contains_key(
            path@,
        ) {
            AddStep::AlreadyWatched
        } else {
            AddStep::Canonicalize
        },
        watcher.system() != Platform::Linux ==> step == AddStep::AlreadyWatched || step
            == AddStep::Register,
        watcher.system() != Platform::Linux ==> (step == AddStep::AlreadyWatched <==> exists|
            ancestor: PathModel,
        | #[trigger]
            watcher@.registrations.contains_key(ancestor) && ancestor.is_prefix_of(path@)),
{
    lemma_already_watched_exact(watcher.system(), watcher@.registrations, path@);
}

/// Only Linux follows a path, and once for each path that it stands for.
pub proof fn lemma_follow_answers(watcher: FsWatcher, path: WatchPath, step: FollowStep)
    requires
        call_ensures(FsWatcher::add_followed_path, (&watcher, &path), step),
    ensures
        step == FollowStep::Add <==> watcher.system() != Platform::Linux,
        step == FollowStep::AlreadyFollowed <==> watcher.system() == Platform::Linux
            && watcher@.followed_registrations.contains_key(path@),
        step == FollowStep::Canonicalize <==> watcher.system() == Platform::Linux
            && !watcher@.followed_registrations.contains_key(path@),
{
}

/// What is asked of the registry for a path: to watch just the path that was found for it, with
/// what is below it but on Linux, and to report its events below the path itself.
pub proof fn lemma_requests(
    watcher: FsWatcher,
    path: WatchPath,
    watch_path: WatchPath,
    canonical_root: WatchPath,
    request: WatchRequest,
)
    requires
        call_ensures(
            FsWatcher::add_request,
            (&watcher, &path, watch_path, canonical_root),
            request,
        ),
    ensures
        request.watch_path@ == watch_path@,
        request.mode == RecursiveMode::Recursive <==> watcher.system() != Platform::Linux,
        request.reporter matches Some(reporter) && reporter.platform == watcher.system()
            && reporter.original_root@ == path@ && reporter.canonical_root@ == canonical_root@,
{
    lemma_modes(watcher.system());
    assert(request@.reporter is Some);
    assert(request.reporter is Some);
    assert(request@.reporter == Some(request.reporter->0@));
}

/// For a path that stands for another one just its own entries are watched, and nothing is
/// reported.
pub proof fn lemma_follow_requests(
    watcher: FsWatcher,
    watch_path: WatchPath,
    request: WatchRequest,
)
    requires
        call_ensures(FsWatcher::follow_request, (&watcher, watch_path), request),
    ensures
        request.watch_path@ == watch_path@,
        request.mode == RecursiveMode::NonRecursive,
        request.reporter is None,
{
    assert(request@.reporter is None);
}

/// Where a watch includes what is below, a reporter reports every path at or below the watched
/// root, however deep, as it is, and no other.
pub proof fn lemma_reported_paths(
    reporter: EventReporter,
    path: WatchPath,
    reported: Option<WatchPath>,
)
    requires
        reporter.platform != Platform::Linux,
        call_ensures(EventReporter::report_path, (&reporter, &path), reported),
    ensures
        reported is Some <==> reporter.canonical_root@.is_prefix_of(path@),
        reported is Some ==> reported->0@ == path@,
{
    lemma_recursive_reports_exact(reporter@, path@, path@);
}

/// What is translated is exactly what is at or below the canonical root, and where it starts with
/// a name or `..` there, it is found at the very same components below the original root.
pub proof fn lemma_translations(
    event_path: WatchPath,
    canonical_root: WatchPath,
    original_root: WatchPath,
    tail: PathModel,
    path: Option<WatchPath>,
)
    requires
        call_ensures(
            translate_canonical_event_path,
            (&event_path, &canonical_root, &original_root),
            path,
        ),
    ensures
        path is Some <==> canonical_root@.is_prefix_of(event_path@),
        event_path@ == canonical_root@ + tail && !path_verbatim(original_root@) && (tail.len() > 0
            ==> tail[0] is Normal || tail[0] is ParentDir) ==> path is Some && path->0@
            == original_root@ + tail,
{
    lemma_translation_exists(event_path@, canonical_root@, original_root@);
    if canonical_root@.is_prefix_of(event_path@) {
        assert forall|i: int| 0 <= i < canonical_root@.len() implies event_path@[i]
            == canonical_root@[i] by {
            assert(canonical_root@[i] == event_path@.subrange(0, canonical_root@.len() as int)[i]);
        }
    }
    if path is Some {
        assert(canonical_root@ =~= event_path@.subrange(0, canonical_root@.len() as int));
    }
    if event_path@ == canonical_root@ + tail && !path_verbatim(original_root@) && (tail.len() > 0
        ==> tail[0] is Normal || tail[0] is ParentDir) {
        lemma_translation_keeps_tail(canonical_root@, original_root@, tail);
    }
}

} // verus!
