//! What becomes of events on their way from the system to whoever fetches them.
use crate::event::{
    event_less, event_models, is_rescan, kind_rank, reported_kind, EventKind, EventModel,
    PathEvent, PathEventKind, WatchEvent, WatchEventModel,
};
use crate::path::{
    lemma_path_irreflexive, lemma_path_total, lemma_path_transitive, path_below, path_joined,
    path_less, path_starts_with, path_verbatim, PathModel,
};
use crate::path_laws::{
    lemma_below_exact, lemma_starts_with_exact, lemma_translation_exists, lemma_translation_joins,
    lemma_translation_keeps_tail,
};
use crate::pending::{
    first_at_path, is_merged, is_pending_after, least_at_path, lemma_increasing_unique,
    path_listed, paths_increasing, paths_sorted,
};
use crate::report::{
    path_reports, reported_event, reported_events, reported_path, root_rescan, watch_mode,
    EventReporter, Platform, RecursiveMode, ReporterModel,
};
use crate::rescan::{
    coalesced_new, coalesced_pending, covered_rescan, lemma_filter_members,
    lemma_no_rescan_no_change, new_event_stays, pending_event_stays, replaced_by, rescan_above,
    rescan_due,
};
use vstd::prelude::*;

verus! {

/// The models of a list of events have the path and the kind of each event, in the order of the
/// list.
pub proof fn lemma_event_models(events: Seq<PathEvent>)
    ensures
        event_models(events).len() == events.len(),
        forall|i: int|
            0 <= i < events.len() ==> (#[trigger] event_models(events)[i]).path == events[i].path@
                && event_models(events)[i].kind == events[i].kind,
{
}

/// The model of a delivered event has its kind, its paths in their order, and its mark.
pub proof fn lemma_watch_event_model(event: WatchEvent)
    ensures
        event@.kind == event.kind,
        event@.need_rescan == event.need_rescan,
        event@.paths.len() == event.paths@.len(),
        forall|i: int|
            0 <= i < event.paths@.len() ==> #[trigger] event@.paths[i] == event.paths@[i]@,
{
}

/// The model of a reporter has its system and its roots.
pub proof fn lemma_reporter_model(reporter: EventReporter)
    ensures
        reporter@.platform == reporter.platform,
        reporter@.original_root == reporter.original_root@,
        reporter@.canonical_root == reporter.canonical_root@,
{
}

/// A creation is reported as a creation, a modification as a change and a removal as a removal;
/// nothing is said of the rest.
pub proof fn lemma_kinds_reported(kind: EventKind)
    ensures
        reported_kind(kind) == Some(PathEventKind::Created) <==> kind == EventKind::Create,
        reported_kind(kind) == Some(PathEventKind::Changed) <==> kind == EventKind::Modify,
        reported_kind(kind) == Some(PathEventKind::Removed) <==> kind == EventKind::Remove,
        reported_kind(kind) != Some(PathEventKind::Rescan),
{
}

/// At one path the unknown comes first, then removals, creations, changes and rescans. At
/// different paths the paths decide.
pub proof fn lemma_event_order_exact(a: EventModel, b: EventModel)
    ensures
        kind_rank(None) < kind_rank(Some(PathEventKind::Removed)),
        kind_rank(Some(PathEventKind::Removed)) < kind_rank(Some(PathEventKind::Created)),
        kind_rank(Some(PathEventKind::Created)) < kind_rank(Some(PathEventKind::Changed)),
        kind_rank(Some(PathEventKind::Changed)) < kind_rank(Some(PathEventKind::Rescan)),
        a.path != b.path ==> (event_less(a, b) <==> path_less(a.path, b.path)),
        a.path == b.path ==> (event_less(a, b) <==> kind_rank(a.kind) < kind_rank(b.kind)),
        is_rescan(a) <==> a.kind == Some(PathEventKind::Rescan),
{
    lemma_path_irreflexive(a.path);
}

/// Watches include what is below on macOS and Windows, and do not on Linux.
pub proof fn lemma_modes(platform: Platform)
    ensures
        watch_mode(platform) == RecursiveMode::NonRecursive <==> platform == Platform::Linux,
        watch_mode(platform) == RecursiveMode::Recursive <==> platform == Platform::MacOs
            || platform == Platform::Windows,
{
}

/// The places of a list that a filter keeps.
proof fn lemma_filter_places(
    events: Seq<EventModel>,
    stays: spec_fn(EventModel) -> bool,
) -> (places: Seq<int>)
    ensures
        places.len() == events.filter(stays).len(),
        forall|k: int|
            0 <= k < places.len() ==> 0 <= #[trigger] places[k] < events.len()
                && events.filter(stays)[k] == events[places[k]],
        forall|k: int, m: int| 0 <= k < m < places.len() ==> places[k] < places[m],
        forall|j: int|
            0 <= j < events.len() ==> (#[trigger] places.contains(j) <==> stays(events[j])),
    decreases events.len(),
{
    if events.len() == 0 {
        reveal(Seq::filter);
        Seq::empty()
    } else {
        let front = events.drop_last();
        let last = events.last();
        let n = front.len() as int;
        let few = lemma_filter_places(front, stays);
        front.lemma_filter_push(last, stays);
        assert(events =~= front.push(last));
        let places = if stays(last) {
            few.push(n)
        } else {
            few
        };
        assert forall|j: int| 0 <= j < events.len() implies (#[trigger] places.contains(j)
            <==> stays(events[j])) by {
            if j < n {
                assert(few.contains(j) <==> stays(front[j]));
                if few.contains(j) {
                    let k = choose|k: int| 0 <= k < few.len() && few[k] == j;
                    assert(places[k] == j);
                }
                if places.contains(j) {
                    let k = choose|k: int| 0 <= k < places.len() && places[k] == j;
                    assert(few[k] == j);
                }
            } else {
                if stays(last) {
                    assert(places[places.len() - 1] == n);
                }
                if places.contains(j) && !stays(last) {
                    let k = choose|k: int| 0 <= k < places.len() && places[k] == j;
                    assert(few[k] < n);
                }
            }
        }
        assert forall|k: int| 0 <= k < places.len() implies 0 <= #[trigger] places[k]
            < events.len() && events.filter(stays)[k] == events[places[k]] by {
            if k < few.len() {
                assert(places[k] == few[k]);
                assert(front[few[k]] == events[few[k]]);
            }
        }
        assert forall|k: int, m: int| 0 <= k < m < places.len() implies places[k] < places[m] by {
            assert(places[k] == few[k]);
            if m < few.len() {
                assert(places[m] == few[m]);
            }
        }
        places
    }
}

proof fn lemma_below_prefix(path: PathModel, ancestor: PathModel)
    ensures
        path_below(path, ancestor) <==> ancestor.len() < path.len() && ancestor.is_prefix_of(path),
{
    lemma_below_exact(path, ancestor);
    lemma_starts_with_exact(path, ancestor);
    if ancestor.len() < path.len() && ancestor.is_prefix_of(path) {
        assert forall|i: int| 0 <= i < ancestor.len() implies path[i] == ancestor[i] by {
            assert(ancestor[i] == path.subrange(0, ancestor.len() as int)[i]);
        }
    }
    if path_below(path, ancestor) {
        assert(ancestor =~= path.subrange(0, ancestor.len() as int));
    }
}

/// A rescan is covered exactly by a directory whose path its own path continues.
pub proof fn lemma_covered_exact(
    kind: Option<PathEventKind>,
    path: PathModel,
    ancestor: PathModel,
)
    ensures
        covered_rescan(kind, path, ancestor) <==> kind == Some(PathEventKind::Rescan)
            && ancestor.len() < path.len() && ancestor.is_prefix_of(path),
{
    lemma_below_prefix(path, ancestor);
}

proof fn lemma_rescan_above_exact(events: Seq<EventModel>, path: PathModel)
    ensures
        rescan_above(events, path) <==> exists|above: EventModel| #[trigger]
            events.contains(above) && above.kind == Some(PathEventKind::Rescan) && above.path.len()
                < path.len() && above.path.is_prefix_of(path),
{
    if rescan_above(events, path) {
        let i = choose|i: int|
            0 <= i < events.len() && is_rescan(#[trigger] events[i]) && path_below(
                path,
                events[i].path,
            );
        lemma_below_prefix(path, events[i].path);
        assert(events.contains(events[i]));
    }
    if exists|above: EventModel| #[trigger]
        events.contains(above) && above.kind == Some(PathEventKind::Rescan) && above.path.len()
            < path.len() && above.path.is_prefix_of(path) {
        let above = choose|above: EventModel| #[trigger]
            events.contains(above) && above.kind == Some(PathEventKind::Rescan) && above.path.len()
                < path.len() && above.path.is_prefix_of(path);
        lemma_below_prefix(path, above.path);
        let i = choose|i: int| 0 <= i < events.len() && events[i] == above;
        assert(is_rescan(events[i]));
    }
}

/// A path is due for a rescan exactly if it continues, or is, the path of a listed rescan.
pub proof fn lemma_due_exact(events: Seq<EventModel>, path: PathModel)
    ensures
        rescan_due(events, path) <==> exists|rescan: EventModel| #[trigger]
            events.contains(rescan) && rescan.kind == Some(PathEventKind::Rescan)
                && rescan.path.is_prefix_of(path),
{
    if rescan_due(events, path) {
        let i = choose|i: int|
            0 <= i < events.len() && is_rescan(#[trigger] events[i]) && path_starts_with(
                path,
                events[i].path,
            );
        lemma_starts_with_exact(path, events[i].path);
        assert(events[i].path =~= path.subrange(0, events[i].path.len() as int));
        assert(events.contains(events[i]));
    }
    if exists|rescan: EventModel| #[trigger]
        events.contains(rescan) && rescan.kind == Some(PathEventKind::Rescan)
            && rescan.path.is_prefix_of(path) {
        let rescan = choose|rescan: EventModel| #[trigger]
            events.contains(rescan) && rescan.kind == Some(PathEventKind::Rescan)
                && rescan.path.is_prefix_of(path);
        let i = choose|i: int| 0 <= i < events.len() && events[i] == rescan;
        assert(is_rescan(events[i]));
        assert(path_starts_with(path, rescan.path));
    }
}

/// Of the new events those stay, each as it is and in their order, that ask for no rescan, or for
/// one of a path that no other new or pending rescan has a beginning of. The result are the
/// places of those that stay.
pub proof fn lemma_coalesced_new_exact(
    pending: Seq<EventModel>,
    new_events: Seq<EventModel>,
) -> (places: Seq<int>)
    ensures
        places.len() == coalesced_new(pending, new_events).len(),
        forall|k: int|
            0 <= k < places.len() ==> 0 <= #[trigger] places[k] < new_events.len()
                && coalesced_new(pending, new_events)[k] == new_events[places[k]],
        forall|k: int, m: int| 0 <= k < m < places.len() ==> places[k] < places[m],
        forall|j: int|
            0 <= j < new_events.len() ==> (#[trigger] places.contains(j) <==> {
                ||| new_events[j].kind != Some(PathEventKind::Rescan)
                ||| !exists|above: EventModel| #[trigger]
                    (pending + new_events).contains(above) && above.kind == Some(
                        PathEventKind::Rescan,
                    ) && above.path.len() < new_events[j].path.len() && above.path.is_prefix_of(
                        new_events[j].path,
                    )
            }),
{
    let stays = |event: EventModel| new_event_stays(pending, new_events, event);
    let places = lemma_filter_places(new_events, stays);
    let all = pending + new_events;
    assert forall|event: EventModel| #[trigger] all.contains(event) <==> pending.contains(event)
        || new_events.contains(event) by {
        if pending.contains(event) {
            let i = choose|i: int| 0 <= i < pending.len() && pending[i] == event;
            assert(all[i] == event);
        }
        if new_events.contains(event) {
            let i = choose|i: int| 0 <= i < new_events.len() && new_events[i] == event;
            assert(all[pending.len() + i] == event);
        }
        if all.contains(event) {
            let i = choose|i: int| 0 <= i < all.len() && all[i] == event;
            if i < pending.len() {
                assert(pending[i] == event);
            } else {
                assert(new_events[i - pending.len()] == event);
            }
        }
    }
    assert forall|j: int| 0 <= j < new_events.len() implies (#[trigger] places.contains(j) <==> {
        ||| new_events[j].kind != Some(PathEventKind::Rescan)
        ||| !exists|above: EventModel| #[trigger]
            all.contains(above) && above.kind == Some(PathEventKind::Rescan) && above.path.len()
                < new_events[j].path.len() && above.path.is_prefix_of(new_events[j].path)
    }) by {
        let path = new_events[j].path;
        lemma_rescan_above_exact(pending, path);
        lemma_rescan_above_exact(new_events, path);
        assert(places.contains(j) <==> stays(new_events[j]));
        if rescan_above(pending, path) {
            let above = choose|above: EventModel| #[trigger]
                pending.contains(above) && above.kind == Some(PathEventKind::Rescan)
                    && above.path.len() < path.len() && above.path.is_prefix_of(path);
            assert(all.contains(above));
        }
        if rescan_above(new_events, path) {
            let above = choose|above: EventModel| #[trigger]
                new_events.contains(above) && above.kind == Some(PathEventKind::Rescan)
                    && above.path.len() < path.len() && above.path.is_prefix_of(path);
            assert(all.contains(above));
        }
        if exists|above: EventModel| #[trigger]
            all.contains(above) && above.kind == Some(PathEventKind::Rescan) && above.path.len()
                < path.len() && above.path.is_prefix_of(path) {
            let above = choose|above: EventModel| #[trigger]
                all.contains(above) && above.kind == Some(PathEventKind::Rescan)
                    && above.path.len() < path.len() && above.path.is_prefix_of(path);
            assert(pending.contains(above) || new_events.contains(above));
        }
    }
    places
}

/// Of the pending events those stay, each as it is and in their order, at whose path no new rescan
/// that stays is; and if they ask for a rescan themselves, no such rescan's path is a beginning of
/// theirs. The result are the places of those that stay.
pub proof fn lemma_coalesced_pending_exact(
    pending: Seq<EventModel>,
    new_events: Seq<EventModel>,
) -> (places: Seq<int>)
    ensures
        places.len() == coalesced_pending(pending, new_events).len(),
        forall|k: int|
            0 <= k < places.len() ==> 0 <= #[trigger] places[k] < pending.len()
                && coalesced_pending(pending, new_events)[k] == pending[places[k]],
        forall|k: int, m: int| 0 <= k < m < places.len() ==> places[k] < places[m],
        forall|j: int|
            0 <= j < pending.len() ==> (#[trigger] places.contains(j) <==> !exists|
                rescan: EventModel,
            | #[trigger]
                coalesced_new(pending, new_events).contains(rescan) && rescan.kind == Some(
                    PathEventKind::Rescan,
                ) && (rescan.path == pending[j].path || (pending[j].kind == Some(
                    PathEventKind::Rescan,
                ) && rescan.path.is_prefix_of(pending[j].path)))),
{
    let stays = |event: EventModel| pending_event_stays(pending, new_events, event);
    let news = coalesced_new(pending, new_events);
    lemma_filter_members(
        new_events,
        |event: EventModel| new_event_stays(pending, new_events, event),
    );
    let places = lemma_filter_places(pending, stays);
    assert forall|j: int| 0 <= j < pending.len() implies (#[trigger] places.contains(j)
        <==> !exists|rescan: EventModel| #[trigger]
        news.contains(rescan) && rescan.kind == Some(PathEventKind::Rescan) && (rescan.path
            == pending[j].path || (pending[j].kind == Some(PathEventKind::Rescan)
            && rescan.path.is_prefix_of(pending[j].path)))) by {
        let event = pending[j];
        assert(places.contains(j) <==> stays(event));
        if !stays(event) {
            let i = choose|i: int| #[trigger] replaced_by(pending, new_events, event, i);
            assert(new_events.contains(new_events[i]));
            assert(news.contains(new_events[i]));
            lemma_below_prefix(event.path, new_events[i].path);
        }
        if exists|rescan: EventModel| #[trigger]
            news.contains(rescan) && rescan.kind == Some(PathEventKind::Rescan) && (rescan.path
                == event.path || (event.kind == Some(PathEventKind::Rescan)
                && rescan.path.is_prefix_of(event.path))) {
            let rescan = choose|rescan: EventModel| #[trigger]
                news.contains(rescan) && rescan.kind == Some(PathEventKind::Rescan) && (rescan.path
                    == event.path || (event.kind == Some(PathEventKind::Rescan)
                    && rescan.path.is_prefix_of(event.path)));
            assert(new_events.contains(rescan));
            let i = choose|i: int| 0 <= i < new_events.len() && new_events[i] == rescan;
            lemma_below_prefix(event.path, rescan.path);
            if rescan.path != event.path && rescan.path.len() == event.path.len() {
                assert(rescan.path =~= event.path);
            }
            assert(replaced_by(pending, new_events, event, i));
        }
    }
    places
}

/// Nothing is made up: what is pending once new events have come in was pending before or is one of
/// them, with its own path and kind.
pub proof fn lemma_pending_comes_from_events(
    pending: Seq<EventModel>,
    new_events: Seq<EventModel>,
    after: Seq<EventModel>,
    event: EventModel,
)
    requires
        is_pending_after(pending, new_events, after),
        after.contains(event),
    ensures
        pending.contains(event) || new_events.contains(event),
{
    lemma_filter_members(pending, |e: EventModel| pending_event_stays(pending, new_events, e));
    lemma_filter_members(new_events, |e: EventModel| new_event_stays(pending, new_events, e));
}

/// What is pending once new events have come in: what coalescing leaves of the pending events, and
/// at each path where it leaves none, the new event that comes first there.
pub proof fn lemma_pending_after_exact(
    pending: Seq<EventModel>,
    new_events: Seq<EventModel>,
    after: Seq<EventModel>,
    event: EventModel,
)
    requires
        is_pending_after(pending, new_events, after),
    ensures
        ({
            let kept = coalesced_pending(pending, new_events);
            let news = coalesced_new(pending, new_events);
            after.contains(event) <==> kept.contains(event) || (news.contains(event) && (forall|
                other: EventModel,
            | #[trigger]
                kept.contains(other) ==> other.path != event.path) && (forall|other: EventModel|
             #[trigger]
                news.contains(other) && other.path == event.path ==> other == event || kind_rank(
                    event.kind,
                ) < kind_rank(other.kind)))
        }),
        forall|i: int, j: int|
            0 <= i < j < after.len() ==> path_less(
                #[trigger] after[i].path,
                #[trigger] after[j].path,
            ),
        forall|i: int, j: int|
            0 <= i < after.len() && 0 <= j < after.len() && (#[trigger] after[i]).path == (
            #[trigger] after[j]).path ==> i == j,
{
    let kept = coalesced_pending(pending, new_events);
    let news = coalesced_new(pending, new_events);
    assert forall|i: int, j: int|
        0 <= i < after.len() && 0 <= j < after.len() && (#[trigger] after[i]).path == (
        #[trigger] after[j]).path implies i == j by {
        lemma_path_irreflexive(after[i].path);
        if i < j {
            assert(path_less(after[i].path, after[j].path));
        } else if j < i {
            assert(path_less(after[j].path, after[i].path));
        }
    }
    lemma_path_irreflexive(event.path);
    assert(path_listed(kept, event.path) <==> exists|other: EventModel| #[trigger]
        kept.contains(other) && other.path == event.path) by {
        if path_listed(kept, event.path) {
            let i = choose|i: int| 0 <= i < kept.len() && (#[trigger] kept[i]).path == event.path;
            assert(kept.contains(kept[i]));
        }
        if exists|other: EventModel| #[trigger]
            kept.contains(other) && other.path == event.path {
            let other = choose|other: EventModel| #[trigger]
                kept.contains(other) && other.path == event.path;
            let i = choose|i: int| 0 <= i < kept.len() && kept[i] == other;
            assert(kept[i].path == event.path);
        }
    }
    if least_at_path(news, event) {
        assert forall|other: EventModel| #[trigger]
            news.contains(other) && other.path == event.path implies other == event || kind_rank(
            event.kind,
        ) < kind_rank(other.kind) by {
            assert(!event_less(other, event));
            assert(kind_rank(event.kind) == kind_rank(other.kind) ==> event.kind == other.kind);
        }
    }
}

/// Where no new rescan comes in, everything pending stays as it is, and each new path gets the
/// first of its new events.
pub proof fn lemma_plain_events_pending(
    pending: Seq<EventModel>,
    new_events: Seq<EventModel>,
    after: Seq<EventModel>,
    event: EventModel,
)
    requires
        is_pending_after(pending, new_events, after),
        forall|i: int|
            0 <= i < new_events.len() ==> (#[trigger] new_events[i]).kind != Some(
                PathEventKind::Rescan,
            ),
    ensures
        after.contains(event) <==> pending.contains(event) || (new_events.contains(event)
            && (forall|other: EventModel| #[trigger]
            pending.contains(other) ==> other.path != event.path) && (forall|other: EventModel|
         #[trigger]
            new_events.contains(other) && other.path == event.path ==> other == event || kind_rank(
                event.kind,
            ) < kind_rank(other.kind))),
{
    assert forall|i: int| 0 <= i < new_events.len() implies !is_rescan(
        #[trigger] new_events[i],
    ) by {}
    lemma_no_rescan_no_change(pending, new_events);
    lemma_pending_after_exact(pending, new_events, after, event);
}

/// With nothing pending and one event coming in, exactly that event is pending.
pub proof fn lemma_single_event_pending(event: EventModel, after: Seq<EventModel>)
    requires
        is_pending_after(Seq::empty(), seq![event], after),
    ensures
        after == seq![event],
{
    let (none, one) = (Seq::<EventModel>::empty(), seq![event]);
    let kept = coalesced_pending(none, one);
    let news = coalesced_new(none, one);
    lemma_filter_members(none, |e: EventModel| pending_event_stays(none, one, e));
    lemma_filter_members(one, |e: EventModel| new_event_stays(none, one, e));
    assert(one[0] == event);
    assert(one.contains(event));
    assert(new_event_stays(none, one, event)) by {
        lemma_rescan_above_exact(none, event.path);
        lemma_rescan_above_exact(one, event.path);
        assert forall|above: EventModel| #[trigger] one.contains(above) implies above == event by {}
    }
    assert forall|e: EventModel| #[trigger] after.contains(e) <==> one.contains(e) by {
        lemma_pending_after_exact(none, one, after, e);
        if after.contains(e) {
            lemma_pending_comes_from_events(none, one, after, e);
        }
        if e == event {
            assert(news.contains(e));
            assert forall|other: EventModel| #[trigger] news.contains(other) implies other == e by {
                assert(one.contains(other));
            }
        }
    }
    assert(paths_increasing(one));
    lemma_increasing_unique(after, one);
}

/// With nothing pending, events at different paths that ask for no rescan are all pending, and
/// nothing else.
pub proof fn lemma_distinct_events_pending(
    new_events: Seq<EventModel>,
    after: Seq<EventModel>,
    event: EventModel,
)
    requires
        is_pending_after(Seq::empty(), new_events, after),
        forall|i: int|
            0 <= i < new_events.len() ==> (#[trigger] new_events[i]).kind != Some(
                PathEventKind::Rescan,
            ),
        forall|i: int, j: int|
            0 <= i < j < new_events.len() ==> (#[trigger] new_events[i]).path != (
            #[trigger] new_events[j]).path,
    ensures
        after.contains(event) <==> new_events.contains(event),
{
    lemma_plain_events_pending(Seq::empty(), new_events, after, event);
    if new_events.contains(event) {
        let i = choose|i: int| 0 <= i < new_events.len() && new_events[i] == event;
        assert forall|other: EventModel| #[trigger]
            new_events.contains(other) && other.path == event.path implies other == event by {
            let j = choose|j: int| 0 <= j < new_events.len() && new_events[j] == other;
            if i < j {
                assert(new_events[i].path != new_events[j].path);
            } else if j < i {
                assert(new_events[j].path != new_events[i].path);
            }
        }
    }
}

/// Paths that increase each come before all that follow; paths that are sorted may repeat.
pub proof fn lemma_sorted_exact(events: Seq<EventModel>)
    ensures
        paths_increasing(events) <==> forall|i: int, j: int|
            0 <= i < j < events.len() ==> path_less(
                #[trigger] events[i].path,
                #[trigger] events[j].path,
            ),
        paths_sorted(events) <==> forall|i: int, j: int|
            0 <= i < j < events.len() ==> #[trigger] events[i].path == #[trigger] events[j].path
                || path_less(events[i].path, events[j].path),
{
    assert forall|a: PathModel, b: PathModel| #[trigger] path_less(a, b) implies !path_less(
        b,
        a,
    ) by {
        lemma_path_irreflexive(a);
        if path_less(b, a) {
            lemma_path_transitive(a, b, a);
        }
    }
    if paths_sorted(events) {
        assert forall|i: int, j: int|
            0 <= i < j < events.len() implies #[trigger] events[i].path == #[trigger] events[j].path
            || path_less(events[i].path, events[j].path) by {
            lemma_path_total(events[i].path, events[j].path);
        }
    }
    if forall|i: int, j: int|
        0 <= i < j < events.len() ==> #[trigger] events[i].path == #[trigger] events[j].path
            || path_less(events[i].path, events[j].path) {
        assert forall|i: int, j: int| 0 <= i < j < events.len() implies !path_less(
            #[trigger] events[j].path,
            #[trigger] events[i].path,
        ) by {
            lemma_path_irreflexive(events[i].path);
        }
    }
}

/// Merging keeps what is listed, and adds at each path that is not listed the first new event
/// there, unchanged; the result is in the order of the paths, each once.
pub proof fn lemma_merge_exact(
    listed: Seq<EventModel>,
    new_events: Seq<EventModel>,
    merged: Seq<EventModel>,
    event: EventModel,
)
    requires
        is_merged(listed, new_events, merged),
    ensures
        merged.contains(event) <==> listed.contains(event) || exists|i: int|
            0 <= i < new_events.len() && #[trigger] new_events[i] == event && (forall|j: int|
                0 <= j < i ==> (#[trigger] new_events[j]).path != event.path) && (forall|k: int|
                0 <= k < listed.len() ==> (#[trigger] listed[k]).path != event.path),
        forall|i: int, j: int|
            0 <= i < j < merged.len() ==> path_less(
                #[trigger] merged[i].path,
                #[trigger] merged[j].path,
            ),
{
    if first_at_path(new_events, event) && !path_listed(listed, event.path) {
        let i = choose|i: int|
            0 <= i < new_events.len() && #[trigger] new_events[i] == event && !path_listed(
                new_events.take(i),
                event.path,
            );
        assert forall|j: int| 0 <= j < i implies (#[trigger] new_events[j]).path != event.path by {
            assert(new_events.take(i)[j] == new_events[j]);
        }
        assert(new_events[i] == event);
    }
    if exists|i: int|
        0 <= i < new_events.len() && #[trigger] new_events[i] == event && (forall|j: int|
            0 <= j < i ==> (#[trigger] new_events[j]).path != event.path) && (forall|k: int|
            0 <= k < listed.len() ==> (#[trigger] listed[k]).path != event.path) {
        let i = choose|i: int|
            0 <= i < new_events.len() && #[trigger] new_events[i] == event && (forall|j: int|
                0 <= j < i ==> (#[trigger] new_events[j]).path != event.path) && (forall|k: int|
                0 <= k < listed.len() ==> (#[trigger] listed[k]).path != event.path);
        if path_listed(new_events.take(i), event.path) {
            let j = choose|j: int|
                0 <= j < new_events.take(i).len() && (#[trigger] new_events.take(i)[j]).path
                    == event.path;
            assert(new_events[j].path == event.path);
        }
        assert(first_at_path(new_events, event));
    }
}

/// Where a watch includes what is below, every path at or below the root is reported, as it is, and
/// no other.
pub proof fn lemma_recursive_reports_exact(
    reporter: ReporterModel,
    path: PathModel,
    tail: PathModel,
)
    requires
        reporter.platform != Platform::Linux,
    ensures
        reported_path(reporter, path) == if reporter.canonical_root.is_prefix_of(path) {
            Some(path)
        } else {
            None
        },
        reported_path(reporter, reporter.canonical_root + tail) == Some(
            reporter.canonical_root + tail,
        ),
{
    let below = reporter.canonical_root + tail;
    lemma_starts_with_exact(below, reporter.canonical_root);
    assert(path_starts_with(path, reporter.canonical_root)
        <==> reporter.canonical_root.is_prefix_of(path));
}

/// Where watches go by canonical paths, exactly the paths at or below the canonical root are
/// reported: as what lies below it, joined to the root that was asked for. What starts with a
/// name or `..` there is reported at the very same components.
pub proof fn lemma_canonical_reports_exact(
    reporter: ReporterModel,
    path: PathModel,
    tail: PathModel,
)
    requires
        reporter.platform == Platform::Linux,
    ensures
        reported_path(reporter, path) is Some <==> reporter.canonical_root.is_prefix_of(path),
        !path_verbatim(reporter.original_root) && (tail.len() > 0 ==> tail[0] is Normal
            || tail[0] is ParentDir) ==> reported_path(reporter, reporter.canonical_root + tail)
            == Some(reporter.original_root + tail),
        reported_path(reporter, reporter.canonical_root + tail) == Some(
            path_joined(reporter.original_root, tail),
        ),
{
    lemma_translation_joins(reporter.canonical_root, reporter.original_root, tail);
    lemma_translation_exists(path, reporter.canonical_root, reporter.original_root);
    lemma_starts_with_exact(path, reporter.canonical_root);
    assert(path_starts_with(path, reporter.canonical_root)
        <==> reporter.canonical_root.is_prefix_of(path));
    if !path_verbatim(reporter.original_root) && (tail.len() > 0 ==> tail[0] is Normal
        || tail[0] is ParentDir) {
        lemma_translation_keeps_tail(reporter.canonical_root, reporter.original_root, tail);
    }
}

/// The places of the paths that are reported.
proof fn lemma_report_places(
    reporter: ReporterModel,
    kind: Option<PathEventKind>,
    paths: Seq<PathModel>,
) -> (places: Seq<int>)
    ensures
        places.len() == path_reports(reporter, kind, paths).len(),
        forall|k: int|
            0 <= k < places.len() ==> 0 <= #[trigger] places[k] < paths.len() && reported_path(
                reporter,
                paths[places[k]],
            ) == Some(path_reports(reporter, kind, paths)[k].path) && path_reports(
                reporter,
                kind,
                paths,
            )[k].kind == kind,
        forall|k: int, m: int| 0 <= k < m < places.len() ==> places[k] < places[m],
        forall|j: int|
            0 <= j < paths.len() ==> (#[trigger] places.contains(j) <==> reported_path(
                reporter,
                paths[j],
            ) is Some),
    decreases paths.len(),
{
    let make = |path: PathModel| reported_event(reporter, kind, path);
    if paths.len() == 0 {
        Seq::empty()
    } else {
        let front = paths.drop_last();
        let last = paths.last();
        let n = front.len() as int;
        let few = lemma_report_places(reporter, kind, front);
        let all = path_reports(reporter, kind, paths);
        let some = path_reports(reporter, kind, front);
        let places = if reported_path(reporter, last) is Some {
            few.push(n)
        } else {
            few
        };
        assert(make(last) is Some <==> reported_path(reporter, last) is Some);
        assert forall|k: int| 0 <= k < places.len() implies 0 <= #[trigger] places[k]
            < paths.len() && reported_path(reporter, paths[places[k]]) == Some(all[k].path)
            && all[k].kind == kind by {
            if k < few.len() {
                assert(places[k] == few[k]);
                assert(all[k] == some[k]);
                assert(front[few[k]] == paths[few[k]]);
            }
        }
        assert forall|k: int, m: int| 0 <= k < m < places.len() implies places[k] < places[m] by {
            assert(places[k] == few[k]);
            if m < few.len() {
                assert(places[m] == few[m]);
            }
        }
        assert forall|j: int| 0 <= j < paths.len() implies (#[trigger] places.contains(j)
            <==> reported_path(reporter, paths[j]) is Some) by {
            if j < n {
                assert(few.contains(j) <==> reported_path(reporter, front[j]) is Some);
                if few.contains(j) {
                    let k = choose|k: int| 0 <= k < few.len() && few[k] == j;
                    assert(places[k] == j);
                }
                if places.contains(j) {
                    let k = choose|k: int| 0 <= k < places.len() && places[k] == j;
                    assert(few[k] == j);
                }
            } else {
                if reported_path(reporter, last) is Some {
                    assert(places[places.len() - 1] == n);
                }
                if places.contains(j) && reported_path(reporter, last) is None {
                    let k = choose|k: int| 0 <= k < places.len() && places[k] == j;
                    assert(few[k] < n);
                }
            }
        }
        places
    }
}

/// What is reported of an event: for each path of the event that has a reported path, in their
/// order, an event there of the kind that happened. Where events were lost, those at the root are
/// left out, and a rescan of the root comes last. The result are the places of the paths that are
/// reported.
pub proof fn lemma_reported_events_exact(
    reporter: ReporterModel,
    event: WatchEventModel,
) -> (places: Seq<int>)
    ensures
        ({
            let reports = reported_events(reporter, event);
            &&& reports.len() == places.len() + if event.need_rescan {
                1int
            } else {
                0int
            }
            &&& event.need_rescan ==> reports[reports.len() - 1] == (EventModel {
                path: reporter.original_root,
                kind: Some(PathEventKind::Rescan),
            })
            &&& forall|k: int|
                0 <= k < places.len() ==> 0 <= #[trigger] places[k] < event.paths.len()
                    && reported_path(reporter, event.paths[places[k]]) == Some(reports[k].path)
                    && reports[k].kind == match event.kind {
                    EventKind::Create => Some(PathEventKind::Created),
                    EventKind::Modify => Some(PathEventKind::Changed),
                    EventKind::Remove => Some(PathEventKind::Removed),
                    _ => None,
                }
        }),
        forall|k: int, m: int| 0 <= k < m < places.len() ==> places[k] < places[m],
        forall|j: int|
            0 <= j < event.paths.len() ==> (#[trigger] places.contains(j) <==> reported_path(
                reporter,
                event.paths[j],
            ) is Some && !(event.need_rescan && reported_path(reporter, event.paths[j]) == Some(
                reporter.original_root,
            ))),
{
    let kind = reported_kind(event.kind);
    let first = lemma_report_places(reporter, kind, event.paths);
    let direct = path_reports(reporter, kind, event.paths);
    if !event.need_rescan {
        first
    } else {
        let other = |report: EventModel| report.path != reporter.original_root;
        let second = lemma_filter_places(direct, other);
        let places = Seq::new(second.len(), |k: int| first[second[k]]);
        let few = direct.filter(other);
        let reports = reported_events(reporter, event);
        assert(reports =~= few.push(root_rescan(reporter)));
        assert forall|k: int| 0 <= k < places.len() implies 0 <= #[trigger] places[k]
            < event.paths.len() && reported_path(reporter, event.paths[places[k]]) == Some(
            reports[k].path,
        ) && reports[k].kind == kind by {
            let m = second[k];
            assert(places[k] == first[m]);
            assert(reports[k] == few[k]);
            assert(few[k] == direct[m]);
        }
        assert forall|k: int, m: int| 0 <= k < m < places.len() implies places[k] < places[m] by {
            assert(second[k] < second[m]);
            assert(places[k] == first[second[k]]);
            assert(places[m] == first[second[m]]);
        }
        assert forall|j: int| 0 <= j < event.paths.len() implies (#[trigger] places.contains(j)
            <==> reported_path(reporter, event.paths[j]) is Some && reported_path(
            reporter,
            event.paths[j],
        ) != Some(reporter.original_root)) by {
            assert(first.contains(j) <==> reported_path(reporter, event.paths[j]) is Some);
            if places.contains(j) {
                let k = choose|k: int| 0 <= k < places.len() && places[k] == j;
                let m = second[k];
                assert(first[m] == j);
                assert(second.contains(m));
                assert(other(direct[m]));
                assert(first.contains(j));
            }
            if first.contains(j) && reported_path(reporter, event.paths[j]) != Some(
                reporter.original_root,
            ) {
                let m = choose|m: int| 0 <= m < first.len() && first[m] == j;
                assert(first[m] == j);
                assert(other(direct[m]));
                assert(second.contains(m));
                let k = choose|k: int| 0 <= k < second.len() && second[k] == m;
                assert(places[k] == j);
            }
        }
        places
    }
}

/// However deep below the watched root something happens, it is reported, at the place and with
/// the kind that it has.
pub proof fn lemma_events_below_root_reported(
    reporter: ReporterModel,
    event: WatchEventModel,
    tail: PathModel,
)
    requires
        event.paths.contains(reporter.canonical_root + tail),
        !event.need_rescan,
    ensures
        reporter.platform != Platform::Linux ==> reported_events(reporter, event).contains(
            EventModel {
                path: reporter.canonical_root + tail,
                kind: match event.kind {
                    EventKind::Create => Some(PathEventKind::Created),
                    EventKind::Modify => Some(PathEventKind::Changed),
                    EventKind::Remove => Some(PathEventKind::Removed),
                    _ => None,
                },
            },
        ),
        reporter.platform == Platform::Linux ==> reported_events(reporter, event).contains(
            EventModel {
                path: path_joined(reporter.original_root, tail),
                kind: match event.kind {
                    EventKind::Create => Some(PathEventKind::Created),
                    EventKind::Modify => Some(PathEventKind::Changed),
                    EventKind::Remove => Some(PathEventKind::Removed),
                    _ => None,
                },
            },
        ),
{
    let path = reporter.canonical_root + tail;
    if reporter.platform == Platform::Linux {
        lemma_canonical_reports_exact(reporter, path, tail);
    } else {
        lemma_recursive_reports_exact(reporter, path, tail);
    }
    let places = lemma_reported_events_exact(reporter, event);
    let reports = reported_events(reporter, event);
    let j = choose|j: int| 0 <= j < event.paths.len() && event.paths[j] == path;
    assert(places.contains(j));
    let k = choose|k: int| 0 <= k < places.len() && places[k] == j;
    assert(places[k] == j);
    assert(reports.contains(reports[k]));
}

} // verus!
