//! The events that wait to be fetched: at most one for each path, in the order of the paths.
use crate::event::{event_less, event_models, is_rescan, EventModel, PathEvent};
use crate::path::{
    lemma_path_irreflexive, lemma_path_total, lemma_path_transitive, path_below, path_less,
    path_starts_with, Order, PathModel, WatchPath,
};
use crate::rescan::{
    coalesce_pending_rescans, coalesced_new, coalesced_pending, lemma_filter_members,
    lemma_new_rescans_stand_alone, lemma_no_rescan_no_change, lemma_other_events_kept,
    lemma_rescans_preserved, new_event_stays, pending_event_stays, replaced_by, rescan_above,
    rescan_due, rescan_needed,
};
use vstd::prelude::*;

verus! {

/// The paths increase from event to event, so no path occurs twice.
pub open spec fn paths_increasing(events: Seq<EventModel>) -> bool {
    forall|i: int, j: int|
        0 <= i < j < events.len() ==> path_less(
            #[trigger] events[i].path,
            #[trigger] events[j].path,
        )
}

/// The paths do not decrease from event to event.
pub open spec fn paths_sorted(events: Seq<EventModel>) -> bool {
    forall|i: int, j: int|
        0 <= i < j < events.len() ==> !path_less(
            #[trigger] events[j].path,
            #[trigger] events[i].path,
        )
}

/// No event comes before one that stands in front of it.
pub open spec fn events_sorted(events: Seq<EventModel>) -> bool {
    forall|i: int, j: int|
        0 <= i < j < events.len() ==> !event_less(#[trigger] events[j], #[trigger] events[i])
}

/// There is an event at `path`.
pub open spec fn path_listed(events: Seq<EventModel>, path: PathModel) -> bool {
    exists|i: int| 0 <= i < events.len() && (#[trigger] events[i]).path == path
}

/// `event` is the first in the list at its path.
pub open spec fn first_at_path(events: Seq<EventModel>, event: EventModel) -> bool {
    exists|i: int|
        0 <= i < events.len() && #[trigger] events[i] == event && !path_listed(
            events.take(i),
            event.path,
        )
}

/// `merged` holds what `listed` holds, and at each path that is not listed the first of
/// `new_events`, in the order of the paths.
pub open spec fn is_merged(
    listed: Seq<EventModel>,
    new_events: Seq<EventModel>,
    merged: Seq<EventModel>,
) -> bool {
    &&& paths_increasing(merged)
    &&& forall|event: EventModel| #[trigger]
        merged.contains(event) <==> listed.contains(event) || (first_at_path(new_events, event)
            && !path_listed(listed, event.path))
}

/// Finds `path` among events whose paths increase, from `start` on: whether it is there, and the
/// place where it is or belongs.
fn find_path(events: &Vec<PathEvent>, start: usize, path: &WatchPath) -> (found: (bool, usize))
    requires
        start <= events.len(),
        paths_increasing(event_models(events@)),
    ensures
        start <= found.1 <= events.len(),
        forall|i: int| start <= i < found.1 ==> path_less((#[trigger] events@[i]).path@, path@),
        found.0 ==> found.1 < events.len() && events@[found.1 as int].path@ == path@,
        !found.0 ==> forall|i: int|
            found.1 <= i < events.len() ==> path_less(path@, (#[trigger] events@[i]).path@),
{
    let ghost models = event_models(events@);
    let mut low: usize = start;
    let mut high: usize = events.len();
    while low < high
        invariant
            models == event_models(events@),
            paths_increasing(models),
            start <= low <= high <= events.len(),
            forall|i: int| start <= i < low ==> path_less((#[trigger] events@[i]).path@, path@),
            forall|i: int|
                high <= i < events.len() ==> path_less(path@, (#[trigger] events@[i]).path@),
        decreases high - low,
    {
        let middle = low + (high - low) / 2;
        assert forall|i: int| 0 <= i < events.len() implies #[trigger] events@[i].path@
            == models[i].path by {}
        match events[middle].path.compare(path) {
            Order::Less => {
                assert forall|i: int| start <= i < middle + 1 implies path_less(
                    (#[trigger] events@[i]).path@,
                    path@,
                ) by {
                    if i < middle {
                        lemma_path_transitive(models[i].path, models[middle as int].path, path@);
                    }
                }
                low = middle + 1;
            },
            Order::Equal => {
                assert forall|i: int| start <= i < middle implies path_less(
                    (#[trigger] events@[i]).path@,
                    path@,
                ) by {
                    assert(path_less(models[i].path, models[middle as int].path));
                }
                return (true, middle);
            },
            Order::Greater => {
                assert forall|i: int| middle <= i < events.len() implies path_less(
                    path@,
                    (#[trigger] events@[i]).path@,
                ) by {
                    if i > middle {
                        lemma_path_transitive(path@, models[middle as int].path, models[i].path);
                    }
                }
                high = middle;
            },
        }
    }
    (false, low)
}

/// Where there is an event at a path, there is a first one.
proof fn lemma_first_exists(events: Seq<EventModel>, path: PathModel) -> (first: EventModel)
    requires
        path_listed(events, path),
    ensures
        first.path == path,
        first_at_path(events, first),
    decreases events.len(),
{
    let front = events.drop_last();
    if path_listed(front, path) {
        let first = lemma_first_exists(front, path);
        let i = choose|i: int|
            0 <= i < front.len() && #[trigger] front[i] == first && !path_listed(
                front.take(i),
                first.path,
            );
        assert(events[i] == first);
        assert(events.take(i) =~= front.take(i));
        first
    } else {
        let i = choose|i: int| 0 <= i < events.len() && (#[trigger] events[i]).path == path;
        if i < events.len() - 1 {
            assert(front[i] == events[i]);
        }
        assert(events.take(i) =~= front);
        events[i]
    }
}

/// One more event is the first at its path where none was there before.
proof fn lemma_first_push(events: Seq<EventModel>, last: EventModel, event: EventModel)
    ensures
        first_at_path(events.push(last), event) <==> first_at_path(events, event) || (event == last
            && !path_listed(events, last.path)),
{
    let more = events.push(last);
    assert(more.take(events.len() as int) =~= events);
    if first_at_path(more, event) {
        let i = choose|i: int|
            0 <= i < more.len() && #[trigger] more[i] == event && !path_listed(
                more.take(i),
                event.path,
            );
        if i < events.len() {
            assert(events[i] == event);
            assert(more.take(i) =~= events.take(i));
        }
    }
    if first_at_path(events, event) {
        let i = choose|i: int|
            0 <= i < events.len() && #[trigger] events[i] == event && !path_listed(
                events.take(i),
                event.path,
            );
        assert(more[i] == event);
        assert(more.take(i) =~= events.take(i));
    }
    if event == last && !path_listed(events, last.path) {
        assert(more[events.len() as int] == event);
    }
}

/// The first event at a path stands in the list.
proof fn lemma_first_listed(events: Seq<EventModel>, event: EventModel)
    requires
        first_at_path(events, event),
    ensures
        events.contains(event),
        path_listed(events, event.path),
{
}

/// A path is listed after merging if it was listed or is new.
proof fn lemma_merged_paths(
    listed: Seq<EventModel>,
    new_events: Seq<EventModel>,
    merged: Seq<EventModel>,
    path: PathModel,
)
    requires
        is_merged(listed, new_events, merged),
    ensures
        path_listed(merged, path) <==> path_listed(listed, path) || path_listed(new_events, path),
{
    if path_listed(merged, path) {
        let i = choose|i: int| 0 <= i < merged.len() && (#[trigger] merged[i]).path == path;
        assert(merged.contains(merged[i]));
        if listed.contains(merged[i]) {
            let j = choose|j: int| 0 <= j < listed.len() && listed[j] == merged[i];
            assert(listed[j].path == path);
        } else {
            lemma_first_listed(new_events, merged[i]);
        }
    }
    if path_listed(listed, path) {
        let i = choose|i: int| 0 <= i < listed.len() && (#[trigger] listed[i]).path == path;
        assert(merged.contains(listed[i]));
        let j = choose|j: int| 0 <= j < merged.len() && merged[j] == listed[i];
        assert(merged[j].path == path);
    } else if path_listed(new_events, path) {
        let first = lemma_first_exists(new_events, path);
        assert(merged.contains(first));
        let j = choose|j: int| 0 <= j < merged.len() && merged[j] == first;
        assert(merged[j].path == path);
    }
}

proof fn lemma_merge_step(
    listed: Seq<EventModel>,
    new_events: Seq<EventModel>,
    merged: Seq<EventModel>,
    last: EventModel,
    after: Seq<EventModel>,
)
    requires
        is_merged(listed, new_events, merged),
        paths_increasing(after),
        path_listed(merged, last.path) ==> after == merged,
        !path_listed(merged, last.path) ==> forall|event: EventModel| #[trigger]
            after.contains(event) <==> merged.contains(event) || event == last,
    ensures
        is_merged(listed, new_events.push(last), after),
{
    lemma_merged_paths(listed, new_events, merged, last.path);
    assert forall|event: EventModel| #[trigger] after.contains(event) <==> listed.contains(event)
        || (first_at_path(new_events.push(last), event) && !path_listed(listed, event.path)) by {
        lemma_first_push(new_events, last, event);
        if listed.contains(event) {
            assert(merged.contains(event));
            if event == last {
                let i = choose|i: int| 0 <= i < listed.len() && listed[i] == event;
                assert(listed[i].path == event.path);
            }
        }
        assert(merged.contains(event) <==> listed.contains(event) || (first_at_path(
            new_events,
            event,
        ) && !path_listed(listed, event.path)));
    }
}

/// Adds to `pending`, whose paths increase, the events at paths that it does not hold yet. The
/// new events come in the order of their paths; of several at one path the first is taken.
pub fn extend_sorted(pending: &mut Vec<PathEvent>, new_events: Vec<PathEvent>)
    requires
        paths_increasing(event_models(old(pending)@)),
        paths_sorted(event_models(new_events@)),
    ensures
        is_merged(
            event_models(old(pending)@),
            event_models(new_events@),
            event_models(final(pending)@),
        ),
{
    let ghost listed = event_models(pending@);
    let ghost news = event_models(new_events@);
    let mut start: usize = 0;
    assert(news.take(0) =~= Seq::<EventModel>::empty());
    for event in it: new_events
        invariant
            news == event_models(it.seq()),
            paths_sorted(news),
            start <= pending.len(),
            is_merged(listed, news.take(it.index() as int), event_models(pending@)),
            forall|i: int, j: int|
                0 <= i < start && it.index() <= j < news.len() ==> path_less(
                    (#[trigger] pending@[i]).path@,
                    (#[trigger] news[j]).path,
                ),
    {
        let ghost k = it.index() as int;
        let ghost before = event_models(pending@);
        let ghost old_pending = pending@;
        let (found, place) = find_path(pending, start, &event.path);
        proof {
            assert(news[k] == event@);
            assert(news.take(k + 1) =~= news.take(k).push(event@));
            assert forall|i: int| 0 <= i < place implies path_less(
                (#[trigger] pending@[i]).path@,
                event.path@,
            ) by {
                assert(i < start ==> path_less(pending@[i].path@, news[k].path));
            }
        }
        if !found {
            assert(!path_listed(before, event.path@)) by {
                assert forall|i: int| 0 <= i < before.len() implies (#[trigger] before[i]).path
                    != event.path@ by {
                    lemma_path_irreflexive(event.path@);
                    assert(before[i].path == pending@[i].path@);
                }
            }
            pending.insert(place, event);
            start = place;
            proof {
                let after = event_models(pending@);
                assert(after =~= before.insert(place as int, event@));
                assert(paths_increasing(after)) by {
                    assert forall|i: int, j: int| 0 <= i < j < after.len() implies path_less(
                        #[trigger] after[i].path,
                        #[trigger] after[j].path,
                    ) by {
                        let x = if i < place { i } else { i - 1 };
                        let y = if j < place { j } else { j - 1 };
                        if i == place {
                            assert(after[j].path == old_pending[y].path@);
                        } else if j == place {
                            assert(after[i].path == old_pending[x].path@);
                        } else {
                            assert(after[i] == before[x]);
                            assert(after[j] == before[y]);
                        }
                    }
                }
                assert forall|e: EventModel| #[trigger] after.contains(e) <==> before.contains(e)
                    || e == event@ by {
                    if before.contains(e) {
                        let i = choose|i: int| 0 <= i < before.len() && before[i] == e;
                        assert(after[if i < place { i } else { i + 1 }] == e);
                    }
                    assert(after[place as int] == event@);
                    if after.contains(e) && e != event@ {
                        let i = choose|i: int| 0 <= i < after.len() && after[i] == e;
                        assert(before[if i < place { i } else { i - 1 }] == e);
                    }
                }
                lemma_merge_step(listed, news.take(k), before, event@, after);
                assert forall|i: int, j: int|
                    0 <= i < start && k + 1 <= j < news.len() implies path_less(
                    (#[trigger] pending@[i]).path@,
                    (#[trigger] news[j]).path,
                ) by {
                    assert(pending@[i] == old_pending[i]);
                    lemma_path_total(news[k].path, news[j].path);
                    if news[k].path != news[j].path {
                        lemma_path_transitive(pending@[i].path@, news[k].path, news[j].path);
                    }
                }
            }
        } else {
            proof {
                assert(before[place as int].path == event@.path);
                lemma_merge_step(listed, news.take(k), before, event@, before);
            }
        }
    }
    assert(news.take(news.len() as int) =~= news);
}

/// Brings events into their order.
fn sort_events(events: &mut Vec<PathEvent>)
    ensures
        events_sorted(event_models(final(events)@)),
        event_models(final(events)@).to_multiset() == event_models(old(events)@).to_multiset(),
{
    let ghost models = event_models(events@);
    let mut all: Vec<PathEvent> = Vec::new();
    std::mem::swap(events, &mut all);
    assert(models.take(0) =~= event_models(events@));
    for event in it: all
        invariant
            models == event_models(it.seq()),
            events_sorted(event_models(events@)),
            event_models(events@).to_multiset() == models.take(it.index() as int).to_multiset(),
    {
        let ghost k = it.index() as int;
        let ghost before = event_models(events@);
        let mut place: usize = events.len();
        while place > 0 && event.comes_before(&events[place - 1])
            invariant
                before == event_models(events@),
                place <= events.len(),
                forall|i: int|
                    place <= i < before.len() ==> event_less(event@, #[trigger] before[i]),
            decreases place,
        {
            place -= 1;
            assert(before[place as int] == events@[place as int]@);
        }
        events.insert(place, event);
        proof {
            let after = event_models(events@);
            assert(models[k] == event@);
            assert(models.take(k + 1) =~= models.take(k).push(event@));
            assert(after =~= before.insert(place as int, event@));
            vstd::seq_lib::to_multiset_insert(before, place as int, event@);
            vstd::seq_lib::to_multiset_build(models.take(k), event@);
            assert forall|i: int, j: int| 0 <= i < j < after.len() implies !event_less(
                #[trigger] after[j],
                #[trigger] after[i],
            ) by {
                let x = if i < place { i } else { i - 1 };
                let y = if j < place { j } else { j - 1 };
                if i == place {
                    assert(after[j] == before[y]);
                    lemma_event_asymmetric(event@, before[y]);
                } else if j == place {
                    assert(after[i] == before[x]);
                    if x < place - 1 {
                        assert(!event_less(before[place - 1], before[x]));
                        if event_less(event@, before[x]) {
                            lemma_event_not_less_transitive(before[x], before[place - 1], event@);
                        }
                    }
                } else {
                    assert(after[i] == before[x]);
                    assert(after[j] == before[y]);
                }
            }
        }
    }
    assert(models.take(models.len() as int) =~= models);
}

proof fn lemma_event_asymmetric(a: EventModel, b: EventModel)
    requires
        event_less(a, b),
    ensures
        !event_less(b, a),
{
    lemma_path_irreflexive(a.path);
    if path_less(a.path, b.path) && path_less(b.path, a.path) {
        lemma_path_transitive(a.path, b.path, a.path);
    }
}

proof fn lemma_event_not_less_transitive(a: EventModel, b: EventModel, c: EventModel)
    requires
        !event_less(b, a),
        !event_less(c, b),
    ensures
        !event_less(c, a),
{
    lemma_path_total(a.path, b.path);
    lemma_path_total(b.path, c.path);
    lemma_path_irreflexive(a.path);
    if a.path != b.path && b.path != c.path {
        lemma_path_transitive(a.path, b.path, c.path);
    }
    if path_less(a.path, c.path) && path_less(c.path, a.path) {
        lemma_path_transitive(a.path, c.path, a.path);
    }
}

/// `event` is in the list, and none in the list at its path comes before it.
pub open spec fn least_at_path(events: Seq<EventModel>, event: EventModel) -> bool {
    &&& events.contains(event)
    &&& forall|other: EventModel| #[trigger]
        events.contains(other) && other.path == event.path ==> !event_less(other, event)
}

/// `after` is what is pending once `new_events` have come in where `pending` was. Rescans are
/// coalesced first. What is then still pending stays, and each path that is not yet pending gets
/// its least new event.
pub open spec fn is_pending_after(
    pending: Seq<EventModel>,
    new_events: Seq<EventModel>,
    after: Seq<EventModel>,
) -> bool {
    &&& paths_increasing(after)
    &&& forall|event: EventModel| #[trigger]
        after.contains(event) <==> coalesced_pending(pending, new_events).contains(event) || (
        least_at_path(coalesced_new(pending, new_events), event) && !path_listed(
            coalesced_pending(pending, new_events),
            event.path,
        ))
}

/// No event in the list is at the path of a rescan in the list, but for rescans.
pub open spec fn rescans_alone(events: Seq<EventModel>) -> bool {
    forall|a: EventModel, b: EventModel| #[trigger]
        events.contains(a) && #[trigger] events.contains(b) && is_rescan(a) && a.path == b.path
            ==> is_rescan(b)
}

/// Two lists with the same events and increasing paths are the same list.
pub proof fn lemma_increasing_unique(a: Seq<EventModel>, b: Seq<EventModel>)
    requires
        paths_increasing(a),
        paths_increasing(b),
        forall|event: EventModel| #[trigger] a.contains(event) <==> b.contains(event),
    ensures
        a == b,
    decreases a.len(),
{
    if a.len() == 0 {
        if b.len() > 0 {
            assert(b.contains(b[0]));
            assert(a.contains(b[0]));
        }
        assert(a =~= b);
    } else {
        assert(a.contains(a[0]));
        assert(b.contains(a[0]));
        let i = choose|i: int| 0 <= i < b.len() && b[i] == a[0];
        assert(b.contains(b[0]));
        assert(a.contains(b[0]));
        let j = choose|j: int| 0 <= j < a.len() && a[j] == b[0];
        if i > 0 && j > 0 {
            assert(path_less(b[0].path, b[i].path));
            assert(path_less(a[0].path, a[j].path));
            lemma_path_transitive(a[0].path, b[0].path, a[0].path);
            lemma_path_irreflexive(a[0].path);
        }
        assert(a[0] == b[0]);
        let (x, y) = (a.drop_first(), b.drop_first());
        assert forall|event: EventModel| #[trigger] x.contains(event) <==> y.contains(event) by {
            lemma_path_irreflexive(a[0].path);
            if x.contains(event) {
                let k = choose|k: int| 0 <= k < x.len() && x[k] == event;
                assert(a[k + 1] == event);
                assert(path_less(a[0].path, a[k + 1].path));
                assert(a.contains(event));
                assert(b.contains(event));
                let m = choose|m: int| 0 <= m < b.len() && b[m] == event;
                assert(y[m - 1] == event);
            }
            if y.contains(event) {
                let k = choose|k: int| 0 <= k < y.len() && y[k] == event;
                assert(b[k + 1] == event);
                assert(path_less(b[0].path, b[k + 1].path));
                assert(a.contains(event));
                let m = choose|m: int| 0 <= m < a.len() && a[m] == event;
                assert(x[m - 1] == event);
            }
        }
        assert(paths_increasing(x)) by {
            assert forall|k: int, m: int| 0 <= k < m < x.len() implies path_less(
                #[trigger] x[k].path,
                #[trigger] x[m].path,
            ) by {
                assert(x[k] == a[k + 1] && x[m] == a[m + 1]);
            }
        }
        assert(paths_increasing(y)) by {
            assert forall|k: int, m: int| 0 <= k < m < y.len() implies path_less(
                #[trigger] y[k].path,
                #[trigger] y[m].path,
            ) by {
                assert(y[k] == b[k + 1] && y[m] == b[m + 1]);
            }
        }
        lemma_increasing_unique(x, y);
        assert(a =~= seq![a[0]] + x);
        assert(b =~= seq![b[0]] + y);
    }
}

proof fn lemma_filter_same(
    events: Seq<EventModel>,
    p: spec_fn(EventModel) -> bool,
    q: spec_fn(EventModel) -> bool,
)
    requires
        forall|event: EventModel| #[trigger] p(event) == q(event),
    ensures
        events.filter(p) == events.filter(q),
    decreases events.len(),
{
    reveal(Seq::filter);
    if events.len() > 0 {
        lemma_filter_same(events.drop_last(), p, q);
    }
}

/// A filter keeps events in order.
proof fn lemma_filter_sorted(events: Seq<EventModel>, stays: spec_fn(EventModel) -> bool)
    ensures
        events_sorted(events) ==> events_sorted(events.filter(stays)),
        paths_increasing(events) ==> paths_increasing(events.filter(stays)),
    decreases events.len(),
{
    if events.len() == 0 {
        reveal(Seq::filter);
    } else {
        let front = events.drop_last();
        let last = events.last();
        lemma_filter_sorted(front, stays);
        lemma_filter_members(front, stays);
        front.lemma_filter_push(last, stays);
        assert(events =~= front.push(last));
        let (few, all) = (front.filter(stays), events.filter(stays));
        assert(events_sorted(events) ==> events_sorted(front)) by {
            assert forall|i: int, j: int|
                events_sorted(events) && 0 <= i < j < front.len() implies !event_less(
                #[trigger] front[j],
                #[trigger] front[i],
            ) by {
                assert(front[i] == events[i] && front[j] == events[j]);
            }
        }
        assert(paths_increasing(events) ==> paths_increasing(front)) by {
            assert forall|i: int, j: int|
                paths_increasing(events) && 0 <= i < j < front.len() implies path_less(
                #[trigger] front[i].path,
                #[trigger] front[j].path,
            ) by {
                assert(front[i] == events[i] && front[j] == events[j]);
            }
        }
        assert forall|i: int| 0 <= i < few.len() implies exists|k: int|
            0 <= k < events.len() - 1 && events[k] == #[trigger] few[i] by {
            assert(few.contains(few[i]));
            let k = choose|k: int| 0 <= k < front.len() && front[k] == few[i];
            assert(events[k] == few[i]);
        }
        if events_sorted(events) {
            assert forall|i: int, j: int| 0 <= i < j < all.len() implies !event_less(
                #[trigger] all[j],
                #[trigger] all[i],
            ) by {
                assert(all[i] == few[i]);
                if j < few.len() {
                    assert(all[j] == few[j]);
                }
            }
        }
        if paths_increasing(events) {
            assert forall|i: int, j: int| 0 <= i < j < all.len() implies path_less(
                #[trigger] all[i].path,
                #[trigger] all[j].path,
            ) by {
                assert(all[i] == few[i]);
                if j < few.len() {
                    assert(all[j] == few[j]);
                }
            }
        }
    }
}

proof fn lemma_same_rescans(a: Seq<EventModel>, b: Seq<EventModel>, path: PathModel)
    requires
        forall|event: EventModel| #[trigger] a.contains(event) <==> b.contains(event),
    ensures
        rescan_above(a, path) ==> rescan_above(b, path),
{
    if rescan_above(a, path) {
        let i = choose|i: int|
            0 <= i < a.len() && is_rescan(#[trigger] a[i]) && path_below(path, a[i].path);
        assert(a.contains(a[i]));
        let j = choose|j: int| 0 <= j < b.len() && b[j] == a[i];
        assert(is_rescan(b[j]));
    }
}

/// Coalescing depends on which new events there are, not on their order.
proof fn lemma_coalescing_order(
    pending: Seq<EventModel>,
    a: Seq<EventModel>,
    b: Seq<EventModel>,
)
    requires
        forall|event: EventModel| #[trigger] a.contains(event) <==> b.contains(event),
    ensures
        coalesced_pending(pending, a) == coalesced_pending(pending, b),
        forall|event: EventModel| #[trigger]
            coalesced_new(pending, a).contains(event) <==> coalesced_new(pending, b).contains(
                event,
            ),
{
    assert forall|path: PathModel| #[trigger]
        rescan_needed(pending, a, path) == rescan_needed(pending, b, path) by {
        lemma_same_rescans(a, b, path);
        lemma_same_rescans(b, a, path);
    }
    assert forall|event: EventModel| #[trigger]
        pending_event_stays(pending, a, event) == pending_event_stays(pending, b, event) by {
        if !pending_event_stays(pending, a, event) {
            let i = choose|i: int| #[trigger] replaced_by(pending, a, event, i);
            assert(a.contains(a[i]));
            let j = choose|j: int| 0 <= j < b.len() && b[j] == a[i];
            assert(replaced_by(pending, b, event, j));
        }
        if !pending_event_stays(pending, b, event) {
            let i = choose|i: int| #[trigger] replaced_by(pending, b, event, i);
            assert(b.contains(b[i]));
            assert(a.contains(b[i]));
            let j = choose|j: int| 0 <= j < a.len() && a[j] == b[i];
            assert(replaced_by(pending, a, event, j));
        }
    }
    lemma_filter_same(
        pending,
        |event: EventModel| pending_event_stays(pending, a, event),
        |event: EventModel| pending_event_stays(pending, b, event),
    );
    lemma_filter_members(a, |event: EventModel| new_event_stays(pending, a, event));
    lemma_filter_members(b, |event: EventModel| new_event_stays(pending, b, event));
}

/// In a list that is in order, the first event at a path is the least there.
proof fn lemma_first_is_least(sorted: Seq<EventModel>, events: Seq<EventModel>, event: EventModel)
    requires
        events_sorted(sorted),
        forall|e: EventModel| #[trigger] sorted.contains(e) <==> events.contains(e),
    ensures
        first_at_path(sorted, event) <==> least_at_path(events, event),
{
    if first_at_path(sorted, event) {
        let i = choose|i: int|
            0 <= i < sorted.len() && #[trigger] sorted[i] == event && !path_listed(
                sorted.take(i),
                event.path,
            );
        assert(sorted.contains(event));
        assert forall|other: EventModel| #[trigger]
            events.contains(other) && other.path == event.path implies !event_less(
            other,
            event,
        ) by {
            assert(sorted.contains(other));
            let j = choose|j: int| 0 <= j < sorted.len() && sorted[j] == other;
            if j < i {
                assert(sorted.take(i)[j].path == event.path);
            }
            lemma_path_irreflexive(event.path);
        }
    }
    if least_at_path(events, event) {
        assert(sorted.contains(event));
        let j = choose|j: int| 0 <= j < sorted.len() && sorted[j] == event;
        assert(sorted[j].path == event.path);
        let first = lemma_first_exists(sorted, event.path);
        let i = choose|i: int|
            0 <= i < sorted.len() && #[trigger] sorted[i] == first && !path_listed(
                sorted.take(i),
                first.path,
            );
        if j < i {
            assert(sorted.take(i)[j].path == first.path);
        }
        assert(sorted.contains(first));
        assert(events.contains(first));
        lemma_path_irreflexive(event.path);
        assert(first.kind == event.kind);
    }
}

/// The events that wait to be fetched.
pub struct PendingEvents {
    events: Vec<PathEvent>,
}

impl View for PendingEvents {
    type V = Seq<EventModel>;

    closed spec fn view(&self) -> Seq<EventModel> {
        event_models(self.events@)
    }
}

impl PendingEvents {
    /// At most one event is pending for each path, and the paths increase.
    pub open spec fn well_formed(&self) -> bool {
        paths_increasing(self@)
    }

    /// Nothing pending.
    pub fn new() -> (pending: Self)
        ensures
            pending.well_formed(),
            pending@ == Seq::<EventModel>::empty(),
    {
        let pending = PendingEvents { events: Vec::new() };
        assert(pending@ =~= Seq::<EventModel>::empty());
        pending
    }

    /// Whether nothing is pending.
    pub fn is_empty(&self) -> (empty: bool)
        ensures
            empty == (self@.len() == 0),
    {
        self.events.len() == 0
    }

    /// Hands out what is pending, and leaves nothing.
    pub fn take(&mut self) -> (events: Vec<PathEvent>)
        ensures
            event_models(events@) == old(self)@,
            final(self)@ == Seq::<EventModel>::empty(),
            final(self).well_formed(),
    {
        let mut events: Vec<PathEvent> = Vec::new();
        std::mem::swap(&mut events, &mut self.events);
        assert(self@ =~= Seq::<EventModel>::empty());
        events
    }

    /// Takes in new events: a rescan takes the place of what it makes superfluous, and otherwise
    /// the first event at a path stays. Returns whether whoever fetches the events has to be
    /// woken: something came in where nothing was pending.
    pub fn add(&mut self, path_events: Vec<PathEvent>) -> (wake: bool)
        requires
            old(self).well_formed(),
        ensures
            final(self).well_formed(),
            wake == (old(self)@.len() == 0 && path_events@.len() > 0),
            is_pending_after(old(self)@, event_models(path_events@), final(self)@),
            path_events@.len() == 0 ==> final(self)@ == old(self)@,
    {
        let ghost pending = self@;
        let ghost models = event_models(path_events@);
        let ghost stays = |event: EventModel| pending_event_stays(pending, models, event);
        if path_events.len() == 0 {
            proof {
                lemma_no_rescan_no_change(pending, models);
            }
            return false;
        }
        let mut path_events = path_events;
        sort_events(&mut path_events);
        let ghost sorted = event_models(path_events@);
        let wake = self.events.len() == 0;
        coalesce_pending_rescans(&mut self.events, &mut path_events);
        proof {
            assert forall|event: EventModel| #[trigger] sorted.contains(event) <==> models.contains(
                event,
            ) by {
                vstd::seq_lib::to_multiset_contains(sorted, event);
                vstd::seq_lib::to_multiset_contains(models, event);
            }
            lemma_coalescing_order(pending, sorted, models);
            lemma_filter_sorted(pending, stays);
            lemma_filter_sorted(
                sorted,
                |event: EventModel| new_event_stays(pending, sorted, event),
            );
            let news = event_models(path_events@);
            assert(events_sorted(news));
            assert forall|i: int, j: int| 0 <= i < j < news.len() implies !path_less(
                #[trigger] news[j].path,
                #[trigger] news[i].path,
            ) by {
                assert(!event_less(news[j], news[i]));
            }
        }
        let ghost news = event_models(path_events@);
        extend_sorted(&mut self.events, path_events);
        proof {
            assert forall|event: EventModel| #[trigger]
                self@.contains(event) <==> coalesced_pending(pending, models).contains(event) || (
                least_at_path(coalesced_new(pending, models), event) && !path_listed(
                    coalesced_pending(pending, models),
                    event.path,
                )) by {
                lemma_first_is_least(news, coalesced_new(pending, models), event);
            }
        }
        wake
    }
}

/// Where there are events at a path, one of them is the least there.
proof fn lemma_least_exists(events: Seq<EventModel>, path: PathModel) -> (least: EventModel)
    requires
        path_listed(events, path),
    ensures
        least.path == path,
        least_at_path(events, least),
    decreases events.len(),
{
    let front = events.drop_last();
    let last = events.last();
    assert(events =~= front.push(last));
    assert(events.contains(last)) by {
        assert(events[events.len() - 1] == last);
    }
    assert forall|e: EventModel| #[trigger] events.contains(e) implies front.contains(e) || e
        == last by {
        let i = choose|i: int| 0 <= i < events.len() && events[i] == e;
        assert(i < front.len() ==> front[i] == e);
    }
    lemma_path_irreflexive(path);
    if path_listed(front, path) {
        let least = lemma_least_exists(front, path);
        let i = choose|i: int| 0 <= i < front.len() && front[i] == least;
        assert(events[i] == least);
        if last.path == path && event_less(last, least) {
            last
        } else {
            least
        }
    } else {
        let i = choose|i: int| 0 <= i < events.len() && (#[trigger] events[i]).path == path;
        assert(i < front.len() ==> front[i].path == path);
        assert forall|other: EventModel| #[trigger]
            events.contains(other) && other.path == path implies other == last by {
            if front.contains(other) {
                let j = choose|j: int| 0 <= j < front.len() && front[j] == other;
                assert(front[j].path == path);
            }
        }
        last
    }
}

proof fn lemma_needed_path_pending(
    pending: Seq<EventModel>,
    new_events: Seq<EventModel>,
    after: Seq<EventModel>,
    event: EventModel,
)
    requires
        is_pending_after(pending, new_events, after),
        coalesced_new(pending, new_events).contains(event),
    ensures
        path_listed(after, event.path),
{
    let (kept, news) = (
        coalesced_pending(pending, new_events),
        coalesced_new(pending, new_events),
    );
    let found = if path_listed(kept, event.path) {
        let i = choose|i: int| 0 <= i < kept.len() && (#[trigger] kept[i]).path == event.path;
        assert(kept.contains(kept[i]));
        kept[i]
    } else {
        let i = choose|i: int| 0 <= i < news.len() && news[i] == event;
        assert(news[i].path == event.path);
        lemma_least_exists(news, event.path)
    };
    assert(after.contains(found));
    let i = choose|i: int| 0 <= i < after.len() && after[i] == found;
    assert(after[i].path == event.path);
}

proof fn lemma_needed_rescan_pending(
    pending: Seq<EventModel>,
    new_events: Seq<EventModel>,
    after: Seq<EventModel>,
    rescan: EventModel,
)
    requires
        is_pending_after(pending, new_events, after),
        rescans_alone(new_events),
        coalesced_new(pending, new_events).contains(rescan),
        is_rescan(rescan),
    ensures
        after.contains(rescan),
{
    let (kept, news) = (
        coalesced_pending(pending, new_events),
        coalesced_new(pending, new_events),
    );
    lemma_filter_members(new_events, |e: EventModel| new_event_stays(pending, new_events, e));
    if path_listed(kept, rescan.path) {
        let i = choose|i: int| 0 <= i < kept.len() && (#[trigger] kept[i]).path == rescan.path;
        assert(kept.contains(kept[i]));
        lemma_new_rescans_stand_alone(pending, new_events, rescan, kept[i]);
    }
    assert forall|other: EventModel| #[trigger]
        news.contains(other) && other.path == rescan.path implies !event_less(other, rescan) by {
        assert(new_events.contains(other));
        assert(new_events.contains(rescan));
        lemma_path_irreflexive(rescan.path);
    }
}

/// Whoever is woken finds something: once new events have come in, something is pending.
pub proof fn lemma_pending_not_empty(
    pending: Seq<EventModel>,
    new_events: Seq<EventModel>,
    after: Seq<EventModel>,
)
    requires
        is_pending_after(pending, new_events, after),
        new_events.len() > 0,
    ensures
        after.len() > 0,
{
    let (kept, news) = (
        coalesced_pending(pending, new_events),
        coalesced_new(pending, new_events),
    );
    let event = new_events[0];
    assert(new_events.contains(event));
    if is_rescan(event) {
        assert(event.path =~= event.path.subrange(0, event.path.len() as int));
        assert(rescan_due(new_events, event.path));
        lemma_rescans_preserved(pending, new_events, event.path);
        if kept.len() > 0 {
            assert(kept.contains(kept[0]));
            assert(after.contains(kept[0]));
        } else {
            assert(news.contains(news[0]));
            lemma_needed_path_pending(pending, new_events, after, news[0]);
        }
    } else {
        lemma_other_events_kept(pending, new_events, event);
        lemma_needed_path_pending(pending, new_events, after, event);
    }
}

/// No rescan is lost and none is made up: exactly the paths that were due for a rescan, by what was
/// pending or by what came in, are due afterwards.
pub proof fn lemma_rescans_pending(
    pending: Seq<EventModel>,
    new_events: Seq<EventModel>,
    after: Seq<EventModel>,
    path: PathModel,
)
    requires
        is_pending_after(pending, new_events, after),
        rescans_alone(new_events),
    ensures
        rescan_due(after, path) <==> rescan_due(pending, path) || rescan_due(new_events, path),
{
    let (kept, news) = (
        coalesced_pending(pending, new_events),
        coalesced_new(pending, new_events),
    );
    lemma_rescans_preserved(pending, new_events, path);
    if rescan_due(after, path) {
        let i = choose|i: int|
            0 <= i < after.len() && is_rescan(#[trigger] after[i]) && path_starts_with(
                path,
                after[i].path,
            );
        assert(after.contains(after[i]));
        if kept.contains(after[i]) {
            let j = choose|j: int| 0 <= j < kept.len() && kept[j] == after[i];
            assert(is_rescan(kept[j]));
        } else {
            let j = choose|j: int| 0 <= j < news.len() && news[j] == after[i];
            assert(is_rescan(news[j]));
        }
    }
    if rescan_due(kept, path) {
        let i = choose|i: int|
            0 <= i < kept.len() && is_rescan(#[trigger] kept[i]) && path_starts_with(
                path,
                kept[i].path,
            );
        assert(kept.contains(kept[i]));
        assert(after.contains(kept[i]));
        let j = choose|j: int| 0 <= j < after.len() && after[j] == kept[i];
        assert(is_rescan(after[j]));
    }
    if rescan_due(news, path) {
        let i = choose|i: int|
            0 <= i < news.len() && is_rescan(#[trigger] news[i]) && path_starts_with(
                path,
                news[i].path,
            );
        assert(news.contains(news[i]));
        lemma_needed_rescan_pending(pending, new_events, after, news[i]);
        let j = choose|j: int| 0 <= j < after.len() && after[j] == news[i];
        assert(is_rescan(after[j]));
    }
}

/// The order in which two lots of new events come in makes no difference to which paths are due
/// for a rescan.
pub proof fn lemma_rescans_in_any_order(
    pending: Seq<EventModel>,
    a: Seq<EventModel>,
    b: Seq<EventModel>,
    after_a: Seq<EventModel>,
    after_a_b: Seq<EventModel>,
    after_b: Seq<EventModel>,
    after_b_a: Seq<EventModel>,
    path: PathModel,
)
    requires
        rescans_alone(a),
        rescans_alone(b),
        is_pending_after(pending, a, after_a),
        is_pending_after(after_a, b, after_a_b),
        is_pending_after(pending, b, after_b),
        is_pending_after(after_b, a, after_b_a),
    ensures
        rescan_due(after_a_b, path) == rescan_due(after_b_a, path),
{
    lemma_rescans_pending(pending, a, after_a, path);
    lemma_rescans_pending(after_a, b, after_a_b, path);
    lemma_rescans_pending(pending, b, after_b, path);
    lemma_rescans_pending(after_b, a, after_b_a, path);
}

/// No path is lost: at each path with a pending or a new event something is pending afterwards, or
/// the path is due for a rescan.
pub proof fn lemma_paths_pending(
    pending: Seq<EventModel>,
    new_events: Seq<EventModel>,
    after: Seq<EventModel>,
    path: PathModel,
)
    requires
        is_pending_after(pending, new_events, after),
        rescans_alone(new_events),
        path_listed(pending, path) || path_listed(new_events, path),
    ensures
        path_listed(after, path) || rescan_due(after, path),
{
    lemma_rescans_pending(pending, new_events, after, path);
    assert(path =~= path.subrange(0, path.len() as int));
    let kept = coalesced_pending(pending, new_events);
    if path_listed(pending, path) {
        let i = choose|i: int| 0 <= i < pending.len() && (#[trigger] pending[i]).path == path;
        assert(pending.contains(pending[i]));
        if is_rescan(pending[i]) {
            assert(rescan_due(pending, path));
        } else {
            lemma_other_events_kept(pending, new_events, pending[i]);
            if kept.contains(pending[i]) {
                assert(after.contains(pending[i]));
                let j = choose|j: int| 0 <= j < after.len() && after[j] == pending[i];
                assert(after[j].path == path);
            } else {
                let rescan = choose|rescan: EventModel| #[trigger]
                    coalesced_new(pending, new_events).contains(rescan) && is_rescan(rescan)
                        && rescan.path == path;
                lemma_needed_path_pending(pending, new_events, after, rescan);
            }
        }
    } else {
        let i = choose|i: int|
            0 <= i < new_events.len() && (#[trigger] new_events[i]).path == path;
        assert(new_events.contains(new_events[i]));
        if is_rescan(new_events[i]) {
            assert(rescan_due(new_events, path));
        } else {
            lemma_other_events_kept(pending, new_events, new_events[i]);
            lemma_needed_path_pending(pending, new_events, after, new_events[i]);
        }
    }
}

/// The first event at a path is kept: what is pending and not taken over by a rescan stays as it
/// is, and is all that is pending at its path.
pub proof fn lemma_first_event_kept(
    pending: Seq<EventModel>,
    new_events: Seq<EventModel>,
    after: Seq<EventModel>,
    event: EventModel,
    other: EventModel,
)
    requires
        is_pending_after(pending, new_events, after),
        pending.contains(event),
        pending_event_stays(pending, new_events, event),
    ensures
        after.contains(event),
        after.contains(other) && other.path == event.path ==> other == event,
{
    lemma_filter_members(pending, |e: EventModel| pending_event_stays(pending, new_events, e));
    assert(coalesced_pending(pending, new_events).contains(event));
    assert(after.contains(event));
    if after.contains(other) && other.path == event.path {
        let i = choose|i: int| 0 <= i < after.len() && after[i] == event;
        let j = choose|j: int| 0 <= j < after.len() && after[j] == other;
        assert(after[i].path == after[j].path);
        lemma_path_irreflexive(event.path);
        if i < j {
            assert(path_less(after[i].path, after[j].path));
        } else if j < i {
            assert(path_less(after[j].path, after[i].path));
        }
    }
}

} // verus!
