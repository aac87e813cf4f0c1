//! Rescan requests that a wider request makes superfluous.
use crate::event::{event_models, is_rescan, EventModel, PathEvent, PathEventKind};
use crate::path::{
    lemma_starts_with_transitive, path_below, path_starts_with, PathModel, WatchPath,
};
use vstd::prelude::*;

verus! {

/// An event of kind `kind` at `path` is a rescan that a rescan of `ancestor` includes.
pub open spec fn covered_rescan(
    kind: Option<PathEventKind>,
    path: PathModel,
    ancestor: PathModel,
) -> bool {
    kind == Some(PathEventKind::Rescan) && path_below(path, ancestor)
}

/// Some rescan in `events` is of a directory above `path`.
pub open spec fn rescan_above(events: Seq<EventModel>, path: PathModel) -> bool {
    exists|i: int|
        0 <= i < events.len() && is_rescan(#[trigger] events[i]) && path_below(
            path,
            events[i].path,
        )
}

/// A new rescan of `path` is needed: no other new rescan and no pending one includes it.
pub open spec fn rescan_needed(
    pending: Seq<EventModel>,
    new_events: Seq<EventModel>,
    path: PathModel,
) -> bool {
    !rescan_above(new_events, path) && !rescan_above(pending, path)
}

/// A new event stays: it is no rescan, or a rescan that is needed.
pub open spec fn new_event_stays(
    pending: Seq<EventModel>,
    new_events: Seq<EventModel>,
    event: EventModel,
) -> bool {
    is_rescan(event) ==> rescan_needed(pending, new_events, event.path)
}

/// A new rescan takes the place of the pending event: it is needed, and it is of the same path,
/// or the pending event is a rescan that it includes.
pub open spec fn replaced_by(
    pending: Seq<EventModel>,
    new_events: Seq<EventModel>,
    event: EventModel,
    i: int,
) -> bool {
    &&& 0 <= i < new_events.len()
    &&& is_rescan(new_events[i])
    &&& rescan_needed(pending, new_events, new_events[i].path)
    &&& event.path == new_events[i].path || covered_rescan(
        event.kind,
        event.path,
        new_events[i].path,
    )
}

/// A pending event stays: no new rescan takes its place.
pub open spec fn pending_event_stays(
    pending: Seq<EventModel>,
    new_events: Seq<EventModel>,
    event: EventModel,
) -> bool {
    !exists|i: int| #[trigger] replaced_by(pending, new_events, event, i)
}

/// The pending events that stay, in their order.
pub open spec fn coalesced_pending(
    pending: Seq<EventModel>,
    new_events: Seq<EventModel>,
) -> Seq<EventModel> {
    pending.filter(|event: EventModel| pending_event_stays(pending, new_events, event))
}

/// The new events that stay, in their order.
pub open spec fn coalesced_new(
    pending: Seq<EventModel>,
    new_events: Seq<EventModel>,
) -> Seq<EventModel> {
    new_events.filter(|event: EventModel| new_event_stays(pending, new_events, event))
}

/// A filter that lets everything pass changes nothing.
proof fn lemma_filter_all(events: Seq<EventModel>, stays: spec_fn(EventModel) -> bool)
    requires
        forall|i: int| 0 <= i < events.len() ==> stays(#[trigger] events[i]),
    ensures
        events.filter(stays) == events,
    decreases events.len(),
{
    if events.len() > 0 {
        let front = events.drop_last();
        assert forall|i: int| 0 <= i < front.len() implies stays(#[trigger] front[i]) by {
            assert(front[i] == events[i]);
        }
        lemma_filter_all(front, stays);
        assert(stays(events[events.len() - 1]));
        front.lemma_filter_push(events.last(), stays);
        assert(events =~= front.push(events.last()));
    } else {
        reveal(Seq::filter);
        assert(events.filter(stays) =~= events);
    }
}

/// Whether an event of kind `kind` at `path` is a rescan that a rescan of `ancestor` includes.
pub fn is_covered_rescan(
    kind: Option<PathEventKind>,
    path: &WatchPath,
    ancestor: &WatchPath,
) -> (covered: bool)
    ensures
        covered == covered_rescan(kind, path@, ancestor@),
{
    match kind {
        Some(PathEventKind::Rescan) => path.is_below(ancestor),
        _ => false,
    }
}

/// Whether some rescan in `events` is of a directory above `path`.
fn any_rescan_above(events: &Vec<PathEvent>, path: &WatchPath) -> (above: bool)
    ensures
        above == rescan_above(event_models(events@), path@),
{
    let ghost models = event_models(events@);
    let mut i: usize = 0;
    while i < events.len()
        invariant
            models == event_models(events@),
            i <= events.len(),
            forall|j: int|
                0 <= j < i ==> !(is_rescan(#[trigger] models[j]) && path_below(
                    path@,
                    models[j].path,
                )),
        decreases events.len() - i,
    {
        if is_covered_rescan(events[i].kind, path, &events[i].path) {
            assert(is_rescan(models[i as int]) && path_below(path@, models[i as int].path));
            return true;
        }
        assert(models[i as int] == events@[i as int]@);
        i += 1;
    }
    false
}

/// Keeps the events at the places that are marked.
fn retain_marked(
    events: &mut Vec<PathEvent>,
    marks: &Vec<bool>,
    Ghost(stays): Ghost<spec_fn(EventModel) -> bool>,
)
    requires
        marks.len() == old(events).len(),
        forall|i: int|
            0 <= i < marks.len() ==> #[trigger] marks@[i] == stays(event_models(old(events)@)[i]),
    ensures
        event_models(final(events)@) == event_models(old(events)@).filter(stays),
{
    let ghost models = event_models(events@);
    let mut all: Vec<PathEvent> = Vec::new();
    std::mem::swap(events, &mut all);
    let mut i: usize = 0;
    for event in it: all
        invariant
            models == event_models(it.seq()),
            i == it.index(),
            marks.len() == models.len(),
            forall|j: int| 0 <= j < marks.len() ==> #[trigger] marks@[j] == stays(models[j]),
            event_models(events@) == models.take(i as int).filter(stays),
    {
        let ghost before = events@;
        proof {
            assert(models.take(i + 1) =~= models.take(i as int).push(models[i as int]));
            models.take(i as int).lemma_filter_push(models[i as int], stays);
            assert(models[i as int] == event@);
        }
        if marks[i] {
            events.push(event);
            assert(event_models(events@) =~= event_models(before).push(event@));
        }
        i += 1;
    }
    assert(models.take(models.len() as int) =~= models);
}

/// Whether any of the events asks for a rescan.
fn any_rescan(events: &Vec<PathEvent>) -> (any: bool)
    ensures
        any == exists|i: int|
            0 <= i < events.len() && is_rescan(#[trigger] event_models(events@)[i]),
{
    let ghost models = event_models(events@);
    let mut i: usize = 0;
    while i < events.len()
        invariant
            models == event_models(events@),
            i <= events.len(),
            forall|j: int| 0 <= j < i ==> !is_rescan(#[trigger] models[j]),
        decreases events.len() - i,
    {
        assert(models[i as int] == events@[i as int]@);
        if events[i].asks_rescan() {
            return true;
        }
        i += 1;
    }
    false
}

/// Whether a new rescan takes the place of the pending event `event`, where `needed` marks the
/// new rescans that are needed.
fn is_replaced(
    event: &PathEvent,
    path_events: &Vec<PathEvent>,
    needed: &Vec<bool>,
    Ghost(pending): Ghost<Seq<EventModel>>,
) -> (replaced: bool)
    requires
        needed.len() == path_events.len(),
        forall|i: int|
            0 <= i < needed.len() ==> #[trigger] needed@[i] == (is_rescan(
                event_models(path_events@)[i],
            ) && rescan_needed(
                pending,
                event_models(path_events@),
                event_models(path_events@)[i].path,
            )),
    ensures
        replaced == !pending_event_stays(pending, event_models(path_events@), event@),
{
    let ghost models = event_models(path_events@);
    let mut i: usize = 0;
    while i < path_events.len()
        invariant
            models == event_models(path_events@),
            needed.len() == path_events.len(),
            forall|j: int|
                0 <= j < needed.len() ==> #[trigger] needed@[j] == (is_rescan(models[j])
                    && rescan_needed(pending, models, models[j].path)),
            i <= path_events.len(),
            forall|j: int| 0 <= j < i ==> !#[trigger] replaced_by(pending, models, event@, j),
        decreases path_events.len() - i,
    {
        assert(models[i as int] == path_events@[i as int]@);
        if needed[i] && (event.path.same_path(&path_events[i].path) || is_covered_rescan(
            event.kind,
            &event.path,
            &path_events[i].path,
        )) {
            assert(replaced_by(pending, models, event@, i as int));
            return true;
        }
        i += 1;
    }
    false
}

/// Drops the rescans that others include. Among the new events only those rescans stay that no
/// other new rescan and no pending rescan includes. Each of them takes the place of what is
/// pending at its own path and of the pending rescans below it. All other events stay, in their
/// order.
pub fn coalesce_pending_rescans(
    pending_paths: &mut Vec<PathEvent>,
    path_events: &mut Vec<PathEvent>,
)
    ensures
        event_models(final(pending_paths)@) == coalesced_pending(
            event_models(old(pending_paths)@),
            event_models(old(path_events)@),
        ),
        event_models(final(path_events)@) == coalesced_new(
            event_models(old(pending_paths)@),
            event_models(old(path_events)@),
        ),
{
    let ghost pending = event_models(pending_paths@);
    let ghost models = event_models(path_events@);
    if !any_rescan(path_events) {
        proof {
            lemma_filter_all(
                pending,
                |event: EventModel| pending_event_stays(pending, models, event),
            );
            lemma_filter_all(models, |event: EventModel| new_event_stays(pending, models, event));
        }
        return ;
    }
    let mut needed: Vec<bool> = Vec::new();
    let mut new_stays: Vec<bool> = Vec::new();
    let mut i: usize = 0;
    while i < path_events.len()
        invariant
            pending == event_models(pending_paths@),
            models == event_models(path_events@),
            i <= path_events.len(),
            needed.len() == i,
            new_stays.len() == i,
            forall|j: int|
                0 <= j < i ==> #[trigger] needed@[j] == (is_rescan(models[j]) && rescan_needed(
                    pending,
                    models,
                    models[j].path,
                )),
            forall|j: int|
                0 <= j < i ==> #[trigger] new_stays@[j] == new_event_stays(
                    pending,
                    models,
                    models[j],
                ),
        decreases path_events.len() - i,
    {
        assert(models[i as int] == path_events@[i as int]@);
        let event = &path_events[i];
        let rescan = event.asks_rescan();
        let need = rescan && !any_rescan_above(path_events, &event.path) && !any_rescan_above(
            pending_paths,
            &event.path,
        );
        needed.push(need);
        new_stays.push(!rescan || need);
        i += 1;
    }
    let mut pending_stays: Vec<bool> = Vec::new();
    let mut k: usize = 0;
    while k < pending_paths.len()
        invariant
            pending == event_models(pending_paths@),
            models == event_models(path_events@),
            needed.len() == path_events.len(),
            forall|j: int|
                0 <= j < needed.len() ==> #[trigger] needed@[j] == (is_rescan(models[j])
                    && rescan_needed(pending, models, models[j].path)),
            k <= pending_paths.len(),
            pending_stays.len() == k,
            forall|j: int|
                0 <= j < k ==> #[trigger] pending_stays@[j] == pending_event_stays(
                    pending,
                    models,
                    pending[j],
                ),
        decreases pending_paths.len() - k,
    {
        assert(pending[k as int] == pending_paths@[k as int]@);
        pending_stays.push(
            !is_replaced(&pending_paths[k], path_events, &needed, Ghost(pending)),
        );
        k += 1;
    }
    retain_marked(
        pending_paths,
        &pending_stays,
        Ghost(|event: EventModel| pending_event_stays(pending, models, event)),
    );
    retain_marked(
        path_events,
        &new_stays,
        Ghost(|event: EventModel| new_event_stays(pending, models, event)),
    );
}

/// `path` is due for a rescan: some rescan in `events` is of it or of a directory above it.
pub open spec fn rescan_due(events: Seq<EventModel>, path: PathModel) -> bool {
    exists|i: int|
        0 <= i < events.len() && is_rescan(#[trigger] events[i]) && path_starts_with(
            path,
            events[i].path,
        )
}

/// What stands in a filtered list.
pub proof fn lemma_filter_members(events: Seq<EventModel>, stays: spec_fn(EventModel) -> bool)
    ensures
        forall|event: EventModel| #[trigger]
            events.filter(stays).contains(event) <==> events.contains(event) && stays(event),
{
    assert forall|event: EventModel| #[trigger]
        events.filter(stays).contains(event) implies events.contains(event) && stays(event) by {
        let i = choose|i: int|
            0 <= i < events.filter(stays).len() && events.filter(stays)[i] == event;
        events.lemma_filter_pred(stays, i);
        events.lemma_filter_contains_rev(stays, event);
    }
    assert forall|event: EventModel|
        events.contains(event) && stays(
            event,
        ) implies #[trigger] events.filter(stays).contains(event) by {
        let i = choose|i: int| 0 <= i < events.len() && events[i] == event;
        events.lemma_filter_contains(stays, i);
    }
}

proof fn lemma_due_after(
    pending: Seq<EventModel>,
    new_events: Seq<EventModel>,
    path: PathModel,
    event: EventModel,
)
    requires
        pending.contains(event) || new_events.contains(event),
        is_rescan(event),
        path_starts_with(path, event.path),
    ensures
        rescan_due(coalesced_pending(pending, new_events), path) || rescan_due(
            coalesced_new(pending, new_events),
            path,
        ),
    decreases event.path.len(),
{
    let pending_stays = |e: EventModel| pending_event_stays(pending, new_events, e);
    let new_stays = |e: EventModel| new_event_stays(pending, new_events, e);
    lemma_filter_members(pending, pending_stays);
    lemma_filter_members(new_events, new_stays);
    let (after_pending, after_new) = (
        coalesced_pending(pending, new_events),
        coalesced_new(pending, new_events),
    );
    if new_events.contains(event) {
        if rescan_needed(pending, new_events, event.path) {
            assert(after_new.contains(event));
            let i = choose|i: int| 0 <= i < after_new.len() && after_new[i] == event;
            assert(is_rescan(after_new[i]));
        } else {
            let above = if rescan_above(new_events, event.path) {
                new_events[choose|i: int|
                    0 <= i < new_events.len() && is_rescan(#[trigger] new_events[i]) && path_below(
                        event.path,
                        new_events[i].path,
                    )]
            } else {
                pending[choose|i: int|
                    0 <= i < pending.len() && is_rescan(#[trigger] pending[i]) && path_below(
                        event.path,
                        pending[i].path,
                    )]
            };
            if above.path.len() == event.path.len() {
                assert(above.path =~= event.path);
            }
            lemma_starts_with_transitive(path, event.path, above.path);
            lemma_due_after(pending, new_events, path, above);
        }
    } else if pending_event_stays(pending, new_events, event) {
        assert(after_pending.contains(event));
        let i = choose|i: int| 0 <= i < after_pending.len() && after_pending[i] == event;
        assert(is_rescan(after_pending[i]));
    } else {
        let k = choose|k: int| #[trigger] replaced_by(pending, new_events, event, k);
        let wider = new_events[k];
        assert(new_events.contains(wider));
        assert(after_new.contains(wider));
        let i = choose|i: int| 0 <= i < after_new.len() && after_new[i] == wider;
        assert(is_rescan(after_new[i]));
        if event.path != wider.path {
            lemma_starts_with_transitive(path, event.path, wider.path);
        }
    }
}

/// Coalescing neither loses nor adds a rescan: exactly the paths that were due for a rescan before,
/// by a pending or a new event, are due after it.
pub proof fn lemma_rescans_preserved(
    pending: Seq<EventModel>,
    new_events: Seq<EventModel>,
    path: PathModel,
)
    ensures
        rescan_due(pending, path) || rescan_due(new_events, path) <==> rescan_due(
            coalesced_pending(pending, new_events),
            path,
        ) || rescan_due(coalesced_new(pending, new_events), path),
{
    let pending_stays = |e: EventModel| pending_event_stays(pending, new_events, e);
    let new_stays = |e: EventModel| new_event_stays(pending, new_events, e);
    lemma_filter_members(pending, pending_stays);
    lemma_filter_members(new_events, new_stays);
    let (after_pending, after_new) = (
        coalesced_pending(pending, new_events),
        coalesced_new(pending, new_events),
    );
    if rescan_due(pending, path) {
        let i = choose|i: int|
            0 <= i < pending.len() && is_rescan(#[trigger] pending[i]) && path_starts_with(
                path,
                pending[i].path,
            );
        lemma_due_after(pending, new_events, path, pending[i]);
    }
    if rescan_due(new_events, path) {
        let i = choose|i: int|
            0 <= i < new_events.len() && is_rescan(#[trigger] new_events[i]) && path_starts_with(
                path,
                new_events[i].path,
            );
        lemma_due_after(pending, new_events, path, new_events[i]);
    }
    if rescan_due(after_pending, path) {
        let i = choose|i: int|
            0 <= i < after_pending.len() && is_rescan(#[trigger] after_pending[i])
                && path_starts_with(path, after_pending[i].path);
        assert(after_pending.contains(after_pending[i]));
        let j = choose|j: int| 0 <= j < pending.len() && pending[j] == after_pending[i];
        assert(is_rescan(pending[j]));
    }
    if rescan_due(after_new, path) {
        let i = choose|i: int|
            0 <= i < after_new.len() && is_rescan(#[trigger] after_new[i]) && path_starts_with(
                path,
                after_new[i].path,
            );
        assert(after_new.contains(after_new[i]));
        let j = choose|j: int| 0 <= j < new_events.len() && new_events[j] == after_new[i];
        assert(is_rescan(new_events[j]));
    }
}

/// After coalescing, no rescan lies below a new one, no new one lies below another rescan, and
/// nothing else is pending at the path of a new rescan.
pub proof fn lemma_new_rescans_stand_alone(
    pending: Seq<EventModel>,
    new_events: Seq<EventModel>,
    rescan: EventModel,
    other: EventModel,
)
    requires
        coalesced_new(pending, new_events).contains(rescan),
        is_rescan(rescan),
    ensures
        is_rescan(other) && (coalesced_new(pending, new_events).contains(other)
            || coalesced_pending(pending, new_events).contains(other)) ==> !path_below(
            other.path,
            rescan.path,
        ) && !path_below(rescan.path, other.path),
        coalesced_pending(pending, new_events).contains(other) ==> other.path != rescan.path,
{
    let pending_stays = |e: EventModel| pending_event_stays(pending, new_events, e);
    let new_stays = |e: EventModel| new_event_stays(pending, new_events, e);
    lemma_filter_members(pending, pending_stays);
    lemma_filter_members(new_events, new_stays);
    let k = choose|k: int| 0 <= k < new_events.len() && new_events[k] == rescan;
    assert(is_rescan(new_events[k]));
    if coalesced_pending(pending, new_events).contains(other) {
        let j = choose|j: int| 0 <= j < pending.len() && pending[j] == other;
        assert(is_rescan(pending[j]) == is_rescan(other));
        assert(!replaced_by(pending, new_events, other, k));
    }
    if is_rescan(other) && coalesced_new(pending, new_events).contains(other) {
        let j = choose|j: int| 0 <= j < new_events.len() && new_events[j] == other;
        assert(is_rescan(new_events[j]));
    }
}

/// Events that ask for no rescan are kept, but for those that are pending at the path of a new
/// rescan.
pub proof fn lemma_other_events_kept(
    pending: Seq<EventModel>,
    new_events: Seq<EventModel>,
    event: EventModel,
)
    requires
        !is_rescan(event),
    ensures
        new_events.contains(event) ==> coalesced_new(pending, new_events).contains(event),
        pending.contains(event) ==> {
            ||| coalesced_pending(pending, new_events).contains(event)
            ||| exists|rescan: EventModel| #[trigger]
                coalesced_new(pending, new_events).contains(rescan) && is_rescan(rescan)
                    && rescan.path == event.path
        },
{
    let pending_stays = |e: EventModel| pending_event_stays(pending, new_events, e);
    let new_stays = |e: EventModel| new_event_stays(pending, new_events, e);
    lemma_filter_members(pending, pending_stays);
    lemma_filter_members(new_events, new_stays);
    if pending.contains(event) && !pending_event_stays(pending, new_events, event) {
        let k = choose|k: int| #[trigger] replaced_by(pending, new_events, event, k);
        assert(new_events.contains(new_events[k]));
        assert(coalesced_new(pending, new_events).contains(new_events[k]));
    }
}

/// Without a new rescan nothing changes.
pub proof fn lemma_no_rescan_no_change(pending: Seq<EventModel>, new_events: Seq<EventModel>)
    requires
        forall|i: int| 0 <= i < new_events.len() ==> !is_rescan(#[trigger] new_events[i]),
    ensures
        coalesced_pending(pending, new_events) == pending,
        coalesced_new(pending, new_events) == new_events,
{
    lemma_filter_all(pending, |e: EventModel| pending_event_stays(pending, new_events, e));
    lemma_filter_all(new_events, |e: EventModel| new_event_stays(pending, new_events, e));
}

/// Coalescing what was coalesced changes nothing.
pub proof fn lemma_coalescing_idempotent(pending: Seq<EventModel>, new_events: Seq<EventModel>)
    ensures
        ({
            let (p, n) = (
                coalesced_pending(pending, new_events),
                coalesced_new(pending, new_events),
            );
            coalesced_pending(p, n) == p && coalesced_new(p, n) == n
        }),
{
    let (p, n) = (coalesced_pending(pending, new_events), coalesced_new(pending, new_events));
    assert forall|i: int| 0 <= i < n.len() implies new_event_stays(p, n, #[trigger] n[i]) by {
        if is_rescan(n[i]) {
            assert(n.contains(n[i]));
            if rescan_above(n, n[i].path) {
                let j = choose|j: int|
                    0 <= j < n.len() && is_rescan(#[trigger] n[j]) && path_below(
                        n[i].path,
                        n[j].path,
                    );
                assert(n.contains(n[j]));
                lemma_new_rescans_stand_alone(pending, new_events, n[i], n[j]);
            }
            if rescan_above(p, n[i].path) {
                let j = choose|j: int|
                    0 <= j < p.len() && is_rescan(#[trigger] p[j]) && path_below(
                        n[i].path,
                        p[j].path,
                    );
                assert(p.contains(p[j]));
                lemma_new_rescans_stand_alone(pending, new_events, n[i], p[j]);
            }
        }
    }
    assert forall|i: int| 0 <= i < p.len() implies pending_event_stays(p, n, #[trigger] p[i]) by {
        assert(p.contains(p[i]));
        assert forall|k: int| !#[trigger] replaced_by(p, n, p[i], k) by {
            if replaced_by(p, n, p[i], k) {
                assert(n.contains(n[k]));
                lemma_new_rescans_stand_alone(pending, new_events, n[k], p[i]);
            }
        }
    }
    lemma_filter_all(p, |e: EventModel| pending_event_stays(p, n, e));
    lemma_filter_all(n, |e: EventModel| new_event_stays(p, n, e));
}

} // verus!
