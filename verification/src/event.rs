//! The events that a watcher receives and those that it reports.
use crate::path::{lemma_path_irreflexive, path_less, Order, PathModel, WatchPath};
use vstd::prelude::*;

verus! {

/// What happened at a path.
#[derive(Debug, Copy, Clone, PartialEq, Eq, PartialOrd, Ord, Hash, Structural)]
pub enum PathEventKind {
    Removed,
    Created,
    Changed,
    /// Events were lost: everything at and below the path has to be read again.
    Rescan,
}

/// A change at a path, as it is reported.
#[derive(Debug, PartialEq, Eq, Hash)]
pub struct PathEvent {
    pub path: WatchPath,
    pub kind: Option<PathEventKind>,
}

/// What a reported change is.
pub struct EventModel {
    pub path: PathModel,
    pub kind: Option<PathEventKind>,
}

impl View for PathEvent {
    type V = EventModel;

    open spec fn view(&self) -> EventModel {
        EventModel { path: self.path@, kind: self.kind }
    }
}

impl Clone for PathEvent {
    fn clone(&self) -> (copy: Self)
        ensures
            copy@ == self@,
    {
        PathEvent { path: self.path.clone(), kind: self.kind }
    }
}

/// What a list of reported changes is.
pub open spec fn event_models(events: Seq<PathEvent>) -> Seq<EventModel> {
    events.map_values(|event: PathEvent| event@)
}

/// The event asks for a rescan.
pub open spec fn is_rescan(event: EventModel) -> bool {
    event.kind == Some(PathEventKind::Rescan)
}

/// The place of a kind among all kinds.
pub open spec fn kind_rank(kind: Option<PathEventKind>) -> int {
    match kind {
        None => 0,
        Some(PathEventKind::Removed) => 1,
        Some(PathEventKind::Created) => 2,
        Some(PathEventKind::Changed) => 3,
        Some(PathEventKind::Rescan) => 4,
    }
}

/// Events are ordered by path, and at one path by kind.
pub open spec fn event_less(a: EventModel, b: EventModel) -> bool {
    path_less(a.path, b.path) || (a.path == b.path && kind_rank(a.kind) < kind_rank(b.kind))
}

/// What the system says of an event.
#[derive(Debug, Copy, Clone, PartialEq, Eq, Hash, Structural)]
pub enum EventKind {
    Any,
    Access,
    Create,
    Modify,
    Remove,
    Other,
}

/// An event as the system delivers it: it may name several paths, and it may say that events were
/// lost.
#[derive(Debug, PartialEq, Eq, Hash)]
pub struct WatchEvent {
    pub kind: EventKind,
    pub paths: Vec<WatchPath>,
    pub need_rescan: bool,
}

/// What a delivered event is.
pub struct WatchEventModel {
    pub kind: EventKind,
    pub paths: Seq<PathModel>,
    pub need_rescan: bool,
}

impl View for WatchEvent {
    type V = WatchEventModel;

    open spec fn view(&self) -> WatchEventModel {
        WatchEventModel {
            kind: self.kind,
            paths: self.paths@.map_values(|path: WatchPath| path@),
            need_rescan: self.need_rescan,
        }
    }
}

/// The kind under which an event is reported: creations, modifications and removals have one,
/// and nothing is known of the others.
pub open spec fn reported_kind(kind: EventKind) -> Option<PathEventKind> {
    match kind {
        EventKind::Create => Some(PathEventKind::Created),
        EventKind::Modify => Some(PathEventKind::Changed),
        EventKind::Remove => Some(PathEventKind::Removed),
        EventKind::Any | EventKind::Access | EventKind::Other => None,
    }
}

impl EventKind {
    /// The kind under which an event is reported.
    pub fn reported(self) -> (kind: Option<PathEventKind>)
        ensures
            kind == reported_kind(self),
    {
        match self {
            EventKind::Create => Some(PathEventKind::Created),
            EventKind::Modify => Some(PathEventKind::Changed),
            EventKind::Remove => Some(PathEventKind::Removed),
            EventKind::Any | EventKind::Access | EventKind::Other => None,
        }
    }
}

impl PathEvent {
    fn rank(&self) -> (rank: u8)
        ensures
            rank == kind_rank(self.kind),
    {
        match self.kind {
            None => 0,
            Some(PathEventKind::Removed) => 1,
            Some(PathEventKind::Created) => 2,
            Some(PathEventKind::Changed) => 3,
            Some(PathEventKind::Rescan) => 4,
        }
    }

    /// Whether this event comes before `other`.
    pub fn comes_before(&self, other: &PathEvent) -> (before: bool)
        ensures
            before == event_less(self@, other@),
    {
        proof {
            lemma_path_irreflexive(self.path@);
        }
        match self.path.compare(&other.path) {
            Order::Less => true,
            Order::Equal => self.rank() < other.rank(),
            Order::Greater => false,
        }
    }

    /// Whether the event asks for a rescan.
    pub fn asks_rescan(&self) -> (asks: bool)
        ensures
            asks == is_rescan(self@),
    {
        match self.kind {
            Some(PathEventKind::Rescan) => true,
            _ => false,
        }
    }
}

} // verus!
