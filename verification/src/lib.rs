//! The decision logic of a file system watcher.
//!
//! A watcher is asked for paths ([`watcher`]) and registers them with a registry that all watchers
//! share ([`global_watcher`]). The registry decides which paths the system has to watch. What the
//! system then says of events is turned into events below the paths that were asked for
//! ([`report`]), and these wait in a list ([`pending`]) in which a rescan takes the place of what
//! it makes superfluous ([`rescan`]). What holds over several steps is stated in [`laws`]; what
//! each step does to paths, to events and to registrations in [`path_laws`], [`event_laws`] and
//! [`registry_laws`]; and what a step's answer says in [`step_laws`].
//!
//! Everything that touches the system, its threads or its locks is left to the caller: where such
//! a step is due, a function says so in what it returns, and another takes the outcome.

pub mod event;
pub mod event_laws;
pub mod global_watcher;
pub mod laws;
pub mod order;
pub mod path;
pub mod path_laws;
pub mod path_map;
pub mod pending;
pub mod registry_laws;
pub mod report;
pub mod rescan;
pub mod step_laws;
pub mod watcher;

pub use crate::event::{EventKind, PathEvent, PathEventKind, WatchEvent};
pub use crate::global_watcher::{handle_event, AddAction, GlobalWatcher, WatcherRegistrationId};
pub use crate::path::{
    translate_canonical_event_path, Order, PathComponent, PathPrefix, PrefixKind, WatchPath,
};
pub use crate::pending::{extend_sorted, PendingEvents};
pub use crate::report::{EventReporter, Platform, RecursiveMode};
pub use crate::rescan::{coalesce_pending_rescans, is_covered_rescan};
pub use crate::watcher::{global, AddStep, FollowStep, FsWatcher, WatchRequest};
