//! Events that the engine announces to its collaborators.
use vstd::prelude::*;

verus! {

/// Something that happened to a note, the settings, the window or the
/// application.
pub enum DomainEvent {
    NoteCreated { uid: String },
    NoteUpdated { uid: String },
    NoteDeleted { uid: String },
    NoteLoaded { uid: String },
    SaveRequested { uid: String },
    SaveCompleted { uid: String },
    SaveFailed { uid: String, error: String },
    SettingsChanged,
    WindowShown,
    WindowHidden,
    AppQuitting,
}

/// The channel name of an event.
pub open spec fn event_name(e: DomainEvent) -> &'static str {
    match e {
        DomainEvent::NoteCreated { .. } => "note:created",
        DomainEvent::NoteUpdated { .. } => "note:updated",
        DomainEvent::NoteDeleted { .. } => "note:deleted",
        DomainEvent::NoteLoaded { .. } => "note:loaded",
        DomainEvent::SaveRequested { .. } => "save:requested",
        DomainEvent::SaveCompleted { .. } => "save:completed",
        DomainEvent::SaveFailed { .. } => "save:failed",
        DomainEvent::SettingsChanged => "settings:changed",
        DomainEvent::WindowShown => "window:shown",
        DomainEvent::WindowHidden => "window:hidden",
        DomainEvent::AppQuitting => "app:quitting",
    }
}

impl DomainEvent {
    /// The channel name of the event, `area:what`.
    pub fn name(&self) -> (r: &'static str)
        ensures
            r == event_name(*self),
    {
        match self {
            DomainEvent::NoteCreated { .. } => "note:created",
            DomainEvent::NoteUpdated { .. } => "note:updated",
            DomainEvent::NoteDeleted { .. } => "note:deleted",
            DomainEvent::NoteLoaded { .. } => "note:loaded",
            DomainEvent::SaveRequested { .. } => "save:requested",
            DomainEvent::SaveCompleted { .. } => "save:completed",
            DomainEvent::SaveFailed { .. } => "save:failed",
            DomainEvent::SettingsChanged => "settings:changed",
            DomainEvent::WindowShown => "window:shown",
            DomainEvent::WindowHidden => "window:hidden",
            DomainEvent::AppQuitting => "app:quitting",
        }
    }
}

/// Identifies a subscription so that it can be cancelled.
#[derive(Debug, Clone, Copy, PartialEq, Eq, Hash, Structural)]
pub struct SubscriptionId(pub u64);

} // verus!
