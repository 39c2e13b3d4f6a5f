//! Progress notifications.

use vstd::prelude::*;

verus! {

/// A notification about the progress of an installation step.
#[derive(Debug, PartialEq, Eq)]
pub enum Event {
    PackageEnvVarRemoveStart,
    PackageEnvVarRemoveDone,
    PackageEnvPathRemoveStart,
    PackageEnvPathRemoveDone,
    PackageShortcutAddStart,
    /// Names the shortcut that was added.
    PackageShortcutAddProgress(String),
    PackageShortcutAddDone,
    PackageShortcutRemoveStart,
    /// Names the shortcut that is being removed.
    PackageShortcutRemoveProgress(String),
    PackageShortcutRemoveDone,
}

/// A notification, over the characters of its text.
pub enum EventView {
    PackageEnvVarRemoveStart,
    PackageEnvVarRemoveDone,
    PackageEnvPathRemoveStart,
    PackageEnvPathRemoveDone,
    PackageShortcutAddStart,
    PackageShortcutAddProgress(Seq<char>),
    PackageShortcutAddDone,
    PackageShortcutRemoveStart,
    PackageShortcutRemoveProgress(Seq<char>),
    PackageShortcutRemoveDone,
}

impl View for Event {
    type V = EventView;

    open spec fn view(&self) -> EventView {
        match self {
            Event::PackageEnvVarRemoveStart => EventView::PackageEnvVarRemoveStart,
            Event::PackageEnvVarRemoveDone => EventView::PackageEnvVarRemoveDone,
            Event::PackageEnvPathRemoveStart => EventView::PackageEnvPathRemoveStart,
            Event::PackageEnvPathRemoveDone => EventView::PackageEnvPathRemoveDone,
            Event::PackageShortcutAddStart => EventView::PackageShortcutAddStart,
            Event::PackageShortcutAddProgress(name) => EventView::PackageShortcutAddProgress(name@),
            Event::PackageShortcutAddDone => EventView::PackageShortcutAddDone,
            Event::PackageShortcutRemoveStart => EventView::PackageShortcutRemoveStart,
            Event::PackageShortcutRemoveProgress(name) => EventView::PackageShortcutRemoveProgress(
                name@,
            ),
            Event::PackageShortcutRemoveDone => EventView::PackageShortcutRemoveDone,
        }
    }
}

} // verus!
