//! Verified planning layer of a Scoop-compatible package installer.
//!
//! The functions here decide what an installation step does: which paths it
//! touches, which variables it sets, which script it runs and in which order.
//! They take and return plain values; carrying the plan out is left to the
//! caller. Paths are read and written as the platform of the session does.

pub mod env;
pub mod env_laws;
pub mod error;
pub mod event;
pub mod internal;
pub mod package;
pub mod persist;
pub mod persist_laws;
pub mod script;
pub mod script_laws;
pub mod session;
pub mod shortcut;
pub mod shortcut_laws;
