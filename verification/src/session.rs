//! The configuration that installation steps read.

use vstd::prelude::*;

verus! {

/// The platforms that an installer runs on. They differ in how paths are
/// written.
#[derive(Clone, Copy, Debug, PartialEq, Eq, Structural)]
pub enum Platform {
    Windows,
    /// Any platform but Windows.
    Unix,
}

/// Where the paths of packages are kept apart from the user's own.
#[derive(Debug, PartialEq, Eq)]
pub enum IsolatedPath {
    /// In a variable of this name.
    Named(String),
    /// In the default variable, or not at all.
    Boolean(bool),
}

/// The settings of an installation.
#[derive(Debug)]
pub struct Config {
    /// The directory that holds `apps`, `persist` and the like.
    pub root_path: String,
    /// The directory of downloaded files.
    pub cache_path: String,
    /// The configuration file.
    pub path: String,
    /// Whether applications are used from their version's directory.
    pub no_junction: bool,
    /// Whether the paths of packages go to a variable of their own.
    pub use_isolated_path: Option<IsolatedPath>,
}

/// A session of the installer.
#[derive(Debug)]
pub struct Session {
    pub config: Config,
    /// The platform that the session runs on.
    pub platform: Platform,
}

} // verus!
