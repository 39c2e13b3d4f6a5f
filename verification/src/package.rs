//! Packages and their manifests.

use vstd::prelude::*;

verus! {

/// The parts of a manifest that installation steps read.
#[derive(Debug)]
pub struct Manifest {
    /// The files to download.
    pub url: Vec<String>,
    /// Variables to set, each with the text of its value. Each is named once.
    pub env_set: Option<Vec<(String, String)>>,
    /// Directories to put on the path.
    pub env_add_path: Option<Vec<String>>,
    /// Files and directories that outlive a version.
    pub persist: Option<Vec<Vec<String>>>,
    /// Start menu entries.
    pub shortcuts: Option<Vec<Vec<String>>>,
    /// Lines of the script that runs before an installation.
    pub pre_install: Option<Vec<String>>,
    /// Lines of the script that runs after an installation.
    pub post_install: Option<Vec<String>>,
    /// Lines of the script that runs before a removal.
    pub pre_uninstall: Option<Vec<String>>,
    /// Lines of the script that runs after a removal.
    pub post_uninstall: Option<Vec<String>>,
}

impl Manifest {
    /// Whether the manifest sets no variable twice.
    pub open spec fn sets_each_once(&self) -> bool {
        self.env_set matches Some(list) ==> forall|i: int, j: int|
            0 <= i < list@.len() && 0 <= j < list@.len() && i != j ==> (#[trigger] list@[i]).0@ != (
            #[trigger] list@[j]).0@
    }
}

/// A package.
#[derive(Debug)]
pub struct Package {
    pub name: String,
    pub version: String,
    /// The version in use, where the package is installed.
    pub installed_version: Option<String>,
    pub manifest: Manifest,
}

impl Package {
    /// Whether the package is installed.
    pub open spec fn spec_is_installed(&self) -> bool {
        self.installed_version is Some
    }

    /// Whether the package is installed.
    #[verifier::when_used_as_spec(spec_is_installed)]
    pub fn is_installed(&self) -> (r: bool)
        ensures
            r == self.is_installed(),
    {
        self.installed_version.is_some()
    }
}

} // verus!
