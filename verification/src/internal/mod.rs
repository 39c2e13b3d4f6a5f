//! Building blocks shared by the installation steps.

pub mod text;
pub mod archive;
pub mod archive_laws;
pub mod path;
pub mod path_laws;
pub mod sevenz;
pub mod sevenz_laws;
