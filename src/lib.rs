//! Uniform enumeration of the regular files of a bundle source: a directory
//! tree or a tar archive scoped to an optional root.
pub mod archive;
pub mod digest;
pub mod dir;
pub mod entry;
pub mod error;
pub mod paths;
