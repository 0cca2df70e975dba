//! Conflict detection for a game data tree: a reader for the packed
//! resource-archive container format ("ERF") and a scanner that unifies the
//! loose-override namespace with the archive-entry namespace and reports every
//! resource name provided by more than one source.

pub mod codec;
pub mod config;
pub mod erf;
pub mod scanner;
pub mod text;
