//! Application settings that outlive one scan: the conflicts the user chose
//! to ignore. Reading and writing them to disk is the caller's business.

use vstd::prelude::*;

use crate::scanner::Conflicts;

verus! {

/// Persisted settings: a conflict map of ignored findings, keyed like the
/// scanner's output.
#[derive(Debug)]
pub struct AppConfig {
    pub ignored: Conflicts,
}

impl Default for AppConfig {
    /// A fresh configuration ignores nothing.
    fn default() -> (r: AppConfig)
        ensures
            r.ignored.model().len() == 0,
    {
        AppConfig { ignored: Conflicts::new() }
    }
}

} // verus!
