//! How a writer uses memory and disk.

use std::path::PathBuf;
use vstd::prelude::*;

verus! {

/// `std::path::PathBuf`, a path of the file system. It is carried and never
/// looked into.
#[verifier::external_type_specification]
#[verifier::external_body]
pub struct ExPathBuf(PathBuf);

/// How much a writer may keep in memory, and where the rest goes.
#[derive(Clone, Debug)]
pub struct WriterOptions {
    /// The number of bytes of point records that may be held in memory.
    pub memory_budget_bytes: u64,
    /// The directory for what does not fit; the writer picks one where none is given.
    pub temp_dir: Option<PathBuf>,
}

impl Default for WriterOptions {
    /// Four gibibytes of memory, and no directory chosen.
    fn default() -> (res: WriterOptions)
        ensures
            res.memory_budget_bytes == 4 * 1024 * 1024 * 1024,
            res.temp_dir is None,
    {
        WriterOptions { memory_budget_bytes: 4 * 1024 * 1024 * 1024, temp_dir: None }
    }
}

} // verus!
