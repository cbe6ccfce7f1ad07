//! Configuration of a run, resolved by the caller before any scanning.

use vstd::prelude::*;

verus! {

/// The options of one run. The caller fills them in (for instance from the
/// command line) and the library only reads them.
pub struct Opts {
    /// Path of the repository to scan.
    pub repo: String,
    /// Branch to crawl; the caller substitutes its default when absent.
    pub branch: Option<String>,
    /// Maximum number of commits to examine from the branch tip.
    pub depth: Option<usize>,
    /// Bug-fix indicator word list, e.g. "fixes,closed".
    pub words: Option<String>,
    /// Bug-fix indicator regular expression, e.g. "fix(es|ed)?".
    pub regex: Option<String>,
    /// Show the timestamp of each identified fix commit.
    pub display_timestamps: Option<bool>,
}

} // verus!
