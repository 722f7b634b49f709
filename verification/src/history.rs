//! Options of the history command. The command itself walks installation
//! directories, reads cache files and prints or opens URLs; those effects
//! live with the caller, which hands the cache bytes to the extractor.

use vstd::prelude::*;

verus! {

/// Options for listing the cached draw-history URLs of a game installation.
pub struct HistoryArgs {
    /// Path to the game installation.
    pub game_path: String,
    /// Return URLs in reversed order (oldest first instead of most recent
    /// first).
    pub reverse_order: bool,
    /// Open the first URL of the returned list.
    pub open_first_url: bool,
    /// Greatest number of URLs to return.
    pub max_return_num: usize,
}

} // verus!
