//! What a run is configured with.
use vstd::prelude::*;

verus! {

/// The settings of a run. Paths are held as text.
pub struct Config {
    pub input_dirs: Vec<String>,
    pub include_globs: Option<Vec<String>>,
    pub exclude_globs: Option<Vec<String>>,
    pub include_extensions: Option<Vec<String>>,
    pub exclude_extensions: Option<Vec<String>>,
    pub output: String,
    pub comment_str: String,
    pub file_separator_str: String,
    pub file_end_str: String,
    pub verbose: bool,
    pub dry_run: bool,
    pub include_node_prefixes: Option<Vec<String>>,
    pub exclude_node_prefixes: Option<Vec<String>>,
    pub include_hidden: bool,
    /// The layers, in the order in which they are emitted.
    pub layers: Vec<String>,
    /// The layer of a node whose header declares none.
    pub fallback_layer: String,
    /// Only files under this directory, and what they require, are emitted.
    pub subdir_filter: Option<String>,
}

} // verus!
