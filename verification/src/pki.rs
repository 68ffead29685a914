//! The placement-index generation subcommand's data.
//!
//! Generating a placement index is the job of an external generator; the
//! library only carries the subcommand's arguments and the pack-group
//! settings that a configuration file declares.

use vstd::prelude::*;

verus! {

/// Command-line arguments of the placement-index subcommand.
pub struct Args {}

/// One pack group of the generator configuration: which directories and
/// files enter the archive, and whether its entries are compressed.
pub struct PackConfig {
    /// Force compression for every file of the group.
    pub compress: bool,
    /// Directories whose trees are added.
    pub dirs: Vec<String>,
    /// Single files (or hidden wildcard patterns) that are added.
    pub files: Vec<String>,
    /// Single files (or hidden wildcard patterns) that are removed again.
    pub exclude_files: Vec<String>,
    /// Directories whose trees are removed again.
    pub exclude_dirs: Vec<String>,
}

} // verus!
