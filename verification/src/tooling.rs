//! Plain data of the command line tools.
use vstd::prelude::*;

verus! {

/// The directories of a project being built.
pub struct ProjectDirs {
    pub root_dir: String,
    pub out_dir: String,
}

/// The commands of the assets builder.
pub enum CliCommands {
    /// Build sources into assets: all of them, or the listed sources.
    Build { all: bool, source: Vec<String> },
    /// List known source files and their source id.
    Sources,
    /// List known assets and information about them.
    Assets,
}

} // verus!
