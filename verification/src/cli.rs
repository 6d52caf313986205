//! The command surface, as plain data: the caller parses arguments into
//! these types, and the conflict between the two gitignore flags is
//! resolved here, before any filesystem work.

use vstd::prelude::*;

verus! {

/// The parsed command line.
pub struct Cli {
    pub command: Commands,
}

/// The commands the tool offers.
pub enum Commands {
    /// Scaffolds a new project configuration.
    Init,
    /// Bundles project files into a single Markdown document.
    Bundle {
        /// File extensions to include; empty or absent means no filtering.
        filters: Option<Vec<String>>,
        /// Output filename, overriding the configuration.
        output: Option<String>,
        /// Forces gitignore rules on.
        use_gitignore: bool,
        /// Forces gitignore rules off.
        no_gitignore: bool,
    },
    /// Restores files from a bundle document, overwriting existing files.
    Restore {
        /// The document to restore from.
        input_file: Option<String>,
    },
}

/// Both gitignore flags were given at once: a fatal configuration error,
/// raised before any traversal.
#[derive(Debug)]
pub struct GitignoreFlagConflict;

/// The gitignore setting that applies: a force flag wins over the
/// configuration, and the configuration's absence means enabled.
pub open spec fn spec_effective_gitignore(
    cli_use: bool,
    cli_no: bool,
    config_setting: Option<bool>,
) -> bool {
    if cli_use {
        true
    } else if cli_no {
        false
    } else {
        match config_setting {
            Some(b) => b,
            None => true,
        }
    }
}

/// Resolves the two force flags against the configuration: giving both at
/// once is an error, and nothing else is.
pub fn resolve_use_gitignore(cli_use: bool, cli_no: bool, config_setting: Option<bool>) -> (r:
    Result<bool, GitignoreFlagConflict>)
    ensures
        r is Err <==> (cli_use && cli_no),
        !(cli_use && cli_no) ==> r == Ok::<bool, GitignoreFlagConflict>(
            spec_effective_gitignore(cli_use, cli_no, config_setting),
        ),
{
    if cli_use && cli_no {
        Err(GitignoreFlagConflict)
    } else if cli_use {
        Ok(true)
    } else if cli_no {
        Ok(false)
    } else {
        match config_setting {
            Some(b) => Ok(b),
            None => Ok(true),
        }
    }
}

} // verus!
