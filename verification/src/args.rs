//! The first command line model: a command and a verbosity.
use vstd::prelude::*;

verus! {

/// What to do with the proxy configuration.
#[derive(Debug, Clone, PartialEq, Eq)]
pub enum Commands {
    /// Set the given proxy for all services.
    Add { proxy_url: String },
    /// Remove the proxy from all services.
    Remove,
    /// Report the proxy in use.
    Show,
}

/// The parsed command line: the command and the count of `-v` flags.
#[derive(Debug, Clone, PartialEq, Eq)]
pub struct Cli {
    pub command: Commands,
    pub verbosity: u8,
}

} // verus!
