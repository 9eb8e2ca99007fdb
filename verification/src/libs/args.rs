//! Command line model: which services to act on, and what to do with their proxy.
use vstd::prelude::*;

verus! {

/// What to do with the proxy configuration of the managed services.
#[derive(Debug, Clone, PartialEq, Eq)]
pub enum Commands {
    /// Set the given proxy for every managed service.
    Add { proxy_url: String },
    /// Remove the proxy from every managed service.
    Remove,
    /// Report the proxy in use.
    Show,
}

/// The parsed command line: the command, the log verbosity and the selected services.
#[derive(Debug, Clone, PartialEq, Eq)]
pub struct Cli {
    pub command: Commands,
    pub verbosity: u8,
    pub all: bool,
    pub apt: bool,
    pub docker: bool,
    pub environment: bool,
    pub vscode: bool,
}

/// The text by which a command is shown to the user.
pub open spec fn command_text(c: Commands) -> Seq<char> {
    match c {
        Commands::Add { proxy_url } => "Add (url: "@ + proxy_url@ + ")"@,
        Commands::Remove => "Remove"@,
        Commands::Show => "Show"@,
    }
}

impl Commands {
    /// The text by which the command is shown: `Add (url: <url>)`, `Remove` or `Show`.
    pub fn to_string(&self) -> (r: String)
        ensures
            r@ == command_text(*self),
    {
        match self {
            Commands::Add { proxy_url } => {
                let mut s = String::from_str("Add (url: ");
                s.append(proxy_url.as_str());
                s.append(")");
                s
            },
            Commands::Remove => String::from_str("Remove"),
            Commands::Show => String::from_str("Show"),
        }
    }
}

} // verus!
