//! The command-line surface, shorn of I/O: the plain argument form and
//! the decision of what one invocation does.  The embedding program
//! parses the real command line into `Args`, asks `plan_run`, and carries
//! the chosen action out.

use vstd::prelude::*;

verus! {

/// Subcommands of the command line.
#[derive(Debug, Clone, Copy)]
pub enum Commands {
    /// Open the graphical interface.
    Gui,
}

/// One invocation's arguments.
#[derive(Debug)]
pub struct Args {
    /// An explicit subcommand, if any.
    pub command: Option<Commands>,
    /// Open the persisted catalogue in an editor.
    pub config: bool,
    /// Names to open; with none given, the catalogue is printed.
    pub links: Vec<String>,
}

/// What one invocation does.
#[derive(Debug, Clone, Copy, PartialEq, Eq, Structural)]
pub enum RunAction {
    /// Open the graphical interface.
    LaunchGui,
    /// Open the persisted catalogue in an editor.
    EditConfigFile,
    /// Print the catalogue.
    ShowConfig,
    /// Resolve and open the named links and groups.
    OpenLinks,
}

/// Decide what an invocation does: a subcommand wins, then the config
/// flag, then opening the named links; with nothing asked for, the
/// catalogue is printed.
pub fn plan_run(args: &Args) -> (r: RunAction)
    ensures
        args.command is Some ==> r == RunAction::LaunchGui,
        args.command is None && args.config ==> r == RunAction::EditConfigFile,
        args.command is None && !args.config && args.links@.len() == 0 ==> r
            == RunAction::ShowConfig,
        args.command is None && !args.config && args.links@.len() > 0 ==> r
            == RunAction::OpenLinks,
{
    match &args.command {
        Some(_) => RunAction::LaunchGui,
        None => if args.config {
            RunAction::EditConfigFile
        } else if args.links.len() == 0 {
            RunAction::ShowConfig
        } else {
            RunAction::OpenLinks
        },
    }
}

} // verus!
