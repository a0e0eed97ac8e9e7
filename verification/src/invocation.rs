//! What a run does, given how it was started.

use vstd::prelude::*;

verus! {

/// What a run does.
#[derive(Clone, Copy, Debug, PartialEq, Eq)]
pub enum Action {
    /// Show the help text and end.
    ShowHelp,
    /// Take the paths from standard input, one on each line.
    ReadStandardInput,
    /// Take the paths from the command line.
    UseArguments,
}

/// What a run does: it shows the help text where that was asked for or where
/// the command line names no path; else it takes the paths from standard
/// input where something was piped in, and from the command line otherwise.
pub open spec fn action_for(help: bool, paths: nat, piped: bool) -> Action {
    if help || paths == 0 {
        Action::ShowHelp
    } else if piped {
        Action::ReadStandardInput
    } else {
        Action::UseArguments
    }
}

/// Decides what a run does. `help` says whether help was asked for, `paths`
/// how many paths the command line names, and `piped` whether standard input
/// is something other than a terminal.
pub fn choose_action(help: bool, paths: usize, piped: bool) -> (action: Action)
    ensures
        action == action_for(help, paths as nat, piped),
{
    if help || paths == 0 {
        Action::ShowHelp
    } else if piped {
        Action::ReadStandardInput
    } else {
        Action::UseArguments
    }
}

} // verus!
