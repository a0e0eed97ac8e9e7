//! Examples of use, as the help text shows them.

use vstd::prelude::*;

verus! {

/// One example: what it does, and the command line that does it.
pub struct Example {
    pub title: &'static str,
    pub cmd: &'static str,
}

impl Example {
    /// An example with the given title and command line.
    pub fn new(title: &'static str, cmd: &'static str) -> (e: Self)
        ensures
            e.title == title,
            e.cmd == cmd,
    {
        Self { title, cmd }
    }
}

} // verus!
