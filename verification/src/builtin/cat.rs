//! The builtin `cat`.

use crate::command::Command;
use crate::shell_state::ShellState;
use vstd::prelude::*;
use vstd::string::StringExecFns;

verus! {

/// `cat`: reads no file yet and always fails with status 1.
pub fn run(_cmd: &Command, shell_state: &mut ShellState)
    ensures
        final(shell_state)@ == old(shell_state)@.with_output(
            old(shell_state)@.output.failure(1, "Some error"@),
        ),
{
    shell_state.output.set_stderr(1, String::from_str("Some error"));
}

} // verus!
