//! The builtin `echo`.

use crate::command::Command;
use crate::shell_state::ShellState;
use crate::text::{join, join_strings};
use vstd::prelude::*;

verus! {

/// `echo`: succeeds with its arguments, one blank between neighbours.
pub fn run(cmd: &Command, shell_state: &mut ShellState)
    ensures
        final(shell_state)@ == old(shell_state)@.with_output(
            old(shell_state)@.output.success(join(cmd@.args, " "@)),
        ),
{
    shell_state.output.set_stdout(join_strings(&cmd.args, " "));
}

} // verus!
