//! The builtin `clear`.

use crate::shell_state::ShellState;
use vstd::prelude::*;
use vstd::string::StringExecFns;

verus! {

/// `clear`: succeeds with the escape sequence that resets a terminal.
pub fn run(shell_state: &mut ShellState)
    ensures
        final(shell_state)@ == old(shell_state)@.with_output(
            old(shell_state)@.output.success("\u{001b}c"@),
        ),
{
    shell_state.output.set_stdout(String::from_str("\u{001b}c"))
}

} // verus!
