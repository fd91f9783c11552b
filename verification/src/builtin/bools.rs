//! The builtins `true` and `false`.

use crate::shell_state::ShellState;
use vstd::prelude::*;

verus! {

/// `false`: sets status 1 and leaves the texts as they are.
pub fn false_builtin(shell_state: &mut ShellState)
    ensures
        final(shell_state)@ == old(shell_state)@.with_output(old(shell_state)@.output.with_code(1)),
{
    shell_state.output.code = Some(1);
}

/// `true`: sets status 0 and leaves the texts as they are.
pub fn true_builtin(shell_state: &mut ShellState)
    ensures
        final(shell_state)@ == old(shell_state)@.with_output(old(shell_state)@.output.with_code(0)),
{
    shell_state.output.code = Some(0);
}

} // verus!
