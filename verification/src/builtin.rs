//! The table of builtin commands and their dispatch.

use crate::command::{Command, CommandView};
use crate::history::{history_effect, run as run_history};
use crate::shell_state::{ShellState, StateView};
use crate::text::join;
use vstd::prelude::*;
use vstd::string::StringExecFns;

pub mod bools;
pub mod cat;
pub mod clear;
pub mod echo;

verus! {

/// The keywords that this shell knows.
#[derive(Debug, PartialEq, Eq, Structural, Clone, Copy)]
pub enum BuiltinCommands {
    Echo,
    History,
    Cd,
    Pwd,
    Clear,
    Cat,
    False,
    True,
}

/// The builtin that a keyword names, if it names one.
pub open spec fn builtin_of(keyword: Seq<char>) -> Option<BuiltinCommands> {
    if keyword == "echo"@ {
        Some(BuiltinCommands::Echo)
    } else if keyword == "history"@ {
        Some(BuiltinCommands::History)
    } else if keyword == "cd"@ {
        Some(BuiltinCommands::Cd)
    } else if keyword == "pwd"@ {
        Some(BuiltinCommands::Pwd)
    } else if keyword == "clear"@ {
        Some(BuiltinCommands::Clear)
    } else if keyword == "cat"@ {
        Some(BuiltinCommands::Cat)
    } else if keyword == "false"@ {
        Some(BuiltinCommands::False)
    } else if keyword == "true"@ {
        Some(BuiltinCommands::True)
    } else {
        None
    }
}

/// Whether two texts are the same.
fn same_text(a: &str, b: &str) -> (same: bool)
    ensures
        same == (a@ == b@),
{
    String::from_str(a) == String::from_str(b)
}

impl BuiltinCommands {
    /// Looks a keyword up in the table. Fails exactly when it names no builtin.
    pub fn from_str(s: &str) -> (r: Result<BuiltinCommands, ()>)
        ensures
            match r {
                Ok(builtin) => builtin_of(s@) == Some(builtin),
                Err(_) => builtin_of(s@) is None,
            },
    {
        if same_text(s, "echo") {
            Ok(BuiltinCommands::Echo)
        } else if same_text(s, "history") {
            Ok(BuiltinCommands::History)
        } else if same_text(s, "cd") {
            Ok(BuiltinCommands::Cd)
        } else if same_text(s, "pwd") {
            Ok(BuiltinCommands::Pwd)
        } else if same_text(s, "clear") {
            Ok(BuiltinCommands::Clear)
        } else if same_text(s, "cat") {
            Ok(BuiltinCommands::Cat)
        } else if same_text(s, "false") {
            Ok(BuiltinCommands::False)
        } else if same_text(s, "true") {
            Ok(BuiltinCommands::True)
        } else {
            Err(())
        }
    }
}

/// The state that a builtin leaves when it runs `cmd` in state `st`, or
/// `None` when the keyword names nothing that can run.
pub open spec fn dispatch(cmd: CommandView, st: StateView) -> Option<StateView> {
    match builtin_of(cmd.keyword) {
        Some(BuiltinCommands::Echo) => Some(
            st.with_output(st.output.success(join(cmd.args, " "@))),
        ),
        Some(BuiltinCommands::History) => Some(history_effect(st)),
        Some(BuiltinCommands::Clear) => Some(st.with_output(st.output.success("\u{001b}c"@))),
        Some(BuiltinCommands::Cat) => Some(st.with_output(st.output.failure(1, "Some error"@))),
        Some(BuiltinCommands::False) => Some(st.with_output(st.output.with_code(1))),
        Some(BuiltinCommands::True) => Some(st.with_output(st.output.with_code(0))),
        _ => None,
    }
}

/// Runs the builtin that `cmd` names. Fails, and leaves the state as it was,
/// exactly when there is none to run.
pub fn evaluate(cmd: &Command, shell_state: &mut ShellState) -> (r: Result<(), ()>)
    ensures
        match dispatch(cmd@, old(shell_state)@) {
            Some(st) => r is Ok && final(shell_state)@ == st,
            None => r is Err && final(shell_state)@ == old(shell_state)@,
        },
{
    match BuiltinCommands::from_str(cmd.keyword.as_str()) {
        Ok(BuiltinCommands::Echo) => Ok(echo::run(cmd, shell_state)),
        Ok(BuiltinCommands::History) => Ok(run_history(shell_state)),
        Ok(BuiltinCommands::Clear) => Ok(clear::run(shell_state)),
        Ok(BuiltinCommands::Cat) => Ok(cat::run(cmd, shell_state)),
        Ok(BuiltinCommands::False) => Ok(bools::false_builtin(shell_state)),
        Ok(BuiltinCommands::True) => Ok(bools::true_builtin(shell_state)),
        _ => Err(()),
    }
}

} // verus!
