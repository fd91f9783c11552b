//! A command: a keyword and its arguments.

use crate::text::{split_whitespace, words};
use vstd::prelude::*;

verus! {

/// A keyword with its arguments, in order.
#[derive(Debug, PartialEq, Default)]
pub struct Command {
    pub keyword: String,
    pub args: Vec<String>,
}

/// The mathematical value of a [`Command`].
pub struct CommandView {
    pub keyword: Seq<char>,
    pub args: Seq<Seq<char>>,
}

impl View for Command {
    type V = CommandView;

    open spec fn view(&self) -> CommandView {
        CommandView { keyword: self.keyword@, args: self.args.deep_view() }
    }
}

/// The command that `text` spells: its first word is the keyword, the other
/// words are the arguments. A text without words spells none.
pub open spec fn command_of(text: Seq<char>) -> Option<CommandView> {
    let w = words(text);
    if w.len() == 0 {
        None
    } else {
        Some(CommandView { keyword: w[0], args: w.drop_first() })
    }
}

/// Takes the first word off a list of words.
pub fn split_first_word(all: Vec<String>) -> (r: Option<(String, Vec<String>)>)
    ensures
        all.len() == 0 <==> r is None,
        r matches Some((first, rest)) ==> first@ == all.deep_view()[0] && rest.deep_view()
            == all.deep_view().drop_first(),
{
    let mut all = all;
    let ghost before = all.deep_view();
    if all.len() == 0 {
        None
    } else {
        let first = all.remove(0);
        assert(all.deep_view() =~= before.drop_first());
        Some((first, all))
    }
}

impl Command {
    /// Reads a command from its text. Fails exactly when the text has no word.
    pub fn from_str(s: &str) -> (r: Result<Command, ()>)
        ensures
            match r {
                Ok(cmd) => command_of(s@) == Some(cmd@),
                Err(_) => command_of(s@) is None,
            },
    {
        match split_first_word(split_whitespace(s)) {
            Some((keyword, args)) => Ok(Command { keyword, args }),
            None => Err(()),
        }
    }

    /// Reads a command from its text, as [`Command::from_str`] does.
    pub fn try_from(s: &String) -> (r: Result<Command, ()>)
        ensures
            match r {
                Ok(cmd) => command_of(s@) == Some(cmd@),
                Err(_) => command_of(s@) is None,
            },
    {
        Command::from_str(s.as_str())
    }
}

} // verus!
