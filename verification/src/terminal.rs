//! What a line read from the terminal means to the shell.

use crate::text::{collect_chars, string_from_chars, trim, trim_bounds};
use vstd::prelude::*;

verus! {

/// What reading one line gave.
#[derive(Debug, PartialEq)]
pub enum ReadResult {
    /// A line, without the whitespace around it.
    Line(String),
    /// Nothing at all, not even a line end.
    Empty,
}

/// The mathematical value of a [`ReadResult`].
pub enum ReadView {
    Line(Seq<char>),
    Empty,
}

impl View for ReadResult {
    type V = ReadView;

    open spec fn view(&self) -> ReadView {
        match self {
            ReadResult::Line(line) => ReadView::Line(line@),
            ReadResult::Empty => ReadView::Empty,
        }
    }
}

/// What the characters that were read mean: nothing if there are none,
/// otherwise a line, which is trimmed.
pub open spec fn read_view(input: Seq<char>) -> ReadView {
    if input.len() == 0 {
        ReadView::Empty
    } else {
        ReadView::Line(trim(input))
    }
}

/// Turns the characters that were read into a line for the shell.
pub fn interpret_input(input: &str) -> (r: ReadResult)
    ensures
        r@ == read_view(input@),
{
    let chars = collect_chars(input);
    if chars.len() == 0 {
        ReadResult::Empty
    } else {
        let (a, b) = trim_bounds(&chars);
        ReadResult::Line(string_from_chars(&chars, a, b))
    }
}

} // verus!
