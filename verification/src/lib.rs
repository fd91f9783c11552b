//! The core of a small shell: a line becomes tokens, tokens become a command
//! tree, and the tree is evaluated against a shell state.
//!
//! - [`token`] holds the tokens and the lexer, [`lexing`] what the lexer does
//!   with blanks, quotes and comments.
//! - [`ast`] holds the command tree and the parser, [`grammar`] what the
//!   parser does at each level of precedence.
//! - [`executor`] evaluates trees, token sequences and whole lines;
//!   [`agreement`] shows that the two ways of evaluating agree.
//! - [`builtin`] is the table of commands, [`history`] the history log,
//!   [`shell_state`] the state that all of them work on.
//! - [`text`], [`decimal`], [`command`], [`exception`] and [`terminal`] hold
//!   what the others share.

pub mod agreement;
pub mod ast;
pub mod builtin;
pub mod command;
pub mod decimal;
pub mod exception;
pub mod executor;
pub mod grammar;
pub mod history;
pub mod lexing;
pub mod shell_state;
pub mod terminal;
pub mod text;
pub mod token;
