//! The grammar errors that parsing reports.

use crate::token::{Token, TokenView};
use vstd::prelude::*;

verus! {

/// Why a token sequence is not a command line of this shell.
#[derive(Debug, PartialEq)]
pub enum Exception {
    /// An `&` was found: running in the background is not supported.
    AsyncIsUnSupported,
    /// A raw token without a single word.
    CommandHasNoCharacters,
    /// An operator that lacks an operand on one of its sides.
    TokenCannotBeParsed(Token),
    /// What is left after all operators is not one single command; the text
    /// names the tokens that are left.
    TokensCannotBeParsed(String),
    /// A token other than `&&` and `||` where a logical operator was asked for.
    TokenIsNotALogicalExpr(String),
    /// A token other than raw text where a command was asked for.
    ConversionNotImplemented(String),
}

/// The mathematical value of an [`Exception`].
pub enum ExceptionView {
    AsyncIsUnSupported,
    CommandHasNoCharacters,
    TokenCannotBeParsed(TokenView),
    TokensCannotBeParsed(Seq<char>),
    TokenIsNotALogicalExpr(Seq<char>),
    ConversionNotImplemented(Seq<char>),
}

impl View for Exception {
    type V = ExceptionView;

    open spec fn view(&self) -> ExceptionView {
        match self {
            Exception::AsyncIsUnSupported => ExceptionView::AsyncIsUnSupported,
            Exception::CommandHasNoCharacters => ExceptionView::CommandHasNoCharacters,
            Exception::TokenCannotBeParsed(token) => ExceptionView::TokenCannotBeParsed(token@),
            Exception::TokensCannotBeParsed(text) => ExceptionView::TokensCannotBeParsed(text@),
            Exception::TokenIsNotALogicalExpr(text) => ExceptionView::TokenIsNotALogicalExpr(text@),
            Exception::ConversionNotImplemented(text) => ExceptionView::ConversionNotImplemented(
                text@,
            ),
        }
    }
}

} // verus!
