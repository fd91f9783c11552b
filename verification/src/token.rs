//! Tokens and the line lexer.

use crate::lexing::{all_raw_trimmed, lemma_tokenize_raw_trimmed};
use crate::text::{collect_chars, string_from_chars, trim, trim_bounds};
use vstd::prelude::*;
use vstd::string::StringExecFns;

verus! {

/// One lexical unit of a command line.
#[derive(Debug, PartialEq)]
pub enum Token {
    /// `||`
    Or,
    /// `&&`
    And,
    /// `;`
    Semicolon,
    /// `&`
    Async,
    /// `|`
    Pipeline,
    /// A command with its arguments, not yet split into words.
    Raw(String),
}

/// The mathematical value of a [`Token`].
pub enum TokenView {
    Or,
    And,
    Semicolon,
    Async,
    Pipeline,
    Raw(Seq<char>),
}

impl View for Token {
    type V = TokenView;

    open spec fn view(&self) -> TokenView {
        match self {
            Token::Or => TokenView::Or,
            Token::And => TokenView::And,
            Token::Semicolon => TokenView::Semicolon,
            Token::Async => TokenView::Async,
            Token::Pipeline => TokenView::Pipeline,
            Token::Raw(text) => TokenView::Raw(text@),
        }
    }
}

impl DeepView for Token {
    type V = TokenView;

    open spec fn deep_view(&self) -> TokenView {
        self@
    }
}

impl Clone for Token {
    fn clone(&self) -> (copy: Token)
        ensures
            copy@ == self@,
    {
        match self {
            Token::Or => Token::Or,
            Token::And => Token::And,
            Token::Semicolon => Token::Semicolon,
            Token::Async => Token::Async,
            Token::Pipeline => Token::Pipeline,
            Token::Raw(text) => Token::Raw(text.clone()),
        }
    }
}

impl TokenView {
    /// The token as it is written in a command line.
    pub open spec fn text(self) -> Seq<char> {
        match self {
            TokenView::Or => "||"@,
            TokenView::And => "&&"@,
            TokenView::Semicolon => ";"@,
            TokenView::Async => "&"@,
            TokenView::Pipeline => "|"@,
            TokenView::Raw(text) => text,
        }
    }
}

impl Token {
    /// The token as it is written in a command line.
    pub fn to_text(&self) -> (text: String)
        ensures
            text@ == self@.text(),
    {
        match self {
            Token::Or => String::from_str("||"),
            Token::And => String::from_str("&&"),
            Token::Semicolon => String::from_str(";"),
            Token::Async => String::from_str("&"),
            Token::Pipeline => String::from_str("|"),
            Token::Raw(text) => text.clone(),
        }
    }

    /// Whether two tokens are the same token.
    pub fn same_as(&self, other: &Token) -> (same: bool)
        ensures
            same == (self@ == other@),
    {
        match self {
            Token::Or => match other {
                Token::Or => true,
                _ => false,
            },
            Token::And => match other {
                Token::And => true,
                _ => false,
            },
            Token::Semicolon => match other {
                Token::Semicolon => true,
                _ => false,
            },
            Token::Async => match other {
                Token::Async => true,
                _ => false,
            },
            Token::Pipeline => match other {
                Token::Pipeline => true,
                _ => false,
            },
            Token::Raw(a) => match other {
                Token::Raw(b) => *a == *b,
                _ => false,
            },
        }
    }
}

/// The characters that open and close a quoted region.
pub open spec fn is_quote_char(c: char) -> bool {
    c == '\'' || c == '"' || c == '`'
}

/// Whether `c` opens or closes a quoted region.
pub fn is_escaper(c: char) -> (r: bool)
    ensures
        r == is_quote_char(c),
{
    c == '\'' || c == '"' || c == '`'
}

/// The token that pending text turns into: its trimmed form as one `Raw`
/// token, or nothing when only whitespace is pending.
pub open spec fn flush(pending: Seq<char>) -> Seq<TokenView> {
    if trim(pending).len() == 0 {
        Seq::empty()
    } else {
        seq![TokenView::Raw(trim(pending))]
    }
}

/// The operator token for `&` or `|`, single or doubled.
pub open spec fn operator_token(c: char, doubled: bool) -> TokenView {
    if c == '&' {
        if doubled {
            TokenView::And
        } else {
            TokenView::Async
        }
    } else {
        if doubled {
            TokenView::Or
        } else {
            TokenView::Pipeline
        }
    }
}

/// The tokens that the rest of `line` from position `i` yields, given the text
/// pending so far and the quote that is open, if any.
///
/// Inside a quoted region every character is kept until the same quote comes
/// again. Outside, `#` ends the line, a backslash keeps the character after it
/// and is itself dropped, `;` `&` `|` end the pending text and become operator
/// tokens (a doubled `&` or `|` is one token), and a quote opens a region.
/// With `split_single` off, a single `&` or `|` is an ordinary character.
pub open spec fn lex_from(
    line: Seq<char>,
    i: int,
    pending: Seq<char>,
    quote: Option<char>,
    split_single: bool,
) -> Seq<TokenView>
    decreases line.len() - i,
{
    if i < 0 || i >= line.len() {
        flush(pending)
    } else {
        let c = line[i];
        let doubled = i + 1 < line.len() && line[i + 1] == c;
        if let Some(q) = quote {
            lex_from(line, i + 1, pending.push(c), if c == q { None } else { quote }, split_single)
        } else if c == '#' {
            flush(pending)
        } else if c == '\\' {
            if i + 1 < line.len() {
                lex_from(line, i + 2, pending.push(line[i + 1]), None, split_single)
            } else {
                flush(pending)
            }
        } else if c == ';' {
            flush(pending) + seq![TokenView::Semicolon] + lex_from(
                line,
                i + 1,
                Seq::empty(),
                None,
                split_single,
            )
        } else if (c == '&' || c == '|') && (doubled || split_single) {
            flush(pending) + seq![operator_token(c, doubled)] + lex_from(
                line,
                if doubled { i + 2 } else { i + 1 },
                Seq::empty(),
                None,
                split_single,
            )
        } else {
            lex_from(
                line,
                i + 1,
                pending.push(c),
                if is_quote_char(c) { Some(c) } else { None },
                split_single,
            )
        }
    }
}

/// The tokens of a whole line.
pub open spec fn tokenize(line: Seq<char>) -> Seq<TokenView> {
    lex_from(line, 0, Seq::empty(), None, true)
}

/// Ends the pending text: appends its trimmed form to `tokens` as a `Raw`
/// token unless nothing but whitespace is pending.
fn push_pending(tokens: &mut Vec<Token>, pending: &Vec<char>)
    ensures
        final(tokens).deep_view() == old(tokens).deep_view() + flush(pending@),
{
    let (a, b) = trim_bounds(pending);
    if a < b {
        let text = string_from_chars(pending, a, b);
        tokens.push(Token::Raw(text));
        assert(tokens.deep_view() =~= old(tokens).deep_view() + flush(pending@));
    } else {
        assert(tokens.deep_view() =~= old(tokens).deep_view() + flush(pending@));
    }
}

/// Appends an operator token.
fn push_operator(tokens: &mut Vec<Token>, token: Token)
    ensures
        final(tokens).deep_view() == old(tokens).deep_view() + seq![token@],
{
    tokens.push(token);
    assert(tokens.deep_view() =~= old(tokens).deep_view() + seq![token@]);
}

/// One left-to-right scan of `line` with one character of lookahead.
pub(crate) fn lex_line(line: &str, split_single: bool) -> (tokens: Vec<Token>)
    ensures
        tokens.deep_view() == lex_from(line@, 0, Seq::empty(), None, split_single),
{
    let chars = collect_chars(line);
    let n = chars.len();
    let mut tokens: Vec<Token> = Vec::new();
    let mut pending: Vec<char> = Vec::new();
    let mut quote: Option<char> = None;
    let mut i: usize = 0;
    assert(tokens.deep_view() =~= Seq::<TokenView>::empty());
    while i < n
        invariant
            i <= n,
            n == chars.len(),
            chars@ == line@,
            tokens.deep_view() + lex_from(line@, i as int, pending@, quote, split_single)
                == lex_from(line@, 0, Seq::empty(), None, split_single),
        decreases n - i,
    {
        let c = chars[i];
        let doubled = i + 1 < n && chars[i + 1] == c;
        let ghost before = tokens.deep_view();
        let ghost rest = lex_from(line@, i as int, pending@, quote, split_single);
        if let Some(q) = quote {
            pending.push(c);
            if c == q {
                quote = None;
            }
            i += 1;
        } else if c == '#' {
            i = n;
        } else if c == '\\' {
            if i + 1 < n {
                pending.push(chars[i + 1]);
                i += 2;
            } else {
                i = n;
            }
        } else if c == ';' {
            push_pending(&mut tokens, &pending);
            push_operator(&mut tokens, Token::Semicolon);
            pending = Vec::new();
            i += 1;
            assert(tokens.deep_view() + lex_from(line@, i as int, pending@, quote, split_single)
                =~= before + rest);
        } else if (c == '&' || c == '|') && (doubled || split_single) {
            push_pending(&mut tokens, &pending);
            let token = if c == '&' {
                if doubled {
                    Token::And
                } else {
                    Token::Async
                }
            } else {
                if doubled {
                    Token::Or
                } else {
                    Token::Pipeline
                }
            };
            push_operator(&mut tokens, token);
            pending = Vec::new();
            if doubled {
                i += 2;
            } else {
                i += 1;
            }
            assert(tokens.deep_view() + lex_from(line@, i as int, pending@, quote, split_single)
                =~= before + rest);
        } else {
            pending.push(c);
            if is_escaper(c) {
                quote = Some(c);
            }
            i += 1;
        }
    }
    push_pending(&mut tokens, &pending);
    tokens
}

/// Turns one raw line into its tokens, in input order.
pub fn tokenize_raw_line(line: &String) -> (tokens: Vec<Token>)
    ensures
        tokens.deep_view() == tokenize(line@),
        all_raw_trimmed(tokens.deep_view()),
{
    proof {
        lemma_tokenize_raw_trimmed(line@);
    }
    lex_line(line.as_str(), true)
}

/// The tokens of a line in which a single `&` or `|` is no operator: only
/// `;`, `&&` and `||` end a command.
pub open spec fn tokenize_commands(line: Seq<char>) -> Seq<TokenView> {
    lex_from(line, 0, Seq::empty(), None, false)
}

/// The tokens as they are written.
pub open spec fn texts(tokens: Seq<TokenView>) -> Seq<Seq<char>> {
    tokens.map_values(|t: TokenView| t.text())
}

/// Writes every token as text.
fn tokens_to_texts(tokens: &Vec<Token>) -> (out: Vec<String>)
    ensures
        out.deep_view() == texts(tokens.deep_view()),
{
    let mut out: Vec<String> = Vec::new();
    let mut i: usize = 0;
    while i < tokens.len()
        invariant
            i <= tokens.len(),
            out.deep_view() =~= texts(tokens.deep_view()).take(i as int),
        decreases tokens.len() - i,
    {
        let ghost before = out.deep_view();
        out.push(tokens[i].to_text());
        i += 1;
        assert(out.deep_view() =~= before.push(texts(tokens.deep_view())[i - 1]));
        assert(texts(tokens.deep_view()).take(i as int) =~= texts(tokens.deep_view()).take(
            i - 1,
        ).push(texts(tokens.deep_view())[i - 1]));
    }
    assert(out.deep_view() =~= texts(tokens.deep_view()));
    out
}

/// Turns one raw line into its tokens, each written as text.
pub fn tokenize_command(line: &String) -> (out: Vec<String>)
    ensures
        out.deep_view() == texts(tokenize(line@)),
{
    tokens_to_texts(&lex_line(line.as_str(), true))
}

/// Cuts one raw line into commands and the operators `;`, `&&` and `||`
/// between them, each written as text. A single `&` or `|` stays part of
/// its command.
pub fn line_to_cmds(line: &String) -> (out: Vec<String>)
    ensures
        out.deep_view() == texts(tokenize_commands(line@)),
{
    tokens_to_texts(&lex_line(line.as_str(), false))
}

/// Whether the tokens hold an `&`, which this shell does not run.
pub fn contains_unsupported_async_token(tokens: &Vec<Token>) -> (found: bool)
    ensures
        found == tokens.deep_view().contains(TokenView::Async),
{
    let mut i: usize = 0;
    while i < tokens.len()
        invariant
            i <= tokens.len(),
            forall|k: int| 0 <= k < i ==> tokens.deep_view()[k] != TokenView::Async,
        decreases tokens.len() - i,
    {
        if let Token::Async = tokens[i] {
            assert(tokens.deep_view()[i as int] == TokenView::Async);
            return true;
        }
        i += 1;
    }
    false
}

} // verus!
