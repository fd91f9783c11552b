//! What the lexer does with blanks, quotes and comments.

use crate::text::{
    is_blank, is_whitespace, leading_ws, lemma_trim_blank, lemma_trim_padded, lemma_trim_parts,
    lemma_trim_shape, trailing_ws, trim,
};
use crate::token::{
    flush, is_quote_char, lex_from, operator_token, tokenize, tokenize_commands, TokenView,
};
use vstd::prelude::*;

verus! {

/// A character that means nothing to the lexer outside quotes: it is kept
/// as it is.
pub open spec fn is_plain(c: char) -> bool {
    c != '#' && c != '\\' && c != ';' && c != '&' && c != '|' && !is_quote_char(c)
}

/// Whether every character of `s` is plain.
pub open spec fn all_plain(s: Seq<char>) -> bool {
    forall|i: int| 0 <= i < s.len() ==> is_plain(#[trigger] s[i])
}

/// Whitespace is plain.
pub proof fn lemma_blank_is_plain(s: Seq<char>)
    requires
        is_blank(s),
    ensures
        all_plain(s),
{
    assert forall|i: int| 0 <= i < s.len() implies is_plain(#[trigger] s[i]) by {
        assert(is_whitespace(s[i]));
    }
}

/// Outside quotes, a stretch of plain characters is added to the pending
/// text as it is.
pub proof fn lemma_lex_plain_run(
    line: Seq<char>,
    i: int,
    j: int,
    pending: Seq<char>,
    split_single: bool,
)
    requires
        0 <= i <= j <= line.len(),
        forall|k: int| i <= k < j ==> is_plain(#[trigger] line[k]),
    ensures
        lex_from(line, i, pending, None, split_single) == lex_from(
            line,
            j,
            pending + line.subrange(i, j),
            None,
            split_single,
        ),
    decreases j - i,
{
    if i < j {
        assert(is_plain(line[i]));
        lemma_lex_plain_run(line, i + 1, j, pending.push(line[i]), split_single);
        assert(pending.push(line[i]) + line.subrange(i + 1, j) =~= pending + line.subrange(i, j));
    } else {
        assert(pending + line.subrange(i, j) =~= pending);
    }
}

/// Inside quotes, every character up to the closing quote is added to the
/// pending text as it is.
pub proof fn lemma_lex_quoted_run(
    line: Seq<char>,
    i: int,
    j: int,
    pending: Seq<char>,
    quote: char,
    split_single: bool,
)
    requires
        0 <= i <= j <= line.len(),
        forall|k: int| i <= k < j ==> #[trigger] line[k] != quote,
    ensures
        lex_from(line, i, pending, Some(quote), split_single) == lex_from(
            line,
            j,
            pending + line.subrange(i, j),
            Some(quote),
            split_single,
        ),
    decreases j - i,
{
    if i < j {
        assert(line[i] != quote);
        lemma_lex_quoted_run(line, i + 1, j, pending.push(line[i]), quote, split_single);
        assert(pending.push(line[i]) + line.subrange(i + 1, j) =~= pending + line.subrange(i, j));
    } else {
        assert(pending + line.subrange(i, j) =~= pending);
    }
}

/// Quotes hide operators: a quoted stretch, whatever it holds but its own
/// quote, with plain text before and after it, is one raw token that holds
/// all of it, trimmed.
pub proof fn lemma_quotes_hide_operators(
    before: Seq<char>,
    quote: char,
    body: Seq<char>,
    after: Seq<char>,
)
    requires
        is_quote_char(quote),
        all_plain(before),
        forall|k: int| 0 <= k < body.len() ==> #[trigger] body[k] != quote,
        all_plain(after),
    ensures
        tokenize(before + seq![quote] + body + seq![quote] + after) == seq![
            TokenView::Raw(trim(before + seq![quote] + body + seq![quote] + after)),
        ],
{
    let line = before + seq![quote] + body + seq![quote] + after;
    let open = before.len() as int;
    let close = open + 1 + body.len();
    let end = line.len() as int;
    assert forall|k: int| 0 <= k < open implies is_plain(#[trigger] line[k]) by {
        assert(line[k] == before[k]);
    }
    lemma_lex_plain_run(line, 0, open, Seq::empty(), true);
    assert(line[open] == quote);
    let p1 = Seq::<char>::empty() + line.subrange(0, open);
    assert(lex_from(line, open, p1, None, true) == lex_from(
        line,
        open + 1,
        p1.push(quote),
        Some(quote),
        true,
    ));
    assert forall|k: int| open + 1 <= k < close implies #[trigger] line[k] != quote by {
        assert(line[k] == body[k - open - 1]);
    }
    lemma_lex_quoted_run(line, open + 1, close, p1.push(quote), quote, true);
    let p2 = p1.push(quote) + line.subrange(open + 1, close);
    assert(line[close] == quote);
    assert(lex_from(line, close, p2, Some(quote), true) == lex_from(
        line,
        close + 1,
        p2.push(quote),
        None,
        true,
    ));
    assert forall|k: int| close + 1 <= k < end implies is_plain(#[trigger] line[k]) by {
        assert(line[k] == after[k - close - 1]);
    }
    lemma_lex_plain_run(line, close + 1, end, p2.push(quote), true);
    let p3 = p2.push(quote) + line.subrange(close + 1, end);
    assert(p3 =~= line);
    assert(trim(line).len() > 0) by {
        lemma_trim_blank(line);
        if is_blank(line) {
            assert(is_whitespace(line[open]));
        }
    }
}

/// A comment ends the line: after a text without quotes and backslashes, a
/// `#` and whatever follows it add nothing to the tokens.
pub proof fn lemma_comment_ends_line(s: Seq<char>, rest: Seq<char>)
    requires
        forall|k: int| 0 <= k < s.len() ==> !is_quote_char(#[trigger] s[k]) && s[k] != '\\',
    ensures
        tokenize(s + seq!['#'] + rest) == tokenize(s),
        tokenize_commands(s + seq!['#'] + rest) == tokenize_commands(s),
{
    lemma_comment_from(s, rest, 0, Seq::empty(), true);
    lemma_comment_from(s, rest, 0, Seq::empty(), false);
}

/// The step of [`lemma_comment_ends_line`] from any position of the text.
pub proof fn lemma_comment_from(
    s: Seq<char>,
    rest: Seq<char>,
    i: int,
    pending: Seq<char>,
    split_single: bool,
)
    requires
        0 <= i <= s.len(),
        forall|k: int| 0 <= k < s.len() ==> !is_quote_char(#[trigger] s[k]) && s[k] != '\\',
    ensures
        lex_from(s + seq!['#'] + rest, i, pending, None, split_single) == lex_from(
            s,
            i,
            pending,
            None,
            split_single,
        ),
    decreases s.len() - i,
{
    let line = s + seq!['#'] + rest;
    if i < s.len() {
        let c = s[i];
        assert(line[i] == c);
        assert(!is_quote_char(s[i]) && s[i] != '\\');
        if i + 1 < s.len() {
            assert(line[i + 1] == s[i + 1]);
        } else {
            assert(line[i + 1] == '#');
        }
        let doubled = i + 1 < s.len() && s[i + 1] == c;
        if c == '#' {
        } else if c == ';' {
            lemma_comment_from(s, rest, i + 1, Seq::empty(), split_single);
        } else if (c == '&' || c == '|') && (doubled || split_single) {
            if doubled {
                lemma_comment_from(s, rest, i + 2, Seq::empty(), split_single);
            } else {
                lemma_comment_from(s, rest, i + 1, Seq::empty(), split_single);
            }
        } else {
            lemma_comment_from(s, rest, i + 1, pending.push(c), split_single);
        }
    } else {
        assert(line[i] == '#');
    }
}

/// Whether `quote` is no open quote or one of the three quote characters.
pub open spec fn is_quote_state(quote: Option<char>) -> bool {
    quote matches Some(q) ==> is_quote_char(q)
}

/// Pending text with blanks before and behind it gives the same token.
pub proof fn lemma_flush_padded(before: Seq<char>, pending: Seq<char>, after: Seq<char>)
    requires
        is_blank(before),
        is_blank(after),
    ensures
        flush(before + pending + after) == flush(pending),
{
    lemma_trim_padded(before, pending, after);
}

/// Blanks up to the end of the line add nothing to the pending text.
pub proof fn lemma_lex_blank_tail(
    line: Seq<char>,
    i: int,
    pending: Seq<char>,
    quote: Option<char>,
    split_single: bool,
)
    requires
        0 <= i <= line.len(),
        forall|k: int| i <= k < line.len() ==> is_whitespace(#[trigger] line[k]),
        is_quote_state(quote),
    ensures
        lex_from(line, i, pending, quote, split_single) == flush(pending),
    decreases line.len() - i,
{
    if i < line.len() {
        let c = line[i];
        assert(is_whitespace(c));
        lemma_lex_blank_tail(line, i + 1, pending.push(c), quote, split_single);
        assert(is_blank(seq![c]));
        assert(Seq::<char>::empty() + pending + seq![c] =~= pending.push(c));
        lemma_flush_padded(Seq::empty(), pending, seq![c]);
    }
}

/// Blanks behind a line add nothing to its tokens, from any position of the
/// line.
pub proof fn lemma_lex_trailing(
    s: Seq<char>,
    after: Seq<char>,
    i: int,
    pending: Seq<char>,
    quote: Option<char>,
    split_single: bool,
)
    requires
        is_blank(after),
        0 <= i <= s.len(),
        is_quote_state(quote),
    ensures
        lex_from(s + after, i, pending, quote, split_single) == lex_from(
            s,
            i,
            pending,
            quote,
            split_single,
        ),
    decreases s.len() - i,
{
    let line = s + after;
    assert forall|k: int| s.len() <= k < line.len() implies is_whitespace(#[trigger] line[k]) by {
        assert(line[k] == after[k - s.len()]);
    }
    if i < s.len() {
        let c = s[i];
        assert(line[i] == c);
        if i + 1 < s.len() {
            assert(line[i + 1] == s[i + 1]);
        } else if i + 1 < line.len() {
            assert(is_whitespace(line[i + 1]));
        }
        let doubled = i + 1 < s.len() && s[i + 1] == c;
        if let Some(q) = quote {
            lemma_lex_trailing(
                s,
                after,
                i + 1,
                pending.push(c),
                if c == q { None } else { quote },
                split_single,
            );
        } else if c == '#' {
        } else if c == '\\' {
            if i + 1 < s.len() {
                lemma_lex_trailing(s, after, i + 2, pending.push(s[i + 1]), None, split_single);
            } else if i + 1 < line.len() {
                let w = line[i + 1];
                lemma_lex_blank_tail(line, i + 2, pending.push(w), None, split_single);
                assert(is_blank(seq![w]));
                assert(Seq::<char>::empty() + pending + seq![w] =~= pending.push(w));
                lemma_flush_padded(Seq::empty(), pending, seq![w]);
            }
        } else if c == ';' {
            lemma_lex_trailing(s, after, i + 1, Seq::empty(), None, split_single);
        } else if (c == '&' || c == '|') && (doubled || split_single) {
            if doubled {
                lemma_lex_trailing(s, after, i + 2, Seq::empty(), None, split_single);
            } else {
                lemma_lex_trailing(s, after, i + 1, Seq::empty(), None, split_single);
            }
        } else {
            lemma_lex_trailing(
                s,
                after,
                i + 1,
                pending.push(c),
                if is_quote_char(c) { Some(c) } else { None },
                split_single,
            );
        }
    } else {
        lemma_lex_blank_tail(line, i, pending, quote, split_single);
    }
}

/// Blanks before a line add nothing to its tokens, from any position of the
/// line; `blanks` are the blanks that stand before the pending text.
pub proof fn lemma_lex_leading(
    before: Seq<char>,
    s: Seq<char>,
    i: int,
    blanks: Seq<char>,
    pending: Seq<char>,
    quote: Option<char>,
    split_single: bool,
)
    requires
        is_blank(blanks),
        0 <= i <= s.len(),
    ensures
        lex_from(before + s, before.len() + i, blanks + pending, quote, split_single) == lex_from(
            s,
            i,
            pending,
            quote,
            split_single,
        ),
    decreases s.len() - i,
{
    let line = before + s;
    let at = before.len() + i;
    let none = Seq::<char>::empty();
    assert(is_blank(none));
    assert(blanks + pending + none =~= blanks + pending);
    lemma_flush_padded(blanks, pending, none);
    assert(none + none =~= none);
    if i < s.len() {
        let c = s[i];
        assert(line[at] == c);
        if i + 1 < s.len() {
            assert(line[at + 1] == s[i + 1]);
        }
        let doubled = i + 1 < s.len() && s[i + 1] == c;
        assert((blanks + pending).push(c) =~= blanks + pending.push(c));
        if let Some(q) = quote {
            lemma_lex_leading(
                before,
                s,
                i + 1,
                blanks,
                pending.push(c),
                if c == q { None } else { quote },
                split_single,
            );
        } else if c == '#' {
        } else if c == '\\' {
            if i + 1 < s.len() {
                assert((blanks + pending).push(s[i + 1]) =~= blanks + pending.push(s[i + 1]));
                lemma_lex_leading(
                    before,
                    s,
                    i + 2,
                    blanks,
                    pending.push(s[i + 1]),
                    None,
                    split_single,
                );
            }
        } else if c == ';' {
            lemma_lex_leading(before, s, i + 1, none, none, None, split_single);
        } else if (c == '&' || c == '|') && (doubled || split_single) {
            if doubled {
                lemma_lex_leading(before, s, i + 2, none, none, None, split_single);
            } else {
                lemma_lex_leading(before, s, i + 1, none, none, None, split_single);
            }
        } else {
            lemma_lex_leading(
                before,
                s,
                i + 1,
                blanks,
                pending.push(c),
                if is_quote_char(c) { Some(c) } else { None },
                split_single,
            );
        }
    }
}

/// Blanks around a line do not change its tokens.
pub proof fn lemma_blanks_around_line(before: Seq<char>, s: Seq<char>, after: Seq<char>)
    requires
        is_blank(before),
        is_blank(after),
    ensures
        tokenize(before + s + after) == tokenize(s),
{
    let line = before + s + after;
    let none = Seq::<char>::empty();
    assert(line =~= before + (s + after));
    lemma_blank_is_plain(before);
    assert forall|k: int| 0 <= k < before.len() implies is_plain(#[trigger] line[k]) by {
        assert(line[k] == before[k]);
    }
    lemma_lex_plain_run(line, 0, before.len() as int, none, true);
    assert(none + line.subrange(0, before.len() as int) =~= before + none);
    lemma_lex_leading(before, s + after, 0, before, none, None, true);
    lemma_lex_trailing(s, after, 0, none, None, true);
}

/// Trimming is idempotent for the lexer: a line and its trimmed form have
/// the same tokens.
pub proof fn lemma_tokenize_trimmed(s: Seq<char>)
    ensures
        tokenize(trim(s)) == tokenize(s),
{
    lemma_trim_parts(s);
    let a = leading_ws(s) as int;
    let b = if a == s.len() { a } else { s.len() - trailing_ws(s) };
    lemma_blanks_around_line(s.take(a), trim(s), s.skip(b));
}

/// A text with a character at each end that is not whitespace.
pub open spec fn is_trimmed(text: Seq<char>) -> bool {
    text.len() > 0 && !is_whitespace(text[0]) && !is_whitespace(text.last())
}

/// Whether the text of every raw token is trimmed and not empty.
pub open spec fn all_raw_trimmed(tokens: Seq<TokenView>) -> bool {
    forall|k: int|
        0 <= k < tokens.len() ==> (#[trigger] tokens[k] matches TokenView::Raw(text) ==> is_trimmed(
            text,
        ))
}

/// Two rows of tokens whose raw texts are trimmed give such a row when put
/// together.
pub proof fn lemma_raw_trimmed_concat(a: Seq<TokenView>, b: Seq<TokenView>)
    requires
        all_raw_trimmed(a),
        all_raw_trimmed(b),
    ensures
        all_raw_trimmed(a + b),
{
    assert forall|k: int| 0 <= k < (a + b).len() implies (#[trigger] (a + b)[k] matches TokenView::Raw(
        text,
    ) ==> is_trimmed(text)) by {
        if k < a.len() {
            assert((a + b)[k] == a[k]);
        } else {
            assert((a + b)[k] == b[k - a.len()]);
        }
    }
}

/// The lexer gives no empty raw token and none with whitespace at an end,
/// from any position and in any state.
pub proof fn lemma_lex_raw_trimmed(
    line: Seq<char>,
    i: int,
    pending: Seq<char>,
    quote: Option<char>,
    split_single: bool,
)
    ensures
        all_raw_trimmed(lex_from(line, i, pending, quote, split_single)),
    decreases line.len() - i,
{
    lemma_trim_shape(pending);
    assert(all_raw_trimmed(flush(pending)));
    let none = Seq::<char>::empty();
    if i < 0 || i >= line.len() {
    } else {
        let c = line[i];
        let doubled = i + 1 < line.len() && line[i + 1] == c;
        if let Some(q) = quote {
            lemma_lex_raw_trimmed(
                line,
                i + 1,
                pending.push(c),
                if c == q { None } else { quote },
                split_single,
            );
        } else if c == '#' {
        } else if c == '\\' {
            if i + 1 < line.len() {
                lemma_lex_raw_trimmed(line, i + 2, pending.push(line[i + 1]), None, split_single);
            }
        } else if c == ';' {
            lemma_lex_raw_trimmed(line, i + 1, none, None, split_single);
            let op = seq![TokenView::Semicolon];
            assert(all_raw_trimmed(op));
            lemma_raw_trimmed_concat(flush(pending), op);
            lemma_raw_trimmed_concat(
                flush(pending) + op,
                lex_from(line, i + 1, none, None, split_single),
            );
        } else if (c == '&' || c == '|') && (doubled || split_single) {
            let next = if doubled { i + 2 } else { i + 1 };
            lemma_lex_raw_trimmed(line, next, none, None, split_single);
            let op = seq![operator_token(c, doubled)];
            assert(all_raw_trimmed(op));
            lemma_raw_trimmed_concat(flush(pending), op);
            lemma_raw_trimmed_concat(
                flush(pending) + op,
                lex_from(line, next, none, None, split_single),
            );
        } else {
            lemma_lex_raw_trimmed(
                line,
                i + 1,
                pending.push(c),
                if is_quote_char(c) { Some(c) } else { None },
                split_single,
            );
        }
    }
}

/// No raw token of a line is empty, and none starts or ends with whitespace.
pub proof fn lemma_tokenize_raw_trimmed(line: Seq<char>)
    ensures
        all_raw_trimmed(tokenize(line)),
        all_raw_trimmed(tokenize_commands(line)),
{
    lemma_lex_raw_trimmed(line, 0, Seq::empty(), None, true);
    lemma_lex_raw_trimmed(line, 0, Seq::empty(), None, false);
}

} // verus!
