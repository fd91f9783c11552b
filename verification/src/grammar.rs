//! What parsing does at each level of the grammar, and the shape of the trees it builds.

use crate::ast::{
    drop_empty, has_empty, is_logical, last_logical, lemma_last_logical, op_of, parse,
    parse_command, parse_each, parse_logical, parse_text, render, split, split_from, AstView,
};
use crate::exception::ExceptionView;
use crate::command::command_of;
use crate::lexing::{is_trimmed, lemma_tokenize_raw_trimmed};
use crate::text::{is_word, lemma_first_word, lemma_words_solid, words};
use crate::token::tokenize;
use crate::token::TokenView;
use vstd::prelude::*;

verus! {

/// Whether no group holds `sep`.
pub open spec fn all_free(groups: Seq<Seq<TokenView>>, sep: TokenView) -> bool {
    forall|k: int| 0 <= k < groups.len() ==> !(#[trigger] groups[k]).contains(sep)
}

/// No group of a split holds the separator.
pub proof fn lemma_split_from_free(
    tokens: Seq<TokenView>,
    sep: TokenView,
    i: int,
    cur: Seq<TokenView>,
)
    requires
        0 <= i <= tokens.len(),
        !cur.contains(sep),
    ensures
        all_free(split_from(tokens, sep, i, cur), sep),
    decreases tokens.len() - i,
{
    let all = split_from(tokens, sep, i, cur);
    if i >= tokens.len() {
        assert(all == seq![cur]);
        assert forall|k: int| 0 <= k < all.len() implies !(#[trigger] all[k]).contains(sep) by {
            assert(all[k] == cur);
        }
    } else if tokens[i] == sep {
        let tail = split_from(tokens, sep, i + 1, Seq::empty());
        assert(!Seq::<TokenView>::empty().contains(sep));
        lemma_split_from_free(tokens, sep, i + 1, Seq::empty());
        assert(all == seq![cur] + tail);
        assert forall|k: int| 0 <= k < all.len() implies !(#[trigger] all[k]).contains(sep) by {
            if k == 0 {
                assert(all[0] == cur);
            } else {
                assert(all[k] == tail[k - 1]);
            }
        }
    } else {
        let next = cur.push(tokens[i]);
        assert(!next.contains(sep)) by {
            if next.contains(sep) {
                let j = choose|j: int| 0 <= j < next.len() && next[j] == sep;
                if j < cur.len() {
                    assert(cur[j] == sep);
                }
            }
        }
        lemma_split_from_free(tokens, sep, i + 1, next);
        assert(all == split_from(tokens, sep, i + 1, next));
    }
}

/// Dropping the empty groups keeps groups that do not hold `sep` free of it,
/// and leaves no empty group.
pub proof fn lemma_drop_empty_free(groups: Seq<Seq<TokenView>>, sep: TokenView)
    requires
        all_free(groups, sep),
    ensures
        all_free(drop_empty(groups), sep),
        !has_empty(drop_empty(groups)),
    decreases groups.len(),
{
    if groups.len() > 0 {
        let rest = groups.drop_first();
        assert forall|k: int| 0 <= k < rest.len() implies !(#[trigger] rest[k]).contains(sep) by {
            assert(rest[k] == groups[k + 1]);
        }
        lemma_drop_empty_free(rest, sep);
        let kept = drop_empty(groups);
        assert forall|k: int| 0 <= k < kept.len() implies !(#[trigger] kept[k]).contains(sep)
            && kept[k].len() > 0 by {
            if groups[0].len() == 0 {
                assert(kept == drop_empty(rest));
            } else if k == 0 {
                assert(kept[0] == groups[0]);
            } else {
                assert(kept[k] == drop_empty(rest)[k - 1]);
            }
        }
    }
}

/// Two ways of parsing a group that agree on every group give the same list.
pub proof fn lemma_parse_each_agree(
    groups: Seq<Seq<TokenView>>,
    f: spec_fn(Seq<TokenView>) -> Result<AstView, ExceptionView>,
    g: spec_fn(Seq<TokenView>) -> Result<AstView, ExceptionView>,
)
    requires
        forall|k: int| 0 <= k < groups.len() ==> f(#[trigger] groups[k]) == g(groups[k]),
    ensures
        parse_each(groups, f) == parse_each(groups, g),
    decreases groups.len(),
{
    if groups.len() > 0 {
        let rest = groups.drop_first();
        assert forall|k: int| 0 <= k < rest.len() implies f(#[trigger] rest[k]) == g(rest[k]) by {
            assert(rest[k] == groups[k + 1]);
        }
        lemma_parse_each_agree(rest, f, g);
    }
}

/// A part of a sequence holds no token that the sequence does not hold.
pub proof fn lemma_part_free(tokens: Seq<TokenView>, from: int, to: int, token: TokenView)
    requires
        0 <= from <= to <= tokens.len(),
        !tokens.contains(token),
    ensures
        !tokens.subrange(from, to).contains(token),
{
    let part = tokens.subrange(from, to);
    if part.contains(token) {
        let j = choose|j: int| 0 <= j < part.len() && part[j] == token;
        assert(tokens[from + j] == token);
    }
}

/// Sequencing: a sequence with a `;` is the script of its non-empty groups
/// between the `;`, each parsed as a sequence of its own, in order; the first
/// group that fails gives the error.
pub proof fn lemma_parse_script(tokens: Seq<TokenView>)
    requires
        tokens.contains(TokenView::Semicolon),
    ensures
        parse(tokens) == match parse_each(
            drop_empty(split(tokens, TokenView::Semicolon)),
            |g: Seq<TokenView>| parse(g),
        ) {
            Ok(items) => Ok::<AstView, ExceptionView>(AstView::Script(items)),
            Err(e) => Err(e),
        },
{
    let groups = split(tokens, TokenView::Semicolon);
    assert(!Seq::<TokenView>::empty().contains(TokenView::Semicolon));
    lemma_split_from_free(tokens, TokenView::Semicolon, 0, Seq::empty());
    lemma_drop_empty_free(groups, TokenView::Semicolon);
    let kept = drop_empty(groups);
    assert forall|k: int| 0 <= k < kept.len() implies parse_logical(#[trigger] kept[k]) == parse(
        kept[k],
    ) by {}
    lemma_parse_each_agree(
        drop_empty(groups),
        |g: Seq<TokenView>| parse_logical(g),
        |g: Seq<TokenView>| parse(g),
    );
}

/// Right-most precedence: in a sequence without `;`, the last `&&` or `||`
/// that has something on both sides is the root; its operands are what stands
/// before and after it, each parsed as a sequence of its own, the left one
/// first.
pub proof fn lemma_parse_rightmost(tokens: Seq<TokenView>, i: int)
    requires
        !tokens.contains(TokenView::Semicolon),
        0 < i < tokens.len() - 1,
        is_logical(tokens[i]),
        forall|j: int| i < j < tokens.len() ==> !is_logical(#[trigger] tokens[j]),
    ensures
        parse(tokens) == match parse(tokens.take(i)) {
            Ok(left) => match parse(tokens.skip(i + 1)) {
                Ok(right) => Ok::<AstView, ExceptionView>(
                    AstView::LogicalExpression {
                        op: op_of(tokens[i]),
                        left: Box::new(left),
                        right: Box::new(right),
                    },
                ),
                Err(e) => Err(e),
            },
            Err(e) => Err(e),
        },
{
    lemma_last_logical(tokens, i);
    lemma_part_free(tokens, 0, i, TokenView::Semicolon);
    lemma_part_free(tokens, i + 1, tokens.len() as int, TokenView::Semicolon);
}

/// An `&&` or `||` that is the last of its kind in a sequence without `;`
/// and has nothing before it or nothing after it is an error that names it.
pub proof fn lemma_parse_dangling_logical(tokens: Seq<TokenView>, i: int)
    requires
        !tokens.contains(TokenView::Semicolon),
        0 <= i < tokens.len(),
        i == 0 || i == tokens.len() - 1,
        is_logical(tokens[i]),
        forall|j: int| i < j < tokens.len() ==> !is_logical(#[trigger] tokens[j]),
    ensures
        parse(tokens) == Err::<AstView, ExceptionView>(
            ExceptionView::TokenCannotBeParsed(tokens[i]),
        ),
{
    lemma_last_logical(tokens, i);
}

/// Whether every token of every group satisfies `p`.
pub open spec fn all_within(groups: Seq<Seq<TokenView>>, p: spec_fn(TokenView) -> bool) -> bool {
    forall|k: int, j: int|
        0 <= k < groups.len() && 0 <= j < groups[k].len() ==> p(#[trigger] groups[k][j])
}

/// What holds of every token of a sequence holds of every token of the
/// groups that it is split into.
pub proof fn lemma_split_from_within(
    tokens: Seq<TokenView>,
    sep: TokenView,
    i: int,
    cur: Seq<TokenView>,
    p: spec_fn(TokenView) -> bool,
)
    requires
        0 <= i <= tokens.len(),
        forall|j: int| 0 <= j < tokens.len() ==> p(#[trigger] tokens[j]),
        forall|j: int| 0 <= j < cur.len() ==> p(#[trigger] cur[j]),
    ensures
        all_within(split_from(tokens, sep, i, cur), p),
    decreases tokens.len() - i,
{
    let all = split_from(tokens, sep, i, cur);
    if i >= tokens.len() {
        assert(all == seq![cur]);
    } else if tokens[i] == sep {
        let tail = split_from(tokens, sep, i + 1, Seq::empty());
        lemma_split_from_within(tokens, sep, i + 1, Seq::empty(), p);
        assert(all == seq![cur] + tail);
        assert forall|k: int, j: int| 0 <= k < all.len() && 0 <= j < all[k].len() implies p(
            #[trigger] all[k][j],
        ) by {
            if k > 0 {
                assert(all[k] == tail[k - 1]);
                assert(p(tail[k - 1][j]));
            }
        }
    } else {
        let next = cur.push(tokens[i]);
        assert forall|j: int| 0 <= j < next.len() implies p(#[trigger] next[j]) by {
            if j < cur.len() {
                assert(next[j] == cur[j]);
            }
        }
        lemma_split_from_within(tokens, sep, i + 1, next, p);
    }
}

/// A split at a separator that occurs gives at least two groups.
pub proof fn lemma_split_from_count(
    tokens: Seq<TokenView>,
    sep: TokenView,
    i: int,
    cur: Seq<TokenView>,
    at: int,
)
    requires
        0 <= i <= at < tokens.len(),
        tokens[at] == sep,
    ensures
        split_from(tokens, sep, i, cur).len() >= 2,
    decreases tokens.len() - i,
{
    if tokens[i] == sep {
        assert(split_from(tokens, sep, i + 1, Seq::empty()).len() >= 1) by {
            lemma_split_from_some(tokens, sep, i + 1, Seq::empty());
        }
    } else {
        lemma_split_from_count(tokens, sep, i + 1, cur.push(tokens[i]), at);
    }
}

/// A split gives at least one group.
pub proof fn lemma_split_from_some(
    tokens: Seq<TokenView>,
    sep: TokenView,
    i: int,
    cur: Seq<TokenView>,
)
    ensures
        split_from(tokens, sep, i, cur).len() >= 1,
    decreases tokens.len() - i,
{
    if i < 0 || i >= tokens.len() {
    } else if tokens[i] == sep {
        lemma_split_from_some(tokens, sep, i + 1, Seq::empty());
    } else {
        lemma_split_from_some(tokens, sep, i + 1, cur.push(tokens[i]));
    }
}

/// A separator with nothing after it, or with another separator right after
/// it, leaves an empty group.
pub proof fn lemma_split_from_gap(
    tokens: Seq<TokenView>,
    sep: TokenView,
    i: int,
    cur: Seq<TokenView>,
    at: int,
)
    requires
        0 <= i <= at < tokens.len(),
        tokens[at] == sep,
        at + 1 == tokens.len() || tokens[at + 1] == sep,
    ensures
        has_empty(split_from(tokens, sep, i, cur)),
    decreases tokens.len() - i,
{
    let all = split_from(tokens, sep, i, cur);
    if tokens[i] == sep {
        let tail = split_from(tokens, sep, i + 1, Seq::empty());
        assert(all == seq![cur] + tail);
        lemma_split_from_some(tokens, sep, i + 1, Seq::empty());
        if i == at {
            assert(tail[0].len() == 0) by {
                if at + 1 < tokens.len() {
                    let after = split_from(tokens, sep, i + 2, Seq::empty());
                    assert(tail == seq![Seq::<TokenView>::empty()] + after);
                }
            }
            assert(all[1] == tail[0]);
        } else {
            lemma_split_from_gap(tokens, sep, i + 1, Seq::empty(), at);
            let k = choose|k: int| 0 <= k < tail.len() && (#[trigger] tail[k]).len() == 0;
            assert(all[k + 1] == tail[k]);
        }
    } else {
        lemma_split_from_gap(tokens, sep, i + 1, cur.push(tokens[i]), at);
    }
}

/// A `|` that has nothing before it, nothing after it or another `|` right
/// after it, in a sequence without `;`, `&&` and `||`, is an error that
/// names it.
pub proof fn lemma_parse_dangling_pipeline(tokens: Seq<TokenView>, at: int)
    requires
        !tokens.contains(TokenView::Semicolon),
        forall|j: int| 0 <= j < tokens.len() ==> !is_logical(#[trigger] tokens[j]),
        0 <= at < tokens.len(),
        tokens[at] == TokenView::Pipeline,
        at == 0 || at + 1 == tokens.len() || tokens[at + 1] == TokenView::Pipeline,
    ensures
        parse(tokens) == Err::<AstView, ExceptionView>(
            ExceptionView::TokenCannotBeParsed(TokenView::Pipeline),
        ),
{
    lemma_last_logical(tokens, -1);
    let groups = split(tokens, TokenView::Pipeline);
    if at + 1 == tokens.len() || tokens[at + 1] == TokenView::Pipeline {
        lemma_split_from_gap(tokens, TokenView::Pipeline, 0, Seq::empty(), at);
    } else {
        let tail = split_from(tokens, TokenView::Pipeline, 1, Seq::empty());
        assert(groups == seq![Seq::<TokenView>::empty()] + tail);
        assert(groups[0].len() == 0);
    }
}

/// A sequence without `;`, `&&`, `||` and `|` is one command: an `&` in it is
/// refused, one raw token is split into keyword and arguments, and anything
/// else is an error that names the tokens.
pub proof fn lemma_parse_leaf(tokens: Seq<TokenView>)
    requires
        !tokens.contains(TokenView::Semicolon),
        !tokens.contains(TokenView::Pipeline),
        forall|j: int| 0 <= j < tokens.len() ==> !is_logical(#[trigger] tokens[j]),
    ensures
        parse(tokens) == parse_command(tokens),
        tokens.contains(TokenView::Async) ==> parse(tokens) == Err::<AstView, ExceptionView>(
            ExceptionView::AsyncIsUnSupported,
        ),
        tokens.len() == 1 && tokens[0] is Raw ==> parse(tokens) == parse_text(tokens[0]->Raw_0),
        !tokens.contains(TokenView::Async) && !(tokens.len() == 1 && tokens[0] is Raw) ==> parse(
            tokens,
        ) == Err::<AstView, ExceptionView>(ExceptionView::TokensCannotBeParsed(render(tokens))),
{
    lemma_last_logical(tokens, -1);
    if tokens.len() == 1 && tokens[0] is Raw && tokens.contains(TokenView::Async) {
        let j = choose|j: int| 0 <= j < tokens.len() && tokens[j] == TokenView::Async;
        assert(tokens[0] == TokenView::Async);
    }
}

/// Pipelines: a sequence without `;`, `&&` and `||` in which every `|` has
/// something on both sides is the pipeline of what stands between the `|`,
/// each parsed as a sequence of its own, in order; the first that fails gives
/// the error.
pub proof fn lemma_parse_pipeline(tokens: Seq<TokenView>)
    requires
        !tokens.contains(TokenView::Semicolon),
        forall|j: int| 0 <= j < tokens.len() ==> !is_logical(#[trigger] tokens[j]),
        tokens.contains(TokenView::Pipeline),
        !has_empty(split(tokens, TokenView::Pipeline)),
    ensures
        parse(tokens) == match parse_each(
            split(tokens, TokenView::Pipeline),
            |g: Seq<TokenView>| parse(g),
        ) {
            Ok(items) => Ok::<AstView, ExceptionView>(AstView::Pipeline(items)),
            Err(e) => Err(e),
        },
{
    lemma_last_logical(tokens, -1);
    let groups = split(tokens, TokenView::Pipeline);
    let p = |t: TokenView| t != TokenView::Semicolon && !is_logical(t);
    assert forall|j: int| 0 <= j < tokens.len() implies p(#[trigger] tokens[j]) by {
        if tokens[j] == TokenView::Semicolon {
            assert(tokens.contains(TokenView::Semicolon));
        }
    }
    lemma_split_from_within(tokens, TokenView::Pipeline, 0, Seq::empty(), p);
    assert(!Seq::<TokenView>::empty().contains(TokenView::Pipeline));
    lemma_split_from_free(tokens, TokenView::Pipeline, 0, Seq::empty());
    assert forall|k: int| 0 <= k < groups.len() implies parse_command(#[trigger] groups[k])
        == parse(groups[k]) by {
        let g = groups[k];
        assert forall|j: int| 0 <= j < g.len() implies !is_logical(#[trigger] g[j]) by {
            assert(p(groups[k][j]));
        }
        if g.contains(TokenView::Semicolon) {
            let j = choose|j: int| 0 <= j < g.len() && g[j] == TokenView::Semicolon;
            assert(p(groups[k][j]));
        }
        lemma_parse_leaf(g);
    }
    lemma_parse_each_agree(
        groups,
        |g: Seq<TokenView>| parse_command(g),
        |g: Seq<TokenView>| parse(g),
    );
}

/// The shape of every tree that parsing builds: the keyword and the
/// arguments of a command are words; a pipeline holds at least two items,
/// all of them commands; a script holds no script, and neither does a
/// logical expression.
pub open spec fn well_formed(tree: AstView) -> bool
    decreases tree,
{
    match tree {
        AstView::Command { keyword, args } => is_word(keyword) && forall|k: int|
            0 <= k < args.len() ==> is_word(#[trigger] args[k]),
        AstView::Script(items) => forall|k: int|
            0 <= k < items.len() ==> !(#[trigger] items[k] is Script) && well_formed(items[k]),
        AstView::LogicalExpression { op, left, right } => !(*left is Script) && !(*right is Script)
            && well_formed(*left) && well_formed(*right),
        AstView::Pipeline(items) => items.len() >= 2 && forall|k: int|
            0 <= k < items.len() ==> (#[trigger] items[k]) is Command && well_formed(items[k]),
    }
}

/// Whether a parse ended with a tree that satisfies `p`, or with an error.
pub open spec fn ok_with(
    r: Result<AstView, ExceptionView>,
    p: spec_fn(AstView) -> bool,
) -> bool {
    r matches Ok(tree) ==> p(tree)
}

/// What holds of every parsed group holds of every item of the list, which
/// has one item for each group.
pub proof fn lemma_parse_each_all(
    groups: Seq<Seq<TokenView>>,
    f: spec_fn(Seq<TokenView>) -> Result<AstView, ExceptionView>,
    p: spec_fn(AstView) -> bool,
)
    requires
        forall|k: int| 0 <= k < groups.len() ==> ok_with(f(#[trigger] groups[k]), p),
    ensures
        parse_each(groups, f) matches Ok(items) ==> items.len() == groups.len() && forall|k: int|
            0 <= k < items.len() ==> p(#[trigger] items[k]),
    decreases groups.len(),
{
    if groups.len() > 0 {
        let rest = groups.drop_first();
        assert forall|k: int| 0 <= k < rest.len() implies ok_with(f(#[trigger] rest[k]), p) by {
            assert(rest[k] == groups[k + 1]);
        }
        lemma_parse_each_all(rest, f, p);
        assert(ok_with(f(groups[0]), p));
        if let Ok(items) = parse_each(groups, f) {
            let first = f(groups[0])->Ok_0;
            let others = parse_each(rest, f)->Ok_0;
            assert(items == seq![first] + others);
            assert forall|k: int| 0 <= k < items.len() implies p(#[trigger] items[k]) by {
                if k > 0 {
                    assert(items[k] == others[k - 1]);
                }
            }
        }
    }
}

/// A command read from a text is well formed.
pub proof fn lemma_parse_text_well_formed(text: Seq<char>)
    ensures
        parse_text(text) matches Ok(tree) ==> tree is Command && well_formed(tree),
{
    lemma_words_solid(text);
    let w = words(text);
    if w.len() > 0 {
        assert(is_word(w[0]));
        assert forall|k: int| 0 <= k < w.drop_first().len() implies is_word(
            #[trigger] w.drop_first()[k],
        ) by {
            assert(w.drop_first()[k] == w[k + 1]);
        }
    }
}

/// An expression that parses is well formed and is no script.
pub proof fn lemma_parse_logical_well_formed(tokens: Seq<TokenView>)
    ensures
        parse_logical(tokens) matches Ok(tree) ==> !(tree is Script) && well_formed(tree),
    decreases tokens.len(),
{
    let i = last_logical(tokens);
    if i < 0 || i >= tokens.len() {
        if tokens.contains(TokenView::Pipeline) {
            let groups = split(tokens, TokenView::Pipeline);
            let f = |g: Seq<TokenView>| parse_command(g);
            let p = |t: AstView| t is Command && well_formed(t);
            assert forall|k: int| 0 <= k < groups.len() implies ok_with(
                f(#[trigger] groups[k]),
                p,
            ) by {
                let g = groups[k];
                if g.len() == 1 && g[0] is Raw {
                    lemma_parse_text_well_formed(g[0]->Raw_0);
                }
            }
            lemma_parse_each_all(groups, f, p);
            let at = choose|at: int| 0 <= at < tokens.len() && tokens[at] == TokenView::Pipeline;
            lemma_split_from_count(tokens, TokenView::Pipeline, 0, Seq::empty(), at);
        } else if tokens.len() == 1 && tokens[0] is Raw {
            lemma_parse_text_well_formed(tokens[0]->Raw_0);
        }
    } else if 0 < i < tokens.len() - 1 {
        lemma_parse_logical_well_formed(tokens.take(i));
        lemma_parse_logical_well_formed(tokens.skip(i + 1));
    }
}

/// Every tree that parsing builds is well formed: no command has an empty
/// keyword, no pipeline has a side missing, and no script holds a script.
pub proof fn lemma_parse_well_formed(tokens: Seq<TokenView>)
    ensures
        parse(tokens) matches Ok(tree) ==> well_formed(tree),
{
    if tokens.contains(TokenView::Semicolon) {
        let groups = drop_empty(split(tokens, TokenView::Semicolon));
        let f = |g: Seq<TokenView>| parse_logical(g);
        let p = |t: AstView| !(t is Script) && well_formed(t);
        assert forall|k: int| 0 <= k < groups.len() implies ok_with(f(#[trigger] groups[k]), p) by {
            lemma_parse_logical_well_formed(groups[k]);
        }
        lemma_parse_each_all(groups, f, p);
    } else {
        lemma_parse_logical_well_formed(tokens);
    }
}

/// Whether a token is no raw token or one whose text holds a word.
pub open spec fn is_spelled(token: TokenView) -> bool {
    token matches TokenView::Raw(text) ==> command_of(text) is Some
}

/// Whether every raw token holds a word.
pub open spec fn all_spelled(tokens: Seq<TokenView>) -> bool {
    forall|k: int| 0 <= k < tokens.len() ==> is_spelled(#[trigger] tokens[k])
}

/// Where no group fails with `bad`, the list does not fail with it.
pub proof fn lemma_parse_each_never(
    groups: Seq<Seq<TokenView>>,
    f: spec_fn(Seq<TokenView>) -> Result<AstView, ExceptionView>,
    bad: ExceptionView,
)
    requires
        forall|k: int|
            0 <= k < groups.len() ==> f(#[trigger] groups[k]) != Err::<AstView, ExceptionView>(bad),
    ensures
        parse_each(groups, f) != Err::<Seq<AstView>, ExceptionView>(bad),
    decreases groups.len(),
{
    if groups.len() > 0 {
        let rest = groups.drop_first();
        assert forall|k: int| 0 <= k < rest.len() implies f(#[trigger] rest[k]) != Err::<
            AstView,
            ExceptionView,
        >(bad) by {
            assert(rest[k] == groups[k + 1]);
        }
        lemma_parse_each_never(rest, f, bad);
        assert(f(groups[0]) != Err::<AstView, ExceptionView>(bad));
    }
}

/// Dropping the empty groups keeps what holds of every token of every group.
pub proof fn lemma_drop_empty_within(groups: Seq<Seq<TokenView>>, p: spec_fn(TokenView) -> bool)
    requires
        all_within(groups, p),
    ensures
        all_within(drop_empty(groups), p),
    decreases groups.len(),
{
    if groups.len() > 0 {
        let rest = groups.drop_first();
        assert forall|k: int, j: int| 0 <= k < rest.len() && 0 <= j < rest[k].len() implies p(
            #[trigger] rest[k][j],
        ) by {
            assert(rest[k] == groups[k + 1]);
            assert(p(groups[k + 1][j]));
        }
        lemma_drop_empty_within(rest, p);
        let kept = drop_empty(groups);
        assert forall|k: int, j: int| 0 <= k < kept.len() && 0 <= j < kept[k].len() implies p(
            #[trigger] kept[k][j],
        ) by {
            if groups[0].len() == 0 {
                assert(kept == drop_empty(rest));
            } else if k == 0 {
                assert(kept[0] == groups[0]);
                assert(p(groups[0][j]));
            } else {
                assert(kept[k] == drop_empty(rest)[k - 1]);
                assert(p(drop_empty(rest)[k - 1][j]));
            }
        }
    }
}

/// An expression whose raw tokens all hold a word does not fail for want of
/// characters.
pub proof fn lemma_parse_logical_spelled(tokens: Seq<TokenView>)
    requires
        all_spelled(tokens),
    ensures
        parse_logical(tokens) != Err::<AstView, ExceptionView>(
            ExceptionView::CommandHasNoCharacters,
        ),
    decreases tokens.len(),
{
    let bad = ExceptionView::CommandHasNoCharacters;
    let i = last_logical(tokens);
    if i < 0 || i >= tokens.len() {
        if tokens.contains(TokenView::Pipeline) {
            let groups = split(tokens, TokenView::Pipeline);
            let f = |g: Seq<TokenView>| parse_command(g);
            let p = |t: TokenView| is_spelled(t);
            assert forall|j: int| 0 <= j < tokens.len() implies p(#[trigger] tokens[j]) by {
                assert(is_spelled(tokens[j]));
            }
            lemma_split_from_within(tokens, TokenView::Pipeline, 0, Seq::empty(), p);
            assert forall|k: int| 0 <= k < groups.len() implies f(#[trigger] groups[k]) != Err::<
                AstView,
                ExceptionView,
            >(bad) by {
                let g = groups[k];
                if g.len() == 1 {
                    assert(p(groups[k][0]));
                }
            }
            lemma_parse_each_never(groups, f, bad);
        } else if tokens.len() == 1 {
            assert(is_spelled(tokens[0]));
        }
    } else if 0 < i < tokens.len() - 1 {
        let left = tokens.take(i);
        let right = tokens.skip(i + 1);
        assert forall|k: int| 0 <= k < left.len() implies is_spelled(#[trigger] left[k]) by {
            assert(left[k] == tokens[k]);
        }
        assert forall|k: int| 0 <= k < right.len() implies is_spelled(#[trigger] right[k]) by {
            assert(right[k] == tokens[i + 1 + k]);
        }
        lemma_parse_logical_spelled(left);
        lemma_parse_logical_spelled(right);
    }
}

/// A sequence whose raw tokens all hold a word does not fail for want of
/// characters.
pub proof fn lemma_parse_spelled(tokens: Seq<TokenView>)
    requires
        all_spelled(tokens),
    ensures
        parse(tokens) != Err::<AstView, ExceptionView>(ExceptionView::CommandHasNoCharacters),
{
    let bad = ExceptionView::CommandHasNoCharacters;
    if tokens.contains(TokenView::Semicolon) {
        let groups = split(tokens, TokenView::Semicolon);
        let kept = drop_empty(groups);
        let f = |g: Seq<TokenView>| parse_logical(g);
        let p = |t: TokenView| is_spelled(t);
        assert forall|j: int| 0 <= j < tokens.len() implies p(#[trigger] tokens[j]) by {
            assert(is_spelled(tokens[j]));
        }
        lemma_split_from_within(tokens, TokenView::Semicolon, 0, Seq::empty(), p);
        lemma_drop_empty_within(groups, p);
        assert forall|k: int| 0 <= k < kept.len() implies f(#[trigger] kept[k]) != Err::<
            AstView,
            ExceptionView,
        >(bad) by {
            let g = kept[k];
            assert forall|j: int| 0 <= j < g.len() implies is_spelled(#[trigger] g[j]) by {
                assert(p(kept[k][j]));
            }
            lemma_parse_logical_spelled(g);
        }
        lemma_parse_each_never(kept, f, bad);
    } else {
        lemma_parse_logical_spelled(tokens);
    }
}

/// The lexer gives the parser no command without characters: whatever the
/// line, parsing its tokens does not fail with `CommandHasNoCharacters`.
pub proof fn lemma_lexed_commands_have_characters(line: Seq<char>)
    ensures
        parse(tokenize(line)) != Err::<AstView, ExceptionView>(
            ExceptionView::CommandHasNoCharacters,
        ),
{
    let tokens = tokenize(line);
    lemma_tokenize_raw_trimmed(line);
    assert forall|k: int| 0 <= k < tokens.len() implies is_spelled(#[trigger] tokens[k]) by {
        if let TokenView::Raw(text) = tokens[k] {
            assert(is_trimmed(text));
            lemma_first_word(text);
        }
    }
    lemma_parse_spelled(tokens);
}

} // verus!
