//! Flat evaluation and tree evaluation agree on every line that parses.

use crate::ast::{
    drop_empty, is_logical, last_logical, lemma_last_logical, op_of, parse, parse_command,
    parse_each, parse_logical, parse_pipeline, parse_text, split, split_from, AstView,
};
use crate::command::command_of;
use crate::exception::ExceptionView;
use crate::executor::{eval, eval_first, eval_tokens, eval_tokens_from, run_raw};
use crate::shell_state::StateView;
use crate::token::TokenView;
use vstd::prelude::*;

verus! {

/// Whether flat evaluation from position `i` on ends while it passes an
/// operand over.
pub open spec fn skip_after(tokens: Seq<TokenView>, i: int, skip: bool, st: StateView) -> bool
    decreases tokens.len() - i,
{
    if i < 0 || i >= tokens.len() {
        skip
    } else {
        match tokens[i] {
            TokenView::Raw(text) => skip_after(
                tokens,
                i + 1,
                skip,
                if skip { st } else { run_raw(text, st) },
            ),
            TokenView::And => skip_after(tokens, i + 1, !st.output.is_ok(), st),
            TokenView::Or => skip_after(tokens, i + 1, st.output.is_ok(), st),
            TokenView::Semicolon => skip_after(tokens, i + 1, false, st),
            _ => skip_after(tokens, i + 1, skip, st),
        }
    }
}

/// Flat evaluation of a sequence is flat evaluation of its beginning,
/// followed by that of the rest.
pub proof fn lemma_flat_prefix(
    a: Seq<TokenView>,
    b: Seq<TokenView>,
    i: int,
    skip: bool,
    st: StateView,
)
    requires
        0 <= i <= a.len(),
    ensures
        eval_tokens_from(a + b, i, skip, st) == eval_tokens_from(
            a + b,
            a.len() as int,
            skip_after(a, i, skip, st),
            eval_tokens_from(a, i, skip, st),
        ),
    decreases a.len() - i,
{
    if i < a.len() {
        assert((a + b)[i] == a[i]);
        match a[i] {
            TokenView::Raw(text) => lemma_flat_prefix(
                a,
                b,
                i + 1,
                skip,
                if skip { st } else { run_raw(text, st) },
            ),
            TokenView::And => lemma_flat_prefix(a, b, i + 1, !st.output.is_ok(), st),
            TokenView::Or => lemma_flat_prefix(a, b, i + 1, st.output.is_ok(), st),
            TokenView::Semicolon => lemma_flat_prefix(a, b, i + 1, false, st),
            _ => lemma_flat_prefix(a, b, i + 1, skip, st),
        }
    }
}

/// Flat evaluation of the end of a sequence does not depend on what stands
/// before it.
pub proof fn lemma_flat_shift(
    a: Seq<TokenView>,
    b: Seq<TokenView>,
    j: int,
    skip: bool,
    st: StateView,
)
    requires
        0 <= j <= b.len(),
    ensures
        eval_tokens_from(a + b, a.len() + j, skip, st) == eval_tokens_from(b, j, skip, st),
    decreases b.len() - j,
{
    if j < b.len() {
        assert((a + b)[a.len() + j] == b[j]);
        match b[j] {
            TokenView::Raw(text) => lemma_flat_shift(
                a,
                b,
                j + 1,
                skip,
                if skip { st } else { run_raw(text, st) },
            ),
            TokenView::And => lemma_flat_shift(a, b, j + 1, !st.output.is_ok(), st),
            TokenView::Or => lemma_flat_shift(a, b, j + 1, st.output.is_ok(), st),
            TokenView::Semicolon => lemma_flat_shift(a, b, j + 1, false, st),
            _ => lemma_flat_shift(a, b, j + 1, skip, st),
        }
    }
}

/// `last_logical` is a position of the sequence or -1; the token there is
/// `&&` or `||`, and no token after it is.
pub proof fn lemma_last_logical_is_last(tokens: Seq<TokenView>)
    ensures
        -1 <= last_logical(tokens) < tokens.len(),
        last_logical(tokens) >= 0 ==> is_logical(tokens[last_logical(tokens)]),
        forall|j: int| last_logical(tokens) < j < tokens.len() ==> !is_logical(#[trigger] tokens[j]),
    decreases tokens.len(),
{
    if tokens.len() > 0 && !is_logical(tokens.last()) {
        let shorter = tokens.drop_last();
        lemma_last_logical_is_last(shorter);
        assert forall|j: int| last_logical(tokens) < j < tokens.len() implies !is_logical(
            #[trigger] tokens[j],
        ) by {
            if j < shorter.len() {
                assert(tokens[j] == shorter[j]);
            }
        }
    }
}

/// A sequence that is one command is one raw token.
pub proof fn lemma_single_command(tokens: Seq<TokenView>)
    requires
        parse_command(tokens) is Ok,
    ensures
        tokens.len() == 1,
        tokens[0] is Raw,
        command_of(tokens[0]->Raw_0) is Some,
        parse_command(tokens) == parse_text(tokens[0]->Raw_0),
{
}

/// While no separator has been met, a split goes on with the tokens read so
/// far as its first group.
pub proof fn lemma_split_scan(tokens: Seq<TokenView>, sep: TokenView, i: int, k: int)
    requires
        0 <= i <= k <= tokens.len(),
        forall|j: int| 0 <= j < k ==> #[trigger] tokens[j] != sep,
    ensures
        split_from(tokens, sep, i, tokens.take(i)) == split_from(tokens, sep, k, tokens.take(k)),
    decreases k - i,
{
    if i < k {
        assert(tokens[i] != sep);
        assert(tokens.take(i).push(tokens[i]) =~= tokens.take(i + 1));
        lemma_split_scan(tokens, sep, i + 1, k);
    }
}

/// The split of the end of a sequence does not depend on what stands before
/// it.
pub proof fn lemma_split_shift(
    tokens: Seq<TokenView>,
    sep: TokenView,
    from: int,
    j: int,
    cur: Seq<TokenView>,
)
    requires
        0 <= from <= tokens.len(),
        0 <= j <= tokens.len() - from,
    ensures
        split_from(tokens, sep, from + j, cur) == split_from(tokens.skip(from), sep, j, cur),
    decreases tokens.len() - from - j,
{
    let rest = tokens.skip(from);
    if j < rest.len() {
        assert(rest[j] == tokens[from + j]);
        if tokens[from + j] == sep {
            lemma_split_shift(tokens, sep, from, j + 1, Seq::empty());
        } else {
            lemma_split_shift(tokens, sep, from, j + 1, cur.push(tokens[from + j]));
        }
    }
}

/// A sequence without the separator is its own single group.
pub proof fn lemma_split_none(tokens: Seq<TokenView>, sep: TokenView)
    requires
        !tokens.contains(sep),
    ensures
        split(tokens, sep) == seq![tokens],
{
    lemma_split_scan(tokens, sep, 0, tokens.len() as int);
    assert(tokens.take(0) =~= Seq::<TokenView>::empty());
    assert(tokens.take(tokens.len() as int) =~= tokens);
}

/// A sequence is split into what stands before its first separator and the
/// groups of what stands after it.
pub proof fn lemma_split_at_first(tokens: Seq<TokenView>, sep: TokenView, k: int)
    requires
        0 <= k < tokens.len(),
        tokens[k] == sep,
        forall|j: int| 0 <= j < k ==> #[trigger] tokens[j] != sep,
    ensures
        split(tokens, sep) == seq![tokens.take(k)] + split(tokens.skip(k + 1), sep),
{
    lemma_split_scan(tokens, sep, 0, k);
    assert(tokens.take(0) =~= Seq::<TokenView>::empty());
    lemma_split_shift(tokens, sep, k + 1, 0, Seq::empty());
}

/// The position of the first separator of a sequence that holds one.
pub proof fn first_occurrence(tokens: Seq<TokenView>, sep: TokenView) -> (k: int)
    requires
        tokens.contains(sep),
    ensures
        0 <= k < tokens.len(),
        tokens[k] == sep,
        forall|j: int| 0 <= j < k ==> #[trigger] tokens[j] != sep,
    decreases tokens.len(),
{
    let at = choose|at: int| 0 <= at < tokens.len() && tokens[at] == sep;
    if tokens[0] == sep {
        0
    } else {
        let rest = tokens.drop_first();
        assert(rest[at - 1] == sep);
        let k = first_occurrence(rest, sep);
        assert forall|j: int| 0 <= j < k + 1 implies #[trigger] tokens[j] != sep by {
            if j > 0 {
                assert(tokens[j] == rest[j - 1]);
            }
        }
        assert(tokens[k + 1] == rest[k]);
        k + 1
    }
}

/// Evaluating a list of trees is evaluating its first tree and then the
/// others.
pub proof fn lemma_eval_first_head(first: AstView, others: Seq<AstView>, n: nat, st: StateView)
    requires
        n <= others.len(),
    ensures
        eval_first(seq![first] + others, n + 1, st) == eval_first(others, n, eval(first, st)),
    decreases n,
{
    let all = seq![first] + others;
    if n == 0 {
        assert(all[0] == first);
        assert(eval_first(all, 0, st) == st);
    } else {
        lemma_eval_first_head(first, others, (n - 1) as nat, st);
        assert(all[n as int] == others[n - 1]);
    }
}

/// The commands between the `|` of a sequence are run one after another as
/// the sequence is evaluated flatly, or all passed over.
pub proof fn lemma_flat_pipeline_groups(tokens: Seq<TokenView>, skip: bool, st: StateView)
    requires
        parse_each(split(tokens, TokenView::Pipeline), |g: Seq<TokenView>| parse_command(g)) is Ok,
    ensures
        ({
            let items = parse_each(
                split(tokens, TokenView::Pipeline),
                |g: Seq<TokenView>| parse_command(g),
            )->Ok_0;
            eval_tokens_from(tokens, 0, skip, st) == if skip {
                st
            } else {
                eval_first(items, items.len(), st)
            }
        }),
    decreases tokens.len(),
{
    let sep = TokenView::Pipeline;
    let f = |g: Seq<TokenView>| parse_command(g);
    let groups = split(tokens, sep);
    let items = parse_each(groups, f)->Ok_0;
    let none = Seq::<Seq<TokenView>>::empty();
    assert(parse_each(none, f) == Ok::<Seq<AstView>, ExceptionView>(Seq::empty()));
    if !tokens.contains(sep) {
        lemma_split_none(tokens, sep);
        assert(groups.drop_first() =~= none);
        assert(f(groups[0]) == parse_command(tokens));
        lemma_single_command(tokens);
        let text = tokens[0]->Raw_0;
        let tree = parse_command(tokens)->Ok_0;
        assert(items =~= seq![tree]);
        let after = if skip { st } else { run_raw(text, st) };
        assert(eval_tokens_from(tokens, 1, skip, after) == after);
        assert(eval_tokens_from(tokens, 0, skip, st) == after);
        assert(eval_first(items, 0, st) == st);
        assert(eval_first(items, 1, st) == eval(tree, st));
    } else {
        let k = first_occurrence(tokens, sep);
        let first = tokens.take(k);
        let rest = tokens.skip(k + 1);
        lemma_split_at_first(tokens, sep, k);
        assert(groups.drop_first() =~= split(rest, sep));
        assert(groups[0] == first);
        assert(f(groups[0]) == parse_command(first));
        lemma_single_command(first);
        assert(k == 1);
        assert(tokens[0] == first[0]);
        let text = tokens[0]->Raw_0;
        let tree = parse_command(first)->Ok_0;
        let others = parse_each(split(rest, sep), f)->Ok_0;
        assert(items == seq![tree] + others);
        let after = if skip { st } else { run_raw(text, st) };
        assert(eval_tokens_from(tokens, 0, skip, st) == eval_tokens_from(tokens, 1, skip, after));
        assert(eval_tokens_from(tokens, 1, skip, after) == eval_tokens_from(
            tokens,
            2,
            skip,
            after,
        ));
        assert(tokens =~= tokens.take(2) + rest);
        lemma_flat_shift(tokens.take(2), rest, 0, skip, after);
        lemma_flat_pipeline_groups(rest, skip, after);
        if !skip {
            lemma_eval_first_head(tree, others, others.len(), st);
            assert(eval(tree, st) == after);
        }
    }
}

/// An operand without `&&`, `||` and `;` is evaluated flatly as its tree
/// is, or passed over as a whole.
pub proof fn lemma_flat_operand(tokens: Seq<TokenView>, skip: bool, st: StateView)
    requires
        parse_pipeline(tokens) is Ok,
    ensures
        eval_tokens_from(tokens, 0, skip, st) == if skip {
            st
        } else {
            eval(parse_pipeline(tokens)->Ok_0, st)
        },
{
    let sep = TokenView::Pipeline;
    let f = |g: Seq<TokenView>| parse_command(g);
    let none = Seq::<Seq<TokenView>>::empty();
    assert(parse_each(none, f) == Ok::<Seq<AstView>, ExceptionView>(Seq::empty()));
    if !tokens.contains(sep) {
        lemma_split_none(tokens, sep);
        let groups = split(tokens, sep);
        assert(groups.drop_first() =~= none);
        assert(f(groups[0]) == parse_command(tokens));
        let tree = parse_command(tokens)->Ok_0;
        let items = parse_each(groups, f)->Ok_0;
        assert(items =~= seq![tree]);
        assert(eval_first(items, 0, st) == st);
        assert(eval_first(items, 1, st) == eval(tree, st));
    }
    lemma_flat_pipeline_groups(tokens, skip, st);
}

/// An expression is evaluated flatly as its tree is.
pub proof fn lemma_flat_expression(tokens: Seq<TokenView>, st: StateView)
    requires
        parse_logical(tokens) is Ok,
    ensures
        eval_tokens(tokens, st) == eval(parse_logical(tokens)->Ok_0, st),
    decreases tokens.len(),
{
    lemma_last_logical_is_last(tokens);
    let i = last_logical(tokens);
    if i < 0 {
        assert(parse_logical(tokens) == parse_pipeline(tokens));
        lemma_flat_operand(tokens, false, st);
    } else {
        assert(0 < i < tokens.len() - 1);
        let left = tokens.take(i);
        let right = tokens.skip(i + 1);
        assert forall|j: int| 0 <= j < right.len() implies !is_logical(#[trigger] right[j]) by {
            assert(right[j] == tokens[i + 1 + j]);
        }
        lemma_last_logical(right, -1);
        assert(parse_logical(left) is Ok);
        assert(parse_logical(right) is Ok);
        assert(parse_logical(right) == parse_pipeline(right));
        lemma_flat_expression(left, st);
        let after_left = eval_tokens(left, st);
        let tail = tokens.skip(i);
        assert(tokens =~= left + tail);
        lemma_flat_prefix(left, tail, 0, false, st);
        let before = skip_after(left, 0, false, st);
        let ok = after_left.output.is_ok();
        let skip = if tokens[i] == TokenView::And { !ok } else { ok };
        assert(eval_tokens_from(tokens, i, before, after_left) == eval_tokens_from(
            tokens,
            i + 1,
            skip,
            after_left,
        ));
        assert(tokens =~= tokens.take(i + 1) + right);
        lemma_flat_shift(tokens.take(i + 1), right, 0, skip, after_left);
        lemma_flat_operand(right, skip, after_left);
        let tree = parse_logical(tokens)->Ok_0;
        let l = parse_logical(left)->Ok_0;
        let r = parse_logical(right)->Ok_0;
        assert(tree == AstView::LogicalExpression {
            op: op_of(tokens[i]),
            left: Box::new(l),
            right: Box::new(r),
        });
        assert(eval(l, st) == after_left);
    }
}

/// The trees of the non-empty groups between the `;` of a sequence are
/// evaluated one after another as the sequence is evaluated flatly.
pub proof fn lemma_flat_groups(tokens: Seq<TokenView>, st: StateView)
    requires
        parse_each(
            drop_empty(split(tokens, TokenView::Semicolon)),
            |g: Seq<TokenView>| parse_logical(g),
        ) is Ok,
    ensures
        ({
            let items = parse_each(
                drop_empty(split(tokens, TokenView::Semicolon)),
                |g: Seq<TokenView>| parse_logical(g),
            )->Ok_0;
            eval_tokens(tokens, st) == eval_first(items, items.len(), st)
        }),
    decreases tokens.len(),
{
    let sep = TokenView::Semicolon;
    let f = |g: Seq<TokenView>| parse_logical(g);
    let groups = split(tokens, sep);
    let kept = drop_empty(groups);
    let items = parse_each(kept, f)->Ok_0;
    let none = Seq::<Seq<TokenView>>::empty();
    assert(drop_empty(none) == none);
    assert(parse_each(none, f) == Ok::<Seq<AstView>, ExceptionView>(Seq::empty()));
    if !tokens.contains(sep) {
        lemma_split_none(tokens, sep);
        assert(groups.drop_first() =~= none);
        if tokens.len() == 0 {
            assert(kept =~= none);
        } else {
            assert(kept =~= seq![tokens]);
            assert(kept.drop_first() =~= none);
            assert(f(kept[0]) == parse_logical(tokens));
            let tree = parse_logical(tokens)->Ok_0;
            assert(items =~= seq![tree]);
            lemma_flat_expression(tokens, st);
            assert(eval_first(items, 0, st) == st);
        }
    } else {
        let k = first_occurrence(tokens, sep);
        let first = tokens.take(k);
        let rest = tokens.skip(k + 1);
        let tail = tokens.skip(k);
        lemma_split_at_first(tokens, sep, k);
        assert(groups.drop_first() =~= split(rest, sep));
        assert(groups[0] == first);
        let kept_rest = drop_empty(split(rest, sep));
        assert(tokens =~= first + tail);
        assert(tokens =~= (first + seq![sep]) + rest);
        lemma_flat_prefix(first, tail, 0, false, st);
        let after_first = eval_tokens(first, st);
        let before = skip_after(first, 0, false, st);
        if first.len() == 0 {
            assert(kept == kept_rest);
            assert(after_first == st);
        } else {
            assert(kept =~= seq![first] + kept_rest);
            assert(kept.drop_first() =~= kept_rest);
            assert(f(kept[0]) == parse_logical(first));
            lemma_flat_expression(first, st);
            let tree = parse_logical(first)->Ok_0;
            let others = parse_each(kept_rest, f)->Ok_0;
            assert(items == seq![tree] + others);
            lemma_eval_first_head(tree, others, others.len(), st);
        }
        assert(tokens[k] == sep);
        assert(eval_tokens_from(tokens, k, before, after_first) == eval_tokens_from(
            tokens,
            k + 1,
            false,
            after_first,
        ));
        lemma_flat_shift(first + seq![sep], rest, 0, false, after_first);
        lemma_flat_groups(rest, after_first);
    }
}

/// Flat evaluation agrees with tree evaluation: a token sequence that parses
/// leaves the same state whether it is evaluated token by token or as its
/// tree.
pub proof fn lemma_flat_agrees_with_tree(tokens: Seq<TokenView>, st: StateView)
    requires
        parse(tokens) is Ok,
    ensures
        eval_tokens(tokens, st) == eval(parse(tokens)->Ok_0, st),
{
    if tokens.contains(TokenView::Semicolon) {
        lemma_flat_groups(tokens, st);
    } else {
        lemma_flat_expression(tokens, st);
    }
}

} // verus!
