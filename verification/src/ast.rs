//! The command tree and the parser that builds it from tokens.

use crate::command::{command_of, split_first_word};
use crate::exception::{Exception, ExceptionView};
use crate::grammar::{lemma_parse_well_formed, well_formed};
use crate::text::{is_word, join, join_strings, lemma_words_solid, split_whitespace, words};
use crate::token::{Token, TokenView};
use vstd::prelude::*;
use vstd::slice::slice_subrange;

verus! {

/// The two operators that join commands by their status.
#[derive(Debug, PartialEq, Eq, Structural, Clone, Copy)]
pub enum LogicalExpressionOp {
    Or,
    And,
}

/// A node of the command tree. Every node owns its children.
#[derive(Debug, PartialEq)]
pub enum AstItem {
    /// A leaf: one command.
    Command { keyword: String, args: Vec<String> },
    /// Commands run one after another, whatever their status.
    Script(Vec<AstItem>),
    /// Two sub-trees joined by `&&` or `||`.
    LogicalExpression { op: LogicalExpressionOp, left: Box<AstItem>, right: Box<AstItem> },
    /// Sub-trees joined by `|`.
    Pipeline(Vec<AstItem>),
}

/// The mathematical value of an [`AstItem`].
pub enum AstView {
    Command { keyword: Seq<char>, args: Seq<Seq<char>> },
    Script(Seq<AstView>),
    LogicalExpression { op: LogicalExpressionOp, left: Box<AstView>, right: Box<AstView> },
    Pipeline(Seq<AstView>),
}

/// The value of a tree, node by node.
pub open spec fn ast_view(item: AstItem) -> AstView
    decreases item,
{
    match item {
        AstItem::Command { keyword, args } => AstView::Command {
            keyword: keyword@,
            args: args.deep_view(),
        },
        AstItem::Script(items) => AstView::Script(
            Seq::new(
                items.len() as nat,
                |i: int| if 0 <= i < items.len() { ast_view(items[i]) } else { arbitrary() },
            ),
        ),
        AstItem::LogicalExpression { op, left, right } => AstView::LogicalExpression {
            op,
            left: Box::new(ast_view(*left)),
            right: Box::new(ast_view(*right)),
        },
        AstItem::Pipeline(items) => AstView::Pipeline(
            Seq::new(
                items.len() as nat,
                |i: int| if 0 <= i < items.len() { ast_view(items[i]) } else { arbitrary() },
            ),
        ),
    }
}

impl View for AstItem {
    type V = AstView;

    open spec fn view(&self) -> AstView {
        ast_view(*self)
    }
}

/// Whether a token is `&&` or `||`.
pub open spec fn is_logical(token: TokenView) -> bool {
    token == TokenView::And || token == TokenView::Or
}

/// The operator that a logical token stands for.
pub open spec fn op_of(token: TokenView) -> LogicalExpressionOp {
    if token == TokenView::And {
        LogicalExpressionOp::And
    } else {
        LogicalExpressionOp::Or
    }
}

/// The token that an operator is written as.
pub open spec fn token_of(op: LogicalExpressionOp) -> TokenView {
    match op {
        LogicalExpressionOp::And => TokenView::And,
        LogicalExpressionOp::Or => TokenView::Or,
    }
}

/// The position of the right-most `&&` or `||` in `tokens`, or -1 if there is
/// none.
pub open spec fn last_logical(tokens: Seq<TokenView>) -> int
    decreases tokens.len(),
{
    if tokens.len() == 0 {
        -1
    } else if is_logical(tokens.last()) {
        tokens.len() - 1
    } else {
        last_logical(tokens.drop_last())
    }
}

/// The groups that `tokens` from position `i` on fall into at every `sep`,
/// where `cur` holds the tokens of the group that is being read.
pub open spec fn split_from(
    tokens: Seq<TokenView>,
    sep: TokenView,
    i: int,
    cur: Seq<TokenView>,
) -> Seq<Seq<TokenView>>
    decreases tokens.len() - i,
{
    if i < 0 || i >= tokens.len() {
        seq![cur]
    } else if tokens[i] == sep {
        seq![cur] + split_from(tokens, sep, i + 1, Seq::empty())
    } else {
        split_from(tokens, sep, i + 1, cur.push(tokens[i]))
    }
}

/// `tokens` cut at every occurrence of `sep`: one group more than there are
/// occurrences, empty groups included, the separators left out.
pub open spec fn split(tokens: Seq<TokenView>, sep: TokenView) -> Seq<Seq<TokenView>> {
    split_from(tokens, sep, 0, Seq::empty())
}

/// The groups that hold at least one token, in order.
pub open spec fn drop_empty(groups: Seq<Seq<TokenView>>) -> Seq<Seq<TokenView>>
    decreases groups.len(),
{
    if groups.len() == 0 {
        Seq::empty()
    } else if groups[0].len() == 0 {
        drop_empty(groups.drop_first())
    } else {
        seq![groups[0]] + drop_empty(groups.drop_first())
    }
}

/// Whether one of the groups holds no token.
pub open spec fn has_empty(groups: Seq<Seq<TokenView>>) -> bool {
    exists|i: int| 0 <= i < groups.len() && (#[trigger] groups[i]).len() == 0
}

/// `done` put in front of what the rest gave, if the rest gave anything.
pub open spec fn prepend(
    done: Seq<AstView>,
    rest: Result<Seq<AstView>, ExceptionView>,
) -> Result<Seq<AstView>, ExceptionView> {
    match rest {
        Ok(items) => Ok(done + items),
        Err(e) => Err(e),
    }
}

/// Every group parsed by `f`, in order; the first error ends it.
pub open spec fn parse_each(
    groups: Seq<Seq<TokenView>>,
    f: spec_fn(Seq<TokenView>) -> Result<AstView, ExceptionView>,
) -> Result<Seq<AstView>, ExceptionView>
    decreases groups.len(),
{
    if groups.len() == 0 {
        Ok(Seq::empty())
    } else {
        match f(groups[0]) {
            Ok(item) => prepend(seq![item], parse_each(groups.drop_first(), f)),
            Err(e) => Err(e),
        }
    }
}

/// The tokens as they are written, with one blank between neighbours.
pub open spec fn render(tokens: Seq<TokenView>) -> Seq<char> {
    join(tokens.map_values(|t: TokenView| t.text()), " "@)
}

/// The command that a raw text spells.
pub open spec fn parse_text(text: Seq<char>) -> Result<AstView, ExceptionView> {
    match command_of(text) {
        Some(cmd) => Ok(AstView::Command { keyword: cmd.keyword, args: cmd.args }),
        None => Err(ExceptionView::CommandHasNoCharacters),
    }
}

/// A sequence without `;`, `&&`, `||` and `|`: one raw token, that is one
/// command. An `&` anywhere in it is refused first.
pub open spec fn parse_command(tokens: Seq<TokenView>) -> Result<AstView, ExceptionView> {
    if tokens.contains(TokenView::Async) {
        Err(ExceptionView::AsyncIsUnSupported)
    } else if tokens.len() == 1 && tokens[0] is Raw {
        parse_text(tokens[0]->Raw_0)
    } else {
        Err(ExceptionView::TokensCannotBeParsed(render(tokens)))
    }
}

/// A sequence without `;`, `&&` and `||`: with a `|` in it, the commands
/// between the `|`, none of which may be missing; otherwise one command.
pub open spec fn parse_pipeline(tokens: Seq<TokenView>) -> Result<AstView, ExceptionView> {
    if tokens.contains(TokenView::Pipeline) {
        let groups = split(tokens, TokenView::Pipeline);
        if has_empty(groups) {
            Err(ExceptionView::TokenCannotBeParsed(TokenView::Pipeline))
        } else {
            match parse_each(groups, |g: Seq<TokenView>| parse_command(g)) {
                Ok(items) => Ok(AstView::Pipeline(items)),
                Err(e) => Err(e),
            }
        }
    } else {
        parse_command(tokens)
    }
}

/// A sequence without `;`: it is cut at its right-most `&&` or `||`, which
/// becomes the root, with what stands before it as the left operand and what
/// stands after it as the right one. Neither may be empty. The left operand is
/// parsed first, and its error comes first.
pub open spec fn parse_logical(tokens: Seq<TokenView>) -> Result<AstView, ExceptionView>
    decreases tokens.len(),
{
    let i = last_logical(tokens);
    if i < 0 || i >= tokens.len() {
        parse_pipeline(tokens)
    } else if 0 < i < tokens.len() - 1 {
        match parse_logical(tokens.take(i)) {
            Ok(left) => match parse_logical(tokens.skip(i + 1)) {
                Ok(right) => Ok(
                    AstView::LogicalExpression {
                        op: op_of(tokens[i]),
                        left: Box::new(left),
                        right: Box::new(right),
                    },
                ),
                Err(e) => Err(e),
            },
            Err(e) => Err(e),
        }
    } else {
        Err(ExceptionView::TokenCannotBeParsed(tokens[i]))
    }
}

/// The tree of a token sequence. With a `;` in it, the sequence is a script
/// of the non-empty groups between the `;`; without, it is one expression.
pub open spec fn parse(tokens: Seq<TokenView>) -> Result<AstView, ExceptionView> {
    if tokens.contains(TokenView::Semicolon) {
        let groups = drop_empty(split(tokens, TokenView::Semicolon));
        match parse_each(groups, |g: Seq<TokenView>| parse_logical(g)) {
            Ok(items) => Ok(AstView::Script(items)),
            Err(e) => Err(e),
        }
    } else {
        parse_logical(tokens)
    }
}

impl LogicalExpressionOp {
    /// The operator that `token` stands for, or `TokenIsNotALogicalExpr` with
    /// the token's text when it is neither `&&` nor `||`.
    pub fn try_from(token: &Token) -> (r: Result<LogicalExpressionOp, Exception>)
        ensures
            is_logical(token@) ==> r == Ok::<LogicalExpressionOp, Exception>(op_of(token@)),
            !is_logical(token@) ==> r is Err && r->Err_0@ == ExceptionView::TokenIsNotALogicalExpr(
                token@.text(),
            ),
    {
        match token {
            Token::Or => Ok(LogicalExpressionOp::Or),
            Token::And => Ok(LogicalExpressionOp::And),
            other => Err(Exception::TokenIsNotALogicalExpr(other.to_text())),
        }
    }

    /// The token that this operator is written as.
    pub fn to_token(&self) -> (token: Token)
        ensures
            token@ == token_of(*self),
    {
        match self {
            LogicalExpressionOp::Or => Token::Or,
            LogicalExpressionOp::And => Token::And,
        }
    }
}

/// Whether `r` is the outcome `expected`, values compared by their views.
pub open spec fn is_outcome(
    r: Result<AstItem, Exception>,
    expected: Result<AstView, ExceptionView>,
) -> bool {
    match r {
        Ok(tree) => expected == Ok::<AstView, ExceptionView>(tree@),
        Err(e) => expected == Err::<AstView, ExceptionView>(e@),
    }
}

/// Splits a raw text into keyword and arguments. Fails with
/// `CommandHasNoCharacters` exactly when the text holds no word.
pub fn convert_token_to_command(token: &String) -> (r: Result<AstItem, Exception>)
    ensures
        is_outcome(r, parse_text(token@)),
        r matches Ok(tree) ==> (tree@ matches AstView::Command { keyword, .. } && keyword.len() > 0),
{
    let found = split_first_word(split_whitespace(token.as_str()));
    proof {
        lemma_words_solid(token@);
    }
    match found {
        Some((keyword, args)) => {
            assert(is_word(words(token@)[0]));
            Ok(AstItem::Command { keyword, args })
        },
        None => Err(Exception::CommandHasNoCharacters),
    }
}

impl AstItem {
    /// The command that a raw token spells, or `ConversionNotImplemented` with
    /// the token's text for any other token.
    pub fn try_from(token: &Token) -> (r: Result<AstItem, Exception>)
        ensures
            token@ matches TokenView::Raw(text) ==> is_outcome(r, parse_text(text)),
            !(token@ is Raw) ==> r is Err && r->Err_0@ == ExceptionView::ConversionNotImplemented(
                token@.text(),
            ),
    {
        match token {
            Token::Raw(text) => convert_token_to_command(text),
            other => Err(Exception::ConversionNotImplemented(other.to_text())),
        }
    }
}

/// `last_logical(tokens)` is the one position that holds `&&` or `||` and has
/// neither of them after it; it is -1 when no position holds one.
pub proof fn lemma_last_logical(tokens: Seq<TokenView>, i: int)
    requires
        -1 <= i < tokens.len(),
        i >= 0 ==> is_logical(tokens[i]),
        forall|j: int| i < j < tokens.len() ==> !is_logical(#[trigger] tokens[j]),
    ensures
        last_logical(tokens) == i,
    decreases tokens.len(),
{
    if tokens.len() > 0 && i < tokens.len() - 1 {
        let shorter = tokens.drop_last();
        assert forall|j: int| i < j < shorter.len() implies !is_logical(#[trigger] shorter[j]) by {
            assert(shorter[j] == tokens[j]);
        }
        lemma_last_logical(shorter, i);
    }
}

/// The part `tokens[from..to]` of a slice, with its value.
fn part<'a>(tokens: &'a [Token], from: usize, to: usize) -> (out: &'a [Token])
    requires
        from <= to <= tokens.len(),
    ensures
        out@ == tokens@.subrange(from as int, to as int),
        out.deep_view() == tokens.deep_view().subrange(from as int, to as int),
{
    let out = slice_subrange(tokens, from, to);
    assert(out.deep_view() =~= tokens.deep_view().subrange(from as int, to as int));
    out
}

/// Cuts `tokens` at the right-most `&&` or `||`: the operator, what stands
/// before it and what stands after it. `None` when there is no such token.
/// Never an error.
pub fn split_last_by_logical_expr(tokens: &[Token]) -> (r: Result<
    Option<(LogicalExpressionOp, &[Token], &[Token])>,
    Exception,
>)
    ensures
        r is Ok,
        last_logical(tokens.deep_view()) < 0 <==> r->Ok_0 is None,
        r->Ok_0 matches Some((op, left, right)) ==> {
            let i = last_logical(tokens.deep_view());
            &&& 0 <= i < tokens.len()
            &&& is_logical(tokens.deep_view()[i])
            &&& op == op_of(tokens.deep_view()[i])
            &&& left@ == tokens@.take(i)
            &&& right@ == tokens@.skip(i + 1)
            &&& left.deep_view() == tokens.deep_view().take(i)
            &&& right.deep_view() == tokens.deep_view().skip(i + 1)
        },
{
    let n = tokens.len();
    let mut i: usize = n;
    while i > 0
        invariant
            i <= n,
            n == tokens.len(),
            forall|j: int| i <= j < n ==> !is_logical(#[trigger] tokens.deep_view()[j]),
        decreases i,
    {
        i -= 1;
        let found = match &tokens[i] {
            Token::Or => Some(LogicalExpressionOp::Or),
            Token::And => Some(LogicalExpressionOp::And),
            _ => None,
        };
        if let Some(op) = found {
            proof {
                lemma_last_logical(tokens.deep_view(), i as int);
            }
            let left = part(tokens, 0, i);
            let right = part(tokens, i + 1, n);
            return Ok(Some((op, left, right)));
        }
    }
    proof {
        lemma_last_logical(tokens.deep_view(), -1);
    }
    Ok(None)
}

/// Cuts `tokens` at every token that is the same as `token`. `None` when
/// there is no such token.
pub fn group_by_token<'a>(tokens: &'a [Token], token: &Token) -> (r: Option<Vec<&'a [Token]>>)
    ensures
        r is None <==> !tokens.deep_view().contains(token@),
        r matches Some(groups) ==> groups.deep_view() == split(tokens.deep_view(), token@),
{
    let n = tokens.len();
    let mut groups: Vec<&[Token]> = Vec::new();
    let mut start: usize = 0;
    let mut i: usize = 0;
    let ghost all = tokens.deep_view();
    assert(groups.deep_view() =~= Seq::<Seq<TokenView>>::empty());
    assert(all.subrange(0, 0) =~= Seq::<TokenView>::empty());
    while i < n
        invariant
            start <= i <= n,
            n == tokens.len(),
            all == tokens.deep_view(),
            groups.deep_view() + split_from(all, token@, i as int, all.subrange(start as int, i as int))
                == split(all, token@),
            forall|k: int| start <= k < i ==> all[k] != token@,
            groups.len() == 0 <==> start == 0,
            start > 0 ==> all[start - 1] == token@,
        decreases n - i,
    {
        let ghost before = groups.deep_view();
        let ghost cur = all.subrange(start as int, i as int);
        let ghost rest = split_from(all, token@, i as int, cur);
        if tokens[i].same_as(token) {
            groups.push(part(tokens, start, i));
            start = i + 1;
            i += 1;
            assert(all.subrange(start as int, i as int) =~= Seq::<TokenView>::empty());
            assert(groups.deep_view() =~= before + seq![cur]);
            assert(groups.deep_view() + split_from(all, token@, i as int, Seq::empty()) =~= before
                + rest);
        } else {
            i += 1;
            assert(all.subrange(start as int, i as int) =~= cur.push(all[i - 1]));
        }
    }
    if groups.len() == 0 {
        assert forall|k: int| 0 <= k < all.len() implies all[k] != token@ by {}
        None
    } else {
        let ghost before = groups.deep_view();
        groups.push(part(tokens, start, n));
        assert(groups.deep_view() =~= before + seq![all.subrange(start as int, n as int)]);
        assert(all[start - 1] == token@);
        Some(groups)
    }
}

/// The values of a list of trees.
pub open spec fn views(items: Seq<AstItem>) -> Seq<AstView> {
    Seq::new(items.len(), |i: int| ast_view(items[i]))
}

/// Whether `tokens` holds a token that is the same as `token`.
fn has_token(tokens: &[Token], token: &Token) -> (found: bool)
    ensures
        found == tokens.deep_view().contains(token@),
{
    let mut i: usize = 0;
    while i < tokens.len()
        invariant
            i <= tokens.len(),
            forall|k: int| 0 <= k < i ==> tokens.deep_view()[k] != token@,
        decreases tokens.len() - i,
    {
        if tokens[i].same_as(token) {
            assert(tokens.deep_view()[i as int] == token@);
            return true;
        }
        i += 1;
    }
    false
}

/// The tokens as they are written, with one blank between neighbours.
fn render_tokens(tokens: &[Token]) -> (text: String)
    ensures
        text@ == render(tokens.deep_view()),
{
    let mut texts: Vec<String> = Vec::new();
    let mut i: usize = 0;
    let ghost all = tokens.deep_view().map_values(|t: TokenView| t.text());
    while i < tokens.len()
        invariant
            i <= tokens.len(),
            all == tokens.deep_view().map_values(|t: TokenView| t.text()),
            texts.deep_view() =~= all.take(i as int),
        decreases tokens.len() - i,
    {
        let ghost before = texts.deep_view();
        texts.push(tokens[i].to_text());
        i += 1;
        assert(texts.deep_view() =~= before.push(all[i - 1]));
        assert(all.take(i as int) =~= all.take(i - 1).push(all[i - 1]));
    }
    assert(texts.deep_view() =~= all);
    join_strings(&texts, " ")
}

/// Cuts `tokens` at every `|`. `None` when there is no `|`; an error when a
/// `|` has nothing before it or nothing after it.
pub fn group_by_pipeline(tokens: &[Token]) -> (r: Result<Option<Vec<&[Token]>>, Exception>)
    ensures
        ({
            let all = tokens.deep_view();
            let groups = split(all, TokenView::Pipeline);
            if !all.contains(TokenView::Pipeline) {
                r is Ok && r->Ok_0 is None
            } else if has_empty(groups) {
                r is Err && r->Err_0@ == ExceptionView::TokenCannotBeParsed(TokenView::Pipeline)
            } else {
                r is Ok && r->Ok_0 is Some && r->Ok_0->Some_0.deep_view() == groups
            }
        }),
{
    match group_by_token(tokens, &Token::Pipeline) {
        None => Ok(None),
        Some(groups) => {
            let mut k: usize = 0;
            while k < groups.len()
                invariant
                    k <= groups.len(),
                    tokens.deep_view().contains(TokenView::Pipeline),
                    groups.deep_view() == split(tokens.deep_view(), TokenView::Pipeline),
                    forall|j: int| 0 <= j < k ==> (#[trigger] groups.deep_view()[j]).len() > 0,
                decreases groups.len() - k,
            {
                if groups[k].len() == 0 {
                    assert(split(tokens.deep_view(), TokenView::Pipeline)[k as int].len() == 0);
                    return Err(Exception::TokenCannotBeParsed(Token::Pipeline));
                }
                assert(groups.deep_view()[k as int].len() == groups[k as int]@.len());
                k += 1;
            }
            Ok(Some(groups))
        },
    }
}

/// Parses a sequence that holds no `;`, `&&`, `||` or `|`.
fn command_from_tokens(tokens: &[Token]) -> (r: Result<AstItem, Exception>)
    ensures
        is_outcome(r, parse_command(tokens.deep_view())),
{
    if has_token(tokens, &Token::Async) {
        return Err(Exception::AsyncIsUnSupported);
    }
    if tokens.len() == 1 {
        if let Token::Raw(text) = &tokens[0] {
            return convert_token_to_command(text);
        }
    }
    Err(Exception::TokensCannotBeParsed(render_tokens(tokens)))
}

/// Parses a sequence that holds no `;`, `&&` or `||`.
fn pipeline_from_tokens(tokens: &[Token]) -> (r: Result<AstItem, Exception>)
    ensures
        is_outcome(r, parse_pipeline(tokens.deep_view())),
{
    match group_by_pipeline(tokens) {
        Err(e) => Err(e),
        Ok(None) => command_from_tokens(tokens),
        Ok(Some(groups)) => {
            let ghost f = |g: Seq<TokenView>| parse_command(g);
            let ghost all = groups.deep_view();
            let mut items: Vec<AstItem> = Vec::new();
            let mut k: usize = 0;
            assert(all.skip(0) =~= all);
            assert(views(items@) =~= Seq::<AstView>::empty());
            while k < groups.len()
                invariant
                    k <= groups.len(),
                    all == groups.deep_view(),
                    tokens.deep_view().contains(TokenView::Pipeline),
                    all == split(tokens.deep_view(), TokenView::Pipeline),
                    !has_empty(all),
                    f == |g: Seq<TokenView>| parse_command(g),
                    prepend(views(items@), parse_each(all.skip(k as int), f)) == parse_each(all, f),
                decreases groups.len() - k,
            {
                let ghost done = views(items@);
                let ghost rest = all.skip(k as int);
                assert(rest.drop_first() =~= all.skip(k + 1));
                assert(rest[0] == groups[k as int].deep_view());
                assert(f(rest[0]) == parse_command(rest[0]));
                match command_from_tokens(groups[k]) {
                    Err(e) => {
                        assert(parse_each(rest, f) == Err::<Seq<AstView>, ExceptionView>(e@));
                        return Err(e);
                    },
                    Ok(item) => {
                        items.push(item);
                        assert(views(items@) =~= done + seq![item@]);
                        assert(forall|more: Seq<AstView>| done + (seq![item@] + more) =~= (done
                            + seq![item@]) + more);
                    },
                }
                k += 1;
            }
            assert(all.skip(k as int) =~= Seq::<Seq<TokenView>>::empty());
            assert(views(items@) + Seq::<AstView>::empty() =~= views(items@));
            let tree = AstItem::Pipeline(items);
            assert(tree@ == AstView::Pipeline(views(items@))) by {
                assert(tree@->Pipeline_0 =~= views(items@));
            }
            Ok(tree)
        },
    }
}

/// Parses a sequence that holds no `;`.
fn expression_from_tokens(tokens: &[Token]) -> (r: Result<AstItem, Exception>)
    ensures
        is_outcome(r, parse_logical(tokens.deep_view())),
    decreases tokens.len(),
{
    match split_last_by_logical_expr(tokens) {
        Err(e) => Err(e),
        Ok(None) => pipeline_from_tokens(tokens),
        Ok(Some((op, left, right))) => {
            if left.len() == 0 || right.len() == 0 {
                return Err(Exception::TokenCannotBeParsed(op.to_token()));
            }
            let left_tree = match expression_from_tokens(left) {
                Ok(tree) => tree,
                Err(e) => {
                    return Err(e);
                },
            };
            let right_tree = match expression_from_tokens(right) {
                Ok(tree) => tree,
                Err(e) => {
                    return Err(e);
                },
            };
            Ok(
                AstItem::LogicalExpression {
                    op,
                    left: Box::new(left_tree),
                    right: Box::new(right_tree),
                },
            )
        },
    }
}

/// Builds the command tree of a token sequence.
///
/// A sequence with a `;` becomes a `Script` of what stands between the `;`,
/// empty stretches left out. Otherwise the right-most `&&` or `||` becomes the
/// root of a `LogicalExpression`; without one, a sequence with `|` becomes a
/// `Pipeline`; without that, the sequence has to be one raw token, which
/// becomes a `Command`. Whatever does not fit is reported as an error, and no
/// tree is returned.
pub fn parse_to_ast(tokens: &[Token]) -> (r: Result<AstItem, Exception>)
    ensures
        is_outcome(r, parse(tokens.deep_view())),
        r matches Ok(tree) ==> well_formed(tree@),
{
    proof {
        lemma_parse_well_formed(tokens.deep_view());
    }
    match group_by_token(tokens, &Token::Semicolon) {
        None => expression_from_tokens(tokens),
        Some(groups) => {
            let ghost f = |g: Seq<TokenView>| parse_logical(g);
            let ghost all = groups.deep_view();
            let mut items: Vec<AstItem> = Vec::new();
            let mut k: usize = 0;
            assert(all.skip(0) =~= all);
            assert(views(items@) =~= Seq::<AstView>::empty());
            while k < groups.len()
                invariant
                    k <= groups.len(),
                    all == groups.deep_view(),
                    tokens.deep_view().contains(TokenView::Semicolon),
                    all == split(tokens.deep_view(), TokenView::Semicolon),
                    f == |g: Seq<TokenView>| parse_logical(g),
                    prepend(views(items@), parse_each(drop_empty(all.skip(k as int)), f))
                        == parse_each(drop_empty(all), f),
                decreases groups.len() - k,
            {
                let ghost done = views(items@);
                let ghost rest = all.skip(k as int);
                assert(rest.drop_first() =~= all.skip(k + 1));
                assert(rest[0] == groups[k as int].deep_view());
                assert(f(rest[0]) == parse_logical(rest[0]));
                if groups[k].len() > 0 {
                    let ghost kept = drop_empty(rest);
                    assert(kept.drop_first() =~= drop_empty(all.skip(k + 1)));
                    assert(kept[0] == rest[0]);
                    match expression_from_tokens(groups[k]) {
                        Err(e) => {
                            assert(parse_each(kept, f) == Err::<Seq<AstView>, ExceptionView>(e@));
                            return Err(e);
                        },
                        Ok(item) => {
                            items.push(item);
                            assert(views(items@) =~= done + seq![item@]);
                            assert(forall|more: Seq<AstView>|
                                done + (seq![item@] + more) =~= (done + seq![item@]) + more);
                        },
                    }
                }
                k += 1;
            }
            assert(all.skip(k as int) =~= Seq::<Seq<TokenView>>::empty());
            assert(views(items@) + Seq::<AstView>::empty() =~= views(items@));
            let tree = AstItem::Script(items);
            assert(tree@ == AstView::Script(views(items@))) by {
                assert(tree@->Script_0 =~= views(items@));
            }
            Ok(tree)
        },
    }
}

} // verus!
