//! Evaluation: of a command tree, of a flat token sequence, and of a whole line.

use crate::ast::{parse, parse_to_ast, views, AstItem, AstView, LogicalExpressionOp};
use crate::builtin::{dispatch, evaluate as run_builtin};
use crate::command::{command_of, Command, CommandView};
use crate::exception::Exception;
use crate::grammar::{lemma_parse_well_formed, well_formed};
use crate::shell_state::{OutputView, ShellState, StateView};
use crate::token::{tokenize, tokenize_raw_line, Token, TokenView};
use vstd::prelude::*;
use vstd::string::StringExecFns;

verus! {

/// The status of a command that was not found.
pub const NOT_FOUND: u32 = 127;

/// The error text for a command that was not found.
pub open spec fn not_found_text(name: Seq<char>) -> Seq<char> {
    "command not found: "@ + name
}

/// The state after a failed lookup of `name`.
pub open spec fn not_found(name: Seq<char>, st: StateView) -> StateView {
    st.with_output(st.output.failure(NOT_FOUND, not_found_text(name)))
}

/// The state after `cmd` has run in state `st`: what its builtin leaves, or
/// the not-found record with the keyword when there is none.
pub open spec fn run_command(cmd: CommandView, st: StateView) -> StateView {
    match dispatch(cmd, st) {
        Some(next) => next,
        None => not_found(cmd.keyword, st),
    }
}

/// Whether the right operand of `op` runs after a left operand that ended
/// with success (`ok`) or without.
pub open spec fn runs_right(op: LogicalExpressionOp, ok: bool) -> bool {
    match op {
        LogicalExpressionOp::And => ok,
        LogicalExpressionOp::Or => !ok,
    }
}

/// The state after the tree has been evaluated in state `st`, depth first and
/// left to right.
pub open spec fn eval(tree: AstView, st: StateView) -> StateView
    decreases tree, 0nat,
{
    match tree {
        AstView::Command { keyword, args } => run_command(CommandView { keyword, args }, st),
        AstView::Script(items) => eval_first(items, items.len(), st),
        AstView::LogicalExpression { op, left, right } => {
            let after_left = eval(*left, st);
            if runs_right(op, after_left.output.is_ok()) {
                eval(*right, after_left)
            } else {
                after_left
            }
        },
        AstView::Pipeline(items) => eval_first(items, items.len(), st),
    }
}

/// The state after the first `n` of `items` have been evaluated in order,
/// each in the state that the one before it left.
pub open spec fn eval_first(items: Seq<AstView>, n: nat, st: StateView) -> StateView
    decreases items, n,
{
    if n == 0 || n > items.len() {
        st
    } else {
        eval(items[n - 1], eval_first(items, (n - 1) as nat, st))
    }
}

/// Records that `name` was not found: status 127 and the error text.
fn set_not_found(name: &str, shell_state: &mut ShellState)
    ensures
        final(shell_state)@ == not_found(name@, old(shell_state)@),
{
    let text = String::from_str("command not found: ").concat(name);
    shell_state.output.set_stderr(NOT_FOUND, text);
}

/// Runs one command: hands it to its builtin, or records that there is none.
fn run_leaf(cmd: &Command, shell_state: &mut ShellState)
    ensures
        final(shell_state)@ == run_command(cmd@, old(shell_state)@),
{
    if run_builtin(cmd, shell_state).is_err() {
        set_not_found(cmd.keyword.as_str(), shell_state);
    }
}

/// Evaluates every tree of `items` in order, whatever status each leaves.
fn evaluate_all(items: &Vec<AstItem>, shell_state: &mut ShellState)
    ensures
        final(shell_state)@ == eval_first(views(items@), items.len() as nat, old(shell_state)@),
    decreases items,
{
    let mut k: usize = 0;
    while k < items.len()
        invariant
            k <= items.len(),
            shell_state@ == eval_first(views(items@), k as nat, old(shell_state)@),
        decreases items.len() - k,
    {
        evaluate(&items[k], shell_state);
        k += 1;
    }
}

/// Evaluates a command tree, depth first and left to right.
///
/// A command runs and leaves its output in the state. The items of a script
/// or a pipeline all run in order, none is skipped. Of a logical expression
/// the left operand runs first; the right operand of `&&` runs only if the
/// left one ended with status 0, that of `||` only if it did not.
pub fn evaluate(tree: &AstItem, shell_state: &mut ShellState)
    ensures
        final(shell_state)@ == eval(tree@, old(shell_state)@),
    decreases tree,
{
    match tree {
        AstItem::Command { keyword, args } => {
            let cmd = Command { keyword: keyword.clone(), args: args.clone() };
            run_leaf(&cmd, shell_state);
        },
        AstItem::Script(items) => {
            assert(tree@->Script_0 =~= views(items@));
            evaluate_all(items, shell_state);
        },
        AstItem::LogicalExpression { op, left, right } => {
            evaluate(left, shell_state);
            let ok = shell_state.output.is_ok();
            let go_on = match op {
                LogicalExpressionOp::And => ok,
                LogicalExpressionOp::Or => !ok,
            };
            if go_on {
                evaluate(right, shell_state);
            }
        },
        AstItem::Pipeline(items) => {
            assert(tree@->Pipeline_0 =~= views(items@));
            evaluate_all(items, shell_state);
        },
    }
}

/// The state after the raw text `text` has run as one command in state `st`.
/// A text without a word counts as a command that is not found.
pub open spec fn run_raw(text: Seq<char>, st: StateView) -> StateView {
    match command_of(text) {
        Some(cmd) => run_command(cmd, st),
        None => not_found(text, st),
    }
}

/// The state after the tokens from position `i` on have been evaluated one by
/// one in state `st`; `skip` says that the operand that is being read is
/// passed over.
///
/// `&&` and `||` decide from the status at hand whether their right operand
/// is passed over: `&&` passes it over if the status is not 0, `||` if it is
/// 0. The operand is every command up to the next `&&`, `||` or `;`, so a
/// whole pipeline is passed over or run. A `;` ends the passing over. A raw
/// token that is not passed over runs as a command; `|` and `&` do nothing.
pub open spec fn eval_tokens_from(
    tokens: Seq<TokenView>,
    i: int,
    skip: bool,
    st: StateView,
) -> StateView
    decreases tokens.len() - i,
{
    if i < 0 || i >= tokens.len() {
        st
    } else {
        match tokens[i] {
            TokenView::Raw(text) => eval_tokens_from(
                tokens,
                i + 1,
                skip,
                if skip { st } else { run_raw(text, st) },
            ),
            TokenView::And => eval_tokens_from(tokens, i + 1, !st.output.is_ok(), st),
            TokenView::Or => eval_tokens_from(tokens, i + 1, st.output.is_ok(), st),
            TokenView::Semicolon => eval_tokens_from(tokens, i + 1, false, st),
            _ => eval_tokens_from(tokens, i + 1, skip, st),
        }
    }
}

/// The state after all of `tokens` have been evaluated one by one.
pub open spec fn eval_tokens(tokens: Seq<TokenView>, st: StateView) -> StateView {
    eval_tokens_from(tokens, 0, false, st)
}

/// Runs a raw text as one command. Fails, and leaves the state as it was,
/// exactly when the text has no word or its keyword names nothing to run.
pub fn execute_command(raw_cmd: &String, shell_state: &mut ShellState) -> (r: Result<(), ()>)
    ensures
        match command_of(raw_cmd@) {
            Some(cmd) => match dispatch(cmd, old(shell_state)@) {
                Some(st) => r is Ok && final(shell_state)@ == st,
                None => r is Err && final(shell_state)@ == old(shell_state)@,
            },
            None => r is Err && final(shell_state)@ == old(shell_state)@,
        },
{
    match Command::from_str(raw_cmd.as_str()) {
        Ok(cmd) => run_builtin(&cmd, shell_state),
        Err(e) => Err(e),
    }
}

/// Runs a raw text as one command and records a failure to find it.
fn run_raw_command(text: &String, shell_state: &mut ShellState)
    ensures
        final(shell_state)@ == run_raw(text@, old(shell_state)@),
{
    match Command::from_str(text.as_str()) {
        Ok(cmd) => run_leaf(&cmd, shell_state),
        Err(_) => set_not_found(text.as_str(), shell_state),
    }
}

/// Evaluates a token sequence as it stands, without building a tree.
///
/// The right operand of `&&` and `||`, up to the next `&&`, `||` or `;`,
/// is run or passed over as a whole; what follows a `;` always runs.
pub fn evaluate_tokens(tokens: Vec<Token>, shell_state: &mut ShellState)
    ensures
        final(shell_state)@ == eval_tokens(tokens.deep_view(), old(shell_state)@),
{
    let mut skip = false;
    let mut i: usize = 0;
    while i < tokens.len()
        invariant
            i <= tokens.len(),
            eval_tokens_from(tokens.deep_view(), i as int, skip, shell_state@) == eval_tokens(
                tokens.deep_view(),
                old(shell_state)@,
            ),
        decreases tokens.len() - i,
    {
        match &tokens[i] {
            Token::Raw(cmd) => {
                if !skip {
                    run_raw_command(cmd, shell_state);
                }
            },
            Token::And => {
                skip = !shell_state.output.is_ok();
            },
            Token::Or => {
                skip = shell_state.output.is_ok();
            },
            Token::Semicolon => {
                skip = false;
            },
            _ => {},
        }
        i += 1;
    }
}

/// The outcome of a whole line in state `st`: the output is emptied first;
/// then the line is lexed and parsed, and, unless parsing fails, its tree is
/// evaluated.
pub open spec fn run_line(line: Seq<char>, st: StateView) -> StateView {
    let start = st.with_output(OutputView::empty());
    match parse(tokenize(line)) {
        Ok(tree) => eval(tree, start),
        Err(_) => start,
    }
}

/// Runs one line: empties the output, lexes, parses and evaluates.
///
/// A line that cannot be parsed runs no command at all: the error is
/// returned and the output stays empty.
pub fn run(raw_line: &String, shell_state: &mut ShellState) -> (r: Result<(), Exception>)
    ensures
        final(shell_state)@ == run_line(raw_line@, old(shell_state)@),
        match parse(tokenize(raw_line@)) {
            Ok(_) => r is Ok,
            Err(e) => r is Err && r->Err_0@ == e,
        },
{
    shell_state.output.clear();
    let tokens = tokenize_raw_line(raw_line);
    let slice = tokens.as_slice();
    assert(slice.deep_view() =~= tokens.deep_view());
    match parse_to_ast(slice) {
        Ok(tree) => {
            evaluate(&tree, shell_state);
            Ok(())
        },
        Err(e) => Err(e),
    }
}

/// Sequencing never short-circuits: a script with one more item at its end
/// is the script as it was, followed by that item, whatever status the
/// script left.
pub proof fn lemma_script_runs_every_item(items: Seq<AstView>, last: AstView, st: StateView)
    ensures
        eval(AstView::Script(items.push(last)), st) == eval(
            last,
            eval(AstView::Script(items), st),
        ),
{
    let all = items.push(last);
    assert(all[all.len() - 1] == last);
    lemma_eval_first_prefix(all, items, items.len(), st);
    assert(eval_first(all, all.len(), st) == eval(
        all[all.len() - 1],
        eval_first(all, (all.len() - 1) as nat, st),
    ));
}

/// Evaluating the first `n` items depends on those items only.
pub proof fn lemma_eval_first_prefix(a: Seq<AstView>, b: Seq<AstView>, n: nat, st: StateView)
    requires
        n <= a.len(),
        n <= b.len(),
        forall|k: int| 0 <= k < n ==> a[k] == b[k],
    ensures
        eval_first(a, n, st) == eval_first(b, n, st),
    decreases n,
{
    if n > 0 {
        lemma_eval_first_prefix(a, b, (n - 1) as nat, st);
    }
}

/// A pipeline is evaluated as the script of the same items is.
pub proof fn lemma_pipeline_runs_as_script(items: Seq<AstView>, st: StateView)
    ensures
        eval(AstView::Pipeline(items), st) == eval(AstView::Script(items), st),
{
}

/// `&&` and `||` short-circuit: the left operand always runs; the right one
/// runs in the state that the left one left, and only after success for `&&`
/// and only after failure for `||`. Where it does not run, the state is the
/// one that the left operand left.
pub proof fn lemma_short_circuit(
    op: LogicalExpressionOp,
    left: AstView,
    right: AstView,
    st: StateView,
)
    ensures
        ({
            let tree = AstView::LogicalExpression {
                op,
                left: Box::new(left),
                right: Box::new(right),
            };
            let after_left = eval(left, st);
            let ok = after_left.output.is_ok();
            &&& op == LogicalExpressionOp::And && ok ==> eval(tree, st) == eval(right, after_left)
            &&& op == LogicalExpressionOp::And && !ok ==> eval(tree, st) == after_left
            &&& op == LogicalExpressionOp::Or && !ok ==> eval(tree, st) == eval(right, after_left)
            &&& op == LogicalExpressionOp::Or && ok ==> eval(tree, st) == after_left
        }),
{
}

/// A command whose keyword names nothing to run leaves status 127 and the
/// error text that names the keyword; its output text is gone and every other
/// part of the state is as before.
pub proof fn lemma_unknown_command(keyword: Seq<char>, args: Seq<Seq<char>>, st: StateView)
    requires
        dispatch(CommandView { keyword, args }, st) is None,
    ensures
        ({
            let after = eval(AstView::Command { keyword, args }, st);
            &&& after.output.code == Some(127u32)
            &&& !after.output.is_ok()
            &&& after.output.stderr == Some("command not found: "@ + keyword)
            &&& after.output.stdout is None
            &&& after.output.stdin == st.output.stdin
            &&& after.current_dir == st.current_dir
        }),
{
}

/// Every command leaves a status, found or not.
pub proof fn lemma_command_leaves_status(cmd: CommandView, st: StateView)
    ensures
        run_command(cmd, st).output.code is Some,
        run_command(cmd, st).current_dir == st.current_dir,
        run_command(cmd, st).history == st.history,
{
}

/// Evaluation changes the output only: the directory and the history log
/// stay as they are.
pub proof fn lemma_eval_keeps_context(tree: AstView, st: StateView)
    ensures
        eval(tree, st).current_dir == st.current_dir,
        eval(tree, st).history == st.history,
    decreases tree, 0nat,
{
    match tree {
        AstView::Command { keyword, args } => {
            lemma_command_leaves_status(CommandView { keyword, args }, st);
        },
        AstView::Script(items) => {
            lemma_eval_first_keeps_context(items, items.len(), st);
        },
        AstView::LogicalExpression { op, left, right } => {
            lemma_eval_keeps_context(*left, st);
            lemma_eval_keeps_context(*right, eval(*left, st));
        },
        AstView::Pipeline(items) => {
            lemma_eval_first_keeps_context(items, items.len(), st);
        },
    }
}

/// The step of [`lemma_eval_keeps_context`] for a list of trees.
pub proof fn lemma_eval_first_keeps_context(items: Seq<AstView>, n: nat, st: StateView)
    ensures
        eval_first(items, n, st).current_dir == st.current_dir,
        eval_first(items, n, st).history == st.history,
    decreases items, n,
{
    if 0 < n <= items.len() {
        lemma_eval_first_keeps_context(items, (n - 1) as nat, st);
        lemma_eval_keeps_context(items[n - 1], eval_first(items, (n - 1) as nat, st));
    }
}

/// Every well-formed tree but the empty script leaves a status.
pub proof fn lemma_tree_leaves_status(tree: AstView, st: StateView)
    requires
        well_formed(tree),
        tree != AstView::Script(Seq::empty()),
    ensures
        eval(tree, st).output.code is Some,
    decreases tree,
{
    match tree {
        AstView::Command { keyword, args } => {
            lemma_command_leaves_status(CommandView { keyword, args }, st);
        },
        AstView::Script(items) => {
            assert(items.len() > 0) by {
                if items.len() == 0 {
                    assert(items =~= Seq::<AstView>::empty());
                }
            }
            let last = items[items.len() - 1];
            assert(!(last is Script) && well_formed(last));
            lemma_tree_leaves_status(last, eval_first(items, (items.len() - 1) as nat, st));
            assert(eval(tree, st) == eval_first(items, items.len(), st));
            assert(eval_first(items, items.len(), st) == eval(
                last,
                eval_first(items, (items.len() - 1) as nat, st),
            ));
        },
        AstView::LogicalExpression { op, left, right } => {
            assert(!(*left is Script) && well_formed(*left));
            assert(!(*right is Script) && well_formed(*right));
            lemma_tree_leaves_status(*left, st);
            lemma_tree_leaves_status(*right, eval(*left, st));
        },
        AstView::Pipeline(items) => {
            let last = items[items.len() - 1];
            assert(last is Command && well_formed(last));
            lemma_tree_leaves_status(last, eval_first(items, (items.len() - 1) as nat, st));
            assert(eval(tree, st) == eval_first(items, items.len(), st));
            assert(eval_first(items, items.len(), st) == eval(
                last,
                eval_first(items, (items.len() - 1) as nat, st),
            ));
        },
    }
}

/// A line that parses and holds a command ends with a status; a line that
/// does not parse ends with the empty output.
pub proof fn lemma_line_leaves_status(line: Seq<char>, st: StateView)
    ensures
        match parse(tokenize(line)) {
            Ok(tree) => tree != AstView::Script(Seq::empty()) ==> run_line(
                line,
                st,
            ).output.code is Some,
            Err(_) => run_line(line, st).output == OutputView::empty(),
        },
        run_line(line, st).current_dir == st.current_dir,
        run_line(line, st).history == st.history,
{
    let start = st.with_output(OutputView::empty());
    if let Ok(tree) = parse(tokenize(line)) {
        lemma_parse_well_formed(tokenize(line));
        lemma_eval_keeps_context(tree, start);
        if tree != AstView::Script(Seq::empty()) {
            lemma_tree_leaves_status(tree, start);
        }
    }
}

/// Whether some command of the tree has the keyword `keyword`.
pub open spec fn names(tree: AstView, keyword: Seq<char>) -> bool
    decreases tree,
{
    match tree {
        AstView::Command { keyword: own, args } => own == keyword,
        AstView::Script(items) => exists|i: int|
            0 <= i < items.len() && names(#[trigger] items[i], keyword),
        AstView::LogicalExpression { op, left, right } => names(*left, keyword) || names(
            *right,
            keyword,
        ),
        AstView::Pipeline(items) => exists|i: int|
            0 <= i < items.len() && names(#[trigger] items[i], keyword),
    }
}

/// Whether one of the trees names `keyword`.
fn some_names_keyword(items: &Vec<AstItem>, keyword: &str) -> (found: bool)
    ensures
        found == exists|i: int|
            0 <= i < items.len() && names(#[trigger] views(items@)[i], keyword@),
    decreases items,
{
    let mut k: usize = 0;
    while k < items.len()
        invariant
            k <= items.len(),
            forall|i: int| 0 <= i < k ==> !names(#[trigger] views(items@)[i], keyword@),
        decreases items.len() - k,
    {
        if names_keyword(&items[k], keyword) {
            assert(names(views(items@)[k as int], keyword@));
            return true;
        }
        k += 1;
    }
    false
}

/// Whether some command of the tree has the keyword `keyword`.
pub fn names_keyword(tree: &AstItem, keyword: &str) -> (found: bool)
    ensures
        found == names(tree@, keyword@),
    decreases tree,
{
    match tree {
        AstItem::Command { keyword: own, args } => *own == String::from_str(keyword),
        AstItem::Script(items) => {
            assert(tree@->Script_0 =~= views(items@));
            some_names_keyword(items, keyword)
        },
        AstItem::LogicalExpression { op, left, right } => names_keyword(left, keyword)
            || names_keyword(right, keyword),
        AstItem::Pipeline(items) => {
            assert(tree@->Pipeline_0 =~= views(items@));
            some_names_keyword(items, keyword)
        },
    }
}

/// Whether the line parses and one of its commands is `history`: only then
/// does running the line read the history log of the state.
pub fn needs_history(raw_line: &String) -> (needed: bool)
    ensures
        needed == match parse(tokenize(raw_line@)) {
            Ok(tree) => names(tree, "history"@),
            Err(_) => false,
        },
{
    let tokens = tokenize_raw_line(raw_line);
    let slice = tokens.as_slice();
    assert(slice.deep_view() =~= tokens.deep_view());
    match parse_to_ast(slice) {
        Ok(tree) => names_keyword(&tree, "history"),
        Err(_) => false,
    }
}

/// The same state with another history log.
pub open spec fn with_history(st: StateView, log: Seq<char>) -> StateView {
    StateView { history: log, ..st }
}

/// A tree that does not name `history` is evaluated in the same way
/// whatever the history log holds.
pub proof fn lemma_eval_ignores_history(tree: AstView, st: StateView, log: Seq<char>)
    requires
        !names(tree, "history"@),
    ensures
        eval(tree, with_history(st, log)) == with_history(eval(tree, st), log),
    decreases tree, 0nat,
{
    match tree {
        AstView::Command { keyword, args } => {},
        AstView::Script(items) => {
            lemma_eval_first_ignores_history(items, items.len(), st, log);
        },
        AstView::LogicalExpression { op, left, right } => {
            lemma_eval_ignores_history(*left, st, log);
            lemma_eval_ignores_history(*right, eval(*left, st), log);
        },
        AstView::Pipeline(items) => {
            lemma_eval_first_ignores_history(items, items.len(), st, log);
        },
    }
}

/// The step of [`lemma_eval_ignores_history`] for a list of trees.
pub proof fn lemma_eval_first_ignores_history(
    items: Seq<AstView>,
    n: nat,
    st: StateView,
    log: Seq<char>,
)
    requires
        forall|i: int| 0 <= i < items.len() ==> !names(#[trigger] items[i], "history"@),
    ensures
        eval_first(items, n, with_history(st, log)) == with_history(eval_first(items, n, st), log),
    decreases items, n,
{
    if 0 < n <= items.len() {
        lemma_eval_first_ignores_history(items, (n - 1) as nat, st, log);
        lemma_eval_ignores_history(items[n - 1], eval_first(items, (n - 1) as nat, st), log);
    }
}

/// A line that needs no history leaves the same output whatever the history
/// log holds.
pub proof fn lemma_line_ignores_history(line: Seq<char>, st: StateView, log: Seq<char>)
    requires
        !(parse(tokenize(line)) matches Ok(tree) && names(tree, "history"@)),
    ensures
        run_line(line, with_history(st, log)) == with_history(run_line(line, st), log),
{
    if let Ok(tree) = parse(tokenize(line)) {
        lemma_eval_ignores_history(tree, st.with_output(OutputView::empty()), log);
        assert(with_history(st, log).with_output(OutputView::empty()) == with_history(
            st.with_output(OutputView::empty()),
            log,
        ));
    }
}

} // verus!
