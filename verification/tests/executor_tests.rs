use shell_core::ast::{parse_to_ast, AstItem, LogicalExpressionOp};
use shell_core::exception::Exception;
use shell_core::executor::{
    evaluate, evaluate_tokens, execute_command, names_keyword, needs_history, run,
};
use shell_core::shell_state::ShellState;
use shell_core::token::Token;
use shell_core::token::Token::{And, Or, Raw, Semicolon};
use shell_core::token::tokenize_raw_line;

fn eval_line(line: &str) -> ShellState {
    let mut state = ShellState::default();
    let tree = parse_to_ast(&tokenize_raw_line(&String::from(line))).unwrap();
    evaluate(&tree, &mut state);
    state
}

fn cmd(text: &str) -> AstItem {
    AstItem::try_from(&Raw(String::from(text))).unwrap()
}

#[test]
fn mod_or_token_should_only_eval_first_cmd_when_first_succeeds() {
    let mut state = ShellState::default();

    evaluate_tokens(
        vec![
            Raw(String::from("true")),
            Or,
            Raw(String::from("UNKNOWN_COMMAND")),
        ],
        &mut state,
    );

    assert_eq!(state.output.code, Some(0));
}

#[test]
fn mod_or_token_should_eval_second_cmd_when_first_fails() {
    let mut state = ShellState::default();

    evaluate_tokens(
        vec![
            Raw(String::from("UNKNOWN_COMMAND")),
            Or,
            Raw(String::from("true")),
        ],
        &mut state,
    );

    assert_eq!(state.output.code, Some(0));
}

#[test]
fn mod_and_token_should_eval_second_cmd_when_first_cmd_succeeds() {
    let mut state = ShellState::default();

    evaluate_tokens(
        vec![Raw(String::from("true")), And, Raw(String::from("false"))],
        &mut state,
    );

    assert_eq!(state.output.code, Some(1));
}

#[test]
fn mod_and_token_should_not_eval_second_cmd_when_first_cmd_fails() {
    let mut state = ShellState::default();

    evaluate_tokens(
        vec![Raw(String::from("false")), And, Raw(String::from("true"))],
        &mut state,
    );

    assert_eq!(state.output.code, Some(1));
}

#[test]
fn mod_semicolon_terminator_should_eval_when_first_cmd_fails() {
    let mut state = ShellState::default();

    evaluate_tokens(
        vec![
            Raw(String::from("false")),
            Semicolon,
            Raw(String::from("true")),
        ],
        &mut state,
    );

    assert_eq!(state.output.code, Some(0));
}

#[test]
fn mod_semicolon_terminator_should_eval_when_first_cmd_succeeds() {
    let mut state = ShellState::default();

    evaluate_tokens(
        vec![
            Raw(String::from("true")),
            Semicolon,
            Raw(String::from("echo foo")),
        ],
        &mut state,
    );

    assert_eq!(state.output.code, Some(0));
    assert_eq!(state.output.stdout, Some(String::from("foo")));
}

#[test]
fn mod_evaluate_should_always_evaluate_all_tokens() {
    let mut state = ShellState::default();

    evaluate_tokens(
        vec![
            Raw(String::from("false")),
            And,
            Raw(String::from("true")),
            Or,
            Raw(String::from("false")),
            Semicolon,
            Raw(String::from("UNKNOWN COMMAND")),
        ],
        &mut state,
    );

    assert_eq!(state.output.code, Some(127));
}

#[test]
fn sequencing_never_short_circuits() {
    let state = eval_line("false; echo x");
    assert_eq!(state.output.code, Some(0));
    assert_eq!(state.output.stdout, Some(String::from("x")));
    assert_eq!(state.output.stderr, None);
}

#[test]
fn or_skips_the_right_side_after_success() {
    let state = eval_line("true || UNKNOWN");
    assert_eq!(state.output.code, Some(0));
    assert_eq!(state.output.stderr, None);
}

#[test]
fn and_skips_the_right_side_after_failure() {
    let state = eval_line("false && UNKNOWN");
    assert_eq!(state.output.code, Some(1));
    assert_eq!(state.output.stderr, None);
    let state = eval_line("false && echo x");
    assert_eq!(state.output.code, Some(1));
    assert_eq!(state.output.stdout, None);
}

#[test]
fn and_runs_the_right_side_after_success() {
    let state = eval_line("true && echo x");
    assert_eq!(state.output.code, Some(0));
    assert_eq!(state.output.stdout, Some(String::from("x")));
    let state = eval_line("false || echo y");
    assert_eq!(state.output.code, Some(0));
    assert_eq!(state.output.stdout, Some(String::from("y")));
}

#[test]
fn an_unknown_command_sets_status_127() {
    let state = eval_line("UNKNOWN a b");
    assert_eq!(state.output.code, Some(127));
    assert_eq!(state.output.stderr, Some(String::from("command not found: UNKNOWN")));
    assert_eq!(state.output.stdout, None);
    for keyword in ["cd", "pwd"] {
        let state = eval_line(keyword);
        assert_eq!(state.output.code, Some(127));
        assert_eq!(state.output.stderr, Some(format!("command not found: {}", keyword)));
    }
}

#[test]
fn the_mixed_line_runs_its_last_command() {
    let state = eval_line("false && true || false; echo end");
    assert_eq!(state.output.code, Some(0));
    assert_eq!(state.output.stdout, Some(String::from("end")));
}

#[test]
fn the_last_operator_is_applied_last() {
    let state = eval_line("true || false && echo x");
    assert_eq!(state.output.stdout, Some(String::from("x")));
    let state = eval_line("false && true || echo y");
    assert_eq!(state.output.stdout, Some(String::from("y")));
    let state = eval_line("false || false && echo z");
    assert_eq!(state.output.code, Some(1));
    assert_eq!(state.output.stdout, None);
}

#[test]
fn a_pipeline_runs_every_item() {
    let state = eval_line("echo a | false | echo b");
    assert_eq!(state.output.code, Some(0));
    assert_eq!(state.output.stdout, Some(String::from("b")));
    let state = eval_line("false && echo a | echo b");
    assert_eq!(state.output.code, Some(1));
    assert_eq!(state.output.stdout, None);
}

#[test]
fn an_empty_script_runs_nothing() {
    let state = eval_line(";");
    assert_eq!(state.output.code, None);
    let mut state = ShellState::default();
    state.output.set_stdout(String::from("before"));
    evaluate(&AstItem::Script(Vec::new()), &mut state);
    assert_eq!(state.output.stdout, Some(String::from("before")));
    evaluate(&AstItem::Pipeline(Vec::new()), &mut state);
    assert_eq!(state.output.stdout, Some(String::from("before")));
}

#[test]
fn trees_built_by_hand_are_evaluated() {
    let tree = AstItem::LogicalExpression {
        op: LogicalExpressionOp::Or,
        left: Box::new(AstItem::Script(vec![cmd("true"), cmd("false")])),
        right: Box::new(cmd("echo rescued")),
    };
    let mut state = ShellState::default();
    evaluate(&tree, &mut state);
    assert_eq!(state.output.stdout, Some(String::from("rescued")));
    let tree = AstItem::Command { keyword: String::from(""), args: vec![] };
    evaluate(&tree, &mut state);
    assert_eq!(state.output.code, Some(127));
    assert_eq!(state.output.stderr, Some(String::from("command not found: ")));
}

#[test]
fn a_raw_command_runs_or_is_left_alone() {
    let mut state = ShellState::default();
    assert_eq!(execute_command(&String::from("echo a  b"), &mut state), Ok(()));
    assert_eq!(state.output.stdout, Some(String::from("a b")));
    assert_eq!(execute_command(&String::from("nope"), &mut state), Err(()));
    assert_eq!(state.output.stdout, Some(String::from("a b")));
    assert_eq!(execute_command(&String::from("   "), &mut state), Err(()));
    assert_eq!(state.output.stdout, Some(String::from("a b")));
}

#[test]
fn flat_evaluation_passes_a_whole_pipeline_over_after_or() {
    let mut state = ShellState::default();
    evaluate_tokens(
        vec![
            Raw(String::from("true")),
            Or,
            Raw(String::from("echo a")),
            Token::Pipeline,
            Raw(String::from("echo b")),
        ],
        &mut state,
    );
    assert_eq!(state.output.code, Some(0));
    assert_eq!(state.output.stdout, None);
    assert_eq!(state.output.stderr, None);
}

#[test]
fn flat_evaluation_passes_a_whole_pipeline_over_after_and() {
    let mut state = ShellState::default();
    evaluate_tokens(tokenize_raw_line(&String::from("false && echo a | echo b")), &mut state);
    assert_eq!(state.output.code, Some(1));
    assert_eq!(state.output.stdout, None);
    assert_eq!(state.output.stderr, None);
}

#[test]
fn flat_evaluation_runs_a_whole_pipeline() {
    let mut state = ShellState::default();
    evaluate_tokens(tokenize_raw_line(&String::from("true && echo a | false | echo b")), &mut state);
    assert_eq!(state.output.code, Some(0));
    assert_eq!(state.output.stdout, Some(String::from("b")));
}

#[test]
fn flat_evaluation_decides_anew_at_each_operator() {
    let mut state = ShellState::default();
    evaluate_tokens(
        tokenize_raw_line(&String::from("false && echo a | echo b || echo c")),
        &mut state,
    );
    assert_eq!(state.output.stdout, Some(String::from("c")));
    let mut state = ShellState::default();
    evaluate_tokens(
        tokenize_raw_line(&String::from("true || echo a | echo b && echo c")),
        &mut state,
    );
    assert_eq!(state.output.stdout, Some(String::from("c")));
}

#[test]
fn flat_evaluation_stops_passing_over_at_a_semicolon() {
    let mut state = ShellState::default();
    evaluate_tokens(
        vec![Raw(String::from("false")), And, Raw(String::from("echo a")), Semicolon, Raw(String::from("echo x"))],
        &mut state,
    );
    assert_eq!(state.output.stdout, Some(String::from("x")));
    let mut state = ShellState::default();
    evaluate_tokens(
        vec![Raw(String::from("false")), And, Semicolon, Raw(String::from("echo y"))],
        &mut state,
    );
    assert_eq!(state.output.stdout, Some(String::from("y")));
}

#[test]
fn flat_evaluation_of_odd_sequences() {
    let mut state = ShellState::default();
    evaluate_tokens(
        vec![Raw(String::from("false")), And, Token::Pipeline, Raw(String::from("echo x"))],
        &mut state,
    );
    assert_eq!(state.output.code, Some(1));
    assert_eq!(state.output.stdout, None);
    let mut state = ShellState::default();
    evaluate_tokens(vec![Raw(String::from("  ")), Or, Raw(String::from("echo y"))], &mut state);
    assert_eq!(state.output.stdout, Some(String::from("y")));
    let mut state = ShellState::default();
    evaluate_tokens(vec![Raw(String::from(" "))], &mut state);
    assert_eq!(state.output.code, Some(127));
    assert_eq!(state.output.stderr, Some(String::from("command not found:  ")));
    let mut state = ShellState::default();
    evaluate_tokens(vec![Raw(String::from("nope a"))], &mut state);
    assert_eq!(state.output.stderr, Some(String::from("command not found: nope")));
    let mut state = ShellState::default();
    evaluate_tokens(vec![And, Raw(String::from("echo skipped")), Token::Async], &mut state);
    assert_eq!(state.output.code, None);
    let mut state = ShellState::default();
    evaluate_tokens(
        vec![Raw(String::from("true")), Token::Async, Raw(String::from("echo z"))],
        &mut state,
    );
    assert_eq!(state.output.stdout, Some(String::from("z")));
}

#[test]
fn flat_and_tree_evaluation_agree() {
    for line in [
        "true", "false && true || false; echo end", "true || false && echo x", "nope || echo a; false",
        "a && b || c && echo d ; ; echo e || f", "false || false || echo g && false",
        "true || echo a | echo b", "false && echo a | echo b", "echo a | echo b",
        "true && echo a | false | echo b || echo c", "false | true && echo d | nope; echo e | false",
        "nope | true || echo f | echo g && echo h | false || echo i",
    ] {
        let tokens = tokenize_raw_line(&String::from(line));
        let tree = parse_to_ast(&tokens).unwrap();
        let mut by_tree = ShellState::default();
        evaluate(&tree, &mut by_tree);
        let mut flat = ShellState::default();
        evaluate_tokens(tokens, &mut flat);
        assert_eq!(flat.output.code, by_tree.output.code);
        assert_eq!(flat.output.stdout, by_tree.output.stdout);
        assert_eq!(flat.output.stderr, by_tree.output.stderr);
    }
}

#[test]
fn a_line_runs_from_an_empty_output() {
    let mut state = ShellState::default();
    state.output.set_stderr(9, String::from("old"));
    state.output.stdin = Some(String::from("old in"));
    assert_eq!(run(&String::from("true"), &mut state), Ok(()));
    assert_eq!(state.output.code, Some(0));
    assert_eq!(state.output.stdout, None);
    assert_eq!(state.output.stderr, None);
    assert_eq!(state.output.stdin, None);
    assert_eq!(run(&String::from("echo a; echo 'b  c' # d"), &mut state), Ok(()));
    assert_eq!(state.output.stdout, Some(String::from("'b c'")));
}

#[test]
fn a_line_with_a_grammar_error_runs_nothing() {
    let mut state = ShellState::default();
    state.output.set_stdout(String::from("old"));
    assert_eq!(
        run(&String::from("echo a; echo b &&"), &mut state),
        Err(Exception::TokenCannotBeParsed(And))
    );
    assert_eq!(state.output.code, None);
    assert_eq!(state.output.stdout, None);
    assert_eq!(run(&String::from("echo a &"), &mut state), Err(Exception::AsyncIsUnSupported));
    assert_eq!(state.output.code, None);
    assert_eq!(
        run(&String::from(""), &mut state),
        Err(Exception::TokensCannotBeParsed(String::new()))
    );
}

#[test]
fn a_line_with_a_command_leaves_a_status() {
    for line in ["true", "false", "nope", "echo", "a && b", "true || b", "a | b", "a; b", ";a;", "cat"] {
        let mut state = ShellState::default();
        state.current_dir = String::from("/tmp");
        assert_eq!(run(&String::from(line), &mut state), Ok(()));
        assert!(state.output.code.is_some());
        assert_eq!(state.current_dir, "/tmp");
    }
    let mut state = ShellState::default();
    assert_eq!(run(&String::from(" ; ;"), &mut state), Ok(()));
    assert_eq!(state.output.code, None);
}

#[test]
fn a_tree_names_the_keywords_of_its_commands() {
    let tree = parse_to_ast(&tokenize_raw_line(&String::from("a x && b | c; d || history e"))).unwrap();
    for keyword in ["a", "b", "c", "d", "history"] {
        assert!(names_keyword(&tree, keyword));
    }
    for keyword in ["x", "e", "", "History", "a x"] {
        assert!(!names_keyword(&tree, keyword));
    }
    assert!(!names_keyword(&AstItem::Script(Vec::new()), "history"));
}

#[test]
fn history_is_needed_where_a_command_is_history() {
    for line in [
        "history", " history 5 ", "true; history", "false && history", "echo a | history",
        "histor\\y",
    ] {
        assert!(needs_history(&String::from(line)));
    }
    for line in ["", "echo history", "'history'", "history &", "history &&", "# history", "'histor'y"] {
        assert!(!needs_history(&String::from(line)));
    }
}

#[test]
fn a_line_without_history_ignores_the_log() {
    for line in ["echo a; false || nope", "true && cat | clear"] {
        let mut plain = ShellState::default();
        let mut with_log = ShellState::default();
        with_log.history = String::from("not a log at all");
        assert_eq!(run(&String::from(line), &mut plain), Ok(()));
        assert_eq!(run(&String::from(line), &mut with_log), Ok(()));
        assert_eq!(plain.output.code, with_log.output.code);
        assert_eq!(plain.output.stdout, with_log.output.stdout);
        assert_eq!(plain.output.stderr, with_log.output.stderr);
        assert_eq!(with_log.history, "not a log at all");
    }
}
