use shell_core::ast::AstItem::{Command, LogicalExpression, Pipeline, Script};
use shell_core::ast::{
    convert_token_to_command, group_by_pipeline, group_by_token, parse_to_ast,
    split_last_by_logical_expr, AstItem, LogicalExpressionOp,
};
use shell_core::exception::Exception;
use shell_core::token::{tokenize_raw_line, Token};

fn create_raw(token: &str) -> Token {
    Token::Raw(String::from(token))
}

fn create_cmd(token: &str) -> AstItem {
    AstItem::try_from(&Token::Raw(String::from(token))).unwrap()
}

fn parse_line(line: &str) -> Result<AstItem, Exception> {
    parse_to_ast(&tokenize_raw_line(&String::from(line)))
}

#[test]
fn ast_test_logical_expression() {
    let expect = LogicalExpression {
        op: LogicalExpressionOp::Or,
        left: Box::new(Command {
            keyword: String::from("a"),
            args: Vec::new(),
        }),
        right: Box::new(Command {
            keyword: String::from("b"),
            args: Vec::new(),
        }),
    };

    // a || b
    let from = &[create_raw("a"), Token::Or, create_raw("b")];

    assert_eq!(parse_to_ast(from), Ok(expect));
}

// The last logical expression token should be the top of the tree
// since this represents execution order
#[test]
fn ast_test_multiple_logical_expression() {
    let expect = LogicalExpression {
        op: LogicalExpressionOp::And,
        left: Box::new(LogicalExpression {
            op: LogicalExpressionOp::Or,
            left: Box::new(AstItem::Command {
                keyword: String::from("a"),
                args: Vec::new(),
            }),
            right: Box::new(AstItem::Command {
                keyword: String::from("b"),
                args: Vec::new(),
            }),
        }),
        right: Box::new(AstItem::Command {
            keyword: String::from("c"),
            args: Vec::new(),
        }),
    };

    // a || b && c
    let from = &[
        create_raw("a"),
        Token::Or,
        create_raw("b"),
        Token::And,
        create_raw("c"),
    ];

    assert_eq!(parse_to_ast(from), Ok(expect));
}

#[test]
fn logical_expression_should_have_values() {
    assert_eq!(
        parse_to_ast(&[Token::And]),
        Err(Exception::TokenCannotBeParsed(Token::And))
    )
}

#[test]
fn logical_expression_should_have_a_left_value() {
    assert_eq!(
        parse_to_ast(&[Token::And, create_raw("a")]),
        Err(Exception::TokenCannotBeParsed(Token::And))
    )
}

#[test]
fn logical_expression_should_have_a_right_value() {
    assert_eq!(
        parse_to_ast(&[create_raw("a"), Token::And]),
        Err(Exception::TokenCannotBeParsed(Token::And))
    )
}

#[test]
fn ast_test_pipeline() {
    let from = &[create_raw("a"), Token::Pipeline, create_raw("b")];

    let expect = Pipeline(vec![
        Command {
            keyword: String::from("a"),
            args: Vec::new(),
        },
        Command {
            keyword: String::from("b"),
            args: Vec::new(),
        },
    ]);

    assert_eq!(parse_to_ast(from), Ok(expect))
}

#[test]
fn ast_test_multiple_pipelines() {
    let from = &[
        create_raw("a"),
        Token::Pipeline,
        create_raw("b"),
        Token::Pipeline,
        create_raw("c"),
    ];

    let expect = Pipeline(vec![
        Command {
            keyword: String::from("a"),
            args: Vec::new(),
        },
        Command {
            keyword: String::from("b"),
            args: Vec::new(),
        },
        Command {
            keyword: String::from("c"),
            args: Vec::new(),
        },
    ]);

    assert_eq!(parse_to_ast(from), Ok(expect))
}

#[test]
fn pipeline_should_have_values() {
    let tokens = &[Token::Pipeline];
    assert_eq!(
        parse_to_ast(tokens),
        Err(Exception::TokenCannotBeParsed(Token::Pipeline))
    );
}

#[test]
fn pipeline_should_have_a_left_value() {
    let tokens = &[create_raw("a"), Token::Pipeline];
    assert_eq!(
        parse_to_ast(tokens),
        Err(Exception::TokenCannotBeParsed(Token::Pipeline))
    );
}

#[test]
fn pipeline_should_have_a_right_value() {
    let tokens = &[Token::Pipeline, create_raw("a")];
    assert_eq!(
        parse_to_ast(tokens),
        Err(Exception::TokenCannotBeParsed(Token::Pipeline))
    );
}

#[test]
fn ast_test_semicolon() {
    let from = &[create_raw("a"), Token::Semicolon, create_raw("b")];

    let expect = Script(vec![
        Command {
            keyword: String::from("a"),
            args: Vec::new(),
        },
        Command {
            keyword: String::from("b"),
            args: Vec::new(),
        },
    ]);

    assert_eq!(parse_to_ast(from), Ok(expect))
}

#[test]
fn test_semicolon_with_only_empty_values() {
    let tokens = &[Token::Semicolon];
    assert_eq!(parse_to_ast(tokens), Ok(Script(Vec::new())));
}

#[test]
fn test_semicolon_with_only_left_value() {
    let tokens = &[create_raw("a"), Token::Semicolon];
    assert_eq!(parse_to_ast(tokens), Ok(Script(vec![create_cmd("a")])));
}

#[test]
fn test_semicolon_with_only_right_value() {
    let tokens = &[Token::Semicolon, create_raw("a")];
    assert_eq!(parse_to_ast(tokens), Ok(Script(vec![create_cmd("a")])));
}

#[test]
fn ast_test_multiple_semicolons() {
    let from = &[
        create_raw("a"),
        Token::Semicolon,
        create_raw("b"),
        Token::Semicolon,
        create_raw("c"),
    ];

    let expect = Script(vec![
        Command {
            keyword: String::from("a"),
            args: Vec::new(),
        },
        Command {
            keyword: String::from("b"),
            args: Vec::new(),
        },
        Command {
            keyword: String::from("c"),
            args: Vec::new(),
        },
    ]);

    assert_eq!(parse_to_ast(from), Ok(expect))
}

#[test]
fn ast_test_split_last_by_logical_expr() {
    let tokens = &[
        Token::Semicolon,
        Token::Or,
        Token::Semicolon,
        Token::And,
        Token::Async,
    ];

    assert_eq!(
        split_last_by_logical_expr(tokens),
        Ok(Some((LogicalExpressionOp::And, &tokens[..3], &tokens[4..])))
    )
}

#[test]
fn ast_test_group_by_pipeline_when_pipelines_are_defined() {
    let tokens = &[Token::Or, Token::Pipeline, Token::And, Token::Async];
    let expected: Vec<&[Token]> = vec![&[Token::Or], &[Token::And, Token::Async]];

    assert_eq!(group_by_pipeline(tokens), Ok(Some(expected.clone())));
    assert_eq!(group_by_token(tokens, &Token::Pipeline), Some(expected));
}

#[test]
fn ast_test_group_by_pipeline_when_pipelines_are_not_defined() {
    let tokens = &[Token::And, Token::Async];
    assert_eq!(group_by_pipeline(tokens), Ok(None));
    assert_eq!(group_by_token(tokens, &Token::Pipeline), None);
}

// An operator without an operand on one side is reported with that operator.
#[test]
fn test_incompatible_order_of_tokens() {
    assert_eq!(
        parse_to_ast(&[Token::Or, Token::And]),
        Err(Exception::TokenCannotBeParsed(Token::And))
    );

    assert_eq!(
        parse_to_ast(&[Token::Or]),
        Err(Exception::TokenCannotBeParsed(Token::Or))
    )
}

#[test]
fn conversions_test_command_from_str_when_only_keyword_is_provided() {
    let cmd = convert_token_to_command(&String::from("echo"));

    assert_eq!(
        cmd,
        Ok(AstItem::Command {
            keyword: String::from("echo"),
            args: Vec::new()
        })
    )
}

#[test]
fn conversions_test_command_str_when_keyword_and_args_are_provided() {
    let cmd = convert_token_to_command(&String::from("echo --foo bar"));

    assert_eq!(
        cmd,
        Ok(AstItem::Command {
            keyword: String::from("echo"),
            args: vec![String::from("--foo"), String::from("bar")]
        })
    )
}

#[test]
fn conversions_test_command_fails() {
    let cmd = convert_token_to_command(&String::from(""));
    assert_eq!(cmd, Err(Exception::CommandHasNoCharacters));
}

#[test]
fn a_raw_token_of_blanks_has_no_characters() {
    assert_eq!(parse_to_ast(&[create_raw("  \t ")]), Err(Exception::CommandHasNoCharacters));
    assert_eq!(
        convert_token_to_command(&String::from(" \n ")),
        Err(Exception::CommandHasNoCharacters)
    );
}

#[test]
fn words_are_split_at_any_whitespace() {
    assert_eq!(
        convert_token_to_command(&String::from("  echo \t a\u{a0}b \n c  ")),
        Ok(AstItem::Command {
            keyword: String::from("echo"),
            args: vec![String::from("a"), String::from("b"), String::from("c")]
        })
    );
}

#[test]
fn async_is_unsupported() {
    assert_eq!(parse_to_ast(&[create_raw("a"), Token::Async]), Err(Exception::AsyncIsUnSupported));
    assert_eq!(parse_to_ast(&[Token::Async]), Err(Exception::AsyncIsUnSupported));
    assert_eq!(parse_line("ls &"), Err(Exception::AsyncIsUnSupported));
    assert_eq!(parse_line("a | b & | c"), Err(Exception::AsyncIsUnSupported));
}

#[test]
fn what_is_left_over_cannot_be_parsed() {
    assert_eq!(parse_to_ast(&[]), Err(Exception::TokensCannotBeParsed(String::from(""))));
    assert_eq!(
        parse_to_ast(&[create_raw("a"), create_raw("b c")]),
        Err(Exception::TokensCannotBeParsed(String::from("a b c")))
    );
    assert_eq!(parse_line(""), Err(Exception::TokensCannotBeParsed(String::from(""))));
}

#[test]
fn a_doubled_pipeline_is_refused() {
    assert_eq!(
        parse_to_ast(&[create_raw("a"), Token::Pipeline, Token::Pipeline, create_raw("b")]),
        Err(Exception::TokenCannotBeParsed(Token::Pipeline))
    );
    assert_eq!(
        group_by_pipeline(&[create_raw("a"), Token::Pipeline, Token::Pipeline, create_raw("b")]),
        Err(Exception::TokenCannotBeParsed(Token::Pipeline))
    );
    assert_eq!(
        parse_to_ast(&[Token::Async, Token::Pipeline, Token::Pipeline, create_raw("b")]),
        Err(Exception::TokenCannotBeParsed(Token::Pipeline))
    );
}

#[test]
fn grammar_errors_name_the_operator() {
    assert_eq!(parse_line("&&"), Err(Exception::TokenCannotBeParsed(Token::And)));
    assert_eq!(parse_line("a &&"), Err(Exception::TokenCannotBeParsed(Token::And)));
    assert_eq!(parse_line("| a"), Err(Exception::TokenCannotBeParsed(Token::Pipeline)));
    assert_eq!(parse_line("|| a"), Err(Exception::TokenCannotBeParsed(Token::Or)));
    assert_eq!(parse_line("a; b &&; c"), Err(Exception::TokenCannotBeParsed(Token::And)));
}

#[test]
fn the_first_error_in_reading_order_wins() {
    assert_eq!(parse_line("a | ; b &"), Err(Exception::TokenCannotBeParsed(Token::Pipeline)));
    assert_eq!(parse_line("a & ; | b"), Err(Exception::AsyncIsUnSupported));
    assert_eq!(parse_line("a & && b |"), Err(Exception::AsyncIsUnSupported));
    assert_eq!(parse_line("a && b & && | c"), Err(Exception::AsyncIsUnSupported));
}

#[test]
fn precedence_is_script_then_logical_then_pipeline() {
    let expect = Script(vec![
        LogicalExpression {
            op: LogicalExpressionOp::And,
            left: Box::new(create_cmd("a")),
            right: Box::new(Pipeline(vec![create_cmd("b x"), create_cmd("c")])),
        },
        create_cmd("d"),
    ]);
    assert_eq!(parse_line("a && b x | c ;; d ;"), Ok(expect));
}

#[test]
fn a_single_command_is_a_leaf() {
    assert_eq!(parse_line(" echo  hello   world "), Ok(create_cmd("echo hello world")));
    assert_eq!(
        parse_line("echo 'a; b'"),
        Ok(Command {
            keyword: String::from("echo"),
            args: vec![String::from("'a;"), String::from("b'")]
        })
    );
}

#[test]
fn conversions_between_tokens_and_operators() {
    assert_eq!(LogicalExpressionOp::try_from(&Token::Or), Ok(LogicalExpressionOp::Or));
    assert_eq!(LogicalExpressionOp::try_from(&Token::And), Ok(LogicalExpressionOp::And));
    assert_eq!(
        LogicalExpressionOp::try_from(&Token::Pipeline),
        Err(Exception::TokenIsNotALogicalExpr(String::from("|")))
    );
    assert_eq!(
        LogicalExpressionOp::try_from(&create_raw("ls")),
        Err(Exception::TokenIsNotALogicalExpr(String::from("ls")))
    );
    assert_eq!(LogicalExpressionOp::Or.to_token(), Token::Or);
    assert_eq!(LogicalExpressionOp::And.to_token(), Token::And);
    assert_eq!(
        AstItem::try_from(&Token::Semicolon),
        Err(Exception::ConversionNotImplemented(String::from(";")))
    );
    assert_eq!(AstItem::try_from(&create_raw("")), Err(Exception::CommandHasNoCharacters));
}

#[test]
fn splitting_keeps_empty_groups() {
    let tokens = &[Token::Semicolon, create_raw("a"), Token::Semicolon, Token::Semicolon];
    let expected: Vec<&[Token]> = vec![&[], &tokens[1..2], &[], &[]];
    assert_eq!(group_by_token(tokens, &Token::Semicolon), Some(expected));
    assert_eq!(split_last_by_logical_expr(tokens), Ok(None));
    let raws = &[create_raw("a"), create_raw("b"), create_raw("a")];
    let expected: Vec<&[Token]> = vec![&[], &raws[1..2], &[]];
    assert_eq!(group_by_token(raws, &create_raw("a")), Some(expected));
}

#[test]
fn lexed_lines_never_lack_characters() {
    for line in ["", " ", ";", " ; ", "a;;b", "'' ", "\\ ", "a | b", "&&", "a &", "\" \"", "#", " #a"] {
        assert_ne!(parse_line(line), Err(Exception::CommandHasNoCharacters));
    }
}
