use shell_core::token::Token::{And, Async, Or, Pipeline, Raw, Semicolon};
use shell_core::token::{
    contains_unsupported_async_token, is_escaper, line_to_cmds, tokenize_command,
    tokenize_raw_line, Token,
};

fn raw(text: &str) -> Token {
    Raw(String::from(text))
}

fn lex(line: &str) -> Vec<Token> {
    tokenize_raw_line(&String::from(line))
}

fn assert_vec_token_equals(a: Vec<Token>, b: Vec<Token>) {
    assert_eq!(
        a.len(),
        b.len(),
        "Vector {:?} of size {} and {:?} of size {} should have the same size",
        a,
        a.len(),
        b,
        b.len()
    );

    for (i, item) in a.iter().enumerate() {
        assert_eq!(item, &b[i])
    }
}

fn assert_vec_str_equals(a: Vec<String>, b: Vec<&str>) {
    assert_eq!(
        a.len(),
        b.len(),
        "Vector {:?} of size {} and {:?} of size {} should have the same size",
        a,
        a.len(),
        b,
        b.len()
    );

    for (i, item) in a.iter().enumerate() {
        assert_eq!(item, b[i])
    }
}

#[test]
fn token_test_tokenize_command() {
    let expected_a_b = vec![
        ("ls", vec![Raw(String::from("ls"))]),
        ("ls &", vec![Raw(String::from("ls")), Async]),
        ("ls -lh", vec![Raw(String::from("ls -lh"))]),
        (
            "awk -F \" \" '{print $1}' README.md",
            vec![Raw(String::from("awk -F \" \" '{print $1}' README.md"))],
        ),
        (
            "ls | wc",
            vec![Raw(String::from("ls")), Pipeline, Raw(String::from("wc"))],
        ),
        ("echo #foo; echo bar", vec![Raw(String::from("echo"))]),
        (
            "echo foo; echo bar",
            vec![
                Raw(String::from("echo foo")),
                Semicolon,
                Raw(String::from("echo bar")),
            ],
        ),
        (
            "echo 'foo; echo bar'",
            vec![Raw(String::from("echo 'foo; echo bar'"))],
        ),
        (
            "echo \"foo; echo bar\"",
            vec![Raw(String::from("echo \"foo; echo bar\""))],
        ),
        (
            "echo `foo; echo bar`",
            vec![Raw(String::from("echo `foo; echo bar`"))],
        ),
        (
            "echo foo && echo bar",
            vec![
                Raw(String::from("echo foo")),
                And,
                Raw(String::from("echo bar")),
            ],
        ),
        (
            "echo foo && echo bar && echo baz",
            vec![
                Raw(String::from("echo foo")),
                And,
                Raw(String::from("echo bar")),
                And,
                Raw(String::from("echo baz")),
            ],
        ),
        (
            "echo foo || echo bar",
            vec![
                Raw(String::from("echo foo")),
                Or,
                Raw(String::from("echo bar")),
            ],
        ),
        (
            "echo foo && echo bar; echo end",
            vec![
                Raw(String::from("echo foo")),
                And,
                Raw(String::from("echo bar")),
                Semicolon,
                Raw(String::from("echo end")),
            ],
        ),
        ("echo \"\\\"\"", vec![Raw(String::from("echo \"\\\"\""))]),
        (
            "man awk| awk -F \"[ ,.\\\"]+\" 'foo' |sort -k2nr|head",
            vec![
                Raw(String::from("man awk")),
                Pipeline,
                Raw(String::from("awk -F \"[ ,.\\\"]+\" 'foo' |sort -k2nr|head")),
            ],
        ),
        (";", vec![Semicolon]),
        ("||", vec![Or]),
        ("&&", vec![And]),
        // Outside quotes a backslash keeps the next character and is dropped.
        ("ls foo\\#bar", vec![Raw(String::from("ls foo#bar"))]),
        ("ls \\|\\|foo", vec![Raw(String::from("ls ||foo"))]),
    ];

    for (line, result) in expected_a_b {
        let expected_cmd = tokenize_raw_line(&String::from(line));

        assert_vec_token_equals(expected_cmd, result)
    }
}

#[test]
fn mod_test_tokenize_command() {
    let expected_a_b = vec![
        ("ls", vec!["ls"]),
        ("ls &", vec!["ls", "&"]),
        ("ls -lh", vec!["ls -lh"]),
        (
            "awk -F \" \" '{print $1}' README.md",
            vec!["awk -F \" \" '{print $1}' README.md"],
        ),
        ("ls | wc", vec!["ls", "|", "wc"]),
        ("echo #foo; echo bar", vec!["echo"]),
        ("echo foo; echo bar", vec!["echo foo", ";", "echo bar"]),
        ("echo 'foo; echo bar'", vec!["echo 'foo; echo bar'"]),
        ("echo \"foo; echo bar\"", vec!["echo \"foo; echo bar\""]),
        ("echo `foo; echo bar`", vec!["echo `foo; echo bar`"]),
        ("echo foo && echo bar", vec!["echo foo", "&&", "echo bar"]),
        (
            "echo foo && echo bar && echo baz",
            vec!["echo foo", "&&", "echo bar", "&&", "echo baz"],
        ),
        ("echo foo || echo bar", vec!["echo foo", "||", "echo bar"]),
        (
            "echo foo && echo bar; echo end",
            vec!["echo foo", "&&", "echo bar", ";", "echo end"],
        ),
        ("echo \"\\\"\"", vec!["echo \"\\\"\""]),
        (
            "man awk| awk -F \"[ ,.\\\"]+\" 'foo' |sort -k2nr|head",
            vec!["man awk", "|", "awk -F \"[ ,.\\\"]+\" 'foo' |sort -k2nr|head"],
        ),
        (";", vec![";"]),
        ("||", vec!["||"]),
        ("&&", vec!["&&"]),
        // Outside quotes a backslash keeps the next character and is dropped.
        ("ls foo\\#bar", vec!["ls foo#bar"]),
        ("ls \\|\\|foo", vec!["ls ||foo"]),
    ];

    for (line, result) in expected_a_b {
        let expected_cmd = tokenize_command(&String::from(line));

        assert_vec_str_equals(expected_cmd, result)
    }
}

#[test]
fn test_line_to_cmds() {
    let expected_a_b = vec![
        ("ls", vec!["ls"]),
        ("ls &", vec!["ls &"]),
        ("ls -lh", vec!["ls -lh"]),
        (
            "awk -F \" \" '{print $1}' README.md",
            vec!["awk -F \" \" '{print $1}' README.md"],
        ),
        ("ls | wc", vec!["ls | wc"]),
        ("echo #foo; echo bar", vec!["echo"]),
        ("echo foo; echo bar", vec!["echo foo", ";", "echo bar"]),
        ("echo 'foo; echo bar'", vec!["echo 'foo; echo bar'"]),
        ("echo \"foo; echo bar\"", vec!["echo \"foo; echo bar\""]),
        ("echo `foo; echo bar`", vec!["echo `foo; echo bar`"]),
        ("echo foo && echo bar", vec!["echo foo", "&&", "echo bar"]),
        (
            "echo foo && echo bar && echo baz",
            vec!["echo foo", "&&", "echo bar", "&&", "echo baz"],
        ),
        ("echo foo || echo bar", vec!["echo foo", "||", "echo bar"]),
        (
            "echo foo && echo bar; echo end",
            vec!["echo foo", "&&", "echo bar", ";", "echo end"],
        ),
        ("echo \"\\\"\"", vec!["echo \"\\\"\""]),
        (
            "man awk| awk -F \"[ ,.\\\"]+\" 'foo' |sort -k2nr|head",
            vec!["man awk| awk -F \"[ ,.\\\"]+\" 'foo' |sort -k2nr|head"],
        ),
        (";", vec![";"]),
        ("||", vec!["||"]),
        ("&&", vec!["&&"]),
        // Outside quotes a backslash keeps the next character and is dropped.
        ("ls foo\\#bar", vec!["ls foo#bar"]),
        ("ls \\|\\|foo", vec!["ls ||foo"]),
    ];

    for (line, result) in expected_a_b {
        let expected_cmd = line_to_cmds(&String::from(line));

        assert_vec_str_equals(expected_cmd, result)
    }
}

#[test]
fn trimming_leaves_one_raw_token() {
    assert_eq!(lex("  a  "), vec![raw("a")]);
    assert_eq!(lex("a"), vec![raw("a")]);
    assert_eq!(lex("  a  "), lex("a"));
    assert_eq!(lex("\t a b \n"), vec![raw("a b")]);
}

#[test]
fn whitespace_only_text_gives_no_token() {
    assert_eq!(lex(""), Vec::<Token>::new());
    assert_eq!(lex("   "), Vec::<Token>::new());
    assert_eq!(lex("  ;  "), vec![Semicolon]);
    assert_eq!(lex(" \u{3000}\u{a0} "), Vec::<Token>::new());
}

#[test]
fn quotes_hide_operators() {
    assert_eq!(lex("echo \"a; b\""), vec![raw("echo \"a; b\"")]);
    assert_eq!(lex("echo 'a && b | c & d # e'"), vec![raw("echo 'a && b | c & d # e'")]);
    assert_eq!(lex("echo `a || b`"), vec![raw("echo `a || b`")]);
}

#[test]
fn a_quote_closes_at_the_same_quote_only() {
    assert_eq!(lex("echo \"a\" ; b"), vec![raw("echo \"a\""), Semicolon, raw("b")]);
    assert_eq!(lex("echo \"a'\" ; b"), vec![raw("echo \"a'\""), Semicolon, raw("b")]);
    assert_eq!(lex("echo \"a' ; b"), vec![raw("echo \"a' ; b")]);
}

#[test]
fn a_backslash_in_quotes_is_kept() {
    assert_eq!(lex("echo 'a\\;b'"), vec![raw("echo 'a\\;b'")]);
}

#[test]
fn a_backslash_escapes_one_character() {
    assert_eq!(lex("a\\;b"), vec![raw("a;b")]);
    assert_eq!(lex("a\\&& b"), vec![raw("a&"), Async, raw("b")]);
    assert_eq!(lex("a\\\"b;c"), vec![raw("a\"b"), Semicolon, raw("c")]);
    assert_eq!(lex("a\\\\;b"), vec![raw("a\\"), Semicolon, raw("b")]);
    assert_eq!(lex("a\\"), vec![raw("a")]);
}

#[test]
fn a_comment_ends_the_line() {
    assert_eq!(lex("echo foo#bar"), lex("echo foo"));
    assert_eq!(lex("echo foo#bar"), vec![raw("echo foo")]);
    assert_eq!(lex("a; b # c; d"), vec![raw("a"), Semicolon, raw("b")]);
    assert_eq!(lex("#"), Vec::<Token>::new());
}

#[test]
fn doubled_operators_are_one_token() {
    assert_eq!(lex("a&&b"), vec![raw("a"), And, raw("b")]);
    assert_eq!(lex("a||b"), vec![raw("a"), Or, raw("b")]);
    assert_eq!(lex("a&&&b"), vec![raw("a"), And, Async, raw("b")]);
    assert_eq!(lex("a|||b"), vec![raw("a"), Or, Pipeline, raw("b")]);
    assert_eq!(lex("a&|b"), vec![raw("a"), Async, Pipeline, raw("b")]);
    assert_eq!(lex("a;;b"), vec![raw("a"), Semicolon, Semicolon, raw("b")]);
}

#[test]
fn inner_whitespace_is_kept() {
    assert_eq!(lex(" echo   a \t b ;c"), vec![raw("echo   a \t b"), Semicolon, raw("c")]);
}

#[test]
fn characters_beyond_ascii_are_kept() {
    assert_eq!(lex("écho ünï | wc"), vec![raw("écho ünï"), Pipeline, raw("wc")]);
}

#[test]
fn token_text_is_the_written_form() {
    assert_eq!(Or.to_text(), "||");
    assert_eq!(And.to_text(), "&&");
    assert_eq!(Semicolon.to_text(), ";");
    assert_eq!(Async.to_text(), "&");
    assert_eq!(Pipeline.to_text(), "|");
    assert_eq!(raw("ls -l").to_text(), "ls -l");
}

#[test]
fn tokens_compare_by_kind_and_text() {
    assert!(raw("a").same_as(&raw("a")));
    assert!(!raw("a").same_as(&raw("b")));
    assert!(!raw("&").same_as(&Async));
    assert!(Or.same_as(&Or));
    assert!(!Or.same_as(&And));
    assert_eq!(raw("a").clone(), raw("a"));
    assert_eq!(Pipeline.clone(), Pipeline);
}

#[test]
fn async_tokens_are_found() {
    assert!(contains_unsupported_async_token(&lex("ls &")));
    assert!(!contains_unsupported_async_token(&lex("ls && ls")));
    assert!(!contains_unsupported_async_token(&lex("echo '&'")));
    assert!(!contains_unsupported_async_token(&Vec::new()));
}

#[test]
fn the_three_quotes_are_escapers() {
    assert!(is_escaper('\''));
    assert!(is_escaper('"'));
    assert!(is_escaper('`'));
    assert!(!is_escaper('\\'));
    assert!(!is_escaper('a'));
}
