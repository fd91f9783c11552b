use shell_core::command::{split_first_word, Command};
use shell_core::terminal::{interpret_input, ReadResult};
use shell_core::text::{collect_chars, is_whitespace_char, join_strings, split_whitespace, string_from_chars, trim_bounds};

#[test]
fn command_test_command_from_str_when_only_keyword_is_provided() {
    assert_eq!(Command::try_from(&String::from("echo")), Command::from_str("echo"));
    let cmd = Command::from_str("echo");

    assert_eq!(
        cmd,
        Ok(Command {
            keyword: String::from("echo"),
            args: Vec::new()
        })
    )
}

#[test]
fn command_test_command_str_when_keyword_and_args_are_provided() {
    assert_eq!(
        Command::try_from(&String::from("echo --foo bar")),
        Command::from_str("echo --foo bar")
    );
    let cmd = Command::from_str("echo --foo bar");

    assert_eq!(
        cmd,
        Ok(Command {
            keyword: String::from("echo"),
            args: vec![String::from("--foo"), String::from("bar")]
        })
    )
}

#[test]
fn command_test_command_fails() {
    assert_eq!(Command::try_from(&String::from("")), Err(()));
    let cmd = Command::from_str("");
    assert_eq!(cmd, Err(()));
}

#[test]
fn a_command_of_blanks_fails() {
    assert_eq!(Command::from_str(" \t\n "), Err(()));
}

#[test]
fn whitespace_is_the_unicode_property() {
    for c in ['\t', '\n', '\u{b}', '\u{c}', '\r', ' ', '\u{85}', '\u{a0}', '\u{1680}', '\u{2000}',
        '\u{2005}', '\u{200a}', '\u{2028}', '\u{2029}', '\u{202f}', '\u{205f}', '\u{3000}']
    {
        assert!(is_whitespace_char(c));
        assert!(c.is_whitespace());
    }
    for c in ['a', '0', ';', '&', '|', '#', '\\', '\'', '"', '`', '\u{8}', '\u{e}', '\u{200b}',
        '\u{180e}', '\u{feff}', '\u{1f}', '\u{2060}']
    {
        assert!(!is_whitespace_char(c));
        assert!(!c.is_whitespace());
    }
}

#[test]
fn whitespace_agrees_with_std_on_every_character() {
    let mut n: u32 = 0;
    while n <= 0x10ffff {
        if let Some(c) = char::from_u32(n) {
            assert_eq!(is_whitespace_char(c), c.is_whitespace());
        }
        n += 1;
    }
}

#[test]
fn trimming_agrees_with_std() {
    for text in ["", " ", "a", "  a", "a  ", " a b ", "\t\u{3000}a\u{a0}b\n\r", " \u{2003} ", "é "] {
        let chars = collect_chars(text);
        assert_eq!(chars, text.chars().collect::<Vec<char>>());
        let (a, b) = trim_bounds(&chars);
        assert_eq!(string_from_chars(&chars, a, b), text.trim());
    }
}

#[test]
fn splitting_agrees_with_std() {
    for text in ["", " ", "a", "  a", "a  ", " a b ", "\ta\u{a0}b\n\rc d", "echo --foo bar", "é ü"] {
        let expected: Vec<String> = text.split_whitespace().map(|s| s.to_string()).collect();
        assert_eq!(split_whitespace(text), expected);
    }
}

#[test]
fn joining_puts_the_separator_between() {
    assert_eq!(join_strings(&Vec::new(), " "), "");
    assert_eq!(join_strings(&vec![String::from("a")], " "), "a");
    assert_eq!(join_strings(&vec![String::from("a"), String::from(""), String::from("b")], ", "), "a, , b");
}

#[test]
fn the_first_word_is_split_off() {
    assert_eq!(split_first_word(Vec::new()), None);
    assert_eq!(
        split_first_word(vec![String::from("a"), String::from("b")]),
        Some((String::from("a"), vec![String::from("b")]))
    );
}

#[test]
fn input_from_the_terminal_is_trimmed() {
    assert_eq!(interpret_input(""), ReadResult::Empty);
    assert_eq!(interpret_input("\n"), ReadResult::Line(String::new()));
    assert_eq!(interpret_input("  echo a \r\n"), ReadResult::Line(String::from("echo a")));
}
