use oxidize::error::{Context, Expected, ParseError};
use oxidize::grammar::CharClass;
use oxidize::text::{
    ends_with_backslash, line_ending, not_line_ending, same_text, skip_line_endings, space0,
    space1, tag, take_prefix, take_while,
};

fn error(input: &str, expected: Expected) -> ParseError {
    ParseError { errors: vec![(input, expected)] }
}

#[test]
fn classes_of_characters() {
    assert!(CharClass::Blank.contains(' '));
    assert!(CharClass::Blank.contains('\t'));
    assert!(!CharClass::Blank.contains('\n'));
    assert!(!CharClass::Blank.contains('a'));
    assert!(!CharClass::Blank.contains('\u{a0}'));
    assert!(CharClass::Line.contains(' '));
    assert!(CharClass::Line.contains('\\'));
    assert!(!CharClass::Line.contains('\r'));
    assert!(!CharClass::Line.contains('\n'));
    assert!(CharClass::VariableName.contains('%'));
    assert!(!CharClass::VariableName.contains('?'));
    assert!(CharClass::Target.contains('?'));
    assert!(!CharClass::Target.contains('%'));
}

#[test]
fn classes_of_bytes() {
    for class in [CharClass::Blank, CharClass::VariableName, CharClass::Target, CharClass::Line] {
        for b in 0u8..0x80 {
            assert_eq!(class.contains_byte(b), class.contains(b as char));
        }
    }
    for b in 0x80u8..=0xff {
        assert!(!CharClass::Blank.contains_byte(b));
        assert!(CharClass::VariableName.contains_byte(b));
        assert!(CharClass::Target.contains_byte(b));
        assert!(CharClass::Line.contains_byte(b));
    }
}

#[test]
fn runs_of_one_class() {
    assert_eq!(take_while("  \t x ", CharClass::Blank), ("x ", "  \t "));
    assert_eq!(take_while("x", CharClass::Blank), ("x", ""));
    assert_eq!(take_while("", CharClass::Blank), ("", ""));
    assert_eq!(take_while(" \u{a0} ", CharClass::Blank), ("\u{a0} ", " "));
    assert_eq!(take_while("ab cd", CharClass::Line), ("", "ab cd"));
    assert_eq!(take_while("ab\r\ncd", CharClass::Line), ("\r\ncd", "ab"));
    assert_eq!(take_while("\u{e9}t\u{e9} \u{2713}:x", CharClass::Target), (" \u{2713}:x", "\u{e9}t\u{e9}"));
    assert_eq!(take_while("\u{1f600}\u{1f600}=", CharClass::VariableName), ("=", "\u{1f600}\u{1f600}"));
    assert_eq!(take_while("\u{2713}", CharClass::Target), ("", "\u{2713}"));
}

#[test]
fn fixed_texts() {
    assert_eq!(take_prefix("::= x", "::="), Some((" x", "::=")));
    assert_eq!(take_prefix("::= x", ":="), None);
    assert_eq!(take_prefix("ab", "abc"), None);
    assert_eq!(take_prefix("abc", "abc"), Some(("", "abc")));
    assert_eq!(take_prefix("abc", ""), Some(("abc", "")));
    assert_eq!(take_prefix("", ""), Some(("", "")));
    assert_eq!(take_prefix("", "a"), None);
    assert_eq!(take_prefix("\u{e9}t\u{e9}", "\u{e9}"), Some(("t\u{e9}", "\u{e9}")));
    assert_eq!(take_prefix("\u{e9}t\u{e9}", "\u{e8}"), None);
    assert_eq!(take_prefix("\u{2713}", "\u{2714}"), None);
    assert_eq!(tag(": a", ":"), Ok((" a", ":")));
    assert_eq!(tag("a:", ":"), Err(error("a:", Expected::Tag)));
    assert_eq!(tag("", "#"), Err(error("", Expected::Tag)));
}

#[test]
fn blanks() {
    assert_eq!(space0(" \t a"), ("a", " \t "));
    assert_eq!(space0("a "), ("a ", ""));
    assert_eq!(space0("\n "), ("\n ", ""));
    assert_eq!(space1(" \t a"), Ok(("a", " \t ")));
    assert_eq!(space1("\t"), Ok(("", "\t")));
    assert_eq!(space1("a "), Err(error("a ", Expected::Space)));
    assert_eq!(space1(""), Err(error("", Expected::Space)));
    assert_eq!(space1("\n "), Err(error("\n ", Expected::Space)));
}

#[test]
fn line_endings() {
    assert_eq!(line_ending("\nab"), Ok(("ab", "\n")));
    assert_eq!(line_ending("\r\nab"), Ok(("ab", "\r\n")));
    assert_eq!(line_ending("\n\n"), Ok(("\n", "\n")));
    assert_eq!(line_ending("\n\r"), Ok(("\r", "\n")));
    assert_eq!(line_ending("\r"), Err(error("\r", Expected::CrLf)));
    assert_eq!(line_ending("\rab"), Err(error("\rab", Expected::CrLf)));
    assert_eq!(line_ending("ab\n"), Err(error("ab\n", Expected::CrLf)));
    assert_eq!(line_ending(""), Err(error("", Expected::CrLf)));
    assert_eq!(skip_line_endings("\n\r\n\n\r\r\n"), "\r\r\n");
    assert_eq!(skip_line_endings("\n\n"), "");
    assert_eq!(skip_line_endings(" \n"), " \n");
    assert_eq!(skip_line_endings(""), "");
}

#[test]
fn rest_of_the_line() {
    assert_eq!(not_line_ending("ab cd\nef"), Ok(("\nef", "ab cd")));
    assert_eq!(not_line_ending("ab cd\r\nef"), Ok(("\r\nef", "ab cd")));
    assert_eq!(not_line_ending("ab cd"), Ok(("", "ab cd")));
    assert_eq!(not_line_ending("\n"), Ok(("\n", "")));
    assert_eq!(not_line_ending(""), Ok(("", "")));
    assert_eq!(not_line_ending("\u{e9}\u{2713}\n"), Ok(("\n", "\u{e9}\u{2713}")));
    assert_eq!(not_line_ending("ab\rcd\n"), Err(error("ab\rcd\n", Expected::Tag)));
    assert_eq!(not_line_ending("ab\r"), Err(error("ab\r", Expected::Tag)));
    assert_eq!(not_line_ending("\r"), Err(error("\r", Expected::Tag)));
}

#[test]
fn lines_that_go_on() {
    assert!(ends_with_backslash("cc -c \\"));
    assert!(ends_with_backslash("\\"));
    assert!(ends_with_backslash("\u{e9}\\"));
    assert!(!ends_with_backslash(""));
    assert!(!ends_with_backslash("\\ "));
    assert!(!ends_with_backslash("a\\b"));
    assert!(!ends_with_backslash("\u{e9}"));
    assert!(!ends_with_backslash("\u{45c}"));
}

#[test]
fn texts_that_are_the_same() {
    assert!(same_text("", ""));
    assert!(same_text(".PHONY", ".PHONY"));
    assert!(same_text("\u{e9}t\u{e9}", "\u{e9}t\u{e9}"));
    assert!(!same_text(".PHONY", ".PHONYX"));
    assert!(!same_text(".PHONY", ".phony"));
    assert!(!same_text("a", ""));
    assert!(!same_text("\u{e9}", "\u{e8}"));
}

#[test]
fn chains_of_mismatches() {
    let inner = ParseError::new("b", Expected::Eof);
    assert_eq!(inner, error("b", Expected::Eof));
    let outer = inner.append("a b", Expected::Many1).append("a b", Expected::Context(Context::Target));
    assert_eq!(
        outer,
        ParseError {
            errors: vec![
                ("b", Expected::Eof),
                ("a b", Expected::Many1),
                ("a b", Expected::Context(Context::Target)),
            ]
        }
    );
}
