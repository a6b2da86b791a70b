//! Tests for the lexical simplifier: string extraction, bracket extraction
//! and their failure modes.

use adventure_script::error::ASSyntaxError;
use adventure_script::simplify::simplify_brackets;
use adventure_script::simplify::simplify_strings;

#[test]
fn parsing_simplify_test() {
    let text = "'hel\"lo' \"hel'lo\" 'hel\\'lo' \"hel\\\"lo\"";
    let (s, q) = simplify_strings(text).unwrap();
    assert_eq!(s, "\"0\" \"1\" \"2\" \"3\"");
    assert_eq!(q, vec!["hel\"lo", "hel'lo", "hel\\'lo", "hel\\\"lo"]);
}

#[test]
fn tests_simplify_test() {
    let text = "'hel\"lo' \"hel'lo\" 'hel\\'lo' \"hel\\\"lo\"".to_string();
    let (s, q) = simplify_strings(&text).unwrap();
    assert_eq!(s, "\"0\" \"1\" \"2\" \"3\"");
    assert_eq!(q, vec!["hel\"lo", "hel'lo", "hel\\'lo", "hel\\\"lo"]);
}

#[test]
fn strings_unterminated() {
    let r = simplify_strings("say 'oops");
    assert!(matches!(r, Err(ASSyntaxError::UnclosedString)));
}

#[test]
fn strings_escaped_quote_is_text() {
    let (s, q) = simplify_strings("a\\'b").unwrap();
    assert_eq!(s, "a\\'b");
    assert!(q.is_empty());
}

#[test]
fn brackets_nested_same_kind() {
    let (s, q) = simplify_brackets("a[b[c]]d").unwrap();
    assert_eq!(s, "a[0]d");
    assert_eq!(q, vec!["b[c]"]);
}

#[test]
fn brackets_mixed_kinds() {
    let (s, q) = simplify_brackets("f(x) {y} [z]").unwrap();
    assert_eq!(s, "f(0) {1} [2]");
    assert_eq!(q, vec!["x", "y", "z"]);
}

#[test]
fn brackets_unterminated_names_open_char() {
    let r = simplify_brackets("before (open");
    match r {
        Err(ASSyntaxError::UnclosedBracket { bracket }) => assert_eq!(bracket, '('),
        _ => panic!("expected an unclosed-bracket report"),
    }
    let r2 = simplify_brackets("x{y");
    match r2 {
        Err(ASSyntaxError::UnclosedBracket { bracket }) => assert_eq!(bracket, '{'),
        _ => panic!("expected an unclosed-bracket report"),
    }
}

#[test]
fn bracket_table_entries_come_from_the_input() {
    let input = "one [two] three {four} five";
    let (s, q) = simplify_brackets(input).unwrap();
    assert_eq!(s, "one [0] three {1} five");
    for entry in &q {
        assert!(input.contains(entry.as_str()));
    }
}
