use wlang::lexer::{assignment, boolean_guard, container_literal, guard_option, lex, slice_from, slice_full, slice_to, string, LexerToken};
use wlang::models::{Range, Token};

#[test]
fn guard_names_lose_their_markers() {
    assert_eq!(boolean_guard("x <-|   "), "x");
    assert_eq!(guard_option("ab -> "), "ab");
    assert_eq!(assignment("name <-   "), "name");
    assert_eq!(assignment("name <-"), "name");
}

#[test]
fn function_literal_loses_backticks() {
    assert_eq!(container_literal("`add`"), "add");
    assert_eq!(container_literal("plain"), "plain");
}

#[test]
fn closed_slice_runs_from_first_bound_to_second() {
    assert_eq!(slice_full("$1..3"), Some(Token::Parameter(Range::Full(1, 3))));
    assert_eq!(slice_full("$0..12"), Some(Token::Parameter(Range::Full(0, 12))));
}

#[test]
fn closed_slice_with_oversized_bound_is_rejected() {
    assert_eq!(slice_full("$99999999999999999999999..1"), None);
    assert_eq!(slice_full("$1.."), None);
}

#[test]
fn open_slices() {
    assert_eq!(slice_to("$2.."), Some(Token::Parameter(Range::To(2))));
    assert_eq!(slice_from("$..4"), Some(Token::Parameter(Range::From(4))));
    assert_eq!(slice_to("$.."), None);
}

#[test]
fn lexer_tokens_compare_by_content() {
    assert_eq!(LexerToken::Assignment("a".to_string()), LexerToken::Assignment("a".to_string()));
    assert_ne!(LexerToken::Seperator, LexerToken::Newline);
    assert_eq!(LexerToken::Token(Token::Char('a')).clone(), LexerToken::Token(Token::Char('a')));
}

#[test]
fn string_literal_becomes_char_group() {
    assert_eq!(string("\"ab\""), Token::Group(vec![Token::Char('a'), Token::Char('b')]));
    assert_eq!(string("\"\""), Token::Group(vec![]));
}

fn num(negative: bool, magnitude: u64, scale: u32) -> LexerToken {
    LexerToken::Token(Token::Value(wlang::models::Number { negative, magnitude, scale }))
}

#[test]
fn lex_guards_and_assignment() {
    assert_eq!(lex("x <-| "), vec![LexerToken::BooleanGuard("x".to_string())]);
    assert_eq!(lex("ab -> 1"), vec![LexerToken::GuardOption("ab".to_string()), num(false, 1, 0)]);
    assert_eq!(
        lex("total <- 1 2"),
        vec![LexerToken::Assignment("total".to_string()), num(false, 1, 0), LexerToken::Seperator, num(false, 2, 0)]
    );
}

#[test]
fn lex_literals() {
    assert_eq!(lex("\"hi\""), vec![LexerToken::Token(Token::Group(vec![Token::Char('h'), Token::Char('i')]))]);
    assert_eq!(lex("-1.5"), vec![num(true, 15, 1)]);
    assert_eq!(lex("'c'"), vec![LexerToken::Token(Token::Char('c'))]);
    assert_eq!(lex("TRUE FALSE"), vec![num(false, 1, 0), LexerToken::Seperator, num(false, 0, 0)]);
    assert_eq!(lex("TRUEX"), vec![LexerToken::Function("TRUEX".to_string())]);
    assert_eq!(lex(":a"), vec![LexerToken::Token(Token::Atom("a".to_string()))]);
    assert_eq!(lex("`add`"), vec![LexerToken::FunctionLiteral("add".to_string())]);
}

#[test]
fn lex_slices() {
    assert_eq!(
        lex("$1..3 $2.. $..4"),
        vec![
            LexerToken::Token(Token::Parameter(Range::Full(1, 3))),
            LexerToken::Seperator,
            LexerToken::Token(Token::Parameter(Range::To(2))),
            LexerToken::Seperator,
            LexerToken::Token(Token::Parameter(Range::From(4))),
        ]
    );
}

#[test]
fn lex_layout_and_errors() {
    assert_eq!(
        lex("a\n  b\nc"),
        vec![
            LexerToken::Function("a".to_string()),
            LexerToken::Indent,
            LexerToken::Function("b".to_string()),
            LexerToken::Newline,
            LexerToken::Function("c".to_string()),
        ]
    );
    assert_eq!(lex("#a"), vec![LexerToken::Error, LexerToken::Function("a".to_string())]);
    assert_eq!(lex(""), vec![]);
}
