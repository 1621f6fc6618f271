use wlang::models::{Number, Range, Token, WFuncVariant, WSection};
use wlang::normalize::{expand_bracket, expand_string, macros};
use wlang::tokenize::{classify_piece, parse_number, tokenize, tokenize_code, LexError, Registry};
use wlang::utils::{
    bundle_groups, first_special_instance, map_parameters, outter_function, special_pairs, splice_result,
    Passthrough, State, WFunc,
};

fn special(s: &str) -> Token {
    Token::Special(s.to_string())
}

fn value(m: u64) -> Token {
    Token::Value(Number { negative: false, magnitude: m, scale: 0 })
}

fn atom(s: &str) -> Token {
    Token::Atom(s.to_string())
}

fn registry(names: &[&str]) -> Registry {
    Registry { names: names.iter().map(|s| s.to_string()).collect() }
}

fn chars(s: &str) -> Vec<char> {
    s.chars().collect()
}

#[test]
fn macros_expand_constants() {
    assert_eq!(macros("TRUE".to_string()), "1");
    assert_eq!(macros("FALSE".to_string()), "0");
    assert_eq!(macros("TRUE FALSE".to_string()), "1 0");
}

#[test]
fn macros_keep_other_words_and_spacing() {
    assert_eq!(macros("TRUEX  a\tFALSE ".to_string()), "TRUEX  a\t0 ");
    assert_eq!(macros("xTRUE".to_string()), "xTRUE");
    assert_eq!(macros("".to_string()), "");
}

#[test]
fn string_desugars_to_char_group() {
    assert_eq!(expand_string("\"ab\"".to_string()), "{ 'a' 'b' }");
    assert_eq!(expand_string("x \"hi\" y".to_string()), "x { 'h' 'i' } y");
}

#[test]
fn string_desugars_first_span_only() {
    let once = expand_string("\"a\" \"b\"".to_string());
    assert_eq!(once, "{ 'a' } \"b\"");
    assert_eq!(expand_string(once), "{ 'a' } { 'b' }");
}

#[test]
fn string_without_span_is_unchanged() {
    assert_eq!(expand_string("no quotes".to_string()), "no quotes");
    assert_eq!(expand_string("one \" quote".to_string()), "one \" quote");
    let done = expand_string("\"ab\"".to_string());
    assert_eq!(expand_string(done.clone()), done);
}

#[test]
fn empty_string_desugars_to_empty_group() {
    assert_eq!(expand_string("\"\"".to_string()), "{  }");
}

#[test]
fn brackets_are_separated() {
    assert_eq!(expand_bracket("(a)".to_string()), "( a )");
    assert_eq!(expand_bracket("f{x}".to_string()), "f { x }");
    assert_eq!(expand_bracket("(){}".to_string()), "( ) { }");
    assert_eq!(expand_bracket("a ( b".to_string()), "a ( b");
    assert_eq!(expand_bracket("plain".to_string()), "plain");
}

#[test]
fn first_special_finds_symbol() {
    let arr = vec![value(1), special("("), special("{"), special("{")];
    assert_eq!(first_special_instance("{".to_string(), &arr), Some(2));
    assert_eq!(first_special_instance("}".to_string(), &arr), None);
}

#[test]
fn special_pairs_counts_depth() {
    let arr = vec![special("{"), special("{"), special("}"), special("}"), special("}")];
    let pair = ("{".to_string(), "}".to_string());
    assert_eq!(special_pairs(pair.clone(), &arr, &0), Some(3));
    assert_eq!(special_pairs(pair.clone(), &arr, &1), Some(2));
    let open = vec![special("{"), value(1)];
    assert_eq!(special_pairs(pair, &open, &0), None);
}

#[test]
fn bundle_groups_builds_flat_groups() {
    let arr = vec![special("{"), value(1), special("}"), value(2), special("{"), value(3), special("}")];
    let out = bundle_groups(arr);
    assert_eq!(out, vec![Token::Group(vec![value(1)]), value(2), Token::Group(vec![value(3)])]);
}

#[test]
fn bundle_groups_nests() {
    let arr = vec![special("{"), special("{"), value(1), special("}"), value(2), special("}")];
    let out = bundle_groups(arr);
    assert_eq!(out, vec![Token::Group(vec![Token::Group(vec![value(1)]), value(2)])]);
}

#[test]
fn bundle_groups_without_braces_is_identity() {
    let arr = vec![value(1), atom("x")];
    assert_eq!(bundle_groups(arr.clone()), arr);
}

#[test]
fn outter_function_finds_last_and_first() {
    let arr = vec![value(1), Token::Function(4), Token::Container("c".to_string()), value(2)];
    let (last, first) = outter_function(&arr);
    assert_eq!(last, Some((2, WFuncVariant::Container("c".to_string()))));
    assert_eq!(first, Some((1, WFuncVariant::Function(4))));
    assert_eq!(outter_function(&vec![value(1)]), (None, None));
}

#[test]
fn slices_keep_stack_order() {
    let stack = vec![atom("a"), atom("b"), atom("c"), atom("d")];
    let from = map_parameters(&vec![Token::Parameter(Range::From(2))], &stack);
    assert_eq!(from, vec![atom("c"), atom("d")]);
    let to = map_parameters(&vec![Token::Parameter(Range::To(2))], &stack);
    assert_eq!(to, vec![atom("a"), atom("b")]);
    let full = map_parameters(&vec![Token::Parameter(Range::Full(1, 2))], &stack);
    assert_eq!(full, vec![atom("b"), atom("c")]);
}

#[test]
fn exact_parameters_read_from_top() {
    let stack = vec![atom("a"), atom("b"), atom("c")];
    let body = vec![Token::Parameter(Range::Exact(0)), Token::Parameter(Range::Exact(2)), Token::Function(7)];
    assert_eq!(map_parameters(&body, &stack), vec![atom("c"), atom("a"), Token::Function(7)]);
}

#[test]
fn missing_parameter_is_skipped() {
    let stack = vec![atom("a")];
    let body = vec![Token::Parameter(Range::Exact(0)), Token::Parameter(Range::Exact(5))];
    assert_eq!(map_parameters(&body, &stack), vec![atom("a")]);
}

#[test]
fn parameters_inside_groups_are_substituted() {
    let stack = vec![atom("a"), atom("b")];
    let body = vec![Token::Group(vec![Token::Parameter(Range::Exact(1)), value(3)])];
    assert_eq!(map_parameters(&body, &stack), vec![Token::Group(vec![atom("a"), value(3)])]);
}

#[test]
fn splice_removes_arity_and_pushes_result() {
    let stack = vec![atom("a"), atom("b"), atom("c"), atom("d")];
    let used = vec![Token::Parameter(Range::Exact(0)), Token::Parameter(Range::Exact(1)), Token::Parameter(Range::Exact(2))];
    assert_eq!(splice_result(&stack, &used, vec![value(9)]), vec![atom("a"), value(9)]);
    let short = vec![atom("a"), atom("b")];
    assert_eq!(splice_result(&short, &used, vec![value(9)]), vec![value(9)]);
    let ranges = vec![Token::Parameter(Range::From(3))];
    assert_eq!(splice_result(&short, &ranges, vec![value(9)]), vec![atom("a"), atom("b"), value(9)]);
}

#[test]
fn apply_substitutes_evaluates_and_splices() {
    let state = State { evaluator: Passthrough };
    let stack = vec![atom("a"), atom("b"), atom("c"), atom("d")];
    let body = vec![
        Token::Parameter(Range::Exact(0)),
        Token::Parameter(Range::Exact(1)),
        Token::Parameter(Range::Exact(2)),
        Token::Function(0),
    ];
    assert_eq!(
        state.apply(&body, &stack, &body),
        vec![atom("a"), atom("d"), atom("c"), atom("b"), Token::Function(0)]
    );
    let short = vec![atom("x")];
    assert_eq!(state.apply(&body, &short, &body), vec![atom("x"), Token::Function(0)]);
}

#[test]
fn numbers_parse_as_decimals() {
    assert_eq!(parse_number(&chars("12")), Some(Number { negative: false, magnitude: 12, scale: 0 }));
    assert_eq!(parse_number(&chars("-1.50")), Some(Number { negative: true, magnitude: 150, scale: 2 }));
    assert_eq!(parse_number(&chars("1.")), None);
    assert_eq!(parse_number(&chars(".5")), None);
    assert_eq!(parse_number(&chars("1a")), None);
    assert_eq!(parse_number(&chars("99999999999999999999")), None);
}

#[test]
fn pieces_are_classified() {
    let reg = registry(&["add", "sub"]);
    let containers = vec!["total".to_string()];
    assert_eq!(classify_piece(&chars("#2"), &containers, &reg), Ok(Token::Parameter(Range::Exact(2))));
    assert_eq!(classify_piece(&chars("#n"), &containers, &reg), Ok(Token::Parameter(Range::To(0))));
    assert_eq!(classify_piece(&chars("`sub`"), &containers, &reg), Ok(Token::FunctionLiteral(1)));
    assert_eq!(classify_piece(&chars("total\n"), &containers, &reg), Ok(Token::Container("total".to_string())));
    assert_eq!(classify_piece(&chars("("), &containers, &reg), Ok(special("(")));
    assert_eq!(classify_piece(&chars("'z'"), &containers, &reg), Ok(Token::Char('z')));
    assert_eq!(classify_piece(&chars("add"), &containers, &reg), Ok(Token::Function(0)));
    assert_eq!(classify_piece(&chars(":foo"), &containers, &reg), Ok(atom(":foo")));
}

#[test]
fn unknown_function_literal_is_an_error() {
    let reg = registry(&["add"]);
    assert_eq!(
        classify_piece(&chars("`mul`"), &vec![], &reg),
        Err(LexError::UnresolvedFunctionLiteral("mul".to_string()))
    );
    assert_eq!(
        tokenize("1 `mul`".to_string(), &reg),
        Err(LexError::UnresolvedFunctionLiteral("mul".to_string()))
    );
}

#[test]
fn assignment_line_binds_container() {
    let reg = registry(&["add"]);
    let out = tokenize("total <- 1 2 add\ntotal 3 add".to_string(), &reg).unwrap();
    assert_eq!(
        out,
        vec![
            WSection { container: Some("total".to_string()), code: vec![value(1), value(2), Token::Function(0)] },
            WSection { container: None, code: vec![Token::Container("total".to_string()), value(3), Token::Function(0)] },
        ]
    );
}

#[test]
fn container_is_not_seen_on_its_own_line() {
    let reg = registry(&[]);
    let out = tokenize("x <- x\n\n   \nx".to_string(), &reg).unwrap();
    assert_eq!(
        out,
        vec![
            WSection { container: Some("x".to_string()), code: vec![atom("x")] },
            WSection { container: None, code: vec![Token::Container("x".to_string())] },
        ]
    );
}

#[test]
fn normalized_string_tokenizes_to_char_group() {
    let reg = registry(&[]);
    let text = expand_string("\"ab\"".to_string());
    assert_eq!(text, "{ 'a' 'b' }");
    let tokens = tokenize_code(&chars(&text), &vec![], &reg).unwrap();
    assert_eq!(tokens, vec![special("{"), Token::Char('a'), Token::Char('b'), special("}")]);
    assert_eq!(bundle_groups(tokens), vec![Token::Group(vec![Token::Char('a'), Token::Char('b')])]);
}

#[test]
fn raw_string_tokenizes_to_atom() {
    let reg = registry(&[]);
    let tokens = tokenize_code(&chars("\"ab\""), &vec![], &reg).unwrap();
    assert_eq!(tokens, vec![atom("\"ab\"")]);
}

#[test]
fn double_spaces_make_no_tokens() {
    let reg = registry(&[]);
    assert_eq!(tokenize_code(&chars(" 1  2 "), &vec![], &reg).unwrap(), vec![value(1), value(2)]);
}

#[test]
fn string_span_does_not_cross_lines() {
    assert_eq!(expand_string("\"a\n\"".to_string()), "\"a\n\"");
    assert_eq!(expand_string("\"x\n\"ab\"".to_string()), "\"x\n{ 'a' 'b' }");
}
