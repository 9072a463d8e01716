use rs_lambda::{DBIndices, DBLevels, DBTerm, LambdaTerm, Lexer, Parser, ParserError, Token};

fn parse(text: &str) -> Result<LambdaTerm, ParserError> {
    let mut parser = Parser::new(Lexer::new(text));
    parser.parse()
}

fn var(x: &str) -> LambdaTerm {
    LambdaTerm::Variable(x.to_string())
}

fn abs(x: &str, body: LambdaTerm) -> LambdaTerm {
    LambdaTerm::Abstraction {
        bound_variable: x.to_string(),
        return_term: Box::new(body),
    }
}

fn app(function: LambdaTerm, argument: LambdaTerm) -> LambdaTerm {
    LambdaTerm::Application {
        function: Box::new(function),
        argument: Box::new(argument),
    }
}

fn sorted(mut names: Vec<String>) -> Vec<String> {
    names.sort();
    names
}

fn names(list: &[&str]) -> Vec<String> {
    list.iter().map(|s| s.to_string()).collect()
}

fn tokens(text: &str) -> Vec<Token> {
    let mut lexer = Lexer::new(text);
    let mut out = Vec::new();
    while let Some(token) = lexer.next() {
        out.push(token);
    }
    out
}

fn ident(x: &str) -> Token {
    Token::Identifier(x.to_string())
}

#[test]
fn identity_abstraction() {
    let term = parse("λx.x").unwrap();
    assert_eq!(term, abs("x", var("x")));
    assert!(term.free_variables().is_empty());
    assert_eq!(term.bound_variables(), names(&["x"]));
    assert_eq!(term.to_string(), "λx. x");
    assert_eq!(DBIndices::from_lambda(term).to_string(), "λ 1");
}

#[test]
fn nested_abstractions_render_and_index() {
    let term = parse("λx.λy.x y").unwrap();
    assert_eq!(term, abs("x", abs("y", app(var("x"), var("y")))));
    assert_eq!(term.to_string(), "λx. λy. x y");
    assert_eq!(DBIndices::from_lambda(term).to_string(), "λ λ 2 1");
}

#[test]
fn nested_abstractions_levels() {
    let term = parse("λx.λy.x y").unwrap();
    assert_eq!(DBLevels::from_lambda(term).to_string(), "λ λ 1 2");
}

#[test]
fn applied_abstraction_is_parenthesized() {
    let term = parse("(λx.x) y").unwrap();
    assert_eq!(term, app(abs("x", var("x")), var("y")));
    assert_eq!(term.to_string(), "(λx. x) y");
}

#[test]
fn application_is_left_associative() {
    let term = parse("x y z").unwrap();
    assert_eq!(term, app(app(var("x"), var("y")), var("z")));
    assert_eq!(term.to_string(), "x y z");
}

#[test]
fn nested_argument_is_parenthesized() {
    let term = parse("x (y z)").unwrap();
    assert_eq!(term, app(var("x"), app(var("y"), var("z"))));
    assert_eq!(term.to_string(), "x (y z)");
}

#[test]
fn abstraction_body_extends_right() {
    let term = parse("λx. x y").unwrap();
    assert_eq!(term, abs("x", app(var("x"), var("y"))));
    let inner = parse("x λy. y z").unwrap();
    assert_eq!(inner, app(var("x"), abs("y", app(var("y"), var("z")))));
    assert_eq!(inner.to_string(), "x (λy. y z)");
}

#[test]
fn abstraction_closed_by_paren_inside_application() {
    let term = parse("(a λx. x) b").unwrap();
    assert_eq!(term, app(app(var("a"), abs("x", var("x"))), var("b")));
}

#[test]
fn backslash_is_a_binder() {
    assert_eq!(parse("\\x.x").unwrap(), abs("x", var("x")));
}

#[test]
fn lone_open_paren_fails() {
    let result = parse("(");
    assert!(matches!(
        result,
        Err(ParserError::PrematureEnd) | Err(ParserError::UnmatchedParens(_))
    ));
    assert_eq!(result, Err(ParserError::PrematureEnd));
}

#[test]
fn missing_dot_fails() {
    assert_eq!(
        parse("λx x"),
        Err(ParserError::ExpectedGot(Token::Dot, ident("x")))
    );
}

#[test]
fn leading_close_paren_fails() {
    assert_eq!(parse(")"), Err(ParserError::Unexpected(Token::RParen)));
    assert_eq!(parse(") x"), Err(ParserError::Unexpected(Token::RParen)));
}

#[test]
fn unclosed_paren_reports_depth() {
    assert_eq!(parse("(x y"), Err(ParserError::UnmatchedParens(1)));
    assert_eq!(parse("(λx. x"), Err(ParserError::UnmatchedParens(1)));
    assert_eq!(parse("((x)"), Err(ParserError::UnmatchedParens(1)));
}

#[test]
fn extra_close_paren_reports_negative_depth() {
    assert_eq!(parse("x)"), Err(ParserError::UnmatchedParens(-1)));
}

#[test]
fn balanced_parens_parse() {
    assert_eq!(parse("(x)").unwrap(), var("x"));
    assert_eq!(parse("((x)) y").unwrap(), app(var("x"), var("y")));
    assert_eq!(
        parse("(λx. x y)").unwrap(),
        abs("x", app(var("x"), var("y")))
    );
}

#[test]
fn empty_input_is_premature_end() {
    assert_eq!(parse(""), Err(ParserError::PrematureEnd));
    assert_eq!(parse("   "), Err(ParserError::PrematureEnd));
}

#[test]
fn dot_is_unexpected() {
    assert_eq!(parse("."), Err(ParserError::Unexpected(Token::Dot)));
    assert_eq!(parse("x . y"), Err(ParserError::Unexpected(Token::Dot)));
}

#[test]
fn binder_needs_identifier() {
    assert_eq!(
        parse("λ.x"),
        Err(ParserError::ExpectedIdentifierGot(Token::Dot))
    );
    assert_eq!(parse("λ"), Err(ParserError::PrematureEnd));
    assert_eq!(parse("λx"), Err(ParserError::PrematureEnd));
    assert_eq!(parse("λx."), Err(ParserError::PrematureEnd));
}

#[test]
fn null_character_is_an_end_marker() {
    assert_eq!(parse("\0"), Err(ParserError::PrematureEnd));
    assert_eq!(parse("x\0 y").unwrap(), app(var("x"), var("y")));
    assert_eq!(tokens("x\0"), vec![ident("x"), Token::Eof]);
}

#[test]
fn second_parse_continues_after_the_first() {
    let mut parser = Parser::new(Lexer::new("x) y"));
    assert_eq!(parser.parse(), Err(ParserError::UnmatchedParens(-1)));
}

#[test]
fn lexer_tokens() {
    assert_eq!(
        tokens("(λx.\\y) ab_c"),
        vec![
            Token::LParen,
            Token::Lambda,
            ident("x"),
            Token::Dot,
            Token::Lambda,
            ident("y"),
            Token::RParen,
            ident("ab"),
            ident("_c"),
        ]
    );
}

#[test]
fn lexer_splits_at_lambda_and_skips_unknown() {
    assert_eq!(tokens("xλy"), vec![ident("x"), Token::Lambda, ident("y")]);
    assert_eq!(tokens("a+b  c"), vec![ident("a"), ident("b"), ident("c")]);
    assert_eq!(tokens("x1 42"), vec![ident("x1"), ident("42")]);
}

#[test]
fn lexer_reads_unicode_letters() {
    assert_eq!(tokens("é1 αβ"), vec![ident("é1"), ident("αβ")]);
    assert_eq!(tokens("x→y"), vec![ident("x"), ident("y")]);
}

#[test]
fn lexer_stays_exhausted() {
    let mut lexer = Lexer::new("x");
    assert_eq!(lexer.next(), Some(ident("x")));
    assert_eq!(lexer.next(), None);
    assert_eq!(lexer.next(), None);
}

#[test]
fn free_and_bound_variables() {
    let term = parse("λx. x y").unwrap();
    assert_eq!(term.free_variables(), names(&["y"]));
    assert_eq!(term.bound_variables(), names(&["x"]));
    let unused = parse("λx. y").unwrap();
    assert_eq!(unused.free_variables(), names(&["y"]));
}

#[test]
fn name_free_outside_and_bound_inside() {
    let term = parse("x (λx. x)").unwrap();
    assert_eq!(term.free_variables(), names(&["x"]));
    assert_eq!(term.bound_variables(), names(&["x"]));
}

#[test]
fn variables_are_listed_once() {
    let term = parse("λa. λb. λa. y z y b z").unwrap();
    assert_eq!(sorted(term.free_variables()), names(&["y", "z"]));
    assert_eq!(sorted(term.bound_variables()), names(&["a", "b"]));
}

#[test]
fn render_round_trips() {
    for text in [
        "λx.x",
        "x y z",
        "(λx.x) (λy. y y)",
        "x (y (z w))",
        "(λf. λx. f (f x)) g a",
        "λx. x (λy. y x) z",
    ] {
        let term = parse(text).unwrap();
        let rendered = term.to_string();
        let again = parse(&rendered).unwrap();
        assert_eq!(again, term);
        assert_eq!(again.to_string(), rendered);
    }
}

#[test]
fn shadowed_binder_resolves_innermost() {
    let term = parse("λx. λx. x").unwrap();
    assert_eq!(DBLevels::from_lambda(parse("λx. λx. x").unwrap()).to_string(), "λ λ 2");
    assert_eq!(DBIndices::from_lambda(term).to_string(), "λ λ 1");
    let term = parse("λx. (λx. x) x").unwrap();
    assert_eq!(DBLevels::from_lambda(term).to_string(), "λ (λ 2) 1");
}

#[test]
fn free_names_stay_in_de_bruijn_form() {
    let levels = DBLevels::from_lambda(parse("λx. x y (λz. z y)").unwrap());
    assert_eq!(levels.to_string(), "λ 1 y (λ 2 y)");
    assert_eq!(
        levels.0,
        DBTerm::Abstraction(Box::new(DBTerm::Application {
            function: Box::new(DBTerm::Application {
                function: Box::new(DBTerm::Variable(1)),
                argument: Box::new(DBTerm::FreeVariable("y".to_string())),
            }),
            argument: Box::new(DBTerm::Abstraction(Box::new(DBTerm::Application {
                function: Box::new(DBTerm::Variable(2)),
                argument: Box::new(DBTerm::FreeVariable("y".to_string())),
            }))),
        }))
    );
    assert_eq!(levels.0.free_variables(), names(&["y"]));
}

#[test]
fn de_bruijn_free_variables_listed_once() {
    let indices = DBIndices::from_lambda(parse("λx. x y z y (λy. y w)").unwrap());
    assert_eq!(sorted(indices.0.free_variables()), names(&["w", "y", "z"]));
    assert!(DBTerm::Variable(3).free_variables().is_empty());
}

#[test]
fn levels_indices_levels_is_identity() {
    let text = "λa. λb. (λc. a c (b c)) (λd. d a)";
    let levels = DBLevels::from_lambda(parse(text).unwrap());
    let rendered = levels.to_string();
    assert_eq!(rendered, "λ λ (λ 1 3 (2 3)) (λ 3 1)");
    let indices = DBIndices::from_levels(levels);
    assert_eq!(indices.to_string(), "λ λ (λ 3 1 (2 1)) (λ 1 3)");
    let back = DBLevels::from_indices(indices);
    assert_eq!(back.to_string(), rendered);
    assert_eq!(back, DBLevels::from_lambda(parse(text).unwrap()));
}

#[test]
fn multi_digit_numbers_render() {
    let mut text = String::new();
    for i in 0..12 {
        text.push_str(&format!("λv{}. ", i));
    }
    text.push_str("v0 v11");
    let term = parse(&text).unwrap();
    let indices = DBIndices::from_lambda(term);
    let rendered = indices.to_string();
    assert!(rendered.ends_with("12 1"));
    assert_eq!(rendered, format!("{}12 1", "λ ".repeat(12)));
    let levels = DBLevels::from_lambda(parse(&text).unwrap());
    assert_eq!(levels.to_string(), format!("{}1 12", "λ ".repeat(12)));
}
