use risp::ast::{Member, SExpr, AST};
use risp::lexer::tokenize;
use risp::parser::{read_string, take_until_match_parens, ParseError};

fn form<'a>(members: Vec<Member<'a>>) -> SExpr<'a> {
    SExpr::new(members)
}

fn parse(src: &str) -> Result<AST<'_>, ParseError> {
    AST::from_tokens(tokenize(src))
}

#[test]
fn parse_sum_form() {
    let tree = parse("(+ 1 2)").unwrap();
    assert_eq!(tree.prog.len(), 1);
    assert_eq!(tree.prog[0], form(vec![Member::Ident("+"), Member::NumI(1), Member::NumI(2)]));
}

#[test]
fn parse_empty_program() {
    assert_eq!(parse("").unwrap().prog.len(), 0);
}

#[test]
fn parse_nested_forms() {
    let tree = parse("(def sq (n) (+ n n)) (sq 4)").unwrap();
    assert_eq!(tree.prog.len(), 2);
    assert_eq!(
        tree.prog[0],
        form(vec![
            Member::Ident("def"),
            Member::Ident("sq"),
            Member::SExpr(form(vec![Member::Ident("n")])),
            Member::SExpr(form(vec![Member::Ident("+"), Member::Ident("n"), Member::Ident("n")])),
        ])
    );
    assert_eq!(tree.prog[1], form(vec![Member::Ident("sq"), Member::NumI(4)]));
}

#[test]
fn parse_text_literal() {
    let tree = parse("(+ \"a\" \"hello world\" \"(x)\")").unwrap();
    assert_eq!(
        tree.prog[0],
        form(vec![
            Member::Ident("+"),
            Member::String("a".to_string()),
            Member::String("helloworld".to_string()),
            Member::String("(x)".to_string()),
        ])
    );
}

#[test]
fn parse_empty_text_literal() {
    let tree = parse("(f \"\")").unwrap();
    assert_eq!(tree.prog[0], form(vec![Member::Ident("f"), Member::String(String::new())]));
}

#[test]
fn parse_numbers_and_names() {
    let tree = parse("(f -7 +7 2147483647 2147483648 7x -)").unwrap();
    assert_eq!(
        tree.prog[0],
        form(vec![
            Member::Ident("f"),
            Member::NumI(-7),
            Member::NumI(7),
            Member::NumI(2147483647),
            Member::Ident("2147483648"),
            Member::Ident("7x"),
            Member::Ident("-"),
        ])
    );
}

#[test]
fn parse_open_form_ends_with_tokens() {
    let tree = parse("(+ 1 (f 2").unwrap();
    assert_eq!(
        tree.prog[0],
        form(vec![
            Member::Ident("+"),
            Member::NumI(1),
            Member::SExpr(form(vec![Member::Ident("f"), Member::NumI(2)])),
        ])
    );
}

#[test]
fn parse_unexpected_token() {
    assert_eq!(parse("x").unwrap_err(), ParseError::UnexpectedToken);
    assert_eq!(parse("(f) y").unwrap_err(), ParseError::UnexpectedToken);
    assert_eq!(parse("(f))").unwrap_err(), ParseError::UnexpectedToken);
    assert_eq!(parse("\"a\"").unwrap_err(), ParseError::UnexpectedToken);
}

#[test]
fn parse_unterminated_string() {
    assert_eq!(parse("(f \"abc)").unwrap_err(), ParseError::UnterminatedString);
    assert_eq!(parse("(f (g \"").unwrap_err(), ParseError::UnterminatedString);
}

#[test]
fn parse_error_messages() {
    assert_eq!(ParseError::UnexpectedToken.message(), "Error parsing program into AST");
    assert_eq!(ParseError::UnterminatedString.message(), "Unterminated string literal");
}

#[test]
fn read_string_stops_at_quote() {
    let tokens = tokenize("ab cd\" e");
    assert_eq!(read_string(&tokens, 0), Ok(("abcd".to_string(), 3)));
    assert_eq!(read_string(&tokens, 3), Err(ParseError::UnterminatedString));
    assert_eq!(read_string(&tokens, 4), Err(ParseError::UnterminatedString));
}

#[test]
fn take_until_match_parens_gives_position() {
    let tokens = tokenize("a (b) c) d");
    let (read, next) = take_until_match_parens(&tokens, 0).unwrap();
    assert_eq!(
        read,
        form(vec![
            Member::Ident("a"),
            Member::SExpr(form(vec![Member::Ident("b")])),
            Member::Ident("c"),
        ])
    );
    assert_eq!(next, 6);
    let (rest, end) = take_until_match_parens(&tokens, 6).unwrap();
    assert_eq!(rest, form(vec![Member::Ident("d")]));
    assert_eq!(end, 7);
}

#[test]
fn member_accessors() {
    assert_eq!(Member::Ident("x").as_ident(), Some("x"));
    assert_eq!(Member::NumI(1).as_ident(), None);
    assert_eq!(Member::Unit.as_sexpr(), None);
    assert_eq!(
        Member::SExpr(form(vec![Member::NumI(1)])).as_sexpr(),
        Some(form(vec![Member::NumI(1)]))
    );
    assert_eq!(
        Member::SExpr(form(vec![Member::Ident("a"), Member::Ident("b")])).as_ident_list(),
        Some(vec!["a", "b"])
    );
    assert_eq!(Member::SExpr(form(vec![])).as_ident_list(), Some(vec![]));
    assert_eq!(
        Member::SExpr(form(vec![Member::Ident("a"), Member::NumI(1)])).as_ident_list(),
        None
    );
    assert_eq!(Member::Ident("a").as_ident_list(), None);
}

#[test]
fn member_is_resolved() {
    assert!(Member::NumI(1).is_resolved());
    assert!(Member::String("a".to_string()).is_resolved());
    assert!(Member::Unit.is_resolved());
    assert!(!Member::Ident("a").is_resolved());
    assert!(!Member::SExpr(form(vec![])).is_resolved());
}

#[test]
fn member_clone_is_deep() {
    let nested = Member::SExpr(form(vec![
        Member::Ident("f"),
        Member::SExpr(form(vec![Member::String("s".to_string()), Member::NumI(3), Member::Unit])),
    ]));
    assert_eq!(nested.clone(), nested);
}

#[test]
fn sexpr_new_keeps_order() {
    let built = form(vec![Member::NumI(1), Member::NumI(2), Member::NumI(3)]);
    let listed: Vec<&Member> = built.members.iter().collect();
    assert_eq!(listed, vec![&Member::NumI(1), &Member::NumI(2), &Member::NumI(3)]);
}
