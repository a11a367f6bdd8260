use risp::lexer::{tokenize, Symbol, Token, TokenType};
use risp::text::{i32_to_string, is_whitespace, parse_i32, str_eq};

fn texts<'a>(tokens: &[Token<'a>]) -> Vec<&'a str> {
    tokens.iter().map(|t| t.data).collect()
}

#[test]
fn tokenize_sum_form() {
    let tokens = tokenize("(+ 1 2)");
    assert_eq!(
        tokens,
        vec![
            Token { ty: TokenType::Symbol(Symbol::LParen), data: "(" },
            Token { ty: TokenType::Ident, data: "+" },
            Token { ty: TokenType::Ident, data: "1" },
            Token { ty: TokenType::Ident, data: "2" },
            Token { ty: TokenType::Symbol(Symbol::RParen), data: ")" },
        ]
    );
}

#[test]
fn tokenize_empty_and_blank() {
    assert_eq!(tokenize(""), vec![]);
    assert_eq!(tokenize("  \t\n "), vec![]);
}

#[test]
fn tokenize_symbols_split_atoms() {
    let tokens = tokenize("10))(add\"x\"");
    assert_eq!(texts(&tokens), vec!["10", ")", ")", "(", "add", "\"", "x", "\""]);
    assert_eq!(tokens[0].ty, TokenType::Ident);
    assert_eq!(tokens[1].ty, TokenType::Symbol(Symbol::RParen));
    assert_eq!(tokens[3].ty, TokenType::Symbol(Symbol::LParen));
    assert_eq!(tokens[5].ty, TokenType::Symbol(Symbol::Quote));
}

#[test]
fn tokenize_atom_at_end() {
    assert_eq!(texts(&tokenize("abc")), vec!["abc"]);
    assert_eq!(texts(&tokenize("(abc def")), vec!["(", "abc", "def"]);
}

#[test]
fn tokenize_unicode() {
    let tokens = tokenize("(\u{e9}t\u{e9}\u{a0}\u{3bb}x\u{2003}z)");
    assert_eq!(texts(&tokens), vec!["(", "\u{e9}t\u{e9}", "\u{3bb}x", "z", ")"]);
}

#[test]
fn tokenize_agrees_with_split_whitespace() {
    let input = "alpha  beta\tgamma\ndelta\u{1680}epsilon";
    let expected: Vec<&str> = input.split_whitespace().collect();
    assert_eq!(texts(&tokenize(input)), expected);
}

#[test]
fn whitespace_is_the_unicode_property() {
    let mut code: u32 = 0;
    while code <= 0x10FFFF {
        if let Some(c) = char::from_u32(code) {
            assert_eq!(is_whitespace(c), c.is_whitespace(), "U+{:04X}", code);
        }
        code += 1;
    }
}

#[test]
fn token_new_classifies() {
    assert_eq!(Token::new("(").ty, TokenType::Symbol(Symbol::LParen));
    assert_eq!(Token::new(")").ty, TokenType::Symbol(Symbol::RParen));
    assert_eq!(Token::new("\"").ty, TokenType::Symbol(Symbol::Quote));
    assert_eq!(Token::new("((").ty, TokenType::Ident);
    assert_eq!(Token::new("").ty, TokenType::Ident);
    assert_eq!(Token::new("x").ty, TokenType::Ident);
    assert_eq!(Token::new("x").reclaim(), "x");
}

#[test]
fn symbol_from_text_and_label() {
    assert_eq!(Symbol::from_text("("), Some(Symbol::LParen));
    assert_eq!(Symbol::from_text(")"), Some(Symbol::RParen));
    assert_eq!(Symbol::from_text("\""), Some(Symbol::Quote));
    assert_eq!(Symbol::from_text("()"), None);
    assert_eq!(Symbol::from_text("a"), None);
    assert_eq!(Symbol::LParen.label(), "LPAR");
    assert_eq!(Symbol::RParen.label(), "RPAR");
    assert_eq!(Symbol::Quote.label(), "QUOT");
}

#[test]
fn token_to_text() {
    assert_eq!(Token::new("abc").to_text(), "abc");
    assert_eq!(Token::new("(").to_text(), "SYM (");
}

#[test]
fn str_eq_compares_characters() {
    assert!(str_eq("", ""));
    assert!(str_eq("def", "def"));
    assert!(!str_eq("def", "de"));
    assert!(!str_eq("def", "dex"));
    assert!(str_eq("\u{3bb}x", "\u{3bb}x"));
    assert!(!str_eq("\u{3bb}", "\u{3bc}"));
}

#[test]
fn parse_i32_agrees_with_std() {
    let samples = [
        "", "0", "7", "42", "-42", "+42", "-", "+", "--1", "+-1", "-+1", "1-", "1 ", " 1", "007",
        "-0", "+0", "2147483647", "2147483648", "-2147483648", "-2147483649", "99999999999",
        "000000000000000000000000012", "-000000000000000002147483648", "12a", "a12", "1_000",
        "\u{661}", "1\u{e9}", "\u{e9}", "-\u{e9}", "0x10", "1e3", "1.0",
    ];
    for s in samples {
        assert_eq!(parse_i32(s), s.parse::<i32>().ok(), "{:?}", s);
    }
}

#[test]
fn parse_i32_exact_values() {
    assert_eq!(parse_i32("2147483647"), Some(i32::MAX));
    assert_eq!(parse_i32("-2147483648"), Some(i32::MIN));
    assert_eq!(parse_i32("2147483648"), None);
    assert_eq!(parse_i32("+15"), Some(15));
}

#[test]
fn i32_to_string_agrees_with_std() {
    let samples = [0, 1, -1, 9, 10, 11, 99, 100, -100, 12345, -98765, i32::MAX, i32::MIN];
    for n in samples {
        assert_eq!(i32_to_string(n), n.to_string());
    }
    assert_eq!(i32_to_string(-2147483648), "-2147483648");
    assert_eq!(i32_to_string(305), "305");
}

#[test]
fn numeral_round_trip() {
    let samples = [0, 5, -5, 1000, i32::MAX, i32::MIN];
    for n in samples {
        assert_eq!(parse_i32(&i32_to_string(n)), Some(n));
    }
}
