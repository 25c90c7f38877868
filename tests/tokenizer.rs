use mylang::file_info::FI;
use mylang::tokenizer::{tokenize, Keyword, Token, TokenType, KW, TT};

fn token(tt: TokenType, length: usize, offset: usize) -> Token {
    Token::new(tt, FI::new(length, offset))
}

#[test]
fn test_tokenize() {
    let input = "fn add(x, y) { x + y }";
    let expected = vec![
        token(TT::Keyword(KW::Fn), 2, 0),
        token(TT::Whitespace, 1, 2),
        token(TT::Ident("add".to_string()), 3, 3),
        token(TT::LParen, 1, 6),
        token(TT::Ident("x".to_string()), 1, 7),
        token(TT::Comma, 1, 8),
        token(TT::Whitespace, 1, 9),
        token(TT::Ident("y".to_string()), 1, 10),
        token(TT::RParen, 1, 11),
        token(TT::Whitespace, 1, 12),
        token(TT::LBrace, 1, 13),
        token(TT::Whitespace, 1, 14),
        token(TT::Ident("x".to_string()), 1, 15),
        token(TT::Whitespace, 1, 16),
        token(TT::Plus, 1, 17),
        token(TT::Whitespace, 1, 18),
        token(TT::Ident("y".to_string()), 1, 19),
        token(TT::Whitespace, 1, 20),
        token(TT::RBrace, 1, 21),
        token(TT::EOF, 0, 22),
    ];

    let tokens = tokenize(input);

    assert_eq!(tokens, expected);
}

#[test]
fn test_tokenize_neq() {
    let input = "x != y";
    let expected = vec![
        token(TT::Ident("x".to_string()), 1, 0),
        token(TT::Whitespace, 1, 1),
        token(TT::NotEq, 2, 2),
        token(TT::Whitespace, 1, 4),
        token(TT::Ident("y".to_string()), 1, 5),
        token(TT::EOF, 0, 6),
    ];

    let tokens = tokenize(input);

    assert_eq!(tokens, expected);
}

#[test]
fn test_tokenize_comment() {
    let input = "x // comment\n y";
    let expected = vec![
        token(TT::Ident("x".to_string()), 1, 0),
        token(TT::Whitespace, 1, 1),
        token(TT::Comment(" comment".to_string()), 10, 2),
        token(TT::Newline, 1, 12),
        token(TT::Whitespace, 1, 13),
        token(TT::Ident("y".to_string()), 1, 14),
        token(TT::EOF, 0, 15),
    ];

    let tokens = tokenize(input);

    assert_eq!(tokens, expected);
}

#[test]
fn numbers_keywords_and_two_character_symbols() {
    let tokens = tokenize("u64 -> 1234 == = - global");
    let types: Vec<TokenType> = tokens.into_iter().map(|t| t.token_type).filter(|t| *t != TT::Whitespace).collect();
    assert_eq!(
        types,
        vec![
            TT::Keyword(Keyword::U64),
            TT::ReturnArrow,
            TT::U64(1234),
            TT::Eq,
            TT::Assign,
            TT::Minus,
            TT::Keyword(Keyword::Global),
            TT::EOF
        ]
    );
}

#[test]
fn unknown_character_and_huge_number_are_illegal() {
    let tokens = tokenize("#");
    assert_eq!(tokens[0], token(TT::Illegal, 1, 0));
    let tokens = tokenize("99999999999999999999");
    assert_eq!(tokens[0], token(TT::Illegal, 20, 0));
    let tokens = tokenize("18446744073709551615");
    assert_eq!(tokens[0].token_type, TT::U64(u64::MAX));
}

#[test]
fn token_text_round_trips() {
    assert_eq!(TT::U64(907).string(), "907");
    assert_eq!(TT::I64(-45).string(), "-45");
    assert_eq!(TT::I64(i64::MIN).string(), "-9223372036854775808");
    assert_eq!(TT::Comment(" hi".to_string()).string(), "// hi");
    assert_eq!(TT::Keyword(KW::While).string(), "while");
    assert_eq!(TT::NotEq.string(), "!=");
    assert_eq!(TT::EOF.string(), "");
}
