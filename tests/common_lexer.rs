use tokenizer::common::lexer;
use tokenizer::common::tokens::Token;

fn tokens_of(input: &str) -> Vec<Token<'_>> {
    lexer::new(input).into_iter().collect()
}

#[test]
fn test_next_token() {
    let input = "=(){},;";

    let expected = vec![
        Token::Assign { position: 0 },
        Token::LParen { position: 1 },
        Token::RParen { position: 2 },
        Token::LBrace { position: 3 },
        Token::RBrace { position: 4 },
        Token::Comma,
        Token::Semicolon,
    ];

    let l = lexer::new(input);

    assert_eq!(expected, l.into_iter().collect());
}

#[test]
fn test_code_snippet() {
    let input = "let five = 5;\nlet ten = 10;";

    let expected = vec![
        Token::Let { position: 0 },
        Token::Ident { position: 4, val: &"five" },
        Token::Assign { position: 9 },
        Token::Int64 { position: 11, val: 5 },
        Token::Semicolon,
        Token::Let { position: 14 },
        Token::Ident { position: 18, val: &"ten" },
        Token::Assign { position: 22 },
        Token::Int64 { position: 24, val: 10 },
        Token::Semicolon,
    ];

    let l = lexer::new(input);

    assert_eq!(expected, l.into_iter().collect());
}

#[test]
fn test_proto() {
    let input = "proto unary_math_expression: fn = (out: i64) <- (x: i64)";

    let expected = vec![
        Token::Proto { position: 0 },
        Token::Ident { position: 6, val: "unary_math_expression" },
        Token::Colon { position: 27 },
        Token::Function { position: 29 },
        Token::Assign { position: 32 },
        Token::LParen { position: 34 },
        Token::Ident { position: 35, val: "out" },
        Token::Colon { position: 38 },
        Token::Ident { position: 40, val: "i64" },
        Token::RParen { position: 43 },
        Token::From { position: 45 },
        Token::LParen { position: 48 },
        Token::Ident { position: 49, val: "x" },
        Token::Colon { position: 50 },
        Token::Ident { position: 52, val: "i64" },
        Token::RParen { position: 55 },
    ];

    let l = lexer::new(input);

    assert_eq!(expected, l.into_iter().collect());
}

#[test]
fn arrow_and_lone_less_than() {
    assert_eq!(tokens_of("<-"), vec![Token::From { position: 0 }]);
    assert_eq!(tokens_of("<x"), vec![Token::Illegal, Token::Ident { position: 1, val: "x" }]);
    assert_eq!(tokens_of("<"), vec![Token::Illegal]);
    assert_eq!(tokens_of("< -"), vec![Token::Illegal, Token::Illegal]);
}

#[test]
fn keywords_alone_and_extended() {
    assert_eq!(tokens_of("fn"), vec![Token::Function { position: 0 }]);
    assert_eq!(tokens_of("let"), vec![Token::Let { position: 0 }]);
    assert_eq!(tokens_of("proto"), vec![Token::Proto { position: 0 }]);
    assert_eq!(tokens_of("fn_"), vec![Token::Ident { position: 0, val: "fn_" }]);
    assert_eq!(tokens_of("let1"), vec![Token::Ident { position: 0, val: "let1" }]);
    assert_eq!(tokens_of("protos"), vec![Token::Ident { position: 0, val: "protos" }]);
    assert_eq!(tokens_of("const"), vec![Token::Ident { position: 0, val: "const" }]);
}

#[test]
fn digit_strings_accumulate() {
    assert_eq!(tokens_of("0"), vec![Token::Int64 { position: 0, val: 0 }]);
    assert_eq!(tokens_of("007"), vec![Token::Int64 { position: 0, val: 7 }]);
    assert_eq!(
        tokens_of("123456789012345678"),
        vec![Token::Int64 { position: 0, val: 123456789012345678 }]
    );
    assert_eq!(
        tokens_of("9223372036854775807"),
        vec![Token::Int64 { position: 0, val: i64::MAX }]
    );
}

#[test]
fn overlong_numbers_wrap() {
    assert_eq!(
        tokens_of("9223372036854775808"),
        vec![Token::Int64 { position: 0, val: i64::MIN }]
    );
    assert_eq!(
        tokens_of("18446744073709551617"),
        vec![Token::Int64 { position: 0, val: 1 }]
    );
}

#[test]
fn punctuation_gives_one_token_each() {
    assert_eq!(
        tokens_of(";:,=)("),
        vec![
            Token::Semicolon,
            Token::Colon { position: 1 },
            Token::Comma,
            Token::Assign { position: 3 },
            Token::RParen { position: 4 },
            Token::LParen { position: 5 },
        ]
    );
}

#[test]
fn illegal_characters_one_each() {
    assert_eq!(tokens_of("+"), vec![Token::Illegal]);
    assert_eq!(tokens_of("#-$"), vec![Token::Illegal, Token::Illegal, Token::Illegal]);
    assert_eq!(
        tokens_of("é=ü"),
        vec![Token::Illegal, Token::Assign { position: 2 }, Token::Illegal]
    );
    assert_eq!(tokens_of("€x"), vec![Token::Illegal, Token::Ident { position: 3, val: "x" }]);
}

#[test]
fn whitespace_between_tokens_only_moves_positions() {
    assert_eq!(
        tokens_of("a=1;"),
        vec![
            Token::Ident { position: 0, val: "a" },
            Token::Assign { position: 1 },
            Token::Int64 { position: 2, val: 1 },
            Token::Semicolon,
        ]
    );
    assert_eq!(
        tokens_of(" a \t= \r\n1 ;\n"),
        vec![
            Token::Ident { position: 1, val: "a" },
            Token::Assign { position: 4 },
            Token::Int64 { position: 8, val: 1 },
            Token::Semicolon,
        ]
    );
}

#[test]
fn positions_follow_multibyte_text() {
    assert_eq!(
        tokens_of("ä let"),
        vec![Token::Illegal, Token::Let { position: 3 }]
    );
}

#[test]
fn identifier_text_borrows_the_source() {
    let src = String::from("alpha beta");
    let toks = tokens_of(&src);
    match toks[1] {
        Token::Ident { position, val } => {
            assert_eq!(position, 6);
            assert_eq!(val, "beta");
            assert!(std::ptr::eq(val.as_ptr(), src[6..].as_ptr()));
        }
        _ => panic!("expected an identifier"),
    }
}

#[test]
fn keyword_check_reclassifies_reserved_words() {
    assert_eq!(
        lexer::ident_keyword_check(Token::Ident { position: 2, val: "fn" }),
        Token::Function { position: 2 }
    );
    assert_eq!(
        lexer::ident_keyword_check(Token::Ident { position: 2, val: "proto" }),
        Token::Proto { position: 2 }
    );
    assert_eq!(
        lexer::ident_keyword_check(Token::Ident { position: 2, val: "let" }),
        Token::Let { position: 2 }
    );
    assert_eq!(
        lexer::ident_keyword_check(Token::Ident { position: 2, val: "lets" }),
        Token::Ident { position: 2, val: "lets" }
    );
    assert_eq!(lexer::ident_keyword_check(Token::Illegal), Token::Illegal);
}
