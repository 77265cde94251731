use tokenizer::lexer;
use tokenizer::tokens;
use tokenizer::tokens::Token;

fn tokens_of(input: &str) -> Vec<Token<'_>> {
    lexer::new(input).into_iter().collect()
}

#[test]
fn lexer_test_next_token() {
    let input = "=+(){},;";

    let expected = vec![
        tokens::Token::Assign { position: 0 },
        tokens::Token::Plus { position: 1 },
        tokens::Token::LParen,
        tokens::Token::RParen,
        tokens::Token::LBrace,
        tokens::Token::RBrace,
        tokens::Token::Comma,
        tokens::Token::Semicolon,
    ];

    let l = lexer::new(input);

    assert_eq!(expected, l.into_iter().collect());
}

#[test]
fn lexer_test_code_snippet() {
    let input = "let five = 5;\nlet ten = 10;";

    let expected = vec![
        tokens::Token::Let { position: 0 },
        tokens::Token::Ident { position: 4, val: &"five" },
        tokens::Token::Assign { position: 9 },
        tokens::Token::Int64 { position: 11, val: 5 },
        tokens::Token::Semicolon,
        tokens::Token::Let { position: 14 },
        tokens::Token::Ident { position: 18, val: &"ten" },
        tokens::Token::Assign { position: 22 },
        tokens::Token::Int64 { position: 24, val: 10 },
        tokens::Token::Semicolon,
    ];

    let l = lexer::new(input);

    assert_eq!(expected, l.into_iter().collect());
}

#[test]
fn base_empty_and_blank_input_give_no_tokens() {
    assert_eq!(tokens_of(""), vec![]);
    assert_eq!(tokens_of(" \t\r\n  "), vec![]);
}

#[test]
fn base_next_pulls_one_token_at_a_time() {
    let mut it = lexer::new("  x+").into_iter();
    assert_eq!(it.next(), Some(Token::Ident { position: 2, val: "x" }));
    assert_eq!(it.next(), Some(Token::Plus { position: 3 }));
    assert_eq!(it.next(), None);
    assert_eq!(it.next(), None);
}

#[test]
fn base_reserves_only_let() {
    assert_eq!(tokens_of("let"), vec![Token::Let { position: 0 }]);
    assert_eq!(tokens_of("fn"), vec![Token::Ident { position: 0, val: "fn" }]);
    assert_eq!(tokens_of("proto"), vec![Token::Ident { position: 0, val: "proto" }]);
    assert_eq!(tokens_of("lets"), vec![Token::Ident { position: 0, val: "lets" }]);
    assert_eq!(tokens_of("Let"), vec![Token::Ident { position: 0, val: "Let" }]);
}

#[test]
fn base_arrow_colon_and_brackets_are_illegal() {
    assert_eq!(tokens_of("<-"), vec![Token::Illegal, Token::Illegal]);
    assert_eq!(tokens_of(":"), vec![Token::Illegal]);
    assert_eq!(tokens_of("[]"), vec![Token::Illegal, Token::Illegal]);
}

#[test]
fn base_plus_between_numbers() {
    assert_eq!(
        tokens_of("1+22"),
        vec![
            Token::Int64 { position: 0, val: 1 },
            Token::Plus { position: 1 },
            Token::Int64 { position: 2, val: 22 },
        ]
    );
}

#[test]
fn base_number_then_word() {
    assert_eq!(
        tokens_of("12ab_3"),
        vec![
            Token::Int64 { position: 0, val: 12 },
            Token::Ident { position: 2, val: "ab_3" },
        ]
    );
}

#[test]
fn base_keyword_check_reclassifies_only_let() {
    assert_eq!(
        lexer::ident_keyword_check(Token::Ident { position: 7, val: "let" }),
        Token::Let { position: 7 }
    );
    assert_eq!(
        lexer::ident_keyword_check(Token::Ident { position: 7, val: "fn" }),
        Token::Ident { position: 7, val: "fn" }
    );
    assert_eq!(lexer::ident_keyword_check(Token::Comma), Token::Comma);
}
