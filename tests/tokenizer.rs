use yep::tokenizer::{Keyword, LexError, Token, TokenType, Tokenizer};

fn tokenize(source: &str) -> Vec<Token> {
    Tokenizer::new(source.to_string()).tokenize().unwrap()
}

fn kinds(tokens: &[Token]) -> Vec<TokenType> {
    tokens.iter().map(|t| *t.get_type()).collect()
}

#[test]
fn tokenize_correctly() {
    let source = r#"
        !    != 


        ();


"#;
    let tokens = tokenize(source);
    assert_eq!(
        vec![
            TokenType::Not,
            TokenType::NotEquals,
            TokenType::ParenthesesLeft,
            TokenType::ParenthesesRight,
            TokenType::Semicolon,
            TokenType::Eof
        ],
        kinds(&tokens)
    );
}

#[test]
fn tokenize_string() {
    let source = r#"
        ! "thisisastring()!@#$:: =>"

        "another string"
        "#;
    let tokens = tokenize(source);
    assert_eq!(
        vec![TokenType::Not, TokenType::String, TokenType::String, TokenType::Eof],
        kinds(&tokens)
    );
    let raw_strings: Vec<&str> = tokens
        .iter()
        .filter(|t| *t.get_type() == TokenType::String)
        .map(|t| t.get_literal_value())
        .collect();
    assert_eq!(vec!["thisisastring()!@#$:: =>", "another string"], raw_strings);
}

#[test]
#[should_panic]
fn report_error_on_unterminated_string() {
    let source = r#"! "valid string" "unterminated string !!!
            "#;
    Tokenizer::new(source.to_string()).tokenize().unwrap();
}

#[test]
fn tokenize_numbers() {
    let source = "=\n 1234 5437";
    let tokens = tokenize(source);
    assert_eq!(
        vec![TokenType::Equals, TokenType::Number, TokenType::Number, TokenType::Eof],
        kinds(&tokens)
    );
    let raw_numbers: Vec<&str> = tokens
        .iter()
        .filter(|t| *t.get_type() == TokenType::Number)
        .map(|t| t.get_literal_value())
        .collect();
    assert_eq!(vec!["1234", "5437"], raw_numbers);
}

#[test]
fn tokenize_identifier_and_keyword() {
    let tokens = tokenize("let number=1234;");
    assert_eq!(
        vec![
            TokenType::Keyword(Keyword::Let),
            TokenType::Identifier,
            TokenType::Equals,
            TokenType::Number,
            TokenType::Semicolon,
            TokenType::Eof
        ],
        kinds(&tokens)
    );
    let raw_values: Vec<&str> = tokens.iter().map(|t| t.get_literal_value()).collect();
    assert_eq!(vec!["let", "number", "=", "1234", ";", ""], raw_values);
}

#[test]
fn tokenize_all_punctuation() {
    let tokens = tokenize("( ) { } , . + - * / ; ! = == != > >= < <= := :: -> const");
    assert_eq!(
        vec![
            TokenType::ParenthesesLeft,
            TokenType::ParenthesesRight,
            TokenType::BraceLeft,
            TokenType::BraceRight,
            TokenType::Comma,
            TokenType::Dot,
            TokenType::Plus,
            TokenType::Minus,
            TokenType::Star,
            TokenType::Slash,
            TokenType::Semicolon,
            TokenType::Not,
            TokenType::Equals,
            TokenType::EqualsEquals,
            TokenType::NotEquals,
            TokenType::GreaterThan,
            TokenType::GreaterThanEquals,
            TokenType::LessThan,
            TokenType::LessThanEquals,
            TokenType::ColonEquals,
            TokenType::DoubleColon,
            TokenType::ArrowRight,
            TokenType::Keyword(Keyword::Const),
            TokenType::Eof
        ],
        kinds(&tokens)
    );
}

#[test]
fn tokenize_empty_source_gives_only_end_of_input() {
    let tokens = tokenize("");
    assert_eq!(vec![TokenType::Eof], kinds(&tokens));
    assert_eq!(tokens[0].get_literal_value(), "");
    assert_eq!(tokens[0].get_start(), 0);
}

#[test]
fn token_positions_increase_and_record_lines() {
    let tokens = tokenize("let x = 1;\n  foo(x);");
    for pair in tokens.windows(2) {
        assert!(pair[0].get_start() < pair[1].get_start());
    }
    assert_eq!(tokens[0].get_line(), 1);
    assert_eq!(tokens[0].get_column(), 1);
    assert_eq!(tokens[5].get_literal_value(), "foo");
    assert_eq!(tokens[5].get_line(), 2);
    assert_eq!(tokens[5].get_column(), 3);
    assert_eq!(tokens[5].get_start(), 13);
    assert_eq!(tokens[5].get_length(), 3);
    assert_eq!(*tokens.last().unwrap().get_type(), TokenType::Eof);
}

#[test]
fn report_unexpected_character_with_position() {
    let r = Tokenizer::new("let a = 1;\n  #".to_string()).tokenize();
    assert_eq!(r, Err(LexError::UnexpectedCharacter { character: '#', line: 2, column: 3 }));
}

#[test]
fn report_lone_colon() {
    let r = Tokenizer::new("a : b".to_string()).tokenize();
    assert_eq!(r, Err(LexError::UnexpectedCharacter { character: ':', line: 1, column: 3 }));
}

#[test]
fn report_unterminated_string_position() {
    let r = Tokenizer::new("\n  \"abc".to_string()).tokenize();
    assert_eq!(r, Err(LexError::UnterminatedString { line: 2, column: 3 }));
}

#[test]
fn match_keywords_from_raw_values() {
    assert_eq!(Keyword::try_match_from_raw_value("let"), Some(Keyword::Let));
    assert_eq!(Keyword::try_match_from_raw_value("const"), Some(Keyword::Const));
    assert_eq!(Keyword::try_match_from_raw_value("lets"), None);
    assert_eq!(Keyword::try_match_from_raw_value(""), None);
}

#[test]
fn escaped_quote_stays_inside_string() {
    let tokens = tokenize(r#""a\"b" ;"#);
    assert_eq!(vec![TokenType::String, TokenType::Semicolon, TokenType::Eof], kinds(&tokens));
    assert_eq!(tokens[0].get_literal_value(), r#"a\"b"#);
    assert_eq!(tokens[0].get_length(), 6);
}

#[test]
fn tokenize_punctuation_on_one_line() {
    let tokens = tokenize("! != (); ");
    assert_eq!(
        vec![
            TokenType::Not,
            TokenType::NotEquals,
            TokenType::ParenthesesLeft,
            TokenType::ParenthesesRight,
            TokenType::Semicolon,
            TokenType::Eof
        ],
        kinds(&tokens)
    );
}

#[test]
fn plain_text_always_lexes() {
    let tokens = tokenize("let a_b = (1 + x) * -2 / y, {z} . >= <= == != -> ! < > ;\t\r\n");
    assert_eq!(tokens.len(), 28);
    assert_eq!(*tokens.last().unwrap().get_type(), TokenType::Eof);
}
