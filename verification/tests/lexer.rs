use lib::{tokenize, LexError, Lexer, Token};

#[test]
fn lexes_select_statement() {
    let tokens = Lexer::new("SELECT name FROM users WHERE id = 10;").tokenize().unwrap();

    assert_eq!(
        tokens,
        vec![
            Token::Select,
            Token::Identifier("name".to_string()),
            Token::From,
            Token::Identifier("users".to_string()),
            Token::Where,
            Token::Identifier("id".to_string()),
            Token::Equal,
            Token::Integer(10),
            Token::Semicolon,
            Token::EndOfInput,
        ]
    );
}

#[test]
fn lexes_insert_statement_from_completion_criteria() {
    let tokens = Lexer::new("INSERT INTO users VALUES (1, 'Liam');").tokenize().unwrap();

    assert_eq!(
        tokens,
        vec![
            Token::Insert,
            Token::Into,
            Token::Identifier("users".to_string()),
            Token::Values,
            Token::LeftParen,
            Token::Integer(1),
            Token::Comma,
            Token::StringLiteral("Liam".to_string()),
            Token::RightParen,
            Token::Semicolon,
            Token::EndOfInput,
        ]
    );
}

#[test]
fn keywords_are_case_insensitive_but_identifiers_keep_their_case() {
    let tokens = Lexer::new("select User_Name from Users").tokenize().unwrap();

    assert_eq!(
        tokens,
        vec![
            Token::Select,
            Token::Identifier("User_Name".to_string()),
            Token::From,
            Token::Identifier("Users".to_string()),
            Token::EndOfInput,
        ]
    );
}

#[test]
fn reports_unterminated_string() {
    let error = Lexer::new("SELECT 'unterminated string").tokenize().unwrap_err();

    assert_eq!(error, LexError::UnterminatedString { position: 7 });
}

#[test]
fn lexes_comparison_operators_and_escaped_quote() {
    let tokens = Lexer::new("a != 'Liam''s' <> b < 2 > 1").tokenize().unwrap();

    assert_eq!(
        tokens,
        vec![
            Token::Identifier("a".to_string()),
            Token::NotEqual,
            Token::StringLiteral("Liam's".to_string()),
            Token::NotEqual,
            Token::Identifier("b".to_string()),
            Token::LessThan,
            Token::Integer(2),
            Token::GreaterThan,
            Token::Integer(1),
            Token::EndOfInput,
        ]
    );
}

#[test]
fn insert_completion_criteria_produces_expected_tokens() {
    let tokens = Lexer::new("INSERT INTO users VALUES (1, 'Liam');").tokenize().unwrap();

    assert_eq!(
        tokens,
        vec![
            Token::Insert,
            Token::Into,
            Token::Identifier("users".to_string()),
            Token::Values,
            Token::LeftParen,
            Token::Integer(1),
            Token::Comma,
            Token::StringLiteral("Liam".to_string()),
            Token::RightParen,
            Token::Semicolon,
            Token::EndOfInput,
        ]
    );
}

#[test]
fn malformed_sql_returns_a_useful_error() {
    let result = Lexer::new("SELECT 'unterminated string").tokenize();

    assert_eq!(result, Err(LexError::UnterminatedString { position: 7 }));
}

#[test]
fn lexes_the_remaining_operators_and_keywords() {
    let tokens = tokenize("set AND or NOT true FALSE null int integer bool boolean text + - * / <= >= =").unwrap();
    assert_eq!(
        tokens,
        vec![
            Token::SetKeyword,
            Token::And,
            Token::Or,
            Token::Not,
            Token::True,
            Token::False,
            Token::Null,
            Token::Identifier("int".to_string()),
            Token::IntegerType,
            Token::Identifier("bool".to_string()),
            Token::BooleanType,
            Token::TextType,
            Token::Plus,
            Token::Minus,
            Token::Asterisk,
            Token::Slash,
            Token::LessThanOrEqual,
            Token::GreaterThanOrEqual,
            Token::Equal,
            Token::EndOfInput,
        ]
    );
}

#[test]
fn rejects_unknown_characters_and_oversized_integers() {
    assert_eq!(tokenize("a # b"), Err(LexError::UnexpectedCharacter { character: '#', position: 2 }));
    assert!(matches!(tokenize("99999999999999999999"), Err(LexError::InvalidInteger { .. })));
}
