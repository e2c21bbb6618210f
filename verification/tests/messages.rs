use lib::{
    parse_sql, tokenize, DataType, DatabaseError, DbError, LexError, ParseError, SqlError, Token, Value,
};

#[test]
fn storage_errors_describe_themselves() {
    assert_eq!(DbError::TableNotFound { table: "users".to_string() }.message(), "table 'users' does not exist");
    assert_eq!(
        DbError::WrongColumnCount { table: "t".to_string(), expected: 3, actual: 12 }.message(),
        "table 't' expects 3 values, but received 12"
    );
    assert_eq!(
        DbError::TypeMismatch {
            table: "t".to_string(),
            column: "id".to_string(),
            expected: DataType::Integer,
            actual: DataType::Text,
        }
        .message(),
        "column 'id' in table 't' expects INTEGER, but received TEXT"
    );
    assert_eq!(
        DbError::RecordTooLarge { size: 5000, maximum: 4068 }.message(),
        "record is 5000 bytes, but a page can hold at most 4068"
    );
    assert_eq!(DbError::CatalogFull.message(), "the single-page system catalog is full");
}

#[test]
fn lexer_and_parser_errors_describe_themselves() {
    assert_eq!(
        LexError::UnterminatedString { position: 7 }.message(),
        "unterminated string starting at character 7"
    );
    assert_eq!(
        LexError::UnexpectedCharacter { character: '#', position: 2 }.message(),
        "unexpected character '#' at character 2"
    );
    let error = parse_sql("SELECT name users;").unwrap_err();
    let text = error.message();
    assert!(text.starts_with("parser error: expected "), "{text}");
    assert!(text.ends_with(" at token 2, but found Identifier(\"users\")"), "{text}");
    assert_eq!(
        ParseError::UnexpectedEnd { expected: "FROM".to_string(), position: 4 }.message(),
        "expected FROM at token 4, but reached the end of input"
    );
    assert_eq!(
        SqlError::Lex(LexError::InvalidInteger { literal: "99".to_string(), position: 0 }).message(),
        "lexer error: integer '99' at character 0 is outside the i64 range"
    );
}

#[test]
fn tokens_are_described_by_variant() {
    assert_eq!(Token::SetKeyword.describe(), "Set");
    assert_eq!(Token::Integer(-3).describe(), "Integer(-3)");
    assert_eq!(Token::Identifier("a\"b".to_string()).describe(), "Identifier(\"a\\\"b\")");
    assert_eq!(tokenize("'x'").unwrap()[0].describe(), "StringLiteral(\"x\")");
}

#[test]
fn values_are_shown_plainly() {
    assert_eq!(Value::Null.to_text(), "NULL");
    assert_eq!(Value::Integer(i64::MIN).to_text(), "-9223372036854775808");
    assert_eq!(Value::Integer(42).to_text(), "42");
    assert_eq!(Value::Boolean(false).to_text(), "false");
    assert_eq!(Value::text("héllo").to_text(), "héllo");
}

#[test]
fn statement_errors_describe_themselves() {
    assert_eq!(DatabaseError::DivisionByZero.message(), "division by zero");
    assert_eq!(DatabaseError::IntegerOverflow.message(), "integer arithmetic overflow");
    assert_eq!(
        DatabaseError::InvalidColumnIndex { index: 4, row_len: 2 }.message(),
        "column index 4 is outside a row of length 2"
    );
    assert_eq!(
        DatabaseError::ExpectedBoolean { actual: Value::Integer(-5) }.message(),
        "predicate evaluated to -5, not BOOLEAN"
    );
    assert_eq!(
        DatabaseError::Storage(DbError::TableNotFound { table: "x".to_string() }).message(),
        "storage error: table 'x' does not exist"
    );
    assert_eq!(
        DatabaseError::Sql(SqlError::Lex(LexError::UnterminatedString { position: 1 })).message(),
        "lexer error: unterminated string starting at character 1"
    );
}

fn parse_only(sql: &str) -> Result<(), DatabaseError> {
    parse_sql(sql)?;
    Ok(())
}

#[test]
fn errors_convert_into_statement_errors() {
    assert!(matches!(parse_only("SELECT 'open"), Err(DatabaseError::Sql(SqlError::Lex(_)))));
    assert_eq!(parse_only("SELECT a FROM t;"), Ok(()));
    let storage: DatabaseError = DbError::PageFull.into();
    assert_eq!(storage, DatabaseError::Storage(DbError::PageFull));
    let sql: SqlError = LexError::UnterminatedString { position: 0 }.into();
    assert!(matches!(sql, SqlError::Lex(_)));
}
