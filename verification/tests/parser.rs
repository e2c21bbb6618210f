use lib::{
    parse_sql, parse_sql_statements, BinaryOperator, ColumnDefinition, CreateTableStatement, DataType,
    Expression, InsertStatement, ParseError, Parser, SelectItem, SqlError, Statement, Token,
    UnaryOperator, Value,
};

fn parse(input: &str) -> Statement {
    parse_sql(input).unwrap()
}

#[test]
fn parses_create_table() {
    assert_eq!(
        parse("CREATE TABLE users (id INTEGER, name TEXT);"),
        Statement::CreateTable(CreateTableStatement {
            table: "users".to_string(),
            columns: vec![
                ColumnDefinition { name: "id".to_string(), data_type: DataType::Integer },
                ColumnDefinition { name: "name".to_string(), data_type: DataType::Text },
            ],
        })
    );
}

#[test]
fn parses_insert() {
    assert_eq!(
        parse("INSERT INTO users VALUES (1, 'Liam');"),
        Statement::Insert(InsertStatement {
            table: "users".to_string(),
            values: vec![
                Expression::Literal(Value::Integer(1)),
                Expression::Literal(Value::Text("Liam".to_string())),
            ],
        })
    );
}

#[test]
fn parses_select_and_respects_and_precedence() {
    let statement = parse("SELECT id, name FROM users WHERE id >= 1 AND name != 'Bob';");

    let Statement::Select(select) = statement else {
        panic!("expected SELECT statement");
    };

    assert_eq!(select.table, "users");
    assert_eq!(
        select.projections,
        vec![
            SelectItem::Expression(Expression::Column("id".to_string())),
            SelectItem::Expression(Expression::Column("name".to_string())),
        ]
    );
    assert_eq!(
        select.filter,
        Some(Expression::Binary {
            left: Box::new(Expression::Binary {
                left: Box::new(Expression::Column("id".to_string())),
                operator: BinaryOperator::GreaterThanOrEqual,
                right: Box::new(Expression::Literal(Value::Integer(1))),
            }),
            operator: BinaryOperator::And,
            right: Box::new(Expression::Binary {
                left: Box::new(Expression::Column("name".to_string())),
                operator: BinaryOperator::NotEqual,
                right: Box::new(Expression::Literal(Value::Text("Bob".to_string()))),
            }),
        })
    );
}

#[test]
fn multiplication_has_higher_precedence_than_addition() {
    let statement = parse("SELECT 1 + 2 * 3 FROM numbers;");
    let Statement::Select(select) = statement else {
        panic!("expected SELECT statement");
    };

    assert_eq!(
        select.projections[0],
        SelectItem::Expression(Expression::Binary {
            left: Box::new(Expression::Literal(Value::Integer(1))),
            operator: BinaryOperator::Add,
            right: Box::new(Expression::Binary {
                left: Box::new(Expression::Literal(Value::Integer(2))),
                operator: BinaryOperator::Multiply,
                right: Box::new(Expression::Literal(Value::Integer(3))),
            }),
        })
    );
}

#[test]
fn parentheses_override_precedence() {
    let statement = parse("SELECT (1 + 2) * 3 FROM numbers;");
    let Statement::Select(select) = statement else {
        panic!("expected SELECT statement");
    };

    assert_eq!(
        select.projections[0],
        SelectItem::Expression(Expression::Binary {
            left: Box::new(Expression::Binary {
                left: Box::new(Expression::Literal(Value::Integer(1))),
                operator: BinaryOperator::Add,
                right: Box::new(Expression::Literal(Value::Integer(2))),
            }),
            operator: BinaryOperator::Multiply,
            right: Box::new(Expression::Literal(Value::Integer(3))),
        })
    );
}

#[test]
fn parses_update_and_delete() {
    let statements = parse_sql_statements(
        "UPDATE users SET name = 'Ada', active = true WHERE id = 1;
             DELETE FROM users WHERE active = false;",
    )
    .unwrap();

    assert!(matches!(statements[0], Statement::Update(_)));
    assert!(matches!(statements[1], Statement::Delete(_)));
}

#[test]
fn malformed_statement_returns_error() {
    let error = parse_sql("SELECT name users;").unwrap_err();

    assert!(matches!(
        error,
        SqlError::Parse(ParseError::UnexpectedToken { found: Token::Identifier(_), .. })
    ));
}

#[test]
fn unary_operators_bind_tighter_than_binary_ones() {
    let statement = parse("SELECT -a * 2, NOT b FROM t;");
    let Statement::Select(select) = statement else {
        panic!("expected SELECT statement");
    };
    assert_eq!(
        select.projections,
        vec![
            SelectItem::Expression(Expression::Binary {
                left: Box::new(Expression::Unary {
                    operator: UnaryOperator::Negate,
                    expression: Box::new(Expression::Column("a".to_string())),
                }),
                operator: BinaryOperator::Multiply,
                right: Box::new(Expression::Literal(Value::Integer(2))),
            }),
            SelectItem::Expression(Expression::Unary {
                operator: UnaryOperator::Not,
                expression: Box::new(Expression::Column("b".to_string())),
            }),
        ]
    );
}

#[test]
fn single_statement_rejects_trailing_input() {
    assert!(matches!(parse_sql("SELECT a FROM t; SELECT b FROM t;"), Err(SqlError::Parse(_))));
    assert_eq!(parse_sql_statements("").unwrap(), Vec::<Statement>::new());
}

#[test]
fn parser_can_be_driven_directly() {
    let tokens = lib::tokenize("DELETE FROM t WHERE x = 1;").unwrap();
    let statement = Parser::new(tokens).parse().unwrap();
    assert!(matches!(statement, Statement::Delete(_)));
}
