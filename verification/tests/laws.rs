use lib::{
    tokenize, Column, DataType, Database, DatabaseError, DbError, Executor, Row, Schema, TableScanExecutor, Token, Value,
};

fn numbers() -> Database {
    let mut database = Database::new();
    database
        .execute_batch(
            "CREATE TABLE numbers (value INTEGER, label TEXT);\
             INSERT INTO numbers VALUES (1, 'one');\
             INSERT INTO numbers VALUES (0, 'zero');\
             INSERT INTO numbers VALUES (7, 'seven');",
        )
        .unwrap();
    database
}

#[test]
fn an_inserted_row_is_read_back() {
    let mut database = numbers();
    let before = database.select_all("numbers").unwrap();
    let row = vec![Value::Integer(9), Value::text("nine")];
    database.insert("numbers", row.clone()).unwrap();
    let after = database.select_all("numbers").unwrap();
    assert_eq!(after.len(), before.len() + 1);
    assert!(after.contains(&Row::new(row)));
    for old in &before {
        assert!(after.contains(old));
    }
}

#[test]
fn rows_spread_over_pages_are_all_read_back() {
    let mut database = Database::new();
    database.execute("CREATE TABLE notes (id INTEGER, body TEXT);").unwrap();
    let mut expected = Vec::new();
    for id in 0..20 {
        let body = "y".repeat(100 + 150 * (id as usize % 5));
        database.insert("notes", vec![Value::Integer(id), Value::text(&body)]).unwrap();
        expected.push(Row::new(vec![Value::Integer(id), Value::text(&body)]));
    }
    let rows = database.select_all("notes").unwrap();
    assert_eq!(rows.len(), expected.len());
    for row in &expected {
        assert!(rows.contains(row));
    }
}

#[test]
fn reopening_the_image_gives_back_tables_and_rows() {
    let mut database = numbers();
    database
        .create_table(
            "flags",
            Schema::new(vec![Column::identity("id"), Column::nullable("on", DataType::Boolean)]).unwrap(),
        )
        .unwrap();
    database.insert("flags", vec![Value::Integer(1), Value::Null]).unwrap();
    database.execute("UPDATE numbers SET label = 'none' WHERE value = 0;").unwrap();
    let reopened = Database::open_image(&database.image()).unwrap();
    assert_eq!(reopened.table_count(), database.table_count());
    for name in ["numbers", "flags"] {
        assert_eq!(reopened.select_all(name).unwrap(), database.select_all(name).unwrap());
    }
    // Identity flags are not stored.
    assert!(database.table("flags").unwrap().schema().columns()[0].is_identity());
    assert!(!reopened.table("flags").unwrap().schema().columns()[0].is_identity());
    assert_eq!(reopened.image(), database.image());
}

#[test]
fn a_select_changes_nothing() {
    let mut database = numbers();
    let image = database.image();
    database.execute("SELECT value * 2 FROM numbers WHERE label != 'one';").unwrap();
    assert!(database.execute("SELECT 10 / value FROM numbers;").is_err());
    assert_eq!(database.image(), image);
}

#[test]
fn a_failing_delete_removes_nothing() {
    let mut database = numbers();
    let image = database.image();
    assert_eq!(database.execute("DELETE FROM numbers WHERE 10 / value = 10;"), Err(DatabaseError::DivisionByZero));
    assert_eq!(database.image(), image);
    assert_eq!(database.execute("SELECT * FROM numbers;").unwrap().len(), 3);
}

#[test]
fn a_failing_update_changes_nothing() {
    let mut database = numbers();
    let image = database.image();
    assert_eq!(
        database.execute("UPDATE numbers SET value = value * 9223372036854775807 WHERE value > 0;"),
        Err(DatabaseError::IntegerOverflow)
    );
    assert_eq!(database.image(), image);
}

#[test]
fn false_and_does_not_evaluate_its_right_operand() {
    let mut database = numbers();
    assert_eq!(database.execute("SELECT value FROM numbers WHERE false AND 1 / value = 1;").unwrap(), Vec::<Row>::new());
    assert_eq!(database.execute("SELECT value FROM numbers WHERE true OR 1 / value = 1;").unwrap().len(), 3);
    assert_eq!(
        database.execute("SELECT value FROM numbers WHERE value = NULL OR value = 7;").unwrap(),
        vec![Row::new(vec![Value::Integer(7)])]
    );
}

#[test]
fn an_update_sees_the_old_row_in_every_assignment() {
    let mut database = Database::new();
    database.execute_batch("CREATE TABLE pairs (a INTEGER, b INTEGER); INSERT INTO pairs VALUES (1, 2);").unwrap();
    let changed = database.execute("UPDATE pairs SET a = b, b = a;").unwrap();
    assert_eq!(changed, vec![Row::new(vec![Value::Integer(2), Value::Integer(1)])]);
}

#[test]
fn a_new_table_is_empty() {
    let mut database = Database::new();
    database.execute("CREATE TABLE empty (x BOOLEAN);").unwrap();
    assert_eq!(database.select_all("empty").unwrap(), Vec::<Row>::new());
    assert_eq!(database.execute("SELECT * FROM empty;").unwrap(), Vec::<Row>::new());
}

#[test]
fn an_invalid_insert_changes_nothing() {
    let mut database = numbers();
    let image = database.image();
    assert!(matches!(database.insert("numbers", vec![Value::Null, Value::Null]), Err(DbError::NullNotAllowed { .. })));
    assert!(matches!(database.insert("numbers", vec![Value::Integer(1)]), Err(DbError::WrongColumnCount { .. })));
    assert_eq!(database.image(), image);
}

#[test]
fn keywords_ignore_case() {
    assert_eq!(tokenize("SeLeCt").unwrap(), vec![Token::Select, Token::EndOfInput]);
    assert_eq!(tokenize("wHeRe").unwrap(), vec![Token::Where, Token::EndOfInput]);
    assert_eq!(tokenize("Wherever").unwrap(), vec![Token::Identifier("Wherever".to_string()), Token::EndOfInput]);
}

#[test]
fn a_batch_stops_at_the_first_failure() {
    let mut database = Database::new();
    let result = database.execute_batch(
        "CREATE TABLE t (x INTEGER); INSERT INTO t VALUES (1); INSERT INTO missing VALUES (2); INSERT INTO t VALUES (3);",
    );
    assert!(matches!(result, Err(DatabaseError::Bind(_))));
    assert_eq!(database.select_all("t").unwrap(), vec![Row::new(vec![Value::Integer(1)])]);
    assert!(matches!(database.execute_batch("SELECT FROM;"), Err(DatabaseError::Sql(_))));
}

#[test]
fn dropping_a_table_forgets_it() {
    let mut database = numbers();
    database.drop_table("numbers").unwrap();
    assert!(matches!(database.select_all("numbers"), Err(DbError::TableNotFound { .. })));
    let reopened = Database::open_image(&database.image()).unwrap();
    assert_eq!(reopened.table_count(), 0);
}

#[test]
fn tokens_end_with_exactly_one_end_of_input() {
    assert_eq!(tokenize("  ").unwrap(), vec![Token::EndOfInput]);
    let tokens = tokenize("SELECT * FROM t WHERE a <= 'x';").unwrap();
    assert_eq!(tokens.last(), Some(&Token::EndOfInput));
    assert_eq!(tokens.iter().filter(|t| **t == Token::EndOfInput).count(), 1);
}

#[test]
fn comparisons_agree_with_their_mirror_images() {
    let mut database = Database::new();
    database
        .execute_batch(
            "CREATE TABLE pairs (a INTEGER, b INTEGER, s TEXT, t TEXT, p BOOLEAN, q BOOLEAN);\
             INSERT INTO pairs VALUES (1, 2, 'apple', 'apricot', false, true);\
             INSERT INTO pairs VALUES (3, 3, 'pear', 'pear', true, true);",
        )
        .unwrap();
    let rows = database
        .execute("SELECT a < b, b > a, a <= b, b >= a, s < t, t > s, s <= t, t >= s, p < q, q > p, a = b, a <> b FROM pairs;")
        .unwrap();
    let b = Value::Boolean;
    assert_eq!(
        rows,
        vec![
            Row::new(vec![b(true), b(true), b(true), b(true), b(true), b(true), b(true), b(true), b(true), b(true), b(false), b(true)]),
            Row::new(vec![b(false), b(false), b(true), b(true), b(false), b(false), b(true), b(true), b(false), b(false), b(true), b(false)]),
        ]
    );
}

#[test]
fn a_scan_gives_each_row_once_then_none_on_every_call() {
    let rows = vec![Row::new(vec![Value::Integer(1)]), Row::new(vec![Value::Integer(2)])];
    let mut scan = TableScanExecutor::new(rows.clone());
    assert_eq!(scan.next(), Ok(Some(rows[0].clone())));
    assert_eq!(scan.next(), Ok(Some(rows[1].clone())));
    assert_eq!(scan.next(), Ok(None));
    assert_eq!(scan.next(), Ok(None));
}

#[test]
fn well_typed_expressions_fail_only_on_arithmetic() {
    let mut database = numbers();
    assert_eq!(
        database.execute("SELECT value + 1, -value, value = 0 FROM numbers WHERE label <> 'seven';").unwrap(),
        vec![
            Row::new(vec![Value::Integer(2), Value::Integer(-1), Value::Boolean(false)]),
            Row::new(vec![Value::Integer(1), Value::Integer(0), Value::Boolean(true)]),
        ]
    );
    assert_eq!(database.execute("SELECT 10 / value FROM numbers;"), Err(DatabaseError::DivisionByZero));
    assert_eq!(
        database.execute("SELECT value * 9223372036854775807 FROM numbers WHERE value = 7;"),
        Err(DatabaseError::IntegerOverflow)
    );
}
