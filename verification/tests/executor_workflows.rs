use lib::{bind_statement, build_executor, parse_sql, Database, DatabaseError, Executor, Row, Value};

#[test]
fn sql_executes_a_complete_crud_workflow() {
    let mut database = Database::new();

    assert!(database.execute("CREATE TABLE users (id INTEGER, name TEXT, active BOOLEAN);").unwrap().is_empty());
    database.execute("INSERT INTO users VALUES (1, 'Liam', true);").unwrap();
    database.execute("INSERT INTO users VALUES (11, 'Alice', false);").unwrap();
    database.execute("INSERT INTO users VALUES (12, 'Bob', true);").unwrap();

    let rows = database.execute("SELECT name FROM users WHERE id > 10 AND name != 'Bob';").unwrap();
    assert_eq!(rows, vec![Row::new(vec![Value::text("Alice")])]);

    let updated = database.execute("UPDATE users SET active = true, id = id + 1 WHERE name = 'Alice';").unwrap();
    assert_eq!(updated.len(), 1);
    assert_eq!(updated[0].values()[0], Value::Integer(12));
    assert_eq!(updated[0].values()[2], Value::Boolean(true));

    let deleted = database.execute("DELETE FROM users WHERE id <= 1;").unwrap();
    assert_eq!(deleted.len(), 1);
    assert_eq!(database.execute("SELECT * FROM users;").unwrap().len(), 2);
}

#[test]
fn projections_evaluate_expressions_and_null_filters_are_not_true() {
    let mut database = Database::new();
    database
        .execute_batch(
            "CREATE TABLE metrics (id INTEGER, flag BOOLEAN);\
             INSERT INTO metrics VALUES (1, true);",
        )
        .unwrap();

    assert_eq!(database.execute("SELECT id * 10 + 2 FROM metrics WHERE NULL = id;").unwrap(), Vec::<Row>::new());
    assert_eq!(
        database.execute("SELECT id * 10 + 2 FROM metrics WHERE flag;").unwrap(),
        vec![Row::new(vec![Value::Integer(12)])]
    );
}

#[test]
fn a_failing_update_does_not_partially_modify_the_table() {
    let mut database = Database::new();
    database
        .execute_batch(
            "CREATE TABLE numbers (value INTEGER);\
             INSERT INTO numbers VALUES (1);\
             INSERT INTO numbers VALUES (0);",
        )
        .unwrap();

    assert!(database.execute("UPDATE numbers SET value = 10 / value;").is_err());
    assert_eq!(
        database.execute("SELECT value FROM numbers;").unwrap(),
        vec![Row::new(vec![Value::Integer(1)]), Row::new(vec![Value::Integer(0)])]
    );
}

fn bound(database: &Database, sql: &str) -> lib::BoundStatement {
    bind_statement(database, parse_sql(sql).unwrap()).unwrap()
}

#[test]
fn a_statement_runs_on_the_first_call_of_next_not_when_built() {
    let mut database = Database::new();
    database.execute_batch("CREATE TABLE t (x INTEGER); INSERT INTO t VALUES (1); INSERT INTO t VALUES (2);").unwrap();
    let image = database.image();
    let statement = bound(&database, "DELETE FROM t WHERE x = 1;");
    drop(build_executor(&mut database, statement).unwrap());
    assert_eq!(database.image(), image);

    let statement = bound(&database, "DELETE FROM t WHERE x = 1;");
    let mut executor = build_executor(&mut database, statement).unwrap();
    assert_eq!(executor.next(), Ok(Some(Row::new(vec![Value::Integer(1)]))));
    assert_eq!(executor.next(), Ok(None));
    drop(executor);
    assert_eq!(database.select_all("t").unwrap(), vec![Row::new(vec![Value::Integer(2)])]);
}

#[test]
fn a_failed_update_runs_again_and_a_failed_insert_is_done() {
    let mut database = Database::new();
    database.execute_batch("CREATE TABLE t (x INTEGER); INSERT INTO t VALUES (0);").unwrap();
    let statement = bound(&database, "UPDATE t SET x = 1 / x;");
    let mut update = build_executor(&mut database, statement).unwrap();
    assert_eq!(update.next(), Err(DatabaseError::DivisionByZero));
    assert_eq!(update.next(), Err(DatabaseError::DivisionByZero));
    drop(update);

    let statement = bound(&database, "INSERT INTO t VALUES (1 / 0);");
    let mut insert = build_executor(&mut database, statement).unwrap();
    assert_eq!(insert.next(), Err(DatabaseError::DivisionByZero));
    assert_eq!(insert.next(), Ok(None));
    drop(insert);
    assert_eq!(database.select_all("t").unwrap(), vec![Row::new(vec![Value::Integer(0)])]);
}
