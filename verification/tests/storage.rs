use lib::storage::codec::{decode_row, encode_row};
use lib::storage::page::{PageKind, SlottedPage};
use lib::{Column, DataType, DbError, Row, Schema, Value};

#[test]
fn row_round_trip_handles_every_value_kind() {
    let row = Row::new(vec![Value::Null, Value::Integer(-7), Value::Boolean(true), Value::text("héllo")]);
    assert_eq!(decode_row(&encode_row(&row).unwrap()).unwrap(), row);
}

#[test]
fn decoding_rejects_trailing_and_truncated_bytes() {
    let row = Row::new(vec![Value::Integer(5), Value::text("abc")]);
    let mut bytes = encode_row(&row).unwrap();
    bytes.push(0);
    assert!(matches!(decode_row(&bytes), Err(DbError::Corrupt(_))));
    bytes.truncate(bytes.len() - 3);
    assert!(matches!(decode_row(&bytes), Err(DbError::Corrupt(_))));
}

#[test]
fn variable_records_are_addressed_by_slots() {
    let mut page = SlottedPage::new(PageKind::Data);
    let first = page.insert(b"short").unwrap();
    let second = page.insert(b"a longer record").unwrap();
    assert_eq!(page.get(first).unwrap(), Some(&b"short"[..]));
    assert_eq!(page.get(second).unwrap(), Some(&b"a longer record"[..]));
    assert!(page.free_start() < page.free_end());
}

#[test]
fn a_page_refuses_a_record_that_cannot_fit() {
    let mut page = SlottedPage::new(PageKind::Data);
    let big = vec![7u8; lib::PAGE_SIZE];
    assert!(matches!(page.insert(&big), Err(DbError::RecordTooLarge { .. })));
    assert_eq!(page.get(0).unwrap(), None);
}

#[test]
fn a_page_takes_the_largest_record_after_refusing_a_larger_one() {
    let mut page = SlottedPage::new(PageKind::Data);
    let (start, end) = (page.free_start(), page.free_end());
    let too_big = vec![0u8; 4069];
    assert!(matches!(
        page.insert(&too_big),
        Err(DbError::RecordTooLarge { size: 4069, maximum: 4068 })
    ));
    assert_eq!((page.free_start(), page.free_end()), (start, end));
    let largest = vec![7u8; 4068];
    assert_eq!(page.insert(&largest).unwrap(), 0);
    assert_eq!(page.get(0).unwrap(), Some(&largest[..]));
    assert_eq!((page.free_start(), page.free_end()), (28, 28));
}

#[test]
fn create_column() {
    let col = Column::new("test", DataType::Integer, false);
    assert_eq!(col.name().to_string(), "test".to_string());
    assert_eq!(col.data_type(), DataType::Integer);
    assert_eq!(col.is_nullable(), false);
}

#[test]
fn create_required_column() {
    let col = Column::required("test", DataType::Boolean);

    assert_eq!(col.name().to_string(), "test".to_string());
    assert_eq!(col.data_type(), DataType::Boolean);
    assert_eq!(col.is_nullable(), false);
}

#[test]
fn create_nullable_column() {
    let col = Column::nullable("test", DataType::Text);

    assert_eq!(col.data_type(), DataType::Text);
    assert_eq!(col.is_nullable(), true);
}

fn user_schema() -> Schema {
    Schema::new(vec![
        Column::required("id", DataType::Integer),
        Column::required("name", DataType::Text),
        Column::nullable("active", DataType::Boolean),
    ])
    .unwrap()
}

#[test]
fn schema_rejects_duplicate_column_names() {
    let result = Schema::new(vec![Column::required("id", DataType::Integer), Column::required("id", DataType::Integer)]);

    assert_eq!(result, Err(DbError::DuplicateColumn { column: "id".to_string() }));
}

#[test]
fn schema_accepts_a_valid_row() {
    let row = Row::new(vec![Value::Integer(1), Value::text("Liam"), Value::Boolean(true)]);

    assert_eq!(user_schema().validate_row("users", &row), Ok(()));
}

#[test]
fn schema_rejects_wrong_column_count() {
    let row = Row::new(vec![Value::Integer(1)]);

    assert_eq!(
        user_schema().validate_row("users", &row),
        Err(DbError::WrongColumnCount { table: "users".to_string(), expected: 3, actual: 1 })
    );
}

#[test]
fn schema_rejects_wrong_value_type() {
    let row = Row::new(vec![Value::text("not-an-integer"), Value::text("Liam"), Value::Boolean(true)]);

    assert_eq!(
        user_schema().validate_row("users", &row),
        Err(DbError::TypeMismatch {
            table: "users".to_string(),
            column: "id".to_string(),
            expected: DataType::Integer,
            actual: DataType::Text,
        })
    );
}

#[test]
fn schema_rejects_null_for_required_column() {
    let row = Row::new(vec![Value::Integer(1), Value::Null, Value::Boolean(true)]);

    assert_eq!(
        user_schema().validate_row("users", &row),
        Err(DbError::NullNotAllowed { table: "users".to_string(), column: "name".to_string() })
    );
}

#[test]
fn schema_accepts_null_for_nullable_column() {
    let row = Row::new(vec![Value::Integer(1), Value::text("Liam"), Value::Null]);

    assert_eq!(user_schema().validate_row("users", &row), Ok(()));
}

#[test]
fn schema_looks_columns_up_by_name() {
    let schema = user_schema();
    assert_eq!(schema.len(), 3);
    assert!(!schema.is_empty());
    assert_eq!(schema.column_index("name"), Some(1));
    assert_eq!(schema.column_index("missing"), None);
    assert_eq!(schema.columns()[2].name(), "active");
}
