use lib::{DataType, Row, Value};

#[test]
fn create_new_row() {
    let values = vec![Value::Integer(1), Value::text("Hello"), Value::Boolean(true), Value::Null];

    let row = Row::new(values);

    assert_eq!(row.values()[0], Value::Integer(1));
    assert_eq!(row.len(), 4);
    assert_eq!(row.is_empty(), false);
    assert_eq!(row.get(0), Some(&Value::Integer(1)));
}

#[test]
fn value_report_its_data_type() {
    assert_eq!(Value::Integer(10).data_type(), Some(DataType::Integer));
    assert_eq!(Value::Boolean(true).data_type(), Some(DataType::Boolean));
    assert_eq!(Value::text("Hello World").data_type(), Some(DataType::Text));
    assert_eq!(Value::Null.data_type(), None);
}

#[test]
fn text_helper_construct_a_text_value() {
    assert_eq!(Value::text("Hello"), Value::Text("Hello".to_string()));
}

#[test]
fn row_accessors_report_missing_columns() {
    let mut row = Row::new(vec![Value::Integer(3)]);
    assert_eq!(row.get(1), None);
    assert!(row.get_mut(1).is_none());
    assert!(row.set(0, Value::Null));
    assert!(!row.set(4, Value::Null));
    assert_eq!(row.values(), &[Value::Null][..]);
    assert!(Row::new(Vec::new()).is_empty());
}

#[test]
fn data_type_names_are_sql_keywords() {
    assert_eq!(DataType::Integer.name(), "INTEGER");
    assert_eq!(DataType::Text.name(), "TEXT");
    assert_eq!(DataType::Boolean.name(), "BOOLEAN");
}
