use lib::{Column, DataType, Database, DbError, Row, Schema, Value, PAGE_SIZE};

fn user_schema() -> Schema {
    Schema::new(vec![Column::required("id", DataType::Integer), Column::required("name", DataType::Text)]).unwrap()
}

#[test]
fn durable_database_reopens_rows_and_catalog() {
    let image = {
        let mut db = Database::new();
        db.create_table("users", user_schema()).unwrap();
        db.insert("users", vec![Value::Integer(1), Value::text("Liam")]).unwrap();
        db.image()
    };
    let db = Database::open_image(&image).unwrap();
    assert_eq!(db.select_all("users").unwrap(), vec![Row::new(vec![Value::Integer(1), Value::text("Liam")])]);
}

#[test]
fn create_close_reopen_preserves_catalog_and_rows_across_pages() {
    let image = {
        let mut database = Database::new();
        database.execute("CREATE TABLE notes (id INTEGER, body TEXT);").unwrap();
        // These payloads cannot all share one 4 KiB page.
        for id in 0..12 {
            database.insert("notes", vec![Value::Integer(id), Value::text(&"x".repeat(700))]).unwrap();
        }
        database.image()
    };

    assert!(image.len() > 3 * PAGE_SIZE);
    let image = {
        let mut reopened = Database::open_image(&image).unwrap();
        assert_eq!(reopened.table("notes").unwrap().row_count(), 12);
        assert_eq!(reopened.select_all("notes").unwrap()[11].values()[0], Value::Integer(11));

        reopened.execute("UPDATE notes SET body = 'persisted' WHERE id = 5;").unwrap();
        reopened.execute("DELETE FROM notes WHERE id < 2;").unwrap();
        reopened.image()
    };

    let reopened = Database::open_image(&image).unwrap();
    let rows = reopened.select_all("notes").unwrap();
    assert_eq!(rows.len(), 10);
    assert_eq!(rows[3], Row::new(vec![Value::Integer(5), Value::text("persisted")]));
}

#[test]
fn one_row_must_fit_on_one_page() {
    let mut database = Database::new();
    database.execute("CREATE TABLE texts (body TEXT);").unwrap();
    let result = database.insert("texts", vec![Value::text(&"x".repeat(PAGE_SIZE))]);
    assert!(matches!(result, Err(DbError::RecordTooLarge { .. })));
}

#[test]
fn opening_rejects_a_damaged_image() {
    let db = Database::new();
    let image = db.image();
    assert_eq!(image.len(), 2 * PAGE_SIZE);
    assert!(matches!(Database::open_image(&image[..PAGE_SIZE + 1]), Err(DbError::Corrupt(_))));
    let mut bad = image.clone();
    bad[0] ^= 0xff;
    assert!(matches!(Database::open_image(&bad), Err(DbError::Corrupt(_))));
    let reopened = Database::open_image(&image).unwrap();
    assert_eq!(reopened.table_count(), 0);
}

#[test]
fn a_damaged_image_is_refused_with_a_message_that_says_why() {
    let image = Database::new().image();
    let refusal = |bytes: &[u8]| match Database::open_image(bytes) {
        Err(error) => error.message(),
        Ok(_) => panic!("a damaged image was accepted"),
    };
    assert_eq!(refusal(&image[..PAGE_SIZE]), "corrupt database: file len is not a whole number of pages");
    let mut bad_magic = image.clone();
    bad_magic[1] = 0;
    assert_eq!(refusal(&bad_magic), "corrupt database: databse magic number does not match");
    let mut bad_catalog = image.clone();
    bad_catalog[PAGE_SIZE + 4] = 2;
    assert_eq!(refusal(&bad_catalog), "corrupt database: expected a Catalog slotted page");
}

#[test]
fn a_catalog_that_miscounts_the_rows_is_reported_with_both_counts() {
    let mut one = Database::new();
    one.execute_batch("CREATE TABLE t (x INTEGER); INSERT INTO t VALUES (1);").unwrap();
    let mut two = Database::new();
    two.execute_batch("CREATE TABLE t (x INTEGER); INSERT INTO t VALUES (1); INSERT INTO t VALUES (2);").unwrap();
    let mut image = two.image();
    let catalog = one.image()[PAGE_SIZE..2 * PAGE_SIZE].to_vec();
    assert_eq!(image.len(), 3 * PAGE_SIZE);
    image[PAGE_SIZE..2 * PAGE_SIZE].copy_from_slice(&catalog);
    let reopened = Database::open_image(&image).unwrap();
    assert_eq!(
        reopened.select_all("t").unwrap_err().message(),
        "corrupt database: table 't' catalog says 1 rows, found 2"
    );
}
