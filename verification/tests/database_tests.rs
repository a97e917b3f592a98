use bson::{Bson, Document};
use r2d2p2::database::{Database, InsertError};
use r2d2p2::query::{aggregate_page, Outcome};

fn create_test_db() -> Database {
    Database::new(
        vec![
            String::from("store"),
            String::from("product"),
            String::from("number_sold"),
        ],
        vec![
            String::from("number"),
            String::from("number"),
            String::from("number"),
        ],
    )
}

fn row(store: i32, product: i32, number_sold: i32) -> Document {
    let mut d = Document::new();
    d.insert("store", store);
    d.insert("product", product);
    d.insert("number_sold", number_sold);
    d
}

fn as_number(b: &Bson) -> f64 {
    if let Some(parsed) = b.as_str().and_then(|s| s.parse::<f64>().ok()) {
        return parsed;
    }
    match b {
        Bson::Double(v) => *v,
        Bson::Int32(v) => *v as f64,
        Bson::Int64(v) => *v as f64,
        _ => 0.0,
    }
}

fn aggregate(db: &Database, operation: &str, field_name: &str) -> f64 {
    let mut result: f64 = if operation == "MIN" { f64::INFINITY } else { 0.0 };
    for value in db.field_values(field_name) {
        let converted = as_number(&value);
        match operation {
            "MIN" => {
                if converted < result {
                    result = converted;
                }
            }
            "MAX" => {
                if converted > result {
                    result = converted;
                }
            }
            _ => result += converted,
        }
    }
    if operation == "AVG" {
        result /= db.len() as f64;
    }
    result
}

fn reply(outcome: Outcome) -> Document {
    match outcome {
        Outcome::Reply(d) => d,
        _ => panic!("the query was expected to be answered at once"),
    }
}

#[test]
fn test_database_creation() {
    let db = create_test_db();
    assert_eq!(db.len(), 0);
    assert_eq!(db.min_timestamp(), u128::MAX);
    assert_eq!(db.max_timestamp(), 0);
    assert_eq!(
        db.column_names(),
        vec!["store".to_string(), "product".to_string(), "number_sold".to_string()]
    );
}

#[test]
fn test_insert_and_get_one() {
    let mut db = create_test_db();
    let timestamp: u128 = 1733697225084;
    let test_doc = row(1, 101, 5);
    assert!(matches!(db.insert_to_database(timestamp, test_doc.clone()), Ok(1733697225084)));
    let retrieved = db.get_one(timestamp);
    assert!(retrieved.is_some());
    let retrieved_doc = retrieved.unwrap();
    assert_eq!(retrieved_doc.get_i32("store").unwrap(), 1);
    assert_eq!(retrieved_doc.get_i32("product").unwrap(), 101);
    assert_eq!(retrieved_doc.get_i32("number_sold").unwrap(), 5);
}

#[test]
fn test_get_range() {
    let mut db = create_test_db();
    let base_time: u128 = 1733697225000;
    for i in 0..10 {
        let timestamp = base_time + i as u128;
        let _ = db.insert_to_database(timestamp, row(i, 100 + i, 5 * i));
    }
    let result = db.get_range(base_time + 2, base_time + 5);
    assert_eq!(result.iter().count(), 4);
    let keys: Vec<String> = result.keys().cloned().collect();
    assert_eq!(
        keys,
        vec!["1733697225002", "1733697225003", "1733697225004", "1733697225005"]
    );
}

#[test]
fn test_aggregate_operations() {
    let mut db = create_test_db();
    let base_time: u128 = 1733697225000;
    for i in 1..6 {
        let timestamp = base_time + i as u128;
        let _ = db.insert_to_database(timestamp, row(1, 100, i));
    }
    assert_eq!(aggregate(&db, "SUM", "number_sold"), 15.0);
    assert_eq!(aggregate(&db, "AVG", "number_sold"), 3.0);
    assert_eq!(aggregate(&db, "MIN", "number_sold"), 1.0);
    assert_eq!(aggregate(&db, "MAX", "number_sold"), 5.0);
}

#[test]
fn test_query_parsing() {
    let mut db = create_test_db();
    let timestamp: u128 = 1733697225084;
    let _ = db.insert_to_database(timestamp, row(1, 101, 5));

    let result = reply(db.query("LIST::ALL", 0));
    assert!(result.contains_key("rows"));

    let result = reply(db.query(&format!("LIST::ONE::{}", timestamp), 0));
    assert!(result.contains_key("rows"));

    let result = match db.query("AGGREGATE::number_sold::AVG", 0) {
        Outcome::Aggregate(field, operation) => {
            let value = aggregate(&db, &operation, &field);
            aggregate_page(&operation, Bson::Double(value))
        }
        _ => panic!("an aggregate was expected"),
    };
    assert!(result.contains_key("rows"));
    assert_eq!(result.get_document("rows").unwrap().get_f64("AVG").unwrap(), 5.0);
}

#[test]
fn insert_rejects_unknown_field() {
    let mut db = create_test_db();
    let mut d = Document::new();
    d.insert("store", 1);
    d.insert("colour", "red");
    d.insert("shape", "round");
    match db.insert_to_database(7, d) {
        Err(InsertError::SchemaViolation(name)) => assert_eq!(name, "colour"),
        _ => panic!("the row was expected to be rejected"),
    }
    assert_eq!(db.len(), 0);
    assert_eq!(db.min_timestamp(), u128::MAX);
    assert_eq!(db.max_timestamp(), 0);
}

#[test]
fn insert_moves_past_occupied_timestamps() {
    let mut db = create_test_db();
    assert!(matches!(db.insert_to_database(10, row(1, 1, 1)), Ok(10)));
    assert!(matches!(db.insert_to_database(11, row(2, 2, 2)), Ok(11)));
    assert!(matches!(db.insert_to_database(10, row(3, 3, 3)), Ok(12)));
    assert_eq!(db.get_one(12).unwrap().get_i32("store").unwrap(), 3);
    assert_eq!(db.len(), 3);
    assert_eq!(db.min_timestamp(), 10);
    assert_eq!(db.max_timestamp(), 12);
}

#[test]
fn insert_at_greatest_timestamp() {
    let mut db = create_test_db();
    assert!(matches!(db.insert_to_database(u128::MAX, row(1, 1, 1)), Ok(u128::MAX)));
    assert_eq!(db.max_timestamp(), u128::MAX);
    assert!(matches!(
        db.insert_to_database(u128::MAX, row(1, 1, 1)),
        Err(InsertError::KeysExhausted)
    ));
    assert_eq!(db.len(), 1);
}

#[test]
fn remove_is_idempotent_and_keeps_bounds() {
    let mut db = create_test_db();
    let _ = db.insert_to_database(5, row(1, 1, 1));
    let _ = db.insert_to_database(9, row(2, 2, 2));
    assert!(db.remove(9));
    assert!(db.get_one(9).is_none());
    assert!(!db.remove(9));
    assert_eq!(db.len(), 1);
    assert_eq!(db.max_timestamp(), 9);
    db.clear_all();
    assert_eq!(db.len(), 0);
    assert_eq!(db.min_timestamp(), u128::MAX);
    assert_eq!(db.max_timestamp(), 0);
}

#[test]
fn aggregates_of_an_empty_database() {
    let db = create_test_db();
    assert_eq!(aggregate(&db, "MIN", "number_sold"), f64::INFINITY);
    assert_eq!(aggregate(&db, "MAX", "number_sold"), 0.0);
    assert_eq!(aggregate(&db, "SUM", "number_sold"), 0.0);
    assert!(aggregate(&db, "AVG", "number_sold").is_nan());
}

#[test]
fn field_values_skip_rows_without_the_field() {
    let mut db = create_test_db();
    let mut a = Document::new();
    a.insert("store", 4);
    let mut b = Document::new();
    b.insert("product", 9);
    let mut c = Document::new();
    c.insert("store", "7.5");
    let _ = db.insert_to_database(30, c);
    let _ = db.insert_to_database(10, a);
    let _ = db.insert_to_database(20, b);
    assert_eq!(
        db.field_values("store"),
        vec![Bson::Int32(4), Bson::String("7.5".to_string())]
    );
    assert_eq!(aggregate(&db, "SUM", "store"), 11.5);
    assert_eq!(aggregate(&db, "AVG", "store"), 11.5 / 3.0);
    assert_eq!(aggregate(&db, "OTHER", "store"), 11.5);
    let records = db.records_in(10, 20);
    assert_eq!(records.len(), 2);
    assert_eq!(records[0].0, 10);
    assert_eq!(records[1].1.get_i32("product").unwrap(), 9);
}
