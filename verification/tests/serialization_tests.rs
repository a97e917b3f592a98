use bson::{Bson, Document};
use r2d2p2::database::{Database, LoadError};
use r2d2p2::files::unique_filename;
use r2d2p2::query::Outcome;

fn create_test_db() -> Database {
    Database::new(
        vec![
            String::from("store"),
            String::from("product"),
            String::from("number_sold"),
        ],
        vec![
            String::from("number"),
            String::from("number"),
            String::from("number"),
        ],
    )
}

fn populate_test_db(db: &mut Database) {
    let base_time: u128 = 1733697225000;
    for i in 0..5 {
        let timestamp = base_time + i as u128;
        let mut doc = Document::new();
        doc.insert("store", i);
        doc.insert("product", 100 + i);
        doc.insert("number_sold", 5 * i);
        let _ = db.insert_to_database(timestamp, doc);
    }
}

fn reply(outcome: Outcome) -> Document {
    match outcome {
        Outcome::Reply(d) => d,
        _ => panic!("the query was expected to be answered at once"),
    }
}

#[test]
fn test_save_and_load_json() {
    let mut first_db = create_test_db();
    populate_test_db(&mut first_db);

    let bytes = first_db.save_bytes().unwrap();
    assert!(!bytes.is_empty());

    let mut loaded_db = create_test_db();
    let load_result = loaded_db.load_bytes(&bytes);
    assert!(load_result.is_ok());

    let result = reply(loaded_db.query("LIST::ALL", 0));
    let rows = result.get_document("rows").unwrap();
    assert_eq!(rows.len(), 5);
    assert_eq!(loaded_db.min_timestamp(), 1733697225000);
    assert_eq!(loaded_db.max_timestamp(), 1733697225004);
    assert_eq!(loaded_db.snapshot(), first_db.snapshot());
}

#[test]
fn test_csv_export() {
    let mut db = create_test_db();
    populate_test_db(&mut db);
    let csv_content = db.data_to_csv();
    assert!(!csv_content.is_empty());
    assert_eq!(csv_content.lines().count(), 6);
    let lines: Vec<&str> = csv_content.lines().collect();
    assert_eq!(lines[0], "timestamp,store,product,number_sold");
    assert_eq!(lines[1], "1733697225000,0,100,0");
    assert_eq!(lines[5], "1733697225004,4,104,20");
    assert!(csv_content.ends_with('\n'));
}

#[test]
fn csv_cells_follow_the_kind_of_each_value() {
    let mut db = Database::new(
        vec!["a".into(), "b".into(), "c".into(), "d".into(), "e".into(), "f".into()],
        vec!["number".into(), "number".into(), "string".into(), "boolean".into(), "string".into(), "string".into()],
    );
    let mut doc = Document::new();
    doc.insert("b", Bson::Int64(-7));
    doc.insert("a", Bson::Double(2.5));
    doc.insert("c", "red");
    doc.insert("d", true);
    doc.insert("e", Bson::Null);
    let _ = db.insert_to_database(3, doc);
    assert_eq!(db.data_to_csv(), "timestamp,a,b,c,d,e,f\n3,2.5,-7,red,true,None,None\n");
}

#[test]
fn snapshot_has_the_four_entries() {
    let mut db = create_test_db();
    populate_test_db(&mut db);
    let _ = db.remove(1733697225004);
    let snap = db.snapshot();
    let keys: Vec<&String> = snap.keys().collect();
    assert_eq!(keys, vec!["schema", "min_timestamp", "max_timestamp", "rows"]);
    assert_eq!(snap.get_str("min_timestamp").unwrap(), "1733697225000");
    assert_eq!(snap.get_str("max_timestamp").unwrap(), "1733697225004");
    assert_eq!(snap.get_document("schema").unwrap().get_str("store").unwrap(), "number");
    let rows = snap.get_document("rows").unwrap();
    let names: Vec<&String> = rows.keys().collect();
    assert_eq!(
        names,
        vec!["1733697225000", "1733697225001", "1733697225002", "1733697225003"]
    );
}

#[test]
fn restore_refuses_malformed_documents() {
    let mut db = create_test_db();
    populate_test_db(&mut db);
    let good = db.snapshot();

    let mut missing = good.clone();
    missing.remove("rows");
    assert!(matches!(db.restore(&missing), Err(LoadError::Malformed)));

    let mut bad_bound = good.clone();
    bad_bound.insert("min_timestamp", "soon");
    assert!(matches!(db.restore(&bad_bound), Err(LoadError::Malformed)));

    let mut bad_schema = good.clone();
    let mut schema = Document::new();
    schema.insert("store", 5);
    bad_schema.insert("schema", schema);
    assert!(matches!(db.restore(&bad_schema), Err(LoadError::Malformed)));

    let mut bad_row = good.clone();
    let mut rows = Document::new();
    rows.insert("12", "not a row");
    bad_row.insert("rows", rows);
    assert!(matches!(db.restore(&bad_row), Err(LoadError::Malformed)));

    assert!(matches!(db.load_bytes(&[1, 2, 3]), Err(LoadError::Malformed)));
    assert_eq!(db.len(), 5);
    assert_eq!(db.snapshot(), good);
}

#[test]
fn restore_offers_each_stored_row() {
    let mut schema = Document::new();
    schema.insert("store", "number");
    let mut row_a = Document::new();
    row_a.insert("store", 1);
    let mut row_b = Document::new();
    row_b.insert("store", 2);
    let mut row_c = Document::new();
    row_c.insert("other", 3);
    let mut rows = Document::new();
    rows.insert("7", row_a);
    rows.insert("007", row_b);
    rows.insert("9", row_c);
    let mut snap = Document::new();
    snap.insert("schema", schema);
    snap.insert("min_timestamp", "50");
    snap.insert("max_timestamp", "3");
    snap.insert("rows", rows);

    let mut db = create_test_db();
    assert!(db.restore(&snap).is_ok());
    assert_eq!(db.column_names(), vec!["store".to_string()]);
    assert_eq!(db.len(), 2);
    assert_eq!(db.get_one(7).unwrap().get_i32("store").unwrap(), 1);
    assert_eq!(db.get_one(8).unwrap().get_i32("store").unwrap(), 2);
    assert!(db.get_one(9).is_none());
    assert_eq!(db.min_timestamp(), 7);
    assert_eq!(db.max_timestamp(), 8);
}

#[test]
fn snapshot_bytes_are_a_framed_document() {
    let mut db = create_test_db();
    populate_test_db(&mut db);
    let bytes = db.save_bytes().unwrap();
    let framed = u32::from_le_bytes([bytes[0], bytes[1], bytes[2], bytes[3]]) as usize;
    assert_eq!(framed, bytes.len());
    assert_eq!(*bytes.last().unwrap(), 0);
    let mut other = create_test_db();
    assert!(matches!(
        other.load_bytes(&bytes[..bytes.len() - 1]),
        Err(LoadError::Malformed)
    ));
    assert_eq!(other.len(), 0);
    assert!(other.load_bytes(&bytes).is_ok());
    assert_eq!(other.len(), 5);
}

#[test]
fn unique_filename_skips_taken_names() {
    let none: Vec<String> = vec![];
    assert_eq!(unique_filename("snap", &none), "snap.r2d2");
    assert_eq!(unique_filename("snap.old.r2d2", &none), "snap.r2d2");
    let some = vec!["snap.r2d2".to_string(), "other.r2d2".to_string()];
    assert_eq!(unique_filename("snap", &some), "snap_1.r2d2");
    let more = vec![
        "snap_2.r2d2".to_string(),
        "snap.r2d2".to_string(),
        "snap_1.r2d2".to_string(),
        "snap_4.r2d2".to_string(),
    ];
    assert_eq!(unique_filename("snap.r2d2", &more), "snap_3.r2d2");
    assert_eq!(unique_filename("", &none), ".r2d2");
}
