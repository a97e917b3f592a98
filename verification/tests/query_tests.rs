use bson::{Bson, Document};
use r2d2p2::database::Database;
use r2d2p2::html::{document_to_html_row, handle_request, requested_resource, vec_string_to_html_row};
use r2d2p2::query::{aggregate_page, notice_page, saved_page, schema_error_page, time_page, Outcome};
use r2d2p2::schema::{kind_for_type, parse_schema, SchemaError};
use r2d2p2::document::ElementKind;

fn create_test_db() -> Database {
    Database::new(
        vec![
            String::from("store"),
            String::from("product"),
            String::from("number_sold"),
        ],
        vec![
            String::from("number"),
            String::from("number"),
            String::from("number"),
        ],
    )
}

fn reply(outcome: Outcome) -> Document {
    match outcome {
        Outcome::Reply(d) => d,
        _ => panic!("the query was expected to be answered at once"),
    }
}

fn notice_of(d: &Document) -> String {
    assert_eq!(d.get_array("labels").unwrap(), &vec![Bson::String("Notice".into())]);
    d.get_document("rows").unwrap().get_str("Notice").unwrap().to_string()
}

fn ask(db: &mut Database, q: &str) -> Document {
    reply(db.query(q, 1000))
}

#[test]
fn list_one_shows_the_inserted_values() {
    let mut db = create_test_db();
    let said = ask(&mut db, "INSERT::store=1,product=101,number_sold=5::TIMESTAMP=1733697225084");
    assert_eq!(notice_of(&said), "Success!");
    let result = ask(&mut db, "LIST::ONE::1733697225084");
    assert_eq!(
        result.get_array("labels").unwrap(),
        &vec![
            Bson::String("store".into()),
            Bson::String("product".into()),
            Bson::String("number_sold".into())
        ]
    );
    let row = result.get_document("rows").unwrap().get_document("1733697225084").unwrap();
    assert_eq!(row.get_f64("store").unwrap(), 1.0);
    assert_eq!(row.get_f64("product").unwrap(), 101.0);
    assert_eq!(row.get_f64("number_sold").unwrap(), 5.0);
    let page = handle_request("LIST::ONE::1733697225084", &result);
    assert!(page.contains("<td>1</td><td>101</td><td>5</td>"));
    assert_eq!(notice_of(&ask(&mut db, "LIST::ONE::5")), "Requested value could not be found.");
    assert_eq!(notice_of(&ask(&mut db, "LIST::ONE::x")), "Invalid timestamp format");
    assert_eq!(notice_of(&ask(&mut db, "LIST::ONE")), "LIST::ONE requires a timestamp");
    assert_eq!(notice_of(&ask(&mut db, "LIST::ONE::1733697225084::HIDE")), "Requested value found.");
    assert_eq!(notice_of(&ask(&mut db, "LIST")), "LIST command requires a category");
}

#[test]
fn list_range_takes_bounds_in_either_order() {
    let mut db = create_test_db();
    for i in 0..10 {
        let q = format!("INSERT::number_sold={}::TIMESTAMP={}", 5 * i, 1733697226000u128 + i);
        ask(&mut db, &q);
    }
    let result = ask(&mut db, "LIST::RANGE::1733697226002,1733697226005");
    let rows = result.get_document("rows").unwrap();
    assert_eq!(rows.len(), 4);
    let swapped = ask(&mut db, "LIST::RANGE::1733697226005,1733697226002");
    assert_eq!(swapped, result);
    let names: Vec<&String> = rows.keys().collect();
    assert_eq!(
        names,
        vec!["1733697226002", "1733697226003", "1733697226004", "1733697226005"]
    );
    assert_eq!(notice_of(&ask(&mut db, "LIST::RANGE::1,2::HIDE")), "Success!");
    assert_eq!(notice_of(&ask(&mut db, "LIST::RANGE::1")), "Invalid range format. Use 'lower,upper'");
    assert_eq!(notice_of(&ask(&mut db, "LIST::RANGE::a,2")), "Invalid lower bound");
    assert_eq!(notice_of(&ask(&mut db, "LIST::RANGE::1,b")), "Invalid upper bound");
    assert_eq!(
        notice_of(&ask(&mut db, "LIST::RANGE")),
        "LIST::RANGE requires bounds in format 'lower,upper'"
    );
}

#[test]
fn empty_database_lists_no_rows() {
    let mut db = create_test_db();
    let result = ask(&mut db, "LIST::ALL");
    assert!(result.get_document("rows").unwrap().is_empty());
    assert_eq!(result.get_array("labels").unwrap().len(), 3);
    assert!(db.field_values("number_sold").is_empty());
    let meta = ask(&mut db, "LIST::METADATA");
    assert_eq!(meta.get_document("rows").unwrap().get_i64("size").unwrap(), 0);
    assert_eq!(
        meta.get_document("rows").unwrap().get_document("schema").unwrap().get_str("product").unwrap(),
        "number"
    );
    assert!(matches!(db.query("LIST::SAVED", 0), Outcome::ListSaved));
}

#[test]
fn insert_types_values_by_column() {
    let mut db = Database::new(
        vec!["name".into(), "count".into(), "open".into(), "shut".into()],
        vec!["string".into(), "number".into(), "boolean".into(), "bool".into()],
    );
    ask(&mut db, "  INSERT::name=r2,count=2.5,open=true,shut=yes,colour=red,plain::TIMESTAMP=40  ");
    let row = db.get_one(40).unwrap();
    assert_eq!(row.get_str("name").unwrap(), "r2");
    assert_eq!(row.get_f64("count").unwrap(), 2.5);
    assert!(row.get_bool("open").unwrap());
    assert!(!row.get_bool("shut").unwrap());
    assert_eq!(row.len(), 4);
    ask(&mut db, "INSERT::count=many");
    let row = db.get_one(1000).unwrap();
    assert_eq!(row.get_f64("count").unwrap(), 0.0);
    ask(&mut db, "INSERT::colour=red::TIMESTAMP=77");
    assert!(db.get_one(77).is_none());
    ask(&mut db, "INSERT::name=a=b::TIMESTAMP=soon");
    assert_eq!(db.get_one(1001).unwrap().get_str("name").unwrap(), "a=b");
    assert_eq!(notice_of(&ask(&mut db, "INSERT")), "INSERT command requires key-value pairs");
    assert_eq!(db.len(), 3);
}

#[test]
fn remove_queries() {
    let mut db = create_test_db();
    ask(&mut db, "INSERT::store=1::TIMESTAMP=5");
    ask(&mut db, "INSERT::store=2::TIMESTAMP=6");
    assert_eq!(notice_of(&ask(&mut db, "REMOVE::ONE::TIMESTAMP=5")), "Success!");
    assert!(db.get_one(5).is_none());
    assert_eq!(notice_of(&ask(&mut db, "REMOVE::ONE::TIMESTAMP=5")), "Entry not found.");
    assert_eq!(notice_of(&ask(&mut db, "REMOVE::ONE::KEY=6")), "Entry not found.");
    assert_eq!(notice_of(&ask(&mut db, "REMOVE::ONE::TIMESTAMP")), "Entry not found.");
    assert_eq!(notice_of(&ask(&mut db, "REMOVE::ONE")), "REMOVE::ONE requires timestamp parameter");
    assert_eq!(notice_of(&ask(&mut db, "REMOVE")), "REMOVE command requires a category");
    assert_eq!(
        notice_of(&ask(&mut db, "REMOVE::SOME")),
        "Invalid query. Currently, only one entry can be removed at a time, by timestamp."
    );
    assert_eq!(db.len(), 1);
    assert_eq!(notice_of(&ask(&mut db, "REMOVE::ALL")), "Success!");
    assert_eq!(db.len(), 0);
    assert_eq!(db.max_timestamp(), 0);
}

#[test]
fn time_query_gives_milliseconds() {
    let mut db = create_test_db();
    let result = ask(&mut db, "TIME::2024-12-07%2011:15:10");
    assert_eq!(result.get_array("labels").unwrap(), &vec![Bson::String("time".into())]);
    assert_eq!(result.get_document("rows").unwrap().get_str("time").unwrap(), "1733570110000");
    assert_eq!(
        notice_of(&ask(&mut db, "TIME::yesterday")),
        "Invalid timestamp format. Use YYYY-MM-DD HH:MM:SS"
    );
    assert_eq!(notice_of(&ask(&mut db, "TIME")), "TIME command requires a timestamp string");
    assert_eq!(
        time_page(Some(-2)).get_document("rows").unwrap().get_str("time").unwrap(),
        "-2000"
    );
    assert_eq!(
        notice_of(&time_page(Some(i64::MAX))),
        "Invalid timestamp format. Use YYYY-MM-DD HH:MM:SS"
    );
    assert_eq!(notice_of(&time_page(None)), "Invalid timestamp format. Use YYYY-MM-DD HH:MM:SS");
}

#[test]
fn requests_for_the_host() {
    let mut db = create_test_db();
    match db.query("AGGREGATE::number_sold::SUM", 0) {
        Outcome::Aggregate(field, operation) => {
            assert_eq!(field, "number_sold");
            assert_eq!(operation, "SUM");
        }
        _ => panic!("an aggregate was expected"),
    }
    assert_eq!(
        notice_of(&ask(&mut db, "AGGREGATE::number_sold")),
        "AGGREGATE command requires field name and operation"
    );
    assert!(matches!(db.query("SAVE::CSV", 0), Outcome::SaveCsv));
    match db.query("SAVE::snap", 0) {
        Outcome::Save(name) => assert_eq!(name, "snap"),
        _ => panic!("a save was expected"),
    }
    match db.query("LOAD::snap.r2d2", 0) {
        Outcome::Load(name) => assert_eq!(name, "snap.r2d2"),
        _ => panic!("a load was expected"),
    }
    match db.query("SAVE::../snap/shot", 0) {
        Outcome::Save(name) => {
            assert!(!name.contains('/'));
            assert_eq!(name, "..snapshot");
        }
        _ => panic!("a save was expected"),
    }
    match db.query("LOAD::a:b.r2d2", 0) {
        Outcome::Load(name) => assert_eq!(name, "ab.r2d2"),
        _ => panic!("a load was expected"),
    }
    match db.query("LOAD::SCHEMA::test.schema.r2d2", 0) {
        Outcome::LoadSchema(name) => assert_eq!(name, "test.schema.r2d2"),
        _ => panic!("a schema load was expected"),
    }
    match db.query("LOAD::SCHEMA::..\\up?.txt", 0) {
        Outcome::LoadSchema(name) => assert_eq!(name, "..up.txt"),
        _ => panic!("a schema load was expected"),
    }
    assert!(notice_of(&ask(&mut db, "SAVE")).starts_with("Provide a filename to save"));
    assert!(notice_of(&ask(&mut db, "LOAD")).starts_with("Provide a filename to load"));
    assert!(notice_of(&ask(&mut db, "LOAD::SCHEMA")).starts_with("Provide a schema filename"));
    assert_eq!(notice_of(&ask(&mut db, "DROP::ALL")), "Invalid query: DROP::ALL");
}

#[test]
fn pages_of_the_host() {
    let page = aggregate_page("SUM", Bson::Double(15.0));
    assert_eq!(page.get_array("labels").unwrap(), &vec![Bson::String("SUM".into())]);
    assert_eq!(page.get_document("rows").unwrap().get_f64("SUM").unwrap(), 15.0);
    let saved = saved_page(&vec!["a.r2d2".to_string(), "b.r2d2".to_string()]);
    assert_eq!(saved.get_array("labels").unwrap(), &vec![Bson::String("Saved Databases".into())]);
    let rows = saved.get_document("rows").unwrap();
    assert_eq!(rows.get_str("0").unwrap(), "a.r2d2");
    assert_eq!(rows.get_str("1").unwrap(), "b.r2d2");
    assert_eq!(notice_of(&schema_error_page("no")), "Error loading schema: no");
    let note = notice_page("Dumped database to CSV.");
    let keys: Vec<&String> = note.keys().collect();
    assert_eq!(keys, vec!["labels", "rows"]);
}

#[test]
fn schema_text_is_loaded() {
    let text = "# columns\nstore, number\n\nname,string\r\n open ,boolean\n";
    let (fields, types) = parse_schema(text).unwrap();
    assert_eq!(fields, vec!["store", "name", "open"]);
    assert_eq!(types, vec!["number", "string", "boolean"]);

    let mut db = create_test_db();
    let _ = db.insert_to_database(1, Document::new());
    assert!(db.load_schema_text(text).is_ok());
    assert_eq!(db.len(), 0);
    let result = ask(&mut db, "LIST::ALL");
    let labels = result.get_array("labels").unwrap();
    for name in ["store", "name", "open"] {
        assert!(labels.contains(&Bson::String(name.into())));
    }
    let loaded = db.schema_loaded_page();
    assert_eq!(
        loaded.get_document("rows").unwrap().get_str("message").unwrap(),
        "Successfully loaded schema"
    );
    assert_eq!(
        loaded.get_document("rows").unwrap().get_document("schema").unwrap().get_str("open").unwrap(),
        "boolean"
    );
}

#[test]
fn schema_text_is_refused() {
    let mut db = create_test_db();
    let long = "a".repeat(200);
    let (fields, _) = parse_schema(&format!("{},string", long)).unwrap();
    assert_eq!(fields[0].chars().count(), 128);

    match parse_schema("a,string\na,number") {
        Err(e @ SchemaError::DuplicateColumn(..)) => assert_eq!(
            e.message("s.txt"),
            "Column a defined more than once (new value on line 2)"
        ),
        _ => panic!("a duplicate was expected"),
    }
    match parse_schema("a,string\n\nb;number") {
        Err(e @ SchemaError::InvalidFormat(..)) => assert_eq!(
            e.message("s.txt"),
            "Invalid format on line 3: expected 'column,type', got 'b;number'"
        ),
        _ => panic!("a format error was expected"),
    }
    match parse_schema("a,b,c") {
        Err(SchemaError::InvalidFormat(line, text)) => {
            assert_eq!(line, 1);
            assert_eq!(text, "a,b,c");
        }
        _ => panic!("a format error was expected"),
    }
    match parse_schema("a,int") {
        Err(e @ SchemaError::InvalidType(..)) => assert_eq!(
            e.message("s.txt"),
            "Invalid column type 'int' on line 1: must be 'string', 'number', or 'boolean'"
        ),
        _ => panic!("a type error was expected"),
    }
    match parse_schema("# nothing\n\n") {
        Err(e @ SchemaError::Empty) => {
            assert_eq!(e.message("s.txt"), "Schema file contains no valid column definitions")
        }
        _ => panic!("an empty schema was expected"),
    }
    let many = "\n".repeat(50001);
    match parse_schema(&many) {
        Err(e @ SchemaError::TooLarge(50001)) => assert_eq!(
            e.message("s.txt"),
            "Schema file 's.txt' is too long; this database supports a maximum of 50000 columns, the loaded schema contains 50001"
        ),
        _ => panic!("a schema too large was expected"),
    }
    assert!(matches!(parse_schema(&"\n".repeat(50000)), Err(SchemaError::Empty)));
    assert!(db.load_schema_text("a,int").is_err());
    assert_eq!(db.column_names().len(), 3);
    assert_eq!(kind_for_type("string"), Some(ElementKind::Text));
    assert_eq!(kind_for_type("number"), Some(ElementKind::Double));
    assert_eq!(kind_for_type("boolean"), Some(ElementKind::Boolean));
    assert_eq!(kind_for_type("bool"), None);
}

#[test]
fn html_rows_and_pages() {
    assert_eq!(
        vec_string_to_html_row(vec!["a".to_string(), "b".to_string()], true),
        "<tr><th>a</th><th>b</th></tr>"
    );
    assert_eq!(vec_string_to_html_row(vec!["a".to_string()], false), "<tr><td>a</td></tr>");
    assert_eq!(vec_string_to_html_row(vec![], false), "<tr></tr>");
    let mut row = Document::new();
    row.insert("store", 1);
    row.insert("name", "r2");
    row.insert("rate", Bson::Double(0.5));
    row.insert("open", false);
    row.insert("big", Bson::Int64(1 << 40));
    row.insert("gone", Bson::Null);
    assert_eq!(
        document_to_html_row(&row, 12),
        "<tr><td>12</td><td>1</td><td>r2</td><td>0.5</td><td>false</td><td>1099511627776</td><td>None</td></tr>"
    );

    let mut db = create_test_db();
    assert!(db.insert_to_database(12, row.clone()).is_err());
    let mut plain = Document::new();
    plain.insert("store", 4);
    let _ = db.insert_to_database(12, plain);
    let result = reply(db.query("LIST::ALL", 0));
    let page = handle_request("LIST::ALL", &result);
    assert!(page.starts_with("HTTP/1.1 200 OK\r\n\r\n\n        <!DOCTYPE html>"));
    assert!(page.contains("<h1>LIST::ALL</h1>"));
    assert!(page.contains(
        "<table><tr><th>Timestamp</th><th>store</th><th>product</th><th>number_sold</th></tr>"
    ));
    assert!(page.contains("<tr><td>12</td><td>4</td></tr></table></html>"));
    assert!(page.ends_with("</table></html>"));

    let hidden = handle_request("LIST::ALL::HIDE", &result);
    assert!(hidden.ends_with("</body>Success</html>"));
    let note = handle_request("TIME", &notice_page("hello"));
    assert!(note.contains("<table><tr><th>Notice</th></tr><tr><td>\"hello\"</td></tr></table>"));
    let sum = handle_request("AGGREGATE::x::SUM", &aggregate_page("SUM", Bson::Double(15.0)));
    assert!(sum.contains("<tr><th>SUM</th></tr><tr><td>15</td></tr>"));
}

#[test]
fn request_lines() {
    assert_eq!(requested_resource("GET /LIST::ALL HTTP/1.1\r\n"), Some("LIST::ALL".to_string()));
    assert_eq!(requested_resource("GET /LIST::ALL/more HTTP/1.1"), Some("LIST::ALL".to_string()));
    assert_eq!(requested_resource("GET / HTTP/1.1"), Some(String::new()));
    assert_eq!(requested_resource("GET"), None);
    assert_eq!(requested_resource("GET index HTTP/1.1"), None);
}
