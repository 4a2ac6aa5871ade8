use json_to_tables::database::database_csv::{
    csv_field_escape, csv_field_quote, DatabaseCsv, TableCsv,
};
use json_to_tables::database::schema::{DatabaseSchema, TableSchema};
use json_to_tables::database::{Database, DatabaseError};
use json_to_tables::parser::models::{Scalar, TableLocation, TableRecord};

fn path(keys: &[&str]) -> Vec<String> {
    keys.iter().map(|k| k.to_string()).collect()
}

fn record(entries: Vec<(&[&str], Scalar)>) -> TableRecord {
    let mut rec = TableRecord::new();
    for (k, v) in entries {
        rec.insert(path(k), v);
    }
    rec
}

fn loc(table_path: Vec<Vec<String>>, object_id: i32, parent_object_id: i32) -> TableLocation {
    TableLocation { table_path, object_id, parent_object_id }
}

fn s(text: &str) -> String {
    text.to_string()
}

#[test]
fn quote_wraps_and_doubles_quotes() {
    assert_eq!(csv_field_quote(&s("abc")), "\"abc\"");
    assert_eq!(csv_field_quote(&s("a\"b")), "\"a\"\"b\"");
    assert_eq!(csv_field_quote(&s("\"")), "\"\"\"\"");
    assert_eq!(csv_field_quote(&s("")), "\"\"");
}

#[test]
fn escape_leaves_plain_text_alone() {
    assert_eq!(csv_field_escape(&s("abc")), "abc");
    assert_eq!(csv_field_escape(&s("a b;c")), "a b;c");
    assert_eq!(csv_field_escape(&s("é")), "é");
}

#[test]
fn escape_quotes_the_empty_text() {
    assert_eq!(csv_field_escape(&s("")), "\"\"");
}

#[test]
fn escape_quotes_text_with_a_comma_a_quote_or_a_line_feed() {
    assert_eq!(csv_field_escape(&s("a,b")), "\"a,b\"");
    assert_eq!(csv_field_escape(&s("a\nb")), "\"a\nb\"");
    assert_eq!(csv_field_escape(&s("say \"hi\"")), "\"say \"\"hi\"\"\"");
    assert_eq!(csv_field_escape(&s("a\rb")), "a\rb");
}

#[test]
fn values_are_written_by_kind() {
    assert_eq!(TableCsv::value_to_str(&Scalar::Null), None);
    assert_eq!(TableCsv::value_to_str(&Scalar::Bool(true)), Some(s("true")));
    assert_eq!(TableCsv::value_to_str(&Scalar::Bool(false)), Some(s("false")));
    assert_eq!(TableCsv::value_to_str(&Scalar::Int(-12)), Some(s("-12")));
    assert_eq!(TableCsv::value_to_str(&Scalar::Float(s("1.5e3"))), Some(s("1.5e3")));
    assert_eq!(TableCsv::value_to_str(&Scalar::Str(s("a,b"))), Some(s("\"a,b\"")));
    assert_eq!(TableCsv::value_to_str(&Scalar::Str(s(""))), Some(s("\"\"")));
}

#[test]
fn make_columns_lays_the_row_out_by_the_schema() {
    let mut table = TableCsv::new(TableSchema::empty_with_ids(s("t"), vec![]));
    let cells = table.make_columns(
        loc(vec![], 4, 2),
        record(vec![(&["a"], Scalar::Int(1)), (&["b"], Scalar::Null)]),
    );
    assert_eq!(cells, vec![Some(s("4")), Some(s("2")), Some(s("1")), None]);
    let cells = table.make_columns(loc(vec![], 5, 2), record(vec![(&["b"], Scalar::Bool(true))]));
    assert_eq!(cells, vec![Some(s("5")), Some(s("2")), None, Some(s("true"))]);
}

#[test]
fn write_gives_the_line_with_its_line_feed() {
    let mut table = TableCsv::new(TableSchema::empty_with_ids(s("t"), vec![]));
    assert_eq!(table.table_name(), Some(s("t")));
    let line = table.write(
        loc(vec![], 0, 0),
        record(vec![(&["a"], Scalar::Str(s("x,y"))), (&["b"], Scalar::Null)]),
    );
    assert_eq!(line, "0,0,\"x,y\",\n");
    let line = table.write(loc(vec![], 1, 0), record(vec![(&["c"], Scalar::Int(7))]));
    assert_eq!(line, "1,0,,,7\n");
    let line = table.write(loc(vec![], 2, 0), TableRecord::new());
    assert_eq!(line, "2,0,,,\n");
}

#[test]
fn pop_schema_gives_the_schema_up_once() {
    let mut table = TableCsv::new(TableSchema::empty_with_ids(s("t"), vec![]));
    table.write(loc(vec![], 0, 0), record(vec![(&["a"], Scalar::Int(1))]));
    let schema = table.pop_schema().unwrap();
    assert_eq!(schema.columns.len(), 3);
    assert!(table.pop_schema().is_none());
    assert_eq!(table.table_name(), None);
}

#[test]
fn the_sink_names_tables_in_the_order_of_their_first_row() {
    let mut db = DatabaseCsv::new(DatabaseSchema::empty());
    let child = vec![path(&["a"])];
    let row = db.write(loc(child.clone(), 0, 0), record(vec![(&["x"], Scalar::Int(1))])).unwrap();
    assert_eq!(row.table_name, "table_0");
    assert_eq!(row.line, "0,0,1\n");
    let row = db.write(loc(child.clone(), 1, 0), record(vec![(&["x"], Scalar::Int(2))])).unwrap();
    assert_eq!(row.table_name, "table_0");
    assert_eq!(row.line, "1,0,2\n");
    let row = db.write(loc(vec![], 0, 0), TableRecord::new()).unwrap();
    assert_eq!(row.table_name, "table_1");
    assert_eq!(row.line, "0,0\n");
}

#[test]
fn close_returns_every_schema_to_the_registry() {
    let mut db = DatabaseCsv::new(DatabaseSchema::empty());
    let child = vec![path(&["a"])];
    db.write(loc(child.clone(), 0, 0), record(vec![(&["y"], Scalar::Int(1))])).unwrap();
    db.write(loc(vec![], 0, 0), TableRecord::new()).unwrap();
    assert_eq!(db.get_schema().ensure_all_tables_returned(), Err(DatabaseError::StillBorrowed));
    assert_eq!(db.close(), Ok(()));
    let schema = db.get_schema();
    assert_eq!(schema.len(), 2);
    assert_eq!(schema.table_path(0), &child);
    assert_eq!(schema.table(0).unwrap().name, "table_0");
    assert_eq!(schema.table(0).unwrap().columns.len(), 3);
    assert_eq!(schema.table(1).unwrap().name, "table_1");
    assert_eq!(schema.table(1).unwrap().columns.len(), 2);
}

#[test]
fn the_sink_goes_on_after_close_with_the_schemas_it_returned() {
    let mut db = DatabaseCsv::new(DatabaseSchema::empty());
    db.write(loc(vec![], 0, 0), record(vec![(&["a"], Scalar::Int(1))])).unwrap();
    assert_eq!(db.close(), Ok(()));
    let row = db.write(loc(vec![], 1, 0), record(vec![(&["b"], Scalar::Int(2))])).unwrap();
    assert_eq!(row.table_name, "table_0");
    assert_eq!(row.line, "1,0,,2\n");
}

#[test]
fn a_schema_lent_to_someone_else_stops_the_write_and_the_close() {
    let mut registry = DatabaseSchema::empty();
    let taken = registry.borrow_table_schema(&vec![]).unwrap();
    assert_eq!(taken.name, "table_0");
    let mut db = DatabaseCsv::new(registry);
    let refused = db.write(loc(vec![], 0, 0), TableRecord::new());
    assert_eq!(refused.err(), Some(DatabaseError::StillBorrowed));
    let row = db.write(loc(vec![path(&["a"])], 0, 0), TableRecord::new()).unwrap();
    assert_eq!(row.table_name, "table_1");
    assert_eq!(db.close(), Err(DatabaseError::StillBorrowed));
    assert!(db.get_schema().table(1).is_some());
    assert!(db.get_schema().table(0).is_none());
}
