use json_to_tables::database::database_stdout::DatabaseStdout;
use json_to_tables::database::Database;
use json_to_tables::parser::models::{Scalar, TableLocation, TableRecord};

fn path(keys: &[&str]) -> Vec<String> {
    keys.iter().map(|k| k.to_string()).collect()
}

#[test]
fn a_row_is_written_as_location_and_record() {
    let mut db = DatabaseStdout::new();
    let mut rec = TableRecord::new();
    rec.insert(path(&["x"]), Scalar::Int(1));
    rec.insert(path(&["p", "q"]), Scalar::Str(String::from("say \"hi\"")));
    rec.insert(path(&[]), Scalar::Null);
    let line = db.write(
        TableLocation {
            table_path: vec![path(&["a", "b"]), path(&[])],
            object_id: 3,
            parent_object_id: 1,
        },
        rec,
    );
    assert_eq!(
        line.unwrap(),
        "TableLocation { table_path: [[\"a\", \"b\"], []], object_id: 3, parent_object_id: 1 }: \
         {[\"x\"]: 1, [\"p\", \"q\"]: \"say \"\"hi\"\"\", []: null}"
    );
    assert_eq!(db.close(), Ok(()));
}

#[test]
fn an_empty_row_of_the_root_table() {
    let mut db = DatabaseStdout::new();
    let line = db.write(
        TableLocation { table_path: vec![], object_id: 0, parent_object_id: 0 },
        TableRecord::new(),
    );
    assert_eq!(
        line.unwrap(),
        "TableLocation { table_path: [], object_id: 0, parent_object_id: 0 }: {}"
    );
}
