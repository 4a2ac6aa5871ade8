use json_to_tables::database::database_csv::DatabaseCsv;
use json_to_tables::database::schema::{ColumnSchema, DatabaseSchema, SourceColumn};
use json_to_tables::database::Database;
use json_to_tables::parser::models::{Scalar, TableLocation, TableRecord};
use json_to_tables::parser::Event;
use json_to_tables::database::database_json::DatabaseJson;
use json_to_tables::database::database_stdout::DatabaseStdout;
use json_to_tables::database::DatabaseError;
use json_to_tables::read::{
    read_document, read_documents, read_to_db, read_to_db_many, DocumentReader, IdRemapper,
    ReadError,
};
use yajlish::{decode_str, Context, Handler, Parser, Status};

struct Tokens {
    events: Vec<Event>,
}

fn float_text(val: f64) -> String {
    match serde_json::Number::from_f64(val) {
        Some(n) => n.to_string(),
        None => val.to_string(),
    }
}

impl Handler for Tokens {
    fn handle_null(&mut self, _ctx: &Context) -> Status {
        self.events.push(Event::Value(Scalar::Null));
        Status::Continue
    }

    fn handle_double(&mut self, _ctx: &Context, val: f64) -> Status {
        self.events.push(Event::Value(Scalar::Float(float_text(val))));
        Status::Continue
    }

    fn handle_int(&mut self, _ctx: &Context, val: i64) -> Status {
        self.events.push(Event::Value(Scalar::Int(val)));
        Status::Continue
    }

    fn handle_bool(&mut self, _ctx: &Context, val: bool) -> Status {
        self.events.push(Event::Value(Scalar::Bool(val)));
        Status::Continue
    }

    fn handle_string(&mut self, _ctx: &Context, val: &str) -> Status {
        self.events.push(Event::Value(Scalar::Str(decode_str(val).unwrap().into_owned())));
        Status::Continue
    }

    fn handle_start_map(&mut self, _ctx: &Context) -> Status {
        self.events.push(Event::StartMap);
        Status::Continue
    }

    fn handle_end_map(&mut self, _ctx: &Context) -> Status {
        self.events.push(Event::EndMap);
        Status::Continue
    }

    fn handle_map_key(&mut self, _ctx: &Context, key: &str) -> Status {
        self.events.push(Event::MapKey(decode_str(key).unwrap().into_owned()));
        Status::Continue
    }

    fn handle_start_array(&mut self, _ctx: &Context) -> Status {
        self.events.push(Event::StartArray);
        Status::Continue
    }

    fn handle_end_array(&mut self, _ctx: &Context) -> Status {
        self.events.push(Event::EndArray);
        Status::Continue
    }
}

fn tokens(json: &str) -> Vec<Event> {
    let mut collector = Tokens { events: Vec::new() };
    let mut parser = Parser::new(&mut collector);
    let mut bytes = json.as_bytes();
    parser.parse(&mut bytes).unwrap();
    parser.finish_parse().unwrap();
    collector.events
}

fn read(remapper: &mut IdRemapper, json: &str) -> (Vec<(TableLocation, TableRecord)>, usize) {
    let mut reader = DocumentReader::start(remapper).unwrap();
    let mut rows = Vec::new();
    for event in tokens(json) {
        if let Some(row) = reader.push(remapper, event).unwrap() {
            rows.push(row);
        }
    }
    let count = reader.finish(remapper);
    (rows, count)
}

/// The lines that the documents give, by table name, in the order of the
/// tables' first rows; and the schema registry after the sink was closed.
fn convert(documents: &[&str]) -> (Vec<(String, Vec<String>)>, DatabaseSchema, Vec<usize>) {
    let mut remapper = IdRemapper::new();
    let mut db = DatabaseCsv::new(DatabaseSchema::empty());
    let mut files: Vec<(String, Vec<String>)> = Vec::new();
    let mut counts = Vec::new();
    for json in documents {
        let (rows, count) = read(&mut remapper, json);
        counts.push(count);
        for (loc, rec) in rows {
            let row = db.write(loc, rec).unwrap();
            match files.iter_mut().find(|f| f.0 == row.table_name) {
                Some(file) => file.1.push(row.line),
                None => files.push((row.table_name, vec![row.line])),
            }
        }
    }
    db.close().unwrap();
    let mut registry = DatabaseSchema::empty();
    std::mem::swap(&mut registry, &mut take_schema(db));
    (files, registry, counts)
}

fn take_schema(db: DatabaseCsv) -> DatabaseSchema {
    let mut copy = DatabaseSchema::empty();
    let schema = db.get_schema();
    for i in 0..schema.len() {
        let path = schema.table_path(i).clone();
        let mut fresh = copy.borrow_table_schema(&path).unwrap();
        let table = schema.table(i).unwrap();
        for col in table.columns.iter().skip(2) {
            if let ColumnSchema::SourceColumn(c) = col {
                fresh.add_column(ColumnSchema::SourceColumn(SourceColumn {
                    source_path: c.source_path.clone(),
                    is_nullable: c.is_nullable,
                    is_null: c.is_null,
                    is_bool: c.is_bool,
                    is_i64: c.is_i64,
                    is_f64: c.is_f64,
                    example_values: c.example_values.iter().map(|v| v.clone()).collect(),
                }));
            }
        }
        copy.return_table_schema(&path, fresh).unwrap();
    }
    copy
}

fn lines(text: &[&str]) -> Vec<String> {
    text.iter().map(|l| l.to_string()).collect()
}

fn path(keys: &[&str]) -> Vec<String> {
    keys.iter().map(|k| k.to_string()).collect()
}

#[test]
fn the_tokenizer_gives_the_tokens_in_document_order() {
    let events = tokens(r#"{"a":[1,"x\"y",null,true,2.5]}"#);
    assert_eq!(events.len(), 10);
    assert!(matches!(events[0], Event::StartMap));
    assert!(matches!(&events[1], Event::MapKey(k) if k == "a"));
    assert!(matches!(events[2], Event::StartArray));
    assert!(matches!(&events[3], Event::Value(Scalar::Int(1))));
    assert!(matches!(&events[4], Event::Value(Scalar::Str(s)) if s == "x\"y"));
    assert!(matches!(&events[5], Event::Value(Scalar::Null)));
    assert!(matches!(&events[6], Event::Value(Scalar::Bool(true))));
    assert!(matches!(&events[7], Event::Value(Scalar::Float(t)) if t == "2.5"));
    assert!(matches!(events[8], Event::EndArray));
    assert!(matches!(events[9], Event::EndMap));
}

#[test]
fn an_empty_object_gives_one_row_of_keys() {
    let (files, schema, counts) = convert(&["{}"]);
    assert_eq!(files, vec![(String::from("table_0"), lines(&["0,0\n"]))]);
    assert_eq!(counts, vec![1]);
    assert_eq!(schema.len(), 1);
    assert_eq!(schema.table(0).unwrap().columns.len(), 2);
}

#[test]
fn an_empty_array_gives_the_row_of_the_document_and_no_table_for_the_array() {
    let (files, schema, counts) = convert(&["[]"]);
    assert_eq!(files, vec![(String::from("table_0"), lines(&["0,0\n"]))]);
    assert_eq!(counts, vec![1]);
    assert_eq!(schema.len(), 1);
    assert!(schema.table_path(0).is_empty());
}

#[test]
fn an_array_of_scalars_gives_a_row_per_scalar() {
    let (files, schema, counts) = convert(&["[1,2,3]"]);
    assert_eq!(
        files,
        vec![
            (String::from("table_0"), lines(&["0,0,1\n", "1,0,2\n", "2,0,3\n"])),
            (String::from("table_1"), lines(&["0,0\n"])),
        ]
    );
    assert_eq!(counts, vec![4]);
    assert_eq!(schema.table_path(0), &vec![path(&[])]);
    match &schema.table(0).unwrap().columns[2] {
        ColumnSchema::SourceColumn(c) => {
            assert!(c.source_path.is_empty());
            assert!(c.is_i64);
        }
        _ => panic!("the third column is a source column"),
    }
}

#[test]
fn a_nested_array_gives_a_table_of_its_own() {
    let (files, schema, _) = convert(&[r#"{"a":[{"x":1},{"x":2}]}"#]);
    assert_eq!(
        files,
        vec![
            (String::from("table_0"), lines(&["0,0,1\n", "1,0,2\n"])),
            (String::from("table_1"), lines(&["0,0\n"])),
        ]
    );
    assert_eq!(schema.table_path(0), &vec![path(&["a"])]);
    assert!(schema.table_path(1).is_empty());
}

#[test]
fn a_column_of_mixed_values_has_no_type_left() {
    let (_, schema, _) = convert(&[r#"{"a":[{"y":1},{"y":"s"}]}"#]);
    let table = schema.table(0).unwrap();
    assert_eq!(table.path, vec![path(&["a"])]);
    match &table.columns[2] {
        ColumnSchema::SourceColumn(c) => {
            assert_eq!(c.source_path, path(&["y"]));
            assert!(!c.is_i64);
            assert!(!c.is_bool);
            assert!(!c.is_f64);
            assert!(!c.is_null);
            assert!(!c.is_nullable);
            assert_eq!(c.example_values.len(), 2);
            assert!(c.example_values[0].same(&Scalar::Int(1)));
            assert!(c.example_values[1].same(&Scalar::Str(String::from("s"))));
        }
        _ => panic!("the third column is a source column"),
    }
}

#[test]
fn a_second_document_goes_on_with_the_keys_of_the_first() {
    let doc = r#"{"a":[{"x":1},{"x":2}]}"#;
    let (files, _, counts) = convert(&[doc, doc]);
    assert_eq!(
        files,
        vec![
            (String::from("table_0"), lines(&["0,0,1\n", "1,0,2\n", "2,1,1\n", "3,1,2\n"])),
            (String::from("table_1"), lines(&["0,0\n", "1,1\n"])),
        ]
    );
    assert_eq!(counts, vec![3, 3]);
}

#[test]
fn keys_are_unique_and_dense_per_table_over_several_documents() {
    let mut remapper = IdRemapper::new();
    let mut seen: Vec<(Vec<Vec<String>>, i32)> = Vec::new();
    for json in [r#"[{"a":[1,2]},{"a":[3]}]"#, r#"{"a":[{"b":[1]}]}"#, r#"[{"a":[4]}]"#] {
        for (loc, _) in read(&mut remapper, json).0 {
            assert!(!seen.contains(&(loc.table_path.clone(), loc.object_id)));
            seen.push((loc.table_path, loc.object_id));
        }
    }
    let mut tables: Vec<Vec<Vec<String>>> = seen.iter().map(|s| s.0.clone()).collect();
    tables.sort();
    tables.dedup();
    for table in tables {
        let mut keys: Vec<i32> = seen.iter().filter(|s| s.0 == table).map(|s| s.1).collect();
        keys.sort();
        let expected: Vec<i32> = (0..keys.len() as i32).collect();
        assert_eq!(keys, expected);
        assert_eq!(remapper.next_id(&table), keys.len() as i32);
    }
}

#[test]
fn a_reference_names_a_row_of_the_enclosing_table() {
    let mut remapper = IdRemapper::new();
    let first = read(&mut remapper, r#"[{"a":[1]},{"a":[2]},{"a":[3]}]"#).0;
    let second = read(&mut remapper, r#"[{"a":[4]},{"a":[5]}]"#).0;
    for rows in [first, second] {
        for (i, (loc, _)) in rows.iter().enumerate() {
            if loc.table_path.is_empty() {
                continue;
            }
            let up = loc.parent_table_path();
            let earlier = rows[..i].iter().any(|r| r.0.table_path == up);
            let named =
                rows.iter().any(|r| r.0.table_path == up && r.0.object_id == loc.parent_object_id);
            assert!(named);
            if earlier {
                assert!(rows[..i]
                    .iter()
                    .any(|r| r.0.table_path == up && r.0.object_id == loc.parent_object_id));
            }
        }
    }
}

#[test]
fn strings_are_escaped_in_the_lines() {
    let (files, _, _) = convert(&[r#"{"t":"a,b","u":"","v":"q\"r","w":null,"x":false,"y":-1.5}"#]);
    assert_eq!(files[0].1, lines(&["0,0,\"a,b\",\"\",\"q\"\"r\",,false,-1.5\n"]));
}

#[test]
fn a_key_that_arrives_outside_an_object_is_refused() {
    let mut remapper = IdRemapper::new();
    let mut reader = DocumentReader::start(&mut remapper).unwrap();
    assert_eq!(
        reader.push(&mut remapper, Event::MapKey(String::from("a"))).err(),
        Some(ReadError::UnexpectedKey)
    );
    assert_eq!(reader.num_records(), 0);
}

#[test]
fn a_reader_whose_session_was_closed_is_refused_at_its_next_row() {
    let mut remapper = IdRemapper::new();
    let mut reader = DocumentReader::start(&mut remapper).unwrap();
    assert!(reader.push(&mut remapper, Event::StartMap).unwrap().is_none());
    remapper.finish_remapper(reader.remapper_id());
    assert_eq!(reader.push(&mut remapper, Event::EndMap).err(), Some(ReadError::SessionClosed));
}

#[test]
fn the_same_documents_give_the_same_lines() {
    let docs = [r#"{"b":1,"a":[{"z":1,"y":2},{"x":3}],"c":"s"}"#, r#"[{"k":[1,2]},3]"#];
    let first = convert(&docs);
    let second = convert(&docs);
    assert_eq!(first.0, second.0);
    assert_eq!(first.2, second.2);
    assert_eq!(
        first.0[0],
        (String::from("table_0"), lines(&["0,0,1,2\n", "1,0,,,3\n"]))
    );
}

fn keys(rows: &[(TableLocation, TableRecord)]) -> Vec<(Vec<Vec<String>>, i32, i32)> {
    rows.iter().map(|r| (r.0.table_path.clone(), r.0.object_id, r.0.parent_object_id)).collect()
}

#[test]
fn reading_a_document_at_once_gives_the_rows_of_reading_it_token_by_token() {
    let json = r#"[{"a":[{"b":[1,2]},{"b":[]}],"c":true},{"a":[{"b":[3]}]}]"#;
    let mut streamed = IdRemapper::new();
    let mut at_once = IdRemapper::new();
    let expected = read(&mut streamed, json).0;
    let rows = read_document(&mut at_once, tokens(json)).unwrap();
    assert_eq!(keys(&rows), keys(&expected));
    assert_eq!(rows.len(), 9);
    for (row, other) in rows.iter().zip(expected.iter()) {
        assert_eq!(row.1.len(), other.1.len());
    }
    assert!(!at_once.has_session(0));
    assert_eq!(at_once.start_remapper(), 1);
}

#[test]
fn reading_several_documents_gives_each_a_session_of_its_own() {
    let doc = r#"{"a":[{"x":1},{"x":2}]}"#;
    let mut remapper = IdRemapper::new();
    let tables = read_documents(&mut remapper, vec![tokens(doc), tokens(doc),
        tokens("7")]).unwrap();
    assert_eq!(tables.len(), 3);
    let child = vec![path(&["a"])];
    assert_eq!(
        keys(&tables[0]),
        vec![(child.clone(), 0, 0), (child.clone(), 1, 0), (vec![], 0, 0)]
    );
    assert_eq!(
        keys(&tables[1]),
        vec![(child.clone(), 2, 1), (child.clone(), 3, 1), (vec![], 1, 1)]
    );
    assert_eq!(keys(&tables[2]), vec![(vec![], 2, 2)]);
    assert_eq!(remapper.next_id(&child), 4);
    assert_eq!(remapper.next_id(&vec![]), 3);
    assert!(!remapper.has_session(0));
    assert!(!remapper.has_session(2));
}

#[test]
fn reading_no_document_gives_no_rows() {
    let mut remapper = IdRemapper::new();
    assert!(read_documents(&mut remapper, vec![]).unwrap().is_empty());
    assert!(read_document(&mut remapper, vec![]).unwrap().is_empty());
    assert_eq!(remapper.start_remapper(), 1);
}

#[test]
fn the_reading_stops_at_the_first_token_that_is_refused() {
    let mut remapper = IdRemapper::new();
    let events = vec![
        Event::Value(Scalar::Int(1)),
        Event::MapKey(String::from("a")),
        Event::Value(Scalar::Int(2)),
    ];
    assert_eq!(read_document(&mut remapper, events).err(), Some(ReadError::UnexpectedKey));
    assert!(!remapper.has_session(0));
    let stopped = read_documents(
        &mut remapper,
        vec![tokens("1"), vec![Event::MapKey(String::from("a"))], tokens("2")],
    );
    assert_eq!(stopped.err(), Some(ReadError::UnexpectedKey));
    assert_eq!(remapper.next_id(&vec![]), 2);
}

#[test]
fn in_complete_documents_every_reference_names_a_row_of_the_same_document() {
    let mut remapper = IdRemapper::new();
    let docs = vec![
        tokens(r#"[{"a":[1]},{"a":[2]},{"a":[3]}]"#),
        tokens(r#"{"a":[{"b":[[1],[2,3]]}],"c":[4]}"#),
        tokens(r#"[[],[[]]]"#),
        tokens("null"),
    ];
    let tables = read_documents(&mut remapper, docs).unwrap();
    let mut rows_of_tables: Vec<(Vec<Vec<String>>, i32)> = Vec::new();
    for rows in tables.iter() {
        for (loc, _) in rows.iter() {
            let up = loc.parent_table_path();
            assert!(rows
                .iter()
                .any(|r| r.0.table_path == up && r.0.object_id == loc.parent_object_id));
            assert!(!rows_of_tables.contains(&(loc.table_path.clone(), loc.object_id)));
            rows_of_tables.push((loc.table_path.clone(), loc.object_id));
        }
    }
    for (table, _) in rows_of_tables.iter() {
        let count = rows_of_tables.iter().filter(|r| &r.0 == table).count() as i32;
        assert_eq!(remapper.next_id(table), count);
        for key in 0..count {
            assert!(rows_of_tables.contains(&(table.clone(), key)));
        }
    }
}

#[test]
fn every_key_of_a_row_is_a_column_after_the_row_was_written() {
    let mut remapper = IdRemapper::new();
    let mut db = DatabaseCsv::new(DatabaseSchema::empty());
    let rows = read_document(&mut remapper, tokens(r#"[{"a":1,"b":{"c":2}},{"d":null,"a":"x"}]"#))
        .unwrap();
    let mut written: Vec<(Vec<Vec<String>>, Vec<Vec<String>>)> = Vec::new();
    for (loc, rec) in rows {
        let record_keys: Vec<Vec<String>> = (0..rec.len()).map(|i| rec.key_at(i).clone()).collect();
        written.push((loc.table_path.clone(), record_keys));
        db.write(loc, rec).unwrap();
    }
    db.close().unwrap();
    let schema = db.get_schema();
    for (table, record_keys) in written {
        let id = schema.find_table(&table).unwrap();
        for key in record_keys {
            assert!(schema.table(id).unwrap().find_column(&key).is_some());
        }
    }
}

#[test]
fn read_to_db_many_gives_the_sink_the_rows_of_all_documents() {
    let doc = r#"{"a":[{"x":1},{"x":2}]}"#;
    let mut db = DatabaseCsv::new(DatabaseSchema::empty());
    let written = read_to_db_many(&mut db, vec![tokens(doc), tokens(doc)]).unwrap();
    assert_eq!(written.len(), 2);
    let seen: Vec<Vec<(String, String)>> = written
        .iter()
        .map(|rows| rows.iter().map(|r| (r.table_name.clone(), r.line.clone())).collect())
        .collect();
    let row = |table: &str, line: &str| (table.to_string(), line.to_string());
    assert_eq!(
        seen,
        vec![
            vec![row("table_0", "0,0,1\n"), row("table_0", "1,0,2\n"), row("table_1", "0,0\n")],
            vec![row("table_0", "2,1,1\n"), row("table_0", "3,1,2\n"), row("table_1", "1,1\n")],
        ]
    );
    assert_eq!(db.close(), Ok(()));
    assert_eq!(db.get_schema().len(), 2);
}

#[test]
fn read_to_db_keeps_the_keys_that_the_document_counts() {
    let mut db = DatabaseJson::new(String::from("doc"));
    let written = read_to_db(&mut db, tokens(r#"{"a":[{"x":1},{"x":2}],"b":"v"}"#)).unwrap();
    assert_eq!(written.len(), 3);
    assert_eq!(db.table_count(), 2);
    assert_eq!(db.table_name(0), "a_lin_doc");
    assert_eq!(db.table_name(1), "doc");
    assert_eq!(db.rows(0).len(), 2);
    assert!(db.rows(0)[1].get("x").unwrap().same(&Scalar::Int(2)));
    assert!(db.rows(0)[1].get("id_a_lin_doc").unwrap().same(&Scalar::Int(1)));
    assert!(db.rows(0)[1].get("id_doc").unwrap().same(&Scalar::Int(0)));
    assert!(db.rows(1)[0].get("b").unwrap().same(&Scalar::Str(String::from("v"))));
    let mut again = DatabaseJson::new(String::from("doc"));
    read_to_db(&mut again, tokens("[1]")).unwrap();
    read_to_db(&mut again, tokens("[2]")).unwrap();
    assert_eq!(again.rows(0).len(), 2);
    assert!(again.rows(0)[1].get("id_list_lin_doc").unwrap().same(&Scalar::Int(0)));
}

#[test]
fn read_to_db_hands_back_the_lines_of_the_debug_sink() {
    let mut db = DatabaseStdout::new();
    let lines = read_to_db(&mut db, tokens("[true]")).unwrap();
    assert_eq!(
        lines,
        vec![
            String::from(
                "TableLocation { table_path: [[]], object_id: 0, parent_object_id: 0 }: \
                 {[]: true}"
            ),
            String::from("TableLocation { table_path: [], object_id: 0, parent_object_id: 0 }: {}"),
        ]
    );
}

#[test]
fn a_row_that_the_sink_refuses_stops_the_reading() {
    let mut registry = DatabaseSchema::empty();
    let lent = registry.borrow_table_schema(&vec![]).unwrap();
    assert_eq!(lent.name, "table_0");
    let mut db = DatabaseCsv::new(registry);
    let stopped = read_to_db_many(&mut db, vec![tokens("[1,2]"), tokens("3")]);
    assert_eq!(stopped.err(), Some(ReadError::Refused(DatabaseError::StillBorrowed)));
    let mut single = DatabaseCsv::new(DatabaseSchema::empty());
    let refused = read_to_db(&mut single, vec![Event::MapKey(String::from("k"))]);
    assert_eq!(refused.err(), Some(ReadError::UnexpectedKey));
}

/// A JSON document made from a seed: objects, arrays and scalars nested up to
/// `depth` deep.
fn generated(seed: &mut u64, depth: u32) -> String {
    *seed = seed.wrapping_mul(6364136223846793005).wrapping_add(1442695040888963407);
    let pick = (*seed >> 33) % if depth == 0 { 3 } else { 6 };
    match pick {
        0 => format!("{}", (*seed >> 40) % 100),
        1 => String::from("null"),
        2 => format!("\"s{}\"", (*seed >> 40) % 7),
        3 | 4 => {
            let n = (*seed >> 45) % 4;
            let items: Vec<String> = (0..n).map(|_| generated(seed, depth - 1)).collect();
            format!("[{}]", items.join(","))
        }
        _ => {
            let n = (*seed >> 45) % 4;
            let fields: Vec<String> = (0..n)
                .map(|i| format!("\"k{}\":{}", (i + (*seed >> 50)) % 3, generated(seed, depth - 1)))
                .collect();
            format!("{{{}}}", fields.join(","))
        }
    }
}

#[test]
fn generated_documents_keep_their_keys_unique_dense_and_referenced() {
    let mut seed: u64 = 2024;
    let mut remapper = IdRemapper::new();
    let mut all: Vec<(Vec<Vec<String>>, i32)> = Vec::new();
    for _ in 0..60 {
        let json = generated(&mut seed, 4);
        let rows = read_document(&mut remapper, tokens(&json)).unwrap();
        for (loc, _) in rows.iter() {
            let up = loc.parent_table_path();
            assert!(rows
                .iter()
                .any(|r| r.0.table_path == up && r.0.object_id == loc.parent_object_id));
            assert!(!all.contains(&(loc.table_path.clone(), loc.object_id)));
            all.push((loc.table_path.clone(), loc.object_id));
        }
    }
    assert!(all.len() >= 60);
    for (table, key) in all.iter() {
        let count = all.iter().filter(|r| &r.0 == table).count() as i32;
        assert!(*key < count);
        assert_eq!(remapper.next_id(table), count);
    }
}
