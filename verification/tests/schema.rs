use json_to_tables::database::schema::{
    ColumnSchema, DatabaseSchema, SourceColumn, TableSchema, MAX_EXAMPLES,
};
use json_to_tables::database::DatabaseError;
use json_to_tables::parser::models::{Scalar, TableRecord};

fn path(keys: &[&str]) -> Vec<String> {
    keys.iter().map(|k| k.to_string()).collect()
}

fn record(entries: Vec<(&[&str], Scalar)>) -> TableRecord {
    let mut rec = TableRecord::new();
    for (k, v) in entries {
        rec.insert(path(k), v);
    }
    rec
}

fn source(schema: &TableSchema, i: usize) -> &SourceColumn {
    match &schema.columns[i] {
        ColumnSchema::SourceColumn(c) => c,
        _ => panic!("column {} is a key column", i),
    }
}

#[test]
fn a_new_table_has_the_two_key_columns() {
    let schema = TableSchema::empty_with_ids(String::from("t"), vec![path(&["a"])]);
    assert_eq!(schema.name, "t");
    assert_eq!(schema.path, vec![path(&["a"])]);
    assert_eq!(schema.columns.len(), 2);
    assert!(matches!(schema.columns[0], ColumnSchema::PrimaryKey));
    assert!(matches!(schema.columns[1], ColumnSchema::ForeignKey));
}

#[test]
fn update_registers_columns_in_the_order_of_first_sight() {
    let mut schema = TableSchema::empty_with_ids(String::from("t"), vec![]);
    schema.update(&record(vec![(&["b"], Scalar::Int(1)), (&["a"], Scalar::Int(2))]));
    schema.update(&record(vec![(&["c"], Scalar::Int(3)), (&["a"], Scalar::Int(4))]));
    assert_eq!(schema.columns.len(), 5);
    assert_eq!(source(&schema, 2).source_path, path(&["b"]));
    assert_eq!(source(&schema, 3).source_path, path(&["a"]));
    assert_eq!(source(&schema, 4).source_path, path(&["c"]));
    assert_eq!(schema.find_column(&path(&["a"])), Some(3));
    assert_eq!(schema.find_column(&path(&["z"])), None);
}

#[test]
fn a_column_of_integers_stays_an_integer_column() {
    let mut schema = TableSchema::empty_with_ids(String::from("t"), vec![]);
    schema.update(&record(vec![(&["n"], Scalar::Int(1))]));
    schema.update(&record(vec![(&["n"], Scalar::Int(2))]));
    let col = source(&schema, 2);
    assert!(col.is_i64);
    assert!(!col.is_bool);
    assert!(!col.is_f64);
    assert!(!col.is_null);
    assert!(!col.is_nullable);
    assert_eq!(col.example_values.len(), 2);
}

#[test]
fn mixed_values_switch_every_type_flag_off() {
    let mut schema = TableSchema::empty_with_ids(String::from("t"), vec![]);
    schema.update(&record(vec![(&["y"], Scalar::Int(1))]));
    schema.update(&record(vec![(&["y"], Scalar::Str(String::from("s")))]));
    let col = source(&schema, 2);
    assert!(!col.is_i64);
    assert!(!col.is_bool);
    assert!(!col.is_f64);
    assert!(!col.is_null);
    assert!(!col.is_nullable);
    assert_eq!(col.example_values.len(), 2);
    assert!(col.example_values[0].same(&Scalar::Int(1)));
    assert!(col.example_values[1].same(&Scalar::Str(String::from("s"))));
}

#[test]
fn a_null_makes_the_column_nullable_and_is_no_example() {
    let mut schema = TableSchema::empty_with_ids(String::from("t"), vec![]);
    schema.update(&record(vec![(&["v"], Scalar::Null)]));
    {
        let col = source(&schema, 2);
        assert!(col.is_nullable);
        assert!(col.is_null);
        assert!(!col.is_i64);
        assert!(!col.is_bool);
        assert!(!col.is_f64);
        assert!(col.example_values.is_empty());
    }
    schema.update(&record(vec![(&["v"], Scalar::Bool(true))]));
    let col = source(&schema, 2);
    assert!(col.is_nullable);
    assert!(!col.is_null);
    assert!(!col.is_bool);
    assert_eq!(col.example_values.len(), 1);
}

#[test]
fn flags_never_come_back() {
    let mut schema = TableSchema::empty_with_ids(String::from("t"), vec![]);
    schema.update(&record(vec![(&["v"], Scalar::Float(String::from("1.5")))]));
    assert!(source(&schema, 2).is_f64);
    schema.update(&record(vec![(&["v"], Scalar::Int(1))]));
    assert!(!source(&schema, 2).is_f64);
    assert!(!source(&schema, 2).is_i64);
    schema.update(&record(vec![(&["v"], Scalar::Float(String::from("2.5")))]));
    assert!(!source(&schema, 2).is_f64);
    assert!(!source(&schema, 2).is_i64);
}

#[test]
fn at_most_five_examples_are_kept() {
    assert_eq!(MAX_EXAMPLES, 5);
    let mut schema = TableSchema::empty_with_ids(String::from("t"), vec![]);
    for i in 0..8 {
        schema.update(&record(vec![(&["n"], Scalar::Int(i))]));
    }
    let col = source(&schema, 2);
    assert_eq!(col.example_values.len(), 5);
    for i in 0..5 {
        assert!(col.example_values[i].same(&Scalar::Int(i as i64)));
    }
}

#[test]
fn add_column_appends() {
    let mut schema = TableSchema::empty_with_ids(String::from("t"), vec![]);
    schema.add_column(ColumnSchema::ForeignKey);
    assert_eq!(schema.columns.len(), 3);
    assert!(matches!(schema.columns[2], ColumnSchema::ForeignKey));
}

#[test]
fn tables_are_named_by_their_number() {
    let mut db = DatabaseSchema::empty();
    assert_eq!(db.len(), 0);
    let root = db.borrow_table_schema(&vec![]).unwrap();
    let child = db.borrow_table_schema(&vec![path(&["a"])]).unwrap();
    assert_eq!(root.name, "table_0");
    assert_eq!(child.name, "table_1");
    assert_eq!(child.path, vec![path(&["a"])]);
    assert_eq!(child.columns.len(), 2);
    assert_eq!(db.len(), 2);
    for _ in 2..11 {
        let n = db.len();
        db.borrow_table_schema(&vec![path(&[&n.to_string()])]).unwrap();
    }
    let eleventh = db.borrow_table_schema(&vec![path(&["x"]), path(&["y"])]).unwrap();
    assert_eq!(eleventh.name, "table_11");
}

#[test]
fn a_borrowed_schema_is_absent_until_it_is_returned() {
    let mut db = DatabaseSchema::empty();
    let root_path: Vec<Vec<String>> = vec![];
    let mut root = db.borrow_table_schema(&root_path).unwrap();
    assert!(db.table(0).is_none());
    assert!(db.borrow_table_schema(&root_path).is_none());
    assert_eq!(db.ensure_all_tables_returned(), Err(DatabaseError::StillBorrowed));
    root.update(&record(vec![(&["a"], Scalar::Int(1))]));
    assert_eq!(db.return_table_schema(&root_path, root), Ok(()));
    assert_eq!(db.ensure_all_tables_returned(), Ok(()));
    assert_eq!(db.table(0).unwrap().columns.len(), 3);
    assert_eq!(db.table_path(0), &root_path);
    let again = db.borrow_table_schema(&root_path).unwrap();
    assert_eq!(again.name, "table_0");
    assert_eq!(again.columns.len(), 3);
    assert_eq!(db.len(), 1);
}

#[test]
fn returning_a_schema_for_an_unknown_table_is_refused() {
    let mut db = DatabaseSchema::empty();
    let stray = TableSchema::empty_with_ids(String::from("stray"), vec![path(&["q"])]);
    assert_eq!(
        db.return_table_schema(&vec![path(&["q"])], stray),
        Err(DatabaseError::UnknownTable)
    );
    assert_eq!(db.len(), 0);
    assert_eq!(db.find_table(&vec![path(&["q"])]), None);
}

#[test]
fn an_empty_registry_has_everything_returned() {
    let db = DatabaseSchema::empty();
    assert_eq!(db.ensure_all_tables_returned(), Ok(()));
}
