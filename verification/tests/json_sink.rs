use json_to_tables::database::database_json::{
    escape_id_prefix, escape_nested_key_element, escape_table_path_element, json_path_to_str,
    record_to_json, table_path_to_str, DatabaseJson, JsonObject,
};
use json_to_tables::database::Database;
use json_to_tables::parser::models::{Scalar, TableLocation, TableRecord};

fn path(keys: &[&str]) -> Vec<String> {
    keys.iter().map(|k| k.to_string()).collect()
}

fn s(text: &str) -> String {
    text.to_string()
}

fn loc(table_path: Vec<Vec<String>>, object_id: i32, parent_object_id: i32) -> TableLocation {
    TableLocation { table_path, object_id, parent_object_id }
}

#[test]
fn a_leading_id_is_protected_by_one_more_id() {
    assert_eq!(escape_id_prefix(&s("id_x")).unwrap(), "idid_x");
    assert_eq!(escape_id_prefix(&s("idid_x")).unwrap(), "ididid_x");
    assert_eq!(escape_id_prefix(&s("x_id_y")).unwrap(), "x_id_y");
    assert_eq!(escape_id_prefix(&s("idx")).unwrap(), "idx");
    assert_eq!(escape_id_prefix(&s("name")).unwrap(), "name");
}

#[test]
fn the_empty_key_is_written_empty() {
    assert_eq!(escape_nested_key_element(&s("")).unwrap(), "empty");
}

#[test]
fn reserved_words_and_separators_in_a_key_are_protected() {
    assert_eq!(escape_nested_key_element(&s("empty")).unwrap(), "emptyempty");
    assert_eq!(escape_nested_key_element(&s("emptyempty")).unwrap(), "emptyemptyempty");
    assert_eq!(escape_nested_key_element(&s("list")).unwrap(), "listlist");
    assert_eq!(escape_nested_key_element(&s("a_in_b")).unwrap(), "a_inin_b");
    assert_eq!(escape_nested_key_element(&s("a_inin_b")).unwrap(), "a_ininin_b");
    assert_eq!(escape_nested_key_element(&s("_a")).unwrap(), "tech_a");
    assert_eq!(escape_nested_key_element(&s("listing")).unwrap(), "listing");
    assert_eq!(escape_nested_key_element(&s("plain")).unwrap(), "plain");
}

#[test]
fn a_column_name_joins_the_keys_innermost_first() {
    assert_eq!(json_path_to_str(&path(&["a", "b", "c"])).unwrap(), "c_in_b_in_a");
    assert_eq!(json_path_to_str(&path(&["a"])).unwrap(), "a");
    assert_eq!(json_path_to_str(&path(&[])).unwrap(), "list");
    assert_eq!(json_path_to_str(&path(&["a", ""])).unwrap(), "empty_in_a");
    assert_eq!(json_path_to_str(&path(&["x", "id"])).unwrap(), "idid_in_x");
}

#[test]
fn a_separator_inside_a_table_name_element_is_protected() {
    assert_eq!(escape_table_path_element(&s("a_lin_b")).unwrap(), "a_linlin_b");
    assert_eq!(escape_table_path_element(&s("a_in_b")).unwrap(), "a_in_b");
}

#[test]
fn a_table_name_joins_the_paths_innermost_first_and_ends_with_the_root() {
    assert_eq!(table_path_to_str(&s("root"), &vec![]).unwrap(), "root");
    assert_eq!(table_path_to_str(&s("root"), &vec![path(&["a"])]).unwrap(), "a_lin_root");
    assert_eq!(
        table_path_to_str(&s("root"), &vec![path(&["a", "b"]), path(&[])]).unwrap(),
        "list_lin_b_in_a_lin_root"
    );
}

#[test]
fn a_json_object_keeps_the_order_of_first_arrival() {
    let mut obj = JsonObject::new();
    obj.insert(s("b"), Scalar::Int(1));
    obj.insert(s("a"), Scalar::Int(2));
    obj.insert(s("b"), Scalar::Int(3));
    assert_eq!(obj.len(), 2);
    assert_eq!(obj.key_at(0), "b");
    assert!(obj.value_at(0).same(&Scalar::Int(3)));
    assert!(obj.get("a").unwrap().same(&Scalar::Int(2)));
    assert!(obj.get("c").is_none());
}

#[test]
fn a_row_object_has_the_fields_and_both_keys() {
    let mut rec = TableRecord::new();
    rec.insert(path(&["x"]), Scalar::Int(1));
    rec.insert(path(&["p", "q"]), Scalar::Str(s("v")));
    let obj = record_to_json(&s("doc"), &loc(vec![path(&["a"])], 3, 1), &rec).unwrap();
    assert_eq!(obj.len(), 4);
    assert_eq!(obj.key_at(0), "x");
    assert_eq!(obj.key_at(1), "q_in_p");
    assert_eq!(obj.key_at(2), "id_a_lin_doc");
    assert_eq!(obj.key_at(3), "id_doc");
    assert!(obj.get("id_a_lin_doc").unwrap().same(&Scalar::Int(3)));
    assert!(obj.get("id_doc").unwrap().same(&Scalar::Int(1)));
    assert!(obj.get("q_in_p").unwrap().same(&Scalar::Str(s("v"))));
}

#[test]
fn in_the_root_table_the_reference_takes_the_place_of_the_key() {
    let obj = record_to_json(&s("doc"), &loc(vec![], 3, 0), &TableRecord::new()).unwrap();
    assert_eq!(obj.len(), 1);
    assert_eq!(obj.key_at(0), "id_doc");
    assert!(obj.value_at(0).same(&Scalar::Int(0)));
}

#[test]
fn the_sink_gathers_rows_by_table_name() {
    let mut db = DatabaseJson::new(s("doc"));
    assert_eq!(db.table_count(), 0);
    let mut first = TableRecord::new();
    first.insert(path(&["x"]), Scalar::Int(1));
    let mut second = TableRecord::new();
    second.insert(path(&["x"]), Scalar::Int(2));
    assert_eq!(db.write(loc(vec![path(&["a"])], 0, 0), first), Ok(()));
    assert_eq!(db.write(loc(vec![path(&["a"])], 1, 0), second), Ok(()));
    assert_eq!(db.write(loc(vec![], 0, 0), TableRecord::new()), Ok(()));
    assert_eq!(db.table_count(), 2);
    assert_eq!(db.table_name(0), "a_lin_doc");
    assert_eq!(db.table_name(1), "doc");
    assert_eq!(db.rows(0).len(), 2);
    assert_eq!(db.rows(1).len(), 1);
    assert!(db.rows(0)[1].get("x").unwrap().same(&Scalar::Int(2)));
    assert!(db.rows(0)[1].get("id_a_lin_doc").unwrap().same(&Scalar::Int(1)));
    assert_eq!(db.close(), Ok(()));
    assert_eq!(db.table_count(), 2);
}
