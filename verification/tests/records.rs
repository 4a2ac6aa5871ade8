use json_to_tables::parser::models::{
    clone_json_path, clone_table_path, json_path_eq, table_path_eq, Scalar, TableLocation,
    TableRecord,
};

fn path(keys: &[&str]) -> Vec<String> {
    keys.iter().map(|k| k.to_string()).collect()
}

#[test]
fn paths_are_equal_by_their_keys() {
    assert!(json_path_eq(&path(&["a", "b"]), &path(&["a", "b"])));
    assert!(!json_path_eq(&path(&["a", "b"]), &path(&["a"])));
    assert!(!json_path_eq(&path(&["a", "b"]), &path(&["a", "c"])));
    assert!(json_path_eq(&path(&[]), &path(&[])));
}

#[test]
fn table_paths_are_equal_by_their_paths() {
    let a = vec![path(&["a"]), path(&[])];
    let b = vec![path(&["a"]), path(&[])];
    let c = vec![path(&["a"])];
    assert!(table_path_eq(&a, &b));
    assert!(!table_path_eq(&a, &c));
    assert!(!table_path_eq(&vec![path(&[])], &vec![]));
}

#[test]
fn clones_of_paths_are_equal_to_them() {
    let p = path(&["x", "", "y"]);
    assert_eq!(clone_json_path(&p), p);
    let t = vec![path(&["a"]), path(&["b", "c"])];
    assert_eq!(clone_table_path(&t), t);
}

#[test]
fn parent_table_path_drops_the_last_path() {
    let loc = TableLocation {
        table_path: vec![path(&["a"]), path(&["b"])],
        object_id: 3,
        parent_object_id: 1,
    };
    assert_eq!(loc.parent_table_path(), vec![path(&["a"])]);
}

#[test]
fn parent_table_path_of_the_root_is_the_root() {
    let loc = TableLocation { table_path: vec![], object_id: 0, parent_object_id: 0 };
    assert_eq!(loc.parent_table_path(), Vec::<Vec<String>>::new());
}

#[test]
fn scalar_kinds_are_told_apart() {
    assert!(Scalar::Null.is_null());
    assert!(Scalar::Bool(true).is_boolean());
    assert!(Scalar::Int(3).is_i64());
    assert!(Scalar::Float(String::from("1.5")).is_f64());
    assert!(!Scalar::Int(3).is_f64());
    assert!(!Scalar::Float(String::from("1.5")).is_i64());
    assert!(!Scalar::Str(String::from("1")).is_i64());
    assert!(!Scalar::Bool(false).is_null());
}

#[test]
fn scalars_are_the_same_by_kind_and_content() {
    assert!(Scalar::Int(3).same(&Scalar::Int(3)));
    assert!(!Scalar::Int(3).same(&Scalar::Int(4)));
    assert!(!Scalar::Int(1).same(&Scalar::Bool(true)));
    assert!(Scalar::Str(String::from("a")).same(&Scalar::Str(String::from("a"))));
    assert!(!Scalar::Str(String::from("1.5")).same(&Scalar::Float(String::from("1.5"))));
    assert!(Scalar::Null.same(&Scalar::Null));
    assert!(Scalar::Float(String::from("2.0")).clone().same(&Scalar::Float(String::from("2.0"))));
}

#[test]
fn a_new_record_is_empty() {
    let rec = TableRecord::new();
    assert_eq!(rec.len(), 0);
    assert!(rec.is_empty());
    assert!(rec.get(&path(&["a"])).is_none());
}

#[test]
fn insert_keeps_the_order_of_first_arrival() {
    let mut rec = TableRecord::new();
    assert!(rec.insert(path(&["b"]), Scalar::Int(1)).is_none());
    assert!(rec.insert(path(&["a"]), Scalar::Int(2)).is_none());
    assert_eq!(rec.len(), 2);
    assert_eq!(rec.key_at(0), &path(&["b"]));
    assert_eq!(rec.key_at(1), &path(&["a"]));
    assert!(rec.value_at(0).same(&Scalar::Int(1)));
    assert!(rec.value_at(1).same(&Scalar::Int(2)));
}

#[test]
fn insert_under_a_known_key_replaces_the_value_in_place() {
    let mut rec = TableRecord::new();
    rec.insert(path(&["b"]), Scalar::Int(1));
    rec.insert(path(&["a"]), Scalar::Int(2));
    let previous = rec.insert(path(&["b"]), Scalar::Str(String::from("new")));
    assert!(previous.unwrap().same(&Scalar::Int(1)));
    assert_eq!(rec.len(), 2);
    assert_eq!(rec.position(&path(&["b"])), Some(0));
    assert!(rec.get(&path(&["b"])).unwrap().same(&Scalar::Str(String::from("new"))));
    assert!(rec.get(&path(&["a"])).unwrap().same(&Scalar::Int(2)));
}

#[test]
fn contains_key_and_position_agree() {
    let mut rec = TableRecord::new();
    rec.insert(path(&[]), Scalar::Null);
    assert!(rec.contains_key(&path(&[])));
    assert!(!rec.contains_key(&path(&[""])));
    assert_eq!(rec.position(&path(&[""])), None);
}

#[test]
fn a_cloned_record_has_the_same_entries() {
    let mut rec = TableRecord::new();
    rec.insert(path(&["x"]), Scalar::Bool(true));
    rec.insert(path(&["y", "z"]), Scalar::Float(String::from("0.5")));
    let copy = rec.clone();
    assert_eq!(copy.len(), 2);
    assert_eq!(copy.key_at(1), &path(&["y", "z"]));
    assert!(copy.value_at(1).same(&Scalar::Float(String::from("0.5"))));
    assert!(copy.value_at(0).same(&Scalar::Bool(true)));
}
