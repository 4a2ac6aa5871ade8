use json_to_tables::parser::models::TableLocation;
use json_to_tables::read::IdRemapper;

fn path(keys: &[&str]) -> Vec<String> {
    keys.iter().map(|k| k.to_string()).collect()
}

fn loc(table_path: Vec<Vec<String>>, object_id: i32, parent_object_id: i32) -> TableLocation {
    TableLocation { table_path, object_id, parent_object_id }
}

#[test]
fn sessions_get_fresh_numbers() {
    let mut remapper = IdRemapper::new();
    let a = remapper.start_remapper();
    let b = remapper.start_remapper();
    assert_ne!(a, b);
    assert!(remapper.has_session(a));
    assert!(remapper.has_session(b));
    remapper.finish_remapper(a);
    assert!(!remapper.has_session(a));
    let c = remapper.start_remapper();
    assert_ne!(c, b);
    assert_ne!(c, a);
    assert!(remapper.has_session(b));
}

#[test]
fn finishing_an_unknown_session_changes_nothing() {
    let mut remapper = IdRemapper::new();
    let a = remapper.start_remapper();
    remapper.finish_remapper(a + 5);
    assert!(remapper.has_session(a));
}

#[test]
fn the_first_key_of_a_table_is_zero_and_keys_count_up() {
    let mut remapper = IdRemapper::new();
    let s = remapper.start_remapper();
    let t = vec![path(&["a"])];
    assert_eq!(remapper.next_id(&t), 0);
    assert_eq!(remapper.find_obj_id(s, &t, 7), 0);
    assert_eq!(remapper.find_obj_id(s, &t, 3), 1);
    assert_eq!(remapper.find_obj_id(s, &t, 9), 2);
    assert_eq!(remapper.next_id(&t), 3);
}

#[test]
fn a_local_key_keeps_its_global_key_within_a_session() {
    let mut remapper = IdRemapper::new();
    let s = remapper.start_remapper();
    let t = vec![path(&["a"])];
    assert_eq!(remapper.find_obj_id(s, &t, 7), 0);
    assert_eq!(remapper.find_obj_id(s, &t, 8), 1);
    assert_eq!(remapper.find_obj_id(s, &t, 7), 0);
    assert_eq!(remapper.translated(s, &t, 7), Some(0));
    assert_eq!(remapper.translated(s, &t, 8), Some(1));
    assert_eq!(remapper.translated(s, &t, 9), None);
    assert_eq!(remapper.next_id(&t), 2);
}

#[test]
fn tables_count_separately() {
    let mut remapper = IdRemapper::new();
    let s = remapper.start_remapper();
    let a = vec![path(&["a"])];
    let b = vec![path(&["b"])];
    assert_eq!(remapper.find_obj_id(s, &a, 0), 0);
    assert_eq!(remapper.find_obj_id(s, &a, 1), 1);
    assert_eq!(remapper.find_obj_id(s, &b, 0), 0);
    assert_eq!(remapper.next_id(&a), 2);
    assert_eq!(remapper.next_id(&b), 1);
}

#[test]
fn a_later_session_goes_on_where_the_earlier_one_stopped() {
    let mut remapper = IdRemapper::new();
    let t = vec![path(&["a"])];
    let first = remapper.start_remapper();
    assert_eq!(remapper.find_obj_id(first, &t, 0), 0);
    assert_eq!(remapper.find_obj_id(first, &t, 1), 1);
    remapper.finish_remapper(first);
    let second = remapper.start_remapper();
    assert_eq!(remapper.translated(second, &t, 0), None);
    assert_eq!(remapper.find_obj_id(second, &t, 0), 2);
    assert_eq!(remapper.find_obj_id(second, &t, 1), 3);
}

#[test]
fn two_open_sessions_share_the_counters_and_not_the_translations() {
    let mut remapper = IdRemapper::new();
    let t = vec![path(&["a"])];
    let first = remapper.start_remapper();
    let second = remapper.start_remapper();
    assert_eq!(remapper.find_obj_id(first, &t, 0), 0);
    assert_eq!(remapper.find_obj_id(second, &t, 0), 1);
    assert_eq!(remapper.find_obj_id(first, &t, 1), 2);
    assert_eq!(remapper.find_obj_id(second, &t, 0), 1);
    assert_eq!(remapper.find_obj_id(first, &t, 0), 0);
}

#[test]
fn remap_translates_the_key_in_its_table_and_the_reference_in_the_enclosing_one() {
    let mut remapper = IdRemapper::new();
    let s = remapper.start_remapper();
    let root: Vec<Vec<String>> = vec![];
    let child = vec![path(&["a"])];
    assert_eq!(remapper.find_obj_id(s, &root, 10), 0);
    assert_eq!(remapper.find_obj_id(s, &root, 11), 1);
    let out = remapper.remap_ids(s, loc(child.clone(), 5, 11));
    assert_eq!(out.table_path, child);
    assert_eq!(out.object_id, 0);
    assert_eq!(out.parent_object_id, 1);
}

#[test]
fn a_reference_seen_first_gets_the_key_that_its_row_gets_later() {
    let mut remapper = IdRemapper::new();
    let s = remapper.start_remapper();
    let child = vec![path(&["a"])];
    let out = remapper.remap_ids(s, loc(child, 0, 4));
    assert_eq!(out.parent_object_id, 0);
    let parent = remapper.remap_ids(s, loc(vec![], 4, 0));
    assert_eq!(parent.object_id, 0);
    assert_eq!(parent.parent_object_id, 1);
}

#[test]
fn in_the_root_table_the_reference_is_remapped_in_the_root_table() {
    let mut remapper = IdRemapper::new();
    let s = remapper.start_remapper();
    let out = remapper.remap_ids(s, loc(vec![], 7, 0));
    assert_eq!(out.object_id, 0);
    assert_eq!(out.parent_object_id, 1);
    let again = remapper.remap_ids(s, loc(vec![], 0, 7));
    assert_eq!(again.object_id, 1);
    assert_eq!(again.parent_object_id, 0);
}

#[test]
fn can_remap_needs_an_open_session() {
    let mut remapper = IdRemapper::new();
    let s = remapper.start_remapper();
    let here = loc(vec![path(&["a"])], 0, 0);
    assert!(remapper.can_remap(s, &here));
    assert!(!remapper.can_remap(s + 1, &here));
    remapper.finish_remapper(s);
    assert!(!remapper.can_remap(s, &here));
}

#[test]
fn a_new_remapper_has_a_session_number_left() {
    let remapper = IdRemapper::new();
    assert!(remapper.has_next_session());
    assert!(!remapper.has_session(0));
}
