use json_to_tables::parser::models::{Scalar, TableLocation, TableRecord};
use json_to_tables::parser::{Event, NestedObjectHandler, ObjectHandler, ObjectHandlerHashTree};

fn path(keys: &[&str]) -> Vec<String> {
    keys.iter().map(|k| k.to_string()).collect()
}

fn key(k: &str) -> Event {
    Event::MapKey(k.to_string())
}

fn num(i: i64) -> Event {
    Event::Value(Scalar::Int(i))
}

fn feed(events: Vec<Event>) -> Vec<(TableLocation, TableRecord)> {
    let mut handler = NestedObjectHandler::new();
    let mut rows = Vec::new();
    for event in events {
        assert!(handler.can_handle(&event));
        if let Some(row) = handler.handle(event) {
            rows.push(row);
        }
    }
    rows
}

#[test]
fn an_object_handler_starts_between_rows() {
    let handler = ObjectHandler::new();
    assert_eq!(handler.object_id(), 0);
    assert!(handler.is_complete());
    assert!(handler.path().is_empty());
}

#[test]
fn pop_hands_out_complete_rows_only() {
    let mut handler = ObjectHandler::new();
    handler.handle_start_map();
    assert!(!handler.is_complete());
    assert!(handler.pop().is_none());
    handler.handle_map_key("a");
    assert_eq!(handler.path(), &path(&["a"]));
    handler.handle_json_value(Scalar::Int(1));
    handler.handle_end_map();
    let (id, rec) = handler.pop().unwrap();
    assert_eq!(id, 0);
    assert_eq!(rec.len(), 1);
    assert!(rec.get(&path(&["a"])).unwrap().same(&Scalar::Int(1)));
    assert_eq!(handler.object_id(), 1);
    let (id, rec) = handler.pop().unwrap();
    assert_eq!(id, 1);
    assert!(rec.is_empty());
}

#[test]
fn end_map_outside_an_object_changes_nothing() {
    let mut handler = ObjectHandler::new();
    handler.handle_end_map();
    assert!(handler.is_complete());
    assert_eq!(handler.object_id(), 0);
}

#[test]
fn nested_objects_are_flattened_into_paths() {
    let rows = feed(vec![
        Event::StartMap,
        key("a"),
        Event::StartMap,
        key("b"),
        num(1),
        key("c"),
        Event::Value(Scalar::Null),
        Event::EndMap,
        key("d"),
        Event::Value(Scalar::Str("s".to_string())),
        Event::EndMap,
    ]);
    assert_eq!(rows.len(), 1);
    let (loc, rec) = &rows[0];
    assert!(loc.table_path.is_empty());
    assert_eq!(loc.object_id, 0);
    assert_eq!(loc.parent_object_id, 0);
    assert_eq!(rec.len(), 3);
    assert_eq!(rec.key_at(0), &path(&["a", "b"]));
    assert_eq!(rec.key_at(1), &path(&["a", "c"]));
    assert_eq!(rec.key_at(2), &path(&["d"]));
    assert!(rec.value_at(0).same(&Scalar::Int(1)));
    assert!(rec.value_at(1).same(&Scalar::Null));
}

#[test]
fn an_empty_object_is_one_row_without_columns() {
    let rows = feed(vec![Event::StartMap, Event::EndMap]);
    assert_eq!(rows.len(), 1);
    assert!(rows[0].0.table_path.is_empty());
    assert_eq!(rows[0].0.object_id, 0);
    assert_eq!(rows[0].0.parent_object_id, 0);
    assert!(rows[0].1.is_empty());
}

#[test]
fn a_scalar_document_is_one_row_with_the_anonymous_column() {
    let rows = feed(vec![num(5)]);
    assert_eq!(rows.len(), 1);
    assert!(rows[0].0.table_path.is_empty());
    assert_eq!(rows[0].1.len(), 1);
    assert_eq!(rows[0].1.key_at(0), &path(&[]));
}

#[test]
fn an_empty_array_completes_the_row_around_it() {
    let rows = feed(vec![Event::StartArray, Event::EndArray]);
    assert_eq!(rows.len(), 1);
    assert!(rows[0].0.table_path.is_empty());
    assert_eq!(rows[0].0.object_id, 0);
    assert!(rows[0].1.is_empty());
}

#[test]
fn scalars_in_an_array_are_rows_of_the_array() {
    let rows = feed(vec![Event::StartArray, num(1), num(2), num(3), Event::EndArray]);
    assert_eq!(rows.len(), 4);
    for (i, row) in rows.iter().take(3).enumerate() {
        assert_eq!(row.0.table_path, vec![path(&[])]);
        assert_eq!(row.0.object_id, i as i32);
        assert_eq!(row.0.parent_object_id, 0);
        assert_eq!(row.1.len(), 1);
        assert_eq!(row.1.key_at(0), &path(&[]));
        assert!(row.1.value_at(0).same(&Scalar::Int(i as i64 + 1)));
    }
    assert!(rows[3].0.table_path.is_empty());
    assert_eq!(rows[3].0.object_id, 0);
}

#[test]
fn rows_of_a_nested_array_come_before_the_row_around_them() {
    let rows = feed(vec![
        Event::StartMap,
        key("a"),
        Event::StartArray,
        Event::StartMap,
        key("x"),
        num(1),
        Event::EndMap,
        Event::StartMap,
        key("x"),
        num(2),
        Event::EndMap,
        Event::EndArray,
        Event::EndMap,
    ]);
    assert_eq!(rows.len(), 3);
    assert_eq!(rows[0].0.table_path, vec![path(&["a"])]);
    assert_eq!(rows[0].0.object_id, 0);
    assert_eq!(rows[0].0.parent_object_id, 0);
    assert!(rows[0].1.get(&path(&["x"])).unwrap().same(&Scalar::Int(1)));
    assert_eq!(rows[1].0.table_path, vec![path(&["a"])]);
    assert_eq!(rows[1].0.object_id, 1);
    assert_eq!(rows[1].0.parent_object_id, 0);
    assert!(rows[1].1.get(&path(&["x"])).unwrap().same(&Scalar::Int(2)));
    assert!(rows[2].0.table_path.is_empty());
    assert_eq!(rows[2].0.object_id, 0);
    assert_eq!(rows[2].0.parent_object_id, 0);
    assert!(rows[2].1.is_empty());
}

fn one_child(x: i64) -> Vec<Event> {
    vec![
        Event::StartMap,
        key("a"),
        Event::StartArray,
        Event::StartMap,
        key("x"),
        num(x),
        Event::EndMap,
        Event::EndArray,
        Event::EndMap,
    ]
}

#[test]
fn a_row_refers_to_the_row_that_the_enclosing_scope_completed_last() {
    let mut events = vec![Event::StartArray];
    events.extend(one_child(1));
    events.extend(one_child(2));
    events.extend(one_child(3));
    events.push(Event::EndArray);
    let rows = feed(events);
    let outer = vec![path(&[])];
    let inner = vec![path(&[]), path(&["a"])];
    let seen: Vec<(Vec<Vec<String>>, i32, i32)> = rows
        .iter()
        .map(|r| (r.0.table_path.clone(), r.0.object_id, r.0.parent_object_id))
        .collect();
    assert_eq!(
        seen,
        vec![
            (inner.clone(), 0, 0),
            (outer.clone(), 0, 0),
            (inner.clone(), 1, 0),
            (outer.clone(), 1, 0),
            (inner.clone(), 2, 1),
            (outer.clone(), 2, 0),
            (vec![], 0, 0),
        ]
    );
}

#[test]
fn an_array_met_again_at_the_same_place_goes_on_counting() {
    let rows = feed(vec![
        Event::StartArray,
        Event::StartMap,
        key("a"),
        Event::StartArray,
        num(1),
        num(2),
        Event::EndArray,
        Event::EndMap,
        Event::StartMap,
        key("a"),
        Event::StartArray,
        num(3),
        Event::EndArray,
        Event::EndMap,
        Event::EndArray,
    ]);
    let inner = vec![path(&[]), path(&["a"])];
    let keys: Vec<i32> =
        rows.iter().filter(|r| r.0.table_path == inner).map(|r| r.0.object_id).collect();
    assert_eq!(keys, vec![0, 1, 2]);
}

#[test]
fn a_repeated_key_keeps_its_place_and_takes_the_later_value() {
    let rows = feed(vec![
        Event::StartMap,
        key("a"),
        num(1),
        key("b"),
        num(2),
        key("a"),
        num(3),
        Event::EndMap,
    ]);
    let rec = &rows[0].1;
    assert_eq!(rec.len(), 2);
    assert_eq!(rec.key_at(0), &path(&["a"]));
    assert!(rec.value_at(0).same(&Scalar::Int(3)));
}

#[test]
fn a_key_outside_an_object_cannot_be_handled() {
    let handler = NestedObjectHandler::new();
    assert!(!handler.can_handle(&key("a")));
    assert!(handler.can_handle(&Event::StartMap));
    assert!(handler.can_handle(&Event::EndArray));
}

#[test]
fn the_handler_knows_where_it_is() {
    let mut handler = NestedObjectHandler::new();
    assert!(handler.at_list_or_document_root());
    assert!(handler.parent_handler().is_none());
    handler.handle_start_map();
    handler.handle_map_key("a");
    assert!(!handler.at_list_or_document_root());
    assert_eq!(handler.current_handler().path(), &path(&["a"]));
    handler.handle_start_array();
    assert!(handler.at_list_or_document_root());
    assert_eq!(handler.current_table_path(), &vec![path(&["a"])]);
    assert_eq!(handler.parent_handler().unwrap().path(), &path(&["a"]));
    assert!(handler.handle_json_value(Scalar::Bool(true)).is_some());
    assert_eq!(handler.current_handler().object_id(), 1);
    assert!(handler.handle_end_array().is_none());
    assert!(handler.current_table_path().is_empty());
    assert!(handler.handle_end_map().is_some());
}

#[test]
fn the_tree_walks_down_and_up() {
    let mut tree = ObjectHandlerHashTree::new();
    assert!(tree.full_path().is_empty());
    assert!(tree.parent().is_none());
    tree.go_down(&path(&["a"]));
    assert_eq!(tree.full_path(), &vec![path(&["a"])]);
    tree.current_mut().handle_start_map();
    assert!(!tree.current().is_complete());
    tree.go_down(&path(&["b"]));
    assert_eq!(tree.full_path(), &vec![path(&["a"]), path(&["b"])]);
    assert!(tree.current().is_complete());
    assert!(!tree.parent().unwrap().is_complete());
    tree.go_up();
    tree.go_up();
    assert!(tree.full_path().is_empty());
    tree.go_up();
    assert!(tree.full_path().is_empty());
    tree.go_down(&path(&["a"]));
    assert!(!tree.current().is_complete());
}
