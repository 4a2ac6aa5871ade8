//! What the handler does over a whole sequence of tokens: the rows that come
//! out, and what holds of their keys.
use crate::lists::{has_slot, lemma_push_slot, lemma_put, lemma_update_slot, lookup, slot_of};
use crate::parser::models::{
    parent_path, JsonPathView, RecordView, TableLocationView, TablePathView,
};
use crate::parser::{fresh_scope, initial_tree, EventView, ScopeView, TreeView};
use vstd::prelude::*;

verus! {

/// A row as it leaves the handler.
pub type Row = (TableLocationView, RecordView);

/// The number of rows that the scope at `path` has completed; none for a
/// path without a scope.
pub open spec fn completed(tree: TreeView, path: TablePathView) -> i32 {
    match lookup(tree.scopes, path) {
        Some(scope) => scope.object_id,
        None => 0,
    }
}

/// The tree after the tokens, in their order.
pub open spec fn run(tree: TreeView, events: Seq<EventView>) -> TreeView
    decreases events.len(),
{
    if events.len() == 0 {
        tree
    } else {
        run(tree, events.drop_last()).step(events.last())
    }
}

/// The rows that the tokens complete, in the order of their completion.
pub open spec fn rows(tree: TreeView, events: Seq<EventView>) -> Seq<Row>
    decreases events.len(),
{
    if events.len() == 0 {
        Seq::empty()
    } else {
        match run(tree, events.drop_last()).output(events.last()) {
            Some(row) => rows(tree, events.drop_last()).push(row),
            None => rows(tree, events.drop_last()),
        }
    }
}

/// Every token can be handled when its turn comes.
pub open spec fn accepted(tree: TreeView, events: Seq<EventView>) -> bool
    decreases events.len(),
{
    events.len() == 0 || (accepted(tree, events.drop_last()) && run(
        tree,
        events.drop_last(),
    ).accepts(events.last()))
}

/// The key of the enclosing row that a row completed in the scope at `path`
/// refers to.
pub open spec fn parent_key_at(tree: TreeView, path: TablePathView) -> i32 {
    if path.len() > 0 && completed(tree, path.drop_last()) > 0 {
        (completed(tree, path.drop_last()) - 1) as i32
    } else {
        0
    }
}

/// Replacing the current scope by a well-formed one keeps the tree well
/// formed and changes the scope at the current path alone.
pub proof fn lemma_with_current(tree: TreeView, scope: ScopeView)
    requires
        tree.wf(),
        scope.wf(),
    ensures
        tree.with_current(scope).wf(),
        lookup(tree.with_current(scope).scopes, tree.current) == Some(scope),
        tree.with_current(scope).current_scope() == scope,
        forall|p: TablePathView|
            p != tree.current ==> lookup(tree.with_current(scope).scopes, p) == lookup(
                tree.scopes,
                p,
            ),
{
    let after = tree.with_current(scope);
    let at = slot_of(tree.scopes, tree.current);
    assert(tree.scopes[at].0 == tree.current);
    lemma_update_slot(tree.scopes, at, scope);
    assert forall|i: int| 0 <= i < after.scopes.len() implies has_slot(
        after.scopes,
        parent_path((#[trigger] after.scopes[i]).0),
    ) && after.scopes[i].1.wf() by {
        assert(after.scopes[i].0 == tree.scopes[i].0);
        let q = slot_of(tree.scopes, parent_path(tree.scopes[i].0));
        assert(after.scopes[q].0 == tree.scopes[q].0);
        if i != at {
            assert(after.scopes[i] == tree.scopes[i]);
        }
    }
    let root = slot_of(tree.scopes, Seq::<JsonPathView>::empty());
    assert(after.scopes[root].0 == tree.scopes[root].0);
    assert(after.scopes[at].0 == tree.current);
}

/// Entering an array keeps the tree well formed, keeps every scope that
/// exists, and gives a new scope a fresh state.
pub proof fn lemma_descend(tree: TreeView, key: JsonPathView)
    requires
        tree.wf(),
    ensures
        tree.descend(key).wf(),
        forall|p: TablePathView| #[trigger]
            completed(tree.descend(key), p) == completed(tree, p),
{
    let after = tree.descend(key);
    let target = tree.current.push(key);
    assert(parent_path(target) =~= tree.current);
    if has_slot(tree.scopes, target) {
        assert(after.scopes == tree.scopes);
    } else {
        lemma_push_slot(tree.scopes, target, fresh_scope());
        assert forall|i: int| 0 <= i < after.scopes.len() implies has_slot(
            after.scopes,
            parent_path((#[trigger] after.scopes[i]).0),
        ) && after.scopes[i].1.wf() by {
            if i < tree.scopes.len() {
                assert(after.scopes[i] == tree.scopes[i]);
                let q = slot_of(tree.scopes, parent_path(tree.scopes[i].0));
                assert(after.scopes[q] == tree.scopes[q]);
            } else {
                let q = slot_of(tree.scopes, tree.current);
                assert(after.scopes[q] == tree.scopes[q]);
            }
        }
        let root = slot_of(tree.scopes, Seq::<JsonPathView>::empty());
        assert(after.scopes[root] == tree.scopes[root]);
        assert(after.scopes[tree.scopes.len() as int].0 == target);
        assert forall|p: TablePathView| #[trigger] completed(after, p) == completed(tree, p) by {
            if p != target {
                assert(lookup(after.scopes, p) == lookup(tree.scopes, p));
            }
        }
    }
}

/// Leaving an array keeps the tree well formed and every scope as it is.
pub proof fn lemma_ascend(tree: TreeView)
    requires
        tree.wf(),
    ensures
        tree.ascend().wf(),
{
    let at = slot_of(tree.scopes, tree.current);
    assert(tree.scopes[at].0 == tree.current);
    assert(has_slot(tree.scopes, parent_path(tree.scopes[at].0)));
}

/// The token's own effect keeps the tree well formed and the number of rows
/// that every scope has completed.
pub proof fn lemma_settled(tree: TreeView, event: EventView)
    requires
        tree.wf(),
        tree.accepts(event),
    ensures
        tree.settled(event).wf(),
        forall|p: TablePathView| #[trigger]
            completed(tree.settled(event), p) == completed(tree, p),
{
    let at = slot_of(tree.scopes, tree.current);
    assert(tree.scopes[at].0 == tree.current);
    let current = tree.current_scope();
    assert(current.wf());
    let after = tree.settled(event);
    match event {
        EventView::Value(v) => {
            lemma_put(current.rec, current.path, v);
            lemma_with_current(tree, current.with_value(v));
        },
        EventView::StartMap => {
            lemma_with_current(tree, current.with_map_started());
        },
        EventView::EndMap => {
            lemma_with_current(tree, current.with_map_ended());
        },
        EventView::MapKey(k) => {
            lemma_with_current(tree, current.with_map_key(k));
        },
        EventView::StartArray => {
            lemma_descend(tree, current.path);
        },
        EventView::EndArray => {
            lemma_ascend(tree);
        },
    }
    assert forall|p: TablePathView| #[trigger] completed(after, p) == completed(tree, p) by {
        if !(event is StartArray) && !(event is EndArray) {
            if p != tree.current {
                assert(lookup(after.scopes, p) == lookup(tree.scopes, p));
            } else {
                assert(lookup(tree.scopes, p) == Some(current));
            }
        }
    }
}

/// What one token does to the keys. A row that the token completes gets the
/// number of rows that its scope had completed, and refers to the row that
/// the enclosing scope completed last; its scope has then completed one row
/// more. Every other scope has completed as many rows as before.
pub proof fn lemma_step(tree: TreeView, event: EventView)
    requires
        tree.wf(),
        tree.accepts(event),
    ensures
        tree.step(event).wf(),
        tree.output(event) is None ==> forall|p: TablePathView| #[trigger]
            completed(tree.step(event), p) == completed(tree, p),
        tree.output(event) matches Some(row) ==> {
            &&& row.0.object_id == completed(tree, row.0.table_path)
            &&& row.0.object_id < i32::MAX
            &&& row.0.parent_object_id == parent_key_at(tree, row.0.table_path)
            &&& completed(tree.step(event), row.0.table_path) == row.0.object_id + 1
            &&& forall|p: TablePathView|
                p != row.0.table_path ==> #[trigger] completed(tree.step(event), p) == completed(
                    tree,
                    p,
                )
        },
{
    lemma_settled(tree, event);
    let settled = tree.settled(event);
    if event.tries_emit() {
        let at = slot_of(settled.scopes, settled.current);
        assert(settled.scopes[at].0 == settled.current);
        let current = settled.current_scope();
        assert(current.wf());
        lemma_with_current(settled, current.after_pop());
        let after = settled.after_emit();
        assert(lookup(settled.scopes, settled.current) == Some(current));
        assert(completed(settled, settled.current) == completed(tree, settled.current));
        if settled.current.len() > 0 {
            let up = settled.current.drop_last();
            assert(has_slot(settled.scopes, parent_path(settled.scopes[at].0)));
            assert(completed(settled, up) == completed(tree, up));
        }
        assert forall|p: TablePathView| p != settled.current implies #[trigger] completed(
            after,
            p,
        ) == completed(tree, p) by {
            assert(lookup(after.scopes, p) == lookup(settled.scopes, p));
            assert(completed(settled, p) == completed(tree, p));
        }
        if !settled.emits() {
            assert(completed(after, settled.current) == completed(tree, settled.current));
        }
    }
}

/// Row number `i` belongs to the table at `path`.
pub open spec fn row_in(out: Seq<Row>, i: int, path: TablePathView) -> bool {
    0 <= i < out.len() && out[i].0.table_path == path
}

/// Row number `i` belongs to the table at `path` and has the key `key`.
pub open spec fn row_is(out: Seq<Row>, i: int, path: TablePathView, key: i32) -> bool {
    row_in(out, i, path) && out[i].0.object_id == key
}

/// Some row belongs to the table at `path` and has the key `key`.
pub open spec fn has_row(out: Seq<Row>, path: TablePathView, key: i32) -> bool {
    exists|i: int| #[trigger] row_is(out, i, path, key)
}

/// Row number `j` refers to the latest row before it that belongs to the
/// enclosing table, by that row's key; where it belongs to the root table,
/// or no row of the enclosing table came before it, it refers to key 0.
pub open spec fn refers_back(out: Seq<Row>, j: int) -> bool {
    let up = parent_path(out[j].0.table_path);
    if out[j].0.table_path.len() > 0 && exists|i: int| i < j && row_in(out, i, up) {
        exists|i: int| i < j && row_is(out, i, up, out[j].0.parent_object_id)
    } else {
        out[j].0.parent_object_id == 0
    }
}

/// What holds of the rows that came out so far and the tree that they came
/// from: the rows of a table carry the keys 0, 1, 2, ... in the order of
/// their completion, as many as the table's scope has completed, and every
/// row refers back to a row of the enclosing table.
pub open spec fn keys_in_order(tree: TreeView, out: Seq<Row>) -> bool {
    &&& forall|i: int|
        0 <= i < out.len() ==> 0 <= (#[trigger] out[i]).0.object_id < completed(
            tree,
            out[i].0.table_path,
        )
    &&& forall|i: int, j: int|
        0 <= i < j < out.len() && (#[trigger] out[i]).0.table_path == (
        #[trigger] out[j]).0.table_path ==> out[i].0.object_id < out[j].0.object_id
    &&& forall|p: TablePathView, k: i32|
        0 <= k < completed(tree, p) ==> #[trigger] has_row(out, p, k)
    &&& forall|j: int| 0 <= j < out.len() ==> #[trigger] refers_back(out, j)
}

/// The tree before any token is well formed, and no scope of it has
/// completed a row.
pub proof fn lemma_initial_tree()
    ensures
        initial_tree().wf(),
        forall|p: TablePathView| #[trigger] completed(initial_tree(), p) == 0,
{
    let tree = initial_tree();
    assert(tree.scopes[0].0 == Seq::<JsonPathView>::empty());
    assert(parent_path(tree.scopes[0].0) == tree.scopes[0].0);
    assert forall|p: TablePathView| #[trigger] completed(tree, p) == 0 by {
        if has_slot(tree.scopes, p) {
            assert(slot_of(tree.scopes, p) == 0);
        }
    }
}

/// One token keeps the rows' keys in order.
pub proof fn lemma_step_keeps_order(tree: TreeView, out: Seq<Row>, event: EventView)
    requires
        tree.wf(),
        tree.accepts(event),
        keys_in_order(tree, out),
    ensures
        tree.step(event).wf(),
        keys_in_order(
            tree.step(event),
            match tree.output(event) {
                Some(row) => out.push(row),
                None => out,
            },
        ),
{
    lemma_step(tree, event);
    let after = tree.step(event);
    match tree.output(event) {
        None => {
            assert forall|p: TablePathView, k: i32|
                0 <= k < completed(after, p) implies #[trigger] has_row(out, p, k) by {
                assert(completed(after, p) == completed(tree, p));
            }
            assert forall|i: int| 0 <= i < out.len() implies 0 <= (#[trigger] out[i]).0.object_id
                < completed(after, out[i].0.table_path) by {
                assert(completed(after, out[i].0.table_path) == completed(
                    tree,
                    out[i].0.table_path,
                ));
            }
        },
        Some(row) => {
            let later = out.push(row);
            let n = out.len() as int;
            let path = row.0.table_path;
            let key = row.0.object_id;
            assert(0 <= key) by {
                if has_slot(tree.scopes, path) {
                    let at = slot_of(tree.scopes, path);
                    assert(tree.scopes[at].1.wf());
                }
            }
            assert forall|i: int| 0 <= i < later.len() implies 0 <= (
            #[trigger] later[i]).0.object_id < completed(after, later[i].0.table_path) by {
                if i < n {
                    assert(later[i] == out[i]);
                    if out[i].0.table_path != path {
                        assert(completed(after, out[i].0.table_path) == completed(
                            tree,
                            out[i].0.table_path,
                        ));
                    }
                }
            }
            assert forall|i: int, j: int|
                0 <= i < j < later.len() && (#[trigger] later[i]).0.table_path == (
                #[trigger] later[j]).0.table_path implies later[i].0.object_id
                < later[j].0.object_id by {
                assert(later[i] == out[i]);
                if j < n {
                    assert(later[j] == out[j]);
                }
            }
            assert forall|p: TablePathView, k: i32|
                0 <= k < completed(after, p) implies #[trigger] has_row(later, p, k) by {
                if p == path && k == key {
                    assert(row_is(later, n, p, k));
                } else {
                    if p != path {
                        assert(completed(after, p) == completed(tree, p));
                    }
                    assert(has_row(out, p, k));
                    let i = choose|i: int| #[trigger] row_is(out, i, p, k);
                    assert(later[i] == out[i]);
                    assert(row_is(later, i, p, k));
                }
            }
            assert forall|j: int| 0 <= j < later.len() implies #[trigger] refers_back(
                later,
                j,
            ) by {
                let up = parent_path(later[j].0.table_path);
                if j < n {
                    assert(refers_back(out, j));
                    assert(later[j] == out[j]);
                    assert forall|i: int| i < j implies row_in(later, i, up) == row_in(
                        out,
                        i,
                        up,
                    ) by {
                        if 0 <= i {
                            assert(later[i] == out[i]);
                        }
                    }
                    if out[j].0.table_path.len() > 0 && exists|i: int| i < j && row_in(out, i, up) {
                        let i = choose|i: int|
                            i < j && row_is(out, i, up, out[j].0.parent_object_id);
                        assert(later[i] == out[i]);
                        assert(i < j && row_is(later, i, up, later[j].0.parent_object_id));
                        let w = choose|i: int| i < j && row_in(out, i, up);
                        assert(w < j && row_in(later, w, up));
                    }
                } else {
                    if path.len() > 0 && completed(tree, up) > 0 {
                        let k = (completed(tree, up) - 1) as i32;
                        assert(has_row(out, up, k));
                        let i = choose|i: int| #[trigger] row_is(out, i, up, k);
                        assert(later[i] == out[i]);
                        assert(i < j && row_is(later, i, up, k));
                        assert(i < j && row_in(later, i, up));
                    } else if path.len() > 0 {
                        if exists|i: int| i < j && row_in(later, i, up) {
                            let i = choose|i: int| i < j && row_in(later, i, up);
                            assert(later[i] == out[i]);
                            assert(out[i].0.object_id < completed(tree, out[i].0.table_path));
                        }
                    }
                }
            }
        },
    }
}

/// The rows of a document carry their keys in order: see `keys_in_order`.
pub proof fn lemma_run_keeps_order(events: Seq<EventView>)
    requires
        accepted(initial_tree(), events),
    ensures
        run(initial_tree(), events).wf(),
        keys_in_order(run(initial_tree(), events), rows(initial_tree(), events)),
    decreases events.len(),
{
    lemma_initial_tree();
    if events.len() > 0 {
        lemma_run_keeps_order(events.drop_last());
        lemma_step_keeps_order(
            run(initial_tree(), events.drop_last()),
            rows(initial_tree(), events.drop_last()),
            events.last(),
        );
    }
}

/// Within one document, no two rows of a table have the same key.
pub proof fn lemma_document_keys_unique(events: Seq<EventView>, i: int, j: int)
    requires
        accepted(initial_tree(), events),
        0 <= i < rows(initial_tree(), events).len(),
        0 <= j < rows(initial_tree(), events).len(),
        i != j,
        rows(initial_tree(), events)[i].0.table_path
            == rows(initial_tree(), events)[j].0.table_path,
    ensures
        rows(initial_tree(), events)[i].0.object_id != rows(initial_tree(), events)[j].0.object_id,
{
    lemma_run_keeps_order(events);
}

/// Within one document, the keys of a table's rows are 0, 1, 2, ... in the
/// order of the rows: a row with key `n` comes after rows of its table with
/// each of the keys below `n`.
pub proof fn lemma_document_keys_dense(events: Seq<EventView>, i: int, k: i32)
    requires
        accepted(initial_tree(), events),
        0 <= i < rows(initial_tree(), events).len(),
        0 <= k < rows(initial_tree(), events)[i].0.object_id,
    ensures
        0 <= rows(initial_tree(), events)[i].0.object_id,
        exists|j: int|
            j < i && row_is(
                rows(initial_tree(), events),
                j,
                rows(initial_tree(), events)[i].0.table_path,
                k,
            ),
{
    lemma_run_keeps_order(events);
    let out = rows(initial_tree(), events);
    let path = out[i].0.table_path;
    assert(has_row(out, path, k));
    let j = choose|j: int| #[trigger] row_is(out, j, path, k);
    assert(row_is(out, j, path, k));
    if j > i {
        assert(out[i].0.object_id < out[j].0.object_id);
    }
}

/// Within one document, a row of a nested table refers to a row that came
/// before it: the latest row of the enclosing table, by its key. Where no
/// row of the enclosing table came before it, and in the root table, the
/// reference is 0.
pub proof fn lemma_document_parent_key(events: Seq<EventView>, j: int)
    requires
        accepted(initial_tree(), events),
        0 <= j < rows(initial_tree(), events).len(),
    ensures
        refers_back(rows(initial_tree(), events), j),
{
    lemma_run_keeps_order(events);
}

/// How many objects are open in the row of the scope at `path`; none for a
/// path without a scope.
pub open spec fn depth(tree: TreeView, path: TablePathView) -> nat {
    match lookup(tree.scopes, path) {
        Some(scope) => scope.path.len(),
        None => 0,
    }
}

/// What one token does to the place of the handler: which scope is current
/// after it, how many objects are open in each scope, and whether a row
/// comes out.
pub proof fn lemma_step_places(tree: TreeView, event: EventView)
    requires
        tree.wf(),
        tree.accepts(event),
    ensures
        tree.step(event).current == match event {
            EventView::StartArray => tree.current.push(tree.current_scope().path),
            EventView::EndArray => parent_path(tree.current),
            _ => tree.current,
        },
        forall|p: TablePathView|
            p != tree.current ==> #[trigger] depth(tree.step(event), p) == depth(tree, p),
        depth(tree.step(event), tree.current) as int == match event {
            EventView::StartMap => depth(tree, tree.current) as int + 1,
            EventView::EndMap => if depth(tree, tree.current) > 0 {
                depth(tree, tree.current) as int - 1
            } else {
                0int
            },
            _ => depth(tree, tree.current) as int,
        },
        tree.output(event) is Some == (event.tries_emit() && depth(
            tree.step(event),
            tree.step(event).current,
        ) == 0),
        tree.output(event) matches Some(row) ==> row.0.table_path == tree.step(event).current,
{
    lemma_settled(tree, event);
    let at = slot_of(tree.scopes, tree.current);
    assert(tree.scopes[at].0 == tree.current);
    let current = tree.current_scope();
    assert(current.wf());
    assert(lookup(tree.scopes, tree.current) == Some(current));
    let settled = tree.settled(event);
    let after = tree.step(event);
    match event {
        EventView::Value(v) => {
            lemma_put(current.rec, current.path, v);
            lemma_with_current(tree, current.with_value(v));
        },
        EventView::StartMap => {
            lemma_with_current(tree, current.with_map_started());
        },
        EventView::EndMap => {
            lemma_with_current(tree, current.with_map_ended());
        },
        EventView::MapKey(k) => {
            lemma_with_current(tree, current.with_map_key(k));
        },
        EventView::StartArray => {
            let target = tree.current.push(current.path);
            if !has_slot(tree.scopes, target) {
                lemma_push_slot(tree.scopes, target, fresh_scope());
            }
            assert forall|p: TablePathView| #[trigger] depth(settled, p) == depth(tree, p) by {
                if p != target {
                    assert(lookup(settled.scopes, p) == lookup(tree.scopes, p));
                }
            }
        },
        EventView::EndArray => {},
    }
    if event.tries_emit() {
        let here = slot_of(settled.scopes, settled.current);
        assert(settled.scopes[here].0 == settled.current);
        let scope = settled.current_scope();
        assert(scope.wf());
        assert(lookup(settled.scopes, settled.current) == Some(scope));
        lemma_with_current(settled, scope.after_pop());
        assert forall|p: TablePathView| #[trigger] depth(after, p) == depth(settled, p) by {
            if p != settled.current {
                assert(lookup(after.scopes, p) == lookup(settled.scopes, p));
            }
        }
    }
    assert forall|p: TablePathView| p != tree.current implies #[trigger] depth(after, p) == depth(
        tree,
        p,
    ) by {
        if !(event is StartArray) && !(event is EndArray) {
            assert(lookup(settled.scopes, p) == lookup(tree.scopes, p));
        }
        assert(depth(after, p) == depth(settled, p));
    }
}

/// The token is in its place, as in a JSON document: the handler can take
/// it, the end of an object closes an object that is open, and the end of
/// an array closes an array in which no object is open.
pub open spec fn in_place(tree: TreeView, event: EventView) -> bool {
    &&& tree.accepts(event)
    &&& event is EndMap ==> depth(tree, tree.current) > 0
    &&& event is EndArray ==> tree.current.len() > 0 && depth(tree, tree.current) == 0
}

/// Every token is in its place when its turn comes.
pub open spec fn all_in_place(tree: TreeView, events: Seq<EventView>) -> bool
    decreases events.len(),
{
    events.len() == 0 || (all_in_place(tree, events.drop_last()) && in_place(
        run(tree, events.drop_last()),
        events.last(),
    ))
}

/// The tokens make up a document that is complete: there is a token, every
/// token is in its place, and after the last one no array and no object is
/// open.
pub open spec fn complete_document(events: Seq<EventView>) -> bool {
    &&& events.len() > 0
    &&& all_in_place(initial_tree(), events)
    &&& run(initial_tree(), events).current.len() == 0
    &&& depth(run(initial_tree(), events), Seq::empty()) == 0
}

/// Tokens that are in their places are tokens that the handler takes.
pub proof fn lemma_in_place_is_accepted(tree: TreeView, events: Seq<EventView>)
    requires
        all_in_place(tree, events),
    ensures
        accepted(tree, events),
    decreases events.len(),
{
    if events.len() > 0 {
        lemma_in_place_is_accepted(tree, events.drop_last());
    }
}

/// The scope at `path` has a row in the making: the handler is inside an
/// array of that row, or in that scope with an object open.
pub open spec fn awaited(tree: TreeView, path: TablePathView) -> bool {
    ||| path.len() < tree.current.len() && tree.current.take(path.len() as int) == path
    ||| path == tree.current && depth(tree, path) > 0
}

/// Every row that came out refers to a row that the enclosing scope has
/// completed, or to the first row of an enclosing scope that has this row
/// in the making.
pub open spec fn references_kept(tree: TreeView, out: Seq<Row>) -> bool {
    forall|j: int|
        0 <= j < out.len() ==> 0 <= (#[trigger] out[j]).0.parent_object_id && (
        out[j].0.parent_object_id < completed(tree, parent_path(out[j].0.table_path)) || (
        out[j].0.parent_object_id == 0 && awaited(tree, parent_path(out[j].0.table_path))))
}

/// One token that is in its place keeps the references.
pub proof fn lemma_step_keeps_references(tree: TreeView, out: Seq<Row>, event: EventView)
    requires
        tree.wf(),
        in_place(tree, event),
        references_kept(tree, out),
    ensures
        references_kept(
            tree.step(event),
            match tree.output(event) {
                Some(row) => out.push(row),
                None => out,
            },
        ),
{
    lemma_step(tree, event);
    lemma_step_places(tree, event);
    let after = tree.step(event);
    let later = match tree.output(event) {
        Some(row) => out.push(row),
        None => out,
    };
    assert forall|p: TablePathView| completed(tree, p) <= #[trigger] completed(after, p) by {
        match tree.output(event) {
            Some(row) => {
                if p != row.0.table_path {
                    assert(completed(after, p) == completed(tree, p));
                }
            },
            None => {
                assert(completed(after, p) == completed(tree, p));
            },
        }
    }
    assert forall|j: int| 0 <= j < later.len() implies 0 <= (
    #[trigger] later[j]).0.parent_object_id && (later[j].0.parent_object_id < completed(
        after,
        parent_path(later[j].0.table_path),
    ) || (later[j].0.parent_object_id == 0 && awaited(
        after,
        parent_path(later[j].0.table_path),
    ))) by {
        let up = parent_path(later[j].0.table_path);
        let key = later[j].0.parent_object_id;
        if j < out.len() {
            assert(later[j] == out[j]);
            assert(completed(tree, up) <= completed(after, up));
            if !(key < completed(tree, up)) {
                assert(awaited(tree, up));
                if up.len() < tree.current.len() && tree.current.take(up.len() as int) == up {
                    match event {
                        EventView::StartArray => {
                            assert(after.current.take(up.len() as int) =~= up);
                        },
                        EventView::EndArray => {
                            if up.len() < after.current.len() {
                                assert(after.current.take(up.len() as int) =~= up);
                            } else {
                                assert(after.current =~= up);
                                if tree.output(event) is Some {
                                    assert(completed(after, up) == completed(tree, up) + 1);
                                } else {
                                    assert(up != tree.current);
                                    assert(depth(after, up) > 0);
                                }
                            }
                        },
                        _ => {},
                    }
                } else {
                    match event {
                        EventView::StartArray => {
                            assert(after.current.take(up.len() as int) =~= up);
                        },
                        EventView::EndMap => {
                            if tree.output(event) is Some {
                                assert(completed(after, up) == completed(tree, up) + 1);
                            }
                        },
                        _ => {},
                    }
                }
            }
        } else {
            let row = tree.output(event)->0;
            assert(later[j] == row);
            let path = row.0.table_path;
            assert(key == parent_key_at(tree, path));
            if path.len() == 0 {
                assert(completed(after, up) == row.0.object_id + 1);
                assert(0 <= row.0.object_id) by {
                    if has_slot(tree.scopes, path) {
                        assert(tree.scopes[slot_of(tree.scopes, path)].1.wf());
                    }
                }
            } else {
                assert(up == path.drop_last());
                assert(completed(after, up) == completed(tree, up));
                if !(completed(tree, up) > 0) {
                    assert(after.current.take(up.len() as int) =~= up);
                }
            }
        }
    }
}

/// The rows of tokens that are in their places keep their references.
pub proof fn lemma_run_keeps_references(events: Seq<EventView>)
    requires
        all_in_place(initial_tree(), events),
    ensures
        references_kept(run(initial_tree(), events), rows(initial_tree(), events)),
    decreases events.len(),
{
    if events.len() > 0 {
        lemma_run_keeps_references(events.drop_last());
        lemma_in_place_is_accepted(initial_tree(), events.drop_last());
        lemma_run_keeps_order(events.drop_last());
        lemma_step_keeps_references(
            run(initial_tree(), events.drop_last()),
            rows(initial_tree(), events.drop_last()),
            events.last(),
        );
    }
}

/// In a complete document every reference names a row: a row refers to a
/// row of the enclosing table of the same document by that row's key, and a
/// row of the root table refers to the first row of the root table.
pub proof fn lemma_document_references_named(events: Seq<EventView>, j: int)
    requires
        complete_document(events),
        0 <= j < rows(initial_tree(), events).len(),
    ensures
        has_row(
            rows(initial_tree(), events),
            parent_path(rows(initial_tree(), events)[j].0.table_path),
            rows(initial_tree(), events)[j].0.parent_object_id,
        ),
{
    lemma_in_place_is_accepted(initial_tree(), events);
    lemma_run_keeps_order(events);
    lemma_run_keeps_references(events);
    let tree = run(initial_tree(), events);
    let out = rows(initial_tree(), events);
    let up = parent_path(out[j].0.table_path);
    assert(!awaited(tree, up)) by {
        if up == tree.current {
            assert(up =~= Seq::<JsonPathView>::empty());
        }
    }
}

} // verus!
