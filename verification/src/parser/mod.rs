//! The handler that turns JSON tokens into table rows. Every array that is
//! open in the document is a scope with a row under construction and a
//! counter of the rows it has completed; the scopes form a tree that is kept
//! for the whole document, so that an array met again at the same place
//! goes on counting where it stopped.
use crate::lists::{
    has_slot, lemma_push_slot, lemma_slot_unique, lemma_update_slot, put, slot_of, slots_distinct,
    with_slot,
};
use crate::parser::models::{
    clone_json_path, clone_table_path, json_path_eq, parent_path, JsonPath, JsonPathView,
    RecordView, Scalar, ScalarView, TableLocation, TableLocationView, TablePath, TablePathView,
    TableRecord,
};
use vstd::prelude::*;
use vstd::string::StringExecFns;

pub mod models;
pub mod stream;

verus! {

/// What an `ObjectHandler` is in contracts: the state of one array scope.
pub struct ScopeView {
    /// The key that the next completed row gets: the number of rows
    /// completed so far.
    pub object_id: i32,
    /// The object keys from the row's root down to the place of the next
    /// value. Empty between rows.
    pub path: JsonPathView,
    /// The row under construction.
    pub rec: RecordView,
}

/// The state of a scope that has seen nothing.
pub open spec fn fresh_scope() -> ScopeView {
    ScopeView { object_id: 0, path: Seq::empty(), rec: Seq::empty() }
}

impl ScopeView {
    /// The scope's invariant.
    pub open spec fn wf(self) -> bool {
        0 <= self.object_id && slots_distinct(self.rec)
    }

    /// The row is complete: no object is open in it.
    pub open spec fn complete(self) -> bool {
        self.path.len() == 0
    }

    /// The scope after `value` was met at the current place.
    pub open spec fn with_value(self, value: ScalarView) -> ScopeView {
        ScopeView {
            object_id: self.object_id,
            path: self.path,
            rec: put(self.rec, self.path, value),
        }
    }

    /// The scope after an object was opened: its first key is not known yet.
    pub open spec fn with_map_started(self) -> ScopeView {
        ScopeView {
            object_id: self.object_id,
            path: self.path.push(Seq::empty()),
            rec: self.rec,
        }
    }

    /// The scope after the innermost open object met the key `key`.
    pub open spec fn with_map_key(self, key: Seq<char>) -> ScopeView {
        ScopeView {
            object_id: self.object_id,
            path: self.path.update(self.path.len() - 1, key),
            rec: self.rec,
        }
    }

    /// The scope after the innermost open object was closed.
    pub open spec fn with_map_ended(self) -> ScopeView {
        ScopeView {
            object_id: self.object_id,
            path: if self.path.len() > 0 {
                self.path.drop_last()
            } else {
                self.path
            },
            rec: self.rec,
        }
    }

    /// The scope after its complete row was handed out.
    pub open spec fn after_pop(self) -> ScopeView {
        if self.complete() {
            ScopeView { object_id: (self.object_id + 1) as i32, path: self.path, rec: Seq::empty() }
        } else {
            self
        }
    }
}

/// Builds the rows of one array scope.
#[derive(Debug)]
pub struct ObjectHandler {
    object_id: i32,
    path: JsonPath,
    rec: TableRecord,
}

impl View for ObjectHandler {
    type V = ScopeView;

    closed spec fn view(&self) -> ScopeView {
        ScopeView { object_id: self.object_id, path: self.path.deep_view(), rec: self.rec@ }
    }
}

impl ObjectHandler {
    /// The handler's invariant.
    pub open spec fn wf(&self) -> bool {
        self@.wf()
    }

    /// A handler that has seen nothing.
    pub fn new() -> (r: ObjectHandler)
        ensures
            r@ == fresh_scope(),
            r.wf(),
    {
        let r = ObjectHandler { object_id: 0, path: Vec::new(), rec: TableRecord::new() };
        assert(r@.path =~= Seq::empty());
        r
    }

    /// The key that the next completed row gets.
    pub fn object_id(&self) -> (r: i32)
        ensures
            r == self@.object_id,
    {
        self.object_id
    }

    /// The object keys from the row's root to the place of the next value.
    pub fn path(&self) -> (r: &JsonPath)
        ensures
            r.deep_view() == self@.path,
    {
        &self.path
    }

    /// Tells whether no object is open in the row.
    pub fn is_complete(&self) -> (r: bool)
        ensures
            r == self@.complete(),
    {
        self.path.len() == 0
    }

    /// Hands out the row if it is complete, with the key it gets, and starts
    /// the next row.
    pub fn pop(&mut self) -> (r: Option<(i32, TableRecord)>)
        requires
            old(self).wf(),
            old(self)@.complete() ==> old(self)@.object_id < i32::MAX,
        ensures
            final(self).wf(),
            final(self)@ == old(self)@.after_pop(),
            r is Some == old(self)@.complete(),
            r matches Some(out) ==> out.0 == old(self)@.object_id && out.1@ == old(self)@.rec,
    {
        if self.path.len() != 0 {
            return None;
        }
        let mut new_rec = TableRecord::new();
        std::mem::swap(&mut self.rec, &mut new_rec);
        let ret_value = Some((self.object_id, new_rec));
        self.object_id += 1;
        ret_value
    }

    /// Stores a value in the row, at the current place.
    pub fn handle_json_value(&mut self, val: Scalar)
        requires
            old(self).wf(),
        ensures
            final(self).wf(),
            final(self)@ == old(self)@.with_value(val@),
    {
        self.rec.insert(clone_json_path(&self.path), val);
    }

    /// Opens an object.
    pub fn handle_start_map(&mut self)
        requires
            old(self).wf(),
        ensures
            final(self).wf(),
            final(self)@ == old(self)@.with_map_started(),
    {
        self.path.push(String::new());
        assert(self@.path =~= old(self)@.path.push(Seq::empty()));
    }

    /// Closes the innermost open object.
    pub fn handle_end_map(&mut self)
        requires
            old(self).wf(),
        ensures
            final(self).wf(),
            final(self)@ == old(self)@.with_map_ended(),
    {
        self.path.pop();
        assert(self@.path =~= old(self)@.with_map_ended().path);
    }

    /// Sets the key of the innermost open object.
    pub fn handle_map_key(&mut self, key: &str)
        requires
            old(self).wf(),
            old(self)@.path.len() > 0,
        ensures
            final(self).wf(),
            final(self)@ == old(self)@.with_map_key(key@),
    {
        let last = self.path.len() - 1;
        self.path[last] = String::from_str(key);
        assert(self@.path =~= old(self)@.path.update(last as int, key@));
    }
}

/// What the tree of scopes is in contracts: the scopes met so far in the
/// document, each under its table path and in the order in which they were
/// first entered, and the table path of the scope that is current.
pub struct TreeView {
    pub scopes: Seq<(TablePathView, ScopeView)>,
    pub current: TablePathView,
}

impl TreeView {
    /// The tree's invariant: a table path has one scope, the root and the
    /// current scope exist, and the enclosing scope of every scope exists.
    pub open spec fn wf(self) -> bool {
        &&& slots_distinct(self.scopes)
        &&& has_slot(self.scopes, Seq::<JsonPathView>::empty())
        &&& has_slot(self.scopes, self.current)
        &&& forall|i: int|
            0 <= i < self.scopes.len() ==> has_slot(
                self.scopes,
                parent_path((#[trigger] self.scopes[i]).0),
            )
        &&& forall|i: int| 0 <= i < self.scopes.len() ==> (#[trigger] self.scopes[i]).1.wf()
    }

    /// The scope at a table path that has one.
    pub open spec fn scope(self, path: TablePathView) -> ScopeView {
        self.scopes[slot_of(self.scopes, path)].1
    }

    /// The scope that is current.
    pub open spec fn current_scope(self) -> ScopeView {
        self.scope(self.current)
    }

    /// The current scope is not the root.
    pub open spec fn has_parent(self) -> bool {
        self.current.len() > 0
    }

    /// The scope that encloses the current one.
    pub open spec fn parent_scope(self) -> ScopeView {
        self.scope(self.current.drop_last())
    }

    /// The tree with the current scope replaced.
    pub open spec fn with_current(self, scope: ScopeView) -> TreeView {
        TreeView {
            scopes: self.scopes.update(slot_of(self.scopes, self.current), (self.current, scope)),
            current: self.current,
        }
    }

    /// The tree after entering the array at `key` of the current row: its
    /// scope is created unless it was met before.
    pub open spec fn descend(self, key: JsonPathView) -> TreeView {
        TreeView {
            scopes: with_slot(self.scopes, self.current.push(key), fresh_scope()),
            current: self.current.push(key),
        }
    }

    /// The tree after leaving the current array. The root stays current.
    pub open spec fn ascend(self) -> TreeView {
        TreeView { scopes: self.scopes, current: parent_path(self.current) }
    }
}

/// One token of a JSON document. The five kinds of scalar tokens come as one
/// `Value`.
#[derive(Debug)]
pub enum Event {
    Value(Scalar),
    StartMap,
    EndMap,
    MapKey(String),
    StartArray,
    EndArray,
}

/// What an `Event` is in contracts.
pub enum EventView {
    Value(ScalarView),
    StartMap,
    EndMap,
    MapKey(Seq<char>),
    StartArray,
    EndArray,
}

impl View for Event {
    type V = EventView;

    open spec fn view(&self) -> EventView {
        match *self {
            Event::Value(v) => EventView::Value(v@),
            Event::StartMap => EventView::StartMap,
            Event::EndMap => EventView::EndMap,
            Event::MapKey(k) => EventView::MapKey(k@),
            Event::StartArray => EventView::StartArray,
            Event::EndArray => EventView::EndArray,
        }
    }
}

impl DeepView for Event {
    type V = EventView;

    open spec fn deep_view(&self) -> EventView {
        self@
    }
}

impl EventView {
    /// After this token the current row is handed out if it is complete.
    pub open spec fn tries_emit(self) -> bool {
        self is Value || self is EndMap || self is EndArray
    }
}

impl TreeView {
    /// The key of the enclosing row that a row completed now refers to: the
    /// key of the row that the enclosing scope completed last, and 0 where
    /// there is no enclosing scope or it has completed no row.
    pub open spec fn parent_key(self) -> i32 {
        if self.has_parent() && self.parent_scope().object_id > 0 {
            (self.parent_scope().object_id - 1) as i32
        } else {
            0
        }
    }

    /// The current row is complete, so that it is handed out when asked for.
    pub open spec fn emits(self) -> bool {
        self.current_scope().complete()
    }

    /// The location of the current row.
    pub open spec fn emitted_location(self) -> TableLocationView {
        TableLocationView {
            table_path: self.current,
            object_id: self.current_scope().object_id,
            parent_object_id: self.parent_key(),
        }
    }

    /// The tree after the current row was asked for.
    pub open spec fn after_emit(self) -> TreeView {
        self.with_current(self.current_scope().after_pop())
    }

    /// Handing out the current row, if it is complete, does not exhaust the
    /// scope's keys.
    pub open spec fn emit_fits(self) -> bool {
        self.emits() ==> self.current_scope().object_id < i32::MAX
    }

    /// The tree after the token's own effect, before any row is handed out.
    pub open spec fn settled(self, event: EventView) -> TreeView {
        match event {
            EventView::Value(v) => self.with_current(self.current_scope().with_value(v)),
            EventView::StartMap => self.with_current(self.current_scope().with_map_started()),
            EventView::EndMap => self.with_current(self.current_scope().with_map_ended()),
            EventView::MapKey(k) => self.with_current(self.current_scope().with_map_key(k)),
            EventView::StartArray => self.descend(self.current_scope().path),
            EventView::EndArray => self.ascend(),
        }
    }

    /// The token can be handled: a key comes inside an object only, and a
    /// row that the token completes still gets a key.
    pub open spec fn accepts(self, event: EventView) -> bool {
        &&& event is MapKey ==> self.current_scope().path.len() > 0
        &&& event.tries_emit() ==> self.settled(event).emit_fits()
    }

    /// The tree after the token.
    pub open spec fn step(self, event: EventView) -> TreeView {
        if event.tries_emit() {
            self.settled(event).after_emit()
        } else {
            self.settled(event)
        }
    }

    /// The row that the token completes, if it completes one, with its
    /// location.
    pub open spec fn output(self, event: EventView) -> Option<(TableLocationView, RecordView)> {
        let settled = self.settled(event);
        if event.tries_emit() && settled.emits() {
            Some((settled.emitted_location(), settled.current_scope().rec))
        } else {
            None
        }
    }
}

/// The tree before any token: the root scope alone.
pub open spec fn initial_tree() -> TreeView {
    TreeView { scopes: seq![(Seq::<JsonPathView>::empty(), fresh_scope())], current: Seq::empty() }
}

/// One scope of the tree with its links.
struct TreeNode {
    handler: ObjectHandler,
    parent: usize,
    children: Vec<(JsonPath, usize)>,
    table_path: Ghost<TablePathView>,
}

/// The scopes of a document as a tree that can be walked up, and down by
/// the `JsonPath` of a nested array.
pub struct ObjectHandlerHashTree {
    arena: Vec<TreeNode>,
    current_id: usize,
    current_path: TablePath,
}

impl View for ObjectHandlerHashTree {
    type V = TreeView;

    closed spec fn view(&self) -> TreeView {
        TreeView {
            scopes: Seq::new(
                self.arena@.len(),
                |i: int| (self.arena@[i].table_path@, self.arena@[i].handler@),
            ),
            current: self.current_path.deep_view(),
        }
    }
}

impl ObjectHandlerHashTree {
    spec fn node_path(&self, i: int) -> TablePathView {
        self.arena@[i].table_path@
    }

    spec fn child_listed(&self, parent: int, child: int) -> bool {
        exists|e: int|
            0 <= e < self.arena@[parent].children@.len() && (
            #[trigger] self.arena@[parent].children@[e]).1 == child
                && self.arena@[parent].children@[e].0.deep_view() == self.node_path(child).last()
    }

    /// The invariant of the links: the current node is the one at the
    /// current path, a node's path is its parent's path and the key under
    /// which the parent lists it, and the root is its own parent.
    spec fn links_wf(&self) -> bool {
        &&& self.arena@.len() > 0
        &&& self.current_id < self.arena@.len()
        &&& self.node_path(self.current_id as int) == self.current_path.deep_view()
        &&& self.node_path(0) == Seq::<JsonPathView>::empty()
        &&& self.arena@[0].parent == 0
        &&& forall|i: int|
            0 <= i < self.arena@.len() ==> (#[trigger] self.arena@[i]).parent < self.arena@.len()
        &&& forall|i: int|
            0 < i < self.arena@.len() ==> self.node_path(i).len() > 0 && self.node_path(
                i,
            ).drop_last() == self.node_path((#[trigger] self.arena@[i]).parent as int)
                && self.child_listed(self.arena@[i].parent as int, i)
        &&& forall|i: int, e: int|
            0 <= i < self.arena@.len() && 0 <= e < self.arena@[i].children@.len() ==> (
            #[trigger] self.arena@[i].children@[e]).1 < self.arena@.len() && self.node_path(
                self.arena@[i].children@[e].1 as int,
            ) == self.node_path(i).push(self.arena@[i].children@[e].0.deep_view())
    }

    /// The tree's invariant.
    pub closed spec fn wf(&self) -> bool {
        self@.wf() && self.links_wf()
    }

    /// What the invariant says of the tree as contracts see it.
    pub proof fn lemma_wf(&self)
        requires
            self.wf(),
        ensures
            self@.wf(),
    {
    }

    /// A tree with the root scope alone.
    pub fn new() -> (r: ObjectHandlerHashTree)
        ensures
            r.wf(),
            r@ == initial_tree(),
    {
        let root = TreeNode {
            handler: ObjectHandler::new(),
            parent: 0,
            children: Vec::new(),
            table_path: Ghost(Seq::empty()),
        };
        let mut arena: Vec<TreeNode> = Vec::new();
        arena.push(root);
        let r = ObjectHandlerHashTree { arena, current_path: Vec::new(), current_id: 0 };
        proof {
            assert(r@.scopes =~= initial_tree().scopes);
            assert(r@.current =~= initial_tree().current);
            assert(r@.scopes[0].0 == Seq::<JsonPathView>::empty());
            assert(parent_path(r@.scopes[0].0) == r@.scopes[0].0);
        }
        r
    }

    /// The table path of the current scope.
    pub fn full_path(&self) -> (r: &TablePath)
        ensures
            r.deep_view() == self@.current,
    {
        &self.current_path
    }

    /// The handler of the current scope.
    pub fn current(&self) -> (r: &ObjectHandler)
        requires
            self.wf(),
        ensures
            r@ == self@.current_scope(),
            r.wf(),
    {
        proof {
            lemma_slot_unique(self@.scopes, self@.current, self.current_id as int);
        }
        &self.arena[self.current_id].handler
    }

    /// The handler of the scope that encloses the current one, if the
    /// current one is not the root.
    pub fn parent(&self) -> (r: Option<&ObjectHandler>)
        requires
            self.wf(),
        ensures
            r is Some == self@.has_parent(),
            r matches Some(p) ==> p@ == self@.parent_scope() && p.wf(),
    {
        let parent_id = self.arena[self.current_id].parent;
        proof {
            if self.current_id != 0 {
                lemma_slot_unique(self@.scopes, self@.current.drop_last(), parent_id as int);
            } else {
                assert(self@.scopes[0].0 == self@.current);
            }
        }
        if parent_id != self.current_id {
            Some(&self.arena[parent_id].handler)
        } else {
            None
        }
    }

    /// Makes the enclosing scope current. At the root nothing changes.
    pub fn go_up(&mut self)
        requires
            old(self).wf(),
        ensures
            final(self).wf(),
            final(self)@ == old(self)@.ascend(),
    {
        let parent_id = self.arena[self.current_id].parent;
        self.current_id = parent_id;
        self.current_path.pop();
        proof {
            assert(self@.current =~= parent_path(old(self)@.current));
            assert(self@.scopes =~= old(self)@.scopes);
            assert(self@.scopes[parent_id as int].0 == self@.current);
        }
    }

    /// `after` is this tree with the handler of the current scope replaced by
    /// `handler`, and nothing else changed.
    pub closed spec fn handler_replaced(&self, after: &Self, handler: ObjectHandler) -> bool {
        &&& after.current_id == self.current_id
        &&& after.current_path == self.current_path
        &&& after.arena@.len() == self.arena@.len()
        &&& forall|i: int|
            0 <= i < self.arena@.len() && i != self.current_id ==> after.arena@[i]
                == self.arena@[i]
        &&& after.arena@[self.current_id as int].handler == handler
        &&& after.arena@[self.current_id as int].parent
            == self.arena@[self.current_id as int].parent
        &&& after.arena@[self.current_id as int].children
            == self.arena@[self.current_id as int].children
        &&& after.arena@[self.current_id as int].table_path
            == self.arena@[self.current_id as int].table_path
    }

    /// Replacing the handler of the current scope replaces that scope, and
    /// keeps the invariant if the new handler is well formed.
    pub proof fn lemma_handler_replaced(before: Self, after: Self, handler: ObjectHandler)
        requires
            before.wf(),
            before.handler_replaced(&after, handler),
        ensures
            after@ == before@.with_current(handler@),
            handler.wf() ==> after.wf(),
    {
        let at = before.current_id as int;
        lemma_slot_unique(before@.scopes, before@.current, at);
        assert(after@.scopes =~= before@.scopes.update(at, (before@.current, handler@)));
        if handler.wf() {
            lemma_update_slot(before@.scopes, at, handler@);
            assert(after@.wf()) by {
                assert forall|i: int| 0 <= i < after@.scopes.len() implies has_slot(
                    after@.scopes,
                    parent_path((#[trigger] after@.scopes[i]).0),
                ) by {
                    let q = slot_of(before@.scopes, parent_path(before@.scopes[i].0));
                    assert(after@.scopes[q].0 == before@.scopes[q].0);
                }
                assert(after@.scopes[0].0 == before@.scopes[0].0);
                assert(after@.scopes[at].0 == before@.scopes[at].0);
            }
            assert(after.links_wf()) by {
                assert forall|i: int| 0 <= i < after.arena@.len() implies after.node_path(i)
                    == before.node_path(i) && (#[trigger] after.arena@[i]).parent
                    == before.arena@[i].parent && after.arena@[i].children
                    == before.arena@[i].children by {}
                assert forall|i: int| 0 < i < after.arena@.len() implies after.node_path(i).len()
                    > 0 && after.node_path(i).drop_last() == after.node_path(
                    (#[trigger] after.arena@[i]).parent as int,
                ) && after.child_listed(after.arena@[i].parent as int, i) by {
                    let q = before.arena@[i].parent as int;
                    assert(before.arena@[i].parent < before.arena@.len());
                    assert(before.child_listed(q, i));
                    let e = choose|e: int|
                        0 <= e < before.arena@[q].children@.len() && (
                        #[trigger] before.arena@[q].children@[e]).1 == i
                            && before.arena@[q].children@[e].0.deep_view() == before.node_path(
                            i,
                        ).last();
                    assert(after.arena@[q].children@[e].1 == i);
                }
                assert forall|i: int, e: int|
                    0 <= i < after.arena@.len() && 0 <= e < after.arena@[i].children@.len()
                    implies (#[trigger] after.arena@[i].children@[e]).1 < after.arena@.len()
                    && after.node_path(after.arena@[i].children@[e].1 as int) == after.node_path(
                    i,
                ).push(after.arena@[i].children@[e].0.deep_view()) by {
                    assert(after.arena@[i].children@[e] == before.arena@[i].children@[e]);
                }
            }
        }
    }

    /// The handler of the current scope, to be changed in place. What the
    /// change does to the tree follows by `lemma_handler_replaced`.
    pub fn current_mut(&mut self) -> (r: &mut ObjectHandler)
        requires
            old(self).wf(),
        ensures
            r@ == old(self)@.current_scope(),
            r.wf(),
            old(self).handler_replaced(final(self), *final(r)),
    {
        proof {
            lemma_slot_unique(self@.scopes, self@.current, self.current_id as int);
        }
        &mut self.arena[self.current_id].handler
    }

    /// Makes the scope of the array at `path` of the current row current,
    /// and creates it unless the array was met before.
    pub fn go_down(&mut self, path: &JsonPath)
        requires
            old(self).wf(),
        ensures
            final(self).wf(),
            final(self)@ == old(self)@.descend(path.deep_view()),
    {
        let ghost before = self@;
        let ghost target = before.current.push(path.deep_view());
        let from = self.current_id;
        self.current_path.push(clone_json_path(path));
        assert(self@.current =~= target);
        match find_child(&self.arena[from].children, path) {
            Some(down_id) => {
                self.current_id = down_id;
                proof {
                    lemma_slot_unique(before.scopes, target, down_id as int);
                    assert(self@.scopes =~= before.scopes);
                }
            },
            None => {
                proof {
                    if has_slot(before.scopes, target) {
                        let j = slot_of(before.scopes, target);
                        assert(before.scopes[j].0 == target);
                        assert(target.drop_last() =~= before.current);
                        assert(target.last() == path.deep_view());
                        assert(j != 0);
                        let p = self.arena@[j].parent as int;
                        assert(before.scopes[p].0 == before.scopes[from as int].0);
                        assert(old(self).child_listed(p, j));
                    }
                    lemma_push_slot(before.scopes, target, fresh_scope());
                }
                let new_id = self.arena.len();
                self.arena[from].children.push((clone_json_path(path), new_id));
                self.arena.push(
                    TreeNode {
                        handler: ObjectHandler::new(),
                        parent: from,
                        children: Vec::new(),
                        table_path: Ghost(target),
                    },
                );
                self.current_id = new_id;
                proof {
                    assert(self@.scopes =~= before.scopes.push((target, fresh_scope())));
                    assert(parent_path(target) == before.current);
                    assert forall|i: int| 0 <= i < self@.scopes.len() implies has_slot(
                        self@.scopes,
                        parent_path((#[trigger] self@.scopes[i]).0),
                    ) by {
                        if i < before.scopes.len() {
                            let q = slot_of(before.scopes, parent_path(before.scopes[i].0));
                            assert(self@.scopes[q] == before.scopes[q]);
                        } else {
                            assert(self@.scopes[from as int] == before.scopes[from as int]);
                        }
                    }
                    assert(self@.scopes[0] == before.scopes[0]);
                    assert(self@.wf());
                    assert forall|i: int| 0 < i < self.arena@.len() implies self.node_path(i).len()
                        > 0 && self.node_path(i).drop_last() == self.node_path(
                        (#[trigger] self.arena@[i]).parent as int,
                    ) && self.child_listed(self.arena@[i].parent as int, i) by {
                        if i < new_id {
                            let q = old(self).arena@[i].parent as int;
                            assert(old(self).child_listed(q, i));
                            let e = choose|e: int|
                                0 <= e < old(self).arena@[q].children@.len() && (
                                #[trigger] old(self).arena@[q].children@[e]).1 == i && old(
                                    self,
                                ).arena@[q].children@[e].0.deep_view() == old(self).node_path(
                                    i,
                                ).last();
                            assert(self.arena@[q].children@[e] == old(self).arena@[q].children@[e]);
                        } else {
                            let e = self.arena@[from as int].children@.len() - 1;
                            assert(self.arena@[from as int].children@[e].1 == i);
                        }
                    }
                    assert forall|i: int, e: int|
                        0 <= i < self.arena@.len()
                            && 0 <= e < self.arena@[i].children@.len() implies (
                    #[trigger] self.arena@[i].children@[e]).1 < self.arena@.len()
                        && self.node_path(self.arena@[i].children@[e].1 as int) == self.node_path(
                        i,
                    ).push(self.arena@[i].children@[e].0.deep_view()) by {
                        if i == from && e == self.arena@[i].children@.len() - 1 {
                        } else {
                            assert(self.arena@[i].children@[e] == old(self).arena@[i].children@[e]);
                        }
                    }
                }
            },
        }
    }
}

/// The node that the list of children holds under `key`, if any.
fn find_child(children: &Vec<(JsonPath, usize)>, key: &JsonPath) -> (r: Option<usize>)
    ensures
        r matches Some(c) ==> exists|e: int|
            0 <= e < children@.len() && (#[trigger] children@[e]).1 == c
                && children@[e].0.deep_view() == key.deep_view(),
        r is None ==> forall|e: int|
            0 <= e < children@.len() ==> (#[trigger] children@[e]).0.deep_view()
                != key.deep_view(),
{
    let mut e: usize = 0;
    while e < children.len()
        invariant
            e <= children.len(),
            forall|k: int| 0 <= k < e ==>
                (#[trigger] children@[k]).0.deep_view() != key.deep_view(),
        decreases children.len() - e,
    {
        if json_path_eq(&children[e].0, key) {
            return Some(children[e].1);
        }
        e = e + 1;
    }
    None
}

/// Turns the tokens of one JSON document into rows. Every token is handed
/// to the handler in document order; a token that completes a row returns
/// the row with its location.
pub struct NestedObjectHandler {
    handler_stack: ObjectHandlerHashTree,
}

impl View for NestedObjectHandler {
    type V = TreeView;

    closed spec fn view(&self) -> TreeView {
        self.handler_stack@
    }
}

impl NestedObjectHandler {
    /// The handler's invariant.
    pub closed spec fn wf(&self) -> bool {
        self.handler_stack.wf()
    }

    /// What the invariant says of the tree as contracts see it.
    pub proof fn lemma_wf(&self)
        requires
            self.wf(),
        ensures
            self@.wf(),
    {
    }

    /// A handler at the start of a document.
    pub fn new() -> (r: NestedObjectHandler)
        ensures
            r.wf(),
            r@ == initial_tree(),
    {
        NestedObjectHandler { handler_stack: ObjectHandlerHashTree::new() }
    }

    /// The handler of the current scope.
    pub fn current_handler(&self) -> (r: &ObjectHandler)
        requires
            self.wf(),
        ensures
            r@ == self@.current_scope(),
            r.wf(),
    {
        self.handler_stack.current()
    }

    /// The handler of the enclosing scope, if there is one.
    pub fn parent_handler(&self) -> (r: Option<&ObjectHandler>)
        requires
            self.wf(),
        ensures
            r is Some == self@.has_parent(),
            r matches Some(p) ==> p@ == self@.parent_scope() && p.wf(),
    {
        self.handler_stack.parent()
    }

    /// The table path of the current scope.
    pub fn current_table_path(&self) -> (r: &TablePath)
        ensures
            r.deep_view() == self@.current,
    {
        self.handler_stack.full_path()
    }

    /// Tells whether the current row is complete: no object is open in it.
    pub fn at_list_or_document_root(&self) -> (r: bool)
        requires
            self.wf(),
        ensures
            r == self@.emits(),
    {
        self.handler_stack.current().is_complete()
    }

    /// Tells whether the token can be handled: a key needs an open object,
    /// and a row that the token completes needs a key that is left.
    pub fn can_handle(&self, event: &Event) -> (r: bool)
        requires
            self.wf(),
        ensures
            r == self@.accepts(event@),
    {
        proof {
            let tree = self@;
            let at = slot_of(tree.scopes, tree.current);
            assert(tree.scopes[at].0 == tree.current);
            assert(tree.scopes[at].1.wf());
            match event@ {
                EventView::Value(v) => {
                    crate::lists::lemma_put(
                        tree.current_scope().rec,
                        tree.current_scope().path,
                        v,
                    );
                    crate::parser::stream::lemma_with_current(
                        tree,
                        tree.current_scope().with_value(v),
                    );
                },
                EventView::EndMap => {
                    crate::parser::stream::lemma_with_current(
                        tree,
                        tree.current_scope().with_map_ended(),
                    );
                },
                _ => {},
            }
        }
        let current = self.handler_stack.current();
        match event {
            Event::Value(_) => !current.is_complete() || current.object_id() < i32::MAX,
            Event::StartMap => true,
            Event::EndMap => current.path().len() > 1 || current.object_id() < i32::MAX,
            Event::MapKey(_) => current.path().len() > 0,
            Event::StartArray => true,
            Event::EndArray => match self.handler_stack.parent() {
                Some(parent) => !parent.is_complete() || parent.object_id() < i32::MAX,
                None => !current.is_complete() || current.object_id() < i32::MAX,
            },
        }
    }

    /// Hands out the current row if it is complete.
    fn try_pop(&mut self) -> (r: Option<(TableLocation, TableRecord)>)
        requires
            old(self).wf(),
            old(self)@.emit_fits(),
        ensures
            final(self).wf(),
            final(self)@ == old(self)@.after_emit(),
            r is Some == old(self)@.emits(),
            r matches Some(out) ==> out.0@ == old(self)@.emitted_location() && out.1@ == old(
                self,
            )@.current_scope().rec,
    {
        let parent_object_id = match self.handler_stack.parent() {
            Some(p) => {
                let next = p.object_id();
                if next > 0 {
                    next - 1
                } else {
                    0
                }
            },
            None => 0,
        };
        let table_path = clone_table_path(self.handler_stack.full_path());
        let ghost before = self.handler_stack;
        let handler = self.handler_stack.current_mut();
        let popped = handler.pop();
        let ghost replaced = *handler;
        proof {
            ObjectHandlerHashTree::lemma_handler_replaced(before, self.handler_stack, replaced);
        }
        match popped {
            Some((rec_id, rec)) => Some(
                (TableLocation { table_path, object_id: rec_id, parent_object_id }, rec),
            ),
            None => None,
        }
    }

    /// A scalar value: it is stored in the current row, which is handed out
    /// if the value stands alone in its array or document.
    pub fn handle_json_value(&mut self, val: Scalar) -> (r: Option<(TableLocation, TableRecord)>)
        requires
            old(self).wf(),
            old(self)@.accepts(EventView::Value(val@)),
        ensures
            final(self).wf(),
            final(self)@ == old(self)@.step(EventView::Value(val@)),
            r is Some == old(self)@.output(EventView::Value(val@)) is Some,
            r matches Some(out) ==> Some((out.0@, out.1@)) == old(self)@.output(
                EventView::Value(val@),
            ),
    {
        let ghost before = self.handler_stack;
        let handler = self.handler_stack.current_mut();
        handler.handle_json_value(val);
        let ghost replaced = *handler;
        proof {
            ObjectHandlerHashTree::lemma_handler_replaced(before, self.handler_stack, replaced);
        }
        self.try_pop()
    }

    /// The start of an object.
    pub fn handle_start_map(&mut self)
        requires
            old(self).wf(),
        ensures
            final(self).wf(),
            final(self)@ == old(self)@.step(EventView::StartMap),
    {
        let ghost before = self.handler_stack;
        let handler = self.handler_stack.current_mut();
        handler.handle_start_map();
        let ghost replaced = *handler;
        proof {
            ObjectHandlerHashTree::lemma_handler_replaced(before, self.handler_stack, replaced);
        }
    }

    /// The end of an object: the current row is handed out if this was its
    /// outermost object.
    pub fn handle_end_map(&mut self) -> (r: Option<(TableLocation, TableRecord)>)
        requires
            old(self).wf(),
            old(self)@.accepts(EventView::EndMap),
        ensures
            final(self).wf(),
            final(self)@ == old(self)@.step(EventView::EndMap),
            r is Some == old(self)@.output(EventView::EndMap) is Some,
            r matches Some(out) ==> Some((out.0@, out.1@)) == old(self)@.output(EventView::EndMap),
    {
        let ghost before = self.handler_stack;
        let handler = self.handler_stack.current_mut();
        handler.handle_end_map();
        let ghost replaced = *handler;
        proof {
            ObjectHandlerHashTree::lemma_handler_replaced(before, self.handler_stack, replaced);
        }
        self.try_pop()
    }

    /// A key of the innermost open object.
    pub fn handle_map_key(&mut self, key: &str)
        requires
            old(self).wf(),
            old(self)@.accepts(EventView::MapKey(key@)),
        ensures
            final(self).wf(),
            final(self)@ == old(self)@.step(EventView::MapKey(key@)),
    {
        let ghost before = self.handler_stack;
        let handler = self.handler_stack.current_mut();
        handler.handle_map_key(key);
        let ghost replaced = *handler;
        proof {
            ObjectHandlerHashTree::lemma_handler_replaced(before, self.handler_stack, replaced);
        }
    }

    /// The start of an array: its scope becomes current.
    pub fn handle_start_array(&mut self)
        requires
            old(self).wf(),
        ensures
            final(self).wf(),
            final(self)@ == old(self)@.step(EventView::StartArray),
    {
        let current_path = clone_json_path(self.handler_stack.current().path());
        self.handler_stack.go_down(&current_path);
    }

    /// The end of an array: the enclosing scope becomes current, and its row
    /// is handed out if the array was all there was to it.
    pub fn handle_end_array(&mut self) -> (r: Option<(TableLocation, TableRecord)>)
        requires
            old(self).wf(),
            old(self)@.accepts(EventView::EndArray),
        ensures
            final(self).wf(),
            final(self)@ == old(self)@.step(EventView::EndArray),
            r is Some == old(self)@.output(EventView::EndArray) is Some,
            r matches Some(out) ==> Some((out.0@, out.1@)) == old(self)@.output(
                EventView::EndArray,
            ),
    {
        self.handler_stack.go_up();
        self.try_pop()
    }

    /// Handles one token, whatever its kind.
    pub fn handle(&mut self, event: Event) -> (r: Option<(TableLocation, TableRecord)>)
        requires
            old(self).wf(),
            old(self)@.accepts(event@),
        ensures
            final(self).wf(),
            final(self)@ == old(self)@.step(event@),
            r is Some == old(self)@.output(event@) is Some,
            r matches Some(out) ==> Some((out.0@, out.1@)) == old(self)@.output(event@),
    {
        match event {
            Event::Value(val) => self.handle_json_value(val),
            Event::StartMap => {
                self.handle_start_map();
                None
            },
            Event::EndMap => self.handle_end_map(),
            Event::MapKey(key) => {
                self.handle_map_key(key.as_str());
                None
            },
            Event::StartArray => {
                self.handle_start_array();
                None
            },
            Event::EndArray => self.handle_end_array(),
        }
    }
}

} // verus!
