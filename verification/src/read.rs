//! Global row keys. Every input document numbers its rows from zero, table
//! by table; the remapper translates these local keys into keys that are
//! unique and dense per table over all documents.
use crate::lists::{
    has_slot, lemma_push_slot, lemma_remove_slot, lemma_slot_unique, lemma_update_slot, lookup,
    slot_of, slots_distinct, with_slot,
};
use crate::database::{Database, DatabaseError};
use crate::parser::stream::Row;
use crate::parser::{initial_tree, Event, EventView, NestedObjectHandler, TreeView};
use crate::parser::models::{
    clone_table_path, parent_path, table_path_eq, TableLocation, TableLocationView, TablePath,
    TablePathView, TableRecord,
};
use std::collections::HashMap;
use vstd::prelude::*;

verus! {

broadcast use vstd::std_specs::hash::group_hash_axioms;

/// The translations of one session: for each table that the session has
/// met, the global key of every local key met so far.
pub type SessionView = Seq<(TablePathView, Map<i32, i32>)>;

/// What an `IdRemapper` is in contracts.
pub struct RemapperView {
    /// For each table met so far, the next global key to hand out.
    pub counters: Seq<(TablePathView, i32)>,
    /// The open sessions by their numbers.
    pub sessions: Seq<(usize, SessionView)>,
    /// The number that the next session gets.
    pub next_session: usize,
}

impl RemapperView {
    /// The session with this number is open.
    pub open spec fn is_open(self, session: usize) -> bool {
        has_slot(self.sessions, session)
    }

    /// The next global key of the table: the number of keys handed out for
    /// it so far.
    pub open spec fn next_id(self, path: TablePathView) -> i32 {
        match lookup(self.counters, path) {
            Some(next) => next,
            None => 0,
        }
    }

    /// The global key that the session has for a local key of the table, if
    /// it has met that key.
    pub open spec fn translation(self, session: usize, path: TablePathView, local: i32) -> Option<
        i32,
    > {
        match lookup(self.sessions, session) {
            Some(tables) => match lookup(tables, path) {
                Some(ids) => if ids.contains_key(local) {
                    Some(ids[local])
                } else {
                    None
                },
                None => None,
            },
            None => None,
        }
    }

    /// The global key of a local key: the one that the session has for it,
    /// or else the table's next key.
    pub open spec fn found(self, session: usize, path: TablePathView, local: i32) -> i32 {
        match self.translation(session, path, local) {
            Some(global) => global,
            None => self.next_id(path),
        }
    }

    /// Looking up the local key needs no new global key, or the table still
    /// has one to give.
    pub open spec fn find_fits(self, session: usize, path: TablePathView, local: i32) -> bool {
        self.translation(session, path, local) is Some || self.next_id(path) < i32::MAX
    }

    /// The remapper after the local key was looked up in an open session: a
    /// key met for the first time takes the table's next global key.
    pub open spec fn after_find(
        self,
        session: usize,
        path: TablePathView,
        local: i32,
    ) -> RemapperView {
        let a = slot_of(self.sessions, session);
        let met = with_slot(self.sessions[a].1, path, Map::<i32, i32>::empty());
        let b = slot_of(met, path);
        if met[b].1.contains_key(local) {
            RemapperView {
                counters: self.counters,
                sessions: self.sessions.update(a, (session, met)),
                next_session: self.next_session,
            }
        } else {
            let counters = with_slot(self.counters, path, 0i32);
            let c = slot_of(counters, path);
            let global = counters[c].1;
            RemapperView {
                counters: counters.update(c, (path, (global + 1) as i32)),
                sessions: self.sessions.update(
                    a,
                    (session, met.update(b, (path, met[b].1.insert(local, global)))),
                ),
                next_session: self.next_session,
            }
        }
    }

    /// The location with both keys translated: the row's own key in its
    /// table, then the enclosing row's key in the enclosing table.
    pub open spec fn remapped(self, session: usize, loc: TableLocationView) -> TableLocationView {
        let first = self.after_find(session, loc.table_path, loc.object_id);
        TableLocationView {
            table_path: loc.table_path,
            object_id: self.found(session, loc.table_path, loc.object_id),
            parent_object_id: first.found(
                session,
                parent_path(loc.table_path),
                loc.parent_object_id,
            ),
        }
    }

    /// The remapper after both keys of the location were looked up.
    pub open spec fn after_remap(self, session: usize, loc: TableLocationView) -> RemapperView {
        self.after_find(session, loc.table_path, loc.object_id).after_find(
            session,
            parent_path(loc.table_path),
            loc.parent_object_id,
        )
    }

    /// Both lookups of a remap can be served.
    pub open spec fn remap_fits(self, session: usize, loc: TableLocationView) -> bool {
        &&& self.find_fits(session, loc.table_path, loc.object_id)
        &&& self.after_find(session, loc.table_path, loc.object_id).find_fits(
            session,
            parent_path(loc.table_path),
            loc.parent_object_id,
        )
    }

    /// The remapper after a session was opened under the next number.
    pub open spec fn after_open(self) -> RemapperView {
        RemapperView {
            counters: self.counters,
            sessions: self.sessions.push((self.next_session, Seq::empty())),
            next_session: (self.next_session + 1) as usize,
        }
    }

    /// The remapper after the session was closed: its translations are gone,
    /// the counters stay.
    pub open spec fn after_close(self, session: usize) -> RemapperView {
        if self.is_open(session) {
            RemapperView {
                counters: self.counters,
                sessions: self.sessions.remove(slot_of(self.sessions, session)),
                next_session: self.next_session,
            }
        } else {
            self
        }
    }

    /// The invariant of the remapper's shape: a table has one counter, a
    /// session number is open once and was handed out before, and a session
    /// has one translation per table.
    pub open spec fn shape_wf(self) -> bool {
        &&& slots_distinct(self.counters)
        &&& slots_distinct(self.sessions)
        &&& forall|a: int|
            0 <= a < self.sessions.len() ==> (#[trigger] self.sessions[a]).0 < self.next_session
        &&& forall|a: int|
            0 <= a < self.sessions.len() ==> slots_distinct((#[trigger] self.sessions[a]).1)
    }

    /// The invariant of the keys: every global key in use is below its
    /// table's next key and not negative, and within a table no two local
    /// keys, of one session or of two, share a global key.
    pub open spec fn keys_wf(self) -> bool {
        &&& forall|path: TablePathView| 0 <= #[trigger] self.next_id(path)
        &&& forall|session: usize, path: TablePathView, local: i32|
            (#[trigger] self.translation(session, path, local)) matches Some(global) ==> 0
                <= global < self.next_id(path)
        &&& forall|sa: usize, la: i32, sb: usize, lb: i32, path: TablePathView|
            (#[trigger] self.translation(sa, path, la)) is Some && self.translation(sa, path, la)
                == (#[trigger] self.translation(sb, path, lb)) ==> sa == sb && la == lb
    }

    /// The remapper's invariant.
    pub open spec fn wf(self) -> bool {
        self.shape_wf() && self.keys_wf()
    }
}

/// The remapper before its first use: no key was handed out, and no session
/// is open.
pub open spec fn initial_remapper() -> RemapperView {
    RemapperView { counters: Seq::empty(), sessions: Seq::empty(), next_session: 0 }
}

/// The remapper is well formed before its first use.
pub proof fn lemma_initial_remapper()
    ensures
        initial_remapper().wf(),
        forall|p: TablePathView| #[trigger] initial_remapper().next_id(p) == 0,
        forall|s: usize, p: TablePathView, l: i32| #[trigger]
            initial_remapper().translation(s, p, l) is None,
{
    let state = initial_remapper();
    assert forall|p: TablePathView| #[trigger] state.next_id(p) == 0 by {}
    assert forall|s: usize, p: TablePathView, l: i32| #[trigger]
        state.translation(s, p, l) is None by {}
}

/// What one lookup does, seen through the translations and the counters:
/// the local key now has the global key that was found, the table's next
/// key has moved by one exactly if the local key was new, and nothing else
/// has changed.
pub proof fn lemma_after_find(before: RemapperView, session: usize, path: TablePathView, local: i32)
    requires
        before.wf(),
        before.is_open(session),
        before.find_fits(session, path, local),
    ensures
        before.after_find(session, path, local).wf(),
        before.after_find(session, path, local).next_session == before.next_session,
        forall|s: usize| before.after_find(session, path, local).is_open(s) == before.is_open(s),
        before.after_find(session, path, local).translation(session, path, local) == Some(
            before.found(session, path, local),
        ),
        forall|s: usize, p: TablePathView, l: i32|
            !(s == session && p == path && l == local) ==> #[trigger] before.after_find(
                session,
                path,
                local,
            ).translation(s, p, l) == before.translation(s, p, l),
        before.after_find(session, path, local).next_id(path) == if before.translation(
            session,
            path,
            local,
        ) is Some {
            before.next_id(path) as int
        } else {
            before.next_id(path) + 1
        },
        forall|p: TablePathView|
            p != path ==> #[trigger] before.after_find(session, path, local).next_id(p)
                == before.next_id(p),
{
    let after = before.after_find(session, path, local);
    let a = slot_of(before.sessions, session);
    assert(before.sessions[a].0 == session);
    let tables = before.sessions[a].1;
    let met = with_slot(tables, path, Map::<i32, i32>::empty());
    if !has_slot(tables, path) {
        lemma_push_slot(tables, path, Map::<i32, i32>::empty());
    } else {
        assert(tables[slot_of(tables, path)].0 == path);
    }
    let b = slot_of(met, path);
    assert(met[b].0 == path);
    assert(slots_distinct(met));
    assert(before.translation(session, path, local) is Some == met[b].1.contains_key(local));
    let counters = with_slot(before.counters, path, 0i32);
    if !has_slot(before.counters, path) {
        lemma_push_slot(before.counters, path, 0i32);
    } else {
        assert(before.counters[slot_of(before.counters, path)].0 == path);
    }
    let c = slot_of(counters, path);
    assert(counters[c].0 == path);
    assert(counters[c].1 == before.next_id(path));
    let global = counters[c].1;
    let met_after = if met[b].1.contains_key(local) {
        met
    } else {
        met.update(b, (path, met[b].1.insert(local, global)))
    };
    assert(after.sessions == before.sessions.update(a, (session, met_after)));
    lemma_update_slot(met, b, met[b].1.insert(local, global));
    lemma_update_slot(before.sessions, a, met_after);
    lemma_update_slot(counters, c, (global + 1) as i32);
    assert(slots_distinct(met_after));
    assert(after.shape_wf()) by {
        assert forall|k: int| 0 <= k < after.sessions.len() implies slots_distinct(
            (#[trigger] after.sessions[k]).1,
        ) && after.sessions[k].0 < after.next_session by {
            if k != a {
                assert(after.sessions[k] == before.sessions[k]);
            }
        }
    }
    assert forall|s: usize| after.is_open(s) == before.is_open(s) by {
        if s != session {
            assert(lookup(after.sessions, s) == lookup(before.sessions, s));
        }
    }
    assert forall|p: TablePathView| p != path implies #[trigger] after.next_id(p)
        == before.next_id(p) by {
        assert(lookup(counters, p) == lookup(before.counters, p));
    }
    assert forall|s: usize, p: TablePathView, l: i32|
        !(s == session && p == path && l == local) implies #[trigger] after.translation(s, p, l)
        == before.translation(s, p, l) by {
        if s != session {
            assert(lookup(after.sessions, s) == lookup(before.sessions, s));
        } else if p != path {
            assert(lookup(met_after, p) == lookup(tables, p));
        } else {
            assert(lookup(met_after, p) is Some);
        }
    }
    assert(after.keys_wf()) by {
        assert forall|s: usize, p: TablePathView, l: i32|
            (#[trigger] after.translation(s, p, l)) is Some implies 0 <= after.translation(
            s,
            p,
            l,
        )->0 < after.next_id(p) by {
            if !(s == session && p == path && l == local) {
                assert(after.translation(s, p, l) == before.translation(s, p, l));
            }
        }
        assert forall|sa: usize, la: i32, sb: usize, lb: i32, p: TablePathView|
            (#[trigger] after.translation(sa, p, la)) is Some && after.translation(sa, p, la) == (
            #[trigger] after.translation(sb, p, lb)) implies sa == sb && la == lb by {
            if !(sa == session && p == path && la == local) {
                assert(after.translation(sa, p, la) == before.translation(sa, p, la));
            }
            if !(sb == session && p == path && lb == local) {
                assert(after.translation(sb, p, lb) == before.translation(sb, p, lb));
            }
        }
    }
}

/// Opening a session keeps the invariant and every translation, and the
/// new session has met no key.
pub proof fn lemma_after_open(before: RemapperView)
    requires
        before.wf(),
        before.next_session < usize::MAX,
    ensures
        before.after_open().wf(),
        !before.is_open(before.next_session),
        before.after_open().is_open(before.next_session),
        forall|s: usize| s != before.next_session ==>
            before.after_open().is_open(s) == before.is_open(s),
        forall|p: TablePathView| #[trigger] before.after_open().next_id(p) == before.next_id(p),
        forall|s: usize, p: TablePathView, l: i32| #[trigger]
            before.after_open().translation(s, p, l) == before.translation(s, p, l),
{
    let after = before.after_open();
    let fresh = before.next_session;
    if has_slot(before.sessions, fresh) {
        assert(before.sessions[slot_of(before.sessions, fresh)].0 == fresh);
    }
    lemma_push_slot(before.sessions, fresh, Seq::<(TablePathView, Map<i32, i32>)>::empty());
    assert forall|a: int| 0 <= a < after.sessions.len() implies slots_distinct(
        (#[trigger] after.sessions[a]).1,
    ) && after.sessions[a].0 < after.next_session by {
        if a < before.sessions.len() {
            assert(after.sessions[a] == before.sessions[a]);
        }
    }
    assert forall|s: usize, p: TablePathView, l: i32| #[trigger]
        after.translation(s, p, l) == before.translation(s, p, l) by {
        if s == fresh {
            assert(lookup(after.sessions, s)->0.len() == 0);
        } else {
            assert(lookup(after.sessions, s) == lookup(before.sessions, s));
        }
    }
    assert forall|s: usize| s != fresh implies after.is_open(s) == before.is_open(s) by {
        assert(lookup(after.sessions, s) == lookup(before.sessions, s));
    }
    assert(after.shape_wf());
    lemma_keys_carry_over(before, after);
}

/// A remapper with the same counters as a well-formed one, and with none but
/// translations of that one, has well-formed keys.
proof fn lemma_keys_carry_over(before: RemapperView, after: RemapperView)
    requires
        before.keys_wf(),
        after.counters == before.counters,
        forall|s: usize, p: TablePathView, l: i32|
            (#[trigger] after.translation(s, p, l)) is Some ==> after.translation(s, p, l)
                == before.translation(s, p, l),
    ensures
        after.keys_wf(),
{
    assert forall|p: TablePathView| 0 <= #[trigger] after.next_id(p) by {
        assert(after.next_id(p) == before.next_id(p));
    }
    assert forall|s: usize, p: TablePathView, l: i32|
        (#[trigger] after.translation(s, p, l)) is Some implies 0 <= after.translation(
        s,
        p,
        l,
    )->0 < after.next_id(p) by {
        assert(after.translation(s, p, l) == before.translation(s, p, l));
        assert(after.next_id(p) == before.next_id(p));
    }
    assert forall|sa: usize, la: i32, sb: usize, lb: i32, p: TablePathView|
        (#[trigger] after.translation(sa, p, la)) is Some && after.translation(sa, p, la) == (
        #[trigger] after.translation(sb, p, lb)) implies sa == sb && la == lb by {
        assert(after.translation(sa, p, la) == before.translation(sa, p, la));
        assert(after.translation(sb, p, lb) == before.translation(sb, p, lb));
    }
}

/// Closing a session keeps the invariant, the counters and the translations
/// of the other sessions, and forgets those of the closed one.
pub proof fn lemma_after_close(before: RemapperView, session: usize)
    requires
        before.wf(),
    ensures
        before.after_close(session).wf(),
        before.after_close(session).next_session == before.next_session,
        !before.after_close(session).is_open(session),
        forall|s: usize| s != session ==>
            before.after_close(session).is_open(s) == before.is_open(s),
        forall|p: TablePathView| #[trigger] before.after_close(session).next_id(p)
            == before.next_id(p),
        forall|s: usize, p: TablePathView, l: i32|
            s != session ==> #[trigger] before.after_close(session).translation(s, p, l)
                == before.translation(s, p, l),
        forall|p: TablePathView, l: i32| #[trigger]
            before.after_close(session).translation(session, p, l) is None,
{
    let after = before.after_close(session);
    if before.is_open(session) {
        let a = slot_of(before.sessions, session);
        assert(before.sessions[a].0 == session);
        lemma_remove_slot(before.sessions, a);
        assert forall|k: int| 0 <= k < after.sessions.len() implies slots_distinct(
            (#[trigger] after.sessions[k]).1,
        ) && after.sessions[k].0 < after.next_session by {
            if k < a {
                assert(after.sessions[k] == before.sessions[k]);
            } else {
                assert(after.sessions[k] == before.sessions[k + 1]);
            }
        }
        assert forall|s: usize| s != session implies after.is_open(s) == before.is_open(s) by {
            assert(lookup(after.sessions, s) == lookup(before.sessions, s));
        }
        assert forall|s: usize, p: TablePathView, l: i32| s != session implies #[trigger]
            after.translation(s, p, l) == before.translation(s, p, l) by {
            assert(lookup(after.sessions, s) == lookup(before.sessions, s));
        }
        assert forall|p: TablePathView, l: i32| #[trigger]
            after.translation(session, p, l) is None by {
            assert(lookup(after.sessions, session) is None);
        }
        assert(after.shape_wf());
        lemma_keys_carry_over(before, after);
    } else {
        assert(lookup(before.sessions, session) is None);
    }
}

/// The translations that one session keeps for one table.
struct TableIds {
    path: TablePath,
    ids: HashMap<i32, i32>,
}

/// One open session.
struct Session {
    id: usize,
    tables: Vec<TableIds>,
}

/// Translates the row keys that each input document counts for itself into
/// keys that are unique and dense per table over all documents. One session
/// serves one document.
pub struct IdRemapper {
    tables: Vec<(TablePath, i32)>,
    remap_store: Vec<Session>,
    next_session: usize,
}

spec fn session_view(tables: Seq<TableIds>) -> SessionView {
    Seq::new(tables.len(), |b: int| (tables[b].path.deep_view(), tables[b].ids@))
}

impl View for IdRemapper {
    type V = RemapperView;

    closed spec fn view(&self) -> RemapperView {
        RemapperView {
            counters: counters_view(self.tables@),
            sessions: Seq::new(
                self.remap_store@.len(),
                |a: int| (self.remap_store@[a].id, session_view(self.remap_store@[a].tables@)),
            ),
            next_session: self.next_session,
        }
    }
}

spec fn counters_view(tables: Seq<(TablePath, i32)>) -> Seq<(TablePathView, i32)> {
    Seq::new(tables.len(), |c: int| (tables[c].0.deep_view(), tables[c].1))
}

fn find_counter(tables: &Vec<(TablePath, i32)>, path: &TablePath) -> (r: Option<usize>)
    requires
        slots_distinct(counters_view(tables@)),
    ensures
        r is Some == has_slot(counters_view(tables@), path.deep_view()),
        r matches Some(c) ==> c < tables.len() && c == slot_of(
            counters_view(tables@),
            path.deep_view(),
        ),
{
    let mut c: usize = 0;
    while c < tables.len()
        invariant
            c <= tables.len(),
            slots_distinct(counters_view(tables@)),
            forall|j: int| 0 <= j < c ==>
                (#[trigger] counters_view(tables@)[j]).0 != path.deep_view(),
        decreases tables.len() - c,
    {
        if table_path_eq(&tables[c].0, path) {
            proof {
                lemma_slot_unique(counters_view(tables@), path.deep_view(), c as int);
            }
            return Some(c);
        }
        c = c + 1;
    }
    None
}

fn find_ids(tables: &Vec<TableIds>, path: &TablePath) -> (r: Option<usize>)
    requires
        slots_distinct(session_view(tables@)),
    ensures
        r is Some == has_slot(session_view(tables@), path.deep_view()),
        r matches Some(b) ==> b < tables.len() && b == slot_of(
            session_view(tables@),
            path.deep_view(),
        ),
{
    let mut b: usize = 0;
    while b < tables.len()
        invariant
            b <= tables.len(),
            slots_distinct(session_view(tables@)),
            forall|j: int| 0 <= j < b ==>
                (#[trigger] session_view(tables@)[j]).0 != path.deep_view(),
        decreases tables.len() - b,
    {
        if table_path_eq(&tables[b].path, path) {
            proof {
                lemma_slot_unique(session_view(tables@), path.deep_view(), b as int);
            }
            return Some(b);
        }
        b = b + 1;
    }
    None
}

impl IdRemapper {
    /// The remapper's invariant.
    pub open spec fn wf(&self) -> bool {
        self@.wf()
    }

    /// A remapper that has handed out no key and has no open session.
    pub fn new() -> (r: IdRemapper)
        ensures
            r.wf(),
            r@ == initial_remapper(),
    {
        let r = IdRemapper { tables: Vec::new(), remap_store: Vec::new(), next_session: 0 };
        proof {
            assert(r@.counters =~= initial_remapper().counters);
            assert(r@.sessions =~= initial_remapper().sessions);
            lemma_initial_remapper();
        }
        r
    }

    /// Opens a session for one input document and returns its number, which
    /// no session had before.
    pub fn start_remapper(&mut self) -> (remapper_id: usize)
        requires
            old(self).wf(),
            old(self)@.next_session < usize::MAX,
        ensures
            final(self).wf(),
            final(self)@ == old(self)@.after_open(),
            remapper_id == old(self)@.next_session,
            !old(self)@.is_open(remapper_id),
            final(self)@.is_open(remapper_id),
    {
        proof {
            lemma_after_open(self@);
        }
        let remapper_id = self.next_session;
        self.remap_store.push(Session { id: remapper_id, tables: Vec::new() });
        self.next_session = remapper_id + 1;
        proof {
            assert(session_view(self.remap_store@.last().tables@) =~= Seq::empty());
            assert(self@.sessions =~= old(self)@.after_open().sessions);
            assert(self@.counters =~= old(self)@.counters);
        }
        remapper_id
    }

    /// Tells whether a session number is left for another session.
    pub fn has_next_session(&self) -> (r: bool)
        ensures
            r == (self@.next_session < usize::MAX),
    {
        self.next_session < usize::MAX
    }

    /// The position of an open session.
    fn session_index(&self, remapper_id: usize) -> (a: usize)
        requires
            self.wf(),
            self@.is_open(remapper_id),
        ensures
            a < self.remap_store.len(),
            a == slot_of(self@.sessions, remapper_id),
    {
        let mut a: usize = 0;
        loop
            invariant
                self.wf(),
                self@.is_open(remapper_id),
                a < self.remap_store.len(),
                forall|j: int| 0 <= j < a ==> (#[trigger] self@.sessions[j]).0 != remapper_id,
            decreases self.remap_store.len() - a,
        {
            if self.remap_store[a].id == remapper_id {
                proof {
                    lemma_slot_unique(self@.sessions, remapper_id, a as int);
                }
                return a;
            }
            proof {
                let k = slot_of(self@.sessions, remapper_id);
                assert(self@.sessions[k].0 == remapper_id);
                assert(self@.sessions[a as int].0 != remapper_id);
            }
            a = a + 1;
        }
    }

    /// Tells whether the session is open.
    pub fn has_session(&self, remapper_id: usize) -> (r: bool)
        ensures
            r == self@.is_open(remapper_id),
    {
        let mut a: usize = 0;
        while a < self.remap_store.len()
            invariant
                a <= self.remap_store.len(),
                forall|j: int| 0 <= j < a ==> (#[trigger] self@.sessions[j]).0 != remapper_id,
            decreases self.remap_store.len() - a,
        {
            if self.remap_store[a].id == remapper_id {
                assert(self@.sessions[a as int].0 == remapper_id);
                return true;
            }
            a = a + 1;
        }
        false
    }

    /// Closes a session and drops its translations. The counters stay, so
    /// that the next session goes on where this one stopped.
    pub fn finish_remapper(&mut self, remapper_id: usize)
        requires
            old(self).wf(),
        ensures
            final(self).wf(),
            final(self)@ == old(self)@.after_close(remapper_id),
    {
        proof {
            lemma_after_close(self@, remapper_id);
        }
        if self.has_session(remapper_id) {
            let a = self.session_index(remapper_id);
            self.remap_store.remove(a);
            proof {
                assert(self@.sessions =~= old(self)@.sessions.remove(a as int));
                assert(self@.counters =~= old(self)@.counters);
            }
        }
    }

    /// The global key of the local key `object_id` of a table, in an open
    /// session. A local key that the session meets for the first time takes
    /// the table's next global key.
    pub fn find_obj_id(&mut self, remapper_id: usize, table_path: &TablePath, object_id: i32) -> (r:
        i32)
        requires
            old(self).wf(),
            old(self)@.is_open(remapper_id),
            old(self)@.find_fits(remapper_id, table_path.deep_view(), object_id),
        ensures
            final(self).wf(),
            final(self)@ == old(self)@.after_find(remapper_id, table_path.deep_view(), object_id),
            r == old(self)@.found(remapper_id, table_path.deep_view(), object_id),
    {
        let ghost before = self@;
        let ghost path = table_path.deep_view();
        proof {
            lemma_after_find(before, remapper_id, path, object_id);
        }
        let a = self.session_index(remapper_id);
        let ghost tables = before.sessions[a as int].1;
        let ghost met = with_slot(tables, path, Map::<i32, i32>::empty());
        let b = match find_ids(&self.remap_store[a].tables, table_path) {
            Some(b) => b,
            None => {
                proof {
                    lemma_push_slot(tables, path, Map::<i32, i32>::empty());
                }
                self.remap_store[a].tables.push(
                    TableIds { path: clone_table_path(table_path), ids: HashMap::new() },
                );
                self.remap_store[a].tables.len() - 1
            },
        };
        proof {
            assert(session_view(self.remap_store@[a as int].tables@) =~= met);
            assert(b == slot_of(met, path));
            assert(self@.counters =~= before.counters);
            assert(self@.sessions =~= before.sessions.update(a as int, (remapper_id, met)));
        }
        let known = self.remap_store[a].tables[b].ids.get(&object_id);
        match known {
            Some(global) => *global,
            None => {
                let c = match find_counter(&self.tables, table_path) {
                    Some(c) => c,
                    None => {
                        proof {
                            lemma_push_slot(before.counters, path, 0i32);
                        }
                        self.tables.push((clone_table_path(table_path), 0));
                        self.tables.len() - 1
                    },
                };
                let ghost counters = with_slot(before.counters, path, 0i32);
                proof {
                    assert(self@.counters =~= counters);
                    assert(c == slot_of(counters, path));
                    assert(self@.sessions =~= before.sessions.update(a as int, (remapper_id, met)));
                }
                let insertion_id = self.tables[c].1;
                self.remap_store[a].tables[b].ids.insert(object_id, insertion_id);
                self.tables[c].1 = insertion_id + 1;
                proof {
                    assert(self@.counters =~= counters.update(
                        c as int,
                        (path, (insertion_id + 1) as i32),
                    ));
                    assert(session_view(self.remap_store@[a as int].tables@) =~= met.update(
                        b as int,
                        (path, met[b as int].1.insert(object_id, insertion_id)),
                    ));
                    assert(self@.sessions =~= before.after_find(
                        remapper_id,
                        path,
                        object_id,
                    ).sessions);
                }
                insertion_id
            },
        }
    }

    /// The global key that an open session has for a local key of a table,
    /// if it has met that key.
    pub fn translated(&self, remapper_id: usize, table_path: &TablePath, object_id: i32) -> (r:
        Option<i32>)
        requires
            self.wf(),
        ensures
            r == self@.translation(remapper_id, table_path.deep_view(), object_id),
    {
        if !self.has_session(remapper_id) {
            return None;
        }
        let a = self.session_index(remapper_id);
        assert(self@.sessions[a as int].0 == remapper_id);
        match find_ids(&self.remap_store[a].tables, table_path) {
            Some(b) => {
                assert(session_view(self.remap_store@[a as int].tables@)[b as int].1
                    == self.remap_store@[a as int].tables@[b as int].ids@);
                match self.remap_store[a].tables[b].ids.get(&object_id) {
                    Some(global) => Some(*global),
                    None => None,
                }
            },
            None => None,
        }
    }

    /// The next global key of a table: the number of keys handed out for it
    /// so far.
    pub fn next_id(&self, table_path: &TablePath) -> (r: i32)
        requires
            self.wf(),
        ensures
            r == self@.next_id(table_path.deep_view()),
    {
        match find_counter(&self.tables, table_path) {
            Some(c) => self.tables[c].1,
            None => 0,
        }
    }

    /// Tells whether `remap_ids` can serve the location in the session: the
    /// session is open, and no table involved has run out of keys.
    pub fn can_remap(&self, remapper_id: usize, loc: &TableLocation) -> (r: bool)
        requires
            self.wf(),
        ensures
            r == (self@.is_open(remapper_id) && self@.remap_fits(remapper_id, loc@)),
    {
        if !self.has_session(remapper_id) {
            return false;
        }
        let own = self.translated(remapper_id, &loc.table_path, loc.object_id);
        let own_next = self.next_id(&loc.table_path);
        if own.is_none() && own_next == i32::MAX {
            return false;
        }
        proof {
            lemma_after_find(self@, remapper_id, loc.table_path.deep_view(), loc.object_id);
        }
        let parent = loc.parent_table_path();
        if table_path_eq(&parent, &loc.table_path) {
            if loc.parent_object_id == loc.object_id {
                true
            } else {
                let met = self.translated(remapper_id, &parent, loc.parent_object_id);
                met.is_some() || (own.is_some() && own_next < i32::MAX) || (own.is_none()
                    && own_next < i32::MAX - 1)
            }
        } else {
            let met = self.translated(remapper_id, &parent, loc.parent_object_id);
            met.is_some() || self.next_id(&parent) < i32::MAX
        }
    }

    /// Translates both keys of a location into global keys: the row's own
    /// key in its table, then the enclosing row's key in the enclosing
    /// table. The table path stays.
    pub fn remap_ids(&mut self, remapper_id: usize, loc: TableLocation) -> (r: TableLocation)
        requires
            old(self).wf(),
            old(self)@.is_open(remapper_id),
            old(self)@.remap_fits(remapper_id, loc@),
        ensures
            final(self).wf(),
            final(self)@ == old(self)@.after_remap(remapper_id, loc@),
            r@ == old(self)@.remapped(remapper_id, loc@),
    {
        proof {
            lemma_after_find(self@, remapper_id, loc.table_path.deep_view(), loc.object_id);
        }
        let mut loc = loc;
        loc.object_id = self.find_obj_id(remapper_id, &loc.table_path, loc.object_id);
        let parent = loc.parent_table_path();
        loc.parent_object_id = self.find_obj_id(remapper_id, &parent, loc.parent_object_id);
        loc
    }
}

/// Why the reading of a document stopped.
#[derive(Debug, Clone, Copy, PartialEq, Eq, Structural)]
pub enum ReadError {
    /// A key arrived where no object is open.
    UnexpectedKey,
    /// A table has no key left for a row.
    KeysExhausted,
    /// The session of the document is not open in the remapper.
    SessionClosed,
    /// No session number is left for another document.
    SessionsExhausted,
    /// The sink refused a row.
    Refused(DatabaseError),
}

/// What a `DocumentReader` is in contracts.
pub struct ReaderView {
    /// The scopes of the document.
    pub tree: TreeView,
    /// The number of the document's session.
    pub session: usize,
    /// The number of rows that the document has given so far; it stops
    /// counting at `usize::MAX`.
    pub count: usize,
}

/// What a token makes of a reader and a remapper.
pub enum Pushed {
    /// The token was taken: the reader and the remapper after it, and the
    /// row that it completed, if any, with its keys remapped.
    Taken(ReaderView, RemapperView, Option<Row>),
    /// The token was refused, and the reader is left in this state.
    Refused(ReadError, ReaderView),
}

/// One more row, unless the count is at its limit.
pub open spec fn counted(count: usize) -> usize {
    if count < usize::MAX {
        (count + 1) as usize
    } else {
        count
    }
}

/// What the token `event` makes of a reader and a remapper. A key outside
/// an object is refused, and so is a token that completes a row for which
/// the scope has no key left; the reader then stays as it is. A row that
/// the token completes is counted and its keys are remapped in the reader's
/// session; if the session is not open, or the remapper has no key left,
/// the token is refused after the handler has taken it, and the row is
/// lost.
pub open spec fn pushed(reader: ReaderView, remapper: RemapperView, event: EventView) -> Pushed {
    let stepped = ReaderView {
        tree: reader.tree.step(event),
        session: reader.session,
        count: reader.count,
    };
    if !reader.tree.accepts(event) {
        Pushed::Refused(
            if event is MapKey {
                ReadError::UnexpectedKey
            } else {
                ReadError::KeysExhausted
            },
            reader,
        )
    } else {
        match reader.tree.output(event) {
            None => Pushed::Taken(stepped, remapper, None),
            Some(row) => if !remapper.is_open(reader.session) {
                Pushed::Refused(ReadError::SessionClosed, stepped)
            } else if !remapper.remap_fits(reader.session, row.0) {
                Pushed::Refused(ReadError::KeysExhausted, stepped)
            } else {
                Pushed::Taken(
                    ReaderView {
                        tree: reader.tree.step(event),
                        session: reader.session,
                        count: counted(reader.count),
                    },
                    remapper.after_remap(reader.session, row.0),
                    Some((remapper.remapped(reader.session, row.0), row.1)),
                )
            },
        }
    }
}

/// Reads one document: takes its tokens one by one, and hands out every row
/// that a token completes, with its keys remapped in a session of its own.
pub struct DocumentReader {
    handler: NestedObjectHandler,
    remapper_id: usize,
    num_records: usize,
}

impl View for DocumentReader {
    type V = ReaderView;

    closed spec fn view(&self) -> ReaderView {
        ReaderView { tree: self.handler@, session: self.remapper_id, count: self.num_records }
    }
}

impl DocumentReader {
    /// The reader's invariant.
    pub closed spec fn wf(&self) -> bool {
        self.handler.wf()
    }

    /// What the invariant says of the reader as contracts see it.
    pub proof fn lemma_wf(&self)
        requires
            self.wf(),
        ensures
            self@.tree.wf(),
    {
        self.handler.lemma_wf();
    }

    /// Starts a document: opens a session for it in the remapper.
    pub fn start(id_remapper: &mut IdRemapper) -> (r: Result<DocumentReader, ReadError>)
        requires
            old(id_remapper).wf(),
        ensures
            final(id_remapper).wf(),
            old(id_remapper)@.next_session < usize::MAX ==> r is Ok,
            r matches Ok(reader) ==> reader.wf() && final(id_remapper)@ == old(
                id_remapper,
            )@.after_open() && reader@ == (ReaderView {
                tree: initial_tree(),
                session: old(id_remapper)@.next_session,
                count: 0,
            }),
            old(id_remapper)@.next_session == usize::MAX ==> r == Err::<DocumentReader, ReadError>(
                ReadError::SessionsExhausted,
            ) && final(id_remapper)@ == old(id_remapper)@,
    {
        if !id_remapper.has_next_session() {
            return Err(ReadError::SessionsExhausted);
        }
        let remapper_id = id_remapper.start_remapper();
        Ok(DocumentReader { handler: NestedObjectHandler::new(), remapper_id, num_records: 0 })
    }

    /// The number of rows that the document has given so far.
    pub fn num_records(&self) -> (n: usize)
        ensures
            n == self@.count,
    {
        self.num_records
    }

    /// The number of the document's session.
    pub fn remapper_id(&self) -> (id: usize)
        ensures
            id == self@.session,
    {
        self.remapper_id
    }

    /// Takes the next token of the document. Returns the row that the token
    /// completes, if it completes one, with its keys remapped. A refused
    /// token leaves the remapper as it is.
    pub fn push(&mut self, id_remapper: &mut IdRemapper, event: Event) -> (r: Result<
        Option<(TableLocation, TableRecord)>,
        ReadError,
    >)
        requires
            old(self).wf(),
            old(id_remapper).wf(),
        ensures
            final(self).wf(),
            final(id_remapper).wf(),
            match pushed(old(self)@, old(id_remapper)@, event@) {
                Pushed::Taken(reader, remapper, row) => {
                    &&& r is Ok
                    &&& final(self)@ == reader
                    &&& final(id_remapper)@ == remapper
                    &&& r->Ok_0 is Some == row is Some
                    &&& r->Ok_0 matches Some(out) ==> Some((out.0@, out.1@)) == row
                },
                Pushed::Refused(e, reader) => r == Err::<
                    Option<(TableLocation, TableRecord)>,
                    ReadError,
                >(e) && final(self)@ == reader && final(id_remapper)@ == old(id_remapper)@,
            },
    {
        if !self.handler.can_handle(&event) {
            return Err(
                match event {
                    Event::MapKey(_) => ReadError::UnexpectedKey,
                    _ => ReadError::KeysExhausted,
                },
            );
        }
        match self.handler.handle(event) {
            None => Ok(None),
            Some((loc, rec)) => {
                if !id_remapper.has_session(self.remapper_id) {
                    return Err(ReadError::SessionClosed);
                }
                if !id_remapper.can_remap(self.remapper_id, &loc) {
                    return Err(ReadError::KeysExhausted);
                }
                let loc = id_remapper.remap_ids(self.remapper_id, loc);
                if self.num_records < usize::MAX {
                    self.num_records += 1;
                }
                Ok(Some((loc, rec)))
            },
        }
    }

    /// Ends the document: closes its session, and returns the number of rows
    /// that the document has given.
    pub fn finish(self, id_remapper: &mut IdRemapper) -> (n: usize)
        requires
            old(id_remapper).wf(),
        ensures
            final(id_remapper).wf(),
            final(id_remapper)@ == old(id_remapper)@.after_close(self@.session),
            n == self@.count,
    {
        id_remapper.finish_remapper(self.remapper_id);
        self.num_records
    }
}

/// What a sequence of tokens makes of a reader and a remapper.
pub enum PushedAll {
    /// Every token was taken: the reader and the remapper after the last
    /// one, and the rows that the tokens completed, with their keys
    /// remapped.
    Taken(ReaderView, RemapperView, Seq<Row>),
    /// A token was refused, and the tokens after it were not looked at.
    Refused(ReadError),
}

/// What the tokens `events`, pushed in their order, make of a reader and a
/// remapper.
pub open spec fn pushed_all(
    reader: ReaderView,
    remapper: RemapperView,
    events: Seq<EventView>,
) -> PushedAll
    decreases events.len(),
{
    if events.len() == 0 {
        PushedAll::Taken(reader, remapper, Seq::empty())
    } else {
        match pushed_all(reader, remapper, events.drop_last()) {
            PushedAll::Refused(e) => PushedAll::Refused(e),
            PushedAll::Taken(r, m, out) => match pushed(r, m, events.last()) {
                Pushed::Refused(e, _) => PushedAll::Refused(e),
                Pushed::Taken(r2, m2, row) => PushedAll::Taken(
                    r2,
                    m2,
                    match row {
                        Some(x) => out.push(x),
                        None => out,
                    },
                ),
            },
        }
    }
}

/// The rows of a document as contracts see them.
pub open spec fn row_views(rows: Seq<(TableLocation, TableRecord)>) -> Seq<Row> {
    Seq::new(rows.len(), |i: int| (rows[i].0@, rows[i].1@))
}

/// The reader of a document before its first token, in the session that
/// the remapper opens next.
pub open spec fn fresh_reader(remapper: RemapperView) -> ReaderView {
    ReaderView { tree: initial_tree(), session: remapper.next_session, count: 0 }
}

/// What reading a document makes of a remapper.
pub enum DocumentRead {
    /// The document was read to its end: the remapper after it, and the
    /// rows of the document with their keys remapped.
    Read(RemapperView, Seq<Row>),
    /// The reading stopped.
    Stopped(ReadError),
}

/// What reading the document with the tokens `events` makes of a remapper:
/// a session is opened, the tokens are pushed, and the session is closed.
pub open spec fn document_read(remapper: RemapperView, events: Seq<EventView>) -> DocumentRead {
    if remapper.next_session == usize::MAX {
        DocumentRead::Stopped(ReadError::SessionsExhausted)
    } else {
        match pushed_all(fresh_reader(remapper), remapper.after_open(), events) {
            PushedAll::Taken(reader, after, out) => DocumentRead::Read(
                after.after_close(reader.session),
                out,
            ),
            PushedAll::Refused(e) => DocumentRead::Stopped(e),
        }
    }
}

/// What reading several documents makes of a remapper.
pub enum DocumentsRead {
    /// All documents were read: the remapper after them, and the rows of
    /// each document.
    Read(RemapperView, Seq<Seq<Row>>),
    /// The reading stopped in some document.
    Stopped(ReadError),
}

/// What reading the documents, in their order, makes of a remapper.
pub open spec fn documents_read(remapper: RemapperView, docs: Seq<Seq<EventView>>) -> DocumentsRead
    decreases docs.len(),
{
    if docs.len() == 0 {
        DocumentsRead::Read(remapper, Seq::empty())
    } else {
        match documents_read(remapper, docs.drop_last()) {
            DocumentsRead::Stopped(e) => DocumentsRead::Stopped(e),
            DocumentsRead::Read(before, tables) => match document_read(before, docs.last()) {
                DocumentRead::Stopped(e) => DocumentsRead::Stopped(e),
                DocumentRead::Read(after, out) => DocumentsRead::Read(after, tables.push(out)),
            },
        }
    }
}

/// Reads one document from its tokens: opens a session, pushes the tokens
/// in their order, and closes the session. Returns the rows of the document
/// with their keys remapped. The first token that is refused ends the
/// reading; the session is closed then too.
pub fn read_document(id_remapper: &mut IdRemapper, events: Vec<Event>) -> (r: Result<
    Vec<(TableLocation, TableRecord)>,
    ReadError,
>)
    requires
        old(id_remapper).wf(),
    ensures
        final(id_remapper).wf(),
        match document_read(old(id_remapper)@, events.deep_view()) {
            DocumentRead::Read(remapper, out) => {
                &&& r is Ok
                &&& row_views(r->Ok_0@) == out
                &&& final(id_remapper)@ == remapper
            },
            DocumentRead::Stopped(e) => r == Err::<Vec<(TableLocation, TableRecord)>, ReadError>(
                e,
            ),
        },
{
    let mut reader = match DocumentReader::start(id_remapper) {
        Ok(reader) => reader,
        Err(e) => {
            return Err(e);
        },
    };
    let ghost first = reader@;
    let ghost opened = id_remapper@;
    let ghost tokens = events.deep_view();
    let mut rows: Vec<(TableLocation, TableRecord)> = Vec::new();
    let mut pending = events;
    let n = pending.len();
    let mut i: usize = 0;
    proof {
        assert(row_views(rows@) =~= Seq::<Row>::empty());
        assert(tokens.take(0).len() == 0);
    }
    while i < n
        invariant
            i <= n,
            n == tokens.len(),
            pending.len() == n,
            forall|j: int| i <= j < n ==> (#[trigger] pending[j])@ == tokens[j],
            tokens == events.deep_view(),
            old(id_remapper)@.next_session < usize::MAX,
            first == fresh_reader(old(id_remapper)@),
            opened == old(id_remapper)@.after_open(),
            reader.wf(),
            id_remapper.wf(),
            pushed_all(first, opened, tokens.take(i as int)) == PushedAll::Taken(
                reader@,
                id_remapper@,
                row_views(rows@),
            ),
        decreases n - i,
    {
        let mut event = Event::StartMap;
        std::mem::swap(&mut pending[i], &mut event);
        proof {
            assert(tokens.take(i + 1).drop_last() =~= tokens.take(i as int));
            assert(tokens.take(i + 1).last() == event@);
        }
        let ghost before = row_views(rows@);
        match reader.push(id_remapper, event) {
            Ok(Some(row)) => {
                rows.push(row);
                assert(row_views(rows@) =~= before.push((row.0@, row.1@)));
            },
            Ok(None) => {},
            Err(e) => {
                proof {
                    lemma_refusal_stays(first, opened, tokens, i + 1);
                }
                reader.finish(id_remapper);
                return Err(e);
            },
        }
        i = i + 1;
    }
    proof {
        assert(tokens.take(n as int) =~= tokens);
    }
    reader.finish(id_remapper);
    Ok(rows)
}

/// Once a token is refused, the tokens after it change nothing.
pub proof fn lemma_refusal_stays(
    reader: ReaderView,
    remapper: RemapperView,
    events: Seq<EventView>,
    n: int,
)
    requires
        0 <= n <= events.len(),
        pushed_all(reader, remapper, events.take(n)) is Refused,
    ensures
        pushed_all(reader, remapper, events) == pushed_all(reader, remapper, events.take(n)),
    decreases events.len(),
{
    if n == events.len() {
        assert(events.take(n) =~= events);
    } else {
        assert(events.drop_last().take(n) =~= events.take(n));
        lemma_refusal_stays(reader, remapper, events.drop_last(), n);
    }
}

/// The rows of several documents as contracts see them.
pub open spec fn table_views(tables: Seq<Vec<(TableLocation, TableRecord)>>) -> Seq<Seq<Row>> {
    Seq::new(tables.len(), |d: int| row_views(tables[d]@))
}

/// What the documents are in contracts: the tokens of each.
pub open spec fn document_views(documents: Seq<Vec<Event>>) -> Seq<Seq<EventView>> {
    Seq::new(documents.len(), |d: int| documents[d].deep_view())
}

/// Reads documents one after another, each from its tokens and in a session
/// of its own. Returns the rows of each document with their keys remapped.
/// Where the reading of a document stops, the documents after it are not
/// read.
pub fn read_documents(id_remapper: &mut IdRemapper, documents: Vec<Vec<Event>>) -> (r: Result<
    Vec<Vec<(TableLocation, TableRecord)>>,
    ReadError,
>)
    requires
        old(id_remapper).wf(),
    ensures
        final(id_remapper).wf(),
        match documents_read(old(id_remapper)@, document_views(documents@)) {
            DocumentsRead::Read(remapper, tables) => {
                &&& r is Ok
                &&& table_views(r->Ok_0@) == tables
                &&& final(id_remapper)@ == remapper
            },
            DocumentsRead::Stopped(e) => r == Err::<
                Vec<Vec<(TableLocation, TableRecord)>>,
                ReadError,
            >(e),
        },
{
    let ghost docs = document_views(documents@);
    let ghost start = id_remapper@;
    let mut tables: Vec<Vec<(TableLocation, TableRecord)>> = Vec::new();
    let mut pending = documents;
    let n = pending.len();
    let mut d: usize = 0;
    proof {
        assert(table_views(tables@) =~= Seq::<Seq<Row>>::empty());
        assert(docs.take(0).len() == 0);
    }
    while d < n
        invariant
            d <= n,
            n == docs.len(),
            pending.len() == n,
            forall|j: int| d <= j < n ==> (#[trigger] pending[j]).deep_view() == docs[j],
            docs == document_views(documents@),
            start == old(id_remapper)@,
            id_remapper.wf(),
            documents_read(start, docs.take(d as int)) == DocumentsRead::Read(
                id_remapper@,
                table_views(tables@),
            ),
        decreases n - d,
    {
        let mut events: Vec<Event> = Vec::new();
        std::mem::swap(&mut pending[d], &mut events);
        proof {
            assert(docs.take(d + 1).drop_last() =~= docs.take(d as int));
            assert(docs.take(d + 1).last() == events.deep_view());
        }
        let ghost before = table_views(tables@);
        match read_document(id_remapper, events) {
            Ok(rows) => {
                tables.push(rows);
                assert(table_views(tables@) =~= before.push(row_views(rows@)));
            },
            Err(e) => {
                proof {
                    lemma_stop_stays(start, docs, d + 1);
                }
                return Err(e);
            },
        }
        d = d + 1;
    }
    proof {
        assert(docs.take(n as int) =~= docs);
    }
    Ok(tables)
}

/// Once the reading has stopped, the documents after that change nothing.
pub proof fn lemma_stop_stays(remapper: RemapperView, docs: Seq<Seq<EventView>>, n: int)
    requires
        0 <= n <= docs.len(),
        documents_read(remapper, docs.take(n)) is Stopped,
    ensures
        documents_read(remapper, docs) == documents_read(remapper, docs.take(n)),
    decreases docs.len(),
{
    if n == docs.len() {
        assert(docs.take(n) =~= docs);
    } else {
        assert(docs.drop_last().take(n) =~= docs.take(n));
        lemma_stop_stays(remapper, docs.drop_last(), n);
    }
}

/// What a sink has handed back, as contracts see it.
pub open spec fn written_views<D: Database>(written: Seq<D::Written>) -> Seq<D::WrittenView> {
    Seq::new(written.len(), |i: int| D::written_view(written[i]))
}

/// What the tokens of one document, handled in their order, make of a
/// handler and a sink: the handler and the sink after the last token, and
/// what the sink handed back for the rows; or the reason for which the
/// first token that could not be handled, or whose row the sink refused,
/// stopped the reading.
pub open spec fn fed<D: Database>(tree: TreeView, state: D::V, events: Seq<EventView>) -> Result<
    (TreeView, D::V, Seq<D::WrittenView>),
    ReadError,
>
    decreases events.len(),
{
    if events.len() == 0 {
        Ok((tree, state, Seq::empty()))
    } else {
        match fed::<D>(tree, state, events.drop_last()) {
            Err(e) => Err(e),
            Ok((before, sink, out)) => if !before.accepts(events.last()) {
                Err(
                    if events.last() is MapKey {
                        ReadError::UnexpectedKey
                    } else {
                        ReadError::KeysExhausted
                    },
                )
            } else {
                match before.output(events.last()) {
                    None => Ok((before.step(events.last()), sink, out)),
                    Some(row) => match D::write_result(sink, row.0, row.1) {
                        Ok(w) => Ok(
                            (
                                before.step(events.last()),
                                D::after_write(sink, row.0, row.1),
                                out.push(w),
                            ),
                        ),
                        Err(e) => Err(ReadError::Refused(e)),
                    },
                }
            },
        }
    }
}

/// Once the reading has stopped, the tokens after that change nothing.
pub proof fn lemma_fed_stays<D: Database>(
    tree: TreeView,
    state: D::V,
    events: Seq<EventView>,
    n: int,
)
    requires
        0 <= n <= events.len(),
        fed::<D>(tree, state, events.take(n)) is Err,
    ensures
        fed::<D>(tree, state, events) == fed::<D>(tree, state, events.take(n)),
    decreases events.len(),
{
    if n == events.len() {
        assert(events.take(n) =~= events);
    } else {
        assert(events.drop_last().take(n) =~= events.take(n));
        lemma_fed_stays::<D>(tree, state, events.drop_last(), n);
    }
}

/// Reads one document from its tokens into a sink: every row goes to the
/// sink as soon as it is complete, with the keys that the document counts.
/// Returns what the sink handed back for the rows.
pub fn read_to_db<D: Database>(database: &mut D, events: Vec<Event>) -> (r: Result<
    Vec<D::Written>,
    ReadError,
>)
    requires
        old(database).wf(),
    ensures
        final(database).wf(),
        match fed::<D>(initial_tree(), old(database)@, events.deep_view()) {
            Ok((_, sink, out)) => {
                &&& r is Ok
                &&& final(database)@ == sink
                &&& written_views::<D>(r->Ok_0@) == out
            },
            Err(e) => r == Err::<Vec<D::Written>, ReadError>(e),
        },
{
    let mut handler = NestedObjectHandler::new();
    let ghost start = database@;
    let ghost tokens = events.deep_view();
    let mut written: Vec<D::Written> = Vec::new();
    let mut pending = events;
    let n = pending.len();
    let mut i: usize = 0;
    proof {
        assert(written_views::<D>(written@) =~= Seq::<D::WrittenView>::empty());
        assert(tokens.take(0).len() == 0);
    }
    while i < n
        invariant
            i <= n,
            n == tokens.len(),
            pending.len() == n,
            forall|j: int| i <= j < n ==> (#[trigger] pending[j])@ == tokens[j],
            tokens == events.deep_view(),
            start == old(database)@,
            handler.wf(),
            database.wf(),
            fed::<D>(initial_tree(), start, tokens.take(i as int)) == Ok::<
                (TreeView, D::V, Seq<D::WrittenView>),
                ReadError,
            >((handler@, database@, written_views::<D>(written@))),
        decreases n - i,
    {
        let mut event = Event::StartMap;
        std::mem::swap(&mut pending[i], &mut event);
        proof {
            assert(tokens.take(i + 1).drop_last() =~= tokens.take(i as int));
            assert(tokens.take(i + 1).last() == event@);
        }
        if !handler.can_handle(&event) {
            proof {
                lemma_fed_stays::<D>(initial_tree(), start, tokens, i + 1);
            }
            return Err(
                match event {
                    Event::MapKey(_) => ReadError::UnexpectedKey,
                    _ => ReadError::KeysExhausted,
                },
            );
        }
        match handler.handle(event) {
            None => {},
            Some((loc, rec)) => {
                let ghost before = written_views::<D>(written@);
                match database.write(loc, rec) {
                    Ok(w) => {
                        written.push(w);
                        assert(written_views::<D>(written@) =~= before.push(D::written_view(w)));
                    },
                    Err(e) => {
                        proof {
                            lemma_fed_stays::<D>(initial_tree(), start, tokens, i + 1);
                        }
                        return Err(ReadError::Refused(e));
                    },
                }
            },
        }
        i = i + 1;
    }
    proof {
        assert(tokens.take(n as int) =~= tokens);
    }
    Ok(written)
}

/// What the tokens of one document, pushed in their order, make of a
/// reader, a remapper and a sink. Every row goes to the sink with its keys
/// remapped.
pub open spec fn fed_document<D: Database>(
    reader: ReaderView,
    remapper: RemapperView,
    state: D::V,
    events: Seq<EventView>,
) -> Result<(ReaderView, RemapperView, D::V, Seq<D::WrittenView>), ReadError>
    decreases events.len(),
{
    if events.len() == 0 {
        Ok((reader, remapper, state, Seq::empty()))
    } else {
        match fed_document::<D>(reader, remapper, state, events.drop_last()) {
            Err(e) => Err(e),
            Ok((before, ids, sink, out)) => match pushed(before, ids, events.last()) {
                Pushed::Refused(e, _) => Err(e),
                Pushed::Taken(after, ids_after, None) => Ok((after, ids_after, sink, out)),
                Pushed::Taken(after, ids_after, Some(row)) => match D::write_result(
                    sink,
                    row.0,
                    row.1,
                ) {
                    Ok(w) => Ok(
                        (after, ids_after, D::after_write(sink, row.0, row.1), out.push(w)),
                    ),
                    Err(e) => Err(ReadError::Refused(e)),
                },
            },
        }
    }
}

/// What reading the documents, in their order, makes of a remapper and a
/// sink: each document is read in a session of its own, which is closed
/// after its last token.
pub open spec fn fed_documents<D: Database>(
    remapper: RemapperView,
    state: D::V,
    docs: Seq<Seq<EventView>>,
) -> Result<(RemapperView, D::V, Seq<Seq<D::WrittenView>>), ReadError>
    decreases docs.len(),
{
    if docs.len() == 0 {
        Ok((remapper, state, Seq::empty()))
    } else {
        match fed_documents::<D>(remapper, state, docs.drop_last()) {
            Err(e) => Err(e),
            Ok((ids, sink, tables)) => if ids.next_session == usize::MAX {
                Err(ReadError::SessionsExhausted)
            } else {
                match fed_document::<D>(fresh_reader(ids), ids.after_open(), sink, docs.last()) {
                    Err(e) => Err(e),
                    Ok((reader, ids_after, sink_after, out)) => Ok(
                        (ids_after.after_close(reader.session), sink_after, tables.push(out)),
                    ),
                }
            },
        }
    }
}

/// Once the reading of a document has stopped, the tokens after that change
/// nothing.
pub proof fn lemma_fed_document_stays<D: Database>(
    reader: ReaderView,
    remapper: RemapperView,
    state: D::V,
    events: Seq<EventView>,
    n: int,
)
    requires
        0 <= n <= events.len(),
        fed_document::<D>(reader, remapper, state, events.take(n)) is Err,
    ensures
        fed_document::<D>(reader, remapper, state, events) == fed_document::<D>(
            reader,
            remapper,
            state,
            events.take(n),
        ),
    decreases events.len(),
{
    if n == events.len() {
        assert(events.take(n) =~= events);
    } else {
        assert(events.drop_last().take(n) =~= events.take(n));
        lemma_fed_document_stays::<D>(reader, remapper, state, events.drop_last(), n);
    }
}

/// Once the reading has stopped, the documents after that change nothing.
pub proof fn lemma_fed_documents_stay<D: Database>(
    remapper: RemapperView,
    state: D::V,
    docs: Seq<Seq<EventView>>,
    n: int,
)
    requires
        0 <= n <= docs.len(),
        fed_documents::<D>(remapper, state, docs.take(n)) is Err,
    ensures
        fed_documents::<D>(remapper, state, docs) == fed_documents::<D>(
            remapper,
            state,
            docs.take(n),
        ),
    decreases docs.len(),
{
    if n == docs.len() {
        assert(docs.take(n) =~= docs);
    } else {
        assert(docs.drop_last().take(n) =~= docs.take(n));
        lemma_fed_documents_stay::<D>(remapper, state, docs.drop_last(), n);
    }
}

/// What a sink has handed back for the rows of several documents, as
/// contracts see it.
pub open spec fn written_tables<D: Database>(written: Seq<Vec<D::Written>>) -> Seq<
    Seq<D::WrittenView>,
> {
    Seq::new(written.len(), |d: int| written_views::<D>(written[d]@))
}

/// Reads one document from its tokens into a sink, in a session of its own.
fn read_one_to_db<D: Database>(
    database: &mut D,
    id_remapper: &mut IdRemapper,
    events: Vec<Event>,
) -> (r: Result<Vec<D::Written>, ReadError>)
    requires
        old(database).wf(),
        old(id_remapper).wf(),
    ensures
        final(database).wf(),
        final(id_remapper).wf(),
        old(id_remapper)@.next_session == usize::MAX ==> r == Err::<Vec<D::Written>, ReadError>(
            ReadError::SessionsExhausted,
        ),
        old(id_remapper)@.next_session < usize::MAX ==> match fed_document::<D>(
            fresh_reader(old(id_remapper)@),
            old(id_remapper)@.after_open(),
            old(database)@,
            events.deep_view(),
        ) {
            Ok((reader, ids, sink, out)) => {
                &&& r is Ok
                &&& final(id_remapper)@ == ids.after_close(reader.session)
                &&& final(database)@ == sink
                &&& written_views::<D>(r->Ok_0@) == out
            },
            Err(e) => r == Err::<Vec<D::Written>, ReadError>(e),
        },
{
    let mut reader = match DocumentReader::start(id_remapper) {
        Ok(reader) => reader,
        Err(e) => {
            return Err(e);
        },
    };
    let ghost first = reader@;
    let ghost opened = id_remapper@;
    let ghost start = database@;
    let ghost tokens = events.deep_view();
    let mut written: Vec<D::Written> = Vec::new();
    let mut pending = events;
    let n = pending.len();
    let mut i: usize = 0;
    proof {
        assert(written_views::<D>(written@) =~= Seq::<D::WrittenView>::empty());
        assert(tokens.take(0).len() == 0);
    }
    while i < n
        invariant
            i <= n,
            n == tokens.len(),
            pending.len() == n,
            forall|j: int| i <= j < n ==> (#[trigger] pending[j])@ == tokens[j],
            tokens == events.deep_view(),
            old(id_remapper)@.next_session < usize::MAX,
            first == fresh_reader(old(id_remapper)@),
            opened == old(id_remapper)@.after_open(),
            start == old(database)@,
            reader.wf(),
            id_remapper.wf(),
            database.wf(),
            fed_document::<D>(first, opened, start, tokens.take(i as int)) == Ok::<
                (ReaderView, RemapperView, D::V, Seq<D::WrittenView>),
                ReadError,
            >((reader@, id_remapper@, database@, written_views::<D>(written@))),
        decreases n - i,
    {
        let mut event = Event::StartMap;
        std::mem::swap(&mut pending[i], &mut event);
        proof {
            assert(tokens.take(i + 1).drop_last() =~= tokens.take(i as int));
            assert(tokens.take(i + 1).last() == event@);
        }
        match reader.push(id_remapper, event) {
            Ok(None) => {},
            Ok(Some((loc, rec))) => {
                let ghost before = written_views::<D>(written@);
                match database.write(loc, rec) {
                    Ok(w) => {
                        written.push(w);
                        assert(written_views::<D>(written@) =~= before.push(D::written_view(w)));
                    },
                    Err(e) => {
                        proof {
                            lemma_fed_document_stays::<D>(first, opened, start, tokens, i + 1);
                        }
                        reader.finish(id_remapper);
                        return Err(ReadError::Refused(e));
                    },
                }
            },
            Err(e) => {
                proof {
                    lemma_fed_document_stays::<D>(first, opened, start, tokens, i + 1);
                }
                reader.finish(id_remapper);
                return Err(e);
            },
        }
        i = i + 1;
    }
    proof {
        assert(tokens.take(n as int) =~= tokens);
    }
    reader.finish(id_remapper);
    Ok(written)
}

/// Reads documents one after another into a sink, each from its tokens and
/// in a session of its own of a new remapper. Every row goes to the sink as
/// soon as it is complete, with its keys remapped. Returns, for each
/// document, what the sink handed back for its rows.
pub fn read_to_db_many<D: Database>(database: &mut D, documents: Vec<Vec<Event>>) -> (r: Result<
    Vec<Vec<D::Written>>,
    ReadError,
>)
    requires
        old(database).wf(),
    ensures
        final(database).wf(),
        match fed_documents::<D>(
            initial_remapper(),
            old(database)@,
            document_views(documents@),
        ) {
            Ok((_, sink, out)) => {
                &&& r is Ok
                &&& final(database)@ == sink
                &&& written_tables::<D>(r->Ok_0@) == out
            },
            Err(e) => r == Err::<Vec<Vec<D::Written>>, ReadError>(e),
        },
{
    let mut id_remapper = IdRemapper::new();
    let ghost docs = document_views(documents@);
    let ghost start = database@;
    let mut tables: Vec<Vec<D::Written>> = Vec::new();
    let mut pending = documents;
    let n = pending.len();
    let mut d: usize = 0;
    proof {
        assert(written_tables::<D>(tables@) =~= Seq::<Seq<D::WrittenView>>::empty());
        assert(docs.take(0).len() == 0);
    }
    while d < n
        invariant
            d <= n,
            n == docs.len(),
            pending.len() == n,
            forall|j: int| d <= j < n ==> (#[trigger] pending[j]).deep_view() == docs[j],
            docs == document_views(documents@),
            start == old(database)@,
            id_remapper.wf(),
            database.wf(),
            fed_documents::<D>(initial_remapper(), start, docs.take(d as int)) == Ok::<
                (RemapperView, D::V, Seq<Seq<D::WrittenView>>),
                ReadError,
            >((id_remapper@, database@, written_tables::<D>(tables@))),
        decreases n - d,
    {
        let mut events: Vec<Event> = Vec::new();
        std::mem::swap(&mut pending[d], &mut events);
        proof {
            assert(docs.take(d + 1).drop_last() =~= docs.take(d as int));
            assert(docs.take(d + 1).last() == events.deep_view());
        }
        let ghost before = written_tables::<D>(tables@);
        match read_one_to_db(database, &mut id_remapper, events) {
            Ok(written) => {
                tables.push(written);
                assert(written_tables::<D>(tables@) =~= before.push(
                    written_views::<D>(written@),
                ));
            },
            Err(e) => {
                proof {
                    lemma_fed_documents_stay::<D>(initial_remapper(), start, docs, d + 1);
                }
                return Err(e);
            },
        }
        d = d + 1;
    }
    proof {
        assert(docs.take(n as int) =~= docs);
    }
    Ok(tables)
}

/// What giving the rows to a sink, in their order, makes of the sink: the
/// sink after the last row, and what it handed back for the rows; or the
/// reason for which it refused a row.
pub open spec fn given<D: Database>(state: D::V, rows: Seq<Row>) -> Result<
    (D::V, Seq<D::WrittenView>),
    DatabaseError,
>
    decreases rows.len(),
{
    if rows.len() == 0 {
        Ok((state, Seq::empty()))
    } else {
        match given::<D>(state, rows.drop_last()) {
            Err(e) => Err(e),
            Ok((sink, out)) => match D::write_result(sink, rows.last().0, rows.last().1) {
                Ok(w) => Ok((D::after_write(sink, rows.last().0, rows.last().1), out.push(w))),
                Err(e) => Err(e),
            },
        }
    }
}

/// The lists one after another.
pub open spec fn flat<T>(lists: Seq<Seq<T>>) -> Seq<T>
    decreases lists.len(),
{
    if lists.len() == 0 {
        Seq::empty()
    } else {
        flat(lists.drop_last()) + lists.last()
    }
}

/// Rows given after other rows are given to the sink that those left.
pub proof fn lemma_given_after<D: Database>(state: D::V, first: Seq<Row>, then: Seq<Row>)
    ensures
        given::<D>(state, first + then) == match given::<D>(state, first) {
            Err(e) => Err::<(D::V, Seq<D::WrittenView>), DatabaseError>(e),
            Ok((sink, out)) => match given::<D>(sink, then) {
                Err(e) => Err(e),
                Ok((last, more)) => Ok((last, out + more)),
            },
        },
    decreases then.len(),
{
    if then.len() == 0 {
        assert(first + then =~= first);
        match given::<D>(state, first) {
            Ok((sink, out)) => {
                assert(out + Seq::<D::WrittenView>::empty() =~= out);
            },
            Err(_) => {},
        }
    } else {
        lemma_given_after::<D>(state, first, then.drop_last());
        assert((first + then).drop_last() =~= first + then.drop_last());
        assert((first + then).last() == then.last());
        match given::<D>(state, first) {
            Ok((sink, out)) => match given::<D>(sink, then.drop_last()) {
                Ok((last, more)) => match D::write_result(last, then.last().0, then.last().1) {
                    Ok(w) => {
                        assert((out + more).push(w) =~= out + more.push(w));
                    },
                    Err(_) => {},
                },
                Err(_) => {},
            },
            Err(_) => {},
        }
    }
}

/// Where a document is read into a sink to its end, the reader and the
/// remapper do what they do without a sink, and the sink is given the rows
/// that come out, in their order.
pub proof fn lemma_fed_document_gives<D: Database>(
    reader: ReaderView,
    remapper: RemapperView,
    state: D::V,
    events: Seq<EventView>,
)
    requires
        fed_document::<D>(reader, remapper, state, events) is Ok,
    ensures
        pushed_all(reader, remapper, events) matches PushedAll::Taken(after, ids, rows) && ({
            let fed = fed_document::<D>(reader, remapper, state, events)->Ok_0;
            &&& fed.0 == after
            &&& fed.1 == ids
            &&& given::<D>(state, rows) == Ok::<(D::V, Seq<D::WrittenView>), DatabaseError>(
                (fed.2, fed.3),
            )
        }),
    decreases events.len(),
{
    if events.len() > 0 {
        lemma_fed_document_gives::<D>(reader, remapper, state, events.drop_last());
        let rows = pushed_all(reader, remapper, events.drop_last())->Taken_2;
        let before = pushed_all(reader, remapper, events.drop_last())->Taken_0;
        let ids = pushed_all(reader, remapper, events.drop_last())->Taken_1;
        match pushed(before, ids, events.last()) {
            Pushed::Taken(_, _, Some(row)) => {
                assert(rows.push(row).drop_last() =~= rows);
            },
            _ => {},
        }
    }
}

/// Where documents are read into a sink to the end, the remapper does what
/// it does without a sink, and the sink is given the rows of all documents,
/// in the order of the documents and of their rows.
pub proof fn lemma_fed_documents_give<D: Database>(
    remapper: RemapperView,
    state: D::V,
    docs: Seq<Seq<EventView>>,
)
    requires
        fed_documents::<D>(remapper, state, docs) is Ok,
    ensures
        documents_read(remapper, docs) matches DocumentsRead::Read(ids, tables) && ({
            let fed = fed_documents::<D>(remapper, state, docs)->Ok_0;
            &&& fed.0 == ids
            &&& given::<D>(state, flat(tables)) == Ok::<(D::V, Seq<D::WrittenView>), DatabaseError>(
                (fed.1, flat(fed.2)),
            )
        }),
    decreases docs.len(),
{
    if docs.len() > 0 {
        lemma_fed_documents_give::<D>(remapper, state, docs.drop_last());
        let before = fed_documents::<D>(remapper, state, docs.drop_last())->Ok_0;
        let tables = documents_read(remapper, docs.drop_last())->Read_1;
        lemma_fed_document_gives::<D>(
            fresh_reader(before.0),
            before.0.after_open(),
            before.1,
            docs.last(),
        );
        let rows = pushed_all(fresh_reader(before.0), before.0.after_open(), docs.last())->Taken_2;
        lemma_given_after::<D>(state, flat(tables), rows);
        assert(tables.push(rows).drop_last() =~= tables);
        let out = fed_document::<D>(
            fresh_reader(before.0),
            before.0.after_open(),
            before.1,
            docs.last(),
        )->Ok_0.3;
        assert(before.2.push(out).drop_last() =~= before.2);
    }
}

} // verus!
