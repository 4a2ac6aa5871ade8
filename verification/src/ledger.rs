//! The keys that a remapper hands out over its whole life: sessions come and
//! go, and the ledger keeps every global key with the session, the table and
//! the local key that it was given to.
use crate::parser::models::{parent_path, TableLocationView, TablePathView};
use crate::read::{
    initial_remapper, lemma_after_close, lemma_after_find, lemma_after_open, lemma_initial_remapper,
    RemapperView,
};
use vstd::prelude::*;

verus! {

/// One use of a remapper.
pub enum RemapOp {
    /// A session is opened.
    Open,
    /// The session with this number is closed.
    Close(usize),
    /// A location is remapped in the session with this number.
    Remap(usize, TableLocationView),
}

/// Every global key handed out so far, by session, table and local key.
pub type Ledger = Map<(usize, TablePathView, i32), i32>;

/// The global key that the ledger holds for a local key, if any.
pub open spec fn entry(ledger: Ledger, session: usize, path: TablePathView, local: i32) -> Option<
    i32,
> {
    if ledger.contains_key((session, path, local)) {
        Some(ledger[(session, path, local)])
    } else {
        None
    }
}

/// The remapper can serve the use: a session number is left to open one, and
/// a remap names an open session and meets no exhausted table.
pub open spec fn allowed(state: RemapperView, op: RemapOp) -> bool {
    match op {
        RemapOp::Open => state.next_session < usize::MAX,
        RemapOp::Close(_) => true,
        RemapOp::Remap(session, loc) => state.is_open(session) && state.remap_fits(session, loc),
    }
}

/// The remapper after the use.
pub open spec fn applied(state: RemapperView, op: RemapOp) -> RemapperView {
    match op {
        RemapOp::Open => state.after_open(),
        RemapOp::Close(session) => state.after_close(session),
        RemapOp::Remap(session, loc) => state.after_remap(session, loc),
    }
}

/// The ledger after the use: a remap enters the global keys of the row's own
/// key and of the enclosing row's key.
pub open spec fn entered(ledger: Ledger, state: RemapperView, op: RemapOp) -> Ledger {
    match op {
        RemapOp::Remap(session, loc) => {
            let first = state.after_find(session, loc.table_path, loc.object_id);
            ledger.insert(
                (session, loc.table_path, loc.object_id),
                state.found(session, loc.table_path, loc.object_id),
            ).insert(
                (session, parent_path(loc.table_path), loc.parent_object_id),
                first.found(session, parent_path(loc.table_path), loc.parent_object_id),
            )
        },
        _ => ledger,
    }
}

/// The remapper after the uses, in their order, from its first state.
pub open spec fn state_after(ops: Seq<RemapOp>) -> RemapperView
    decreases ops.len(),
{
    if ops.len() == 0 {
        initial_remapper()
    } else {
        applied(state_after(ops.drop_last()), ops.last())
    }
}

/// The ledger after the uses.
pub open spec fn ledger_after(ops: Seq<RemapOp>) -> Ledger
    decreases ops.len(),
{
    if ops.len() == 0 {
        Map::empty()
    } else {
        entered(ledger_after(ops.drop_last()), state_after(ops.drop_last()), ops.last())
    }
}

/// Every use can be served when its turn comes.
pub open spec fn all_allowed(ops: Seq<RemapOp>) -> bool
    decreases ops.len(),
{
    ops.len() == 0 || (all_allowed(ops.drop_last()) && allowed(
        state_after(ops.drop_last()),
        ops.last(),
    ))
}

/// What use number `i` returns, if it is a remap.
pub open spec fn remapped_at(ops: Seq<RemapOp>, i: int) -> TableLocationView {
    state_after(ops.take(i)).remapped(ops[i]->Remap_0, ops[i]->Remap_1)
}

/// The ledger agrees with the remapper: the remapper is well formed; a
/// table's global keys are those from 0 up to its next key, each given
/// once; an open session translates exactly as the ledger says; and every
/// session in the ledger was opened before.
pub open spec fn ledger_agrees(ledger: Ledger, state: RemapperView) -> bool {
    &&& state.wf()
    &&& forall|sa: usize, la: i32, sb: usize, lb: i32, p: TablePathView|
        (#[trigger] entry(ledger, sa, p, la)) is Some && entry(ledger, sa, p, la) == (
        #[trigger] entry(ledger, sb, p, lb)) ==> sa == sb && la == lb
    &&& forall|s: usize, p: TablePathView, l: i32|
        (#[trigger] entry(ledger, s, p, l)) matches Some(g) ==> 0 <= g < state.next_id(p) && s
            < state.next_session
    &&& forall|s: usize, p: TablePathView, l: i32|
        state.is_open(s) ==> #[trigger] state.translation(s, p, l) == entry(ledger, s, p, l)
    &&& forall|p: TablePathView, g: i32|
        0 <= g < state.next_id(p) ==> #[trigger] key_given(ledger, p, g)
}

/// The global key `global` of the table was given to some local key.
pub open spec fn key_given(ledger: Ledger, path: TablePathView, global: i32) -> bool {
    exists|s: usize, l: i32| #[trigger] entry(ledger, s, path, l) == Some(global)
}

/// One lookup keeps the ledger in agreement, once the key found is entered.
/// An entry that exists is not changed by that.
pub proof fn lemma_find_agrees(
    ledger: Ledger,
    state: RemapperView,
    session: usize,
    path: TablePathView,
    local: i32,
)
    requires
        ledger_agrees(ledger, state),
        state.is_open(session),
        state.find_fits(session, path, local),
    ensures
        ledger_agrees(
            ledger.insert((session, path, local), state.found(session, path, local)),
            state.after_find(session, path, local),
        ),
        forall|s: usize, p: TablePathView, l: i32|
            (#[trigger] entry(ledger, s, p, l)) is Some ==> entry(
                ledger.insert((session, path, local), state.found(session, path, local)),
                s,
                p,
                l,
            ) == entry(ledger, s, p, l),
        entry(
            ledger.insert((session, path, local), state.found(session, path, local)),
            session,
            path,
            local,
        ) == Some(state.found(session, path, local)),
{
    lemma_after_find(state, session, path, local);
    let after = state.after_find(session, path, local);
    let global = state.found(session, path, local);
    let later = ledger.insert((session, path, local), global);
    assert(state.translation(session, path, local) == entry(ledger, session, path, local));
    assert forall|s: usize, p: TablePathView, l: i32| #[trigger]
        entry(later, s, p, l) == (if s == session && p == path && l == local {
            Some(global)
        } else {
            entry(ledger, s, p, l)
        }) by {}
    assert forall|sa: usize, la: i32, sb: usize, lb: i32, p: TablePathView|
        (#[trigger] entry(later, sa, p, la)) is Some && entry(later, sa, p, la) == (
        #[trigger] entry(later, sb, p, lb)) implies sa == sb && la == lb by {
        let fresh1 = sa == session && p == path && la == local;
        let fresh2 = sb == session && p == path && lb == local;
        if !fresh1 {
            assert(entry(ledger, sa, p, la) is Some);
        }
        if !fresh2 {
            assert(entry(ledger, sb, p, lb) is Some);
        }
    }
    assert forall|s: usize, p: TablePathView, l: i32|
        (#[trigger] entry(later, s, p, l)) is Some implies 0 <= entry(later, s, p, l)->0
        < after.next_id(p) && s < after.next_session by {
        if !(s == session && p == path && l == local) {
            assert(entry(ledger, s, p, l) is Some);
            if p != path {
                assert(after.next_id(p) == state.next_id(p));
            }
        } else {
            assert(after.translation(session, path, local) == Some(global));
            assert(state.sessions[crate::lists::slot_of(state.sessions, session)].0 == session);
        }
    }
    assert forall|s: usize, p: TablePathView, l: i32| after.is_open(s) implies #[trigger]
        after.translation(s, p, l) == entry(later, s, p, l) by {
        assert(state.is_open(s));
        if !(s == session && p == path && l == local) {
            assert(after.translation(s, p, l) == state.translation(s, p, l));
        }
    }
    assert forall|p: TablePathView, g: i32| 0 <= g < after.next_id(p) implies #[trigger] key_given(
        later,
        p,
        g,
    ) by {
        if p == path && g == global {
            assert(entry(later, session, path, local) == Some(g));
        } else {
            if p != path {
                assert(after.next_id(p) == state.next_id(p));
            }
            assert(key_given(ledger, p, g));
            let (s, l) = choose|s: usize, l: i32| #[trigger] entry(ledger, s, p, l) == Some(g);
            assert(entry(later, s, p, l) == Some(g));
        }
    }
}

/// One use keeps the ledger in agreement and changes no entry that exists.
pub proof fn lemma_use_agrees(ledger: Ledger, state: RemapperView, op: RemapOp)
    requires
        ledger_agrees(ledger, state),
        allowed(state, op),
    ensures
        ledger_agrees(entered(ledger, state, op), applied(state, op)),
        forall|s: usize, p: TablePathView, l: i32|
            (#[trigger] entry(ledger, s, p, l)) is Some ==> entry(
                entered(ledger, state, op),
                s,
                p,
                l,
            ) == entry(ledger, s, p, l),
        op matches RemapOp::Remap(session, loc) ==> {
            &&& entry(entered(ledger, state, op), session, loc.table_path, loc.object_id) == Some(
                state.remapped(session, loc).object_id,
            )
            &&& entry(
                entered(ledger, state, op),
                session,
                parent_path(loc.table_path),
                loc.parent_object_id,
            ) == Some(state.remapped(session, loc).parent_object_id)
        },
{
    let after = applied(state, op);
    match op {
        RemapOp::Open => {
            lemma_after_open(state);
            assert forall|s: usize, p: TablePathView, l: i32| after.is_open(s) implies #[trigger]
                after.translation(s, p, l) == entry(ledger, s, p, l) by {
                if s == state.next_session {
                    assert(after.translation(s, p, l) == state.translation(s, p, l));
                    assert(!state.is_open(s));
                    if entry(ledger, s, p, l) is Some {
                        assert(s < state.next_session);
                    }
                } else {
                    assert(after.is_open(s) == state.is_open(s));
                    assert(after.translation(s, p, l) == state.translation(s, p, l));
                }
            }
            assert forall|p: TablePathView, g: i32| 0 <= g < after.next_id(p) implies
                #[trigger] key_given(
                ledger,
                p,
                g,
            ) by {
                assert(after.next_id(p) == state.next_id(p));
            }
            assert forall|s: usize, p: TablePathView, l: i32|
                (#[trigger] entry(ledger, s, p, l)) is Some implies 0 <= entry(ledger, s, p, l)->0
                < after.next_id(p) && s < after.next_session by {
                assert(after.next_id(p) == state.next_id(p));
            }
        },
        RemapOp::Close(session) => {
            lemma_after_close(state, session);
            assert forall|s: usize, p: TablePathView, l: i32| after.is_open(s) implies #[trigger]
                after.translation(s, p, l) == entry(ledger, s, p, l) by {
                assert(s != session);
                assert(after.is_open(s) == state.is_open(s));
                assert(after.translation(s, p, l) == state.translation(s, p, l));
            }
            assert forall|p: TablePathView, g: i32| 0 <= g < after.next_id(p) implies
                #[trigger] key_given(
                ledger,
                p,
                g,
            ) by {
                assert(after.next_id(p) == state.next_id(p));
            }
            assert forall|s: usize, p: TablePathView, l: i32|
                (#[trigger] entry(ledger, s, p, l)) is Some implies 0 <= entry(ledger, s, p, l)->0
                < after.next_id(p) && s < after.next_session by {
                assert(after.next_id(p) == state.next_id(p));
            }
        },
        RemapOp::Remap(session, loc) => {
            let first = state.after_find(session, loc.table_path, loc.object_id);
            let own = state.found(session, loc.table_path, loc.object_id);
            let middle = ledger.insert((session, loc.table_path, loc.object_id), own);
            lemma_find_agrees(ledger, state, session, loc.table_path, loc.object_id);
            lemma_after_find(state, session, loc.table_path, loc.object_id);
            assert(first.is_open(session));
            lemma_find_agrees(
                middle,
                first,
                session,
                parent_path(loc.table_path),
                loc.parent_object_id,
            );
            let last = entered(ledger, state, op);
            assert(entry(middle, session, loc.table_path, loc.object_id) == Some(own));
            assert(entry(last, session, loc.table_path, loc.object_id) == Some(own));
            assert forall|s: usize, p: TablePathView, l: i32|
                (#[trigger] entry(ledger, s, p, l)) is Some implies entry(last, s, p, l) == entry(
                ledger,
                s,
                p,
                l,
            ) by {
                assert(entry(middle, s, p, l) == entry(ledger, s, p, l));
            }
        },
    }
}

/// Before the first use the empty ledger agrees with the remapper.
pub proof fn lemma_initial_agrees()
    ensures
        ledger_agrees(Map::empty(), initial_remapper()),
{
    lemma_initial_remapper();
}

/// After any uses the ledger agrees with the remapper.
pub proof fn lemma_run_agrees(ops: Seq<RemapOp>)
    requires
        all_allowed(ops),
    ensures
        ledger_agrees(ledger_after(ops), state_after(ops)),
    decreases ops.len(),
{
    if ops.len() == 0 {
        lemma_initial_agrees();
    } else {
        lemma_run_agrees(ops.drop_last());
        lemma_use_agrees(
            ledger_after(ops.drop_last()),
            state_after(ops.drop_last()),
            ops.last(),
        );
    }
}

/// A beginning of allowed uses is allowed.
pub proof fn lemma_prefix_allowed(ops: Seq<RemapOp>, n: int)
    requires
        all_allowed(ops),
        0 <= n <= ops.len(),
    ensures
        all_allowed(ops.take(n)),
    decreases ops.len(),
{
    if n < ops.len() {
        lemma_prefix_allowed(ops.drop_last(), n);
        assert(ops.drop_last().take(n) =~= ops.take(n));
    } else {
        assert(ops.take(n) =~= ops);
    }
}

/// The ledger forgets nothing: an entry made by the first `n` uses is still
/// there, unchanged, after all of them.
pub proof fn lemma_entries_stay(ops: Seq<RemapOp>, n: int, s: usize, p: TablePathView, l: i32)
    requires
        all_allowed(ops),
        0 <= n <= ops.len(),
        entry(ledger_after(ops.take(n)), s, p, l) is Some,
    ensures
        entry(ledger_after(ops), s, p, l) == entry(ledger_after(ops.take(n)), s, p, l),
    decreases ops.len(),
{
    if n < ops.len() {
        assert(ops.drop_last().take(n) =~= ops.take(n));
        lemma_entries_stay(ops.drop_last(), n, s, p, l);
        lemma_run_agrees(ops.drop_last());
        lemma_use_agrees(
            ledger_after(ops.drop_last()),
            state_after(ops.drop_last()),
            ops.last(),
        );
    } else {
        assert(ops.take(n) =~= ops);
    }
}

/// The keys that remap number `i` returns are in the ledger at the end,
/// under the session and the local keys of that remap.
pub proof fn lemma_remap_is_entered(ops: Seq<RemapOp>, i: int)
    requires
        all_allowed(ops),
        0 <= i < ops.len(),
        ops[i] is Remap,
    ensures
        entry(
            ledger_after(ops),
            ops[i]->Remap_0,
            ops[i]->Remap_1.table_path,
            ops[i]->Remap_1.object_id,
        ) == Some(remapped_at(ops, i).object_id),
        entry(
            ledger_after(ops),
            ops[i]->Remap_0,
            parent_path(ops[i]->Remap_1.table_path),
            ops[i]->Remap_1.parent_object_id,
        ) == Some(remapped_at(ops, i).parent_object_id),
{
    let upto = ops.take(i + 1);
    lemma_prefix_allowed(ops, i + 1);
    assert(upto.drop_last() =~= ops.take(i));
    assert(upto.last() == ops[i]);
    lemma_prefix_allowed(ops, i);
    lemma_run_agrees(ops.take(i));
    lemma_use_agrees(ledger_after(ops.take(i)), state_after(ops.take(i)), ops[i]);
    let session = ops[i]->Remap_0;
    let loc = ops[i]->Remap_1;
    lemma_entries_stay(ops, i + 1, session, loc.table_path, loc.object_id);
    lemma_entries_stay(ops, i + 1, session, parent_path(loc.table_path), loc.parent_object_id);
}

/// Keys are unique: over the whole life of a remapper, two remaps return
/// the same key for rows of one table only if they were made in the same
/// session for the same local key.
pub proof fn lemma_global_keys_unique(ops: Seq<RemapOp>, i: int, j: int)
    requires
        all_allowed(ops),
        0 <= i < ops.len(),
        0 <= j < ops.len(),
        ops[i] is Remap,
        ops[j] is Remap,
        ops[i]->Remap_1.table_path == ops[j]->Remap_1.table_path,
        remapped_at(ops, i).object_id == remapped_at(ops, j).object_id,
    ensures
        ops[i]->Remap_0 == ops[j]->Remap_0,
        ops[i]->Remap_1.object_id == ops[j]->Remap_1.object_id,
{
    lemma_remap_is_entered(ops, i);
    lemma_remap_is_entered(ops, j);
    lemma_run_agrees(ops);
}

/// Within a session a local key keeps its global key: two remaps of one
/// session for the same local key of a table return the same key.
pub proof fn lemma_translation_is_stable(ops: Seq<RemapOp>, i: int, j: int)
    requires
        all_allowed(ops),
        0 <= i < ops.len(),
        0 <= j < ops.len(),
        ops[i] is Remap,
        ops[j] is Remap,
        ops[i]->Remap_0 == ops[j]->Remap_0,
        ops[i]->Remap_1.table_path == ops[j]->Remap_1.table_path,
        ops[i]->Remap_1.object_id == ops[j]->Remap_1.object_id,
    ensures
        remapped_at(ops, i).object_id == remapped_at(ops, j).object_id,
{
    lemma_remap_is_entered(ops, i);
    lemma_remap_is_entered(ops, j);
}

/// A reference follows its row: where a row refers to a local key of the
/// enclosing table, and a row of that table with that local key is remapped
/// in the same session, the reference after remapping is that row's key
/// after remapping.
pub proof fn lemma_reference_follows(ops: Seq<RemapOp>, i: int, j: int)
    requires
        all_allowed(ops),
        0 <= i < ops.len(),
        0 <= j < ops.len(),
        ops[i] is Remap,
        ops[j] is Remap,
        ops[i]->Remap_0 == ops[j]->Remap_0,
        ops[i]->Remap_1.table_path == parent_path(ops[j]->Remap_1.table_path),
        ops[i]->Remap_1.object_id == ops[j]->Remap_1.parent_object_id,
    ensures
        remapped_at(ops, i).object_id == remapped_at(ops, j).parent_object_id,
{
    lemma_remap_is_entered(ops, i);
    lemma_remap_is_entered(ops, j);
}

/// Keys are dense: over the whole life of a remapper, the global keys given
/// for a table are exactly the numbers from 0 up to the table's next key.
pub proof fn lemma_global_keys_dense(ops: Seq<RemapOp>, path: TablePathView, global: i32)
    requires
        all_allowed(ops),
    ensures
        key_given(ledger_after(ops), path, global) <==> 0 <= global < state_after(ops).next_id(
            path,
        ),
{
    lemma_run_agrees(ops);
    if key_given(ledger_after(ops), path, global) {
        let (s, l) = choose|s: usize, l: i32| #[trigger]
            entry(ledger_after(ops), s, path, l) == Some(global);
        assert(entry(ledger_after(ops), s, path, l) is Some);
    }
}

/// The use enters the global key of this local key: it is a remap in the
/// session, of a row with this key in the table, or of a row that refers to
/// this key in the table as its enclosing table.
pub open spec fn enters(op: RemapOp, session: usize, path: TablePathView, local: i32) -> bool {
    op matches RemapOp::Remap(s, loc) && s == session && ((loc.table_path == path
        && loc.object_id == local) || (parent_path(loc.table_path) == path
        && loc.parent_object_id == local))
}

/// Every entry of the ledger was entered by one of the uses.
pub proof fn lemma_entry_was_entered(ops: Seq<RemapOp>, s: usize, p: TablePathView, l: i32)
    requires
        entry(ledger_after(ops), s, p, l) is Some,
    ensures
        exists|i: int| 0 <= i < ops.len() && enters(#[trigger] ops[i], s, p, l),
    decreases ops.len(),
{
    if ops.len() > 0 {
        if entry(ledger_after(ops.drop_last()), s, p, l) is Some {
            lemma_entry_was_entered(ops.drop_last(), s, p, l);
            let i = choose|i: int|
                0 <= i < ops.drop_last().len() && enters(#[trigger] ops.drop_last()[i], s, p, l);
            assert(ops[i] == ops.drop_last()[i]);
        } else {
            assert(enters(ops[ops.len() - 1], s, p, l));
        }
    }
}

/// The remapper after the uses, in their order, from any state.
pub open spec fn state_from(state: RemapperView, ops: Seq<RemapOp>) -> RemapperView
    decreases ops.len(),
{
    if ops.len() == 0 {
        state
    } else {
        applied(state_from(state, ops.drop_last()), ops.last())
    }
}

/// From the state, every use can be served when its turn comes.
pub open spec fn allowed_from(state: RemapperView, ops: Seq<RemapOp>) -> bool
    decreases ops.len(),
{
    ops.len() == 0 || (allowed_from(state, ops.drop_last()) && allowed(
        state_from(state, ops.drop_last()),
        ops.last(),
    ))
}

/// Uses that follow other uses start from the state that those left.
pub proof fn lemma_uses_follow(first: Seq<RemapOp>, then: Seq<RemapOp>)
    ensures
        state_after(first + then) == state_from(state_after(first), then),
        all_allowed(first + then) == (all_allowed(first) && allowed_from(
            state_after(first),
            then,
        )),
    decreases then.len(),
{
    if then.len() == 0 {
        assert(first + then =~= first);
    } else {
        lemma_uses_follow(first, then.drop_last());
        assert((first + then).drop_last() =~= first + then.drop_last());
        assert((first + then).last() == then.last());
    }
}

} // verus!
