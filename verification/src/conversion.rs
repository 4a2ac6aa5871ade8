//! A whole conversion: documents are read one after another, each in a
//! session of its own, and every row has its keys remapped. What holds of
//! the keys of the rows of all documents together.
use crate::ledger::{
    all_allowed, allowed_from, enters, entry, key_given, ledger_after, lemma_entry_was_entered,
    lemma_global_keys_dense, lemma_global_keys_unique, lemma_reference_follows,
    lemma_remap_is_entered, lemma_run_agrees, lemma_uses_follow, remapped_at, state_after,
    state_from, RemapOp,
};
use crate::lists::slot_of;
use crate::read::{
    documents_read, fresh_reader, initial_remapper, lemma_after_close, lemma_after_find,
    lemma_after_open, pushed_all, DocumentsRead, PushedAll, ReaderView, RemapperView,
};
use crate::parser::initial_tree;
use crate::parser::models::{parent_path, TableLocationView};
use crate::parser::stream::{
    accepted, complete_document, has_row, lemma_document_keys_unique, lemma_document_parent_key,
    lemma_document_references_named, lemma_in_place_is_accepted, row_in, row_is, rows, run, Row,
};
use crate::parser::models::TablePathView;
use crate::parser::EventView;
use vstd::prelude::*;

verus! {

/// The rows of a document, with the keys that the document counts.
pub open spec fn document_rows(events: Seq<EventView>) -> Seq<Row> {
    rows(initial_tree(), events)
}

/// What reading a document asks of the remapper: a session is opened, the
/// location of every row is remapped in it, and the session is closed.
pub open spec fn document_ops(session: usize, events: Seq<EventView>) -> Seq<RemapOp> {
    seq![RemapOp::Open] + Seq::new(
        document_rows(events).len(),
        |a: int| RemapOp::Remap(session, document_rows(events)[a].0),
    ) + seq![RemapOp::Close(session)]
}

/// What reading the documents in their order asks of the remapper. The
/// session of a document has the document's place as its number.
pub open spec fn conversion_ops(docs: Seq<Seq<EventView>>) -> Seq<RemapOp>
    decreases docs.len(),
{
    if docs.len() == 0 {
        Seq::empty()
    } else {
        conversion_ops(docs.drop_last()) + document_ops((docs.len() - 1) as usize, docs.last())
    }
}

/// The remaps of the rows of a document, in the rows' order.
pub open spec fn remap_ops(session: usize, out: Seq<Row>) -> Seq<RemapOp> {
    Seq::new(out.len(), |a: int| RemapOp::Remap(session, out[a].0))
}

/// The remapper after the locations of the rows were remapped in the
/// session, in the rows' order.
pub open spec fn remapped_through(
    state: RemapperView,
    session: usize,
    out: Seq<Row>,
) -> RemapperView
    decreases out.len(),
{
    if out.len() == 0 {
        state
    } else {
        remapped_through(state, session, out.drop_last()).after_remap(session, out.last().0)
    }
}

/// No table runs out of keys while the locations of the rows are remapped.
pub open spec fn rows_fit(state: RemapperView, session: usize, out: Seq<Row>) -> bool
    decreases out.len(),
{
    out.len() == 0 || (rows_fit(state, session, out.drop_last()) && remapped_through(
        state,
        session,
        out.drop_last(),
    ).remap_fits(session, out.last().0))
}

/// There are not more documents than session numbers, and no table runs out
/// of keys while the documents are read.
pub open spec fn keys_suffice(docs: Seq<Seq<EventView>>) -> bool
    decreases docs.len(),
{
    docs.len() == 0 || (keys_suffice(docs.drop_last()) && docs.len() - 1 < usize::MAX && rows_fit(
        state_after(conversion_ops(docs.drop_last())).after_open(),
        (docs.len() - 1) as usize,
        document_rows(docs.last()),
    ))
}

/// The documents can be read: each is a sequence of tokens that the handler
/// takes, and the keys suffice.
pub open spec fn readable(docs: Seq<Seq<EventView>>) -> bool {
    &&& forall|d: int| 0 <= d < docs.len() ==> accepted(initial_tree(), #[trigger] docs[d])
    &&& keys_suffice(docs)
}

/// Between two documents no session is open, and as many sessions were
/// opened as documents were read.
pub open spec fn between_documents(state: RemapperView, read: int) -> bool {
    state.wf() && state.sessions.len() == 0 && state.next_session == read
}

/// After a document's session was opened and some of its rows were
/// remapped, the session is open, and it is the only one.
proof fn lemma_rows_allowed(state: RemapperView, session: usize, out: Seq<Row>)
    requires
        between_documents(state, session as int),
        session < usize::MAX,
        rows_fit(state.after_open(), session, out),
    ensures
        allowed_from(state, seq![RemapOp::Open] + remap_ops(session, out)),
        state_from(state, seq![RemapOp::Open] + remap_ops(session, out)) == remapped_through(
            state.after_open(),
            session,
            out,
        ),
        remapped_through(state.after_open(), session, out).wf(),
        remapped_through(state.after_open(), session, out).is_open(session),
        remapped_through(state.after_open(), session, out).sessions.len() == 1,
        remapped_through(state.after_open(), session, out).next_session == session + 1,
    decreases out.len(),
{
    let ops = seq![RemapOp::Open] + remap_ops(session, out);
    lemma_after_open(state);
    if out.len() == 0 {
        let none = ops.drop_last();
        assert(none.len() == 0);
        assert(state_from(state, none) == state);
        assert(allowed_from(state, none));
        assert(ops.last() == RemapOp::Open);
    } else {
        let earlier = out.drop_last();
        lemma_rows_allowed(state, session, earlier);
        assert(ops.drop_last() =~= seq![RemapOp::Open] + remap_ops(session, earlier));
        assert(ops.last() == RemapOp::Remap(session, out.last().0));
        let before = remapped_through(state.after_open(), session, earlier);
        let loc = out.last().0;
        lemma_after_find(before, session, loc.table_path, loc.object_id);
        let middle = before.after_find(session, loc.table_path, loc.object_id);
        assert(middle.is_open(session));
        lemma_after_find(middle, session, parent_path(loc.table_path), loc.parent_object_id);
    }
}

/// Reading a document leaves the remapper between two documents again, and
/// every use of the remapper that the reading makes can be served.
proof fn lemma_document_allowed(state: RemapperView, session: usize, events: Seq<EventView>)
    requires
        between_documents(state, session as int),
        session < usize::MAX,
        rows_fit(state.after_open(), session, document_rows(events)),
    ensures
        allowed_from(state, document_ops(session, events)),
        between_documents(state_from(state, document_ops(session, events)), session + 1),
{
    let out = document_rows(events);
    let ops = document_ops(session, events);
    lemma_rows_allowed(state, session, out);
    assert(ops.drop_last() =~= seq![RemapOp::Open] + remap_ops(session, out));
    assert(ops.last() == RemapOp::Close(session));
    let open = remapped_through(state.after_open(), session, out);
    lemma_after_close(open, session);
    assert(open.sessions[slot_of(open.sessions, session)].0 == session);
}

/// Where the keys suffice, every use of the remapper that the reading of
/// the documents makes can be served, and the remapper is left between two
/// documents.
pub proof fn lemma_conversion_allowed(docs: Seq<Seq<EventView>>)
    requires
        keys_suffice(docs),
    ensures
        all_allowed(conversion_ops(docs)),
        between_documents(state_after(conversion_ops(docs)), docs.len() as int),
    decreases docs.len(),
{
    if docs.len() == 0 {
        crate::read::lemma_initial_remapper();
    } else {
        let session = (docs.len() - 1) as usize;
        lemma_conversion_allowed(docs.drop_last());
        let before = conversion_ops(docs.drop_last());
        lemma_document_allowed(state_after(before), session, docs.last());
        lemma_uses_follow(before, document_ops(session, docs.last()));
    }
}

/// Document number `d` has a row number `a`.
pub open spec fn is_row(docs: Seq<Seq<EventView>>, d: int, a: int) -> bool {
    0 <= d < docs.len() && 0 <= a < document_rows(docs[d]).len()
}

/// The place of the remap of row `a` of document `d` among the uses of the
/// remapper.
pub open spec fn row_position(docs: Seq<Seq<EventView>>, d: int, a: int) -> int {
    conversion_ops(docs.take(d)).len() + 1 + a
}

/// The location of row `a` of document `d` as it leaves the conversion,
/// with its keys remapped.
pub open spec fn converted(docs: Seq<Seq<EventView>>, d: int, a: int) -> TableLocationView {
    remapped_at(conversion_ops(docs), row_position(docs, d, a))
}

/// At the place of a row stands the remap of that row's location, in the
/// session of its document.
pub proof fn lemma_row_position(docs: Seq<Seq<EventView>>, d: int, a: int)
    requires
        is_row(docs, d, a),
    ensures
        0 <= row_position(docs, d, a) < conversion_ops(docs).len(),
        conversion_ops(docs)[row_position(docs, d, a)] == RemapOp::Remap(
            d as usize,
            document_rows(docs[d])[a].0,
        ),
    decreases docs.len(),
{
    let n = docs.len() as int;
    let before = conversion_ops(docs.drop_last());
    let last = document_ops((n - 1) as usize, docs.last());
    if d == n - 1 {
        assert(docs.take(d) =~= docs.drop_last());
        assert(last[1 + a] == RemapOp::Remap(d as usize, document_rows(docs[d])[a].0));
    } else {
        assert(docs.drop_last().take(d) =~= docs.take(d));
        assert(docs.drop_last()[d] == docs[d]);
        lemma_row_position(docs.drop_last(), d, a);
    }
}

/// Keys are unique over a whole conversion: two different rows of one table,
/// of one document or of two, leave with different keys.
pub proof fn lemma_converted_keys_unique(
    docs: Seq<Seq<EventView>>,
    d1: int,
    a1: int,
    d2: int,
    a2: int,
)
    requires
        readable(docs),
        is_row(docs, d1, a1),
        is_row(docs, d2, a2),
        d1 != d2 || a1 != a2,
        document_rows(docs[d1])[a1].0.table_path == document_rows(docs[d2])[a2].0.table_path,
    ensures
        converted(docs, d1, a1).table_path == converted(docs, d2, a2).table_path,
        converted(docs, d1, a1).object_id != converted(docs, d2, a2).object_id,
{
    let ops = conversion_ops(docs);
    lemma_conversion_allowed(docs);
    lemma_row_position(docs, d1, a1);
    lemma_row_position(docs, d2, a2);
    let first_at = row_position(docs, d1, a1);
    let second_at = row_position(docs, d2, a2);
    if converted(docs, d1, a1).object_id == converted(docs, d2, a2).object_id {
        lemma_global_keys_unique(ops, first_at, second_at);
        assert(d1 == d2);
        lemma_document_keys_unique(docs[d1], a1, a2);
    }
}

/// References hold over a whole conversion: a row of a nested table that
/// comes after a row of the enclosing table in its document leaves with a
/// reference to the key with which an earlier row of the enclosing table of
/// that document leaves.
pub proof fn lemma_converted_reference(docs: Seq<Seq<EventView>>, d: int, a: int)
    requires
        readable(docs),
        is_row(docs, d, a),
        document_rows(docs[d])[a].0.table_path.len() > 0,
        exists|b: int|
            b < a && row_in(
                document_rows(docs[d]),
                b,
                parent_path(document_rows(docs[d])[a].0.table_path),
            ),
    ensures
        exists|b: int|
            b < a && #[trigger] row_in(
                document_rows(docs[d]),
                b,
                parent_path(document_rows(docs[d])[a].0.table_path),
            ) && converted(docs, d, b).object_id == converted(docs, d, a).parent_object_id,
{
    let out = document_rows(docs[d]);
    let up = parent_path(out[a].0.table_path);
    lemma_conversion_allowed(docs);
    lemma_document_parent_key(docs[d], a);
    let b = choose|b: int| b < a && row_is(out, b, up, out[a].0.parent_object_id);
    assert(is_row(docs, d, b));
    lemma_row_position(docs, d, a);
    lemma_row_position(docs, d, b);
    lemma_reference_follows(
        conversion_ops(docs),
        row_position(docs, d, b),
        row_position(docs, d, a),
    );
    assert(row_in(out, b, up));
}

/// The rows with their keys remapped in the session, one after another.
pub open spec fn remapped_rows(state: RemapperView, session: usize, out: Seq<Row>) -> Seq<Row> {
    Seq::new(
        out.len(),
        |a: int| (remapped_through(state, session, out.take(a)).remapped(session, out[a].0),
            out[a].1),
    )
}

/// The count of a reader that has counted `n` rows from `count` on.
pub open spec fn counted_up(count: usize, n: nat) -> usize {
    if count + n <= usize::MAX {
        (count + n) as usize
    } else {
        usize::MAX
    }
}

/// Remapping rows that fit keeps the remapper well formed and the session
/// open.
pub proof fn lemma_remapped_through(state: RemapperView, session: usize, out: Seq<Row>)
    requires
        state.wf(),
        state.is_open(session),
        rows_fit(state, session, out),
    ensures
        remapped_through(state, session, out).wf(),
        remapped_through(state, session, out).is_open(session),
    decreases out.len(),
{
    if out.len() > 0 {
        lemma_remapped_through(state, session, out.drop_last());
        let before = remapped_through(state, session, out.drop_last());
        let loc = out.last().0;
        lemma_after_find(before, session, loc.table_path, loc.object_id);
        let middle = before.after_find(session, loc.table_path, loc.object_id);
        assert(middle.is_open(session));
        lemma_after_find(middle, session, parent_path(loc.table_path), loc.parent_object_id);
    }
}

/// A document whose tokens the handler takes and whose rows fit is read to
/// its end: the reader pushes every token, and the rows come out in the
/// order of their completion, each with its keys remapped after those of
/// the rows before it.
pub proof fn lemma_document_is_read(
    state: RemapperView,
    session: usize,
    events: Seq<EventView>,
)
    requires
        state.wf(),
        state.is_open(session),
        accepted(initial_tree(), events),
        rows_fit(state, session, document_rows(events)),
    ensures
        pushed_all(
            ReaderView { tree: initial_tree(), session, count: 0 },
            state,
            events,
        ) == PushedAll::Taken(
            ReaderView {
                tree: run(initial_tree(), events),
                session,
                count: counted_up(0, document_rows(events).len()),
            },
            remapped_through(state, session, document_rows(events)),
            remapped_rows(state, session, document_rows(events)),
        ),
    decreases events.len(),
{
    let start = ReaderView { tree: initial_tree(), session, count: 0 };
    let out = document_rows(events);
    if events.len() == 0 {
        assert(remapped_rows(state, session, out) =~= Seq::<Row>::empty());
    } else {
        let earlier = document_rows(events.drop_last());
        let tree = run(initial_tree(), events.drop_last());
        assert(rows_fit(state, session, earlier)) by {
            match tree.output(events.last()) {
                None => {
                    assert(out == earlier);
                },
                Some(row) => {
                    assert(out == earlier.push(row));
                    assert(out.drop_last() =~= earlier);
                },
            }
        }
        lemma_document_is_read(state, session, events.drop_last());
        lemma_remapped_through(state, session, earlier);
        let reader = ReaderView { tree, session, count: counted_up(0, earlier.len()) };
        let remapper = remapped_through(state, session, earlier);
        match tree.output(events.last()) {
            None => {
                assert(out == earlier);
            },
            Some(row) => {
                assert(out == earlier.push(row));
                assert(out.drop_last() =~= earlier);
                assert(out.last() == row);
                let now = remapped_rows(state, session, out);
                let then = remapped_rows(state, session, earlier);
                assert(now =~= then.push((remapper.remapped(session, row.0), row.1))) by {
                    assert forall|a: int| 0 <= a < earlier.len() implies now[a] == then[a] by {
                        assert(out.take(a) =~= earlier.take(a));
                    }
                    assert(out.take(earlier.len() as int) =~= earlier);
                }
            },
        }
    }
}

/// Rows that fit still fit when the last of them are left out.
pub proof fn lemma_fewer_rows_fit(state: RemapperView, session: usize, out: Seq<Row>, a: int)
    requires
        rows_fit(state, session, out),
        0 <= a <= out.len(),
    ensures
        rows_fit(state, session, out.take(a)),
    decreases out.len(),
{
    if a == out.len() {
        assert(out.take(a) =~= out);
    } else {
        assert(out.drop_last().take(a) =~= out.take(a));
        lemma_fewer_rows_fit(state, session, out.drop_last(), a);
    }
}

/// Where the keys suffice for the documents, they suffice for the first of
/// them, and the rows of each document fit when its turn comes.
pub proof fn lemma_keys_suffice_before(docs: Seq<Seq<EventView>>, d: int)
    requires
        keys_suffice(docs),
        0 <= d <= docs.len(),
    ensures
        keys_suffice(docs.take(d)),
        d < docs.len() ==> d < usize::MAX && rows_fit(
            state_after(conversion_ops(docs.take(d))).after_open(),
            d as usize,
            document_rows(docs[d]),
        ),
    decreases docs.len(),
{
    if d == docs.len() {
        assert(docs.take(d) =~= docs);
    } else {
        assert(docs.drop_last().take(d) =~= docs.take(d));
        lemma_keys_suffice_before(docs.drop_last(), d);
        if d == docs.len() - 1 {
            assert(docs.take(d) =~= docs.drop_last());
        } else {
            assert(docs.drop_last()[d] == docs[d]);
        }
    }
}

/// The uses of the remapper before the remap of a row: those of the
/// documents before the row's document, the opening of the document's
/// session, and the remaps of the document's rows before the row.
pub proof fn lemma_uses_before_row(docs: Seq<Seq<EventView>>, d: int, a: int)
    requires
        is_row(docs, d, a),
    ensures
        conversion_ops(docs).take(row_position(docs, d, a)) == conversion_ops(docs.take(d)) + (
        seq![RemapOp::Open] + remap_ops(d as usize, document_rows(docs[d]).take(a))),
    decreases docs.len(),
{
    let n = docs.len() as int;
    let before = conversion_ops(docs.drop_last());
    let last = document_ops((n - 1) as usize, docs.last());
    let pos = row_position(docs, d, a);
    let out = document_rows(docs[d]);
    if d == n - 1 {
        assert(docs.take(d) =~= docs.drop_last());
        assert((before + last).take(pos) =~= before + (seq![RemapOp::Open] + remap_ops(
            d as usize,
            out.take(a),
        )));
    } else {
        assert(docs.drop_last().take(d) =~= docs.take(d));
        assert(docs.drop_last()[d] == docs[d]);
        lemma_row_position(docs.drop_last(), d, a);
        lemma_uses_before_row(docs.drop_last(), d, a);
        assert((before + last).take(pos) =~= before.take(pos));
    }
}

/// The keys with which a row leaves the conversion: those that the remapper
/// gives it after the documents before its document, the opening of its
/// document's session and the rows of its document before it.
pub proof fn lemma_converted_is(docs: Seq<Seq<EventView>>, d: int, a: int)
    requires
        keys_suffice(docs),
        is_row(docs, d, a),
    ensures
        converted(docs, d, a) == remapped_through(
            state_after(conversion_ops(docs.take(d))).after_open(),
            d as usize,
            document_rows(docs[d]).take(a),
        ).remapped(d as usize, document_rows(docs[d])[a].0),
{
    let out = document_rows(docs[d]);
    let first = conversion_ops(docs.take(d));
    let then = seq![RemapOp::Open] + remap_ops(d as usize, out.take(a));
    lemma_row_position(docs, d, a);
    lemma_uses_before_row(docs, d, a);
    lemma_keys_suffice_before(docs, d);
    lemma_conversion_allowed(docs.take(d));
    lemma_fewer_rows_fit(state_after(first).after_open(), d as usize, out, a);
    lemma_rows_allowed(state_after(first), d as usize, out.take(a));
    lemma_uses_follow(first, then);
}

/// The rows of all documents as they leave the conversion.
pub open spec fn conversion_rows(docs: Seq<Seq<EventView>>) -> Seq<Seq<Row>> {
    Seq::new(
        docs.len(),
        |d: int|
            Seq::new(
                document_rows(docs[d]).len(),
                |a: int| (converted(docs, d, a), document_rows(docs[d])[a].1),
            ),
    )
}

/// Documents that can be read are read to the end by a new remapper, and
/// the rows that come out are the rows of the conversion.
pub proof fn lemma_conversion_is_read(docs: Seq<Seq<EventView>>)
    requires
        readable(docs),
    ensures
        documents_read(initial_remapper(), docs) == DocumentsRead::Read(
            state_after(conversion_ops(docs)),
            conversion_rows(docs),
        ),
    decreases docs.len(),
{
    if docs.len() == 0 {
        assert(conversion_rows(docs) =~= Seq::<Seq<Row>>::empty());
    } else {
        let n = docs.len() as int;
        let earlier = docs.drop_last();
        let session = (n - 1) as usize;
        let out = document_rows(docs.last());
        lemma_keys_suffice_before(docs, n - 1);
        assert(docs.take(n - 1) =~= earlier);
        assert forall|d: int| 0 <= d < earlier.len() implies accepted(
            initial_tree(),
            #[trigger] earlier[d],
        ) by {
            assert(earlier[d] == docs[d]);
        }
        lemma_conversion_is_read(earlier);
        lemma_conversion_allowed(earlier);
        let before = state_after(conversion_ops(earlier));
        lemma_after_open(before);
        lemma_document_is_read(before.after_open(), session, docs.last());
        lemma_rows_allowed(before, session, out);
        lemma_document_allowed(before, session, docs.last());
        lemma_uses_follow(conversion_ops(earlier), document_ops(session, docs.last()));
        let ops = document_ops(session, docs.last());
        assert(ops.drop_last() =~= seq![RemapOp::Open] + remap_ops(session, out));
        assert(ops.last() == RemapOp::Close(session));
        assert(fresh_reader(before) == ReaderView { tree: initial_tree(), session, count: 0 });
        let now = conversion_rows(docs);
        let then = conversion_rows(earlier);
        let read = remapped_rows(before.after_open(), session, out);
        assert(now =~= then.push(read)) by {
            assert forall|d: int| 0 <= d < n - 1 implies now[d] =~= then[d] by {
                assert(earlier[d] == docs[d]);
                assert forall|a: int| 0 <= a < document_rows(docs[d]).len() implies now[d][a]
                    == then[d][a] by {
                    lemma_converted_is(docs, d, a);
                    lemma_converted_is(earlier, d, a);
                    assert(earlier.take(d) =~= docs.take(d));
                }
            }
            assert(now[n - 1] =~= read) by {
                assert forall|a: int| 0 <= a < out.len() implies now[n - 1][a] == read[a] by {
                    lemma_converted_is(docs, n - 1, a);
                }
            }
        }
    }
}

/// The documents are complete and the keys suffice.
pub open spec fn complete(docs: Seq<Seq<EventView>>) -> bool {
    &&& forall|d: int| 0 <= d < docs.len() ==> complete_document(#[trigger] docs[d])
    &&& keys_suffice(docs)
}

/// Complete documents can be read.
pub proof fn lemma_complete_is_readable(docs: Seq<Seq<EventView>>)
    requires
        complete(docs),
    ensures
        readable(docs),
{
    assert forall|d: int| 0 <= d < docs.len() implies accepted(
        initial_tree(),
        #[trigger] docs[d],
    ) by {
        lemma_in_place_is_accepted(initial_tree(), docs[d]);
    }
}

/// Row `a` of document `d` belongs to the table at `path` and leaves the
/// conversion with the key `key`.
pub open spec fn leaves_as(
    docs: Seq<Seq<EventView>>,
    d: int,
    a: int,
    path: TablePathView,
    key: i32,
) -> bool {
    is_row(docs, d, a) && document_rows(docs[d])[a].0.table_path == path && converted(
        docs,
        d,
        a,
    ).object_id == key
}

/// Every remap among the uses of the remapper is the remap of a row.
pub proof fn lemma_remap_is_of_row(docs: Seq<Seq<EventView>>, i: int)
    requires
        0 <= i < conversion_ops(docs).len(),
        conversion_ops(docs)[i] is Remap,
    ensures
        exists|d: int, a: int| #[trigger] is_row(docs, d, a) && i == row_position(docs, d, a),
    decreases docs.len(),
{
    let n = docs.len() as int;
    if n > 0 {
        let earlier = docs.drop_last();
        let before = conversion_ops(earlier);
        let last = document_ops((n - 1) as usize, docs.last());
        if i < before.len() {
            assert(conversion_ops(docs)[i] == before[i]);
            lemma_remap_is_of_row(earlier, i);
            let (d, a) = choose|d: int, a: int| #[trigger]
                is_row(earlier, d, a) && i == row_position(earlier, d, a);
            assert(earlier[d] == docs[d]);
            assert(earlier.take(d) =~= docs.take(d));
            assert(is_row(docs, d, a) && i == row_position(docs, d, a));
        } else {
            let k = i - before.len();
            assert(conversion_ops(docs)[i] == last[k]);
            assert(docs.take(n - 1) =~= earlier);
            assert(is_row(docs, n - 1, k - 1) && i == row_position(docs, n - 1, k - 1));
        }
    }
}

/// References name rows over a whole conversion of complete documents:
/// every row leaves with a reference to the key with which a row of the
/// enclosing table of the same document leaves.
pub proof fn lemma_converted_reference_named(docs: Seq<Seq<EventView>>, d: int, a: int)
    requires
        complete(docs),
        is_row(docs, d, a),
    ensures
        exists|b: int| #[trigger]
            leaves_as(
                docs,
                d,
                b,
                parent_path(document_rows(docs[d])[a].0.table_path),
                converted(docs, d, a).parent_object_id,
            ),
{
    let out = document_rows(docs[d]);
    let up = parent_path(out[a].0.table_path);
    lemma_complete_is_readable(docs);
    lemma_conversion_allowed(docs);
    lemma_document_references_named(docs[d], a);
    assert(has_row(out, up, out[a].0.parent_object_id));
    let b = choose|b: int| #[trigger] row_is(out, b, up, out[a].0.parent_object_id);
    assert(row_is(out, b, up, out[a].0.parent_object_id));
    assert(is_row(docs, d, b));
    lemma_row_position(docs, d, a);
    lemma_row_position(docs, d, b);
    lemma_reference_follows(
        conversion_ops(docs),
        row_position(docs, d, b),
        row_position(docs, d, a),
    );
    assert(leaves_as(docs, d, b, up, converted(docs, d, a).parent_object_id));
}

/// Keys are dense over a whole conversion of complete documents: the keys
/// with which the rows of a table leave are exactly the numbers from 0 up to
/// the table's next key. With the uniqueness of the keys this makes the
/// table's next key the number of the table's rows.
pub proof fn lemma_converted_keys_dense(docs: Seq<Seq<EventView>>, path: TablePathView, key: i32)
    requires
        complete(docs),
    ensures
        (0 <= key < state_after(conversion_ops(docs)).next_id(path)) <==> exists|d: int, a: int|
         #[trigger] leaves_as(docs, d, a, path, key),
{
    let ops = conversion_ops(docs);
    lemma_complete_is_readable(docs);
    lemma_conversion_allowed(docs);
    lemma_run_agrees(ops);
    lemma_global_keys_dense(ops, path, key);
    if exists|d: int, a: int| #[trigger] leaves_as(docs, d, a, path, key) {
        let (d, a) = choose|d: int, a: int| #[trigger] leaves_as(docs, d, a, path, key);
        lemma_row_position(docs, d, a);
        lemma_remap_is_entered(ops, row_position(docs, d, a));
        assert(entry(ledger_after(ops), d as usize, path, document_rows(docs[d])[a].0.object_id)
            == Some(key));
        assert(key_given(ledger_after(ops), path, key));
    }
    if 0 <= key < state_after(ops).next_id(path) {
        assert(key_given(ledger_after(ops), path, key));
        let (s, l) = choose|s: usize, l: i32| #[trigger]
            entry(ledger_after(ops), s, path, l) == Some(key);
        lemma_entry_was_entered(ops, s, path, l);
        let i = choose|i: int| 0 <= i < ops.len() && enters(#[trigger] ops[i], s, path, l);
        lemma_remap_is_of_row(docs, i);
        let (d, a) = choose|d: int, a: int| #[trigger]
            is_row(docs, d, a) && i == row_position(docs, d, a);
        lemma_row_position(docs, d, a);
        let loc = document_rows(docs[d])[a].0;
        lemma_remap_is_entered(ops, i);
        if loc.table_path == path && loc.object_id == l {
            assert(leaves_as(docs, d, a, path, key));
        } else {
            lemma_converted_reference_named(docs, d, a);
            let b = choose|b: int| #[trigger]
                leaves_as(docs, d, b, path, converted(docs, d, a).parent_object_id);
            assert(leaves_as(docs, d, b, path, key));
        }
    }
}

/// The keys with which those of the first `n` rows of document `d` leave
/// that belong to the table at `path`, in the rows' order.
pub open spec fn keys_of_document(
    docs: Seq<Seq<EventView>>,
    d: int,
    path: TablePathView,
    n: int,
) -> Seq<int>
    decreases n,
{
    if n <= 0 {
        Seq::empty()
    } else if document_rows(docs[d])[n - 1].0.table_path == path {
        keys_of_document(docs, d, path, n - 1).push(converted(docs, d, n - 1).object_id as int)
    } else {
        keys_of_document(docs, d, path, n - 1)
    }
}

/// The keys with which the rows of the first `m` documents leave that
/// belong to the table at `path`, in the order of the documents and of
/// their rows.
pub open spec fn keys_of_table(docs: Seq<Seq<EventView>>, path: TablePathView, m: int) -> Seq<int>
    decreases m,
{
    if m <= 0 {
        Seq::empty()
    } else {
        keys_of_table(docs, path, m - 1) + keys_of_document(
            docs,
            m - 1,
            path,
            document_rows(docs[m - 1]).len() as int,
        )
    }
}

/// The number of rows of all documents that belong to the table at `path`.
pub open spec fn rows_of_table(docs: Seq<Seq<EventView>>, path: TablePathView) -> nat {
    keys_of_table(docs, path, docs.len() as int).len()
}

/// The keys of a document's rows of a table are the keys with which those
/// rows leave, each once.
pub proof fn lemma_keys_of_document(
    docs: Seq<Seq<EventView>>,
    d: int,
    path: TablePathView,
    n: int,
)
    requires
        readable(docs),
        0 <= d < docs.len(),
        0 <= n <= document_rows(docs[d]).len(),
    ensures
        keys_of_document(docs, d, path, n).no_duplicates(),
        forall|k: int| #[trigger]
            keys_of_document(docs, d, path, n).contains(k) <==> exists|a: int|
                a < n && #[trigger] leaves_as(docs, d, a, path, k as i32) && k == k as i32,
    decreases n,
{
    let keys = keys_of_document(docs, d, path, n);
    if n > 0 {
        lemma_keys_of_document(docs, d, path, n - 1);
        let before = keys_of_document(docs, d, path, n - 1);
        if document_rows(docs[d])[n - 1].0.table_path == path {
            let key = converted(docs, d, n - 1).object_id;
            assert(leaves_as(docs, d, n - 1, path, key));
            if before.contains(key as int) {
                let a = choose|a: int|
                    a < n - 1 && #[trigger] leaves_as(docs, d, a, path, (key as int) as i32);
                lemma_converted_keys_unique(docs, d, a, d, n - 1);
            }
            assert forall|k: int| #[trigger] keys.contains(k) <==> exists|a: int|
                a < n && #[trigger] leaves_as(docs, d, a, path, k as i32) && k == k as i32 by {
                if keys.contains(k) {
                    let at = choose|at: int| 0 <= at < keys.len() && keys[at] == k;
                    if at < before.len() {
                        assert(before[at] == k);
                        assert(before.contains(k));
                        let a = choose|a: int|
                            a < n - 1 && #[trigger] leaves_as(docs, d, a, path, k as i32) && k
                                == k as i32;
                        assert(a < n && leaves_as(docs, d, a, path, k as i32));
                    } else {
                        assert(n - 1 < n && leaves_as(docs, d, n - 1, path, k as i32));
                    }
                }
                if exists|a: int|
                    a < n && #[trigger] leaves_as(docs, d, a, path, k as i32) && k == k as i32 {
                    let a = choose|a: int|
                        a < n && #[trigger] leaves_as(docs, d, a, path, k as i32) && k == k as i32;
                    if a < n - 1 {
                        assert(before.contains(k));
                        let at = choose|at: int| 0 <= at < before.len() && before[at] == k;
                        assert(keys[at] == k);
                    } else {
                        assert(keys[before.len() as int] == k);
                    }
                }
            }
        } else {
            assert forall|k: int| #[trigger] keys.contains(k) <==> exists|a: int|
                a < n && #[trigger] leaves_as(docs, d, a, path, k as i32) && k == k as i32 by {
                if keys.contains(k) {
                    let a = choose|a: int|
                        a < n - 1 && #[trigger] leaves_as(docs, d, a, path, k as i32) && k
                            == k as i32;
                    assert(a < n && leaves_as(docs, d, a, path, k as i32));
                }
            }
        }
    }
}

/// The keys of the rows of a table are the keys with which those rows
/// leave, each once.
pub proof fn lemma_keys_of_table(docs: Seq<Seq<EventView>>, path: TablePathView, m: int)
    requires
        readable(docs),
        0 <= m <= docs.len(),
    ensures
        keys_of_table(docs, path, m).no_duplicates(),
        forall|k: int| #[trigger]
            keys_of_table(docs, path, m).contains(k) <==> exists|d: int, a: int|
                d < m && #[trigger] leaves_as(docs, d, a, path, k as i32) && k == k as i32,
    decreases m,
{
    let keys = keys_of_table(docs, path, m);
    if m > 0 {
        let before = keys_of_table(docs, path, m - 1);
        let n = document_rows(docs[m - 1]).len() as int;
        let last = keys_of_document(docs, m - 1, path, n);
        lemma_keys_of_table(docs, path, m - 1);
        lemma_keys_of_document(docs, m - 1, path, n);
        assert forall|i: int, j: int| 0 <= i < before.len() && 0 <= j < last.len() implies before[i]
            != last[j] by {
            if before[i] == last[j] {
                let k = before[i];
                assert(before.contains(k));
                assert(last.contains(k));
                let (d, a) = choose|d: int, a: int|
                    d < m - 1 && #[trigger] leaves_as(docs, d, a, path, k as i32) && k == k as i32;
                let b = choose|b: int|
                    b < n && #[trigger] leaves_as(docs, m - 1, b, path, k as i32) && k == k as i32;
                lemma_converted_keys_unique(docs, d, a, m - 1, b);
            }
        }
        vstd::seq_lib::lemma_no_dup_in_concat(before, last);
        assert forall|k: int| #[trigger] keys.contains(k) <==> exists|d: int, a: int|
            d < m && #[trigger] leaves_as(docs, d, a, path, k as i32) && k == k as i32 by {
            if keys.contains(k) {
                let at = choose|at: int| 0 <= at < keys.len() && keys[at] == k;
                if at < before.len() {
                    assert(before[at] == k);
                    assert(before.contains(k));
                    let (d, a) = choose|d: int, a: int|
                        d < m - 1 && #[trigger] leaves_as(docs, d, a, path, k as i32) && k
                            == k as i32;
                    assert(d < m && leaves_as(docs, d, a, path, k as i32));
                } else {
                    assert(last[at - before.len()] == k);
                    assert(last.contains(k));
                    let b = choose|b: int|
                        b < n && #[trigger] leaves_as(docs, m - 1, b, path, k as i32) && k
                            == k as i32;
                    assert(m - 1 < m && leaves_as(docs, m - 1, b, path, k as i32));
                }
            }
            if exists|d: int, a: int|
                d < m && #[trigger] leaves_as(docs, d, a, path, k as i32) && k == k as i32 {
                let (d, a) = choose|d: int, a: int|
                    d < m && #[trigger] leaves_as(docs, d, a, path, k as i32) && k == k as i32;
                if d < m - 1 {
                    assert(before.contains(k));
                    let at = choose|at: int| 0 <= at < before.len() && before[at] == k;
                    assert(keys[at] == k);
                } else {
                    assert(a < n);
                    assert(last.contains(k));
                    let at = choose|at: int| 0 <= at < last.len() && last[at] == k;
                    assert(keys[before.len() + at] == k);
                }
            }
        }
    }
}

/// A table's next key is the number of its rows: over a whole conversion of
/// complete documents, the rows of a table leave with the keys 0, 1, 2, ...
/// up to the number of the table's rows, each key once.
pub proof fn lemma_table_rows_counted(docs: Seq<Seq<EventView>>, path: TablePathView)
    requires
        complete(docs),
    ensures
        rows_of_table(docs, path) == state_after(conversion_ops(docs)).next_id(path),
        keys_of_table(docs, path, docs.len() as int).no_duplicates(),
        forall|k: int|
            0 <= k < rows_of_table(docs, path) <==> #[trigger] keys_of_table(
                docs,
                path,
                docs.len() as int,
            ).contains(k),
{
    let m = docs.len() as int;
    let keys = keys_of_table(docs, path, m);
    let next = state_after(conversion_ops(docs)).next_id(path);
    lemma_complete_is_readable(docs);
    lemma_conversion_allowed(docs);
    lemma_keys_of_table(docs, path, m);
    assert(0 <= next);
    assert forall|k: int| keys.contains(k) <==> 0 <= k < next by {
        if keys.contains(k) {
            let (d, a) = choose|d: int, a: int|
                d < m && #[trigger] leaves_as(docs, d, a, path, k as i32) && k == k as i32;
            let key = converted(docs, d, a).object_id;
            assert(leaves_as(docs, d, a, path, key));
            lemma_converted_keys_dense(docs, path, key);
        }
        if 0 <= k < next {
            let key = k as i32;
            lemma_converted_keys_dense(docs, path, key);
            let (d, a) = choose|d: int, a: int| #[trigger] leaves_as(docs, d, a, path, key);
            assert(d < m && leaves_as(docs, d, a, path, k as i32));
        }
    }
    assert(keys.to_set() =~= vstd::set_lib::set_int_range(0, next as int));
    keys.unique_seq_to_set();
    vstd::set_lib::lemma_int_range(0, next as int);
}

} // verus!
