//! The schema registry: which tables exist, which columns each has, and what
//! kinds of values each column has held so far.
use crate::database::DatabaseError;
use crate::parser::models::{
    clone_json_path, clone_table_path, json_path_eq, table_path_eq, JsonPath, JsonPathView,
    RecordView, Scalar, ScalarView, TablePath, TablePathView, TableRecord,
};
use crate::text::{decimal, push_decimal};
use vstd::prelude::*;
use vstd::string::StringExecFns;

verus! {

/// The most example values that a column keeps.
pub const MAX_EXAMPLES: usize = 5;

/// A column that was found in the source documents, with what is known of
/// the values seen in it.
#[derive(Debug)]
pub struct SourceColumn {
    pub source_path: JsonPath,
    pub is_nullable: bool,
    pub is_null: bool,
    pub is_bool: bool,
    pub is_i64: bool,
    pub is_f64: bool,
    pub example_values: Vec<Scalar>,
}

/// What a `SourceColumn` is in contracts.
pub struct SourceColumnView {
    pub source_path: JsonPathView,
    pub is_nullable: bool,
    pub is_null: bool,
    pub is_bool: bool,
    pub is_i64: bool,
    pub is_f64: bool,
    pub example_values: Seq<ScalarView>,
}

/// The example values of a column as contracts see them.
pub open spec fn scalar_views(values: Seq<Scalar>) -> Seq<ScalarView> {
    Seq::new(values.len(), |i: int| values[i]@)
}

impl View for SourceColumn {
    type V = SourceColumnView;

    open spec fn view(&self) -> SourceColumnView {
        SourceColumnView {
            source_path: self.source_path.deep_view(),
            is_nullable: self.is_nullable,
            is_null: self.is_null,
            is_bool: self.is_bool,
            is_i64: self.is_i64,
            is_f64: self.is_f64,
            example_values: scalar_views(self.example_values@),
        }
    }
}

/// One column of a table: the row's own key, the key of the enclosing row,
/// or a column found in the source.
#[derive(Debug)]
pub enum ColumnSchema {
    SourceColumn(SourceColumn),
    PrimaryKey,
    ForeignKey,
}

/// What a `ColumnSchema` is in contracts.
pub enum ColumnView {
    SourceColumn(SourceColumnView),
    PrimaryKey,
    ForeignKey,
}

impl View for ColumnSchema {
    type V = ColumnView;

    open spec fn view(&self) -> ColumnView {
        match *self {
            ColumnSchema::SourceColumn(c) => ColumnView::SourceColumn(c@),
            ColumnSchema::PrimaryKey => ColumnView::PrimaryKey,
            ColumnSchema::ForeignKey => ColumnView::ForeignKey,
        }
    }
}

/// The columns of a table as contracts see them.
pub open spec fn column_views(columns: Seq<ColumnSchema>) -> Seq<ColumnView> {
    Seq::new(columns.len(), |i: int| columns[i]@)
}

/// The column that a path gets when it is first seen: every kind of value is
/// still possible, and no `null` was seen.
pub open spec fn fresh_column(path: JsonPathView) -> SourceColumnView {
    SourceColumnView {
        source_path: path,
        is_nullable: false,
        is_null: true,
        is_bool: true,
        is_i64: true,
        is_f64: true,
        example_values: Seq::empty(),
    }
}

/// The column after one more value was seen in it.
pub open spec fn observe(col: SourceColumnView, value: ScalarView) -> SourceColumnView {
    SourceColumnView {
        source_path: col.source_path,
        is_nullable: col.is_nullable || value is Null,
        is_null: col.is_null && value is Null,
        is_bool: col.is_bool && value is Bool,
        is_i64: col.is_i64 && value is Int,
        is_f64: col.is_f64 && value is Float,
        example_values: if col.example_values.len() < MAX_EXAMPLES && !(value is Null) {
            col.example_values.push(value)
        } else {
            col.example_values
        },
    }
}

/// The column at position `i` is the source column of `path`.
pub open spec fn is_column_of(columns: Seq<ColumnView>, i: int, path: JsonPathView) -> bool {
    &&& 0 <= i < columns.len()
    &&& columns[i] matches ColumnView::SourceColumn(c)
    &&& c.source_path == path
}

/// Some column is the source column of `path`.
pub open spec fn has_column(columns: Seq<ColumnView>, path: JsonPathView) -> bool {
    exists|i: int| is_column_of(columns, i, path)
}

/// The position of the source column of `path`. Meaningful where
/// `has_column` holds.
pub open spec fn column_position(columns: Seq<ColumnView>, path: JsonPathView) -> int {
    choose|i: int| is_column_of(columns, i, path)
}

/// The columns after `value` was seen at `path`: the path's column is added
/// at the end if it is new, and then takes note of the value.
pub open spec fn observe_entry(
    columns: Seq<ColumnView>,
    path: JsonPathView,
    value: ScalarView,
) -> Seq<ColumnView> {
    let known = if has_column(columns, path) {
        columns
    } else {
        columns.push(ColumnView::SourceColumn(fresh_column(path)))
    };
    let at = column_position(known, path);
    known.update(at, ColumnView::SourceColumn(observe(known[at]->SourceColumn_0, value)))
}

/// The columns after every entry of the record was seen, in the record's
/// order.
pub open spec fn observe_record(columns: Seq<ColumnView>, rec: RecordView) -> Seq<ColumnView>
    decreases rec.len(),
{
    if rec.len() == 0 {
        columns
    } else {
        observe_entry(observe_record(columns, rec.drop_last()), rec.last().0, rec.last().1)
    }
}

/// No two source columns have the same path.
pub open spec fn column_paths_distinct(columns: Seq<ColumnView>) -> bool {
    forall|i: int, j: int, path: JsonPathView|
        is_column_of(columns, i, path) && is_column_of(columns, j, path) ==> i == j
}

/// Every source column keeps at most `MAX_EXAMPLES` examples, none of them
/// `null`.
pub open spec fn examples_bounded(columns: Seq<ColumnView>) -> bool {
    forall|i: int|
        0 <= i < columns.len() ==> (#[trigger] columns[i] matches ColumnView::SourceColumn(c) ==> {
            &&& c.example_values.len() <= MAX_EXAMPLES
            &&& forall|k: int| 0 <= k < c.example_values.len() ==> !(c.example_values[k] is Null)
        })
}

/// The first two columns are the row's key and the enclosing row's key.
pub open spec fn starts_with_keys(columns: Seq<ColumnView>) -> bool {
    &&& columns.len() >= 2
    &&& columns[0] is PrimaryKey
    &&& columns[1] is ForeignKey
}

/// The invariant of a table's columns.
pub open spec fn columns_wf(columns: Seq<ColumnView>) -> bool {
    &&& starts_with_keys(columns)
    &&& column_paths_distinct(columns)
    &&& examples_bounded(columns)
}

/// `later` is a state that the column `earlier` can reach by seeing more
/// values: the same column, whose type flags have only been switched off,
/// whose nullability has only been switched on, and whose examples have only
/// grown at the end.
pub open spec fn column_follows(earlier: ColumnView, later: ColumnView) -> bool {
    match earlier {
        ColumnView::PrimaryKey => later is PrimaryKey,
        ColumnView::ForeignKey => later is ForeignKey,
        ColumnView::SourceColumn(a) => {
            &&& later matches ColumnView::SourceColumn(b)
            &&& b.source_path == a.source_path
            &&& (b.is_null ==> a.is_null)
            &&& (b.is_bool ==> a.is_bool)
            &&& (b.is_i64 ==> a.is_i64)
            &&& (b.is_f64 ==> a.is_f64)
            &&& (a.is_nullable ==> b.is_nullable)
            &&& a.example_values.is_prefix_of(b.example_values)
        },
    }
}

/// Every column of `earlier` is still there in `later`, at its place, in a
/// state that follows its earlier one.
pub open spec fn columns_follow(earlier: Seq<ColumnView>, later: Seq<ColumnView>) -> bool {
    &&& earlier.len() <= later.len()
    &&& forall|i: int| 0 <= i < earlier.len() ==> column_follows(earlier[i], #[trigger] later[i])
}

/// Seeing one value keeps the columns' invariant, registers the path, and
/// moves every column only forward.
pub proof fn lemma_observe_entry(columns: Seq<ColumnView>, path: JsonPathView, value: ScalarView)
    requires
        columns_wf(columns),
    ensures
        columns_wf(observe_entry(columns, path, value)),
        has_column(observe_entry(columns, path, value), path),
        columns_follow(columns, observe_entry(columns, path, value)),
        has_column(columns, path) ==> observe_entry(columns, path, value).len() == columns.len(),
        !has_column(columns, path) ==> observe_entry(columns, path, value).len() == columns.len()
            + 1,
{
    let known = if has_column(columns, path) {
        columns
    } else {
        columns.push(ColumnView::SourceColumn(fresh_column(path)))
    };
    if !has_column(columns, path) {
        assert(is_column_of(known, columns.len() as int, path));
    }
    let at = column_position(known, path);
    assert(is_column_of(known, at, path));
    let after = observe_entry(columns, path, value);
    assert(is_column_of(after, at, path));
    assert forall|i: int, j: int, p: JsonPathView|
        is_column_of(after, i, p) && is_column_of(after, j, p) implies i == j by {
        assert(is_column_of(known, i, p));
        assert(is_column_of(known, j, p));
        if i < columns.len() && j < columns.len() {
            assert(is_column_of(columns, i, p));
            assert(is_column_of(columns, j, p));
        } else if i < columns.len() {
            assert(is_column_of(columns, i, p));
        } else if j < columns.len() {
            assert(is_column_of(columns, j, p));
        }
    }
    assert forall|i: int| 0 <= i < columns.len() implies column_follows(
        columns[i],
        #[trigger] after[i],
    ) by {
        if i == at {
            assert(known[at] == columns[at]);
        }
    }
}

/// Seeing a record keeps the columns' invariant, registers every key of the
/// record, and moves every column only forward.
pub proof fn lemma_observe_record(columns: Seq<ColumnView>, rec: RecordView)
    requires
        columns_wf(columns),
    ensures
        columns_wf(observe_record(columns, rec)),
        columns_follow(columns, observe_record(columns, rec)),
        forall|k: int| 0 <= k < rec.len() ==>
            has_column(observe_record(columns, rec), (#[trigger] rec[k]).0),
    decreases rec.len(),
{
    if rec.len() > 0 {
        let before = observe_record(columns, rec.drop_last());
        let after = observe_record(columns, rec);
        lemma_observe_record(columns, rec.drop_last());
        lemma_observe_entry(before, rec.last().0, rec.last().1);
        lemma_columns_follow_transitive(columns, before, after);
        assert forall|k: int| 0 <= k < rec.len() implies
            has_column(after, (#[trigger] rec[k]).0) by {
            if k < rec.len() - 1 {
                assert(rec[k] == rec.drop_last()[k]);
                let i = column_position(before, rec[k].0);
                assert(is_column_of(before, i, rec[k].0));
                assert(column_follows(before[i], after[i]));
                assert(is_column_of(after, i, rec[k].0));
            }
        }
    }
}

/// Following is transitive.
pub proof fn lemma_columns_follow_transitive(
    a: Seq<ColumnView>,
    b: Seq<ColumnView>,
    c: Seq<ColumnView>,
)
    requires
        columns_follow(a, b),
        columns_follow(b, c),
    ensures
        columns_follow(a, c),
{
    assert forall|i: int| 0 <= i < a.len() implies column_follows(a[i], #[trigger] c[i]) by {
        assert(column_follows(a[i], b[i]));
        assert(column_follows(b[i], c[i]));
    }
}

/// The columns after every record of the list was seen, in the list's order.
pub open spec fn observe_records(columns: Seq<ColumnView>, recs: Seq<RecordView>) -> Seq<
    ColumnView,
>
    decreases recs.len(),
{
    if recs.len() == 0 {
        columns
    } else {
        observe_record(observe_records(columns, recs.drop_last()), recs.last())
    }
}

/// Over the life of a table its columns keep their invariant and only move
/// forward: between any two moments, every column that existed at the
/// earlier one is still at its place at the later one, with no type flag
/// switched on again and nullability not switched off again.
pub proof fn lemma_columns_only_move_forward(
    columns: Seq<ColumnView>,
    recs: Seq<RecordView>,
    n: int,
)
    requires
        columns_wf(columns),
        0 <= n <= recs.len(),
    ensures
        columns_wf(observe_records(columns, recs)),
        columns_follow(observe_records(columns, recs.take(n)), observe_records(columns, recs)),
    decreases recs.len(),
{
    if n == recs.len() {
        assert(recs.take(n) =~= recs);
        if recs.len() > 0 {
            lemma_columns_only_move_forward(columns, recs.drop_last(), recs.len() - 1);
            lemma_observe_record(observe_records(columns, recs.drop_last()), recs.last());
        }
        assert(columns_follow(observe_records(columns, recs), observe_records(columns, recs)));
    } else {
        assert(recs.drop_last().take(n) =~= recs.take(n));
        lemma_columns_only_move_forward(columns, recs.drop_last(), n);
        lemma_observe_record(observe_records(columns, recs.drop_last()), recs.last());
        lemma_columns_follow_transitive(
            observe_records(columns, recs.take(n)),
            observe_records(columns, recs.drop_last()),
            observe_records(columns, recs),
        );
    }
}

/// Every key of every record that a table has seen has a column, from the
/// moment the record was seen on.
pub proof fn lemma_keys_stay_registered(
    columns: Seq<ColumnView>,
    recs: Seq<RecordView>,
    n: int,
    k: int,
)
    requires
        columns_wf(columns),
        0 <= n < recs.len(),
        0 <= k < recs[n].len(),
    ensures
        has_column(observe_records(columns, recs), recs[n][k].0),
{
    let seen = recs.take(n + 1);
    assert(seen.drop_last() =~= recs.take(n));
    assert(seen.last() == recs[n]);
    lemma_columns_only_move_forward(columns, recs.take(n), n);
    lemma_observe_record(observe_records(columns, recs.take(n)), recs[n]);
    lemma_columns_only_move_forward(columns, recs, n + 1);
    let then = observe_records(columns, seen);
    let now = observe_records(columns, recs);
    let i = column_position(then, recs[n][k].0);
    assert(is_column_of(then, i, recs[n][k].0));
    assert(column_follows(then[i], now[i]));
    assert(is_column_of(now, i, recs[n][k].0));
}

/// The columns of one table, in the order in which they were first seen.
#[derive(Debug)]
pub struct TableSchema {
    pub columns: Vec<ColumnSchema>,
    pub name: String,
    pub path: TablePath,
}

/// What a `TableSchema` is in contracts.
pub struct TableSchemaView {
    pub columns: Seq<ColumnView>,
    pub name: Seq<char>,
    pub path: TablePathView,
}

impl View for TableSchema {
    type V = TableSchemaView;

    open spec fn view(&self) -> TableSchemaView {
        TableSchemaView {
            columns: column_views(self.columns@),
            name: self.name@,
            path: self.path.deep_view(),
        }
    }
}

impl TableSchema {
    /// The schema's invariant: the two key columns come first, no path has
    /// two columns, and no column keeps too many examples.
    pub open spec fn wf(&self) -> bool {
        columns_wf(self@.columns)
    }

    /// The path-to-position index of the source columns.
    pub open spec fn index(&self) -> Map<JsonPathView, int> {
        Map::new(
            |path: JsonPathView| has_column(self@.columns, path),
            |path: JsonPathView| column_position(self@.columns, path),
        )
    }

    /// A table with the two key columns and no source column.
    pub fn empty_with_ids(name: String, path: TablePath) -> (schema: TableSchema)
        ensures
            schema@.columns == seq![ColumnView::PrimaryKey, ColumnView::ForeignKey],
            schema@.name == name@,
            schema@.path == path.deep_view(),
            schema.wf(),
    {
        let mut schema = TableSchema { columns: Vec::new(), name, path };
        schema.add_column(ColumnSchema::PrimaryKey);
        schema.add_column(ColumnSchema::ForeignKey);
        assert(schema@.columns =~= seq![ColumnView::PrimaryKey, ColumnView::ForeignKey]);
        schema
    }

    /// Appends a column.
    pub fn add_column(&mut self, col: ColumnSchema)
        ensures
            final(self)@.columns == old(self)@.columns.push(col@),
            final(self)@.name == old(self)@.name,
            final(self)@.path == old(self)@.path,
    {
        self.columns.push(col);
        assert(self@.columns =~= old(self)@.columns.push(col@));
    }

    /// The position of the source column of `path`, if it has one.
    pub fn find_column(&self, path: &JsonPath) -> (r: Option<usize>)
        ensures
            r is Some == has_column(self@.columns, path.deep_view()),
            r matches Some(i) ==> is_column_of(self@.columns, i as int, path.deep_view()),
            self.wf() ==> (r matches Some(i) ==> self.index()[path.deep_view()] == i),
    {
        let mut i: usize = 0;
        while i < self.columns.len()
            invariant
                i <= self.columns.len(),
                forall|j: int| 0 <= j < i ==> !is_column_of(self@.columns, j, path.deep_view()),
            decreases self.columns.len() - i,
        {
            match &self.columns[i] {
                ColumnSchema::SourceColumn(c) => {
                    if json_path_eq(&c.source_path, path) {
                        assert(is_column_of(self@.columns, i as int, path.deep_view()));
                        return Some(i);
                    }
                },
                _ => {},
            }
            i = i + 1;
        }
        None
    }

    /// Takes note of a record: registers a column for every key that has none
    /// yet, and lets every column concerned take note of the value found.
    pub fn update(&mut self, rec: &TableRecord)
        requires
            old(self).wf(),
        ensures
            final(self)@.columns == observe_record(old(self)@.columns, rec@),
            final(self)@.name == old(self)@.name,
            final(self)@.path == old(self)@.path,
            final(self).wf(),
            columns_follow(old(self)@.columns, final(self)@.columns),
            forall|k: int|
                0 <= k < rec@.len() ==> has_column(final(self)@.columns, (#[trigger] rec@[k]).0),
    {
        let mut i: usize = 0;
        while i < rec.len()
            invariant
                i <= rec@.len(),
                self@.columns == observe_record(old(self)@.columns, rec@.take(i as int)),
                self@.name == old(self)@.name,
                self@.path == old(self)@.path,
                self.wf(),
                old(self).wf(),
            decreases rec@.len() - i,
        {
            let k = rec.key_at(i);
            let v = rec.value_at(i);
            let ghost before = self@.columns;
            proof {
                assert(rec@.take(i + 1).drop_last() =~= rec@.take(i as int));
                assert(rec@.take(i + 1).last() == rec@[i as int]);
                lemma_observe_entry(before, k.deep_view(), v@);
            }
            let col_id = match self.find_column(k) {
                Some(col_id) => col_id,
                None => {
                    let fresh = SourceColumn {
                        source_path: clone_json_path(k),
                        is_nullable: false,
                        is_null: true,
                        is_bool: true,
                        is_i64: true,
                        is_f64: true,
                        example_values: Vec::new(),
                    };
                    assert(fresh@.example_values =~= Seq::<ScalarView>::empty());
                    self.add_column(ColumnSchema::SourceColumn(fresh));
                    self.columns.len() - 1
                },
            };
            let ghost known = self@.columns;
            proof {
                assert(is_column_of(known, col_id as int, k.deep_view()));
                assert(col_id as int == column_position(known, k.deep_view())) by {
                    let at = column_position(known, k.deep_view());
                    assert(is_column_of(known, at, k.deep_view()));
                    if !has_column(before, k.deep_view()) {
                        if at < before.len() {
                            assert(is_column_of(before, at, k.deep_view()));
                        }
                    }
                }
            }
            let ghost seen = self.columns@[col_id as int]@->SourceColumn_0;
            match &mut self.columns[col_id] {
                ColumnSchema::SourceColumn(col) => {
                    let ghost examples = col.example_values@;
                    col.is_nullable = col.is_nullable || v.is_null();
                    col.is_null = col.is_null && v.is_null();
                    col.is_bool = col.is_bool && v.is_boolean();
                    col.is_i64 = col.is_i64 && v.is_i64();
                    col.is_f64 = col.is_f64 && v.is_f64();
                    if col.example_values.len() < MAX_EXAMPLES && !v.is_null() {
                        col.example_values.push(v.clone());
                        assert(scalar_views(col.example_values@) =~= scalar_views(examples).push(
                            v@,
                        ));
                    }
                    assert(col@ == observe(seen, v@));
                },
                ColumnSchema::PrimaryKey => {},
                ColumnSchema::ForeignKey => {},
            }
            proof {
                assert(self@.columns =~= known.update(
                    col_id as int,
                    ColumnView::SourceColumn(observe(seen, v@)),
                ));
            }
            i = i + 1;
        }
        proof {
            assert(rec@.take(rec@.len() as int) =~= rec@);
            lemma_observe_record(old(self)@.columns, rec@);
        }
    }
}

/// The name of the table that was registered as number `k`.
pub open spec fn table_name(k: nat) -> Seq<char> {
    "table_"@ + decimal(k)
}

/// The schema of a table that was just registered as number `k`.
pub open spec fn new_table(k: nat, path: TablePathView) -> TableSchemaView {
    TableSchemaView {
        columns: seq![ColumnView::PrimaryKey, ColumnView::ForeignKey],
        name: table_name(k),
        path,
    }
}

/// The tables of a database, in the order in which their paths were first
/// seen. A table's schema is either kept here or lent out to the one writer
/// that is filling the table.
#[derive(Debug)]
pub struct DatabaseSchema {
    table_paths: Vec<TablePath>,
    tables: Vec<Option<TableSchema>>,
}

/// What a `DatabaseSchema` is in contracts: the registered paths, and for
/// each the schema, or `None` while it is lent out.
pub struct DatabaseSchemaView {
    pub paths: Seq<TablePathView>,
    pub tables: Seq<Option<TableSchemaView>>,
}

impl DatabaseSchemaView {
    /// Some table is registered under the path.
    pub open spec fn knows(self, path: TablePathView) -> bool {
        exists|i: int| 0 <= i < self.paths.len() && #[trigger] self.paths[i] == path
    }

    /// The number of the table registered under the path. Meaningful where
    /// `knows` holds.
    pub open spec fn table_id(self, path: TablePathView) -> int {
        choose|i: int| 0 <= i < self.paths.len() && #[trigger] self.paths[i] == path
    }

    /// Every table's schema is in the registry.
    pub open spec fn all_returned(self) -> bool {
        forall|i: int| 0 <= i < self.tables.len() ==> (#[trigger] self.tables[i]) is Some
    }

    /// The registry's invariant: every path has one slot, no path is
    /// registered twice, and the schemas that are present are well formed.
    pub open spec fn wf(self) -> bool {
        &&& self.paths.len() == self.tables.len()
        &&& forall|i: int, j: int|
            0 <= i < self.paths.len() && 0 <= j < self.paths.len() && i != j
                ==> #[trigger] self.paths[i] != #[trigger] self.paths[j]
        &&& forall|i: int|
            0 <= i < self.tables.len() ==> (#[trigger] self.tables[i] matches Some(t)
                ==> columns_wf(t.columns))
    }

    /// The registry after the schema of `path` was asked for: a known table
    /// leaves its slot empty, an unknown one is registered with an empty
    /// slot.
    pub open spec fn after_borrow(self, path: TablePathView) -> DatabaseSchemaView {
        if self.knows(path) {
            DatabaseSchemaView {
                paths: self.paths,
                tables: self.tables.update(self.table_id(path), None),
            }
        } else {
            DatabaseSchemaView { paths: self.paths.push(path), tables: self.tables.push(None) }
        }
    }

    /// What asking for the schema of `path` hands out: the schema of a known
    /// table unless it is lent out already, and a new schema for an unknown
    /// one.
    pub open spec fn lent(self, path: TablePathView) -> Option<TableSchemaView> {
        if self.knows(path) {
            self.tables[self.table_id(path)]
        } else {
            Some(new_table(self.paths.len(), path))
        }
    }

    /// The registry after `schema` was put into the slot of `path`.
    pub open spec fn after_return(
        self,
        path: TablePathView,
        schema: TableSchemaView,
    ) -> DatabaseSchemaView {
        DatabaseSchemaView {
            paths: self.paths,
            tables: self.tables.update(self.table_id(path), Some(schema)),
        }
    }
}

/// The slots of the registry as contracts see them.
pub open spec fn slot_views(tables: Seq<Option<TableSchema>>) -> Seq<Option<TableSchemaView>> {
    Seq::new(
        tables.len(),
        |i: int|
            match tables[i] {
                Some(t) => Some(t@),
                None => None,
            },
    )
}

impl View for DatabaseSchema {
    type V = DatabaseSchemaView;

    closed spec fn view(&self) -> DatabaseSchemaView {
        DatabaseSchemaView {
            paths: self.table_paths.deep_view(),
            tables: slot_views(self.tables@),
        }
    }
}

impl DatabaseSchema {
    /// The registry's invariant.
    pub open spec fn wf(&self) -> bool {
        self@.wf()
    }

    /// A registry without tables.
    pub fn empty() -> (db: DatabaseSchema)
        ensures
            db@ == (DatabaseSchemaView { paths: Seq::empty(), tables: Seq::empty() }),
            db.wf(),
    {
        let db = DatabaseSchema { table_paths: Vec::new(), tables: Vec::new() };
        proof {
            assert(db@.paths =~= Seq::<TablePathView>::empty());
            assert(db@.tables =~= Seq::<Option<TableSchemaView>>::empty());
        }
        db
    }

    /// The number of registered tables.
    pub fn len(&self) -> (n: usize)
        ensures
            n == self@.tables.len(),
            self.wf() ==> n == self@.paths.len(),
    {
        self.tables.len()
    }

    /// The path of table number `i`.
    pub fn table_path(&self, i: usize) -> (path: &TablePath)
        requires
            i < self@.paths.len(),
        ensures
            path.deep_view() == self@.paths[i as int],
    {
        &self.table_paths[i]
    }

    /// The schema of table number `i`, unless it is lent out.
    pub fn table(&self, i: usize) -> (r: Option<&TableSchema>)
        requires
            i < self@.tables.len(),
        ensures
            r is Some == self@.tables[i as int] is Some,
            r matches Some(t) ==> Some(t@) == self@.tables[i as int],
    {
        match &self.tables[i] {
            Some(t) => Some(t),
            None => None,
        }
    }

    /// The number of the table registered under `path`, if there is one.
    pub fn find_table(&self, path: &TablePath) -> (r: Option<usize>)
        requires
            self.wf(),
        ensures
            r is Some == self@.knows(path.deep_view()),
            r matches Some(i) ==> i == self@.table_id(path.deep_view()) && i < self@.paths.len(),
    {
        let mut i: usize = 0;
        while i < self.table_paths.len()
            invariant
                self.wf(),
                i <= self.table_paths.len(),
                forall|j: int| 0 <= j < i ==> #[trigger] self@.paths[j] != path.deep_view(),
            decreases self.table_paths.len() - i,
        {
            if table_path_eq(&self.table_paths[i], path) {
                proof {
                    assert(self@.paths[i as int] == path.deep_view());
                    let j = self@.table_id(path.deep_view());
                    assert(self@.paths[j] == path.deep_view());
                }
                return Some(i);
            }
            i = i + 1;
        }
        None
    }

    /// Hands out the schema of the table at `path` to the one writer that
    /// will fill it. A path seen for the first time gets a new table, named
    /// by its number. `None` says that the schema is lent out already.
    pub fn borrow_table_schema(&mut self, path: &TablePath) -> (r: Option<TableSchema>)
        requires
            old(self).wf(),
        ensures
            final(self).wf(),
            final(self)@ == old(self)@.after_borrow(path.deep_view()),
            r is Some == old(self)@.lent(path.deep_view()) is Some,
            r matches Some(t) ==> Some(t@) == old(self)@.lent(path.deep_view()) && t.wf(),
    {
        match self.find_table(path) {
            Some(t_id) => {
                let mut schema: Option<TableSchema> = None;
                std::mem::swap(&mut self.tables[t_id], &mut schema);
                assert(self@.tables =~= old(self)@.tables.update(t_id as int, None));
                schema
            },
            None => {
                let table_id = self.tables.len();
                self.table_paths.push(clone_table_path(path));
                let mut name = String::from_str("table_");
                push_decimal(&mut name, table_id as u64);
                let schema = TableSchema::empty_with_ids(name, clone_table_path(path));
                self.tables.push(None);
                assert(self@.paths =~= old(self)@.paths.push(path.deep_view()));
                assert(self@.tables =~= old(self)@.tables.push(None));
                Some(schema)
            },
        }
    }

    /// Puts a schema back into the slot of the table at `path`. Fails for a
    /// path that was never registered, and then changes nothing.
    pub fn return_table_schema(&mut self, path: &TablePath, schema: TableSchema) -> (r: Result<
        (),
        DatabaseError,
    >)
        requires
            old(self).wf(),
            schema.wf(),
        ensures
            final(self).wf(),
            old(self)@.knows(path.deep_view()) ==> r is Ok && final(self)@ == old(
                self,
            )@.after_return(path.deep_view(), schema@),
            !old(self)@.knows(path.deep_view()) ==> r == Err::<(), DatabaseError>(
                DatabaseError::UnknownTable,
            ) && final(self)@ == old(self)@,
    {
        match self.find_table(path) {
            Some(table_id) => {
                let mut slot = Some(schema);
                std::mem::swap(&mut self.tables[table_id], &mut slot);
                assert(self@.tables =~= old(self)@.tables.update(table_id as int, Some(schema@)));
                Ok(())
            },
            None => Err(DatabaseError::UnknownTable),
        }
    }

    /// Checks that no table schema is lent out.
    pub fn ensure_all_tables_returned(&self) -> (r: Result<(), DatabaseError>)
        ensures
            self@.all_returned() ==> r is Ok,
            !self@.all_returned() ==> r == Err::<(), DatabaseError>(DatabaseError::StillBorrowed),
    {
        let mut i: usize = 0;
        while i < self.tables.len()
            invariant
                i <= self.tables.len(),
                forall|j: int| 0 <= j < i ==> (#[trigger] self@.tables[j]) is Some,
            decreases self.tables.len() - i,
        {
            if self.tables[i].is_none() {
                assert(self@.tables[i as int] is None);
                return Err(DatabaseError::StillBorrowed);
            }
            i = i + 1;
        }
        Ok(())
    }
}

} // verus!
