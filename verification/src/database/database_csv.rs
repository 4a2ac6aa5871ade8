//! The CSV sink: one comma-separated file per table, a row per line. The
//! sink computes which table a row goes to and what its line holds; writing
//! the line is left to the caller.
use crate::database::schema::{
    columns_follow, columns_wf, has_column, lemma_observe_record, observe_record, ColumnSchema,
    ColumnView, DatabaseSchema, DatabaseSchemaView, TableSchema, TableSchemaView,
};
use crate::database::{Database, DatabaseError};
use crate::lists::{has_slot, lemma_push_slot, lemma_slot_unique, lookup, slot_of, slots_distinct};
use crate::parser::models::{
    clone_table_path, table_path_eq, RecordView, Scalar, ScalarView, TableLocation,
    TableLocationView, TablePath, TablePathView, TableRecord,
};
use crate::text::{i64_to_string, join, join_spec, signed_decimal};
use vstd::prelude::*;
use vstd::string::StringExecFns;

verus! {

/// The text with every double quote written twice.
pub open spec fn doubled_quotes(s: Seq<char>) -> Seq<char>
    decreases s.len(),
{
    if s.len() == 0 {
        Seq::empty()
    } else if s.last() == '"' {
        doubled_quotes(s.drop_last()).push('"').push('"')
    } else {
        doubled_quotes(s.drop_last()).push(s.last())
    }
}

/// The text between double quotes, its own double quotes doubled.
pub open spec fn quoted(s: Seq<char>) -> Seq<char> {
    seq!['"'] + doubled_quotes(s) + seq!['"']
}

/// The text cannot stand in a CSV field as it is: it is empty, or holds a
/// double quote, a comma or a line feed.
pub open spec fn needs_quotes(s: Seq<char>) -> bool {
    s.len() == 0 || s.contains('"') || s.contains(',') || s.contains('\n')
}

/// The text as a CSV field.
pub open spec fn escaped(s: Seq<char>) -> Seq<char> {
    if needs_quotes(s) {
        quoted(s)
    } else {
        s
    }
}

/// The text between double quotes, with its own double quotes doubled.
pub fn csv_field_quote(s: &String) -> (r: String)
    ensures
        r@ == quoted(s@),
{
    let mut out = String::new();
    out.push('"');
    for c in it: s.as_str().chars()
        invariant
            it.seq() == s@,
            out@ == seq!['"'] + doubled_quotes(s@.take(it.index())),
    {
        proof {
            let next = s@.take(it.index() + 1);
            assert(next.drop_last() =~= s@.take(it.index()));
            assert(next.last() == c);
        }
        if c == '"' {
            out.push('"');
            out.push('"');
        } else {
            out.push(c);
        }
        assert(out@ =~= seq!['"'] + doubled_quotes(s@.take(it.index() + 1)));
    }
    assert(s@.take(s@.len() as int) =~= s@);
    out.push('"');
    assert(out@ =~= quoted(s@));
    out
}

/// Tells whether the text holds a character that a CSV field must quote.
fn has_special(s: &String) -> (r: bool)
    ensures
        r == (s@.contains('"') || s@.contains(',') || s@.contains('\n')),
{
    let mut found = false;
    for c in it: s.as_str().chars()
        invariant
            it.seq() == s@,
            found == exists|j: int|
                0 <= j < it.index() && (s@[j] == '"' || s@[j] == ',' || s@[j] == '\n'),
    {
        if c == '"' || c == ',' || c == '\n' {
            found = true;
        }
    }
    found
}

/// The text as a CSV field: quoted if it is empty or holds a double quote,
/// a comma or a line feed, and unchanged otherwise.
pub fn csv_field_escape(s: &String) -> (r: String)
    ensures
        r@ == escaped(s@),
{
    if s.as_str().is_empty() {
        let r = String::from_str("\"\"");
        proof {
            reveal_strlit("\"\"");
            assert(r@ =~= quoted(s@));
        }
        return r;
    }
    if has_special(s) {
        csv_field_quote(s)
    } else {
        s.clone()
    }
}

/// How a truth value is written.
pub open spec fn bool_text(b: bool) -> Seq<char> {
    if b {
        "true"@
    } else {
        "false"@
    }
}

/// The text of a value in a CSV field; `null` has none. A number is written
/// as it is, a string is escaped.
pub open spec fn value_text(v: ScalarView) -> Option<Seq<char>> {
    match v {
        ScalarView::Null => None,
        ScalarView::Bool(b) => Some(bool_text(b)),
        ScalarView::Int(i) => Some(signed_decimal(i as int)),
        ScalarView::Float(t) => Some(t),
        ScalarView::Str(s) => Some(escaped(s)),
    }
}

/// The text of one cell of a row: the row's key, the enclosing row's key,
/// or the value that the record holds at the column's path.
pub open spec fn cell_text(col: ColumnView, loc: TableLocationView, rec: RecordView) -> Option<
    Seq<char>,
> {
    match col {
        ColumnView::SourceColumn(c) => match lookup(rec, c.source_path) {
            Some(v) => value_text(v),
            None => None,
        },
        ColumnView::PrimaryKey => Some(signed_decimal(loc.object_id as int)),
        ColumnView::ForeignKey => Some(signed_decimal(loc.parent_object_id as int)),
    }
}

/// The cells of a row, one per column and in the columns' order.
pub open spec fn row_cells(
    columns: Seq<ColumnView>,
    loc: TableLocationView,
    rec: RecordView,
) -> Seq<Option<Seq<char>>> {
    Seq::new(columns.len(), |i: int| cell_text(columns[i], loc, rec))
}

/// The text of a cell in a line: nothing for a cell without text.
pub open spec fn field_text(cell: Option<Seq<char>>) -> Seq<char> {
    match cell {
        Some(t) => t,
        None => Seq::empty(),
    }
}

/// The line of a row: its fields separated by commas, and a line feed.
pub open spec fn row_line(cells: Seq<Option<Seq<char>>>) -> Seq<char> {
    join_spec(Seq::new(cells.len(), |i: int| field_text(cells[i])), seq![',']).push('\n')
}

/// The cells that `make_columns` returns, as contracts see them.
pub open spec fn cell_views(cells: Seq<Option<String>>) -> Seq<Option<Seq<char>>> {
    Seq::new(
        cells.len(),
        |i: int|
            match cells[i] {
                Some(s) => Some(s@),
                None => None,
            },
    )
}

/// The writer of one table. It holds the table's schema while it writes.
pub struct TableCsv {
    schema: Option<TableSchema>,
}

impl TableCsv {
    /// The schema that the writer holds, if it has not given it up.
    pub closed spec fn schema(&self) -> Option<TableSchemaView> {
        match self.schema {
            Some(s) => Some(s@),
            None => None,
        }
    }

    /// The writer's invariant: the schema it holds is well formed.
    pub open spec fn wf(&self) -> bool {
        self.schema() matches Some(s) ==> columns_wf(s.columns)
    }

    /// A writer for the table with this schema.
    pub fn new(schema: TableSchema) -> (r: TableCsv)
        requires
            schema.wf(),
        ensures
            r.schema() == Some(schema@),
            r.wf(),
    {
        TableCsv { schema: Some(schema) }
    }

    /// The text of a value in a CSV field; `null` has none.
    pub fn value_to_str(v: &Scalar) -> (r: Option<String>)
        ensures
            r is Some == value_text(v@) is Some,
            r matches Some(s) ==> Some(s@) == value_text(v@),
    {
        match v {
            Scalar::Null => None,
            Scalar::Bool(b) => {
                if *b {
                    Some(String::from_str("true"))
                } else {
                    Some(String::from_str("false"))
                }
            },
            Scalar::Int(i) => Some(i64_to_string(*i)),
            Scalar::Float(t) => Some(t.clone()),
            Scalar::Str(s) => Some(csv_field_escape(s)),
        }
    }

    /// The name of the table.
    pub fn table_name(&self) -> (r: Option<String>)
        ensures
            r is Some == self.schema() is Some,
            r matches Some(name) ==> name@ == self.schema()->0.name,
    {
        match &self.schema {
            Some(schema) => Some(schema.name.clone()),
            None => None,
        }
    }

    /// Takes note of the record in the schema, then lays the row out: one
    /// cell per column of the schema as it is after that.
    pub fn make_columns(&mut self, loc: TableLocation, rec: TableRecord) -> (r: Vec<
        Option<String>,
    >)
        requires
            old(self).wf(),
            old(self).schema() is Some,
        ensures
            final(self).wf(),
            final(self).schema() == Some(
                TableSchemaView {
                    columns: observe_record(old(self).schema()->0.columns, rec@),
                    name: old(self).schema()->0.name,
                    path: old(self).schema()->0.path,
                },
            ),
            cell_views(r@) == row_cells(final(self).schema()->0.columns, loc@, rec@),
            columns_follow(old(self).schema()->0.columns, final(self).schema()->0.columns),
            forall|k: int|
                0 <= k < rec@.len() ==> has_column(
                    final(self).schema()->0.columns,
                    (#[trigger] rec@[k]).0,
                ),
    {
        let mut cells: Vec<Option<String>> = Vec::new();
        match &mut self.schema {
            Some(schema) => {
                schema.update(&rec);
                let ghost columns = schema@.columns;
                let mut i: usize = 0;
                while i < schema.columns.len()
                    invariant
                        i <= schema.columns.len(),
                        schema@.columns == columns,
                        cells.len() == i,
                        forall|j: int|
                            0 <= j < i ==> (#[trigger] cell_views(cells@)[j]) == cell_text(
                                columns[j],
                                loc@,
                                rec@,
                            ),
                    decreases schema.columns.len() - i,
                {
                    let cell = match &schema.columns[i] {
                        ColumnSchema::SourceColumn(col) => match rec.get(&col.source_path) {
                            Some(t) => TableCsv::value_to_str(t),
                            None => None,
                        },
                        ColumnSchema::PrimaryKey => Some(i64_to_string(loc.object_id as i64)),
                        ColumnSchema::ForeignKey => Some(
                            i64_to_string(loc.parent_object_id as i64),
                        ),
                    };
                    assert(columns[i as int] == schema.columns@[i as int]@);
                    assert(cell is Some == cell_text(columns[i as int], loc@, rec@) is Some);
                    assert(cell is Some ==> Some(cell->0@) == cell_text(
                        columns[i as int],
                        loc@,
                        rec@,
                    ));
                    let ghost earlier = cells@;
                    cells.push(cell);
                    proof {
                        assert forall|j: int| 0 <= j < i + 1 implies (#[trigger] cell_views(
                            cells@,
                        )[j]) == cell_text(columns[j], loc@, rec@) by {
                            if j < i {
                                assert(cell_views(cells@)[j] == cell_views(earlier)[j]);
                            }
                        }
                    }
                    i = i + 1;
                }
                assert(cell_views(cells@) =~= row_cells(columns, loc@, rec@));
            },
            None => {},
        }
        cells
    }

    /// Takes note of the record in the schema and returns the line of the
    /// row, line feed included.
    pub fn write(&mut self, loc: TableLocation, rec: TableRecord) -> (line: String)
        requires
            old(self).wf(),
            old(self).schema() is Some,
        ensures
            final(self).wf(),
            final(self).schema() == Some(
                TableSchemaView {
                    columns: observe_record(old(self).schema()->0.columns, rec@),
                    name: old(self).schema()->0.name,
                    path: old(self).schema()->0.path,
                },
            ),
            line@ == row_line(row_cells(final(self).schema()->0.columns, loc@, rec@)),
    {
        let ghost loc_view = loc@;
        let ghost rec_view = rec@;
        let vals = self.make_columns(loc, rec);
        let mut fields: Vec<String> = Vec::new();
        let mut i: usize = 0;
        while i < vals.len()
            invariant
                i <= vals.len(),
                fields.len() == i,
                forall|j: int|
                    0 <= j < i ==> (#[trigger] fields@[j])@ == field_text(cell_views(vals@)[j]),
            decreases vals.len() - i,
        {
            let field = match &vals[i] {
                Some(v) => v.clone(),
                None => String::new(),
            };
            fields.push(field);
            i = i + 1;
        }
        let mut line = join(&fields, ",");
        line.push('\n');
        proof {
            reveal_strlit(",");
            assert(","@ =~= seq![',']);
            let cells = cell_views(vals@);
            assert(fields.deep_view() =~= Seq::new(cells.len(), |i: int| field_text(cells[i])));
        }
        line
    }

    /// Gives up the schema.
    pub fn pop_schema(&mut self) -> (r: Option<TableSchema>)
        requires
            old(self).wf(),
        ensures
            final(self).schema() is None,
            final(self).wf(),
            r is Some == old(self).schema() is Some,
            r matches Some(s) ==> Some(s@) == old(self).schema() && s.wf(),
    {
        let mut schema: Option<TableSchema> = None;
        std::mem::swap(&mut self.schema, &mut schema);
        schema
    }
}

/// What the sink asks its caller to write: a line, and the table whose
/// file it goes to.
#[derive(Debug)]
pub struct CsvRow {
    pub table_name: String,
    pub line: String,
}

/// What a `DatabaseCsv` is in contracts: the schema registry, and the
/// schemas that the writers of the open tables hold, by table path and in
/// the order in which the tables were opened.
pub struct DatabaseCsvView {
    pub schema: DatabaseSchemaView,
    pub tables: Seq<(TablePathView, TableSchemaView)>,
}

/// The schema after a record was noted in it.
pub open spec fn schema_after(schema: TableSchemaView, rec: RecordView) -> TableSchemaView {
    TableSchemaView {
        columns: observe_record(schema.columns, rec),
        name: schema.name,
        path: schema.path,
    }
}

/// The registry after the schemas of the open tables were handed back, in
/// the order in which the tables were opened.
pub open spec fn returned_all(
    schema: DatabaseSchemaView,
    tables: Seq<(TablePathView, TableSchemaView)>,
) -> DatabaseSchemaView
    decreases tables.len(),
{
    if tables.len() == 0 {
        schema
    } else {
        returned_all(schema, tables.drop_last()).after_return(tables.last().0, tables.last().1)
    }
}

impl DatabaseCsvView {
    /// The sink's invariant: the registry is well formed, a table is open
    /// once, and every open table is registered, has a well-formed schema,
    /// and has left its slot in the registry empty.
    pub open spec fn wf(self) -> bool {
        &&& self.schema.wf()
        &&& slots_distinct(self.tables)
        &&& forall|i: int|
            0 <= i < self.tables.len() ==> self.schema.knows((#[trigger] self.tables[i]).0)
                && columns_wf(self.tables[i].1.columns) && self.schema.tables[self.schema.table_id(
                self.tables[i].0,
            )] is None
    }

    /// The schema that a row for the table at `path` meets: the one that the
    /// table's writer holds or, for a table that is not open, the one that
    /// the registry hands out.
    pub open spec fn schema_for(self, path: TablePathView) -> Option<TableSchemaView> {
        match lookup(self.tables, path) {
            Some(s) => Some(s),
            None => self.schema.lent(path),
        }
    }

    /// The sink after a row was written.
    pub open spec fn after_write(self, loc: TableLocationView, rec: RecordView) -> DatabaseCsvView {
        if has_slot(self.tables, loc.table_path) {
            let at = slot_of(self.tables, loc.table_path);
            DatabaseCsvView {
                schema: self.schema,
                tables: self.tables.update(
                    at,
                    (loc.table_path, schema_after(self.tables[at].1, rec)),
                ),
            }
        } else {
            DatabaseCsvView {
                schema: self.schema.after_borrow(loc.table_path),
                tables: match self.schema.lent(loc.table_path) {
                    Some(s) => self.tables.push((loc.table_path, schema_after(s, rec))),
                    None => self.tables,
                },
            }
        }
    }
}

/// The CSV sink. It opens a writer for every table that a row arrives for,
/// and lends it the table's schema from the registry until the sink is
/// closed.
pub struct DatabaseCsv {
    schema: DatabaseSchema,
    tables: Vec<(TablePath, TableCsv)>,
}

spec fn open_tables(tables: Seq<(TablePath, TableCsv)>) -> Seq<(TablePathView, TableSchemaView)> {
    Seq::new(tables.len(), |i: int| (tables[i].0.deep_view(), tables[i].1.schema()->0))
}

impl View for DatabaseCsv {
    type V = DatabaseCsvView;

    closed spec fn view(&self) -> DatabaseCsvView {
        DatabaseCsvView { schema: self.schema@, tables: open_tables(self.tables@) }
    }
}

/// What a `CsvRow` is in contracts: the table's name and the line.
pub type CsvRowView = (Seq<char>, Seq<char>);

impl DatabaseCsvView {
    /// What writing a row hands back: the name of the row's table and the
    /// row's line, laid out by the table's schema after the record was noted
    /// in it. The row is refused if its table is not open and the schema is
    /// lent to someone else.
    pub open spec fn written(self, loc: TableLocationView, rec: RecordView) -> Result<
        CsvRowView,
        DatabaseError,
    > {
        match self.schema_for(loc.table_path) {
            Some(before) => {
                let schema = schema_after(before, rec);
                Ok((schema.name, row_line(row_cells(schema.columns, loc, rec))))
            },
            None => Err(DatabaseError::StillBorrowed),
        }
    }

    /// The sink after it was closed: the schemas of the open tables are back
    /// in the registry, and no table is open.
    pub open spec fn closed(self) -> DatabaseCsvView {
        DatabaseCsvView { schema: returned_all(self.schema, self.tables), tables: Seq::empty() }
    }
}

impl DatabaseCsv {
    /// What the invariant says of the sink as contracts see it.
    pub proof fn lemma_wf(&self)
        requires
            self.wf(),
        ensures
            self@.wf(),
    {
    }

    /// A sink without open tables over the given registry.
    pub fn new(schema: DatabaseSchema) -> (r: DatabaseCsv)
        requires
            schema.wf(),
        ensures
            r.wf(),
            r@ == (DatabaseCsvView { schema: schema@, tables: Seq::empty() }),
    {
        let r = DatabaseCsv { schema, tables: Vec::new() };
        assert(r@.tables =~= Seq::<(TablePathView, TableSchemaView)>::empty());
        r
    }

    /// The schema registry.
    pub fn get_schema(&self) -> (r: &DatabaseSchema)
        requires
            self.wf(),
        ensures
            r@ == self@.schema,
            r.wf(),
    {
        &self.schema
    }

    /// The position of the open table at `path`, if there is one.
    fn find_open(&self, table_path: &TablePath) -> (r: Option<usize>)
        requires
            self.wf(),
        ensures
            r is Some == has_slot(self@.tables, table_path.deep_view()),
            r matches Some(i) ==> i < self.tables@.len() && i == slot_of(
                self@.tables,
                table_path.deep_view(),
            ),
    {
        let mut i: usize = 0;
        while i < self.tables.len()
            invariant
                self.wf(),
                i <= self.tables.len(),
                forall|j: int| 0 <= j < i ==>
                    (#[trigger] self@.tables[j]).0 != table_path.deep_view(),
            decreases self.tables.len() - i,
        {
            if table_path_eq(&self.tables[i].0, table_path) {
                proof {
                    lemma_slot_unique(self@.tables, table_path.deep_view(), i as int);
                }
                return Some(i);
            }
            i = i + 1;
        }
        None
    }

    /// The position of the writer of the table at `path`. A table that is
    /// not open is opened with the schema that the registry hands out; that
    /// fails if the registry has lent the schema to someone else.
    fn get_or_create_table_mut(&mut self, table_path: &TablePath) -> (r: Result<
        usize,
        DatabaseError,
    >)
        requires
            old(self).wf(),
        ensures
            final(self).wf(),
            old(self)@.schema_for(table_path.deep_view()) is Some ==> r is Ok,
            old(self)@.schema_for(table_path.deep_view()) is None ==> r == Err::<
                usize,
                DatabaseError,
            >(DatabaseError::StillBorrowed),
            has_slot(old(self)@.tables, table_path.deep_view()) ==> final(self)@ == old(self)@,
            !has_slot(old(self)@.tables, table_path.deep_view()) ==> final(self)@.schema == old(
                self,
            )@.schema.after_borrow(table_path.deep_view()) && final(self)@.tables == match old(
                self,
            )@.schema.lent(table_path.deep_view()) {
                Some(s) => old(self)@.tables.push((table_path.deep_view(), s)),
                None => old(self)@.tables,
            },
            r matches Ok(i) ==> i < final(self).tables@.len() && i == slot_of(
                final(self)@.tables,
                table_path.deep_view(),
            ) && has_slot(final(self)@.tables, table_path.deep_view()),
    {
        match self.find_open(table_path) {
            Some(i) => Ok(i),
            None => {
                let ghost path = table_path.deep_view();
                let ghost before = self@;
                match self.schema.borrow_table_schema(table_path) {
                    Some(table_schema) => {
                        proof {
                            lemma_push_slot(before.tables, path, table_schema@);
                            lemma_borrow_keeps_known(before.schema, path);
                        }
                        self.tables.push((clone_table_path(table_path),
                            TableCsv::new(table_schema)));
                        proof {
                            assert(self@.tables =~= before.tables.push((path, table_schema@)));
                            assert forall|i: int| 0 <= i < self@.tables.len() implies
                                self@.schema.knows(
                                (#[trigger] self@.tables[i]).0,
                            ) && columns_wf(self@.tables[i].1.columns) by {
                                if i < before.tables.len() {
                                    assert(self@.tables[i] == before.tables[i]);
                                }
                            }
                        }
                        Ok(self.tables.len() - 1)
                    },
                    None => {
                        proof {
                            lemma_borrow_keeps_known(before.schema, path);
                            assert(self@.tables =~= before.tables);
                        }
                        Err(DatabaseError::StillBorrowed)
                    },
                }
            },
        }
    }
}

impl Database for DatabaseCsv {
    type Written = CsvRow;

    type WrittenView = CsvRowView;

    closed spec fn wf(&self) -> bool {
        &&& self@.wf()
        &&& forall|i: int|
            0 <= i < self.tables@.len() ==> (#[trigger] self.tables@[i]).1.schema() is Some
    }

    open spec fn written_view(written: CsvRow) -> CsvRowView {
        (written.table_name@, written.line@)
    }

    open spec fn after_write(
        state: DatabaseCsvView,
        table: TableLocationView,
        record: RecordView,
    ) -> DatabaseCsvView {
        state.after_write(table, record)
    }

    open spec fn write_result(
        state: DatabaseCsvView,
        table: TableLocationView,
        record: RecordView,
    ) -> Result<CsvRowView, DatabaseError> {
        state.written(table, record)
    }

    open spec fn after_close(state: DatabaseCsvView) -> DatabaseCsvView {
        state.closed()
    }

    open spec fn close_result(state: DatabaseCsvView) -> Result<(), DatabaseError> {
        if state.closed().schema.all_returned() {
            Ok(())
        } else {
            Err(DatabaseError::StillBorrowed)
        }
    }

    /// Takes a row: notes the record in the schema of its table, opening the
    /// table if need be, and returns the line to write and the table's name.
    /// Fails, and writes nothing, if the table is not open and its schema is
    /// lent to someone else.
    fn write(&mut self, loc: TableLocation, record: TableRecord) -> (r: Result<
        CsvRow,
        DatabaseError,
    >)
        ensures
            r is Ok ==> forall|k: int|
                0 <= k < record@.len() ==> has_column(
                    schema_after(old(self)@.schema_for(loc@.table_path)->0, record@).columns,
                    (#[trigger] record@[k]).0,
                ),
    {
        let ghost before = self@;
        let ghost path = loc@.table_path;
        match self.get_or_create_table_mut(&loc.table_path) {
            Ok(i) => {
                let ghost opened = self@;
                let ghost met = opened.tables[i as int].1;
                proof {
                    if has_slot(before.tables, path) {
                        assert(before.tables[slot_of(before.tables, path)].0 == path);
                    } else {
                        assert(opened.tables[before.tables.len() as int].0 == path);
                    }
                    assert(Some(met) == before.schema_for(path));
                    lemma_observe_record(met.columns, record@);
                }
                let table = &mut self.tables[i].1;
                let line = table.write(loc, record);
                let table_name = match table.table_name() {
                    Some(name) => name,
                    None => String::new(),
                };
                proof {
                    assert(self@.tables =~= opened.tables.update(
                        i as int,
                        (path, schema_after(met, record@)),
                    ));
                    assert(self@.tables =~= before.after_write(loc@, record@).tables);
                    assert forall|k: int| 0 <= k < self@.tables.len() implies self@.schema.knows(
                        (#[trigger] self@.tables[k]).0,
                    ) && columns_wf(self@.tables[k].1.columns) by {
                        assert(self@.tables[k].0 == opened.tables[k].0);
                        if k != i {
                            assert(self@.tables[k] == opened.tables[k]);
                        }
                    }
                    assert(slots_distinct(self@.tables)) by {
                        assert forall|a: int, b: int|
                            0 <= a < self@.tables.len() && 0 <= b < self@.tables.len() && a
                                != b implies (#[trigger] self@.tables[a]).0 != (
                        #[trigger] self@.tables[b]).0 by {
                            assert(self@.tables[a].0 == opened.tables[a].0);
                            assert(self@.tables[b].0 == opened.tables[b].0);
                        }
                    }
                }
                Ok(CsvRow { table_name, line })
            },
            Err(e) => Err(e),
        }
    }

    /// Closes the sink: every open table hands its schema back to the
    /// registry, in the order in which the tables were opened, and no table
    /// stays open. Fails if a schema is still lent to someone else.
    fn close(&mut self) -> (r: Result<(), DatabaseError>) {
        let ghost before = self@;
        let mut i: usize = 0;
        while i < self.tables.len()
            invariant
                i <= self.tables.len(),
                self.tables@.len() == before.tables.len(),
                before.wf(),
                self.schema.wf(),
                self.schema@ == returned_all(before.schema, before.tables.take(i as int)),
                self.schema@.paths == before.schema.paths,
                forall|k: int|
                    0 <= k < self.tables@.len() ==> (#[trigger] self.tables@[k]).0.deep_view()
                        == before.tables[k].0 && self.tables@[k].1.wf(),
                forall|k: int|
                    i <= k < self.tables@.len() ==> (#[trigger] self.tables@[k]).1.schema() == Some(
                        before.tables[k].1,
                    ),
            decreases self.tables.len() - i,
        {
            proof {
                assert(before.tables.take(i + 1).drop_last() =~= before.tables.take(i as int));
                assert(before.tables.take(i + 1).last() == before.tables[i as int]);
                assert(before.schema.knows(before.tables[i as int].0));
                let id = before.schema.table_id(before.tables[i as int].0);
                assert(self.schema@.paths[id] == before.tables[i as int].0);
            }
            let popped = self.tables[i].1.pop_schema();
            match popped {
                Some(schema) => {
                    let returned = self.schema.return_table_schema(&self.tables[i].0, schema);
                    assert(returned is Ok);
                },
                None => {},
            }
            i = i + 1;
        }
        proof {
            assert(before.tables.take(before.tables.len() as int) =~= before.tables);
        }
        self.tables = Vec::new();
        assert(self@.tables =~= Seq::<(TablePathView, TableSchemaView)>::empty());
        match self.schema.ensure_all_tables_returned() {
            Ok(()) => Ok(()),
            Err(e) => Err(e),
        }
    }
}

/// Asking the registry for a schema forgets no table, and registers the one
/// asked for.
pub proof fn lemma_borrow_keeps_known(schema: DatabaseSchemaView, path: TablePathView)
    requires
        schema.wf(),
    ensures
        schema.after_borrow(path).knows(path),
        forall|p: TablePathView| schema.knows(p) ==> #[trigger] schema.after_borrow(path).knows(p),
{
    let after = schema.after_borrow(path);
    if schema.knows(path) {
        let i = schema.table_id(path);
        assert(after.paths[i] == path);
    } else {
        assert(after.paths[schema.paths.len() as int] == path);
    }
    assert forall|p: TablePathView| schema.knows(p) implies #[trigger] after.knows(p) by {
        let i = schema.table_id(p);
        assert(after.paths[i] == p);
    }
}

} // verus!
