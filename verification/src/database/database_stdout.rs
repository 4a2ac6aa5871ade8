//! The debug sink: every row becomes one line of text, `location: record`,
//! for the caller to print.
use crate::database::database_csv::{bool_text, csv_field_quote, quoted};
use crate::database::{Database, DatabaseError};
use crate::parser::models::{
    JsonPath, JsonPathView, RecordView, Scalar, ScalarView, TableLocation, TableLocationView,
    TablePath, TablePathView, TableRecord,
};
use crate::text::{i64_to_string, join, join_spec, signed_decimal};
use vstd::prelude::*;
use vstd::string::StringExecFns;

verus! {

/// A list in brackets, its items separated by a comma and a space.
pub open spec fn bracketed(items: Seq<Seq<char>>) -> Seq<char> {
    "["@ + join_spec(items, ", "@) + "]"@
}

/// A path as text: its keys, each between double quotes, in brackets.
pub open spec fn path_text(path: JsonPathView) -> Seq<char> {
    bracketed(Seq::new(path.len(), |i: int| quoted(path[i])))
}

/// A table path as text: its paths in brackets.
pub open spec fn table_path_text(path: TablePathView) -> Seq<char> {
    bracketed(Seq::new(path.len(), |i: int| path_text(path[i])))
}

/// A value as text, as JSON writes it; a string's double quotes are doubled.
pub open spec fn scalar_text(v: ScalarView) -> Seq<char> {
    match v {
        ScalarView::Null => "null"@,
        ScalarView::Bool(b) => bool_text(b),
        ScalarView::Int(i) => signed_decimal(i as int),
        ScalarView::Float(t) => t,
        ScalarView::Str(s) => quoted(s),
    }
}

/// A location as text.
pub open spec fn location_text(loc: TableLocationView) -> Seq<char> {
    "TableLocation { table_path: "@ + table_path_text(loc.table_path) + ", object_id: "@
        + signed_decimal(loc.object_id as int) + ", parent_object_id: "@ + signed_decimal(
        loc.parent_object_id as int,
    ) + " }"@
}

/// One entry of a record as text: `path: value`.
pub open spec fn entry_text(entry: (JsonPathView, ScalarView)) -> Seq<char> {
    path_text(entry.0) + ": "@ + scalar_text(entry.1)
}

/// A record as text: its entries in braces.
pub open spec fn record_text(rec: RecordView) -> Seq<char> {
    "{"@ + join_spec(Seq::new(rec.len(), |i: int| entry_text(rec[i])), ", "@) + "}"@
}

/// The line of a row: `location: record`.
pub open spec fn row_text(loc: TableLocationView, rec: RecordView) -> Seq<char> {
    location_text(loc) + ": "@ + record_text(rec)
}

fn render_path(path: &JsonPath) -> (r: String)
    ensures
        r@ == path_text(path.deep_view()),
{
    let mut keys: Vec<String> = Vec::new();
    let mut i: usize = 0;
    while i < path.len()
        invariant
            i <= path.len(),
            keys.len() == i,
            forall|j: int| 0 <= j < i ==> (#[trigger] keys[j])@ == quoted(path[j]@),
        decreases path.len() - i,
    {
        keys.push(csv_field_quote(&path[i]));
        i = i + 1;
    }
    assert(keys.deep_view() =~= Seq::new(
        path.deep_view().len(),
        |i: int| quoted(path.deep_view()[i]),
    ));
    let mut out = String::from_str("[");
    out.append(join(&keys, ", ").as_str());
    out.append("]");
    out
}

fn render_table_path(path: &TablePath) -> (r: String)
    ensures
        r@ == table_path_text(path.deep_view()),
{
    let mut paths: Vec<String> = Vec::new();
    let mut i: usize = 0;
    while i < path.len()
        invariant
            i <= path.len(),
            paths.len() == i,
            forall|j: int| 0 <= j < i ==> (#[trigger] paths[j])@ == path_text(path[j].deep_view()),
        decreases path.len() - i,
    {
        paths.push(render_path(&path[i]));
        i = i + 1;
    }
    assert(paths.deep_view() =~= Seq::new(
        path.deep_view().len(),
        |i: int| path_text(path.deep_view()[i]),
    ));
    let mut out = String::from_str("[");
    out.append(join(&paths, ", ").as_str());
    out.append("]");
    out
}

fn render_scalar(v: &Scalar) -> (r: String)
    ensures
        r@ == scalar_text(v@),
{
    match v {
        Scalar::Null => String::from_str("null"),
        Scalar::Bool(b) => {
            if *b {
                String::from_str("true")
            } else {
                String::from_str("false")
            }
        },
        Scalar::Int(i) => i64_to_string(*i),
        Scalar::Float(t) => t.clone(),
        Scalar::Str(s) => csv_field_quote(s),
    }
}

fn render_record(rec: &TableRecord) -> (r: String)
    ensures
        r@ == record_text(rec@),
{
    let mut entries: Vec<String> = Vec::new();
    let mut i: usize = 0;
    while i < rec.len()
        invariant
            i <= rec@.len(),
            entries.len() == i,
            forall|j: int| 0 <= j < i ==> (#[trigger] entries[j])@ == entry_text(rec@[j]),
        decreases rec@.len() - i,
    {
        let mut entry = render_path(rec.key_at(i));
        entry.append(": ");
        entry.append(render_scalar(rec.value_at(i)).as_str());
        entries.push(entry);
        i = i + 1;
    }
    assert(entries.deep_view() =~= Seq::new(rec@.len(), |i: int| entry_text(rec@[i])));
    let mut out = String::from_str("{");
    out.append(join(&entries, ", ").as_str());
    out.append("}");
    out
}

/// The writer of one table of the debug sink. It keeps nothing.
pub struct TableStdout {}

/// The debug sink. It keeps nothing: every row is turned into its line and
/// forgotten.
pub struct DatabaseStdout {}

impl View for DatabaseStdout {
    type V = ();

    open spec fn view(&self) -> () {
        ()
    }
}

impl DatabaseStdout {
    /// A debug sink.
    pub fn new() -> (r: DatabaseStdout) {
        DatabaseStdout {  }
    }
}

impl Database for DatabaseStdout {
    type Written = String;

    type WrittenView = Seq<char>;

    open spec fn wf(&self) -> bool {
        true
    }

    open spec fn written_view(written: String) -> Seq<char> {
        written@
    }

    open spec fn after_write(state: (), table: TableLocationView, record: RecordView) -> () {
        state
    }

    open spec fn write_result(state: (), table: TableLocationView, record: RecordView) -> Result<
        Seq<char>,
        DatabaseError,
    > {
        Ok(row_text(table, record))
    }

    open spec fn after_close(state: ()) -> () {
        state
    }

    open spec fn close_result(state: ()) -> Result<(), DatabaseError> {
        Ok(())
    }

    /// The line of a row, without a line feed.
    fn write(&mut self, table: TableLocation, record: TableRecord) -> (r: Result<
        String,
        DatabaseError,
    >) {
        let mut out = String::from_str("TableLocation { table_path: ");
        out.append(render_table_path(&table.table_path).as_str());
        out.append(", object_id: ");
        out.append(i64_to_string(table.object_id as i64).as_str());
        out.append(", parent_object_id: ");
        out.append(i64_to_string(table.parent_object_id as i64).as_str());
        out.append(" }");
        out.append(": ");
        out.append(render_record(&record).as_str());
        assert(out@ =~= row_text(table@, record@));
        Ok(out)
    }

    /// Closes the sink. Nothing is pending.
    fn close(&mut self) -> (r: Result<(), DatabaseError>) {
        Ok(())
    }
}

} // verus!
