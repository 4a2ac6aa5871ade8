//! The in-memory sink: rows are gathered as flat JSON objects, one list of
//! objects per table. Column and table names are derived from the paths and
//! mangled so that no name collides with the key fields `id_<table>` or
//! with the separators `_in_` and `_lin_`.
use crate::database::{Database, DatabaseError};
use crate::lists::{has_slot, lemma_put, lemma_slot_unique, lookup, put, slot_of, slots_distinct};
use crate::parser::models::{
    parent_path, JsonPath, JsonPathView, RecordView, Scalar, ScalarView, TableLocation,
    TableLocationView, TablePath, TablePathView, TableRecord,
};
use crate::text::{join, join_spec, str_eq};
use vstd::prelude::*;
use vstd::string::StringExecFns;

verus! {

/// Whether the pattern engine accepts `pattern`: what `regex::Regex::new`
/// decides.
pub uninterp spec fn regex_compiles(pattern: Seq<char>) -> bool;

/// The text that `regex::Regex::replace_all` makes of `text` for an accepted
/// `pattern` and a `replacement`.
pub uninterp spec fn regex_replaced(
    pattern: Seq<char>,
    text: Seq<char>,
    replacement: Seq<char>,
) -> Seq<char>;

/// Compiles `pattern` with `regex::Regex::new` and replaces every match in
/// `text` with `regex::Regex::replace_all`. The result is `None` exactly if
/// the engine refuses the pattern; otherwise it is the text that the engine
/// returns, which depends on the three arguments alone.
#[verifier::external_body]
fn replace_all(pattern: &str, text: &str, replacement: &str) -> (r: Option<String>)
    ensures
        r is Some == regex_compiles(pattern@),
        r matches Some(s) ==> s@ == regex_replaced(pattern@, text@, replacement@),
{
    match regex::Regex::new(pattern) {
        Ok(re) => Some(re.replace_all(text, replacement).into_owned()),
        Err(_) => None,
    }
}

/// The pattern engine accepts the pattern that protects a leading `id_`.
pub open spec fn id_prefix_ready() -> bool {
    regex_compiles("^(?P<w>(?:id)+)_"@)
}

/// The pattern engine accepts the patterns that the key needs: none for the
/// empty key, four for any other.
pub open spec fn nested_key_ready(s: Seq<char>) -> bool {
    s.len() == 0 || {
        &&& regex_compiles("_(?P<w>(?:in)+)_"@)
        &&& regex_compiles("^(?P<w>(?:empty)+)$"@)
        &&& regex_compiles("^(?P<w>(?:list)+)$"@)
        &&& regex_compiles("^_"@)
    }
}

/// The pattern engine accepts the patterns that the column name of the path
/// needs.
pub open spec fn json_path_ready(path: JsonPathView) -> bool {
    &&& forall|i: int| 0 <= i < path.len() ==> nested_key_ready(#[trigger] path[i])
    &&& id_prefix_ready()
}

/// The pattern engine accepts the pattern that protects an `_lin_`.
pub open spec fn table_element_ready() -> bool {
    regex_compiles("_(?P<w>(?:lin)+)_"@)
}

/// The pattern engine accepts the patterns that the name of the table needs.
pub open spec fn table_path_ready(root_name: Seq<char>, path: TablePathView) -> bool {
    &&& forall|i: int| 0 <= i < path.len() ==> json_path_ready(#[trigger] path[i])
    &&& json_path_ready(seq![root_name])
    &&& table_element_ready()
}

/// The pattern engine accepts the patterns that the object of the row needs.
pub open spec fn row_ready(root_name: Seq<char>, loc: TableLocationView, rec: RecordView) -> bool {
    &&& forall|k: int| 0 <= k < rec.len() ==> json_path_ready((#[trigger] rec[k]).0)
    &&& table_path_ready(root_name, loc.table_path)
    &&& table_path_ready(root_name, parent_path(loc.table_path))
}

/// The pattern engine accepts every pattern of the name mangling.
pub open spec fn mangling_ready() -> bool {
    &&& regex_compiles("^(?P<w>(?:id)+)_"@)
    &&& regex_compiles("_(?P<w>(?:in)+)_"@)
    &&& regex_compiles("^(?P<w>(?:empty)+)$"@)
    &&& regex_compiles("^(?P<w>(?:list)+)$"@)
    &&& regex_compiles("^_"@)
    &&& regex_compiles("_(?P<w>(?:lin)+)_"@)
}

/// Where the pattern engine accepts every pattern of the name mangling, it
/// accepts those that any row needs.
pub proof fn lemma_mangling_ready(root_name: Seq<char>, loc: TableLocationView, rec: RecordView)
    requires
        mangling_ready(),
    ensures
        row_ready(root_name, loc, rec),
{
    assert forall|path: JsonPathView| json_path_ready(path) by {}
}

/// A name with a leading `id_`, `idid_`, ... protected by one more `id`, so
/// that it cannot be taken for a key field.
pub open spec fn id_prefix_escaped(s: Seq<char>) -> Seq<char> {
    regex_replaced("^(?P<w>(?:id)+)_"@, s, "${w}id_"@)
}

/// One key of a path as it stands in a column name: the empty key is
/// written `empty`; an `_in_` inside the key, the words `empty` and `list`,
/// and a leading underscore are protected.
pub open spec fn nested_key_escaped(s: Seq<char>) -> Seq<char> {
    if s.len() == 0 {
        "empty"@
    } else {
        regex_replaced(
            "^_"@,
            regex_replaced(
                "^(?P<w>(?:list)+)$"@,
                regex_replaced(
                    "^(?P<w>(?:empty)+)$"@,
                    regex_replaced("_(?P<w>(?:in)+)_"@, s, "_${w}in_"@),
                    "${w}empty"@,
                ),
                "${w}list"@,
            ),
            "tech_"@,
        )
    }
}

/// The keys of a path as they stand in its column name: innermost first,
/// each escaped.
pub open spec fn nested_keys_escaped(path: JsonPathView) -> Seq<Seq<char>> {
    Seq::new(path.len(), |i: int| nested_key_escaped(path[path.len() - 1 - i]))
}

/// The column name of a path: its keys, innermost first, joined by `_in_`;
/// `list` for the empty path.
pub open spec fn json_path_name(path: JsonPathView) -> Seq<char> {
    id_prefix_escaped(
        if path.len() == 0 {
            "list"@
        } else {
            join_spec(nested_keys_escaped(path), "_in_"@)
        },
    )
}

/// One element of a table name, with an `_lin_` inside it protected.
pub open spec fn table_element_escaped(s: Seq<char>) -> Seq<char> {
    regex_replaced("_(?P<w>(?:lin)+)_"@, s, "_${w}lin_"@)
}

/// The elements of a table name: the column names of the paths of the table
/// path, innermost first, and the root's name last.
pub open spec fn table_name_elements(root_name: Seq<char>, path: TablePathView) -> Seq<Seq<char>> {
    Seq::new(
        path.len() + 1,
        |i: int|
            table_element_escaped(
                json_path_name(
                    if i < path.len() {
                        path[path.len() - 1 - i]
                    } else {
                        seq![root_name]
                    },
                ),
            ),
    )
}

/// The name of the table at a table path under a root called `root_name`:
/// its elements joined by `_lin_`.
pub open spec fn table_path_name(root_name: Seq<char>, path: TablePathView) -> Seq<char> {
    join_spec(table_name_elements(root_name, path), "_lin_"@)
}

/// What a failed call of the pattern engine becomes.
fn pattern_result(replaced: Option<String>) -> (r: Result<String, DatabaseError>)
    ensures
        replaced matches Some(s) ==> r == Ok::<String, DatabaseError>(s),
        replaced is None ==> r == Err::<String, DatabaseError>(DatabaseError::PatternRejected),
{
    match replaced {
        Some(s) => Ok(s),
        None => Err(DatabaseError::PatternRejected),
    }
}

/// Protects a leading `id_` of a name.
pub fn escape_id_prefix(s: &String) -> (r: Result<String, DatabaseError>)
    ensures
        r is Ok == id_prefix_ready(),
        r matches Ok(t) ==> t@ == id_prefix_escaped(s@),
        r matches Err(e) ==> e == DatabaseError::PatternRejected,
{
    pattern_result(replace_all("^(?P<w>(?:id)+)_", s.as_str(), "${w}id_"))
}

/// Writes one key of a path as it stands in a column name.
pub fn escape_nested_key_element(s: &String) -> (r: Result<String, DatabaseError>)
    ensures
        r is Ok == nested_key_ready(s@),
        r matches Ok(t) ==> t@ == nested_key_escaped(s@),
        r matches Err(e) ==> e == DatabaseError::PatternRejected,
{
    if s.as_str().is_empty() {
        return Ok(String::from_str("empty"));
    }
    let s = pattern_result(replace_all("_(?P<w>(?:in)+)_", s.as_str(), "_${w}in_"))?;
    let s = pattern_result(replace_all("^(?P<w>(?:empty)+)$", s.as_str(), "${w}empty"))?;
    let s = pattern_result(replace_all("^(?P<w>(?:list)+)$", s.as_str(), "${w}list"))?;
    let s = pattern_result(replace_all("^_", s.as_str(), "tech_"))?;
    Ok(s)
}

/// The column name of a path.
pub fn json_path_to_str(nested_key: &JsonPath) -> (r: Result<String, DatabaseError>)
    ensures
        r is Ok == json_path_ready(nested_key.deep_view()),
        r matches Ok(t) ==> t@ == json_path_name(nested_key.deep_view()),
        r matches Err(e) ==> e == DatabaseError::PatternRejected,
{
    let key = if nested_key.len() == 0 {
        String::from_str("list")
    } else {
        let n = nested_key.len();
        let mut parts: Vec<String> = Vec::new();
        let mut i: usize = 0;
        while i < n
            invariant
                n == nested_key.len(),
                i <= n,
                parts.len() == i,
                forall|j: int|
                    0 <= j < i ==> (#[trigger] parts[j])@ == nested_key_escaped(
                        nested_key[n - 1 - j]@,
                    ),
                forall|j: int| n - i <= j < n ==> nested_key_ready(#[trigger] nested_key[j]@),
            decreases n - i,
        {
            let escaped = match escape_nested_key_element(&nested_key[n - 1 - i]) {
                Ok(escaped) => escaped,
                Err(e) => {
                    assert(!nested_key_ready(nested_key.deep_view()[n - 1 - i]));
                    return Err(e);
                },
            };
            parts.push(escaped);
            i = i + 1;
        }
        assert(parts.deep_view() =~= nested_keys_escaped(nested_key.deep_view()));
        assert forall|j: int| 0 <= j < n implies nested_key_ready(
            #[trigger] nested_key.deep_view()[j],
        ) by {
            assert(nested_key_ready(nested_key[j]@));
        }
        join(&parts, "_in_")
    };
    escape_id_prefix(&key)
}

/// Protects an `_lin_` inside one element of a table name.
pub fn escape_table_path_element(s: &String) -> (r: Result<String, DatabaseError>)
    ensures
        r is Ok == table_element_ready(),
        r matches Ok(t) ==> t@ == table_element_escaped(s@),
        r matches Err(e) ==> e == DatabaseError::PatternRejected,
{
    pattern_result(replace_all("_(?P<w>(?:lin)+)_", s.as_str(), "_${w}lin_"))
}

/// The name of the table at the table path `nested_key`, under a root
/// called `root_name`.
pub fn table_path_to_str(root_name: &String, nested_key: &TablePath) -> (r: Result<
    String,
    DatabaseError,
>)
    ensures
        r is Ok == table_path_ready(root_name@, nested_key.deep_view()),
        r matches Ok(t) ==> t@ == table_path_name(root_name@, nested_key.deep_view()),
        r matches Err(e) ==> e == DatabaseError::PatternRejected,
{
    let n = nested_key.len();
    let mut elements: Vec<String> = Vec::new();
    let mut i: usize = 0;
    while i < n
        invariant
            n == nested_key.len(),
            i <= n,
            elements.len() == i,
            forall|j: int|
                0 <= j < i ==> (#[trigger] elements[j])@ == table_name_elements(
                    root_name@,
                    nested_key.deep_view(),
                )[j],
            forall|j: int| n - i <= j < n ==> json_path_ready(#[trigger] nested_key[j].deep_view()),
            i > 0 ==> table_element_ready(),
        decreases n - i,
    {
        let converted = match json_path_to_str(&nested_key[n - 1 - i]) {
            Ok(converted) => converted,
            Err(e) => {
                assert(!json_path_ready(nested_key.deep_view()[n - 1 - i]));
                return Err(e);
            },
        };
        let escaped = escape_table_path_element(&converted)?;
        elements.push(escaped);
        i = i + 1;
    }
    assert forall|j: int| 0 <= j < n implies json_path_ready(
        #[trigger] nested_key.deep_view()[j],
    ) by {
        assert(json_path_ready(nested_key[j].deep_view()));
    }
    let mut root: Vec<String> = Vec::new();
    root.push(root_name.clone());
    assert(root.deep_view() =~= seq![root_name@]);
    let converted = json_path_to_str(&root)?;
    let escaped = escape_table_path_element(&converted)?;
    elements.push(escaped);
    assert(elements.deep_view() =~= table_name_elements(root_name@, nested_key.deep_view()));
    Ok(join(&elements, "_lin_"))
}

/// What a `JsonObject` is in contracts: its fields in the order in which
/// their names were first set.
pub type ObjectView = Seq<(Seq<char>, ScalarView)>;

/// A flat JSON object: scalar fields under distinct names.
#[derive(Debug)]
pub struct JsonObject {
    entries: Vec<(String, Scalar)>,
}

impl View for JsonObject {
    type V = ObjectView;

    closed spec fn view(&self) -> ObjectView {
        Seq::new(self.entries@.len(), |i: int| (self.entries@[i].0@, self.entries@[i].1@))
    }
}

impl JsonObject {
    /// The object's invariant: no name occurs twice.
    pub open spec fn wf(&self) -> bool {
        slots_distinct(self@)
    }

    /// An object without fields.
    pub fn new() -> (r: JsonObject)
        ensures
            r@ == Seq::<(Seq<char>, ScalarView)>::empty(),
            r.wf(),
    {
        let r = JsonObject { entries: Vec::new() };
        assert(r@ =~= Seq::<(Seq<char>, ScalarView)>::empty());
        r
    }

    /// The number of fields.
    pub fn len(&self) -> (n: usize)
        ensures
            n == self@.len(),
    {
        self.entries.len()
    }

    /// The name of the field at position `i`.
    pub fn key_at(&self, i: usize) -> (key: &String)
        requires
            i < self@.len(),
        ensures
            key@ == self@[i as int].0,
    {
        &self.entries[i].0
    }

    /// The value of the field at position `i`.
    pub fn value_at(&self, i: usize) -> (value: &Scalar)
        requires
            i < self@.len(),
        ensures
            value@ == self@[i as int].1,
    {
        &self.entries[i].1
    }

    /// The position of the field called `key`, if there is one.
    fn position(&self, key: &str) -> (r: Option<usize>)
        requires
            self.wf(),
        ensures
            r is Some == has_slot(self@, key@),
            r matches Some(i) ==> i < self@.len() && i == slot_of(self@, key@),
    {
        let mut i: usize = 0;
        while i < self.entries.len()
            invariant
                self.wf(),
                i <= self.entries.len(),
                forall|j: int| 0 <= j < i ==> (#[trigger] self@[j]).0 != key@,
            decreases self.entries.len() - i,
        {
            if str_eq(self.entries[i].0.as_str(), key) {
                proof {
                    lemma_slot_unique(self@, key@, i as int);
                }
                return Some(i);
            }
            i = i + 1;
        }
        None
    }

    /// The value of the field called `key`, if there is one.
    pub fn get(&self, key: &str) -> (r: Option<&Scalar>)
        requires
            self.wf(),
        ensures
            r is Some == lookup(self@, key@) is Some,
            r matches Some(value) ==> Some(value@) == lookup(self@, key@),
    {
        match self.position(key) {
            Some(i) => Some(&self.entries[i].1),
            None => None,
        }
    }

    /// Sets the field called `key`: a field that exists keeps its place and
    /// gets the new value.
    pub fn insert(&mut self, key: String, value: Scalar)
        requires
            old(self).wf(),
        ensures
            final(self).wf(),
            final(self)@ == put(old(self)@, key@, value@),
    {
        proof {
            lemma_put(self@, key@, value@);
        }
        match self.position(key.as_str()) {
            Some(i) => {
                self.entries[i] = (key, value);
                assert(self@ =~= put(old(self)@, key@, value@));
            },
            None => {
                self.entries.push((key, value));
                assert(self@ =~= put(old(self)@, key@, value@));
            },
        }
    }
}

/// The fields that the entries of a record become: each value under the
/// column name of its path. Of two paths with one column name the later
/// one's value stays.
pub open spec fn record_fields(rec: RecordView) -> ObjectView
    decreases rec.len(),
{
    if rec.len() == 0 {
        Seq::empty()
    } else {
        put(record_fields(rec.drop_last()), json_path_name(rec.last().0), rec.last().1)
    }
}

/// The name of the key field of a table.
pub open spec fn id_field(table_name: Seq<char>) -> Seq<char> {
    "id_"@ + table_name
}

/// The object of a row: the fields of its record, then the row's key under
/// the key field of its table, then the enclosing row's key under the key
/// field of the enclosing table.
pub open spec fn row_object(
    root_name: Seq<char>,
    loc: TableLocationView,
    rec: RecordView,
) -> ObjectView {
    put(
        put(
            record_fields(rec),
            id_field(table_path_name(root_name, loc.table_path)),
            ScalarView::Int(loc.object_id as i64),
        ),
        id_field(table_path_name(root_name, parent_path(loc.table_path))),
        ScalarView::Int(loc.parent_object_id as i64),
    )
}

/// Distinct names are kept while the fields of a record are set.
pub proof fn lemma_record_fields_distinct(rec: RecordView)
    ensures
        slots_distinct(record_fields(rec)),
    decreases rec.len(),
{
    if rec.len() > 0 {
        lemma_record_fields_distinct(rec.drop_last());
        lemma_put(record_fields(rec.drop_last()), json_path_name(rec.last().0), rec.last().1);
    }
}

/// The object of a row.
pub fn record_to_json(root_name: &String, loc: &TableLocation, rec: &TableRecord) -> (r: Result<
    JsonObject,
    DatabaseError,
>)
    ensures
        r is Ok == row_ready(root_name@, loc@, rec@),
        r matches Ok(obj) ==> obj@ == row_object(root_name@, loc@, rec@) && obj.wf(),
        r matches Err(e) ==> e == DatabaseError::PatternRejected,
{
    let mut obj = JsonObject::new();
    let mut i: usize = 0;
    while i < rec.len()
        invariant
            i <= rec@.len(),
            obj.wf(),
            obj@ == record_fields(rec@.take(i as int)),
            forall|k: int| 0 <= k < i ==> json_path_ready((#[trigger] rec@[k]).0),
        decreases rec@.len() - i,
    {
        proof {
            assert(rec@.take(i + 1).drop_last() =~= rec@.take(i as int));
            assert(rec@.take(i + 1).last() == rec@[i as int]);
        }
        let name = match json_path_to_str(rec.key_at(i)) {
            Ok(name) => name,
            Err(e) => {
                assert(!json_path_ready(rec@[i as int].0));
                return Err(e);
            },
        };
        obj.insert(name, rec.value_at(i).clone());
        i = i + 1;
    }
    assert(rec@.take(rec@.len() as int) =~= rec@);
    let table_name = table_path_to_str(root_name, &loc.table_path)?;
    let mut own_field = String::from_str("id_");
    own_field.append(table_name.as_str());
    obj.insert(own_field, Scalar::Int(loc.object_id as i64));
    let parent_path = loc.parent_table_path();
    let parent_table = table_path_to_str(root_name, &parent_path)?;
    let mut parent_field = String::from_str("id_");
    parent_field.append(parent_table.as_str());
    obj.insert(parent_field, Scalar::Int(loc.parent_object_id as i64));
    Ok(obj)
}

/// What a `DatabaseJson` is in contracts: the root's name, and the tables
/// by name in the order of their first row, each with its rows in the order
/// of arrival.
pub struct DatabaseJsonView {
    pub root_name: Seq<char>,
    pub tables: Seq<(Seq<char>, Seq<ObjectView>)>,
}

/// The tables after `row` was added to the table called `name`.
pub open spec fn with_row(
    tables: Seq<(Seq<char>, Seq<ObjectView>)>,
    name: Seq<char>,
    row: ObjectView,
) -> Seq<(Seq<char>, Seq<ObjectView>)> {
    if has_slot(tables, name) {
        let at = slot_of(tables, name);
        tables.update(at, (name, tables[at].1.push(row)))
    } else {
        tables.push((name, seq![row]))
    }
}

/// The in-memory sink.
pub struct DatabaseJson {
    root_name: String,
    target: Vec<(String, Vec<JsonObject>)>,
}

/// The rows of a table as contracts see them.
pub open spec fn object_views(rows: Seq<JsonObject>) -> Seq<ObjectView> {
    Seq::new(rows.len(), |i: int| rows[i]@)
}

impl View for DatabaseJson {
    type V = DatabaseJsonView;

    closed spec fn view(&self) -> DatabaseJsonView {
        DatabaseJsonView {
            root_name: self.root_name@,
            tables: Seq::new(
                self.target@.len(),
                |i: int| (self.target@[i].0@, object_views(self.target@[i].1@)),
            ),
        }
    }
}

impl DatabaseJsonView {
    /// The sink after it was given a row: the row's object stands at the end
    /// of its table, unless the pattern engine refuses the name mangling.
    pub open spec fn after_write(
        self,
        loc: TableLocationView,
        rec: RecordView,
    ) -> DatabaseJsonView {
        if row_ready(self.root_name, loc, rec) {
            DatabaseJsonView {
                root_name: self.root_name,
                tables: with_row(
                    self.tables,
                    table_path_name(self.root_name, loc.table_path),
                    row_object(self.root_name, loc, rec),
                ),
            }
        } else {
            self
        }
    }
}

impl DatabaseJson {
    /// A sink without rows, for a document whose root table is called
    /// `root_name`.
    pub fn new(root_name: String) -> (r: DatabaseJson)
        ensures
            r.wf(),
            r@ == (DatabaseJsonView { root_name: root_name@, tables: Seq::empty() }),
    {
        let r = DatabaseJson { root_name, target: Vec::new() };
        assert(r@.tables =~= Seq::<(Seq<char>, Seq<ObjectView>)>::empty());
        r
    }

    /// The number of tables.
    pub fn table_count(&self) -> (n: usize)
        ensures
            n == self@.tables.len(),
    {
        self.target.len()
    }

    /// The name of table number `i`.
    pub fn table_name(&self, i: usize) -> (name: &String)
        requires
            i < self@.tables.len(),
        ensures
            name@ == self@.tables[i as int].0,
    {
        &self.target[i].0
    }

    /// The rows of table number `i`.
    pub fn rows(&self, i: usize) -> (rows: &Vec<JsonObject>)
        requires
            i < self@.tables.len(),
        ensures
            object_views(rows@) == self@.tables[i as int].1,
    {
        &self.target[i].1
    }

    /// The position of the table called `name`, if there is one.
    fn find_table(&self, name: &str) -> (r: Option<usize>)
        requires
            self.wf(),
        ensures
            r is Some == has_slot(self@.tables, name@),
            r matches Some(i) ==> i < self@.tables.len() && i == slot_of(self@.tables, name@),
    {
        let mut i: usize = 0;
        while i < self.target.len()
            invariant
                self.wf(),
                i <= self.target.len(),
                forall|j: int| 0 <= j < i ==> (#[trigger] self@.tables[j]).0 != name@,
            decreases self.target.len() - i,
        {
            if str_eq(self.target[i].0.as_str(), name) {
                proof {
                    lemma_slot_unique(self@.tables, name@, i as int);
                }
                return Some(i);
            }
            i = i + 1;
        }
        None
    }
}

impl Database for DatabaseJson {
    type Written = ();

    type WrittenView = ();

    open spec fn wf(&self) -> bool {
        slots_distinct(self@.tables)
    }

    open spec fn written_view(written: ()) -> () {
        ()
    }

    open spec fn after_write(
        state: DatabaseJsonView,
        table: TableLocationView,
        record: RecordView,
    ) -> DatabaseJsonView {
        state.after_write(table, record)
    }

    open spec fn write_result(
        state: DatabaseJsonView,
        table: TableLocationView,
        record: RecordView,
    ) -> Result<(), DatabaseError> {
        if row_ready(state.root_name, table, record) {
            Ok(())
        } else {
            Err(DatabaseError::PatternRejected)
        }
    }

    open spec fn after_close(state: DatabaseJsonView) -> DatabaseJsonView {
        state
    }

    open spec fn close_result(state: DatabaseJsonView) -> Result<(), DatabaseError> {
        Ok(())
    }

    /// Takes a row: its object is added at the end of its table, which is
    /// created with the first row. If the pattern engine refuses a pattern
    /// of the name mangling, the sink stays as it is.
    fn write(&mut self, table: TableLocation, record: TableRecord) -> (r: Result<
        (),
        DatabaseError,
    >) {
        let table_name = table_path_to_str(&self.root_name, &table.table_path)?;
        let row = record_to_json(&self.root_name, &table, &record)?;
        let ghost before = self@.tables;
        match self.find_table(table_name.as_str()) {
            Some(i) => {
                let ghost rows_before = self.target@[i as int].1@;
                self.target[i].1.push(row);
                proof {
                    assert(object_views(self.target@[i as int].1@) =~= object_views(
                        rows_before,
                    ).push(row@));
                    assert(self@.tables =~= before.update(
                        i as int,
                        (table_name@, before[i as int].1.push(row@)),
                    ));
                    crate::lists::lemma_update_slot(before, i as int,
                        before[i as int].1.push(row@));
                }
            },
            None => {
                let mut rows: Vec<JsonObject> = Vec::new();
                rows.push(row);
                assert(object_views(rows@) =~= seq![row@]);
                self.target.push((table_name, rows));
                proof {
                    assert(self@.tables =~= before.push((table_name@, seq![row@])));
                    crate::lists::lemma_push_slot(before, table_name@, seq![row@]);
                }
            },
        }
        Ok(())
    }

    /// Closes the sink. Nothing is pending in memory, so nothing changes.
    fn close(&mut self) -> (r: Result<(), DatabaseError>) {
        Ok(())
    }
}

} // verus!
