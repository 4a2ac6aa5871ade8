//! The values that flow between the token handler, the id remapper and the
//! table sinks: paths, scalars, records and locations.
use crate::lists::{has_slot, lemma_put, lookup, put, slot_of, slots_distinct};
use vstd::prelude::*;

verus! {

/// Path in a JSON document that crosses no array: the object keys from the
/// row's root down to a scalar.
pub type JsonPath = Vec<String>;

/// One `JsonPath` per nested array crossed from the document root.
pub type TablePath = Vec<JsonPath>;

/// What a `JsonPath` is in contracts.
pub type JsonPathView = Seq<Seq<char>>;

/// What a `TablePath` is in contracts.
pub type TablePathView = Seq<Seq<Seq<char>>>;

/// Tells whether two paths hold the same keys in the same order.
pub fn json_path_eq(a: &JsonPath, b: &JsonPath) -> (r: bool)
    ensures
        r == (a.deep_view() == b.deep_view()),
{
    if a.len() != b.len() {
        assert(a.deep_view().len() != b.deep_view().len());
        return false;
    }
    let mut i: usize = 0;
    while i < a.len()
        invariant
            i <= a.len(),
            a.len() == b.len(),
            forall|j: int| 0 <= j < i ==> a[j]@ == b[j]@,
        decreases a.len() - i,
    {
        if a[i] != b[i] {
            assert(a.deep_view()[i as int] != b.deep_view()[i as int]);
            return false;
        }
        i = i + 1;
    }
    assert(a.deep_view() =~= b.deep_view());
    true
}

/// Tells whether two table paths hold the same paths in the same order.
pub fn table_path_eq(a: &TablePath, b: &TablePath) -> (r: bool)
    ensures
        r == (a.deep_view() == b.deep_view()),
{
    if a.len() != b.len() {
        assert(a.deep_view().len() != b.deep_view().len());
        return false;
    }
    let mut i: usize = 0;
    while i < a.len()
        invariant
            i <= a.len(),
            a.len() == b.len(),
            forall|j: int| 0 <= j < i ==> a[j].deep_view() == b[j].deep_view(),
        decreases a.len() - i,
    {
        if !json_path_eq(&a[i], &b[i]) {
            assert(a.deep_view()[i as int] != b.deep_view()[i as int]);
            return false;
        }
        i = i + 1;
    }
    assert(a.deep_view() =~= b.deep_view());
    true
}

/// A copy of a path.
pub fn clone_json_path(p: &JsonPath) -> (r: JsonPath)
    ensures
        r.deep_view() == p.deep_view(),
{
    let mut out: Vec<String> = Vec::new();
    let mut i: usize = 0;
    while i < p.len()
        invariant
            i <= p.len(),
            out.len() == i,
            forall|j: int| 0 <= j < i ==> out[j]@ == p[j]@,
        decreases p.len() - i,
    {
        out.push(p[i].clone());
        i = i + 1;
    }
    assert(out.deep_view() =~= p.deep_view());
    out
}

/// A copy of a table path.
pub fn clone_table_path(p: &TablePath) -> (r: TablePath)
    ensures
        r.deep_view() == p.deep_view(),
{
    let mut out: Vec<JsonPath> = Vec::new();
    let mut i: usize = 0;
    while i < p.len()
        invariant
            i <= p.len(),
            out.len() == i,
            forall|j: int| 0 <= j < i ==> out[j].deep_view() == p[j].deep_view(),
        decreases p.len() - i,
    {
        out.push(clone_json_path(&p[i]));
        i = i + 1;
    }
    assert(out.deep_view() =~= p.deep_view());
    out
}

/// The table path of the enclosing table: the path without its last element,
/// and the root's path for the root.
pub open spec fn parent_path(p: TablePathView) -> TablePathView {
    if p.len() == 0 {
        p
    } else {
        p.drop_last()
    }
}

/// A JSON value that is neither an array nor an object. A number with a
/// fraction or an exponent is carried as its decimal text.
#[derive(Debug)]
pub enum Scalar {
    Null,
    Bool(bool),
    Int(i64),
    Float(String),
    Str(String),
}

/// What a `Scalar` is in contracts.
pub enum ScalarView {
    Null,
    Bool(bool),
    Int(i64),
    Float(Seq<char>),
    Str(Seq<char>),
}

impl View for Scalar {
    type V = ScalarView;

    open spec fn view(&self) -> ScalarView {
        match *self {
            Scalar::Null => ScalarView::Null,
            Scalar::Bool(b) => ScalarView::Bool(b),
            Scalar::Int(i) => ScalarView::Int(i),
            Scalar::Float(t) => ScalarView::Float(t@),
            Scalar::Str(s) => ScalarView::Str(s@),
        }
    }
}

impl Clone for Scalar {
    fn clone(&self) -> (r: Self)
        ensures
            r@ == self@,
    {
        match self {
            Scalar::Null => Scalar::Null,
            Scalar::Bool(b) => Scalar::Bool(*b),
            Scalar::Int(i) => Scalar::Int(*i),
            Scalar::Float(t) => Scalar::Float(t.clone()),
            Scalar::Str(s) => Scalar::Str(s.clone()),
        }
    }
}

impl Scalar {
    /// Tells whether the value is JSON's `null`.
    pub fn is_null(&self) -> (r: bool)
        ensures
            r == (self@ is Null),
    {
        match self {
            Scalar::Null => true,
            _ => false,
        }
    }

    /// Tells whether the value is `true` or `false`.
    pub fn is_boolean(&self) -> (r: bool)
        ensures
            r == (self@ is Bool),
    {
        match self {
            Scalar::Bool(_) => true,
            _ => false,
        }
    }

    /// Tells whether the value is an integer.
    pub fn is_i64(&self) -> (r: bool)
        ensures
            r == (self@ is Int),
    {
        match self {
            Scalar::Int(_) => true,
            _ => false,
        }
    }

    /// Tells whether the value is a number that is no integer.
    pub fn is_f64(&self) -> (r: bool)
        ensures
            r == (self@ is Float),
    {
        match self {
            Scalar::Float(_) => true,
            _ => false,
        }
    }

    /// Tells whether two values are the same JSON scalar.
    pub fn same(&self, other: &Scalar) -> (r: bool)
        ensures
            r == (self@ == other@),
    {
        match self {
            Scalar::Null => other.is_null(),
            Scalar::Bool(a) => match other {
                Scalar::Bool(b) => *a == *b,
                _ => false,
            },
            Scalar::Int(a) => match other {
                Scalar::Int(b) => *a == *b,
                _ => false,
            },
            Scalar::Float(a) => match other {
                Scalar::Float(b) => *a == *b,
                _ => false,
            },
            Scalar::Str(a) => match other {
                Scalar::Str(b) => *a == *b,
                _ => false,
            },
        }
    }
}

/// What a `TableRecord` is in contracts: its entries in the order in which
/// their keys were first inserted.
pub type RecordView = Seq<(JsonPathView, ScalarView)>;

/// One row under construction or completed: scalar values keyed by the path
/// at which each was found. A key occurs once; the entries keep the order in
/// which their keys first arrived.
#[derive(Debug)]
pub struct TableRecord {
    entries: Vec<(JsonPath, Scalar)>,
}

/// The entries of a record as contracts see them.
pub open spec fn entry_views(entries: Seq<(JsonPath, Scalar)>) -> RecordView {
    Seq::new(entries.len(), |i: int| (entries[i].0.deep_view(), entries[i].1@))
}

impl View for TableRecord {
    type V = RecordView;

    closed spec fn view(&self) -> RecordView {
        entry_views(self.entries@)
    }
}

impl Clone for TableRecord {
    fn clone(&self) -> (r: Self)
        ensures
            r@ == self@,
    {
        let mut entries: Vec<(JsonPath, Scalar)> = Vec::new();
        let mut i: usize = 0;
        while i < self.entries.len()
            invariant
                i <= self.entries.len(),
                entries.len() == i,
                forall|j: int|
                    0 <= j < i ==> (#[trigger] entries[j]).0.deep_view()
                        == self.entries[j].0.deep_view() && entries[j].1@ == self.entries[j].1@,
            decreases self.entries.len() - i,
        {
            entries.push((clone_json_path(&self.entries[i].0), self.entries[i].1.clone()));
            i = i + 1;
        }
        proof {
            use_type_invariant(self);
            assert(entry_views(entries@) =~= self@);
        }
        TableRecord { entries }
    }
}

impl TableRecord {
    /// The record's invariant: no key occurs twice.
    #[verifier::type_invariant]
    pub closed spec fn keys_distinct(self) -> bool {
        slots_distinct(self@)
    }

    /// States the record's invariant, which holds of every record that a
    /// program holds, where a proof needs it.
    pub fn keys_are_distinct(&self)
        ensures
            slots_distinct(self@),
    {
        proof {
            use_type_invariant(self);
        }
    }

    /// A record without entries.
    pub fn new() -> (r: TableRecord)
        ensures
            r@ == Seq::<(JsonPathView, ScalarView)>::empty(),
    {
        let r = TableRecord { entries: Vec::new() };
        assert(r@ =~= Seq::<(JsonPathView, ScalarView)>::empty());
        r
    }

    /// The number of entries.
    pub fn len(&self) -> (n: usize)
        ensures
            n == self@.len(),
    {
        self.entries.len()
    }

    /// Tells whether the record has no entry.
    pub fn is_empty(&self) -> (r: bool)
        ensures
            r == (self@.len() == 0),
    {
        self.entries.len() == 0
    }

    /// The key of the entry at position `i`.
    pub fn key_at(&self, i: usize) -> (key: &JsonPath)
        requires
            i < self@.len(),
        ensures
            key.deep_view() == self@[i as int].0,
    {
        &self.entries[i].0
    }

    /// The value of the entry at position `i`.
    pub fn value_at(&self, i: usize) -> (value: &Scalar)
        requires
            i < self@.len(),
        ensures
            value@ == self@[i as int].1,
    {
        &self.entries[i].1
    }

    /// The position of the entry stored under `key`, if there is one.
    pub fn position(&self, key: &JsonPath) -> (r: Option<usize>)
        ensures
            r is Some == has_slot(self@, key.deep_view()),
            r matches Some(i) ==> i < self@.len() && self@[i as int].0 == key.deep_view() && i
                == slot_of(self@, key.deep_view()),
    {
        proof {
            use_type_invariant(self);
        }
        let mut i: usize = 0;
        while i < self.entries.len()
            invariant
                i <= self.entries.len(),
                slots_distinct(self@),
                forall|j: int| 0 <= j < i ==> (#[trigger] self@[j]).0 != key.deep_view(),
            decreases self.entries.len() - i,
        {
            if json_path_eq(&self.entries[i].0, key) {
                proof {
                    assert(self@[i as int].0 == key.deep_view());
                    let at = slot_of(self@, key.deep_view());
                    assert(self@[at].0 == key.deep_view());
                }
                return Some(i);
            }
            i = i + 1;
        }
        None
    }

    /// Tells whether a value is stored under `key`.
    pub fn contains_key(&self, key: &JsonPath) -> (r: bool)
        ensures
            r == has_slot(self@, key.deep_view()),
    {
        self.position(key).is_some()
    }

    /// The value stored under `key`, if there is one.
    pub fn get(&self, key: &JsonPath) -> (r: Option<&Scalar>)
        ensures
            r is Some == has_slot(self@, key.deep_view()),
            r matches Some(value) ==> Some(value@) == lookup(self@, key.deep_view()),
            r is None ==> lookup(self@, key.deep_view()) is None,
    {
        match self.position(key) {
            Some(i) => Some(&self.entries[i].1),
            None => None,
        }
    }

    /// Stores `value` under `key` and hands back the value that was stored
    /// there before, if there was one.
    pub fn insert(&mut self, key: JsonPath, value: Scalar) -> (previous: Option<Scalar>)
        ensures
            final(self)@ == put(old(self)@, key.deep_view(), value@),
            previous is Some == has_slot(old(self)@, key.deep_view()),
            previous matches Some(p) ==> Some(p@) == lookup(old(self)@, key.deep_view()),
    {
        proof {
            use_type_invariant(&*self);
            lemma_put(self@, key.deep_view(), value@);
        }
        let found = self.position(&key);
        let mut entries: Vec<(JsonPath, Scalar)> = Vec::new();
        std::mem::swap(&mut self.entries, &mut entries);
        let ghost before = entry_views(entries@);
        assert(before =~= old(self)@);
        let previous = match found {
            Some(i) => {
                let mut entry = (key, value);
                std::mem::swap(&mut entries[i], &mut entry);
                Some(entry.1)
            },
            None => {
                entries.push((key, value));
                None
            },
        };
        assert(entry_views(entries@) =~= put(before, key.deep_view(), value@));
        self.entries = entries;
        previous
    }
}

/// Where a row belongs: its table, its key in that table, and the key of
/// the row of the enclosing table that it hangs from.
#[derive(Debug)]
pub struct TableLocation {
    pub table_path: TablePath,
    pub object_id: i32,
    pub parent_object_id: i32,
}

/// What a `TableLocation` is in contracts.
pub struct TableLocationView {
    pub table_path: TablePathView,
    pub object_id: i32,
    pub parent_object_id: i32,
}

impl View for TableLocation {
    type V = TableLocationView;

    open spec fn view(&self) -> TableLocationView {
        TableLocationView {
            table_path: self.table_path.deep_view(),
            object_id: self.object_id,
            parent_object_id: self.parent_object_id,
        }
    }
}

impl Clone for TableLocation {
    fn clone(&self) -> (r: Self)
        ensures
            r@ == self@,
    {
        TableLocation {
            table_path: clone_table_path(&self.table_path),
            object_id: self.object_id,
            parent_object_id: self.parent_object_id,
        }
    }
}

impl TableLocation {
    /// The path of the enclosing table.
    pub fn parent_table_path(&self) -> (r: TablePath)
        ensures
            r.deep_view() == parent_path(self.table_path.deep_view()),
    {
        let mut rv = clone_table_path(&self.table_path);
        let ghost before = rv.deep_view();
        rv.pop();
        assert(rv.deep_view() =~= parent_path(before));
        rv
    }
}

} // verus!
