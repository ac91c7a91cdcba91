//! The universal data types of the engine: record identifiers, values, rows,
//! tables and their metadata.

use vstd::prelude::*;
use crate::collections::StrMap;
use crate::util::{decimal, fresh_uuid, now_millis, owned, push_char, push_decimal, str_eq};

verus! {

/// A unique record identifier (a 128-bit UUID).
#[derive(Debug, Clone, Copy, PartialEq, Eq, Hash, Structural)]
pub struct RecordId(pub u128);

impl RecordId {
    /// A fresh random identifier.
    pub fn new() -> (r: Self) {
        RecordId(fresh_uuid())
    }
}

/// A single datum. Floating-point numbers are carried by their IEEE-754 bit
/// pattern, JSON documents by their text and vectors by the bit patterns of
/// their `f32` components.
#[derive(Debug, Clone, PartialEq)]
pub enum Value {
    Null,
    Boolean(bool),
    Integer(i64),
    Float(u64),
    String(String),
    Binary(Vec<u8>),
    Json(String),
    Vector(Vec<u32>),
}

/// The mathematical content of a `Value`.
pub enum ValueModel {
    Null,
    Boolean(bool),
    Integer(i64),
    Float(u64),
    Str(Seq<char>),
    Binary(Seq<u8>),
    Json(Seq<char>),
    Vector(Seq<u32>),
}

impl View for Value {
    type V = ValueModel;

    open spec fn view(&self) -> ValueModel {
        match self {
            Value::Null => ValueModel::Null,
            Value::Boolean(b) => ValueModel::Boolean(*b),
            Value::Integer(i) => ValueModel::Integer(*i),
            Value::Float(f) => ValueModel::Float(*f),
            Value::String(s) => ValueModel::Str(s@),
            Value::Binary(b) => ValueModel::Binary(b@),
            Value::Json(j) => ValueModel::Json(j@),
            Value::Vector(v) => ValueModel::Vector(v@),
        }
    }
}

/// The name of a value's type.
pub open spec fn type_label_of(v: ValueModel) -> Seq<char> {
    match v {
        ValueModel::Null => "null"@,
        ValueModel::Boolean(_) => "boolean"@,
        ValueModel::Integer(_) => "integer"@,
        ValueModel::Float(_) => "float"@,
        ValueModel::Str(_) => "string"@,
        ValueModel::Binary(_) => "binary"@,
        ValueModel::Json(_) => "json"@,
        ValueModel::Vector(_) => "vector"@,
    }
}

/// A copy of a vector of elements that are copied bit for bit.
fn copy_vec<T: Copy>(v: &Vec<T>) -> (r: Vec<T>)
    ensures
        r@ == v@,
{
    let mut r: Vec<T> = Vec::new();
    let mut i: usize = 0;
    while i < v.len()
        invariant
            i <= v@.len(),
            r@ == v@.subrange(0, i as int),
        decreases v@.len() - i,
    {
        r.push(v[i]);
        i += 1;
        proof {
            assert(r@ =~= v@.subrange(0, i as int));
        }
    }
    proof {
        assert(r@ =~= v@);
    }
    r
}

impl Value {
    /// The name of the value's type.
    pub fn value_type_name(&self) -> (r: &'static str)
        ensures
            r@ == type_label_of(self@),
    {
        match self {
            Value::Null => "null",
            Value::Boolean(_) => "boolean",
            Value::Integer(_) => "integer",
            Value::Float(_) => "float",
            Value::String(_) => "string",
            Value::Binary(_) => "binary",
            Value::Json(_) => "json",
            Value::Vector(_) => "vector",
        }
    }

    /// A copy of the value.
    pub fn duplicate(&self) -> (r: Value)
        ensures
            r@ == self@,
    {
        match self {
            Value::Null => Value::Null,
            Value::Boolean(b) => Value::Boolean(*b),
            Value::Integer(i) => Value::Integer(*i),
            Value::Float(f) => Value::Float(*f),
            Value::String(s) => Value::String(s.clone()),
            Value::Binary(b) => Value::Binary(copy_vec(b)),
            Value::Json(j) => Value::Json(j.clone()),
            Value::Vector(v) => Value::Vector(copy_vec(v)),
        }
    }

    /// Whether two values are equal (floats compare by bit pattern).
    pub fn same_as(&self, other: &Value) -> (r: bool)
        ensures
            r == (self@ == other@),
    {
        match (self, other) {
            (Value::Null, Value::Null) => true,
            (Value::Boolean(a), Value::Boolean(b)) => *a == *b,
            (Value::Integer(a), Value::Integer(b)) => *a == *b,
            (Value::Float(a), Value::Float(b)) => *a == *b,
            (Value::String(a), Value::String(b)) => str_eq(a.as_str(), b.as_str()),
            (Value::Binary(a), Value::Binary(b)) => bytes_eq(a, b),
            (Value::Json(a), Value::Json(b)) => str_eq(a.as_str(), b.as_str()),
            (Value::Vector(a), Value::Vector(b)) => words_eq(a, b),
            _ => false,
        }
    }
}

/// Whether two byte vectors hold the same elements.
fn bytes_eq(a: &Vec<u8>, b: &Vec<u8>) -> (r: bool)
    ensures
        r == (a@ == b@),
{
    if a.len() != b.len() {
        return false;
    }
    let mut i: usize = 0;
    while i < a.len()
        invariant
            a@.len() == b@.len(),
            i <= a@.len(),
            forall|j: int| 0 <= j < i ==> a@[j] == b@[j],
        decreases a@.len() - i,
    {
        if a[i] != b[i] {
            return false;
        }
        i += 1;
    }
    assert(a@ =~= b@);
    true
}

/// Whether two vectors of 32-bit words hold the same elements.
fn words_eq(a: &Vec<u32>, b: &Vec<u32>) -> (r: bool)
    ensures
        r == (a@ == b@),
{
    if a.len() != b.len() {
        return false;
    }
    let mut i: usize = 0;
    while i < a.len()
        invariant
            a@.len() == b@.len(),
            i <= a@.len(),
            forall|j: int| 0 <= j < i ==> a@[j] == b@[j],
        decreases a@.len() - i,
    {
        if a[i] != b[i] {
            return false;
        }
        i += 1;
    }
    assert(a@ =~= b@);
    true
}

/// Whether the bits of a 64-bit float encode NaN.
pub open spec fn is_nan64(x: u64) -> bool {
    (x / 0x10_0000_0000_0000) % 0x800 == 0x7FF && x % 0x10_0000_0000_0000 != 0
}

/// IEEE-754 equality of two 64-bit floats given by their bits: no NaN is
/// equal to anything, and the two zeros are equal.
pub open spec fn float_eq64(a: u64, b: u64) -> bool {
    !is_nan64(a) && !is_nan64(b) && (a == b || (a % 0x8000_0000_0000_0000 == 0 && b % 0x8000_0000_0000_0000 == 0))
}

/// Whether the bits of a 32-bit float encode NaN.
pub open spec fn is_nan32(x: u32) -> bool {
    (x / 0x80_0000) % 0x100 == 0xFF && x % 0x80_0000 != 0
}

/// IEEE-754 equality of two 32-bit floats given by their bits.
pub open spec fn float_eq32(a: u32, b: u32) -> bool {
    !is_nan32(a) && !is_nan32(b) && (a == b || (a % 0x8000_0000 == 0 && b % 0x8000_0000 == 0))
}

/// The equality of values that comparing them with `==` gives: floats
/// compare as IEEE-754 numbers, everything else by content.
pub open spec fn value_eq(a: ValueModel, b: ValueModel) -> bool {
    match (a, b) {
        (ValueModel::Null, ValueModel::Null) => true,
        (ValueModel::Boolean(x), ValueModel::Boolean(y)) => x == y,
        (ValueModel::Integer(x), ValueModel::Integer(y)) => x == y,
        (ValueModel::Float(x), ValueModel::Float(y)) => float_eq64(x, y),
        (ValueModel::Str(x), ValueModel::Str(y)) => x == y,
        (ValueModel::Binary(x), ValueModel::Binary(y)) => x == y,
        (ValueModel::Json(x), ValueModel::Json(y)) => x == y,
        (ValueModel::Vector(x), ValueModel::Vector(y)) => x.len() == y.len() && forall|i: int|
            0 <= i < x.len() ==> float_eq32(#[trigger] x[i], y[i]),
        _ => false,
    }
}

/// IEEE-754 equality of two 64-bit floats given by their bits.
pub fn float_bits_eq64(a: u64, b: u64) -> (r: bool)
    ensures
        r == float_eq64(a, b),
{
    let nan_a = (a / 0x10_0000_0000_0000) % 0x800 == 0x7FF && a % 0x10_0000_0000_0000 != 0;
    let nan_b = (b / 0x10_0000_0000_0000) % 0x800 == 0x7FF && b % 0x10_0000_0000_0000 != 0;
    !nan_a && !nan_b && (a == b || (a % 0x8000_0000_0000_0000 == 0 && b % 0x8000_0000_0000_0000 == 0))
}

/// IEEE-754 equality of two 32-bit floats given by their bits.
pub fn float_bits_eq32(a: u32, b: u32) -> (r: bool)
    ensures
        r == float_eq32(a, b),
{
    let nan_a = (a / 0x80_0000) % 0x100 == 0xFF && a % 0x80_0000 != 0;
    let nan_b = (b / 0x80_0000) % 0x100 == 0xFF && b % 0x80_0000 != 0;
    !nan_a && !nan_b && (a == b || (a % 0x8000_0000 == 0 && b % 0x8000_0000 == 0))
}

/// IEEE-754 `<` on two 64-bit floats given by their bits: false when either
/// is NaN or both are zeros; otherwise the numeric order (sign and
/// magnitude).
pub open spec fn float_lt64(a: u64, b: u64) -> bool {
    let sa = a >= 0x8000_0000_0000_0000;
    let sb = b >= 0x8000_0000_0000_0000;
    let ma = a % 0x8000_0000_0000_0000;
    let mb = b % 0x8000_0000_0000_0000;
    if is_nan64(a) || is_nan64(b) || (ma == 0 && mb == 0) {
        false
    } else if !sa && !sb {
        ma < mb
    } else if sa && sb {
        mb < ma
    } else {
        sa
    }
}

/// IEEE-754 `<` on two 64-bit floats given by their bits.
pub fn float_bits_lt64(a: u64, b: u64) -> (r: bool)
    ensures
        r == float_lt64(a, b),
{
    let nan_a = (a / 0x10_0000_0000_0000) % 0x800 == 0x7FF && a % 0x10_0000_0000_0000 != 0;
    let nan_b = (b / 0x10_0000_0000_0000) % 0x800 == 0x7FF && b % 0x10_0000_0000_0000 != 0;
    let sa = a >= 0x8000_0000_0000_0000;
    let sb = b >= 0x8000_0000_0000_0000;
    let ma = a % 0x8000_0000_0000_0000;
    let mb = b % 0x8000_0000_0000_0000;
    if nan_a || nan_b || (ma == 0 && mb == 0) {
        false
    } else if !sa && !sb {
        ma < mb
    } else if sa && sb {
        mb < ma
    } else {
        sa
    }
}

/// Element-wise IEEE-754 equality of two vectors of 32-bit floats.
fn vectors_eq(a: &Vec<u32>, b: &Vec<u32>) -> (r: bool)
    ensures
        r == (a@.len() == b@.len() && forall|i: int| 0 <= i < a@.len() ==> float_eq32(#[trigger] a@[i], b@[i])),
{
    if a.len() != b.len() {
        return false;
    }
    let mut i: usize = 0;
    while i < a.len()
        invariant
            a@.len() == b@.len(),
            i <= a@.len(),
            forall|j: int| 0 <= j < i ==> float_eq32(#[trigger] a@[j], b@[j]),
        decreases a@.len() - i,
    {
        if !float_bits_eq32(a[i], b[i]) {
            return false;
        }
        i += 1;
    }
    true
}

impl Value {
    /// Whether two values are equal as `==` compares them (`value_eq`).
    pub fn equals(&self, other: &Value) -> (r: bool)
        ensures
            r == value_eq(self@, other@),
    {
        match (self, other) {
            (Value::Null, Value::Null) => true,
            (Value::Boolean(a), Value::Boolean(b)) => *a == *b,
            (Value::Integer(a), Value::Integer(b)) => *a == *b,
            (Value::Float(a), Value::Float(b)) => float_bits_eq64(*a, *b),
            (Value::String(a), Value::String(b)) => str_eq(a.as_str(), b.as_str()),
            (Value::Binary(a), Value::Binary(b)) => bytes_eq(a, b),
            (Value::Json(a), Value::Json(b)) => str_eq(a.as_str(), b.as_str()),
            (Value::Vector(a), Value::Vector(b)) => vectors_eq(a, b),
            _ => false,
        }
    }
}

/// The type of a column.
#[derive(Debug, Clone, PartialEq, Eq, Structural)]
pub enum ColumnType {
    Integer,
    Float,
    String,
    Boolean,
    Binary,
    Json,
    Vector(u32),
    Timestamp,
}

/// The name of a column type as it is displayed.
pub open spec fn column_type_text(t: ColumnType) -> Seq<char> {
    match t {
        ColumnType::Integer => "INTEGER"@,
        ColumnType::Float => "FLOAT"@,
        ColumnType::String => "STRING"@,
        ColumnType::Boolean => "BOOLEAN"@,
        ColumnType::Binary => "BINARY"@,
        ColumnType::Json => "JSON"@,
        ColumnType::Vector(d) => "VECTOR("@ + decimal(d as nat) + ")"@,
        ColumnType::Timestamp => "TIMESTAMP"@,
    }
}

impl ColumnType {
    /// The name of the type as it is displayed: `INTEGER`, `FLOAT`,
    /// `STRING`, `BOOLEAN`, `BINARY`, `JSON`, `VECTOR(n)`, `TIMESTAMP`.
    pub fn display_text(&self) -> (s: String)
        ensures
            s@ == column_type_text(*self),
    {
        match self {
            ColumnType::Integer => owned("INTEGER"),
            ColumnType::Float => owned("FLOAT"),
            ColumnType::String => owned("STRING"),
            ColumnType::Boolean => owned("BOOLEAN"),
            ColumnType::Binary => owned("BINARY"),
            ColumnType::Json => owned("JSON"),
            ColumnType::Vector(d) => {
                let mut s = owned("VECTOR(");
                push_decimal(&mut s, *d as u64);
                let ghost mid = s@;
                push_char(&mut s, ')');
                proof {
                    reveal_strlit(")");
                    assert(s@ =~= mid + ")"@);
                }
                s
            },
            ColumnType::Timestamp => owned("TIMESTAMP"),
        }
    }
}

/// A column definition of a table.
#[derive(Debug, Clone)]
pub struct ColumnDef {
    pub name: String,
    pub column_type: ColumnType,
    pub nullable: bool,
    pub default: Option<Value>,
}

/// The views of the values of a map.
pub open spec fn value_models(m: Map<Seq<char>, Value>) -> Map<Seq<char>, ValueModel> {
    m.map_values(|v: Value| v@)
}

/// A copy of a map of values, with the same keys in the same order.
pub fn copy_value_map(m: &StrMap<Value>) -> (r: StrMap<Value>)
    ensures
        r.key_order() == m.key_order(),
        value_models(r@) == value_models(m@),
{
    let mut values: StrMap<Value> = StrMap::new();
    let n = m.len();
    let mut i: usize = 0;
    proof {
        use_type_invariant(&m);
        m.lemma_view_consistent();
    }
    while i < n
        invariant
            n == m.key_order().len(),
            i <= n,
            m.wf(),
            values.key_order() == m.key_order().subrange(0, i as int),
            forall|k: Seq<char>| #[trigger] values@.contains_key(k) ==> m@.contains_key(k)
                && values@[k]@ == m@[k]@,
            forall|j: int| 0 <= j < i ==> #[trigger] values@.contains_key(m.key_order()[j]),
        decreases n - i,
    {
        let (k, v) = m.entry_at(i);
        proof {
            m.lemma_view_consistent();
            use_type_invariant(&values);
            values.lemma_view_consistent();
            assert(!values.key_order().contains(k@)) by {
                if values.key_order().contains(k@) {
                    let j = choose|j: int| 0 <= j < values.key_order().len() && values.key_order()[j] == k@;
                    assert(m.key_order()[j] == m.key_order()[i as int]);
                }
            }
        }
        let ghost before = values@;
        let _ = values.insert(k.clone(), v.duplicate());
        i += 1;
        proof {
            assert(values.key_order() =~= m.key_order().subrange(0, i as int));
            assert forall|k2: Seq<char>| #[trigger] values@.contains_key(k2) implies m@.contains_key(k2)
                && values@[k2]@ == m@[k2]@ by {
                if k2 != k@ {
                    assert(before.contains_key(k2));
                }
            }
            assert forall|j: int| 0 <= j < i implies #[trigger] values@.contains_key(m.key_order()[j]) by {
                if j < i - 1 {
                    assert(before.contains_key(m.key_order()[j]));
                }
            }
        }
    }
    proof {
        assert(values.key_order() =~= m.key_order());
        use_type_invariant(&values);
        values.lemma_view_consistent();
        assert forall|k: Seq<char>| #[trigger] m@.contains_key(k) implies values@.contains_key(k) by {
            assert(m.key_order().contains(k));
            let j = choose|j: int| 0 <= j < n && m.key_order()[j] == k;
            assert(values@.contains_key(m.key_order()[j]));
        }
    }
    proof {
        assert(value_models(values@) =~= value_models(m@));
    }
    values
}

/// A table row: an identifier, a map from column names to values, and the
/// times (milliseconds since the epoch) at which it was created and last
/// changed.
#[derive(Debug)]
pub struct Row {
    pub id: RecordId,
    pub values: StrMap<Value>,
    pub created_at: i64,
    pub updated_at: i64,
}

impl View for Row {
    type V = Map<Seq<char>, ValueModel>;

    open spec fn view(&self) -> Map<Seq<char>, ValueModel> {
        self.values@.map_values(|v: Value| v@)
    }
}

impl Row {
    /// The column names in the order in which they were first set.
    pub open spec fn column_order(&self) -> Seq<Seq<char>> {
        self.values.key_order()
    }

    /// The row's column map is well formed; every row is (`use_type_invariant`
    /// on its `values` establishes it inside this module, `Row::well_formed`
    /// outside).
    pub open spec fn wf(&self) -> bool {
        self.values.wf()
    }

    /// The row's map has the columns of its value map, each value by its view.
    pub proof fn lemma_view(&self)
        ensures
            self@.dom() == self.values@.dom(),
            forall|k: Seq<char>| #[trigger] self@.contains_key(k) ==> self@[k] == self.values@[k]@,
    {
        assert(self@.dom() =~= self.values@.dom());
    }

    /// Establishes `wf` for a row.
    pub fn well_formed(&self)
        ensures
            self.wf(),
    {
        proof {
            use_type_invariant(&self.values);
        }
    }

    /// An empty row with the given identifier.
    pub fn new(id: RecordId) -> (r: Self)
        ensures
            r.id == id,
            r@ == Map::<Seq<char>, ValueModel>::empty(),
            r.column_order() == Seq::<Seq<char>>::empty(),
            r.created_at == r.updated_at,
    {
        let now = now_millis();
        let r = Row { id, values: StrMap::new(), created_at: now, updated_at: now };
        assert(r@ =~= Map::<Seq<char>, ValueModel>::empty());
        r
    }

    /// Sets a column; a column already present keeps its place in
    /// `column_order`, a new one goes last.
    pub fn insert(&mut self, column: String, value: Value)
        ensures
            final(self)@ == old(self)@.insert(column@, value@),
            final(self).id == old(self).id,
            final(self).created_at == old(self).created_at,
            old(self)@.contains_key(column@) ==> final(self).column_order() == old(self).column_order(),
            !old(self)@.contains_key(column@) ==> final(self).column_order() == old(self).column_order().push(column@),
    {
        let ghost vv = value@;
        let ghost k = column@;
        let _ = self.values.insert(column, value);
        self.updated_at = now_millis();
        proof {
            assert(self@ =~= old(self)@.insert(k, vv));
        }
    }

    /// The value of a column.
    pub fn get(&self, column: &str) -> (r: Option<&Value>)
        ensures
            match r {
                Some(v) => self@.contains_key(column@) && v@ == self@[column@],
                None => !self@.contains_key(column@),
            },
    {
        self.values.get(column)
    }

    /// Whether the row has the column.
    pub fn contains_column(&self, column: &str) -> (b: bool)
        ensures
            b == self@.contains_key(column@),
    {
        self.values.contains_key(column)
    }

    /// The number of columns.
    pub fn column_count(&self) -> (n: usize)
        ensures
            n == self.column_order().len(),
            n == self@.len(),
    {
        proof {
            self.lemma_view();
        }
        self.values.len()
    }

    /// The column name and value at a position of `column_order`.
    pub fn column_at(&self, i: usize) -> (r: (&String, &Value))
        requires
            i < self.column_order().len(),
        ensures
            r.0@ == self.column_order()[i as int],
            self@.contains_key(r.0@),
            r.1@ == self@[r.0@],
    {
        proof {
            use_type_invariant(&self.values);
            self.values.lemma_view_consistent();
            self.lemma_view();
        }
        self.values.entry_at(i)
    }

    /// The column names, in `column_order`.
    pub fn columns(&self) -> (r: Vec<String>)
        ensures
            r@.map_values(|s: String| s@) == self.column_order(),
    {
        self.values.keys()
    }

    /// Every column name stands once in `column_order`, and the map's domain is
    /// exactly those names.
    pub proof fn lemma_columns(&self)
        requires
            self.wf(),
        ensures
            self.column_order().no_duplicates(),
            self@.dom() == self.column_order().to_set(),
            self@.len() == self.column_order().len(),
    {
        self.values.lemma_view_consistent();
        self.lemma_view();
    }

    /// A copy of the row with the same identifier, values and times.
    pub fn duplicate(&self) -> (r: Row)
        ensures
            r.id == self.id,
            r@ == self@,
            r.column_order() == self.column_order(),
            r.created_at == self.created_at,
            r.updated_at == self.updated_at,
    {
        let values = copy_value_map(&self.values);
        let r = Row { id: self.id, values, created_at: self.created_at, updated_at: self.updated_at };
        proof {
            assert(r@ =~= self@);
        }
        r
    }
}

/// A JSON document with its identifier; the document is kept as JSON text.
#[derive(Debug, Clone)]
pub struct Document {
    pub id: RecordId,
    pub data: String,
    pub created_at: i64,
    pub updated_at: i64,
}

impl Document {
    /// A document created now.
    pub fn new(id: RecordId, data: String) -> (d: Self)
        ensures
            d.id == id,
            d.data@ == data@,
            d.created_at == d.updated_at,
    {
        let now = now_millis();
        Document { id, data, created_at: now, updated_at: now }
    }

    /// A copy of the document.
    pub fn duplicate(&self) -> (d: Self)
        ensures
            d.id == self.id,
            d.data@ == self.data@,
            d.created_at == self.created_at,
            d.updated_at == self.updated_at,
    {
        Document { id: self.id, data: self.data.clone(), created_at: self.created_at, updated_at: self.updated_at }
    }
}

/// A graph vertex.
#[derive(Debug)]
pub struct GraphNode {
    pub id: RecordId,
    pub label: String,
    pub properties: StrMap<Value>,
    pub created_at: i64,
}

impl GraphNode {
    /// A vertex without properties.
    pub fn new(id: RecordId, label: String) -> (n: Self)
        ensures
            n.id == id,
            n.label@ == label@,
            n.properties@ == Map::<Seq<char>, Value>::empty(),
    {
        GraphNode { id, label, properties: StrMap::new(), created_at: now_millis() }
    }

    /// A copy of the vertex.
    pub fn duplicate(&self) -> (n: Self)
        ensures
            n.id == self.id,
            n.label@ == self.label@,
            value_models(n.properties@) == value_models(self.properties@),
            n.created_at == self.created_at,
    {
        GraphNode {
            id: self.id,
            label: self.label.clone(),
            properties: copy_value_map(&self.properties),
            created_at: self.created_at,
        }
    }
}

/// A directed graph edge.
#[derive(Debug)]
pub struct GraphEdge {
    pub id: RecordId,
    pub from_node: RecordId,
    pub to_node: RecordId,
    pub relation_type: String,
    pub properties: StrMap<Value>,
    pub created_at: i64,
}

impl GraphEdge {
    /// An edge with a fresh identifier and no properties.
    pub fn new(from: RecordId, to: RecordId, relation_type: String) -> (e: Self)
        ensures
            e.from_node == from,
            e.to_node == to,
            e.relation_type@ == relation_type@,
            e.properties@ == Map::<Seq<char>, Value>::empty(),
    {
        GraphEdge {
            id: RecordId::new(),
            from_node: from,
            to_node: to,
            relation_type,
            properties: StrMap::new(),
            created_at: now_millis(),
        }
    }

    /// A copy of the edge.
    pub fn duplicate(&self) -> (e: Self)
        ensures
            e.id == self.id,
            e.from_node == self.from_node,
            e.to_node == self.to_node,
            e.relation_type@ == self.relation_type@,
            value_models(e.properties@) == value_models(self.properties@),
            e.created_at == self.created_at,
    {
        GraphEdge {
            id: self.id,
            from_node: self.from_node,
            to_node: self.to_node,
            relation_type: self.relation_type.clone(),
            properties: copy_value_map(&self.properties),
            created_at: self.created_at,
        }
    }
}

/// Metadata of a table.
#[derive(Debug, Clone)]
pub struct TableMetadata {
    pub name: String,
    pub columns: Vec<ColumnDef>,
    pub primary_key: String,
    pub created_at: i64,
    pub row_count: u64,
}

impl TableMetadata {
    /// Metadata of a table without columns.
    pub fn new(name: String, primary_key: String) -> (m: Self)
        ensures
            m.name@ == name@,
            m.primary_key@ == primary_key@,
            m.columns@.len() == 0,
            m.row_count == 0,
    {
        TableMetadata { name, columns: Vec::new(), primary_key, created_at: now_millis(), row_count: 0 }
    }

    /// Appends a column definition.
    pub fn add_column(&mut self, col: ColumnDef)
        ensures
            final(self).columns@ == old(self).columns@.push(col),
            final(self).name == old(self).name,
            final(self).primary_key == old(self).primary_key,
            final(self).row_count == old(self).row_count,
    {
        self.columns.push(col);
    }
}

/// A plain table: a name and its rows in insertion order.
#[derive(Debug)]
pub struct Table {
    pub name: String,
    pub rows: Vec<Row>,
}

impl Table {
    /// An empty table.
    pub fn new(name: String) -> (t: Self)
        ensures
            t.name@ == name@,
            t.rows@.len() == 0,
    {
        Table { name, rows: Vec::new() }
    }

    /// Appends a row.
    pub fn insert(&mut self, row: Row)
        ensures
            final(self).rows@ == old(self).rows@.push(row),
            final(self).name == old(self).name,
    {
        self.rows.push(row);
    }
}

} // verus!
