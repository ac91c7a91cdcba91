//! Data constraints: PRIMARY KEY, UNIQUE, FOREIGN KEY and CHECK, their
//! registration on a table, and the validation of a row against them.
//!
//! Validation compares the text of key values. A row is validated in the
//! form of a map from column names to those texts; `key_text` gives the text
//! of every value but a floating-point one, whose decimal form is made where
//! floating-point numbers are handled.

use vstd::prelude::*;
use crate::collections::StrMap;
use crate::storage::caching::str_views;
use crate::types::{Value, ValueModel};
use crate::util::{owned, str_eq, i64_to_decimal, signed_decimal};

verus! {

/// The kinds of constraint.
#[derive(Debug, Clone)]
pub enum ConstraintType {
    PrimaryKey,
    UniqueKey,
    ForeignKey { ref_table: String, ref_column: String },
    /// A CHECK constraint with its SQL expression.
    CheckConstraint(String),
}

/// A named constraint on some columns.
#[derive(Debug, Clone)]
pub struct Constraint {
    pub name: String,
    pub columns: Vec<String>,
    pub constraint_type: ConstraintType,
}

/// A column that refers to a column of another table.
#[derive(Debug, Clone)]
pub struct ForeignKeyRef {
    pub column: String,
    pub ref_table: String,
    pub ref_column: String,
}

/// The constraints of a table, with what they imply: the primary key column,
/// a (value set) index per UNIQUE column, and the foreign keys.
#[derive(Debug)]
pub struct ConstraintMetadata {
    pub table_name: String,
    pub constraints: Vec<Constraint>,
    pub unique_indexes: StrMap<Vec<String>>,
    pub primary_key_column: Option<String>,
    pub foreign_keys: Vec<ForeignKeyRef>,
}

/// Why a constraint or a row was refused.
#[derive(Debug, Clone)]
pub enum ConstraintError {
    /// A constraint with this name exists already.
    AlreadyExists(String),
    /// The table has a PRIMARY KEY already.
    PrimaryKeyExists,
    /// A PRIMARY KEY must be on a single column.
    PrimaryKeyNotSingleColumn,
    /// A PRIMARY KEY column is NULL.
    PrimaryKeyNull,
    /// Another row has the same PRIMARY KEY.
    DuplicatePrimaryKey,
    /// Another row has the same values on these (comma-separated) UNIQUE
    /// columns.
    DuplicateUnique(String),
}

/// The text that stands for a missing or NULL value.
pub open spec fn null_text() -> Seq<char> {
    "NULL"@
}

/// The key text of a value, for every value but a floating-point one: NULL,
/// a missing value and values that are neither text, integer nor boolean are
/// `NULL`.
pub open spec fn key_text_of(v: Option<ValueModel>) -> Option<Seq<char>> {
    match v {
        Some(ValueModel::Float(_)) => None,
        Some(ValueModel::Str(s)) => Some(s),
        Some(ValueModel::Integer(i)) => Some(signed_decimal(i as int)),
        Some(ValueModel::Boolean(b)) => Some(
            if b {
                "true"@
            } else {
                "false"@
            },
        ),
        _ => Some(null_text()),
    }
}

/// The key text of a value (`None` for a floating-point value).
pub fn key_text(val: Option<&Value>) -> (r: Option<String>)
    ensures
        match r {
            Some(t) => key_text_of(
                match val {
                    Some(v) => Some(v@),
                    None => None,
                },
            ) == Some(t@),
            None => key_text_of(
                match val {
                    Some(v) => Some(v@),
                    None => None,
                },
            ) is None,
        },
{
    proof {
        reveal_strlit("NULL");
        reveal_strlit("true");
        reveal_strlit("false");
    }
    match val {
        Some(Value::Float(_)) => None,
        Some(Value::String(s)) => Some(s.clone()),
        Some(Value::Integer(i)) => Some(i64_to_decimal(*i)),
        Some(Value::Boolean(b)) => Some(
            if *b {
                owned("true")
            } else {
                owned("false")
            },
        ),
        _ => Some(owned("NULL")),
    }
}

/// The text of a column of a row of key texts (`NULL` when missing).
pub open spec fn cell(row: Map<Seq<char>, String>, col: Seq<char>) -> Seq<char> {
    if row.contains_key(col) {
        row[col]@
    } else {
        null_text()
    }
}

/// The texts of some columns of a row.
pub open spec fn key_of(row: Map<Seq<char>, String>, cols: Seq<Seq<char>>) -> Seq<Seq<char>> {
    Seq::new(cols.len(), |i: int| cell(row, cols[i]))
}

/// Whether one of the rows has the same texts on the columns.
pub open spec fn key_taken(rows: Seq<StrMap<String>>, cols: Seq<Seq<char>>, key: Seq<Seq<char>>) -> bool {
    exists|j: int| 0 <= j < rows.len() && key_of((#[trigger] rows[j])@, cols) == key
}

/// The column names joined with `, `.
pub open spec fn join_names(cols: Seq<Seq<char>>) -> Seq<char>
    decreases cols.len(),
{
    if cols.len() == 0 {
        Seq::empty()
    } else if cols.len() == 1 {
        cols[0]
    } else {
        join_names(cols.drop_last()) + ", "@ + cols.last()
    }
}

/// What a PRIMARY KEY on `cols` says of a row, given the existing rows.
pub open spec fn primary_key_verdict(
    row: Map<Seq<char>, String>,
    cols: Seq<Seq<char>>,
    existing: Seq<StrMap<String>>,
) -> Option<ConstraintError> {
    let key = key_of(row, cols);
    if key.contains(null_text()) {
        Some(ConstraintError::PrimaryKeyNull)
    } else if key_taken(existing, cols, key) {
        Some(ConstraintError::DuplicatePrimaryKey)
    } else {
        None
    }
}

/// Whether every text of a key is `NULL`.
pub open spec fn all_null(key: Seq<Seq<char>>) -> bool {
    forall|i: int| 0 <= i < key.len() ==> key[i] == null_text()
}

/// Whether a UNIQUE constraint on `cols` refuses a row, given the existing
/// rows: a key that is not all NULL, has no NULL, and is taken.
pub open spec fn unique_refuses(row: Map<Seq<char>, String>, cols: Seq<Seq<char>>, existing: Seq<StrMap<String>>) -> bool {
    let key = key_of(row, cols);
    !all_null(key) && !key.contains(null_text()) && key_taken(existing, cols, key)
}

/// Whether a constraint refuses a row (FOREIGN KEY and CHECK constraints
/// accept every row).
pub open spec fn refuses(c: Constraint, row: Map<Seq<char>, String>, existing: Seq<StrMap<String>>) -> bool {
    match c.constraint_type {
        ConstraintType::PrimaryKey => primary_key_verdict(row, str_views(c.columns@), existing) is Some,
        ConstraintType::UniqueKey => unique_refuses(row, str_views(c.columns@), existing),
        _ => false,
    }
}

/// Whether an error is the one that constraint `c` gives for a row.
pub open spec fn refusal_of(c: Constraint, row: Map<Seq<char>, String>, existing: Seq<StrMap<String>>, e: ConstraintError) -> bool {
    match c.constraint_type {
        ConstraintType::PrimaryKey => primary_key_verdict(row, str_views(c.columns@), existing) == Some(e),
        ConstraintType::UniqueKey => e matches ConstraintError::DuplicateUnique(t) && t@ == join_names(
            str_views(c.columns@),
        ),
        _ => false,
    }
}

/// The texts of some columns of a row, in the order of the columns.
fn key_values(row: &StrMap<String>, columns: &Vec<String>) -> (r: Vec<String>)
    ensures
        str_views(r@) == key_of(row@, str_views(columns@)),
{
    let mut r: Vec<String> = Vec::new();
    let mut i: usize = 0;
    while i < columns.len()
        invariant
            i <= columns@.len(),
            str_views(r@) == key_of(row@, str_views(columns@)).subrange(0, i as int),
        decreases columns@.len() - i,
    {
        let ghost before = r@;
        assert(str_views(before).len() == before.len());
        assert(before.len() == i);
        let col = &columns[i];
        match row.get(col.as_str()) {
            Some(t) => {
                r.push(t.clone());
                assert(r@[i as int]@ == cell(row@, col@));
            },
            None => {
                r.push(owned("NULL"));
                proof {
                    reveal_strlit("NULL");
                }
                assert(r@[i as int]@ == cell(row@, col@));
            },
        }
        proof {
            assert(str_views(columns@)[i as int] == col@);
            assert(str_views(r@)[i as int] == cell(row@, col@));
            assert(str_views(r@) =~= key_of(row@, str_views(columns@)).subrange(0, i + 1));
        }
        i += 1;
    }
    proof {
        assert(key_of(row@, str_views(columns@)).subrange(0, i as int) =~= key_of(row@, str_views(columns@)));
    }
    r
}

/// Whether two rows of texts are equal.
fn texts_eq(a: &Vec<String>, b: &Vec<String>) -> (r: bool)
    ensures
        r == (str_views(a@) == str_views(b@)),
{
    if a.len() != b.len() {
        proof {
            assert(str_views(a@).len() != str_views(b@).len());
        }
        return false;
    }
    let mut i: usize = 0;
    while i < a.len()
        invariant
            a@.len() == b@.len(),
            i <= a@.len(),
            forall|j: int| 0 <= j < i ==> a@[j]@ == b@[j]@,
        decreases a@.len() - i,
    {
        if !str_eq(a[i].as_str(), b[i].as_str()) {
            proof {
                assert(str_views(a@)[i as int] != str_views(b@)[i as int]);
            }
            return false;
        }
        i += 1;
    }
    proof {
        assert(str_views(a@) =~= str_views(b@));
    }
    true
}

/// Whether a text is `NULL`.
fn is_null_text(t: &String) -> (b: bool)
    ensures
        b == (t@ == null_text()),
{
    proof {
        reveal_strlit("NULL");
    }
    str_eq(t.as_str(), "NULL")
}

/// Whether some text of a row is `NULL`.
fn any_null(v: &Vec<String>) -> (b: bool)
    ensures
        b == str_views(v@).contains(null_text()),
{
    let mut i: usize = 0;
    while i < v.len()
        invariant
            i <= v@.len(),
            forall|j: int| 0 <= j < i ==> v@[j]@ != null_text(),
        decreases v@.len() - i,
    {
        if is_null_text(&v[i]) {
            proof {
                assert(str_views(v@)[i as int] == null_text());
            }
            return true;
        }
        i += 1;
    }
    proof {
        if str_views(v@).contains(null_text()) {
            let j = choose|j: int| 0 <= j < str_views(v@).len() && #[trigger] str_views(v@)[j] == null_text();
            assert(v@[j]@ == null_text());
        }
    }
    false
}

/// Whether every text of a row is `NULL`.
fn every_null(v: &Vec<String>) -> (b: bool)
    ensures
        b == all_null(str_views(v@)),
{
    let mut i: usize = 0;
    while i < v.len()
        invariant
            i <= v@.len(),
            forall|j: int| 0 <= j < i ==> v@[j]@ == null_text(),
        decreases v@.len() - i,
    {
        if !is_null_text(&v[i]) {
            proof {
                assert(str_views(v@)[i as int] != null_text());
            }
            return false;
        }
        i += 1;
    }
    true
}

/// Whether one of the rows has `key` on the columns.
fn find_key(existing_rows: &Vec<StrMap<String>>, columns: &Vec<String>, key: &Vec<String>) -> (b: bool)
    ensures
        b == key_taken(existing_rows@, str_views(columns@), str_views(key@)),
{
    let mut j: usize = 0;
    while j < existing_rows.len()
        invariant
            j <= existing_rows@.len(),
            forall|k: int|
                0 <= k < j ==> key_of((#[trigger] existing_rows@[k])@, str_views(columns@)) != str_views(key@),
        decreases existing_rows@.len() - j,
    {
        let existing_key = key_values(&existing_rows[j], columns);
        if texts_eq(key, &existing_key) {
            return true;
        }
        j += 1;
    }
    false
}

/// The columns joined with `, `.
fn join_columns(columns: &Vec<String>) -> (s: String)
    ensures
        s@ == join_names(str_views(columns@)),
{
    let mut s = String::new();
    let mut i: usize = 0;
    proof {
        reveal_strlit(", ");
    }
    while i < columns.len()
        invariant
            i <= columns@.len(),
            s@ == join_names(str_views(columns@).subrange(0, i as int)),
        decreases columns@.len() - i,
    {
        if i > 0 {
            s.append(", ");
        }
        s.append(columns[i].as_str());
        proof {
            let sub = str_views(columns@).subrange(0, i + 1);
            assert(sub.drop_last() =~= str_views(columns@).subrange(0, i as int));
            if i == 0 {
                assert(s@ =~= sub[0]);
            }
        }
        i += 1;
    }
    proof {
        assert(str_views(columns@).subrange(0, i as int) =~= str_views(columns@));
    }
    s
}

impl ConstraintMetadata {
    /// No constraints on the table yet.
    pub fn new(table_name: String) -> (m: Self)
        ensures
            m.table_name == table_name,
            m.constraints@.len() == 0,
            m.unique_indexes@ == Map::<Seq<char>, Vec<String>>::empty(),
            m.primary_key_column is None,
            m.foreign_keys@.len() == 0,
    {
        ConstraintMetadata {
            table_name,
            constraints: Vec::new(),
            unique_indexes: StrMap::new(),
            primary_key_column: None,
            foreign_keys: Vec::new(),
        }
    }

    /// Whether a constraint of this name exists.
    fn has_constraint_named(&self, name: &String) -> (b: bool)
        ensures
            b == exists|i: int| 0 <= i < self.constraints@.len() && (#[trigger] self.constraints@[i]).name@ == name@,
    {
        let mut i: usize = 0;
        while i < self.constraints.len()
            invariant
                i <= self.constraints@.len(),
                forall|j: int| 0 <= j < i ==> (#[trigger] self.constraints@[j]).name@ != name@,
            decreases self.constraints@.len() - i,
        {
            if str_eq(self.constraints[i].name.as_str(), name.as_str()) {
                return true;
            }
            i += 1;
        }
        false
    }

    /// Registers a constraint. Refused when the name is taken, and for a
    /// second PRIMARY KEY or one on several columns. A PRIMARY KEY sets the
    /// primary key column, a UNIQUE constraint gets an (empty) index for each
    /// of its columns that has none, and a FOREIGN KEY records one reference
    /// per column.
    pub fn add_constraint(&mut self, constraint: Constraint) -> (r: Result<(), ConstraintError>)
        ensures
            (exists|i: int| 0 <= i < old(self).constraints@.len() && (#[trigger] old(self).constraints@[i]).name@
                == constraint.name@) ==> (r matches Err(ConstraintError::AlreadyExists(n)) && n@ == constraint.name@),
            !(exists|i: int| 0 <= i < old(self).constraints@.len() && (#[trigger] old(self).constraints@[i]).name@
                == constraint.name@) ==> {
                &&& constraint.constraint_type is PrimaryKey && old(self).primary_key_column is Some ==> (r matches Err(
                    ConstraintError::PrimaryKeyExists,
                ))
                &&& constraint.constraint_type is PrimaryKey && old(self).primary_key_column is None
                    && constraint.columns@.len() != 1 ==> (r matches Err(ConstraintError::PrimaryKeyNotSingleColumn))
                &&& !(constraint.constraint_type is PrimaryKey) || (old(self).primary_key_column is None
                    && constraint.columns@.len() == 1) ==> r is Ok
            },
            r is Err ==> *final(self) == *old(self),
            r is Ok ==> {
                &&& final(self).table_name == old(self).table_name
                &&& final(self).constraints@ == old(self).constraints@.push(constraint)
                &&& constraint.constraint_type is PrimaryKey ==> final(self).primary_key_column == Some(
                    constraint.columns@[0],
                )
                &&& !(constraint.constraint_type is PrimaryKey) ==> final(self).primary_key_column == old(
                    self,
                ).primary_key_column
                &&& constraint.constraint_type is UniqueKey ==> {
                    &&& forall|k: Seq<char>|
                        #[trigger] final(self).unique_indexes@.contains_key(k) <==> old(
                            self,
                        ).unique_indexes@.contains_key(k) || str_views(constraint.columns@).contains(k)
                    &&& forall|k: Seq<char>|
                        #[trigger] final(self).unique_indexes@.contains_key(k) ==> if old(
                            self,
                        ).unique_indexes@.contains_key(k) {
                            final(self).unique_indexes@[k] == old(self).unique_indexes@[k]
                        } else {
                            final(self).unique_indexes@[k]@.len() == 0
                        }
                }
                &&& !(constraint.constraint_type is UniqueKey) ==> final(self).unique_indexes@ == old(
                    self,
                ).unique_indexes@
                &&& constraint.constraint_type is ForeignKey ==> {
                    &&& final(self).foreign_keys@.len() == old(self).foreign_keys@.len() + constraint.columns@.len()
                    &&& final(self).foreign_keys@.subrange(0, old(self).foreign_keys@.len() as int) == old(
                        self,
                    ).foreign_keys@
                    &&& forall|i: int|
                        0 <= i < constraint.columns@.len() ==> {
                            let f = #[trigger] final(self).foreign_keys@[old(self).foreign_keys@.len() + i];
                            &&& f.column == constraint.columns@[i]
                            &&& f.ref_table == constraint.constraint_type->ref_table
                            &&& f.ref_column == constraint.constraint_type->ref_column
                        }
                }
                &&& !(constraint.constraint_type is ForeignKey) ==> final(self).foreign_keys@ == old(
                    self,
                ).foreign_keys@
            },
    {
        if self.has_constraint_named(&constraint.name) {
            return Err(ConstraintError::AlreadyExists(constraint.name));
        }
        let is_primary = match constraint.constraint_type {
            ConstraintType::PrimaryKey => true,
            _ => false,
        };
        if is_primary {
            if self.primary_key_column.is_some() {
                return Err(ConstraintError::PrimaryKeyExists);
            }
            if constraint.columns.len() != 1 {
                return Err(ConstraintError::PrimaryKeyNotSingleColumn);
            }
            self.primary_key_column = Some(constraint.columns[0].clone());
        }
        let ghost pre = *self;
        match constraint.constraint_type {
            ConstraintType::UniqueKey => {
                let mut i: usize = 0;
                while i < constraint.columns.len()
                    invariant
                        i <= constraint.columns@.len(),
                        self.table_name == pre.table_name,
                        self.constraints == pre.constraints,
                        self.primary_key_column == pre.primary_key_column,
                        self.foreign_keys == pre.foreign_keys,
                        pre.unique_indexes == old(self).unique_indexes,
                        forall|k: Seq<char>|
                            #[trigger] self.unique_indexes@.contains_key(k) <==> old(self).unique_indexes@.contains_key(k)
                                || str_views(constraint.columns@).subrange(0, i as int).contains(k),
                        forall|k: Seq<char>|
                            #[trigger] self.unique_indexes@.contains_key(k) ==> if old(
                                self,
                            ).unique_indexes@.contains_key(k) {
                                self.unique_indexes@[k] == old(self).unique_indexes@[k]
                            } else {
                                self.unique_indexes@[k]@.len() == 0
                            },
                    decreases constraint.columns@.len() - i,
                {
                    let col = &constraint.columns[i];
                    let ghost cols = str_views(constraint.columns@);
                    let ghost prev = self.unique_indexes@;
                    if !self.unique_indexes.contains_key(col.as_str()) {
                        let _ = self.unique_indexes.insert(col.clone(), Vec::new());
                    }
                    proof {
                        assert forall|k: Seq<char>|
                            #[trigger] self.unique_indexes@.contains_key(k) <==> old(self).unique_indexes@.contains_key(k)
                                || cols.subrange(0, i + 1).contains(k) by {
                            if cols.subrange(0, i as int).contains(k) {
                                let j = choose|j: int| 0 <= j < i && #[trigger] cols.subrange(0, i as int)[j] == k;
                                assert(cols.subrange(0, i + 1)[j] == k);
                            }
                            if cols.subrange(0, i + 1).contains(k) {
                                let j = choose|j: int| 0 <= j < i + 1 && #[trigger] cols.subrange(0, i + 1)[j] == k;
                                if j < i {
                                    assert(cols.subrange(0, i as int)[j] == k);
                                } else {
                                    assert(k == col@);
                                }
                            }
                            if k == col@ {
                                assert(cols.subrange(0, i + 1)[i as int] == k);
                            }
                        }
                    }
                    i += 1;
                }
                proof {
                    assert(str_views(constraint.columns@).subrange(0, i as int) =~= str_views(constraint.columns@));
                }
            },
            ConstraintType::ForeignKey { ref ref_table, ref ref_column } => {
                let ghost start = self.foreign_keys@;
                let mut i: usize = 0;
                while i < constraint.columns.len()
                    invariant
                        i <= constraint.columns@.len(),
                        self.table_name == pre.table_name,
                        self.constraints == pre.constraints,
                        self.primary_key_column == pre.primary_key_column,
                        self.unique_indexes == pre.unique_indexes,
                        start == pre.foreign_keys@,
                        self.foreign_keys@.len() == start.len() + i,
                        self.foreign_keys@.subrange(0, start.len() as int) == start,
                        forall|j: int|
                            0 <= j < i ==> {
                                let f = #[trigger] self.foreign_keys@[start.len() + j];
                                &&& f.column == constraint.columns@[j]
                                &&& f.ref_table == *ref_table
                                &&& f.ref_column == *ref_column
                            },
                    decreases constraint.columns@.len() - i,
                {
                    let ghost before = self.foreign_keys@;
                    self.foreign_keys.push(
                        ForeignKeyRef {
                            column: constraint.columns[i].clone(),
                            ref_table: ref_table.clone(),
                            ref_column: ref_column.clone(),
                        },
                    );
                    proof {
                        assert(self.foreign_keys@.subrange(0, start.len() as int) =~= before.subrange(
                            0,
                            start.len() as int,
                        ));
                        assert forall|j: int| 0 <= j < i + 1 implies {
                            let f = #[trigger] self.foreign_keys@[start.len() + j];
                            &&& f.column == constraint.columns@[j]
                            &&& f.ref_table == *ref_table
                            &&& f.ref_column == *ref_column
                        } by {
                            if j < i {
                                assert(self.foreign_keys@[start.len() + j] == before[start.len() + j]);
                            }
                        }
                    }
                    i += 1;
                }
            },
            _ => {},
        }
        self.constraints.push(constraint);
        Ok(())
    }

    /// Checks a PRIMARY KEY: no NULL in the key, and no existing row with the
    /// same key.
    fn validate_primary_key(row: &StrMap<String>, columns: &Vec<String>, existing_rows: &Vec<StrMap<String>>) -> (r:
        Result<(), ConstraintError>)
        ensures
            match primary_key_verdict(row@, str_views(columns@), existing_rows@) {
                Some(ConstraintError::PrimaryKeyNull) => r matches Err(ConstraintError::PrimaryKeyNull),
                Some(ConstraintError::DuplicatePrimaryKey) => r matches Err(ConstraintError::DuplicatePrimaryKey),
                _ => r is Ok,
            },
    {
        let pk_values = key_values(row, columns);
        if any_null(&pk_values) {
            return Err(ConstraintError::PrimaryKeyNull);
        }
        if find_key(existing_rows, columns, &pk_values) {
            return Err(ConstraintError::DuplicatePrimaryKey);
        }
        Ok(())
    }

    /// Checks a UNIQUE constraint: a key that is all NULL is accepted; one
    /// without NULL that an existing row has is refused.
    fn validate_unique_key(row: &StrMap<String>, columns: &Vec<String>, existing_rows: &Vec<StrMap<String>>) -> (r:
        Result<(), ConstraintError>)
        ensures
            unique_refuses(row@, str_views(columns@), existing_rows@) ==> (r matches Err(
                ConstraintError::DuplicateUnique(t),
            ) && t@ == join_names(str_views(columns@))),
            !unique_refuses(row@, str_views(columns@), existing_rows@) ==> r is Ok,
    {
        let uk_values = key_values(row, columns);
        if every_null(&uk_values) {
            return Ok(());
        }
        if !any_null(&uk_values) && find_key(existing_rows, columns, &uk_values) {
            return Err(ConstraintError::DuplicateUnique(join_columns(columns)));
        }
        Ok(())
    }

    /// A FOREIGN KEY accepts every row: the referenced table is not looked at.
    fn validate_foreign_key(row: &StrMap<String>, columns: &Vec<String>, ref_table: &String, ref_column: &String) -> (r:
        Result<(), ConstraintError>)
        ensures
            r is Ok,
    {
        Ok(())
    }

    /// A CHECK constraint accepts every row: its expression is not evaluated.
    fn validate_check_constraint(row: &StrMap<String>, expression: &String) -> (r: Result<(), ConstraintError>)
        ensures
            r is Ok,
    {
        Ok(())
    }

    /// Validates a row, given as the key texts of its columns, against every
    /// constraint in the order registered; the first refusal is returned.
    pub fn validate_row_texts(&self, row: &StrMap<String>, existing_rows: &Vec<StrMap<String>>) -> (r: Result<
        (),
        ConstraintError,
    >)
        ensures
            r is Ok <==> forall|i: int|
                0 <= i < self.constraints@.len() ==> !refuses(#[trigger] self.constraints@[i], row@, existing_rows@),
            r matches Err(e) ==> exists|i: int|
                0 <= i < self.constraints@.len() && refuses(#[trigger] self.constraints@[i], row@, existing_rows@)
                    && refusal_of(self.constraints@[i], row@, existing_rows@, e) && forall|k: int|
                    0 <= k < i ==> !refuses(#[trigger] self.constraints@[k], row@, existing_rows@),
    {
        let mut i: usize = 0;
        while i < self.constraints.len()
            invariant
                i <= self.constraints@.len(),
                forall|k: int| 0 <= k < i ==> !refuses(#[trigger] self.constraints@[k], row@, existing_rows@),
            decreases self.constraints@.len() - i,
        {
            let c = &self.constraints[i];
            let res = match &c.constraint_type {
                ConstraintType::PrimaryKey => Self::validate_primary_key(row, &c.columns, existing_rows),
                ConstraintType::UniqueKey => Self::validate_unique_key(row, &c.columns, existing_rows),
                ConstraintType::ForeignKey { ref_table, ref_column } => Self::validate_foreign_key(
                    row,
                    &c.columns,
                    ref_table,
                    ref_column,
                ),
                ConstraintType::CheckConstraint(expr) => Self::validate_check_constraint(row, expr),
            };
            match res {
                Err(e) => {
                    proof {
                        assert(refuses(self.constraints@[i as int], row@, existing_rows@));
                    }
                    return Err(e);
                },
                Ok(()) => {},
            }
            i += 1;
        }
        Ok(())
    }
}

} // verus!
