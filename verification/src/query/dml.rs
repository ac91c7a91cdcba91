//! DML statements: the parsing of DELETE statements and their execution on
//! a table.
//!
//! Keywords are found in the upper-cased statement, and the positions found
//! there (in bytes) cut the statement itself.

use vstd::prelude::*;
use vstd::string::StringSliceAdditionalSpecFns;
use crate::types::{RecordId, Row, Table, Value, ValueModel};
use crate::text::{pieces_view, split_chars, split_on, trim_chars, trim_str, trim_ws};
use crate::util::{chars_of, to_lowercase, lowercase, to_uppercase, uppercase, owned, str_eq, string_from_chars};
use crate::protocol::tcp::utf8_of;

verus! {

/// The text that UTF-8 bytes encode.
pub open spec fn text_of(bytes: Seq<u8>) -> Seq<char> {
    vstd::utf8::decode_utf8(bytes)
}

/// Whether `pat` occurs in `hay` at byte `i`.
pub open spec fn occurs_at(hay: Seq<u8>, pat: Seq<u8>, i: int) -> bool {
    0 <= i && i + pat.len() <= hay.len() && hay.subrange(i, i + pat.len()) == pat
}

/// The first byte position at which `pat` occurs in `hay`, or -1
/// (`str::find`).
#[verifier::opaque]
pub open spec fn first_occurrence(hay: Seq<u8>, pat: Seq<u8>) -> int {
    if exists|i: int| #[trigger] occurs_at(hay, pat, i) {
        choose|i: int| #[trigger] occurs_at(hay, pat, i) && forall|j: int| 0 <= j < i ==> !occurs_at(hay, pat, j)
    } else {
        -1
    }
}

/// Whether `hay` starts with `pat`.
pub open spec fn starts_with_bytes(hay: Seq<u8>, pat: Seq<u8>) -> bool {
    occurs_at(hay, pat, 0)
}

/// The bytes of `DELETE FROM`.
pub open spec fn delete_from_bytes() -> Seq<u8> {
    seq![68u8, 69u8, 76u8, 69u8, 84u8, 69u8, 32u8, 70u8, 82u8, 79u8, 77u8]
}

/// The bytes of `FROM`.
pub open spec fn from_bytes() -> Seq<u8> {
    seq![70u8, 82u8, 79u8, 77u8]
}

/// The bytes of `WHERE`.
pub open spec fn where_bytes() -> Seq<u8> {
    seq![87u8, 72u8, 69u8, 82u8, 69u8]
}

/// Whether `pat` occurs in `hay` at `i`.
pub(crate) fn occurs_at_exec(hay: &[u8], pat: &Vec<u8>, i: usize) -> (b: bool)
    ensures
        b == occurs_at(hay@, pat@, i as int),
{
    let n = hay.len();
    if i > n || n - i < pat.len() {
        return false;
    }
    let mut k: usize = 0;
    while k < pat.len()
        invariant
            n == hay@.len(),
            i + pat@.len() <= n,
            k <= pat@.len(),
            forall|j: int| 0 <= j < k ==> hay@[i + j] == pat@[j],
        decreases pat@.len() - k,
    {
        let idx = i + k;
        if hay[idx] != pat[k] {
            proof {
                assert(hay@.subrange(i as int, i + pat@.len())[k as int] != pat@[k as int]);
            }
            return false;
        }
        k += 1;
    }
    assert(hay@.subrange(i as int, i + pat@.len()) =~= pat@);
    true
}

/// The first position at which `pat` occurs in `hay`.
pub(crate) fn find_bytes(hay: &[u8], pat: &Vec<u8>) -> (r: Option<usize>)
    ensures
        match r {
            Some(i) => i == first_occurrence(hay@, pat@),
            None => first_occurrence(hay@, pat@) == -1,
        },
{
    reveal(first_occurrence);
    let mut i: usize = 0;
    while i < hay.len()
        invariant
            i <= hay@.len(),
            forall|j: int| 0 <= j < i ==> !occurs_at(hay@, pat@, j),
        decreases hay@.len() - i,
    {
        if occurs_at_exec(hay, pat, i) {
            proof {
                reveal(first_occurrence);
                assert(occurs_at(hay@, pat@, i as int) && forall|j: int| 0 <= j < i ==> !occurs_at(hay@, pat@, j));
                let f = first_occurrence(hay@, pat@);
                assert(occurs_at(hay@, pat@, f) && forall|j: int| 0 <= j < f ==> !occurs_at(hay@, pat@, j));
                assert(!(f < i) && !(i < f));
            }
            return Some(i);
        }
        i += 1;
    }
    if occurs_at_exec(hay, pat, i) {
        proof {
            assert(occurs_at(hay@, pat@, i as int) && forall|j: int| 0 <= j < i ==> !occurs_at(hay@, pat@, j));
            let f = first_occurrence(hay@, pat@);
            assert(occurs_at(hay@, pat@, f) && forall|j: int| 0 <= j < f ==> !occurs_at(hay@, pat@, j));
            assert(!(f < i) && !(i < f));
        }
        return Some(i);
    }
    proof {
        assert forall|j: int| !(#[trigger] occurs_at(hay@, pat@, j)) by {
            if 0 <= j <= i {
            } else if j > hay@.len() {
            }
        }
    }
    None
}

/// The bytes of `INSERT INTO`.
pub open spec fn insert_into_bytes() -> Seq<u8> {
    seq![73u8, 78u8, 83u8, 69u8, 82u8, 84u8, 32u8, 73u8, 78u8, 84u8, 79u8]
}

/// The bytes of `VALUES`.
pub open spec fn values_bytes() -> Seq<u8> {
    seq![86u8, 65u8, 76u8, 85u8, 69u8, 83u8]
}

/// The bytes of `UPDATE`.
pub open spec fn update_bytes() -> Seq<u8> {
    seq![85u8, 80u8, 68u8, 65u8, 84u8, 69u8]
}

/// The bytes of `SET`.
pub open spec fn set_bytes() -> Seq<u8> {
    seq![83u8, 69u8, 84u8]
}

/// The bytes of the keyword numbered `which`: `DELETE FROM`, `FROM`,
/// `WHERE`, `INSERT INTO`, `VALUES`, `UPDATE`, `SET`.
pub open spec fn keyword_bytes(which: u8) -> Seq<u8> {
    if which == 0 {
        delete_from_bytes()
    } else if which == 1 {
        from_bytes()
    } else if which == 2 {
        where_bytes()
    } else if which == 3 {
        insert_into_bytes()
    } else if which == 4 {
        values_bytes()
    } else if which == 5 {
        update_bytes()
    } else {
        set_bytes()
    }
}

/// Appends bytes to a vector.
pub(crate) fn push_all(v: &mut Vec<u8>, bytes: &[u8])
    ensures
        final(v)@ == old(v)@ + bytes@,
{
    let mut i: usize = 0;
    while i < bytes.len()
        invariant
            i <= bytes@.len(),
            v@ == old(v)@ + bytes@.subrange(0, i as int),
        decreases bytes@.len() - i,
    {
        v.push(bytes[i]);
        proof {
            assert(bytes@.subrange(0, i + 1) =~= bytes@.subrange(0, i as int).push(bytes@[i as int]));
        }
        i += 1;
    }
    assert(bytes@.subrange(0, i as int) =~= bytes@);
}

/// The bytes of an ASCII keyword.
pub(crate) fn keyword(which: u8) -> (v: Vec<u8>)
    ensures
        v@ == keyword_bytes(which),
{
    let mut v: Vec<u8> = Vec::new();
    if which == 0 {
        push_all(&mut v, &[68u8, 69u8, 76u8, 69u8, 84u8, 69u8, 32u8, 70u8, 82u8, 79u8, 77u8]);
    } else if which == 1 {
        push_all(&mut v, &[70u8, 82u8, 79u8, 77u8]);
    } else if which == 2 {
        push_all(&mut v, &[87u8, 72u8, 69u8, 82u8, 69u8]);
    } else if which == 3 {
        push_all(&mut v, &[73u8, 78u8, 83u8, 69u8, 82u8, 84u8, 32u8, 73u8, 78u8, 84u8, 79u8]);
    } else if which == 4 {
        push_all(&mut v, &[86u8, 65u8, 76u8, 85u8, 69u8, 83u8]);
    } else if which == 5 {
        push_all(&mut v, &[85u8, 80u8, 68u8, 65u8, 84u8, 69u8]);
    } else {
        push_all(&mut v, &[83u8, 69u8, 84u8]);
    }
    assert(v@ =~= keyword_bytes(which));
    v
}

/// The UTF-8 bytes of a text.
pub open spec fn encode_utf8_of(s: Seq<char>) -> Seq<u8> {
    vstd::utf8::encode_utf8(s)
}

/// Whether a byte position of valid UTF-8 starts a character.
pub open spec fn boundary(bytes: Seq<u8>, i: int) -> bool {
    vstd::utf8::is_char_boundary(bytes, i)
}

/// The text between two byte positions (`&s[a..b]`).
pub(crate) fn byte_slice(s: &str, a: usize, b: usize) -> (r: String)
    requires
        a <= b <= s.spec_bytes().len(),
        a < s.spec_bytes().len() ==> boundary(s.spec_bytes(), a as int),
        b < s.spec_bytes().len() ==> boundary(s.spec_bytes(), b as int),
    ensures
        r@ == text_of(s.spec_bytes().subrange(a as int, b as int)),
{
    broadcast use vstd::utf8::encode_utf8_valid_utf8, vstd::utf8::encode_utf8_decode_utf8,
        vstd::utf8::is_char_boundary_iff_not_is_continuation_byte, vstd::utf8::is_char_boundary_start_end_of_seq;

    let ghost sb = s.spec_bytes();
    proof {
        assert(vstd::utf8::valid_utf8(encode_utf8_of(s@)));
        assert(vstd::utf8::valid_utf8(sb));
        assert(vstd::utf8::is_char_boundary(sb, sb.len() as int));
        assert(boundary(sb, a as int));
        assert(boundary(sb, b as int));
    }
    let (head, _) = s.split_at(b);
    let ghost hb = head.spec_bytes();
    proof {
        assert(hb =~= sb.subrange(0, b as int));
        assert(vstd::utf8::valid_utf8(encode_utf8_of(head@)));
        assert(vstd::utf8::valid_utf8(hb));
        if 0 < a < b {
            assert(hb[a as int] == sb[a as int]);
            assert(vstd::utf8::is_char_boundary(sb, a as int));
            assert(!vstd::utf8::is_continuation_byte(sb[a as int]));
            assert(!vstd::utf8::is_continuation_byte(hb[a as int]));
            assert(vstd::utf8::is_char_boundary(hb, a as int));
        } else if a == b {
            assert(vstd::utf8::is_char_boundary(hb, hb.len() as int));
        } else {
            assert(vstd::utf8::is_char_boundary(hb, 0));
        }
    }
    let (_, mid) = head.split_at(a);
    proof {
        assert(mid.spec_bytes() =~= sb.subrange(a as int, b as int));
        assert(text_of(mid.spec_bytes()) == mid@);
    }
    owned(mid)
}

/// A parsed DELETE statement.
#[derive(Debug, Clone)]
pub struct DeleteStatement {
    pub table_name: String,
    pub where_condition: Option<String>,
}

/// The errors of statement parsing.
#[derive(Debug, Clone, Copy, PartialEq, Eq, Structural)]
pub enum DmlError {
    /// The statement is not a DELETE.
    NotDelete,
    /// FROM is missing.
    MissingFrom,
    /// The statement is not an INSERT.
    NotInsert,
    /// VALUES is missing.
    MissingValues,
    /// The column list has no `(`.
    MissingColumnList,
    /// The column list has no `)`.
    MissingClosingParen,
    /// The statement is not an UPDATE.
    NotUpdate,
    /// SET is missing.
    MissingSet,
    /// A SET clause is not one `column = value`.
    InvalidSetClause,
    /// A tuple has another number of values than there are columns.
    ColumnCountMismatch { expected: usize, got: usize },
}

/// The bytes of the trimmed statement.
pub open spec fn trimmed_bytes(sql: Seq<char>) -> Seq<u8> {
    utf8_of(trim_ws(sql))
}

/// The bytes of the upper-cased trimmed statement.
pub open spec fn upper_bytes(sql: Seq<char>) -> Seq<u8> {
    utf8_of(uppercase(trim_ws(sql)))
}

/// Whether cutting the statement at the keyword positions found in its
/// upper-cased form stays inside it and on character boundaries (otherwise
/// the cut is impossible).
pub open spec fn delete_cuts_valid(sql: Seq<char>) -> bool {
    let t = trimmed_bytes(sql);
    let u = upper_bytes(sql);
    let f = first_occurrence(u, from_bytes());
    let w = first_occurrence(u, where_bytes());
    starts_with_bytes(u, delete_from_bytes()) && f >= 0 ==> {
        &&& f + 4 <= t.len() && boundary(t, f + 4)
        &&& w >= 0 ==> f + 4 <= w && w + 5 <= t.len() && boundary(t, w) && boundary(t, w + 5)
    }
}

/// What parsing a DELETE statement gives: `NotDelete` unless the
/// upper-cased trimmed text starts with `DELETE FROM`; `MissingFrom` when
/// `FROM` does not occur; otherwise the lower-cased, trimmed text between
/// `FROM` and `WHERE` (or the end) as the table, and the text after `WHERE`
/// as the condition.
pub open spec fn delete_outcome(sql: Seq<char>, r: Result<DeleteStatement, DmlError>) -> bool {
    let t = trimmed_bytes(sql);
    let u = upper_bytes(sql);
    let f = first_occurrence(u, from_bytes());
    let w = first_occurrence(u, where_bytes());
    if !starts_with_bytes(u, delete_from_bytes()) {
        r == Err::<DeleteStatement, DmlError>(DmlError::NotDelete)
    } else if f < 0 {
        r == Err::<DeleteStatement, DmlError>(DmlError::MissingFrom)
    } else {
        &&& r matches Ok(d)
        &&& d.table_name@ == lowercase(trim_ws(text_of(t.subrange(f + 4, if w >= 0 { w } else { t.len() as int }))))
        &&& w >= 0 ==> (d.where_condition matches Some(c) && c@ == text_of(t.subrange(w + 5, t.len() as int)))
        &&& w < 0 ==> d.where_condition is None
    }
}

/// Whether byte `i` of valid UTF-8 starts a character (or is its end).
pub(crate) fn char_boundary_at(bytes: &[u8], i: usize) -> (b: bool)
    requires
        vstd::utf8::valid_utf8(bytes@),
        i <= bytes@.len(),
    ensures
        b == boundary(bytes@, i as int),
{
    broadcast use vstd::utf8::is_char_boundary_iff_not_is_continuation_byte, vstd::utf8::is_char_boundary_start_end_of_seq;

    if i == bytes.len() {
        assert(vstd::utf8::is_char_boundary(bytes@, bytes@.len() as int));
        true
    } else {
        let c = bytes[i];
        assert(vstd::utf8::is_char_boundary(bytes@, i as int) <==> !vstd::utf8::is_continuation_byte(bytes@[i as int]));
        !(0x80u8 <= c && c <= 0xbfu8)
    }
}

/// Parses a DELETE statement where that can be done: `None` when a keyword
/// position found in the upper-cased text does not fall on a character
/// boundary of the text itself (upper-casing changed the byte lengths),
/// otherwise the result of `DeleteStatement::from_sql`.
pub fn parse_delete(sql: &str) -> (r: Option<Result<DeleteStatement, DmlError>>)
    ensures
        r is None <==> !delete_cuts_valid(sql@),
        r matches Some(x) ==> delete_outcome(sql@, x),
{
    broadcast use vstd::utf8::encode_utf8_valid_utf8;

    let t = trim_str(sql);
    let ts = t.as_str();
    let upper = to_uppercase(ts);
    let us = upper.as_str();
    let ub = us.as_bytes();
    let tb = ts.as_bytes();
    let tlen = tb.len();
    proof {
        assert(tb@ == trimmed_bytes(sql@));
        assert(ub@ == upper_bytes(sql@));
        assert(vstd::utf8::valid_utf8(encode_utf8_of(ts@)));
    }
    let kw_delete = keyword(0);
    let kw_from = keyword(1);
    let kw_where = keyword(2);
    let mut valid = true;
    if occurs_at_exec(ub, &kw_delete, 0) {
        if let Some(f) = find_bytes(ub, &kw_from) {
            if f > tlen || tlen - f < 4 || !char_boundary_at(tb, f + 4) {
                valid = false;
            } else {
                if let Some(w) = find_bytes(ub, &kw_where) {
                    if w < f + 4 || w > tlen || tlen - w < 5 || !char_boundary_at(tb, w) || !char_boundary_at(tb, w + 5) {
                        valid = false;
                    }
                }
            }
        }
    }
    if valid {
        Some(DeleteStatement::from_sql(sql))
    } else {
        None
    }
}

impl DeleteStatement {
    #[verifier::rlimit(50)]
    /// Parses `DELETE FROM table [WHERE condition]`, in any letter case: the
    /// table name is trimmed and lower-cased, the condition is the text
    /// after `WHERE`.
    pub fn from_sql(sql: &str) -> (r: Result<Self, DmlError>)
        requires
            delete_cuts_valid(sql@),
        ensures
            delete_outcome(sql@, r),
    {
        let t = trim_str(sql);
        let ts = t.as_str();
        let upper = to_uppercase(ts);
        let us = upper.as_str();
        let ub = us.as_bytes();
        let tb = ts.as_bytes();
        let tlen = tb.len();
        proof {
            assert(ts.spec_bytes() == trimmed_bytes(sql@));
            assert(ub@ == upper_bytes(sql@));
        }
        let kw_delete = keyword(0);
        if !occurs_at_exec(ub, &kw_delete, 0) {
            return Err(DmlError::NotDelete);
        }
        let kw_where = keyword(2);
        let kw_from = keyword(1);
        let where_idx = find_bytes(ub, &kw_where);
        let from_idx = match find_bytes(ub, &kw_from) {
            Some(f) => f,
            None => {
                return Err(DmlError::MissingFrom);
            },
        };
        let end = match where_idx {
            Some(w) => w,
            None => tlen,
        };
        let table_part = byte_slice(ts, from_idx + 4, end);
        let table_name = to_lowercase(trim_str(table_part.as_str()).as_str());
        let where_condition = match where_idx {
            Some(w) => Some(byte_slice(ts, w + 5, tlen)),
            None => None,
        };
        Ok(DeleteStatement { table_name, where_condition })
    }

    /// Deletes every row of the table (a WHERE condition is applied
    /// elsewhere); returns how many there were.
    pub fn execute(&self, table: &mut Table) -> (r: Result<usize, DmlError>)
        ensures
            r == Ok::<usize, DmlError>(old(table).rows.len()),
            final(table).rows@.len() == 0,
            final(table).name == old(table).name,
    {
        let count = table.rows.len();
        table.rows.clear();
        Ok(count)
    }
}


/// The state of the scan that cuts one tuple's text into its fields.
pub struct FieldScan {
    /// The text of the field being read.
    pub current: Seq<char>,
    /// Inside a quoted string.
    pub in_string: bool,
    /// The next character is taken as it is.
    pub escape: bool,
    /// The fields read so far, trimmed.
    pub fields: Seq<Seq<char>>,
}

/// One character of the field scan: a backslash takes the next character as
/// it is, a quote opens or closes a string, and a comma outside a string ends
/// a field; every other character (and the backslash and the quote) is kept.
pub open spec fn field_step(st: FieldScan, c: char) -> FieldScan {
    if st.escape {
        FieldScan { current: st.current.push(c), escape: false, ..st }
    } else if c == '\\' {
        FieldScan { current: st.current.push(c), escape: true, ..st }
    } else if c == '\'' {
        FieldScan { current: st.current.push(c), in_string: !st.in_string, ..st }
    } else if c == ',' && !st.in_string {
        FieldScan { current: Seq::empty(), fields: st.fields.push(trim_ws(st.current)), ..st }
    } else {
        FieldScan { current: st.current.push(c), ..st }
    }
}

/// The field scan after the characters of `s`.
pub open spec fn field_scan(s: Seq<char>) -> FieldScan
    decreases s.len(),
{
    if s.len() == 0 {
        FieldScan { current: Seq::empty(), in_string: false, escape: false, fields: Seq::empty() }
    } else {
        field_step(field_scan(s.drop_last()), s.last())
    }
}

/// The trimmed fields of a tuple's text; a last field that is blank once
/// trimmed is dropped.
pub open spec fn row_fields(row: Seq<char>) -> Seq<Seq<char>> {
    let st = field_scan(row);
    if trim_ws(st.current).len() > 0 {
        st.fields.push(trim_ws(st.current))
    } else {
        st.fields
    }
}

/// The texts of some strings.
pub open spec fn texts(v: Seq<String>) -> Seq<Seq<char>> {
    v.map_values(|s: String| s@)
}

/// Cuts a tuple's text into its trimmed fields (see `row_fields`).
fn split_fields(row: &[char]) -> (r: Vec<String>)
    ensures
        texts(r@) == row_fields(row@),
{
    let mut fields: Vec<String> = Vec::new();
    let mut current: Vec<char> = Vec::new();
    let mut in_string = false;
    let mut escape = false;
    let mut i: usize = 0;
    proof {
        assert(row@.subrange(0, 0) =~= Seq::<char>::empty());
        assert(texts(fields@) =~= Seq::<Seq<char>>::empty());
        assert(current@ =~= Seq::<char>::empty());
    }
    while i < row.len()
        invariant
            i <= row@.len(),
            field_scan(row@.subrange(0, i as int)) == (FieldScan {
                current: current@,
                in_string,
                escape,
                fields: texts(fields@),
            }),
        decreases row@.len() - i,
    {
        let c = row[i];
        proof {
            assert(row@.subrange(0, i + 1).drop_last() =~= row@.subrange(0, i as int));
            assert(row@.subrange(0, i + 1).last() == c);
        }
        if escape {
            current.push(c);
            escape = false;
        } else if c == '\\' {
            current.push(c);
            escape = true;
        } else if c == '\'' {
            current.push(c);
            in_string = !in_string;
        } else if c == ',' && !in_string {
            let field = trim_chars(current.as_slice());
            let ghost before = fields@;
            fields.push(string_from_chars(field.as_slice()));
            proof {
                assert(texts(fields@) =~= texts(before).push(field@));
            }
            current = Vec::new();
        } else {
            current.push(c);
        }
        i += 1;
    }
    proof {
        assert(row@.subrange(0, i as int) =~= row@);
    }
    let last = trim_chars(current.as_slice());
    if last.len() > 0 {
        let ghost before = fields@;
        fields.push(string_from_chars(last.as_slice()));
        proof {
            assert(texts(fields@) =~= texts(before).push(last@));
        }
    }
    fields
}


/// The state of the scan that cuts the text after `VALUES` into tuples.
pub struct TupleScan {
    /// The text gathered for the next tuple.
    pub current: Seq<char>,
    /// Inside a tuple's parentheses.
    pub in_paren: bool,
    /// Inside a quoted string.
    pub in_string: bool,
    /// The next character is taken as it is.
    pub escape: bool,
    /// The fields of the tuples read so far.
    pub rows: Seq<Seq<Seq<char>>>,
}

/// One character of the tuple scan: outside strings, `(` opens a tuple and
/// `)` closes an open one (its text is cut into fields), a comma between
/// tuples is skipped; every other character is gathered, whether inside
/// parentheses or not.
pub open spec fn tuple_step(st: TupleScan, c: char) -> TupleScan {
    if st.escape {
        TupleScan { current: st.current.push(c), escape: false, ..st }
    } else if c == '\\' {
        TupleScan { current: st.current.push(c), escape: true, ..st }
    } else if c == '\'' {
        TupleScan { current: st.current.push(c), in_string: !st.in_string, ..st }
    } else if c == '(' && !st.in_string {
        TupleScan { in_paren: true, ..st }
    } else if c == ')' && !st.in_string {
        if st.in_paren {
            TupleScan { current: Seq::empty(), in_paren: false, rows: st.rows.push(row_fields(st.current)), ..st }
        } else {
            st
        }
    } else if c == ',' && !st.in_string && !st.in_paren {
        st
    } else {
        TupleScan { current: st.current.push(c), ..st }
    }
}

/// The tuple scan after the characters of `s`.
pub open spec fn tuple_scan(s: Seq<char>) -> TupleScan
    decreases s.len(),
{
    if s.len() == 0 {
        TupleScan { current: Seq::empty(), in_paren: false, in_string: false, escape: false, rows: Seq::empty() }
    } else {
        tuple_step(tuple_scan(s.drop_last()), s.last())
    }
}

/// The fields of the tuples of the text after `VALUES`.
pub open spec fn value_rows(s: Seq<char>) -> Seq<Seq<Seq<char>>> {
    tuple_scan(s).rows
}

/// The texts of rows of strings.
pub open spec fn row_texts(v: Seq<Vec<String>>) -> Seq<Seq<Seq<char>>> {
    v.map_values(|r: Vec<String>| texts(r@))
}

/// Cuts the text after `VALUES` into tuples of trimmed fields (see
/// `value_rows`).
fn split_tuples(text: &[char]) -> (r: Vec<Vec<String>>)
    ensures
        row_texts(r@) == value_rows(text@),
{
    let mut rows: Vec<Vec<String>> = Vec::new();
    let mut current: Vec<char> = Vec::new();
    let mut in_paren = false;
    let mut in_string = false;
    let mut escape = false;
    let mut i: usize = 0;
    proof {
        assert(text@.subrange(0, 0) =~= Seq::<char>::empty());
        assert(row_texts(rows@) =~= Seq::<Seq<Seq<char>>>::empty());
        assert(current@ =~= Seq::<char>::empty());
    }
    while i < text.len()
        invariant
            i <= text@.len(),
            tuple_scan(text@.subrange(0, i as int)) == (TupleScan {
                current: current@,
                in_paren,
                in_string,
                escape,
                rows: row_texts(rows@),
            }),
        decreases text@.len() - i,
    {
        let c = text[i];
        proof {
            assert(text@.subrange(0, i + 1).drop_last() =~= text@.subrange(0, i as int));
            assert(text@.subrange(0, i + 1).last() == c);
        }
        if escape {
            current.push(c);
            escape = false;
        } else if c == '\\' {
            current.push(c);
            escape = true;
        } else if c == '\'' {
            current.push(c);
            in_string = !in_string;
        } else if c == '(' && !in_string {
            in_paren = true;
        } else if c == ')' && !in_string {
            if in_paren {
                in_paren = false;
                let fields = split_fields(current.as_slice());
                let ghost before = rows@;
                rows.push(fields);
                proof {
                    assert(row_texts(rows@) =~= row_texts(before).push(row_fields(current@)));
                }
                current = Vec::new();
            }
        } else if c == ',' && !in_string && !in_paren {
        } else {
            current.push(c);
        }
        i += 1;
    }
    proof {
        assert(text@.subrange(0, i as int) =~= text@);
    }
    rows
}

/// The first position of a character in a text, or -1.
#[verifier::opaque]
pub open spec fn char_index(s: Seq<char>, c: char) -> int {
    if exists|i: int| 0 <= i < s.len() && s[i] == c {
        choose|i: int| 0 <= i < s.len() && s[i] == c && forall|j: int| 0 <= j < i ==> s[j] != c
    } else {
        -1
    }
}

/// The first position of a character.
fn find_char(s: &[char], c: char) -> (r: Option<usize>)
    ensures
        match r {
            Some(i) => i == char_index(s@, c) && i < s@.len() && s@[i as int] == c,
            None => char_index(s@, c) == -1,
        },
{
    reveal(char_index);
    let mut i: usize = 0;
    while i < s.len()
        invariant
            i <= s@.len(),
            forall|j: int| 0 <= j < i ==> s@[j] != c,
        decreases s@.len() - i,
    {
        if s[i] == c {
            proof {
                reveal(char_index);
                let f = char_index(s@, c);
                assert(0 <= f < s@.len() && s@[f] == c && forall|j: int| 0 <= j < f ==> s@[j] != c);
                assert(!(f < i) && !(i < f));
            }
            return Some(i);
        }
        i += 1;
    }
    None
}

/// The characters of `s` from `a` to `b`.
pub(crate) fn sub_chars(s: &[char], a: usize, b: usize) -> (r: Vec<char>)
    requires
        a <= b <= s@.len(),
    ensures
        r@ == s@.subrange(a as int, b as int),
{
    let mut r: Vec<char> = Vec::new();
    let mut i: usize = a;
    while i < b
        invariant
            a <= i <= b <= s@.len(),
            r@ == s@.subrange(a as int, i as int),
        decreases b - i,
    {
        r.push(s[i]);
        proof {
            assert(r@ =~= s@.subrange(a as int, i + 1));
        }
        i += 1;
    }
    r
}

/// The column names of an INSERT, lower-cased and trimmed, from the text
/// between the parentheses.
pub open spec fn column_names(list: Seq<char>) -> Seq<Seq<char>> {
    split_on(list, ',').map_values(|c: Seq<char>| lowercase(trim_ws(c)))
}

/// The text between `INSERT INTO` and `VALUES`, trimmed.
pub open spec fn insert_head(sql: Seq<char>) -> Seq<char> {
    let t = trimmed_bytes(sql);
    let v = first_occurrence(upper_bytes(sql), values_bytes());
    trim_ws(text_of(t.subrange(11, v)))
}

/// Whether the cuts of an INSERT statement stay inside it, on character
/// boundaries, with the column list's `(` before its `)` (otherwise the cut
/// is impossible).
pub open spec fn insert_cuts_valid(sql: Seq<char>) -> bool {
    let t = trimmed_bytes(sql);
    let u = upper_bytes(sql);
    let v = first_occurrence(u, values_bytes());
    let h = insert_head(sql);
    starts_with_bytes(u, insert_into_bytes()) && v >= 0 ==> {
        &&& 11 <= v && v + 6 <= t.len()
        &&& boundary(t, 11) && boundary(t, v) && boundary(t, v + 6)
        &&& char_index(h, '(') >= 0 && char_index(h, ')') >= 0 ==> char_index(h, '(') < char_index(h, ')')
    }
}

/// The parts of an INSERT statement, with each value still as its text.
#[derive(Debug, Clone)]
pub struct InsertText {
    pub table_name: String,
    pub columns: Vec<String>,
    pub rows: Vec<Vec<String>>,
}

/// What cutting an INSERT statement gives: `NotInsert` unless the
/// upper-cased trimmed text starts with `INSERT INTO`; `MissingValues`
/// without `VALUES`; `MissingColumnList` or `MissingClosingParen` when the
/// text before `VALUES` lacks `(` or `)`; otherwise the lower-cased table
/// name before `(`, the column names between the parentheses, and the
/// tuples of the text after `VALUES`.
pub open spec fn insert_text_outcome(sql: Seq<char>, r: Result<InsertText, DmlError>) -> bool {
    let t = trimmed_bytes(sql);
    let u = upper_bytes(sql);
    let v = first_occurrence(u, values_bytes());
    let h = insert_head(sql);
    let ps = char_index(h, '(');
    let pe = char_index(h, ')');
    if !starts_with_bytes(u, insert_into_bytes()) {
        r == Err::<InsertText, DmlError>(DmlError::NotInsert)
    } else if v < 0 {
        r == Err::<InsertText, DmlError>(DmlError::MissingValues)
    } else if ps < 0 {
        r == Err::<InsertText, DmlError>(DmlError::MissingColumnList)
    } else if pe < 0 {
        r == Err::<InsertText, DmlError>(DmlError::MissingClosingParen)
    } else {
        &&& r matches Ok(x)
        &&& x.table_name@ == lowercase(trim_ws(h.subrange(0, ps)))
        &&& texts(x.columns@) == column_names(h.subrange(ps + 1, pe))
        &&& row_texts(x.rows@) == value_rows(text_of(t.subrange(v + 6, t.len() as int)))
    }
}

/// Cuts `INSERT INTO table (columns) VALUES (..), (..)` into its parts (see
/// `insert_text_outcome`); the values stay text.
pub fn split_insert(sql: &str) -> (r: Result<InsertText, DmlError>)
    requires
        insert_cuts_valid(sql@),
    ensures
        insert_text_outcome(sql@, r),
{
    let t = trim_str(sql);
    let ts = t.as_str();
    let upper = to_uppercase(ts);
    let us = upper.as_str();
    let ub = us.as_bytes();
    let tb = ts.as_bytes();
    let tlen = tb.len();
    proof {
        assert(tb@ == trimmed_bytes(sql@));
        assert(ub@ == upper_bytes(sql@));
    }
    let kw_insert = keyword(3);
    if !occurs_at_exec(ub, &kw_insert, 0) {
        return Err(DmlError::NotInsert);
    }
    let kw_values = keyword(4);
    let v = match find_bytes(ub, &kw_values) {
        Some(v) => v,
        None => {
            return Err(DmlError::MissingValues);
        },
    };
    let head_text = byte_slice(ts, 11, v);
    let head_chars = chars_of(head_text.as_str());
    let head = trim_chars(head_chars.as_slice());
    let rest_text = byte_slice(ts, v + 6, tlen);
    let rest = chars_of(rest_text.as_str());
    proof {
        assert(head@ == insert_head(sql@));
    }
    let ps = match find_char(head.as_slice(), '(') {
        Some(p) => p,
        None => {
            return Err(DmlError::MissingColumnList);
        },
    };
    let pe = match find_char(head.as_slice(), ')') {
        Some(p) => p,
        None => {
            return Err(DmlError::MissingClosingParen);
        },
    };
    let name_chars = sub_chars(head.as_slice(), 0, ps);
    let name_trimmed = trim_chars(name_chars.as_slice());
    let table_name = to_lowercase(string_from_chars(name_trimmed.as_slice()).as_str());
    let list_chars = sub_chars(head.as_slice(), ps + 1, pe);
    let list = string_from_chars(list_chars.as_slice());
    let pieces = split_chars(list.as_str(), ',');
    let mut columns: Vec<String> = Vec::new();
    let mut i: usize = 0;
    while i < pieces.len()
        invariant
            i <= pieces@.len(),
            pieces_view(pieces@) == split_on(list@, ','),
            columns@.len() == i,
            forall|j: int| 0 <= j < i ==> (#[trigger] columns@[j])@ == lowercase(trim_ws(split_on(list@, ',')[j])),
        decreases pieces@.len() - i,
    {
        let trimmed = trim_chars(pieces[i].as_slice());
        let col = to_lowercase(string_from_chars(trimmed.as_slice()).as_str());
        proof {
            assert(pieces_view(pieces@)[i as int] == pieces@[i as int]@);
        }
        columns.push(col);
        i += 1;
    }
    proof {
        assert(texts(columns@) =~= column_names(list@));
    }
    let rows = split_tuples(rest.as_slice());
    Ok(InsertText { table_name, columns, rows })
}


/// Whether a text is a non-empty run of ASCII digits.
pub open spec fn all_digits(d: Seq<char>) -> bool {
    d.len() > 0 && forall|i: int| 0 <= i < d.len() ==> '0' <= #[trigger] d[i] <= '9'
}

/// The number that a run of ASCII digits writes.
pub open spec fn digits_value(d: Seq<char>) -> int
    decreases d.len(),
{
    if d.len() == 0 {
        0
    } else {
        10 * digits_value(d.drop_last()) + (d.last() as int - '0' as int)
    }
}

/// The 64-bit integer that a text writes as `i64::from_str` reads it: an
/// optional sign and ASCII digits, in range.
pub open spec fn i64_text(t: Seq<char>) -> Option<i64> {
    let neg = t.len() > 0 && t[0] == '-';
    let d = if t.len() > 0 && (t[0] == '-' || t[0] == '+') {
        t.drop_first()
    } else {
        t
    };
    let v = if neg {
        -digits_value(d)
    } else {
        digits_value(d)
    };
    if all_digits(d) && i64::MIN <= v <= i64::MAX {
        Some(v as i64)
    } else {
        None
    }
}

/// A prefix of a run of digits writes no more than the whole run.
pub(crate) proof fn lemma_digits_prefix(d: Seq<char>, k: int)
    requires
        0 <= k <= d.len(),
        forall|i: int| 0 <= i < d.len() ==> '0' <= #[trigger] d[i] <= '9',
    ensures
        0 <= digits_value(d.subrange(0, k)) <= digits_value(d),
    decreases d.len(),
{
    if k < d.len() {
        assert(d.drop_last().subrange(0, k) =~= d.subrange(0, k));
        lemma_digits_prefix(d.drop_last(), k);
    } else {
        assert(d.subrange(0, k) =~= d);
        if d.len() > 0 {
            lemma_digits_prefix(d.drop_last(), d.len() - 1);
            assert(d.drop_last().subrange(0, d.len() - 1) =~= d.drop_last());
        }
    }
}

/// Reads a 64-bit integer as `i64::from_str` does (see `i64_text`).
pub fn parse_i64(t: &[char]) -> (r: Option<i64>)
    ensures
        r == i64_text(t@),
{
    let n = t.len();
    let neg = n > 0 && t[0] == '-';
    let start: usize = if n > 0 && (t[0] == '-' || t[0] == '+') {
        1
    } else {
        0
    };
    let ghost d = if t@.len() > 0 && (t@[0] == '-' || t@[0] == '+') {
        t@.drop_first()
    } else {
        t@
    };
    proof {
        assert(d =~= t@.subrange(start as int, n as int));
    }
    if start == n {
        return None;
    }
    let limit: u64 = if neg {
        0x8000_0000_0000_0000
    } else {
        0x7fff_ffff_ffff_ffff
    };
    let mut acc: u64 = 0;
    let mut i: usize = start;
    while i < n
        invariant
            start <= i <= n == t@.len(),
            start < n,
            d == t@.subrange(start as int, n as int),
            d == (if t@.len() > 0 && (t@[0] == '-' || t@[0] == '+') {
                t@.drop_first()
            } else {
                t@
            }),
            neg == (t@.len() > 0 && t@[0] == '-'),
            acc <= limit,
            limit == if neg { 0x8000_0000_0000_0000u64 } else { 0x7fff_ffff_ffff_ffffu64 },
            forall|j: int| start <= j < i ==> '0' <= #[trigger] t@[j] <= '9',
            acc == digits_value(t@.subrange(start as int, i as int)),
        decreases n - i,
    {
        let c = t[i];
        proof {
            assert(t@.subrange(start as int, i + 1).drop_last() =~= t@.subrange(start as int, i as int));
        }
        if !('0' <= c && c <= '9') {
            proof {
                assert(d[i - start] == c);
                assert(!('0' <= d[i - start] <= '9'));
                assert(!all_digits(d));
            }
            return None;
        }
        let digit = (c as u32 - '0' as u32) as u64;
        if acc > (limit - digit) / 10 {
            proof {
                assert(digits_value(t@.subrange(start as int, i + 1)) == 10 * acc + digit);
                assert(10 * acc + digit > limit) by (nonlinear_arith)
                    requires
                        acc > (limit - digit) / 10,
                        digit <= 9,
                        limit >= 9,
                ;
                if all_digits(d) {
                    lemma_digits_prefix(d, i + 1 - start);
                    assert(d.subrange(0, i + 1 - start) =~= t@.subrange(start as int, i + 1));
                    assert(digits_value(d) > limit);
                    if neg {
                        assert(-digits_value(d) < i64::MIN);
                    }
                }
            }
            return None;
        }
        acc = acc * 10 + digit;
        i += 1;
    }
    proof {
        assert(t@.subrange(start as int, n as int) =~= d);
        assert(all_digits(d));
    }
    if neg {
        if acc == 0x8000_0000_0000_0000 {
            Some(i64::MIN)
        } else {
            Some(-(acc as i64))
        }
    } else {
        Some(acc as i64)
    }
}


/// What a value's text stands for: NULL (in any case), a quoted string
/// (without its quotes), a 64-bit integer, the float that the text parses to
/// (`float_bits`: the bit pattern of the `f64` that the trimmed text parses
/// to, if it does), TRUE or FALSE (in any case), and otherwise the text
/// itself, trimmed.
pub open spec fn literal_model(text: Seq<char>, float_bits: Option<u64>) -> ValueModel {
    let t = trim_ws(text);
    if uppercase(t) == "NULL"@ {
        ValueModel::Null
    } else if t.len() > 0 && t[0] == '\'' && t.last() == '\'' {
        ValueModel::Str(t.subrange(1, t.len() - 1))
    } else if i64_text(t) is Some {
        ValueModel::Integer(i64_text(t)->0)
    } else if float_bits is Some {
        ValueModel::Float(float_bits->0)
    } else if uppercase(t) == "TRUE"@ {
        ValueModel::Boolean(true)
    } else if uppercase(t) == "FALSE"@ {
        ValueModel::Boolean(false)
    } else {
        ValueModel::Str(t)
    }
}

/// Whether a value's text can be read: a text that is a lone quote once
/// trimmed cannot.
pub open spec fn literal_readable(text: Seq<char>) -> bool {
    trim_ws(text) != seq!['\'']
}

/// The value a text stands for (see `literal_model`); `float_bits` is what
/// parsing the trimmed text as an `f64` gave, as a bit pattern.
pub fn literal_value(text: &str, float_bits: Option<u64>) -> (v: Value)
    requires
        literal_readable(text@),
    ensures
        v@ == literal_model(text@, float_bits),
{
    let chars = chars_of(text);
    let t = trim_chars(chars.as_slice());
    let ts = string_from_chars(t.as_slice());
    let up = to_uppercase(ts.as_str());
    if str_eq(up.as_str(), "NULL") {
        return Value::Null;
    }
    let n = t.len();
    if n > 0 && t[0] == '\'' && t[n - 1] == '\'' {
        proof {
            if n == 1 {
                assert(t@ =~= seq!['\'']);
            }
        }
        let inner = sub_chars(t.as_slice(), 1, n - 1);
        return Value::String(string_from_chars(inner.as_slice()));
    }
    if let Some(i) = parse_i64(t.as_slice()) {
        return Value::Integer(i);
    }
    if let Some(bits) = float_bits {
        return Value::Float(bits);
    }
    if str_eq(up.as_str(), "TRUE") {
        return Value::Boolean(true);
    }
    if str_eq(up.as_str(), "FALSE") {
        return Value::Boolean(false);
    }
    Value::String(ts)
}

/// A parsed INSERT statement.
#[derive(Debug, Clone)]
pub struct InsertStatement {
    pub table_name: String,
    pub columns: Vec<String>,
    pub values: Vec<Vec<Value>>,
}

/// Whether `bits` has a float result for every value text of `rows`.
pub open spec fn bits_fit(rows: Seq<Vec<String>>, bits: Seq<Vec<Option<u64>>>) -> bool {
    &&& bits.len() == rows.len()
    &&& forall|i: int| 0 <= i < rows.len() ==> (#[trigger] bits[i])@.len() == rows[i]@.len()
}

impl InsertStatement {
    /// The statement whose values are those the texts stand for, with the
    /// float parse of each text given in `float_bits` (same shape as the
    /// rows).
    pub fn from_parts(parts: InsertText, float_bits: &Vec<Vec<Option<u64>>>) -> (s: Self)
        requires
            bits_fit(parts.rows@, float_bits@),
            forall|i: int, j: int|
                0 <= i < parts.rows@.len() && 0 <= j < parts.rows@[i]@.len() ==> literal_readable(
                    (#[trigger] parts.rows@[i]@[j])@,
                ),
        ensures
            s.table_name == parts.table_name,
            s.columns == parts.columns,
            s.values@.len() == parts.rows@.len(),
            forall|i: int| 0 <= i < s.values@.len() ==> (#[trigger] s.values@[i])@.len() == parts.rows@[i]@.len(),
            forall|i: int, j: int|
                0 <= i < s.values@.len() && 0 <= j < s.values@[i]@.len() ==> (#[trigger] s.values@[i]@[j])@
                    == literal_model(parts.rows@[i]@[j]@, float_bits@[i]@[j]),
    {
        let mut values: Vec<Vec<Value>> = Vec::new();
        let mut i: usize = 0;
        while i < parts.rows.len()
            invariant
                i <= parts.rows@.len(),
                bits_fit(parts.rows@, float_bits@),
                forall|a: int, b: int|
                    0 <= a < parts.rows@.len() && 0 <= b < parts.rows@[a]@.len() ==> literal_readable(
                        (#[trigger] parts.rows@[a]@[b])@,
                    ),
                values@.len() == i,
                forall|a: int| 0 <= a < i ==> (#[trigger] values@[a])@.len() == parts.rows@[a]@.len(),
                forall|a: int, b: int|
                    0 <= a < i && 0 <= b < values@[a]@.len() ==> (#[trigger] values@[a]@[b])@ == literal_model(
                        parts.rows@[a]@[b]@,
                        float_bits@[a]@[b],
                    ),
            decreases parts.rows@.len() - i,
        {
            let texts_row = &parts.rows[i];
            let bits_row = &float_bits[i];
            proof {
                assert(bits_row@.len() == texts_row@.len());
            }
            let mut row: Vec<Value> = Vec::new();
            let mut j: usize = 0;
            while j < texts_row.len()
                invariant
                    j <= texts_row@.len(),
                    texts_row == parts.rows@[i as int],
                    bits_row == float_bits@[i as int],
                    bits_row@.len() == texts_row@.len(),
                    forall|b: int| 0 <= b < texts_row@.len() ==> literal_readable((#[trigger] texts_row@[b])@),
                    row@.len() == j,
                    forall|b: int| 0 <= b < j ==> (#[trigger] row@[b])@ == literal_model(texts_row@[b]@, bits_row@[b]),
                decreases texts_row@.len() - j,
            {
                proof {
                    assert(literal_readable(parts.rows@[i as int]@[j as int]@));
                }
                row.push(literal_value(texts_row[j].as_str(), bits_row[j]));
                j += 1;
            }
            values.push(row);
            i += 1;
        }
        InsertStatement { table_name: parts.table_name, columns: parts.columns, values }
    }
}


/// The row that pairs the first `n` column names with the first `n`
/// values, a later name winning over an earlier equal one.
pub open spec fn zipped_row(cols: Seq<String>, vals: Seq<ValueModel>, n: int) -> Map<Seq<char>, ValueModel>
    decreases n,
{
    if n <= 0 {
        Map::empty()
    } else {
        zipped_row(cols, vals, n - 1).insert(cols[n - 1]@, vals[n - 1])
    }
}

/// The views of some values.
pub open spec fn models(v: Seq<Value>) -> Seq<ValueModel> {
    v.map_values(|x: Value| x@)
}

impl InsertStatement {
    /// Appends a row per tuple, each pairing the columns with the tuple's
    /// values; stops with `ColumnCountMismatch` at the first tuple whose
    /// length differs from the number of columns (the tuples before it stay
    /// inserted). Returns how many rows were inserted.
    pub fn execute(&self, table: &mut Table) -> (r: Result<usize, DmlError>)
        ensures
            final(table).name == old(table).name,
            forall|i: int| 0 <= i < old(table).rows@.len() ==> (#[trigger] final(table).rows@[i]) == old(table).rows@[i],
            forall|i: int|
                old(table).rows@.len() <= i < final(table).rows@.len() ==> (#[trigger] final(table).rows@[i])@
                    == zipped_row(
                    self.columns@,
                    models(self.values@[i - old(table).rows@.len()]@),
                    self.columns@.len() as int,
                ),
            match r {
                Ok(n) => {
                    &&& n == self.values@.len()
                    &&& forall|i: int| 0 <= i < self.values@.len() ==> (#[trigger] self.values@[i])@.len() == self.columns@.len()
                    &&& final(table).rows@.len() == old(table).rows@.len() + n
                },
                Err(e) => exists|k: int|
                    {
                        &&& 0 <= k < self.values@.len()
                        &&& (#[trigger] self.values@[k])@.len() != self.columns@.len()
                        &&& forall|i: int| 0 <= i < k ==> (#[trigger] self.values@[i])@.len() == self.columns@.len()
                        &&& e == DmlError::ColumnCountMismatch {
                            expected: self.columns@.len() as usize,
                            got: self.values@[k]@.len() as usize,
                        }
                        &&& final(table).rows@.len() == old(table).rows@.len() + k
                    },
            },
    {
        let ghost old_len = table.rows@.len();
        let width = self.columns.len();
        let mut i: usize = 0;
        while i < self.values.len()
            invariant
                i <= self.values@.len(),
                width == self.columns@.len(),
                table.name == old(table).name,
                old_len == old(table).rows@.len(),
                table.rows@.len() == old_len + i,
                forall|a: int| 0 <= a < old_len ==> (#[trigger] table.rows@[a]) == old(table).rows@[a],
                forall|a: int|
                    old_len <= a < table.rows@.len() ==> (#[trigger] table.rows@[a])@ == zipped_row(
                        self.columns@,
                        models(self.values@[a - old_len]@),
                        width as int,
                    ),
                forall|a: int| 0 <= a < i ==> (#[trigger] self.values@[a])@.len() == width,
            decreases self.values@.len() - i,
        {
            let vals = &self.values[i];
            if vals.len() != width {
                return Err(DmlError::ColumnCountMismatch { expected: width, got: vals.len() });
            }
            let mut row = Row::new(RecordId::new());
            let mut j: usize = 0;
            while j < width
                invariant
                    j <= width == self.columns@.len() == vals@.len(),
                    vals == self.values@[i as int],
                    row@ == zipped_row(self.columns@, models(vals@), j as int),
                decreases width - j,
            {
                let name = owned(self.columns[j].as_str());
                row.insert(name, vals[j].duplicate());
                j += 1;
            }
            let ghost before = table.rows@;
            table.insert(row);
            proof {
                assert forall|a: int| old_len <= a < table.rows@.len() implies (#[trigger] table.rows@[a])@ == zipped_row(
                    self.columns@,
                    models(self.values@[a - old_len]@),
                    width as int,
                ) by {
                    if a < before.len() {
                        assert(table.rows@[a] == before[a]);
                    }
                }
            }
            i += 1;
        }
        Ok(i)
    }
}


/// Whether every SET clause is one `column = value`.
pub open spec fn clauses_well_formed(set_part: Seq<char>) -> bool {
    forall|i: int| 0 <= i < split_on(set_part, ',').len() ==> split_on(#[trigger] split_on(set_part, ',')[i], '=').len() == 2
}

/// The trimmed text between `SET` and `WHERE` (or the end).
pub open spec fn update_set_part(sql: Seq<char>) -> Seq<char> {
    let t = trimmed_bytes(sql);
    let u = upper_bytes(sql);
    let s = first_occurrence(u, set_bytes());
    let w = first_occurrence(u, where_bytes());
    trim_ws(text_of(t.subrange(s + 3, if w >= 0 { w } else { t.len() as int })))
}

/// Whether the cuts of an UPDATE statement stay inside it and on character
/// boundaries, with `WHERE` after `SET` (otherwise the cut is impossible);
/// the cut after `WHERE` is made only when the SET clauses are well formed.
pub open spec fn update_cuts_valid(sql: Seq<char>) -> bool {
    let t = trimmed_bytes(sql);
    let u = upper_bytes(sql);
    let s = first_occurrence(u, set_bytes());
    let w = first_occurrence(u, where_bytes());
    starts_with_bytes(u, update_bytes()) && s >= 0 ==> {
        &&& 6 <= s && s + 3 <= t.len()
        &&& boundary(t, 6) && boundary(t, s) && boundary(t, s + 3)
        &&& w >= 0 ==> s + 3 <= w <= t.len() && boundary(t, w)
        &&& w >= 0 && clauses_well_formed(update_set_part(sql)) ==> w + 5 <= t.len() && boundary(t, w + 5)
    }
}

/// The parts of an UPDATE statement, with each value still as its text.
#[derive(Debug, Clone)]
pub struct UpdateText {
    pub table_name: String,
    pub assignments: Vec<(String, String)>,
    pub where_condition: Option<String>,
}

/// The texts of column/value pairs.
pub open spec fn pair_texts(v: Seq<(String, String)>) -> Seq<(Seq<char>, Seq<char>)> {
    v.map_values(|p: (String, String)| (p.0@, p.1@))
}

/// The column and value texts of SET clauses: the column lower-cased and
/// trimmed, the value trimmed.
pub open spec fn assignment_texts(set_part: Seq<char>) -> Seq<(Seq<char>, Seq<char>)> {
    split_on(set_part, ',').map_values(
        |c: Seq<char>| (lowercase(trim_ws(split_on(c, '=')[0])), trim_ws(split_on(c, '=')[1])),
    )
}

/// What cutting an UPDATE statement gives: `NotUpdate` unless the
/// upper-cased trimmed text starts with `UPDATE`; `MissingSet` without
/// `SET`; `InvalidSetClause` when a comma-separated clause is not one
/// `column = value`; otherwise the lower-cased table name before `SET`, the
/// clauses, and the text after `WHERE` as the condition.
pub open spec fn update_text_outcome(sql: Seq<char>, r: Result<UpdateText, DmlError>) -> bool {
    let t = trimmed_bytes(sql);
    let u = upper_bytes(sql);
    let s = first_occurrence(u, set_bytes());
    let w = first_occurrence(u, where_bytes());
    if !starts_with_bytes(u, update_bytes()) {
        r == Err::<UpdateText, DmlError>(DmlError::NotUpdate)
    } else if s < 0 {
        r == Err::<UpdateText, DmlError>(DmlError::MissingSet)
    } else if !clauses_well_formed(update_set_part(sql)) {
        r == Err::<UpdateText, DmlError>(DmlError::InvalidSetClause)
    } else {
        &&& r matches Ok(x)
        &&& x.table_name@ == lowercase(trim_ws(text_of(t.subrange(6, s))))
        &&& pair_texts(x.assignments@) == assignment_texts(update_set_part(sql))
        &&& w >= 0 ==> (x.where_condition matches Some(c) && c@ == text_of(t.subrange(w + 5, t.len() as int)))
        &&& w < 0 ==> x.where_condition is None
    }
}

/// Cuts `UPDATE table SET col = val, .. [WHERE condition]` into its parts
/// (see `update_text_outcome`); the values stay text.
pub fn split_update(sql: &str) -> (r: Result<UpdateText, DmlError>)
    requires
        update_cuts_valid(sql@),
    ensures
        update_text_outcome(sql@, r),
{
    let t = trim_str(sql);
    let ts = t.as_str();
    let upper = to_uppercase(ts);
    let us = upper.as_str();
    let ub = us.as_bytes();
    let tb = ts.as_bytes();
    let tlen = tb.len();
    proof {
        assert(tb@ == trimmed_bytes(sql@));
        assert(ub@ == upper_bytes(sql@));
    }
    let kw_update = keyword(5);
    if !occurs_at_exec(ub, &kw_update, 0) {
        return Err(DmlError::NotUpdate);
    }
    let kw_set = keyword(6);
    let s = match find_bytes(ub, &kw_set) {
        Some(s) => s,
        None => {
            return Err(DmlError::MissingSet);
        },
    };
    let name_text = byte_slice(ts, 6, s);
    let table_name = to_lowercase(trim_str(name_text.as_str()).as_str());
    let kw_where = keyword(2);
    let where_idx = find_bytes(ub, &kw_where);
    let end = match where_idx {
        Some(w) => w,
        None => tlen,
    };
    let set_text = byte_slice(ts, s + 3, end);
    let set_part = trim_str(set_text.as_str());
    proof {
        assert(set_part@ == update_set_part(sql@));
    }
    let clauses = split_chars(set_part.as_str(), ',');
    let mut assignments: Vec<(String, String)> = Vec::new();
    let mut i: usize = 0;
    while i < clauses.len()
        invariant
            i <= clauses@.len(),
            pieces_view(clauses@) == split_on(set_part@, ','),
            set_part@ == update_set_part(sql@),
            starts_with_bytes(upper_bytes(sql@), update_bytes()),
            first_occurrence(upper_bytes(sql@), set_bytes()) >= 0,
            assignments@.len() == i,
            forall|j: int| 0 <= j < i ==> split_on(#[trigger] split_on(set_part@, ',')[j], '=').len() == 2,
            forall|j: int| 0 <= j < i ==> (#[trigger] pair_texts(assignments@)[j]) == assignment_texts(set_part@)[j],
        decreases clauses@.len() - i,
    {
        proof {
            assert(pieces_view(clauses@)[i as int] == clauses@[i as int]@);
        }
        let clause = string_from_chars(clauses[i].as_slice());
        let parts = split_chars(clause.as_str(), '=');
        if parts.len() != 2 {
            proof {
                assert(pieces_view(parts@).len() == parts@.len());
                assert(split_on(split_on(set_part@, ',')[i as int], '=').len() != 2);
                assert(!clauses_well_formed(set_part@));
            }
            return Err(DmlError::InvalidSetClause);
        }
        proof {
            assert(pieces_view(parts@)[0] == parts@[0]@);
            assert(pieces_view(parts@)[1] == parts@[1]@);
        }
        let col_chars = trim_chars(parts[0].as_slice());
        let col = to_lowercase(string_from_chars(col_chars.as_slice()).as_str());
        let val_chars = trim_chars(parts[1].as_slice());
        let val = string_from_chars(val_chars.as_slice());
        let ghost before = assignments@;
        assignments.push((col, val));
        proof {
            assert forall|j: int| 0 <= j < i + 1 implies (#[trigger] pair_texts(assignments@)[j]) == assignment_texts(set_part@)[j] by {
                if j < i {
                    assert(pair_texts(assignments@)[j] == pair_texts(before)[j]);
                }
            }
        }
        i += 1;
    }
    proof {
        assert(pair_texts(assignments@) =~= assignment_texts(set_part@));
        assert(clauses_well_formed(set_part@));
    }
    let where_condition = match where_idx {
        Some(w) => Some(byte_slice(ts, w + 5, tlen)),
        None => None,
    };
    Ok(UpdateText { table_name, assignments, where_condition })
}


/// A parsed UPDATE statement.
#[derive(Debug, Clone)]
pub struct UpdateStatement {
    pub table_name: String,
    pub set_clauses: Vec<(String, Value)>,
    pub where_condition: Option<String>,
}

/// A row's map after setting the first `n` columns of `clauses`, in order.
pub open spec fn assigned(m: Map<Seq<char>, ValueModel>, clauses: Seq<(String, Value)>, n: int) -> Map<
    Seq<char>,
    ValueModel,
>
    decreases n,
{
    if n <= 0 {
        m
    } else {
        assigned(m, clauses, n - 1).insert(clauses[n - 1].0@, clauses[n - 1].1@)
    }
}

impl UpdateStatement {
    /// The statement whose values are those the texts stand for, with the
    /// float parse of each value text given in `float_bits`.
    pub fn from_parts(parts: UpdateText, float_bits: &Vec<Option<u64>>) -> (s: Self)
        requires
            float_bits@.len() == parts.assignments@.len(),
            forall|i: int| 0 <= i < parts.assignments@.len() ==> literal_readable((#[trigger] parts.assignments@[i]).1@),
        ensures
            s.table_name == parts.table_name,
            s.where_condition == parts.where_condition,
            s.set_clauses@.len() == parts.assignments@.len(),
            forall|i: int| 0 <= i < s.set_clauses@.len() ==> {
                &&& (#[trigger] s.set_clauses@[i]).0@ == parts.assignments@[i].0@
                &&& s.set_clauses@[i].1@ == literal_model(parts.assignments@[i].1@, float_bits@[i])
            },
    {
        let mut set_clauses: Vec<(String, Value)> = Vec::new();
        let mut i: usize = 0;
        while i < parts.assignments.len()
            invariant
                i <= parts.assignments@.len() == float_bits@.len(),
                forall|a: int| 0 <= a < parts.assignments@.len() ==> literal_readable((#[trigger] parts.assignments@[a]).1@),
                set_clauses@.len() == i,
                forall|a: int| 0 <= a < i ==> {
                    &&& (#[trigger] set_clauses@[a]).0@ == parts.assignments@[a].0@
                    &&& set_clauses@[a].1@ == literal_model(parts.assignments@[a].1@, float_bits@[a])
                },
            decreases parts.assignments@.len() - i,
        {
            let pair = &parts.assignments[i];
            proof {
                assert(literal_readable(parts.assignments@[i as int].1@));
            }
            let v = literal_value(pair.1.as_str(), float_bits[i]);
            set_clauses.push((owned(pair.0.as_str()), v));
            i += 1;
        }
        UpdateStatement { table_name: parts.table_name, set_clauses, where_condition: parts.where_condition }
    }

    /// Sets the clauses' columns on every row of the table (a WHERE
    /// condition is applied elsewhere); returns the number of rows.
    pub fn execute(&self, table: &mut Table, where_condition: Option<&str>) -> (r: Result<usize, DmlError>)
        ensures
            r == Ok::<usize, DmlError>(old(table).rows.len()),
            final(table).name == old(table).name,
            final(table).rows@.len() == old(table).rows@.len(),
            forall|i: int| 0 <= i < final(table).rows@.len() ==> {
                &&& (#[trigger] final(table).rows@[i])@ == assigned(
                    old(table).rows@[i]@,
                    self.set_clauses@,
                    self.set_clauses@.len() as int,
                )
                &&& final(table).rows@[i].id == old(table).rows@[i].id
            },
    {
        let mut updated: Vec<Row> = Vec::new();
        let n = table.rows.len();
        let mut i: usize = 0;
        while i < n
            invariant
                i <= n == table.rows@.len(),
                table.rows@ == old(table).rows@,
                table.name == old(table).name,
                updated@.len() == i,
                forall|a: int| 0 <= a < i ==> {
                    &&& (#[trigger] updated@[a])@ == assigned(
                        old(table).rows@[a]@,
                        self.set_clauses@,
                        self.set_clauses@.len() as int,
                    )
                    &&& updated@[a].id == old(table).rows@[a].id
                },
            decreases n - i,
        {
            let mut row = table.rows[i].duplicate();
            let mut j: usize = 0;
            while j < self.set_clauses.len()
                invariant
                    j <= self.set_clauses@.len(),
                    i < n == table.rows@.len(),
                    table.rows@ == old(table).rows@,
                    row@ == assigned(old(table).rows@[i as int]@, self.set_clauses@, j as int),
                    row.id == old(table).rows@[i as int].id,
                decreases self.set_clauses@.len() - j,
            {
                let clause = &self.set_clauses[j];
                row.insert(owned(clause.0.as_str()), clause.1.duplicate());
                j += 1;
            }
            updated.push(row);
            i += 1;
        }
        table.rows = updated;
        Ok(n)
    }
}


/// Whether every SET clause of a text is one `column = value`.
fn clauses_ok(set_part: &str) -> (b: bool)
    ensures
        b == clauses_well_formed(set_part@),
{
    let clauses = split_chars(set_part, ',');
    let mut i: usize = 0;
    while i < clauses.len()
        invariant
            i <= clauses@.len(),
            pieces_view(clauses@) == split_on(set_part@, ','),
            forall|j: int| 0 <= j < i ==> split_on(#[trigger] split_on(set_part@, ',')[j], '=').len() == 2,
        decreases clauses@.len() - i,
    {
        proof {
            assert(pieces_view(clauses@)[i as int] == clauses@[i as int]@);
        }
        let clause = string_from_chars(clauses[i].as_slice());
        let parts = split_chars(clause.as_str(), '=');
        if parts.len() != 2 {
            proof {
                assert(pieces_view(parts@).len() == parts@.len());
            }
            return false;
        }
        i += 1;
    }
    true
}

/// Cuts an INSERT statement where that can be done: `None` when a cut
/// would fall outside the text or inside a character (upper-casing changed
/// byte lengths) or the column list's `)` comes before its `(`; otherwise
/// the result of `split_insert`.
pub fn parse_insert_parts(sql: &str) -> (r: Option<Result<InsertText, DmlError>>)
    ensures
        r is None <==> !insert_cuts_valid(sql@),
        r matches Some(x) ==> insert_text_outcome(sql@, x),
{
    broadcast use vstd::utf8::encode_utf8_valid_utf8;

    let t = trim_str(sql);
    let ts = t.as_str();
    let upper = to_uppercase(ts);
    let us = upper.as_str();
    let ub = us.as_bytes();
    let tb = ts.as_bytes();
    let tlen = tb.len();
    proof {
        assert(tb@ == trimmed_bytes(sql@));
        assert(ub@ == upper_bytes(sql@));
        assert(vstd::utf8::valid_utf8(encode_utf8_of(ts@)));
    }
    let kw_insert = keyword(3);
    let kw_values = keyword(4);
    let mut valid = true;
    if occurs_at_exec(ub, &kw_insert, 0) {
        if let Some(v) = find_bytes(ub, &kw_values) {
            if v < 11 || v > tlen || tlen - v < 6 || !char_boundary_at(tb, 11) || !char_boundary_at(tb, v)
                || !char_boundary_at(tb, v + 6) {
                valid = false;
            } else {
                let head_text = byte_slice(ts, 11, v);
                let head_chars = chars_of(head_text.as_str());
                let head = trim_chars(head_chars.as_slice());
                proof {
                    assert(head@ == insert_head(sql@));
                }
                if let Some(ps) = find_char(head.as_slice(), '(') {
                    if let Some(pe) = find_char(head.as_slice(), ')') {
                        if ps >= pe {
                            valid = false;
                        }
                    }
                }
            }
        }
    }
    if valid {
        Some(split_insert(sql))
    } else {
        None
    }
}

/// Cuts an UPDATE statement where that can be done: `None` when a cut
/// would fall outside the text or inside a character (upper-casing changed
/// byte lengths) or `WHERE` comes before the end of `SET`; otherwise the
/// result of `split_update`.
pub fn parse_update_parts(sql: &str) -> (r: Option<Result<UpdateText, DmlError>>)
    ensures
        r is None <==> !update_cuts_valid(sql@),
        r matches Some(x) ==> update_text_outcome(sql@, x),
{
    broadcast use vstd::utf8::encode_utf8_valid_utf8;

    let t = trim_str(sql);
    let ts = t.as_str();
    let upper = to_uppercase(ts);
    let us = upper.as_str();
    let ub = us.as_bytes();
    let tb = ts.as_bytes();
    let tlen = tb.len();
    proof {
        assert(tb@ == trimmed_bytes(sql@));
        assert(ub@ == upper_bytes(sql@));
        assert(vstd::utf8::valid_utf8(encode_utf8_of(ts@)));
    }
    let kw_update = keyword(5);
    let kw_set = keyword(6);
    let kw_where = keyword(2);
    let mut valid = true;
    if occurs_at_exec(ub, &kw_update, 0) {
        if let Some(s) = find_bytes(ub, &kw_set) {
            let where_idx = find_bytes(ub, &kw_where);
            if s < 6 || s > tlen || tlen - s < 3 || !char_boundary_at(tb, 6) || !char_boundary_at(tb, s)
                || !char_boundary_at(tb, s + 3) {
                valid = false;
            } else {
                match where_idx {
                    Some(w) => {
                        if w < s + 3 || w > tlen || !char_boundary_at(tb, w) {
                            valid = false;
                        } else {
                            let set_text = byte_slice(ts, s + 3, w);
                            let set_part = trim_str(set_text.as_str());
                            proof {
                                assert(set_part@ == update_set_part(sql@));
                            }
                            if clauses_ok(set_part.as_str()) {
                                if tlen - w < 5 || !char_boundary_at(tb, w + 5) {
                                    valid = false;
                                }
                            }
                        }
                    },
                    None => {},
                }
            }
        }
    }
    if valid {
        Some(split_update(sql))
    } else {
        None
    }
}


/// An UPDATE sets each column it names to the value of the last clause
/// naming it, and leaves every other column as it was.
pub proof fn lemma_update_sets_columns(
    m: Map<Seq<char>, ValueModel>,
    clauses: Seq<(String, Value)>,
    n: int,
    col: Seq<char>,
)
    requires
        0 <= n <= clauses.len(),
    ensures
        forall|j: int|
            0 <= j < n && clauses[j].0@ == col && (forall|k: int| j < k < n ==> (#[trigger] clauses[k]).0@ != col)
                ==> assigned(m, clauses, n).contains_key(col) && assigned(m, clauses, n)[col] == (#[trigger] clauses[j]).1@,
        (forall|j: int| 0 <= j < n ==> (#[trigger] clauses[j]).0@ != col) ==> (assigned(m, clauses, n).contains_key(col)
            == m.contains_key(col) && (m.contains_key(col) ==> assigned(m, clauses, n)[col] == m[col])),
    decreases n,
{
    if n > 0 {
        lemma_update_sets_columns(m, clauses, n - 1, col);
        assert forall|j: int|
            0 <= j < n && clauses[j].0@ == col && (forall|k: int| j < k < n ==> (#[trigger] clauses[k]).0@ != col)
                implies assigned(m, clauses, n).contains_key(col) && assigned(m, clauses, n)[col] == (#[trigger] clauses[j]).1@ by {
            if j < n - 1 {
                assert(clauses[n - 1].0@ != col);
            }
        }
    }
}

/// An INSERT row holds, under the name of column `j`, the value paired with
/// it when no later column has the same name; a name that no column has is
/// absent from the row.
pub proof fn lemma_insert_pairs_columns(cols: Seq<String>, vals: Seq<ValueModel>, n: int, j: int)
    requires
        0 <= j < n <= cols.len(),
        n <= vals.len(),
        forall|k: int| j < k < n ==> (#[trigger] cols[k])@ != cols[j]@,
    ensures
        zipped_row(cols, vals, n).contains_key(cols[j]@),
        zipped_row(cols, vals, n)[cols[j]@] == vals[j],
    decreases n,
{
    if j < n - 1 {
        assert(cols[n - 1]@ != cols[j]@);
        lemma_insert_pairs_columns(cols, vals, n - 1, j);
    }
}

/// A name that none of the first `n` columns has is absent from the row.
pub proof fn lemma_insert_only_listed_columns(cols: Seq<String>, vals: Seq<ValueModel>, n: int, col: Seq<char>)
    requires
        0 <= n <= cols.len(),
        forall|k: int| 0 <= k < n ==> (#[trigger] cols[k])@ != col,
    ensures
        !zipped_row(cols, vals, n).contains_key(col),
    decreases n,
{
    if n > 0 {
        lemma_insert_only_listed_columns(cols, vals, n - 1, col);
    }
}

} // verus!
