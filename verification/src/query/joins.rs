//! Joins: join types, join conditions of the form `table.column =
//! table.column`, and the inner, left, right and full joins of two row sets.

use vstd::prelude::*;
use crate::types::{RecordId, Row, Value, ValueModel, value_eq};
use crate::text::{split_chars, split_on, trim_chars, trim_ws, pieces_view};
use crate::util::{str_eq, string_from_chars, to_lowercase, lowercase, to_uppercase, uppercase};

verus! {

/// The join types.
#[derive(Debug, Clone, Copy, PartialEq, Eq, Structural)]
pub enum JoinType {
    Inner,
    Left,
    Right,
    Full,
}

/// The join type named by an upper-case name.
pub open spec fn join_type_named(upper: Seq<char>) -> Option<JoinType> {
    if upper == "INNER"@ {
        Some(JoinType::Inner)
    } else if upper == "LEFT"@ {
        Some(JoinType::Left)
    } else if upper == "RIGHT"@ {
        Some(JoinType::Right)
    } else if upper == "FULL"@ {
        Some(JoinType::Full)
    } else {
        None
    }
}

impl JoinType {
    /// The join type named `s`, in any letter case.
    pub fn from_str(s: &str) -> (r: Option<Self>)
        ensures
            r == join_type_named(uppercase(s@)),
    {
        let u = to_uppercase(s);
        let t = u.as_str();
        if str_eq(t, "INNER") {
            Some(JoinType::Inner)
        } else if str_eq(t, "LEFT") {
            Some(JoinType::Left)
        } else if str_eq(t, "RIGHT") {
            Some(JoinType::Right)
        } else if str_eq(t, "FULL") {
            Some(JoinType::Full)
        } else {
            None
        }
    }
}

/// The errors of joins.
#[derive(Debug, Clone)]
pub enum JoinError {
    /// The condition does not have exactly one `=`.
    InvalidFormat,
    /// A side of the condition is not `table.column`.
    NotTableColumn,
    /// A left row lacks the left column.
    LeftColumnMissing(String),
    /// A right row lacks the right column.
    RightColumnMissing(String),
}

/// An equality of a left and a right column.
#[derive(Debug, Clone)]
pub struct JoinCondition {
    pub left_table: String,
    pub left_column: String,
    pub right_table: String,
    pub right_column: String,
}

/// The sides of a condition text: the trimmed pieces around `=`.
pub open spec fn condition_sides(c: Seq<char>) -> Seq<Seq<char>> {
    split_on(c, '=').map_values(|p: Seq<char>| trim_ws(p))
}

/// Lower-cased characters.
fn lower_chars(v: &Vec<char>) -> (s: String)
    ensures
        s@ == lowercase(v@),
{
    let t = string_from_chars(v.as_slice());
    to_lowercase(t.as_str())
}

impl JoinCondition {
    /// Parses `a.b = c.d`: exactly one `=`, each trimmed side exactly one
    /// `.`; the four names are lower-cased.
    pub fn from_string(condition: &str) -> (r: Result<Self, JoinError>)
        ensures
            condition_sides(condition@).len() != 2 ==> (r matches Err(JoinError::InvalidFormat)),
            condition_sides(condition@).len() == 2 ==> {
                let l = split_on(condition_sides(condition@)[0], '.');
                let rr = split_on(condition_sides(condition@)[1], '.');
                &&& (l.len() != 2 || rr.len() != 2) ==> (r matches Err(JoinError::NotTableColumn))
                &&& (l.len() == 2 && rr.len() == 2) ==> (r matches Ok(c) && c.left_table@ == lowercase(l[0])
                    && c.left_column@ == lowercase(l[1]) && c.right_table@ == lowercase(rr[0])
                    && c.right_column@ == lowercase(rr[1]))
            },
    {
        let parts = split_chars(condition, '=');
        if parts.len() != 2 {
            return Err(JoinError::InvalidFormat);
        }
        let left_side = string_from_chars(trim_chars(parts[0].as_slice()).as_slice());
        let right_side = string_from_chars(trim_chars(parts[1].as_slice()).as_slice());
        proof {
            assert(condition_sides(condition@)[0] == trim_ws(parts@[0]@));
            assert(condition_sides(condition@)[1] == trim_ws(parts@[1]@));
        }
        let left_parts = split_chars(left_side.as_str(), '.');
        let right_parts = split_chars(right_side.as_str(), '.');
        if left_parts.len() != 2 || right_parts.len() != 2 {
            return Err(JoinError::NotTableColumn);
        }
        proof {
            assert(pieces_view(left_parts@)[0] == left_parts@[0]@);
            assert(pieces_view(left_parts@)[1] == left_parts@[1]@);
            assert(pieces_view(right_parts@)[0] == right_parts@[0]@);
            assert(pieces_view(right_parts@)[1] == right_parts@[1]@);
        }
        Ok(
            JoinCondition {
                left_table: lower_chars(&left_parts[0]),
                left_column: lower_chars(&left_parts[1]),
                right_table: lower_chars(&right_parts[0]),
                right_column: lower_chars(&right_parts[1]),
            },
        )
    }

    /// Whether the left row's left column equals the right row's right
    /// column; an error when either row lacks its column.
    pub fn matches(&self, left_row: &Row, right_row: &Row) -> (r: Result<bool, JoinError>)
        ensures
            !left_row@.contains_key(self.left_column@) ==> (r matches Err(JoinError::LeftColumnMissing(c)) && c@
                == self.left_column@),
            left_row@.contains_key(self.left_column@) && !right_row@.contains_key(self.right_column@) ==> (r matches Err(
                JoinError::RightColumnMissing(c),
            ) && c@ == self.right_column@),
            left_row@.contains_key(self.left_column@) && right_row@.contains_key(self.right_column@) ==> r == Ok::<
                bool,
                JoinError,
            >(value_eq(left_row@[self.left_column@], right_row@[self.right_column@])),
    {
        let left_val = match left_row.get(self.left_column.as_str()) {
            Some(v) => v,
            None => {
                return Err(JoinError::LeftColumnMissing(self.left_column.clone()));
            },
        };
        let right_val = match right_row.get(self.right_column.as_str()) {
            Some(v) => v,
            None => {
                return Err(JoinError::RightColumnMissing(self.right_column.clone()));
            },
        };
        Ok(left_val.equals(right_val))
    }
}

/// `p.c`: a column name under a prefix.
pub open spec fn dotted(p: Seq<char>, c: Seq<char>) -> Seq<char> {
    p + seq!['.'] + c
}

/// Whether a name starts with `p.`.
pub open spec fn under_prefix(k: Seq<char>, p: Seq<char>) -> bool {
    k.len() >= p.len() + 1 && k.subrange(0, p.len() + 1int) == p.push('.')
}

/// The name after `p.`.
pub open spec fn after_prefix(k: Seq<char>, p: Seq<char>) -> Seq<char> {
    k.subrange(p.len() + 1int, k.len() as int)
}

proof fn lemma_dotted(p: Seq<char>, c: Seq<char>)
    ensures
        under_prefix(dotted(p, c), p),
        after_prefix(dotted(p, c), p) == c,
{
    assert(dotted(p, c).subrange(0, p.len() + 1int) =~= p.push('.'));
    assert(after_prefix(dotted(p, c), p) =~= c);
}

proof fn lemma_undotted(k: Seq<char>, p: Seq<char>)
    requires
        under_prefix(k, p),
    ensures
        dotted(p, after_prefix(k, p)) == k,
{
    assert(dotted(p, after_prefix(k, p)) =~= k) by {
        assert forall|i: int| 0 <= i < k.len() implies #[trigger] dotted(p, after_prefix(k, p))[i] == k[i] by {
            if i < p.len() + 1 {
                assert(k.subrange(0, p.len() + 1int)[i] == k[i]);
            }
        }
    }
}

/// A row's columns under a prefix: `p.c` has the value of `c`.
pub open spec fn prefixed(m: Map<Seq<char>, ValueModel>, p: Seq<char>) -> Map<Seq<char>, ValueModel> {
    Map::new(|k: Seq<char>| under_prefix(k, p) && m.contains_key(after_prefix(k, p)), |k: Seq<char>| m[after_prefix(k, p)])
}

/// A row's columns under a prefix, every value NULL.
pub open spec fn nulled(m: Map<Seq<char>, ValueModel>, p: Seq<char>) -> Map<Seq<char>, ValueModel> {
    Map::new(|k: Seq<char>| under_prefix(k, p) && m.contains_key(after_prefix(k, p)), |k: Seq<char>| ValueModel::Null)
}

/// A left row and a right row combined under their prefixes (a right column
/// wins over a left one of the same name).
pub open spec fn combined(l: Map<Seq<char>, ValueModel>, r: Map<Seq<char>, ValueModel>, lp: Seq<char>, rp: Seq<char>) -> Map<
    Seq<char>,
    ValueModel,
> {
    prefixed(l, lp).union_prefer_right(prefixed(r, rp))
}

/// Whether a pair of rows satisfies the condition.
pub open spec fn pair_holds(c: JoinCondition, l: Row, r: Row) -> bool {
    value_eq(l@[c.left_column@], r@[c.right_column@])
}

/// The combined rows of a left row with each right row it matches, in the
/// order of the right rows.
pub open spec fn matches_for(c: JoinCondition, l: Row, rs: Seq<Row>, lp: Seq<char>, rp: Seq<char>) -> Seq<
    Map<Seq<char>, ValueModel>,
>
    decreases rs.len(),
{
    if rs.len() == 0 {
        Seq::empty()
    } else if pair_holds(c, l, rs.last()) {
        matches_for(c, l, rs.drop_last(), lp, rp).push(combined(l@, rs.last()@, lp, rp))
    } else {
        matches_for(c, l, rs.drop_last(), lp, rp)
    }
}

/// The matched pairs, left row by left row.
pub open spec fn inner_rows(c: JoinCondition, ls: Seq<Row>, rs: Seq<Row>, lp: Seq<char>, rp: Seq<char>) -> Seq<
    Map<Seq<char>, ValueModel>,
>
    decreases ls.len(),
{
    if ls.len() == 0 {
        Seq::empty()
    } else {
        inner_rows(c, ls.drop_last(), rs, lp, rp) + matches_for(c, ls.last(), rs, lp, rp)
    }
}

/// The columns that a missing side is given (those of its first row).
pub open spec fn template(rows: Seq<Row>) -> Map<Seq<char>, ValueModel> {
    if rows.len() == 0 {
        Map::empty()
    } else {
        rows[0]@
    }
}

/// A left row with NULL right columns.
pub open spec fn left_only(l: Row, rs: Seq<Row>, lp: Seq<char>, rp: Seq<char>) -> Map<Seq<char>, ValueModel> {
    prefixed(l@, lp).union_prefer_right(nulled(template(rs), rp))
}

/// A right row with NULL left columns.
pub open spec fn right_only(r: Row, ls: Seq<Row>, lp: Seq<char>, rp: Seq<char>) -> Map<Seq<char>, ValueModel> {
    nulled(template(ls), lp).union_prefer_right(prefixed(r@, rp))
}

/// The LEFT JOIN: each left row's matches, or the row with NULL right
/// columns when it has none.
pub open spec fn left_join_rows(c: JoinCondition, ls: Seq<Row>, rs: Seq<Row>, lp: Seq<char>, rp: Seq<char>) -> Seq<
    Map<Seq<char>, ValueModel>,
>
    decreases ls.len(),
{
    if ls.len() == 0 {
        Seq::empty()
    } else {
        let m = matches_for(c, ls.last(), rs, lp, rp);
        left_join_rows(c, ls.drop_last(), rs, lp, rp) + if m.len() > 0 {
            m
        } else {
            seq![left_only(ls.last(), rs, lp, rp)]
        }
    }
}

/// Whether a right row matches some left row.
pub open spec fn right_matched(c: JoinCondition, ls: Seq<Row>, r: Row) -> bool {
    exists|i: int| 0 <= i < ls.len() && pair_holds(c, #[trigger] ls[i], r)
}

/// Whether a left row matches some right row.
pub open spec fn left_matched(c: JoinCondition, l: Row, rs: Seq<Row>) -> bool {
    exists|j: int| 0 <= j < rs.len() && pair_holds(c, l, #[trigger] rs[j])
}

/// The right rows that match no left row, with NULL left columns.
pub open spec fn unmatched_rights(c: JoinCondition, ls: Seq<Row>, rs: Seq<Row>, lp: Seq<char>, rp: Seq<char>) -> Seq<
    Map<Seq<char>, ValueModel>,
>
    decreases rs.len(),
{
    if rs.len() == 0 {
        Seq::empty()
    } else if right_matched(c, ls, rs.last()) {
        unmatched_rights(c, ls, rs.drop_last(), lp, rp)
    } else {
        unmatched_rights(c, ls, rs.drop_last(), lp, rp).push(right_only(rs.last(), ls, lp, rp))
    }
}

/// The left rows that match no right row, with NULL right columns.
pub open spec fn unmatched_lefts(c: JoinCondition, ls: Seq<Row>, rs: Seq<Row>, lp: Seq<char>, rp: Seq<char>) -> Seq<
    Map<Seq<char>, ValueModel>,
>
    decreases ls.len(),
{
    if ls.len() == 0 {
        Seq::empty()
    } else if left_matched(c, ls.last(), rs) {
        unmatched_lefts(c, ls.drop_last(), rs, lp, rp)
    } else {
        unmatched_lefts(c, ls.drop_last(), rs, lp, rp).push(left_only(ls.last(), rs, lp, rp))
    }
}

/// The error that comparing the pairs in order meets first, if any: pairs
/// are compared left row by left row, and a row lacking its column stops
/// the join.
pub open spec fn join_error(c: JoinCondition, ls: Seq<Row>, rs: Seq<Row>) -> Option<bool> {
    if ls.len() == 0 || rs.len() == 0 {
        None
    } else if !ls[0]@.contains_key(c.left_column@) {
        Some(true)
    } else if exists|j: int| 0 <= j < rs.len() && !(#[trigger] rs[j])@.contains_key(c.right_column@) {
        Some(false)
    } else if exists|i: int| 0 <= i < ls.len() && !(#[trigger] ls[i])@.contains_key(c.left_column@) {
        Some(true)
    } else {
        None
    }
}

/// The row contents of some rows.
pub open spec fn row_maps(rows: Seq<Row>) -> Seq<Map<Seq<char>, ValueModel>> {
    rows.map_values(|r: Row| r@)
}

/// Whether an error is the one `join_error` names (`true` for the left
/// column).
pub open spec fn is_join_error(c: JoinCondition, left: bool, e: JoinError) -> bool {
    if left {
        e matches JoinError::LeftColumnMissing(n) && n@ == c.left_column@
    } else {
        e matches JoinError::RightColumnMissing(n) && n@ == c.right_column@
    }
}

/// A left row with a match has combined rows.
proof fn lemma_matched_nonempty(c: JoinCondition, l: Row, rs: Seq<Row>, lp: Seq<char>, rp: Seq<char>)
    requires
        left_matched(c, l, rs),
    ensures
        matches_for(c, l, rs, lp, rp).len() > 0,
    decreases rs.len(),
{
    if rs.len() > 0 && !pair_holds(c, l, rs.last()) {
        let j = choose|j: int| 0 <= j < rs.len() && pair_holds(c, l, #[trigger] rs[j]);
        assert(rs.drop_last()[j] == rs[j]);
        lemma_matched_nonempty(c, l, rs.drop_last(), lp, rp);
    }
}

/// A left row with combined rows has a match.
proof fn lemma_matches_witness(c: JoinCondition, l: Row, rs: Seq<Row>, lp: Seq<char>, rp: Seq<char>)
    requires
        matches_for(c, l, rs, lp, rp).len() > 0,
    ensures
        left_matched(c, l, rs),
    decreases rs.len(),
{
    if pair_holds(c, l, rs.last()) {
        assert(pair_holds(c, l, rs[rs.len() - 1]));
    } else {
        lemma_matches_witness(c, l, rs.drop_last(), lp, rp);
        let j = choose|j: int| 0 <= j < rs.len() - 1 && pair_holds(c, l, #[trigger] rs.drop_last()[j]);
        assert(rs[j] == rs.drop_last()[j]);
    }
}


/// The number of left rows that a right row matches.
pub open spec fn matching_lefts(c: JoinCondition, ls: Seq<Row>, r: Row) -> nat
    decreases ls.len(),
{
    if ls.len() == 0 {
        0
    } else {
        matching_lefts(c, ls.drop_last(), r) + if pair_holds(c, ls.last(), r) {
            1nat
        } else {
            0nat
        }
    }
}

/// A right row matches some left row exactly when it matches a positive
/// number of them.
proof fn lemma_matching_lefts_positive(c: JoinCondition, ls: Seq<Row>, r: Row)
    ensures
        right_matched(c, ls, r) <==> matching_lefts(c, ls, r) > 0,
    decreases ls.len(),
{
    if ls.len() > 0 {
        lemma_matching_lefts_positive(c, ls.drop_last(), r);
        if right_matched(c, ls.drop_last(), r) {
            let i = choose|i: int| 0 <= i < ls.drop_last().len() && pair_holds(c, #[trigger] ls.drop_last()[i], r);
            assert(ls[i] == ls.drop_last()[i]);
        }
        if right_matched(c, ls, r) && !pair_holds(c, ls.last(), r) {
            let i = choose|i: int| 0 <= i < ls.len() && pair_holds(c, #[trigger] ls[i], r);
            assert(i != ls.len() - 1);
            assert(ls.drop_last()[i] == ls[i]);
        }
        if pair_holds(c, ls.last(), r) {
            assert(pair_holds(c, ls[ls.len() - 1], r));
        }
    }
}

/// Dropping the last right row takes from the inner join the rows it made.
proof fn lemma_inner_rows_drop_right(c: JoinCondition, ls: Seq<Row>, rs: Seq<Row>, lp: Seq<char>, rp: Seq<char>)
    requires
        rs.len() > 0,
    ensures
        inner_rows(c, ls, rs, lp, rp).len() == inner_rows(c, ls, rs.drop_last(), lp, rp).len() + matching_lefts(
            c,
            ls,
            rs.last(),
        ),
    decreases ls.len(),
{
    if ls.len() > 0 {
        lemma_inner_rows_drop_right(c, ls.drop_last(), rs, lp, rp);
    }
}

/// LEFT JOIN keeps every left row: its rows are the matched pairs and one
/// row per left row without a match, so there are at least as many as left
/// rows.
pub proof fn lemma_left_join_keeps_left_rows(c: JoinCondition, ls: Seq<Row>, rs: Seq<Row>, lp: Seq<char>, rp: Seq<char>)
    ensures
        left_join_rows(c, ls, rs, lp, rp).len() == inner_rows(c, ls, rs, lp, rp).len() + unmatched_lefts(
            c,
            ls,
            rs,
            lp,
            rp,
        ).len(),
        left_join_rows(c, ls, rs, lp, rp).len() >= ls.len(),
    decreases ls.len(),
{
    if ls.len() > 0 {
        lemma_left_join_keeps_left_rows(c, ls.drop_last(), rs, lp, rp);
        if left_matched(c, ls.last(), rs) {
            lemma_matched_nonempty(c, ls.last(), rs, lp, rp);
        } else if matches_for(c, ls.last(), rs, lp, rp).len() > 0 {
            lemma_matches_witness(c, ls.last(), rs, lp, rp);
        }
    }
}

/// RIGHT JOIN keeps every right row: the matched pairs and the right rows
/// without a match are at least as many as the right rows.
pub proof fn lemma_right_join_keeps_right_rows(c: JoinCondition, ls: Seq<Row>, rs: Seq<Row>, lp: Seq<char>, rp: Seq<char>)
    ensures
        (inner_rows(c, ls, rs, lp, rp) + unmatched_rights(c, ls, rs, lp, rp)).len() >= rs.len(),
    decreases rs.len(),
{
    if rs.len() > 0 {
        lemma_right_join_keeps_right_rows(c, ls, rs.drop_last(), lp, rp);
        lemma_inner_rows_drop_right(c, ls, rs, lp, rp);
        lemma_matching_lefts_positive(c, ls, rs.last());
    }
}

/// FULL JOIN keeps every row of both sides.
pub proof fn lemma_full_join_keeps_both_sides(c: JoinCondition, ls: Seq<Row>, rs: Seq<Row>, lp: Seq<char>, rp: Seq<char>)
    ensures
        (inner_rows(c, ls, rs, lp, rp) + unmatched_lefts(c, ls, rs, lp, rp) + unmatched_rights(c, ls, rs, lp, rp)).len()
            >= ls.len(),
        (inner_rows(c, ls, rs, lp, rp) + unmatched_lefts(c, ls, rs, lp, rp) + unmatched_rights(c, ls, rs, lp, rp)).len()
            >= rs.len(),
{
    lemma_left_join_keeps_left_rows(c, ls, rs, lp, rp);
    lemma_right_join_keeps_right_rows(c, ls, rs, lp, rp);
}

/// The ids of some rows.
pub open spec fn row_ids(v: Seq<Row>) -> Seq<RecordId> {
    v.map_values(|r: Row| r.id)
}

/// The left row's id once per right row it matches.
pub open spec fn match_ids(c: JoinCondition, l: Row, rs: Seq<Row>) -> Seq<RecordId>
    decreases rs.len(),
{
    if rs.len() == 0 {
        Seq::empty()
    } else if pair_holds(c, l, rs.last()) {
        match_ids(c, l, rs.drop_last()).push(l.id)
    } else {
        match_ids(c, l, rs.drop_last())
    }
}

/// The ids of the matched pairs' rows: each left row's id once per match.
pub open spec fn inner_ids(c: JoinCondition, ls: Seq<Row>, rs: Seq<Row>) -> Seq<RecordId>
    decreases ls.len(),
{
    if ls.len() == 0 {
        Seq::empty()
    } else {
        inner_ids(c, ls.drop_last(), rs) + match_ids(c, ls.last(), rs)
    }
}

/// The ids of the left rows that match no right row.
pub open spec fn unmatched_left_ids(c: JoinCondition, ls: Seq<Row>, rs: Seq<Row>) -> Seq<RecordId>
    decreases ls.len(),
{
    if ls.len() == 0 {
        Seq::empty()
    } else if left_matched(c, ls.last(), rs) {
        unmatched_left_ids(c, ls.drop_last(), rs)
    } else {
        unmatched_left_ids(c, ls.drop_last(), rs).push(ls.last().id)
    }
}

/// The ids of the LEFT JOIN's rows: each left row's id once per match, or
/// once when it has none.
pub open spec fn left_join_ids(c: JoinCondition, ls: Seq<Row>, rs: Seq<Row>, lp: Seq<char>, rp: Seq<char>) -> Seq<RecordId>
    decreases ls.len(),
{
    if ls.len() == 0 {
        Seq::empty()
    } else {
        left_join_ids(c, ls.drop_last(), rs, lp, rp) + if matches_for(c, ls.last(), rs, lp, rp).len() > 0 {
            match_ids(c, ls.last(), rs)
        } else {
            seq![ls.last().id]
        }
    }
}

/// The ids of a join's rows: each row made from a left row has that row's
/// id (the matched pairs, and for LEFT and FULL JOIN the left rows without
/// a match); a right row without a match gets a fresh id.
pub open spec fn join_ids_hold(
    t: JoinType,
    c: JoinCondition,
    ls: Seq<Row>,
    rs: Seq<Row>,
    lp: Seq<char>,
    rp: Seq<char>,
    ids: Seq<RecordId>,
) -> bool {
    let n = inner_rows(c, ls, rs, lp, rp).len();
    match t {
        JoinType::Inner => ids == inner_ids(c, ls, rs),
        JoinType::Left => ids == left_join_ids(c, ls, rs, lp, rp),
        JoinType::Right => n <= ids.len() && ids.subrange(0, n as int) == inner_ids(c, ls, rs),
        JoinType::Full => n + unmatched_lefts(c, ls, rs, lp, rp).len() <= ids.len() && ids.subrange(
            0,
            (n + unmatched_lefts(c, ls, rs, lp, rp).len()) as int,
        ) == inner_ids(c, ls, rs) + unmatched_left_ids(c, ls, rs),
    }
}

/// The number of (left, right) pairs that satisfy the condition.
pub open spec fn matching_pair_count(c: JoinCondition, ls: Seq<Row>, rs: Seq<Row>) -> nat
    decreases rs.len(),
{
    if rs.len() == 0 {
        0
    } else {
        matching_pair_count(c, ls, rs.drop_last()) + matching_lefts(c, ls, rs.last())
    }
}

/// The number of left rows that match no right row.
pub open spec fn unmatched_left_count(c: JoinCondition, ls: Seq<Row>, rs: Seq<Row>) -> nat
    decreases ls.len(),
{
    if ls.len() == 0 {
        0
    } else {
        unmatched_left_count(c, ls.drop_last(), rs) + if left_matched(c, ls.last(), rs) {
            0nat
        } else {
            1nat
        }
    }
}

/// The number of right rows that match no left row.
pub open spec fn unmatched_right_count(c: JoinCondition, ls: Seq<Row>, rs: Seq<Row>) -> nat
    decreases rs.len(),
{
    if rs.len() == 0 {
        0
    } else {
        unmatched_right_count(c, ls, rs.drop_last()) + if right_matched(c, ls, rs.last()) {
            0nat
        } else {
            1nat
        }
    }
}

/// The inner join has one row per matching pair.
proof fn lemma_inner_rows_count(c: JoinCondition, ls: Seq<Row>, rs: Seq<Row>, lp: Seq<char>, rp: Seq<char>)
    ensures
        inner_rows(c, ls, rs, lp, rp).len() == matching_pair_count(c, ls, rs),
    decreases rs.len(),
{
    if rs.len() == 0 {
        lemma_inner_join_without_matches(c, ls, rs, lp, rp);
    } else {
        lemma_inner_rows_count(c, ls, rs.drop_last(), lp, rp);
        lemma_inner_rows_drop_right(c, ls, rs, lp, rp);
    }
}

proof fn lemma_unmatched_lefts_count(c: JoinCondition, ls: Seq<Row>, rs: Seq<Row>, lp: Seq<char>, rp: Seq<char>)
    ensures
        unmatched_lefts(c, ls, rs, lp, rp).len() == unmatched_left_count(c, ls, rs),
    decreases ls.len(),
{
    if ls.len() > 0 {
        lemma_unmatched_lefts_count(c, ls.drop_last(), rs, lp, rp);
    }
}

proof fn lemma_unmatched_rights_count(c: JoinCondition, ls: Seq<Row>, rs: Seq<Row>, lp: Seq<char>, rp: Seq<char>)
    ensures
        unmatched_rights(c, ls, rs, lp, rp).len() == unmatched_right_count(c, ls, rs),
    decreases rs.len(),
{
    if rs.len() > 0 {
        lemma_unmatched_rights_count(c, ls, rs.drop_last(), lp, rp);
    }
}

/// FULL JOIN gives one row per matching pair, one per left row without a
/// match and one per right row without a match.
pub proof fn lemma_full_join_row_count(c: JoinCondition, ls: Seq<Row>, rs: Seq<Row>, lp: Seq<char>, rp: Seq<char>)
    ensures
        (inner_rows(c, ls, rs, lp, rp) + unmatched_lefts(c, ls, rs, lp, rp) + unmatched_rights(c, ls, rs, lp, rp)).len()
            == matching_pair_count(c, ls, rs) + unmatched_left_count(c, ls, rs) + unmatched_right_count(c, ls, rs),
{
    lemma_inner_rows_count(c, ls, rs, lp, rp);
    lemma_unmatched_lefts_count(c, ls, rs, lp, rp);
    lemma_unmatched_rights_count(c, ls, rs, lp, rp);
}

/// INNER JOIN of rows of which no pair satisfies the condition is empty.
pub proof fn lemma_inner_join_without_matches(c: JoinCondition, ls: Seq<Row>, rs: Seq<Row>, lp: Seq<char>, rp: Seq<char>)
    requires
        forall|i: int, j: int| 0 <= i < ls.len() && 0 <= j < rs.len() ==> !pair_holds(c, #[trigger] ls[i], #[trigger] rs[j]),
    ensures
        inner_rows(c, ls, rs, lp, rp).len() == 0,
    decreases ls.len(),
{
    if ls.len() > 0 {
        assert forall|i: int, j: int| 0 <= i < ls.drop_last().len() && 0 <= j < rs.len() implies !pair_holds(
            c,
            #[trigger] ls.drop_last()[i],
            #[trigger] rs[j],
        ) by {
            assert(ls.drop_last()[i] == ls[i]);
        }
        lemma_inner_join_without_matches(c, ls.drop_last(), rs, lp, rp);
        if matches_for(c, ls.last(), rs, lp, rp).len() > 0 {
            lemma_matches_witness(c, ls.last(), rs, lp, rp);
            let j = choose|j: int| 0 <= j < rs.len() && pair_holds(c, ls.last(), #[trigger] rs[j]);
            assert(pair_holds(c, ls[ls.len() - 1], rs[j]));
        }
    }
}

/// Joins two row sets.
pub struct JoinExecutor;

impl JoinExecutor {
    /// A copy of a row's columns under a prefix, with NULL values when
    /// `nulls` holds, in a row with the given id.
    fn prefix_copy(row: &Row, prefix: &str, nulls: bool, id: RecordId) -> (r: Row)
        ensures
            r.id == id,
            r@ == if nulls {
                nulled(row@, prefix@)
            } else {
                prefixed(row@, prefix@)
            },
    {
        let mut out = Row::new(id);
        let n = row.column_count();
        row.well_formed();
        proof {
            row.lemma_columns();
        }
        let ghost p = prefix@;
        let ghost order = row.column_order();
        let mut i: usize = 0;
        while i < n
            invariant
                n == order.len(),
                order == row.column_order(),
                p == prefix@,
                row@.dom() == order.to_set(),
                i <= n,
                out.id == id,
                forall|k: Seq<char>|
                    #[trigger] out@.contains_key(k) <==> under_prefix(k, p) && order.subrange(0, i as int).contains(
                        after_prefix(k, p),
                    ),
                forall|k: Seq<char>|
                    #[trigger] out@.contains_key(k) ==> out@[k] == if nulls {
                        ValueModel::Null
                    } else {
                        row@[after_prefix(k, p)]
                    },
            decreases n - i,
        {
            let (col, val) = row.column_at(i);
            let mut name = String::new();
            name.append(prefix);
            name.append(".");
            name.append(col.as_str());
            proof {
                reveal_strlit(".");
                assert(name@ =~= dotted(p, col@));
                lemma_dotted(p, col@);
            }
            let ghost before = out@;
            let v = if nulls {
                Value::Null
            } else {
                val.duplicate()
            };
            out.insert(name, v);
            proof {
                assert forall|k: Seq<char>|
                    #[trigger] out@.contains_key(k) <==> under_prefix(k, p) && order.subrange(0, i + 1).contains(
                        after_prefix(k, p),
                    ) by {
                    let sub0 = order.subrange(0, i as int);
                    let sub1 = order.subrange(0, i + 1);
                    if sub0.contains(after_prefix(k, p)) {
                        let j = choose|j: int| 0 <= j < sub0.len() && #[trigger] sub0[j] == after_prefix(k, p);
                        assert(sub1[j] == after_prefix(k, p));
                    }
                    if under_prefix(k, p) && sub1.contains(after_prefix(k, p)) {
                        let j = choose|j: int| 0 <= j < sub1.len() && #[trigger] sub1[j] == after_prefix(k, p);
                        if j < i {
                            assert(sub0[j] == after_prefix(k, p));
                        } else {
                            lemma_undotted(k, p);
                        }
                    }
                    if k == dotted(p, col@) {
                        assert(sub1[i as int] == col@);
                    }
                }
            }
            i += 1;
        }
        proof {
            assert(order.subrange(0, n as int) =~= order);
            assert forall|c: Seq<char>| order.contains(c) <==> #[trigger] row@.contains_key(c) by {
                assert(order.to_set().contains(c) == order.contains(c));
            }
            if nulls {
                assert(out@ =~= nulled(row@, p));
            } else {
                assert(out@ =~= prefixed(row@, p));
            }
        }
        out
    }

    /// A row's columns under a prefix, in a row with the row's id.
    fn prefix_row(row: &Row, prefix: &str) -> (r: Row)
        ensures
            r.id == row.id,
            r@ == prefixed(row@, prefix@),
    {
        Self::prefix_copy(row, prefix, false, row.id)
    }

    /// A row with the template's columns under a prefix, all NULL, under a
    /// fresh id.
    fn create_null_row(template: &Row, prefix: &str) -> (r: Row)
        ensures
            r@ == nulled(template@, prefix@),
    {
        Self::prefix_copy(template, prefix, true, RecordId::new())
    }

    /// Adds the columns of `src` to `dest` (a column of `src` wins).
    fn extend(dest: &mut Row, src: &Row)
        ensures
            final(dest)@ == old(dest)@.union_prefer_right(src@),
            final(dest).id == old(dest).id,
    {
        let n = src.column_count();
        src.well_formed();
        proof {
            src.lemma_columns();
        }
        let ghost order = src.column_order();
        let mut i: usize = 0;
        while i < n
            invariant
                n == order.len(),
                order == src.column_order(),
                src@.dom() == order.to_set(),
                i <= n,
                dest.id == old(dest).id,
                forall|k: Seq<char>|
                    #[trigger] dest@.contains_key(k) <==> old(dest)@.contains_key(k) || order.subrange(0, i as int).contains(k),
                forall|k: Seq<char>|
                    #[trigger] dest@.contains_key(k) ==> dest@[k] == if order.subrange(0, i as int).contains(k) {
                        src@[k]
                    } else {
                        old(dest)@[k]
                    },
            decreases n - i,
        {
            let (col, val) = src.column_at(i);
            dest.insert(col.clone(), val.duplicate());
            proof {
                let sub0 = order.subrange(0, i as int);
                let sub1 = order.subrange(0, i + 1);
                assert(sub1 =~= sub0.push(col@));
                assert forall|k: Seq<char>| #[trigger] sub1.contains(k) <==> sub0.contains(k) || k == col@ by {
                    if sub0.contains(k) {
                        let j = choose|j: int| 0 <= j < sub0.len() && #[trigger] sub0[j] == k;
                        assert(sub1[j] == k);
                    }
                    if k == col@ {
                        assert(sub1[i as int] == k);
                    }
                    if sub1.contains(k) && k != col@ {
                        let j = choose|j: int| 0 <= j < sub1.len() && #[trigger] sub1[j] == k;
                        assert(sub0[j] == k);
                    }
                }
            }
            i += 1;
        }
        proof {
            assert(order.subrange(0, n as int) =~= order);
            assert forall|c: Seq<char>| order.contains(c) <==> #[trigger] src@.contains_key(c) by {
                assert(order.to_set().contains(c) == order.contains(c));
            }
            assert(dest@ =~= old(dest)@.union_prefer_right(src@));
        }
    }

    /// Compares a left row with every right row, in order: appends the
    /// combined row of each match and marks the matched right rows. An error
    /// when a row lacks its column.
    fn scan_left_row(
        condition: &JoinCondition,
        left_row: &Row,
        right_rows: &Vec<Row>,
        left_prefix: &str,
        right_prefix: &str,
        results: &mut Vec<Row>,
        matched_right: &mut Vec<bool>,
    ) -> (r: Result<bool, JoinError>)
        requires
            old(matched_right)@.len() == right_rows@.len(),
        ensures
            right_rows@.len() > 0 && !left_row@.contains_key(condition.left_column@) ==> (r matches Err(e)
                && is_join_error(*condition, true, e)),
            right_rows@.len() > 0 && left_row@.contains_key(condition.left_column@) && (exists|j: int|
                0 <= j < right_rows@.len() && !(#[trigger] right_rows@[j])@.contains_key(condition.right_column@))
                ==> (r matches Err(e) && is_join_error(*condition, false, e)),
            r is Err ==> right_rows@.len() > 0 && (!left_row@.contains_key(condition.left_column@) || exists|j: int|
                0 <= j < right_rows@.len() && !(#[trigger] right_rows@[j])@.contains_key(condition.right_column@)),
            r is Ok ==> {
                &&& right_rows@.len() > 0 ==> left_row@.contains_key(condition.left_column@)
                &&& forall|j: int|
                    0 <= j < right_rows@.len() ==> (#[trigger] right_rows@[j])@.contains_key(condition.right_column@)
                &&& r->Ok_0 == left_matched(*condition, *left_row, right_rows@)
                &&& row_ids(final(results)@) == row_ids(old(results)@) + match_ids(*condition, *left_row, right_rows@)
                &&& row_maps(final(results)@) == row_maps(old(results)@) + matches_for(
                    *condition,
                    *left_row,
                    right_rows@,
                    left_prefix@,
                    right_prefix@,
                )
                &&& final(matched_right)@.len() == right_rows@.len()
                &&& forall|j: int|
                    0 <= j < right_rows@.len() ==> #[trigger] final(matched_right)@[j] == (old(matched_right)@[j]
                        || pair_holds(*condition, *left_row, right_rows@[j]))
            },
    {
        let ghost start = row_maps(results@);
        let ghost start_ids = row_ids(results@);
        let mut found = false;
        let mut j: usize = 0;
        while j < right_rows.len()
            invariant
                j <= right_rows@.len(),
                row_ids(results@) == start_ids + match_ids(*condition, *left_row, right_rows@.subrange(0, j as int)),
                matched_right@.len() == right_rows@.len(),
                j > 0 ==> left_row@.contains_key(condition.left_column@),
                forall|k: int| 0 <= k < j ==> (#[trigger] right_rows@[k])@.contains_key(condition.right_column@),
                found == left_matched(*condition, *left_row, right_rows@.subrange(0, j as int)),
                row_maps(results@) == start + matches_for(
                    *condition,
                    *left_row,
                    right_rows@.subrange(0, j as int),
                    left_prefix@,
                    right_prefix@,
                ),
                forall|k: int|
                    0 <= k < j ==> #[trigger] matched_right@[k] == (old(matched_right)@[k] || pair_holds(
                        *condition,
                        *left_row,
                        right_rows@[k],
                    )),
                forall|k: int| j <= k < right_rows@.len() ==> #[trigger] matched_right@[k] == old(matched_right)@[k],
            decreases right_rows@.len() - j,
        {
            let ghost sub0 = right_rows@.subrange(0, j as int);
            let ghost sub1 = right_rows@.subrange(0, j + 1);
            proof {
                assert(sub1.drop_last() =~= sub0);
                assert(sub1.last() == right_rows@[j as int]);
            }
            let m = condition.matches(left_row, &right_rows[j]);
            match m {
                Err(e) => {
                    return Err(e);
                },
                Ok(true) => {
                    let ghost before = results@;
                    results.push(Self::combine_rows(left_row, &right_rows[j], left_prefix, right_prefix));
                    matched_right.set(j, true);
                    found = true;
                    proof {
                        assert(row_maps(results@) =~= row_maps(before).push(results@[before.len() as int]@));
                        assert(row_ids(results@) =~= row_ids(before).push(left_row.id));
                        assert(left_matched(*condition, *left_row, sub1)) by {
                            assert(pair_holds(*condition, *left_row, sub1[j as int]));
                        }
                    }
                },
                Ok(false) => {
                    proof {
                        assert(left_matched(*condition, *left_row, sub1) == left_matched(*condition, *left_row, sub0)) by {
                            if left_matched(*condition, *left_row, sub1) {
                                let k = choose|k: int| 0 <= k < sub1.len() && pair_holds(*condition, *left_row, #[trigger] sub1[k]);
                                if k < j {
                                    assert(sub0[k] == sub1[k]);
                                }
                            }
                            if left_matched(*condition, *left_row, sub0) {
                                let k = choose|k: int| 0 <= k < sub0.len() && pair_holds(*condition, *left_row, #[trigger] sub0[k]);
                                assert(sub1[k] == sub0[k]);
                            }
                        }
                    }
                },
            }
            proof {
                if found {
                    assert(left_matched(*condition, *left_row, sub1)) by {
                        if !left_matched(*condition, *left_row, sub0) {
                        } else {
                            let k = choose|k: int| 0 <= k < sub0.len() && pair_holds(*condition, *left_row, #[trigger] sub0[k]);
                            assert(sub1[k] == sub0[k]);
                        }
                    }
                }
            }
            j += 1;
        }
        proof {
            assert(right_rows@.subrange(0, j as int) =~= right_rows@);
        }
        Ok(found)
    }

    /// Runs the pair comparisons of every left row, in order; per left row
    /// whether it matched, and per right row whether it matched.
    fn scan_pairs(
        condition: &JoinCondition,
        left_rows: &Vec<Row>,
        right_rows: &Vec<Row>,
        left_prefix: &str,
        right_prefix: &str,
        results: &mut Vec<Row>,
        matched_left: &mut Vec<bool>,
        matched_right: &mut Vec<bool>,
    ) -> (r: Result<(), JoinError>)
        requires
            old(results)@.len() == 0,
            old(matched_left)@.len() == 0,
            old(matched_right)@.len() == right_rows@.len(),
            forall|j: int| 0 <= j < right_rows@.len() ==> !#[trigger] old(matched_right)@[j],
        ensures
            join_error(*condition, left_rows@, right_rows@) matches Some(left) ==> (r matches Err(e) && is_join_error(
                *condition,
                left,
                e,
            )),
            join_error(*condition, left_rows@, right_rows@) is None ==> {
                &&& r is Ok
                &&& row_ids(final(results)@) == inner_ids(*condition, left_rows@, right_rows@)
                &&& row_maps(final(results)@) == inner_rows(
                    *condition,
                    left_rows@,
                    right_rows@,
                    left_prefix@,
                    right_prefix@,
                )
                &&& final(matched_left)@.len() == left_rows@.len()
                &&& forall|i: int|
                    0 <= i < left_rows@.len() ==> #[trigger] final(matched_left)@[i] == left_matched(
                        *condition,
                        left_rows@[i],
                        right_rows@,
                    )
                &&& final(matched_right)@.len() == right_rows@.len()
                &&& forall|j: int|
                    0 <= j < right_rows@.len() ==> #[trigger] final(matched_right)@[j] == right_matched(
                        *condition,
                        left_rows@,
                        right_rows@[j],
                    )
                &&& forall|i: int| 0 <= i < left_rows@.len() && right_rows@.len() > 0 ==> (#[trigger] left_rows@[i])@.contains_key(condition.left_column@)
                &&& forall|j: int| 0 <= j < right_rows@.len() && left_rows@.len() > 0 ==> (#[trigger] right_rows@[j])@.contains_key(condition.right_column@)
            },
    {
        let mut i: usize = 0;
        while i < left_rows.len()
            invariant
                i <= left_rows@.len(),
                matched_left@.len() == i,
                matched_right@.len() == right_rows@.len(),
                right_rows@.len() > 0 ==> forall|k: int| 0 <= k < i ==> (#[trigger] left_rows@[k])@.contains_key(condition.left_column@),
                i > 0 ==> forall|j: int| 0 <= j < right_rows@.len() ==> (#[trigger] right_rows@[j])@.contains_key(condition.right_column@),
                row_ids(results@) == inner_ids(*condition, left_rows@.subrange(0, i as int), right_rows@),
                row_maps(results@) == inner_rows(
                    *condition,
                    left_rows@.subrange(0, i as int),
                    right_rows@,
                    left_prefix@,
                    right_prefix@,
                ),
                forall|k: int|
                    0 <= k < i ==> #[trigger] matched_left@[k] == left_matched(*condition, left_rows@[k], right_rows@),
                forall|j: int|
                    0 <= j < right_rows@.len() ==> #[trigger] matched_right@[j] == right_matched(
                        *condition,
                        left_rows@.subrange(0, i as int),
                        right_rows@[j],
                    ),
            decreases left_rows@.len() - i,
        {
            let ghost sub0 = left_rows@.subrange(0, i as int);
            let ghost sub1 = left_rows@.subrange(0, i + 1);
            let ghost mr_before = matched_right@;
            proof {
                assert(sub1.drop_last() =~= sub0);
                assert(sub1.last() == left_rows@[i as int]);
            }
            let found = match Self::scan_left_row(
                condition,
                &left_rows[i],
                right_rows,
                left_prefix,
                right_prefix,
                results,
                matched_right,
            ) {
                Err(e) => {
                    proof {
                        let ls = left_rows@;
                        let rs = right_rows@;
                        if !ls[i as int]@.contains_key(condition.left_column@) {
                            if i > 0 {
                                assert(ls[0]@.contains_key(condition.left_column@));
                                assert(!(exists|j: int| 0 <= j < rs.len() && !(#[trigger] rs[j])@.contains_key(condition.right_column@)));
                            }
                        } else {
                            if i > 0 {
                                assert(false);
                            }
                        }
                    }
                    return Err(e);
                },
                Ok(b) => b,
            };
            matched_left.push(found);
            proof {
                assert forall|j: int|
                    0 <= j < right_rows@.len() implies #[trigger] matched_right@[j] == right_matched(
                        *condition,
                        sub1,
                        right_rows@[j],
                    ) by {
                    let rj = right_rows@[j];
                    if right_matched(*condition, sub1, rj) {
                        let k = choose|k: int| 0 <= k < sub1.len() && pair_holds(*condition, #[trigger] sub1[k], rj);
                        if k < i {
                            assert(sub0[k] == sub1[k]);
                        }
                    }
                    if right_matched(*condition, sub0, rj) {
                        let k = choose|k: int| 0 <= k < sub0.len() && pair_holds(*condition, #[trigger] sub0[k], rj);
                        assert(sub1[k] == sub0[k]);
                    }
                    if pair_holds(*condition, left_rows@[i as int], rj) {
                        assert(sub1[i as int] == left_rows@[i as int]);
                    }
                }
            }
            i += 1;
        }
        proof {
            assert(left_rows@.subrange(0, i as int) =~= left_rows@);
        }
        Ok(())
    }

    /// INNER JOIN: the combined rows of the matching pairs, left row by left
    /// row.
    fn inner_join(
        left_rows: Vec<Row>,
        right_rows: Vec<Row>,
        condition: &JoinCondition,
        left_prefix: &str,
        right_prefix: &str,
    ) -> (r: Result<Vec<Row>, JoinError>)
        ensures
            join_error(*condition, left_rows@, right_rows@) matches Some(left) ==> (r matches Err(e) && is_join_error(
                *condition,
                left,
                e,
            )),
            join_error(*condition, left_rows@, right_rows@) is None ==> (r matches Ok(v) && row_maps(v@)
                == inner_rows(*condition, left_rows@, right_rows@, left_prefix@, right_prefix@)
                && row_ids(v@) == inner_ids(*condition, left_rows@, right_rows@)),
    {
        let mut results: Vec<Row> = Vec::new();
        let mut matched_left: Vec<bool> = Vec::new();
        let mut matched_right = Self::flags(right_rows.len());
        match Self::scan_pairs(
            condition,
            &left_rows,
            &right_rows,
            left_prefix,
            right_prefix,
            &mut results,
            &mut matched_left,
            &mut matched_right,
        ) {
            Err(e) => Err(e),
            Ok(()) => Ok(results),
        }
    }

    /// `n` false flags.
    fn flags(n: usize) -> (v: Vec<bool>)
        ensures
            v@.len() == n,
            forall|j: int| 0 <= j < n ==> !#[trigger] v@[j],
    {
        let mut v: Vec<bool> = Vec::new();
        let mut i: usize = 0;
        while i < n
            invariant
                i <= n,
                v@.len() == i,
                forall|j: int| 0 <= j < i ==> !#[trigger] v@[j],
            decreases n - i,
        {
            v.push(false);
            i += 1;
        }
        v
    }

    /// A left row with NULL right columns.
    fn left_with_nulls(left_row: &Row, right_rows: &Vec<Row>, left_prefix: &str, right_prefix: &str) -> (r: Row)
        ensures
            r@ == left_only(*left_row, right_rows@, left_prefix@, right_prefix@),
            r.id == left_row.id,
    {
        let mut combined_row = Self::prefix_row(left_row, left_prefix);
        let null_right = if right_rows.len() == 0 {
            let empty = Row::new(RecordId::new());
            Self::create_null_row(&empty, right_prefix)
        } else {
            Self::create_null_row(&right_rows[0], right_prefix)
        };
        Self::extend(&mut combined_row, &null_right);
        combined_row
    }

    /// A right row with NULL left columns.
    fn right_with_nulls(right_row: &Row, left_rows: &Vec<Row>, left_prefix: &str, right_prefix: &str) -> (r: Row)
        ensures
            r@ == right_only(*right_row, left_rows@, left_prefix@, right_prefix@),
    {
        let mut combined_row = if left_rows.len() == 0 {
            let empty = Row::new(RecordId::new());
            Self::create_null_row(&empty, left_prefix)
        } else {
            Self::create_null_row(&left_rows[0], left_prefix)
        };
        let right_part = Self::prefix_row(right_row, right_prefix);
        Self::extend(&mut combined_row, &right_part);
        combined_row
    }

    /// LEFT JOIN: for each left row in order, its matches, or the row with
    /// NULL right columns when it has none.
    fn left_join(
        left_rows: Vec<Row>,
        right_rows: Vec<Row>,
        condition: &JoinCondition,
        left_prefix: &str,
        right_prefix: &str,
    ) -> (r: Result<Vec<Row>, JoinError>)
        ensures
            join_error(*condition, left_rows@, right_rows@) matches Some(left) ==> (r matches Err(e) && is_join_error(
                *condition,
                left,
                e,
            )),
            join_error(*condition, left_rows@, right_rows@) is None ==> (r matches Ok(v) && row_maps(v@)
                == left_join_rows(*condition, left_rows@, right_rows@, left_prefix@, right_prefix@)
                && row_ids(v@) == left_join_ids(*condition, left_rows@, right_rows@, left_prefix@, right_prefix@)),
    {
        let mut results: Vec<Row> = Vec::new();
        let mut i: usize = 0;
        while i < left_rows.len()
            invariant
                i <= left_rows@.len(),
                right_rows@.len() > 0 ==> forall|k: int| 0 <= k < i ==> (#[trigger] left_rows@[k])@.contains_key(condition.left_column@),
                i > 0 ==> forall|j: int| 0 <= j < right_rows@.len() ==> (#[trigger] right_rows@[j])@.contains_key(condition.right_column@),
                row_ids(results@) == left_join_ids(
                    *condition,
                    left_rows@.subrange(0, i as int),
                    right_rows@,
                    left_prefix@,
                    right_prefix@,
                ),
                row_maps(results@) == left_join_rows(
                    *condition,
                    left_rows@.subrange(0, i as int),
                    right_rows@,
                    left_prefix@,
                    right_prefix@,
                ),
            decreases left_rows@.len() - i,
        {
            let ghost sub0 = left_rows@.subrange(0, i as int);
            let ghost sub1 = left_rows@.subrange(0, i + 1);
            let ghost before = row_maps(results@);
            let ghost before_ids = row_ids(results@);
            proof {
                assert(sub1.drop_last() =~= sub0);
                assert(sub1.last() == left_rows@[i as int]);
            }
            let mut marks = Self::flags(right_rows.len());
            let found = match Self::scan_left_row(
                condition,
                &left_rows[i],
                &right_rows,
                left_prefix,
                right_prefix,
                &mut results,
                &mut marks,
            ) {
                Err(e) => {
                    proof {
                        let ls = left_rows@;
                        let rs = right_rows@;
                        if !ls[i as int]@.contains_key(condition.left_column@) {
                            if i > 0 {
                                assert(ls[0]@.contains_key(condition.left_column@));
                                assert(!(exists|j: int| 0 <= j < rs.len() && !(#[trigger] rs[j])@.contains_key(condition.right_column@)));
                            }
                        } else {
                            if i > 0 {
                                assert(false);
                            }
                        }
                    }
                    return Err(e);
                },
                Ok(b) => b,
            };
            let ghost m = matches_for(*condition, left_rows@[i as int], right_rows@, left_prefix@, right_prefix@);
            proof {
                if !found {
                    if m.len() > 0 {
                        lemma_matches_witness(*condition, left_rows@[i as int], right_rows@, left_prefix@, right_prefix@);
                    }
                    assert(m.len() == 0);
                } else {
                    lemma_matched_nonempty(*condition, left_rows@[i as int], right_rows@, left_prefix@, right_prefix@);
                }
            }
            if !found {
                let ghost mid = results@;
                results.push(Self::left_with_nulls(&left_rows[i], &right_rows, left_prefix, right_prefix));
                proof {
                    assert(row_maps(results@) =~= row_maps(mid).push(results@[mid.len() as int]@));
                    assert(row_maps(mid) =~= before);
                    assert(row_ids(results@) =~= row_ids(mid).push(left_rows@[i as int].id));
                    assert(row_ids(mid) =~= before_ids);
                }
            }
            proof {
                assert(row_maps(results@) =~= left_join_rows(*condition, sub1, right_rows@, left_prefix@, right_prefix@));
                assert(row_ids(results@) =~= left_join_ids(*condition, sub1, right_rows@, left_prefix@, right_prefix@));
            }
            i += 1;
        }
        proof {
            assert(left_rows@.subrange(0, i as int) =~= left_rows@);
        }
        Ok(results)
    }

    /// Appends, in order, each right row that matched no left row, with NULL
    /// left columns.
    fn push_unmatched_rights(
        condition: &JoinCondition,
        left_rows: &Vec<Row>,
        right_rows: &Vec<Row>,
        matched_right: &Vec<bool>,
        left_prefix: &str,
        right_prefix: &str,
        results: &mut Vec<Row>,
    )
        requires
            matched_right@.len() == right_rows@.len(),
            forall|j: int|
                0 <= j < right_rows@.len() ==> #[trigger] matched_right@[j] == right_matched(
                    *condition,
                    left_rows@,
                    right_rows@[j],
                ),
        ensures
            final(results)@.len() >= old(results)@.len(),
            forall|k: int| 0 <= k < old(results)@.len() ==> #[trigger] final(results)@[k] == old(results)@[k],
            row_maps(final(results)@) == row_maps(old(results)@) + unmatched_rights(
                *condition,
                left_rows@,
                right_rows@,
                left_prefix@,
                right_prefix@,
            ),
    {
        let ghost start = row_maps(results@);
        let ghost start_rows = results@;
        let mut j: usize = 0;
        while j < right_rows.len()
            invariant
                j <= right_rows@.len(),
                results@.len() >= start_rows.len(),
                start_rows == old(results)@,
                forall|k: int| 0 <= k < start_rows.len() ==> #[trigger] results@[k] == start_rows[k],
                matched_right@.len() == right_rows@.len(),
                forall|k: int|
                    0 <= k < right_rows@.len() ==> #[trigger] matched_right@[k] == right_matched(
                        *condition,
                        left_rows@,
                        right_rows@[k],
                    ),
                row_maps(results@) == start + unmatched_rights(
                    *condition,
                    left_rows@,
                    right_rows@.subrange(0, j as int),
                    left_prefix@,
                    right_prefix@,
                ),
            decreases right_rows@.len() - j,
        {
            proof {
                let sub1 = right_rows@.subrange(0, j + 1);
                assert(sub1.drop_last() =~= right_rows@.subrange(0, j as int));
                assert(sub1.last() == right_rows@[j as int]);
            }
            if !matched_right[j] {
                let ghost before = results@;
                results.push(Self::right_with_nulls(&right_rows[j], left_rows, left_prefix, right_prefix));
                proof {
                    assert(row_maps(results@) =~= row_maps(before).push(results@[before.len() as int]@));
                }
            }
            j += 1;
        }
        proof {
            assert(right_rows@.subrange(0, j as int) =~= right_rows@);
        }
    }

    /// Appends, in order, each left row that matched no right row, with NULL
    /// right columns.
    fn push_unmatched_lefts(
        condition: &JoinCondition,
        left_rows: &Vec<Row>,
        right_rows: &Vec<Row>,
        matched_left: &Vec<bool>,
        left_prefix: &str,
        right_prefix: &str,
        results: &mut Vec<Row>,
    )
        requires
            matched_left@.len() == left_rows@.len(),
            forall|i: int|
                0 <= i < left_rows@.len() ==> #[trigger] matched_left@[i] == left_matched(
                    *condition,
                    left_rows@[i],
                    right_rows@,
                ),
        ensures
            row_ids(final(results)@) == row_ids(old(results)@) + unmatched_left_ids(*condition, left_rows@, right_rows@),
            row_maps(final(results)@) == row_maps(old(results)@) + unmatched_lefts(
                *condition,
                left_rows@,
                right_rows@,
                left_prefix@,
                right_prefix@,
            ),
    {
        let ghost start = row_maps(results@);
        let ghost start_ids = row_ids(results@);
        let mut i: usize = 0;
        while i < left_rows.len()
            invariant
                i <= left_rows@.len(),
                row_ids(results@) == start_ids + unmatched_left_ids(*condition, left_rows@.subrange(0, i as int), right_rows@),
                matched_left@.len() == left_rows@.len(),
                forall|k: int|
                    0 <= k < left_rows@.len() ==> #[trigger] matched_left@[k] == left_matched(
                        *condition,
                        left_rows@[k],
                        right_rows@,
                    ),
                row_maps(results@) == start + unmatched_lefts(
                    *condition,
                    left_rows@.subrange(0, i as int),
                    right_rows@,
                    left_prefix@,
                    right_prefix@,
                ),
            decreases left_rows@.len() - i,
        {
            proof {
                let sub1 = left_rows@.subrange(0, i + 1);
                assert(sub1.drop_last() =~= left_rows@.subrange(0, i as int));
                assert(sub1.last() == left_rows@[i as int]);
            }
            if !matched_left[i] {
                let ghost before = results@;
                results.push(Self::left_with_nulls(&left_rows[i], right_rows, left_prefix, right_prefix));
                proof {
                    assert(row_maps(results@) =~= row_maps(before).push(results@[before.len() as int]@));
                    assert(row_ids(results@) =~= row_ids(before).push(left_rows@[i as int].id));
                }
            }
            i += 1;
        }
        proof {
            assert(left_rows@.subrange(0, i as int) =~= left_rows@);
        }
    }

    /// RIGHT JOIN: the matching pairs, then each right row that matched no
    /// left row, with NULL left columns.
    fn right_join(
        left_rows: Vec<Row>,
        right_rows: Vec<Row>,
        condition: &JoinCondition,
        left_prefix: &str,
        right_prefix: &str,
    ) -> (r: Result<Vec<Row>, JoinError>)
        ensures
            join_error(*condition, left_rows@, right_rows@) matches Some(left) ==> (r matches Err(e) && is_join_error(
                *condition,
                left,
                e,
            )),
            join_error(*condition, left_rows@, right_rows@) is None ==> (r matches Ok(v) && row_maps(v@)
                == inner_rows(*condition, left_rows@, right_rows@, left_prefix@, right_prefix@) + unmatched_rights(
                *condition,
                left_rows@,
                right_rows@,
                left_prefix@,
                right_prefix@,
            ) && row_ids(v@).subrange(0, inner_rows(*condition, left_rows@, right_rows@, left_prefix@, right_prefix@).len() as int)
                == inner_ids(*condition, left_rows@, right_rows@)),
    {
        let mut results: Vec<Row> = Vec::new();
        let mut matched_left: Vec<bool> = Vec::new();
        let mut matched_right = Self::flags(right_rows.len());
        match Self::scan_pairs(
            condition,
            &left_rows,
            &right_rows,
            left_prefix,
            right_prefix,
            &mut results,
            &mut matched_left,
            &mut matched_right,
        ) {
            Err(e) => {
                return Err(e);
            },
            Ok(()) => {},
        }
        let ghost mid = results@;
        Self::push_unmatched_rights(
            condition,
            &left_rows,
            &right_rows,
            &matched_right,
            left_prefix,
            right_prefix,
            &mut results,
        );
        proof {
            assert(row_ids(results@).subrange(0, mid.len() as int) =~= row_ids(mid));
            assert(row_maps(mid).len() == mid.len());
        }
        Ok(results)
    }

    /// FULL JOIN: the matching pairs, then each left row that matched no
    /// right row (NULL right columns), then each right row that matched no
    /// left row (NULL left columns).
    fn full_join(
        left_rows: Vec<Row>,
        right_rows: Vec<Row>,
        condition: &JoinCondition,
        left_prefix: &str,
        right_prefix: &str,
    ) -> (r: Result<Vec<Row>, JoinError>)
        ensures
            join_error(*condition, left_rows@, right_rows@) matches Some(left) ==> (r matches Err(e) && is_join_error(
                *condition,
                left,
                e,
            )),
            join_error(*condition, left_rows@, right_rows@) is None ==> (r matches Ok(v) && row_maps(v@)
                == inner_rows(*condition, left_rows@, right_rows@, left_prefix@, right_prefix@) + unmatched_lefts(
                *condition,
                left_rows@,
                right_rows@,
                left_prefix@,
                right_prefix@,
            ) + unmatched_rights(*condition, left_rows@, right_rows@, left_prefix@, right_prefix@)
                && row_ids(v@).subrange(
                0,
                (inner_rows(*condition, left_rows@, right_rows@, left_prefix@, right_prefix@).len() + unmatched_lefts(
                    *condition,
                    left_rows@,
                    right_rows@,
                    left_prefix@,
                    right_prefix@,
                ).len()) as int,
            ) == inner_ids(*condition, left_rows@, right_rows@) + unmatched_left_ids(*condition, left_rows@, right_rows@)),
    {
        let mut results: Vec<Row> = Vec::new();
        let mut matched_left: Vec<bool> = Vec::new();
        let mut matched_right = Self::flags(right_rows.len());
        match Self::scan_pairs(
            condition,
            &left_rows,
            &right_rows,
            left_prefix,
            right_prefix,
            &mut results,
            &mut matched_left,
            &mut matched_right,
        ) {
            Err(e) => {
                return Err(e);
            },
            Ok(()) => {},
        }
        Self::push_unmatched_lefts(
            condition,
            &left_rows,
            &right_rows,
            &matched_left,
            left_prefix,
            right_prefix,
            &mut results,
        );
        let ghost mid = results@;
        Self::push_unmatched_rights(
            condition,
            &left_rows,
            &right_rows,
            &matched_right,
            left_prefix,
            right_prefix,
            &mut results,
        );
        proof {
            assert(row_ids(results@).subrange(0, mid.len() as int) =~= row_ids(mid));
            assert(row_maps(mid).len() == mid.len());
        }
        Ok(results)
    }

    /// Joins two row sets on a condition; the columns of the result are the
    /// rows' columns under the two prefixes (`prefix.column`).
    pub fn join(
        join_type: JoinType,
        left_rows: Vec<Row>,
        right_rows: Vec<Row>,
        condition: &JoinCondition,
        left_prefix: &str,
        right_prefix: &str,
    ) -> (r: Result<Vec<Row>, JoinError>)
        ensures
            join_error(*condition, left_rows@, right_rows@) matches Some(left) ==> (r matches Err(e) && is_join_error(
                *condition,
                left,
                e,
            )),
            join_error(*condition, left_rows@, right_rows@) is None ==> (r matches Ok(v) && row_maps(v@) == match join_type {
                JoinType::Inner => inner_rows(*condition, left_rows@, right_rows@, left_prefix@, right_prefix@),
                JoinType::Left => left_join_rows(*condition, left_rows@, right_rows@, left_prefix@, right_prefix@),
                JoinType::Right => inner_rows(*condition, left_rows@, right_rows@, left_prefix@, right_prefix@)
                    + unmatched_rights(*condition, left_rows@, right_rows@, left_prefix@, right_prefix@),
                JoinType::Full => inner_rows(*condition, left_rows@, right_rows@, left_prefix@, right_prefix@)
                    + unmatched_lefts(*condition, left_rows@, right_rows@, left_prefix@, right_prefix@)
                    + unmatched_rights(*condition, left_rows@, right_rows@, left_prefix@, right_prefix@),
            }),
            join_error(*condition, left_rows@, right_rows@) is None ==> (r matches Ok(v) && join_ids_hold(
                join_type,
                *condition,
                left_rows@,
                right_rows@,
                left_prefix@,
                right_prefix@,
                row_ids(v@),
            )),
    {
        let ghost ls = left_rows@;
        let ghost rs = right_rows@;
        let r = match join_type {
            JoinType::Inner => Self::inner_join(left_rows, right_rows, condition, left_prefix, right_prefix),
            JoinType::Left => Self::left_join(left_rows, right_rows, condition, left_prefix, right_prefix),
            JoinType::Right => Self::right_join(left_rows, right_rows, condition, left_prefix, right_prefix),
            JoinType::Full => Self::full_join(left_rows, right_rows, condition, left_prefix, right_prefix),
        };
        proof {
            if r is Ok {
                assert(row_maps(r->Ok_0@).len() == r->Ok_0@.len());
                assert(row_ids(r->Ok_0@).len() == r->Ok_0@.len());
            }
        }
        r
    }

    /// The left row and the right row combined under their prefixes, with
    /// the left row's id.
    fn combine_rows(left: &Row, right: &Row, left_prefix: &str, right_prefix: &str) -> (r: Row)
        ensures
            r@ == combined(left@, right@, left_prefix@, right_prefix@),
            r.id == left.id,
    {
        let mut combined_row = Self::prefix_row(left, left_prefix);
        let right_part = Self::prefix_row(right, right_prefix);
        Self::extend(&mut combined_row, &right_part);
        combined_row
    }
}

} // verus!
