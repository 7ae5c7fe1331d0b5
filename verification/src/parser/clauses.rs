//! The clauses of a SELECT statement.
use vstd::prelude::*;
use crate::parser::elements::{char_at, keyword, multispace0, skip_space, word_at};
use crate::parser::literal::{integer, integer_at, string, string_at, Parsed};
use crate::parser::math::{
    expr_at, ident_at,
    parse_math_expr,
    string_allowed_in_field,
};
use crate::pqlir_parser::{value, value_at};
use crate::sql::clause::{Limit, OrderBy, OrderByModel};
use crate::sql::expr::{CondModel, Field, FieldModel, WhereCond};
use crate::sql::query::field_views;

verus! {

/// The alias behind an expression: a name behind `AS`; where `implicit`
/// allows it, a name alone; else none.
pub open spec fn alias_at(s: Seq<char>, pos: int, implicit: bool) -> Parsed<Option<Seq<char>>> {
    if word_at(s, pos, "as"@) {
        match ident_at(s, skip_space(s, pos + "as"@.len())) {
            Ok((name, after)) => Ok((Some(name), after)),
            Err(e) => Err(e),
        }
    } else if implicit {
        match ident_at(s, pos) {
            Ok((name, after)) => Ok((Some(name), after)),
            Err(_) => Ok((None, pos)),
        }
    } else {
        Ok((None, pos))
    }
}

/// An item of SELECT or FROM: an expression with its alias.
pub open spec fn field_at(s: Seq<char>, pos: int, implicit: bool) -> Parsed<FieldModel>
    decreases s.len() - pos, 7nat,
{
    match expr_at(s, pos) {
        Ok((expr, after)) => match alias_at(s, after, implicit) {
            Ok((alias, end)) => Ok((FieldModel { expr, alias }, end)),
            Err(e) => Err(e),
        },
        Err(e) => Err(e),
    }
}

/// Items separated by commas, one at least; `acc` holds those before
/// `pos`.
pub open spec fn fields_at(s: Seq<char>, pos: int, implicit: bool, acc: Seq<FieldModel>) -> Parsed<
    Seq<FieldModel>,
>
    decreases s.len() - pos, 8nat,
{
    match field_at(s, pos, implicit) {
        Ok((f, after)) => {
            let p = skip_space(s, after);
            if after <= pos || p < after || p > s.len() {
                Err(pos)
            } else if p < s.len() && s[p] == ',' {
                fields_at(s, p + 1, implicit, acc.push(f))
            } else {
                Ok((acc.push(f), p))
            }
        },
        Err(e) => Err(e),
    }
}

/// `SELECT` with its items.
pub open spec fn select_at(s: Seq<char>, pos: int) -> Parsed<Seq<FieldModel>>
    decreases s.len() - pos, 9nat,
{
    if word_at(s, pos, "select"@) {
        fields_at(s, pos + "select"@.len(), false, Seq::empty())
    } else {
        Err(pos)
    }
}

/// `FROM` with its items; an alias needs no `AS`.
pub open spec fn from_at(s: Seq<char>, pos: int) -> Parsed<Seq<FieldModel>>
    decreases s.len() - pos, 9nat,
{
    if word_at(s, pos, "from"@) {
        fields_at(s, pos + "from"@.len(), true, Seq::empty())
    } else {
        Err(pos)
    }
}

/// `LEFT JOIN` with its items; an alias needs no `AS`.
pub open spec fn left_join_at(s: Seq<char>, pos: int) -> Parsed<Seq<FieldModel>>
    decreases s.len() - pos, 9nat,
{
    let join = skip_space(s, pos + "left"@.len());
    if word_at(s, pos, "left"@) && join >= pos && word_at(s, join, "join"@) {
        fields_at(s, join + "join"@.len(), true, Seq::empty())
    } else {
        Err(pos)
    }
}

/// A predicate of equality: an expression, `=` and a literal value.
pub open spec fn where_eq_at(s: Seq<char>, pos: int) -> Parsed<CondModel>
    decreases s.len() - pos, 7nat,
{
    match expr_at(s, pos) {
        Ok((expr, after)) => if 0 <= after < s.len() && s[after] == '=' {
            match value_at(s, after + 1) {
                Ok((right, end)) => Ok((CondModel::Eq { expr, right }, end)),
                Err(e) => Err(e),
            }
        } else {
            Err(after)
        },
        Err(e) => Err(e),
    }
}

/// A predicate of likeness: an expression, `LIKE` and a quoted pattern.
pub open spec fn where_like_at(s: Seq<char>, pos: int) -> Parsed<CondModel>
    decreases s.len() - pos, 7nat,
{
    match expr_at(s, pos) {
        Ok((expr, after)) => if word_at(s, after, "like"@) {
            match string_at(s, skip_space(s, after + "like"@.len())) {
                Ok((right, end)) => Ok((CondModel::Like { expr, right }, end)),
                Err(e) => Err(e),
            }
        } else {
            Err(after)
        },
        Err(e) => Err(e),
    }
}

/// `WHERE` with a predicate of equality or, failing that, of likeness; an
/// error names the farther of the two failures.
pub open spec fn where_at(s: Seq<char>, pos: int) -> Parsed<CondModel>
    decreases s.len() - pos, 9nat,
{
    if word_at(s, pos, "where"@) {
        let start = pos + "where"@.len();
        match where_eq_at(s, start) {
            Ok(x) => Ok(x),
            Err(first) => match where_like_at(s, start) {
                Ok(x) => Ok(x),
                Err(second) => Err(
                    if first >= second {
                        first
                    } else {
                        second
                    },
                ),
            },
        }
    } else {
        Err(pos)
    }
}

/// `ORDER BY` with a name and an optional direction; ascending if none
/// is given.
pub open spec fn orderby_at(s: Seq<char>, pos: int) -> Parsed<OrderByModel> {
    let by = skip_space(s, pos + "order"@.len());
    if word_at(s, pos, "order"@) && word_at(s, by, "by"@) {
        match ident_at(s, skip_space(s, by + "by"@.len())) {
            Ok((label, after)) => {
                let p = skip_space(s, after);
                if word_at(s, p, "asc"@) {
                    Ok((OrderByModel { label, is_asc: true }, p + "asc"@.len()))
                } else if word_at(s, p, "desc"@) {
                    Ok((OrderByModel { label, is_asc: false }, p + "desc"@.len()))
                } else {
                    Ok((OrderByModel { label, is_asc: true }, after))
                }
            },
            Err(e) => Err(e),
        }
    } else {
        Err(pos)
    }
}

/// `OFFSET` with a whole number.
pub open spec fn offset_at(s: Seq<char>, pos: int) -> Parsed<u64> {
    if word_at(s, pos, "offset"@) {
        integer_at(s, skip_space(s, pos + "offset"@.len()))
    } else {
        Err(pos)
    }
}

/// `LIMIT` with a whole number and an optional `OFFSET`; offset zero if
/// none is given.
pub open spec fn limit_at(s: Seq<char>, pos: int) -> Parsed<Limit> {
    if word_at(s, pos, "limit"@) {
        match integer_at(s, skip_space(s, pos + "limit"@.len())) {
            Ok((limit, after)) => match offset_at(s, skip_space(s, after)) {
                Ok((offset, end)) => Ok((Limit { limit, offset }, end)),
                Err(_) => Ok((Limit { limit, offset: 0 }, after)),
            },
            Err(e) => Err(e),
        }
    } else {
        Err(pos)
    }
}

/// The view of parsed items.
pub open spec fn fields_view(r: Result<(Vec<Field>, usize), usize>) -> Parsed<Seq<FieldModel>> {
    match r {
        Ok((f, p)) => Ok((field_views(f@), p as int)),
        Err(e) => Err(e as int),
    }
}

/// The view of a parsed predicate.
pub open spec fn cond_result_view(r: Result<(WhereCond, usize), usize>) -> Parsed<CondModel> {
    match r {
        Ok((c, p)) => Ok((c@, p as int)),
        Err(e) => Err(e as int),
    }
}

/// The view of a parsed ORDER BY.
pub open spec fn orderby_view(r: Result<(OrderBy, usize), usize>) -> Parsed<OrderByModel> {
    match r {
        Ok((o, p)) => Ok((o@, p as int)),
        Err(e) => Err(e as int),
    }
}

/// The view of a parsed LIMIT.
pub open spec fn limit_view(r: Result<(Limit, usize), usize>) -> Parsed<Limit> {
    match r {
        Ok((l, p)) => Ok((l, p as int)),
        Err(e) => Err(e as int),
    }
}

/// The view of a parsed whole number.
pub open spec fn offset_view(r: Result<(u64, usize), usize>) -> Parsed<u64> {
    match r {
        Ok((n, p)) => Ok((n, p as int)),
        Err(e) => Err(e as int),
    }
}

/// An item of SELECT or FROM.
pub fn parse_field(s: &[char], pos: usize, implicit: bool) -> (r: Result<(Field, usize), usize>)
    requires
        pos <= s@.len(),
    ensures
        match r {
            Ok((f, p)) => field_at(s@, pos as int, implicit) == Ok::<(FieldModel, int), int>(
                (f@, p as int),
            ) && pos < p <= s@.len(),
            Err(e) => field_at(s@, pos as int, implicit) == Err::<(FieldModel, int), int>(e as int)
                && pos <= e <= s@.len(),
        },
    decreases s@.len() - pos, 7nat,
{
    let (expr, after) = match parse_math_expr(s, pos) {
        Ok(x) => x,
        Err(e) => {
            return Err(e);
        },
    };
    match keyword(s, after, "as") {
        Some(end) => {
            let start = multispace0(s, end);
            match string_allowed_in_field(s, start) {
                Ok((name, p)) => Ok((Field { expr, alias: Some(name) }, p)),
                Err(e) => Err(e),
            }
        },
        None => {
            if implicit {
                match string_allowed_in_field(s, after) {
                    Ok((name, p)) => Ok((Field { expr, alias: Some(name) }, p)),
                    Err(_) => Ok((Field { expr, alias: None }, after)),
                }
            } else {
                Ok((Field { expr, alias: None }, after))
            }
        },
    }
}

/// Items separated by commas, one at least.
pub fn parse_fields(s: &[char], pos: usize, implicit: bool) -> (r: Result<(Vec<Field>, usize), usize>)
    requires
        pos <= s@.len(),
    ensures
        fields_view(r) == fields_at(s@, pos as int, implicit, Seq::empty()),
        r matches Ok((_, p)) ==> pos < p <= s@.len(),
        r matches Err(e) ==> pos <= e <= s@.len(),
    decreases s@.len() - pos, 8nat,
{
    let n = s.len();
    let mut fields: Vec<Field> = Vec::new();
    let mut p: usize = pos;
    assert(field_views(fields@) =~= Seq::<FieldModel>::empty());
    loop
        invariant
            pos <= p <= s@.len(),
            s@.len() <= usize::MAX,
            fields_at(s@, pos as int, implicit, Seq::empty()) == fields_at(
                s@,
                p as int,
                implicit,
                field_views(fields@),
            ),
        decreases s@.len() - p,
    {
        let ghost before = field_views(fields@);
        match parse_field(s, p, implicit) {
            Ok((f, after)) => {
                fields.push(f);
                assert(field_views(fields@) =~= before.push(f@));
                let next = multispace0(s, after);
                if char_at(s, next, ',') {
                    p = next + 1;
                } else {
                    return Ok((fields, next));
                }
            },
            Err(e) => {
                return Err(e);
            },
        }
    }
}

/// `SELECT` with its items.
pub fn select(s: &[char], pos: usize) -> (r: Result<(Vec<Field>, usize), usize>)
    requires
        pos <= s@.len(),
    ensures
        fields_view(r) == select_at(s@, pos as int),
        r matches Ok((_, p)) ==> pos < p <= s@.len(),
        r matches Err(e) ==> pos <= e <= s@.len(),
    decreases s@.len() - pos, 9nat,
{
    match keyword(s, pos, "select") {
        Some(end) => parse_fields(s, end, false),
        None => Err(pos),
    }
}

/// `FROM` with its items.
pub fn from(s: &[char], pos: usize) -> (r: Result<(Vec<Field>, usize), usize>)
    requires
        pos <= s@.len(),
    ensures
        fields_view(r) == from_at(s@, pos as int),
        r matches Ok((_, p)) ==> pos < p <= s@.len(),
        r matches Err(e) ==> pos <= e <= s@.len(),
    decreases s@.len() - pos, 9nat,
{
    match keyword(s, pos, "from") {
        Some(end) => parse_fields(s, end, true),
        None => Err(pos),
    }
}

/// `LEFT JOIN` with its items.
pub fn left_join(s: &[char], pos: usize) -> (r: Result<(Vec<Field>, usize), usize>)
    requires
        pos <= s@.len(),
    ensures
        fields_view(r) == left_join_at(s@, pos as int),
        r matches Ok((_, p)) ==> pos < p <= s@.len(),
        r matches Err(e) ==> pos <= e <= s@.len(),
    decreases s@.len() - pos, 9nat,
{
    match keyword(s, pos, "left") {
        Some(end) => {
            let join = multispace0(s, end);
            match keyword(s, join, "join") {
                Some(start) => parse_fields(s, start, true),
                None => Err(pos),
            }
        },
        None => Err(pos),
    }
}

/// A predicate of equality.
pub fn parse_where_eq(s: &[char], pos: usize) -> (r: Result<(WhereCond, usize), usize>)
    requires
        pos <= s@.len(),
    ensures
        cond_result_view(r) == where_eq_at(s@, pos as int),
        r matches Ok((_, p)) ==> pos < p <= s@.len(),
        r matches Err(e) ==> pos <= e <= s@.len(),
    decreases s@.len() - pos, 7nat,
{
    let n = s.len();
    let (expr, after) = match parse_math_expr(s, pos) {
        Ok(x) => x,
        Err(e) => {
            return Err(e);
        },
    };
    if !char_at(s, after, '=') {
        return Err(after);
    }
    match value(s, after + 1) {
        Ok((right, end)) => Ok((WhereCond::Eq { expr, right }, end)),
        Err(e) => Err(e),
    }
}

/// A predicate of likeness.
pub fn parse_where_like(s: &[char], pos: usize) -> (r: Result<(WhereCond, usize), usize>)
    requires
        pos <= s@.len(),
    ensures
        cond_result_view(r) == where_like_at(s@, pos as int),
        r matches Ok((_, p)) ==> pos < p <= s@.len(),
        r matches Err(e) ==> pos <= e <= s@.len(),
    decreases s@.len() - pos, 7nat,
{
    let (expr, after) = match parse_math_expr(s, pos) {
        Ok(x) => x,
        Err(e) => {
            return Err(e);
        },
    };
    match keyword(s, after, "like") {
        Some(end) => {
            let start = multispace0(s, end);
            match string(s, start) {
                Ok((right, p)) => Ok((WhereCond::Like { expr, right }, p)),
                Err(e) => Err(e),
            }
        },
        None => Err(after),
    }
}

/// `WHERE` with its predicate.
pub fn parse_where(s: &[char], pos: usize) -> (r: Result<(WhereCond, usize), usize>)
    requires
        pos <= s@.len(),
    ensures
        cond_result_view(r) == where_at(s@, pos as int),
        r matches Ok((_, p)) ==> pos < p <= s@.len(),
        r matches Err(e) ==> pos <= e <= s@.len(),
    decreases s@.len() - pos, 9nat,
{
    match keyword(s, pos, "where") {
        Some(start) => match parse_where_eq(s, start) {
            Ok(x) => Ok(x),
            Err(first) => match parse_where_like(s, start) {
                Ok(x) => Ok(x),
                Err(second) => Err(
                    if first >= second {
                        first
                    } else {
                        second
                    },
                ),
            },
        },
        None => Err(pos),
    }
}

/// `ORDER BY` with a name and an optional direction.
pub fn orderby(s: &[char], pos: usize) -> (r: Result<(OrderBy, usize), usize>)
    requires
        pos <= s@.len(),
    ensures
        orderby_view(r) == orderby_at(s@, pos as int),
        r matches Ok((_, p)) ==> pos < p <= s@.len(),
        r matches Err(e) ==> pos <= e <= s@.len(),
{
    let end = match keyword(s, pos, "order") {
        Some(end) => end,
        None => {
            return Err(pos);
        },
    };
    let by = multispace0(s, end);
    let start = match keyword(s, by, "by") {
        Some(start) => start,
        None => {
            return Err(pos);
        },
    };
    let (label, after) = match string_allowed_in_field(s, multispace0(s, start)) {
        Ok(x) => x,
        Err(e) => {
            return Err(e);
        },
    };
    let p = multispace0(s, after);
    match keyword(s, p, "asc") {
        Some(end) => {
            return Ok((OrderBy { label, is_asc: true }, end));
        },
        None => {},
    }
    match keyword(s, p, "desc") {
        Some(end) => Ok((OrderBy { label, is_asc: false }, end)),
        None => Ok((OrderBy { label, is_asc: true }, after)),
    }
}

/// `OFFSET` with a whole number.
pub fn offset(s: &[char], pos: usize) -> (r: Result<(u64, usize), usize>)
    requires
        pos <= s@.len(),
    ensures
        offset_view(r) == offset_at(s@, pos as int),
        r matches Ok((_, p)) ==> pos < p <= s@.len(),
        r matches Err(e) ==> pos <= e <= s@.len(),
{
    match keyword(s, pos, "offset") {
        Some(end) => integer(s, multispace0(s, end)),
        None => Err(pos),
    }
}

/// `LIMIT` with a whole number and an optional `OFFSET`.
pub fn limit(s: &[char], pos: usize) -> (r: Result<(Limit, usize), usize>)
    requires
        pos <= s@.len(),
    ensures
        limit_view(r) == limit_at(s@, pos as int),
        r matches Ok((_, p)) ==> pos < p <= s@.len(),
        r matches Err(e) ==> pos <= e <= s@.len(),
{
    match keyword(s, pos, "limit") {
        Some(end) => match integer(s, multispace0(s, end)) {
            Ok((limit, after)) => match offset(s, multispace0(s, after)) {
                Ok((offset, end)) => Ok((Limit { limit, offset }, end)),
                Err(_) => Ok((Limit { limit, offset: 0 }, after)),
            },
            Err(e) => Err(e),
        },
        None => Err(pos),
    }
}

} // verus!
