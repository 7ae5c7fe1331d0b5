//! The SELECT statement as a whole.
use vstd::prelude::*;
use crate::parser::clauses::{
    from,
    from_at,
    left_join,
    left_join_at,
    limit,
    limit_at,
    orderby,
    orderby_at,
    parse_where,
    select,
    select_at,
    where_at,
};
use crate::parser::elements::{
    error,
    error_at,
    keyword,
    multispace0,
    skip_space,
    word_at,
    ParseError,
};
use crate::parser::literal::Parsed;
use crate::sql::expr::{CondModel, Field, FieldModel};
use crate::sql::query::{field_views, Sql, SqlModel};
use crate::text::to_chars;

verus! {

/// A clause that may be left out: where `word` stands at `pos` the clause
/// must parse; elsewhere there is none.
pub open spec fn optional<T>(s: Seq<char>, pos: int, word: Seq<char>, clause: Parsed<T>) -> Parsed<
    Option<T>,
> {
    if word_at(s, pos, word) {
        match clause {
            Ok((x, after)) => Ok((Some(x), after)),
            Err(e) => Err(e),
        }
    } else {
        Ok((None, pos))
    }
}

/// The items of an optional list clause: none where the clause is left out.
pub open spec fn items_or_none(fields: Option<Seq<FieldModel>>) -> Seq<FieldModel> {
    match fields {
        Some(f) => f,
        None => Seq::empty(),
    }
}

/// `next` is a position of `s` that is not before `pos`.
pub open spec fn in_order(s: Seq<char>, pos: int, next: int) -> bool {
    pos <= next <= s.len()
}

/// A statement at `pos`. The clauses come in this order, with white space
/// between them: SELECT, and then, each only if its first word is there,
/// FROM, LEFT JOIN, WHERE, ORDER BY and LIMIT.
pub open spec fn query_at(s: Seq<char>, pos: int) -> Parsed<SqlModel>
    decreases s.len() - pos, 10nat,
{
    match select_at(s, pos) {
        Err(e) => Err(e),
        Ok((select_clause, after_select)) => {
            let at_from = skip_space(s, after_select);
            if !in_order(s, pos, at_from) {
                Err(pos)
            } else {
                match optional(s, at_from, "from"@, from_at(s, at_from)) {
                    Err(e) => Err(e),
                    Ok((from_items, after_from)) => {
                        let at_join = skip_space(s, after_from);
                        if !in_order(s, pos, at_join) {
                            Err(pos)
                        } else {
                            match optional(s, at_join, "left"@, left_join_at(s, at_join)) {
                                Err(e) => Err(e),
                                Ok((joined, after_join)) => {
                                    let at_where = skip_space(s, after_join);
                                    if !in_order(s, pos, at_where) {
                                        Err(pos)
                                    } else {
                                        match optional(s, at_where, "where"@, where_at(s, at_where)) {
                                            Err(e) => Err(e),
                                            Ok((where_clause, after_where)) => query_tail(
                                                s,
                                                after_where,
                                                select_clause,
                                                items_or_none(from_items),
                                                items_or_none(joined),
                                                where_clause,
                                            ),
                                        }
                                    }
                                },
                            }
                        }
                    },
                }
            }
        },
    }
}

/// The end of a statement behind its predicate: ORDER BY and LIMIT, each
/// only if its first word is there.
pub open spec fn query_tail(
    s: Seq<char>,
    pos: int,
    select_clause: Seq<FieldModel>,
    from_clause: Seq<FieldModel>,
    left_join_clause: Seq<FieldModel>,
    where_clause: Option<CondModel>,
) -> Parsed<SqlModel> {
    let at_order = skip_space(s, pos);
    match optional(s, at_order, "order"@, orderby_at(s, at_order)) {
        Err(e) => Err(e),
        Ok((orderby, after_order)) => {
            let at_limit = skip_space(s, after_order);
            match optional(s, at_limit, "limit"@, limit_at(s, at_limit)) {
                Err(e) => Err(e),
                Ok((limit, after_limit)) => Ok(
                    (
                        SqlModel {
                            select_clause,
                            from_clause,
                            left_join_clause,
                            where_clause,
                            orderby,
                            limit,
                        },
                        after_limit,
                    ),
                ),
            }
        },
    }
}

/// The statement that a text denotes: one statement with nothing but
/// white space around it; else the position of the first character that
/// does not fit.
pub open spec fn parse_sql(s: Seq<char>) -> Result<SqlModel, int> {
    match query_at(s, skip_space(s, 0)) {
        Ok((q, after)) => {
            let end = skip_space(s, after);
            if end == s.len() {
                Ok(q)
            } else {
                Err(end)
            }
        },
        Err(e) => Err(e),
    }
}

/// The view of a parsed statement.
pub open spec fn sql_view(r: Result<(Sql, usize), usize>) -> Parsed<SqlModel> {
    match r {
        Ok((q, p)) => Ok((q@, p as int)),
        Err(e) => Err(e as int),
    }
}

/// A statement at `pos`.
pub fn query(s: &[char], pos: usize) -> (r: Result<(Sql, usize), usize>)
    requires
        pos <= s@.len(),
    ensures
        sql_view(r) == query_at(s@, pos as int),
        r matches Ok((_, p)) ==> pos < p <= s@.len(),
        r matches Err(e) ==> pos <= e <= s@.len(),
    decreases s@.len() - pos, 10nat,
{
    let (select_clause, after_select) = match select(s, pos) {
        Ok(x) => x,
        Err(e) => {
            return Err(e);
        },
    };
    let at_from = multispace0(s, after_select);
    let (from_clause, after_from) = if keyword(s, at_from, "from").is_some() {
        match from(s, at_from) {
            Ok(x) => x,
            Err(e) => {
                return Err(e);
            },
        }
    } else {
        let none: Vec<Field> = Vec::new();
        assert(field_views(none@) =~= Seq::<FieldModel>::empty());
        (none, at_from)
    };
    let at_join = multispace0(s, after_from);
    let (left_join_clause, after_join) = if keyword(s, at_join, "left").is_some() {
        match left_join(s, at_join) {
            Ok(x) => x,
            Err(e) => {
                return Err(e);
            },
        }
    } else {
        let none: Vec<Field> = Vec::new();
        assert(field_views(none@) =~= Seq::<FieldModel>::empty());
        (none, at_join)
    };
    let at_where = multispace0(s, after_join);
    let (where_clause, after_where) = if keyword(s, at_where, "where").is_some() {
        match parse_where(s, at_where) {
            Ok((c, p)) => (Some(Box::new(c)), p),
            Err(e) => {
                return Err(e);
            },
        }
    } else {
        (None, at_where)
    };
    let at_order = multispace0(s, after_where);
    let (order, after_order) = if keyword(s, at_order, "order").is_some() {
        match orderby(s, at_order) {
            Ok((o, p)) => (Some(o), p),
            Err(e) => {
                return Err(e);
            },
        }
    } else {
        (None, at_order)
    };
    let at_limit = multispace0(s, after_order);
    let (lim, after_limit) = if keyword(s, at_limit, "limit").is_some() {
        match limit(s, at_limit) {
            Ok((l, p)) => (Some(l), p),
            Err(e) => {
                return Err(e);
            },
        }
    } else {
        (None, at_limit)
    };
    Ok(
        (
            Sql {
                select_clause,
                from_clause,
                left_join_clause,
                where_clause,
                orderby: order,
                limit: lim,
            },
            after_limit,
        ),
    )
}

/// The statement in the characters `s`, or the position of the failure.
fn statement(s: &[char]) -> (r: Result<Sql, usize>)
    ensures
        match r {
            Ok(sql) => parse_sql(s@) == Ok::<SqlModel, int>(sql@),
            Err(e) => parse_sql(s@) == Err::<SqlModel, int>(e as int) && e <= s@.len(),
        },
{
    match query(s, multispace0(s, 0)) {
        Ok((q, after)) => {
            let end = multispace0(s, after);
            if end == s.len() {
                Ok(q)
            } else {
                Err(end)
            }
        },
        Err(e) => Err(e),
    }
}

/// Parses a SELECT statement. An error names the first character that
/// does not fit.
pub fn sql(input: &str) -> (r: Result<Sql, ParseError>)
    ensures
        match r {
            Ok(q) => parse_sql(input@) == Ok::<SqlModel, int>(q@),
            Err(e) => parse_sql(input@) matches Err(p) && e == error_at(input@, p),
        },
{
    let chars = to_chars(input);
    let s = chars.as_slice();
    match statement(s) {
        Ok(q) => Ok(q),
        Err(e) => Err(error(s, e)),
    }
}

impl core::str::FromStr for Sql {
    type Err = ParseError;

    /// Parses a SELECT statement; see [`sql`].
    fn from_str(input: &str) -> (r: Result<Sql, ParseError>)
        ensures
            match r {
                Ok(q) => parse_sql(input@) == Ok::<SqlModel, int>(q@),
                Err(e) => parse_sql(input@) matches Err(p) && e == error_at(input@, p),
            },
    {
        sql(input)
    }
}

} // verus!
