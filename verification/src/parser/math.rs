//! Expressions: arithmetic over paths, numbers, literals and COUNT.
use vstd::prelude::*;
use vstd::slice::slice_subrange;
use vstd::string::StrSliceExecFns;
use crate::parser::elements::{
    char_at,
    end_of_word,
    error,
    error_at,
    is_digit,
    is_word_start,
    keyword,
    lemma_word_end,
    multispace0,
    skip_space,
    word_at,
    word_end,
    word_start,
    digit,
    ParseError,
};
use crate::parser::literal::{integer, integer_at, number, number_at, Parsed};
use crate::parser::query::{query, query_at};
use crate::pqlir_parser::{value, value_at};
use crate::sql::expr::{Expr, ExprModel, Func};
use crate::sql::selector::{Path, Segment, Selector, SelectorNode};
use crate::text::{from_chars, to_chars};

verus! {

/// A word of the query language stands at `pos`; such a word is no name.
pub open spec fn reserved_at(s: Seq<char>, pos: int) -> bool {
    word_at(s, pos, "select"@) || word_at(s, pos, "from"@) || word_at(s, pos, "where"@) || word_at(
        s,
        pos,
        "as"@,
    ) || word_at(s, pos, "left"@) || word_at(s, pos, "join"@) || word_at(s, pos, "like"@)
        || word_at(s, pos, "order"@) || word_at(s, pos, "by"@) || word_at(s, pos, "asc"@)
        || word_at(s, pos, "desc"@) || word_at(s, pos, "limit"@) || word_at(s, pos, "offset"@)
}

/// A name at `pos`: a word that starts with a letter or `_` and is not
/// reserved.
pub open spec fn ident_at(s: Seq<char>, pos: int) -> Parsed<Seq<char>> {
    if 0 <= pos < s.len() && is_word_start(s[pos]) && !reserved_at(s, pos) && pos < word_end(s, pos)
        <= s.len() {
        Ok((s.subrange(pos, word_end(s, pos)), word_end(s, pos)))
    } else {
        Err(pos)
    }
}

/// The segments of a path behind its first name: `.name` and `[index]`,
/// as many as follow; `acc` holds the segments before `pos`.
pub open spec fn segments_at(s: Seq<char>, pos: int, acc: Path) -> Parsed<Path>
    decreases s.len() - pos,
{
    if 0 <= pos < s.len() && s[pos] == '.' {
        match ident_at(s, pos + 1) {
            Ok((name, after)) => if after <= pos {
                Err(pos)
            } else {
                segments_at(s, after, acc.push(Segment::Field(name)))
            },
            Err(e) => Err(e),
        }
    } else if 0 <= pos < s.len() && s[pos] == '[' {
        match integer_at(s, pos + 1) {
            Ok((index, after)) => if after > pos && after < s.len() && s[after] == ']' {
                segments_at(s, after + 1, acc.push(Segment::Index(index as nat)))
            } else {
                Err(after)
            },
            Err(e) => Err(e),
        }
    } else {
        Ok((acc, pos))
    }
}

/// A path at `pos`: a name and the segments behind it.
pub open spec fn path_at(s: Seq<char>, pos: int) -> Parsed<Path> {
    match ident_at(s, pos) {
        Ok((name, after)) => segments_at(s, after, seq![Segment::Field(name)]),
        Err(e) => Err(e),
    }
}

/// The expression of a binary operator.
pub open spec fn binary_expr(op: char, a: ExprModel, b: ExprModel) -> ExprModel {
    if op == '+' {
        ExprModel::Add(Box::new(a), Box::new(b))
    } else if op == '-' {
        ExprModel::Sub(Box::new(a), Box::new(b))
    } else if op == '*' {
        ExprModel::Mul(Box::new(a), Box::new(b))
    } else if op == '/' {
        ExprModel::Div(Box::new(a), Box::new(b))
    } else if op == '%' {
        ExprModel::Rem(Box::new(a), Box::new(b))
    } else {
        ExprModel::Exp(Box::new(a), Box::new(b))
    }
}

/// One of the words that are literal values stands at `pos`.
pub open spec fn literal_word_at(s: Seq<char>, pos: int) -> bool {
    word_at(s, pos, "null"@) || word_at(s, pos, "missing"@) || word_at(s, pos, "true"@) || word_at(
        s,
        pos,
        "false"@,
    )
}

/// An operand without the white space around it: a number, a subquery or
/// an expression in parentheses, `COUNT(..)`, `*`, a literal value or a
/// path.
pub open spec fn operand_at(s: Seq<char>, p: int) -> Parsed<ExprModel>
    decreases s.len() - p, 0nat,
{
    if !(0 <= p < s.len()) {
        Err(p)
    } else if is_digit(s[p]) || (s[p] == '-' && p + 1 < s.len() && is_digit(s[p + 1])) {
        match number_at(s, p) {
            Ok((n, after)) => Ok((ExprModel::Num(n), after)),
            Err(e) => Err(e),
        }
    } else if s[p] == '(' {
        let inner = skip_space(s, p + 1);
        if p < inner <= s.len() && word_at(s, inner, "select"@) {
            match query_at(s, inner) {
                Ok((q, after)) => {
                    let close = skip_space(s, after);
                    if 0 <= close < s.len() && s[close] == ')' {
                        Ok((ExprModel::Sql(Box::new(q)), close + 1))
                    } else {
                        Err(close)
                    }
                },
                Err(e) => Err(e),
            }
        } else {
            match expr_at(s, p + 1) {
                Ok((e, after)) => if 0 <= after < s.len() && s[after] == ')' {
                    Ok((e, after + 1))
                } else {
                    Err(after)
                },
                Err(e) => Err(e),
            }
        }
    } else if word_at(s, p, "count"@) {
        let open = skip_space(s, p + "count"@.len());
        if p < open < s.len() && s[open] == '(' {
            match expr_at(s, open + 1) {
                Ok((e, after)) => if 0 <= after < s.len() && s[after] == ')' {
                    Ok((ExprModel::Count(Box::new(e)), after + 1))
                } else {
                    Err(after)
                },
                Err(e) => Err(e),
            }
        } else {
            Err(open)
        }
    } else if s[p] == '*' {
        Ok((ExprModel::Star, p + 1))
    } else if is_word_start(s[p]) && !literal_word_at(s, p) {
        match path_at(s, p) {
            Ok((path, after)) => Ok((ExprModel::Selector(path), after)),
            Err(e) => Err(e),
        }
    } else {
        match value_at(s, p) {
            Ok((v, after)) => Ok((ExprModel::Value(v), after)),
            Err(e) => Err(e),
        }
    }
}

/// An operand with the white space around it.
pub open spec fn primary_at(s: Seq<char>, pos: int) -> Parsed<ExprModel>
    decreases s.len() - pos, 1nat,
{
    let p = skip_space(s, pos);
    if p < pos || p > s.len() {
        Err(pos)
    } else {
        match operand_at(s, p) {
            Ok((e, after)) => Ok((e, skip_space(s, after))),
            Err(e) => Err(e),
        }
    }
}

/// A factor: an operand, raised to a factor if `^` follows.
pub open spec fn factor_at(s: Seq<char>, pos: int) -> Parsed<ExprModel>
    decreases s.len() - pos, 2nat,
{
    match primary_at(s, pos) {
        Ok((base, after)) => if pos <= after < s.len() && s[after] == '^' {
            match factor_at(s, after + 1) {
                Ok((power, end)) => Ok((binary_expr('^', base, power), end)),
                Err(e) => Err(e),
            }
        } else {
            Ok((base, after))
        },
        Err(e) => Err(e),
    }
}

/// The rest of a term: `*`, `/` or `%` with a factor, as often as they
/// follow, applied from the left to `acc`.
pub open spec fn term_rest(s: Seq<char>, pos: int, acc: ExprModel) -> Parsed<ExprModel>
    decreases s.len() - pos, 3nat,
{
    if 0 <= pos < s.len() && (s[pos] == '*' || s[pos] == '/' || s[pos] == '%') {
        match factor_at(s, pos + 1) {
            Ok((f, after)) => if after <= pos || after > s.len() {
                Err(pos)
            } else {
                term_rest(s, after, binary_expr(s[pos], acc, f))
            },
            Err(e) => Err(e),
        }
    } else {
        Ok((acc, pos))
    }
}

/// A term: factors joined by `*`, `/` and `%`.
pub open spec fn term_at(s: Seq<char>, pos: int) -> Parsed<ExprModel>
    decreases s.len() - pos, 4nat,
{
    match factor_at(s, pos) {
        Ok((f, after)) => if after < pos || after > s.len() {
            Err(pos)
        } else {
            term_rest(s, after, f)
        },
        Err(e) => Err(e),
    }
}

/// The rest of an expression: `+` or `-` with a term, as often as they
/// follow, applied from the left to `acc`.
pub open spec fn expr_rest(s: Seq<char>, pos: int, acc: ExprModel) -> Parsed<ExprModel>
    decreases s.len() - pos, 5nat,
{
    if 0 <= pos < s.len() && (s[pos] == '+' || s[pos] == '-') {
        match term_at(s, pos + 1) {
            Ok((t, after)) => if after <= pos || after > s.len() {
                Err(pos)
            } else {
                expr_rest(s, after, binary_expr(s[pos], acc, t))
            },
            Err(e) => Err(e),
        }
    } else {
        Ok((acc, pos))
    }
}

/// An expression: terms joined by `+` and `-`.
pub open spec fn expr_at(s: Seq<char>, pos: int) -> Parsed<ExprModel>
    decreases s.len() - pos, 6nat,
{
    match term_at(s, pos) {
        Ok((t, after)) => if after < pos || after > s.len() {
            Err(pos)
        } else {
            expr_rest(s, after, t)
        },
        Err(e) => Err(e),
    }
}

/// The view of a parsed expression.
pub open spec fn expr_view(r: Result<(Expr, usize), usize>) -> Parsed<ExprModel> {
    match r {
        Ok((e, p)) => Ok((e@, p as int)),
        Err(e) => Err(e as int),
    }
}

/// The view of a parsed name.
pub open spec fn name_view(r: Result<(String, usize), usize>) -> Parsed<Seq<char>> {
    match r {
        Ok((t, p)) => Ok((t@, p as int)),
        Err(e) => Err(e as int),
    }
}

/// The view of a parsed path.
pub open spec fn path_view(r: Result<(Selector, usize), usize>) -> Parsed<Path> {
    match r {
        Ok((t, p)) => Ok((t@, p as int)),
        Err(e) => Err(e as int),
    }
}

/// Whether a reserved word stands at `pos`.
pub fn reserved(s: &[char], pos: usize) -> (r: bool)
    requires
        pos <= s@.len(),
    ensures
        r == reserved_at(s@, pos as int),
{
    keyword(s, pos, "select").is_some() || keyword(s, pos, "from").is_some() || keyword(
        s,
        pos,
        "where",
    ).is_some() || keyword(s, pos, "as").is_some() || keyword(s, pos, "left").is_some() || keyword(
        s,
        pos,
        "join",
    ).is_some() || keyword(s, pos, "like").is_some() || keyword(s, pos, "order").is_some()
        || keyword(s, pos, "by").is_some() || keyword(s, pos, "asc").is_some() || keyword(
        s,
        pos,
        "desc",
    ).is_some() || keyword(s, pos, "limit").is_some() || keyword(s, pos, "offset").is_some()
}

/// A name at `pos`.
pub fn string_allowed_in_field(s: &[char], pos: usize) -> (r: Result<(String, usize), usize>)
    requires
        pos <= s@.len(),
    ensures
        name_view(r) == ident_at(s@, pos as int),
        r matches Ok((_, p)) ==> pos < p <= s@.len(),
        r matches Err(e) ==> e == pos,
{
    if pos >= s.len() || !word_start(s[pos]) || reserved(s, pos) {
        return Err(pos);
    }
    let end = end_of_word(s, pos);
    assert(end > pos) by {
        assert(crate::parser::elements::is_word_char(s@[pos as int]));
        lemma_word_end(s@, pos + 1);
    }
    Ok((from_chars(slice_subrange(s, pos, end)), end))
}

/// A path at `pos`.
pub fn path(s: &[char], pos: usize) -> (r: Result<(Selector, usize), usize>)
    requires
        pos <= s@.len(),
    ensures
        path_view(r) == path_at(s@, pos as int),
        r matches Ok((_, p)) ==> pos < p <= s@.len(),
        r matches Err(e) ==> pos <= e <= s@.len(),
{
    let n = s.len();
    let (first, start) = match string_allowed_in_field(s, pos) {
        Ok(x) => x,
        Err(e) => {
            return Err(e);
        },
    };
    let mut out = Selector::new();
    out.push(SelectorNode::Field(first));
    assert(out@ =~= seq![Segment::Field(first@)]);
    let mut p: usize = start;
    loop
        invariant
            pos < p <= s@.len(),
            s@.len() <= usize::MAX,
            path_at(s@, pos as int) == segments_at(s@, p as int, out@),
        decreases s@.len() - p,
    {
        if char_at(s, p, '.') {
            match string_allowed_in_field(s, p + 1) {
                Ok((name, after)) => {
                    out.push(SelectorNode::Field(name));
                    p = after;
                },
                Err(e) => {
                    return Err(e);
                },
            }
        } else if char_at(s, p, '[') {
            match integer(s, p + 1) {
                Ok((index, after)) => {
                    if char_at(s, after, ']') {
                        out.push(SelectorNode::Index(index));
                        p = after + 1;
                    } else {
                        return Err(after);
                    }
                },
                Err(e) => {
                    return Err(e);
                },
            }
        } else {
            return Ok((out, p));
        }
    }
}

/// The expression of a binary operator.
pub fn parse_op(op: char, a: Expr, b: Expr) -> (r: Expr)
    ensures
        r@ == binary_expr(op, a@, b@),
{
    if op == '+' {
        Expr::Add(Box::new(a), Box::new(b))
    } else if op == '-' {
        Expr::Sub(Box::new(a), Box::new(b))
    } else if op == '*' {
        Expr::Mul(Box::new(a), Box::new(b))
    } else if op == '/' {
        Expr::Div(Box::new(a), Box::new(b))
    } else if op == '%' {
        Expr::Rem(Box::new(a), Box::new(b))
    } else {
        Expr::Exp(Box::new(a), Box::new(b))
    }
}

/// An expression in parentheses, behind the opening one.
fn parse_parens(s: &[char], pos: usize) -> (r: Result<(Expr, usize), usize>)
    requires
        pos <= s@.len(),
    ensures
        match r {
            Ok((e, p)) => expr_at(s@, pos as int) matches Ok((m, after)) && m == e@ && p == after + 1
                && pos < after < s@.len() && s@[after] == ')',
            Err(e) => pos <= e <= s@.len() && (expr_at(s@, pos as int) matches Err(x) ==> x == e)
                && (expr_at(s@, pos as int) matches Ok((m, after)) ==> after == e && !(0 <= after
                < s@.len() && s@[after] == ')')),
        },
    decreases s@.len() - pos, 7nat,
{
    let n = s.len();
    match parse_math_expr(s, pos) {
        Ok((e, after)) => {
            if char_at(s, after, ')') {
                Ok((e, after + 1))
            } else {
                Err(after)
            }
        },
        Err(e) => Err(e),
    }
}

/// Whether one of the words that are literal values stands at `pos`.
fn literal_word(s: &[char], pos: usize) -> (r: bool)
    requires
        pos <= s@.len(),
    ensures
        r == literal_word_at(s@, pos as int),
{
    keyword(s, pos, "null").is_some() || keyword(s, pos, "missing").is_some() || keyword(
        s,
        pos,
        "true",
    ).is_some() || keyword(s, pos, "false").is_some()
}

/// The call of COUNT behind the word itself, which ends at `end`.
fn count_call(s: &[char], end: usize) -> (r: Result<(Expr, usize), usize>)
    requires
        end <= s@.len(),
    ensures
        match r {
            Ok((e, p)) => {
                let open = skip_space(s@, end as int);
                end <= open < s@.len() && s@[open] == '(' && (expr_at(s@, open + 1) matches Ok(
                    (m, after),
                ) && e@ == ExprModel::Count(Box::new(m)) && p == after + 1 && open < after
                    < s@.len() && s@[after] == ')')
            },
            Err(e) => {
                let open = skip_space(s@, end as int);
                end <= e <= s@.len() && if end <= open < s@.len() && s@[open] == '(' {
                    (expr_at(s@, open + 1) matches Err(x) ==> x == e) && (expr_at(
                        s@,
                        open + 1,
                    ) matches Ok((m, after)) ==> after == e && !(0 <= after < s@.len() && s@[after]
                        == ')'))
                } else {
                    e == open
                }
            },
        },
    decreases s@.len() - end, 8nat,
{
    let n = s.len();
    let open = multispace0(s, end);
    if char_at(s, open, '(') {
        match parse_parens(s, open + 1) {
            Ok((e, after)) => Ok((Expr::Func(Box::new(Func::Count(e))), after)),
            Err(e) => Err(e),
        }
    } else {
        Err(open)
    }
}

/// An operand without the white space around it.
pub fn parse_path_or_num(s: &[char], p: usize) -> (r: Result<(Expr, usize), usize>)
    requires
        p <= s@.len(),
    ensures
        expr_view(r) == operand_at(s@, p as int),
        r matches Ok((_, end)) ==> p < end <= s@.len(),
        r matches Err(e) ==> p <= e <= s@.len(),
    decreases s@.len() - p, 0nat,
{
    if p >= s.len() {
        return Err(p);
    }
    proof {
        reveal_strlit("count");
    }
    let c = s[p];
    if digit(c) || (c == '-' && p + 1 < s.len() && digit(s[p + 1])) {
        return match number(s, p) {
            Ok((n, after)) => Ok((Expr::Num(n), after)),
            Err(e) => Err(e),
        };
    }
    if c == '(' {
        let inner = multispace0(s, p + 1);
        if keyword(s, inner, "select").is_some() {
            return match query(s, inner) {
                Ok((q, after)) => {
                    let close = multispace0(s, after);
                    if char_at(s, close, ')') {
                        Ok((Expr::Sql(Box::new(q)), close + 1))
                    } else {
                        Err(close)
                    }
                },
                Err(e) => Err(e),
            };
        }
        return parse_parens(s, p + 1);
    }
    match keyword(s, p, "count") {
        Some(end) => {
            return count_call(s, end);
        },
        None => {},
    }
    if c == '*' {
        return Ok((Expr::Star, p + 1));
    }
    if word_start(c) && !literal_word(s, p) {
        return match path(s, p) {
            Ok((sel, after)) => Ok((Expr::Selector(sel), after)),
            Err(e) => Err(e),
        };
    }
    match value(s, p) {
        Ok((v, after)) => Ok((Expr::Value(v), after)),
        Err(e) => Err(e),
    }
}

/// An operand with the white space around it.
pub fn parse_operation(s: &[char], pos: usize) -> (r: Result<(Expr, usize), usize>)
    requires
        pos <= s@.len(),
    ensures
        expr_view(r) == primary_at(s@, pos as int),
        r matches Ok((_, end)) ==> pos < end <= s@.len(),
        r matches Err(e) ==> pos <= e <= s@.len(),
    decreases s@.len() - pos, 1nat,
{
    let p = multispace0(s, pos);
    match parse_path_or_num(s, p) {
        Ok((e, after)) => Ok((e, multispace0(s, after))),
        Err(e) => Err(e),
    }
}

/// A factor.
pub fn parse_factor(s: &[char], pos: usize) -> (r: Result<(Expr, usize), usize>)
    requires
        pos <= s@.len(),
    ensures
        expr_view(r) == factor_at(s@, pos as int),
        r matches Ok((_, end)) ==> pos < end <= s@.len(),
        r matches Err(e) ==> pos <= e <= s@.len(),
    decreases s@.len() - pos, 2nat,
{
    let n = s.len();
    match parse_operation(s, pos) {
        Ok((base, after)) => {
            if char_at(s, after, '^') {
                match parse_factor(s, after + 1) {
                    Ok((power, end)) => Ok((parse_op('^', base, power), end)),
                    Err(e) => Err(e),
                }
            } else {
                Ok((base, after))
            }
        },
        Err(e) => Err(e),
    }
}

/// A term.
pub fn parse_term(s: &[char], pos: usize) -> (r: Result<(Expr, usize), usize>)
    requires
        pos <= s@.len(),
    ensures
        expr_view(r) == term_at(s@, pos as int),
        r matches Ok((_, end)) ==> pos < end <= s@.len(),
        r matches Err(e) ==> pos <= e <= s@.len(),
    decreases s@.len() - pos, 4nat,
{
    let n = s.len();
    let (first, start) = match parse_factor(s, pos) {
        Ok(x) => x,
        Err(e) => {
            return Err(e);
        },
    };
    let mut acc = first;
    let mut p: usize = start;
    loop
        invariant
            pos < p <= s@.len(),
            s@.len() <= usize::MAX,
            term_at(s@, pos as int) == term_rest(s@, p as int, acc@),
        decreases s@.len() - p,
    {
        if p < s.len() && (s[p] == '*' || s[p] == '/' || s[p] == '%') {
            let op = s[p];
            match parse_factor(s, p + 1) {
                Ok((f, after)) => {
                    acc = parse_op(op, acc, f);
                    p = after;
                },
                Err(e) => {
                    return Err(e);
                },
            }
        } else {
            return Ok((acc, p));
        }
    }
}

/// An expression.
pub fn parse_math_expr(s: &[char], pos: usize) -> (r: Result<(Expr, usize), usize>)
    requires
        pos <= s@.len(),
    ensures
        expr_view(r) == expr_at(s@, pos as int),
        r matches Ok((_, end)) ==> pos < end <= s@.len(),
        r matches Err(e) ==> pos <= e <= s@.len(),
    decreases s@.len() - pos, 6nat,
{
    let n = s.len();
    let (first, start) = match parse_term(s, pos) {
        Ok(x) => x,
        Err(e) => {
            return Err(e);
        },
    };
    let mut acc = first;
    let mut p: usize = start;
    loop
        invariant
            pos < p <= s@.len(),
            s@.len() <= usize::MAX,
            expr_at(s@, pos as int) == expr_rest(s@, p as int, acc@),
        decreases s@.len() - p,
    {
        if p < s.len() && (s[p] == '+' || s[p] == '-') {
            let op = s[p];
            match parse_term(s, p + 1) {
                Ok((t, after)) => {
                    acc = parse_op(op, acc, t);
                    p = after;
                },
                Err(e) => {
                    return Err(e);
                },
            }
        } else {
            return Ok((acc, p));
        }
    }
}

/// The expression at the start of a text, with the position behind it.
pub open spec fn parse_prefix(s: Seq<char>) -> Parsed<ExprModel> {
    expr_at(s, 0)
}

/// Parses the expression at the start of `input` and returns it with the
/// rest of the input. An error names the first character that does not
/// fit.
pub fn parse(input: &str) -> (r: Result<(&str, Expr), ParseError>)
    ensures
        match r {
            Ok((rest, e)) => parse_prefix(input@) matches Ok((m, after)) && m == e@ && rest@
                == input@.skip(after),
            Err(e) => parse_prefix(input@) matches Err(p) && e == error_at(input@, p),
        },
{
    let chars = to_chars(input);
    let s = chars.as_slice();
    match parse_math_expr(s, 0) {
        Ok((e, after)) => {
            let rest = input.substring_char(after, s.len());
            assert(rest@ =~= input@.skip(after as int));
            Ok((rest, e))
        },
        Err(e) => Err(error(s, e)),
    }
}

} // verus!
