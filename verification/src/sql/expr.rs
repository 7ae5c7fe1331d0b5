//! The syntax tree of a query: expressions, items, predicates and the
//! SELECT statement, which an expression may hold as a subquery.
use vstd::prelude::*;
use crate::sql::clause::{Limit, OrderBy, OrderByModel};
use crate::sql::selector::{Path, Selector};
use crate::value::model::{Rational, Value};
use crate::value::number::Number;
use crate::value::pql::PqlValue;

verus! {

/// An expression, as a mathematical value.
pub enum ExprModel {
    Value(Value),
    Selector(Path),
    Star,
    Num(Rational),
    Count(Box<ExprModel>),
    Add(Box<ExprModel>, Box<ExprModel>),
    Sub(Box<ExprModel>, Box<ExprModel>),
    Mul(Box<ExprModel>, Box<ExprModel>),
    Div(Box<ExprModel>, Box<ExprModel>),
    Rem(Box<ExprModel>, Box<ExprModel>),
    Exp(Box<ExprModel>, Box<ExprModel>),
    Sql(Box<SqlModel>),
}

/// A projection or FROM item, as a mathematical value.
pub struct FieldModel {
    pub expr: ExprModel,
    pub alias: Option<Seq<char>>,
}

/// A predicate of WHERE, as a mathematical value.
#[allow(inconsistent_fields)]
pub enum CondModel {
    Eq { expr: ExprModel, right: Value },
    Like { expr: ExprModel, right: Seq<char> },
}

/// A SELECT statement, as a mathematical value.
pub struct SqlModel {
    pub select_clause: Seq<FieldModel>,
    pub from_clause: Seq<FieldModel>,
    pub left_join_clause: Seq<FieldModel>,
    pub where_clause: Option<CondModel>,
    pub orderby: Option<OrderByModel>,
    pub limit: Option<Limit>,
}

/// A function call.
#[derive(Debug)]
pub enum Func {
    /// `COUNT(expr)`: the number of elements of a collection.
    Count(Expr),
}

/// An expression of a query.
#[derive(Debug)]
pub enum Expr {
    /// A literal value.
    Value(PqlValue),
    /// A path into the data.
    Selector(Selector),
    /// `*`: every field of the row.
    Star,
    /// A number literal.
    Num(Number),
    Func(Box<Func>),
    Add(Box<Expr>, Box<Expr>),
    Sub(Box<Expr>, Box<Expr>),
    Mul(Box<Expr>, Box<Expr>),
    Div(Box<Expr>, Box<Expr>),
    Rem(Box<Expr>, Box<Expr>),
    Exp(Box<Expr>, Box<Expr>),
    /// A subquery: a SELECT statement in parentheses.
    Sql(Box<Sql>),
}

/// An expression with an optional alias: an item of SELECT or FROM.
#[derive(Debug)]
pub struct Field {
    pub expr: Expr,
    pub alias: Option<String>,
}

/// A predicate of WHERE.
#[derive(Debug)]
#[allow(inconsistent_fields)]
pub enum WhereCond {
    /// The value that `expr` selects equals the literal `right`.
    Eq { expr: Expr, right: PqlValue },
    /// The string that `expr` selects matches the pattern `right`.
    Like { expr: Expr, right: String },
}

/// A SELECT statement.
#[derive(Debug)]
pub struct Sql {
    pub select_clause: Vec<Field>,
    pub from_clause: Vec<Field>,
    pub left_join_clause: Vec<Field>,
    pub where_clause: Option<Box<WhereCond>>,
    pub orderby: Option<OrderBy>,
    pub limit: Option<Limit>,
}

/// What an expression is.
pub open spec fn expr_model(e: Expr) -> ExprModel
    decreases e,
{
    match e {
        Expr::Value(v) => ExprModel::Value(v@),
        Expr::Selector(s) => ExprModel::Selector(s@),
        Expr::Star => ExprModel::Star,
        Expr::Num(n) => ExprModel::Num(n@),
        Expr::Func(f) => match *f {
            Func::Count(x) => ExprModel::Count(Box::new(expr_model(x))),
        },
        Expr::Add(a, b) => ExprModel::Add(Box::new(expr_model(*a)), Box::new(expr_model(*b))),
        Expr::Sub(a, b) => ExprModel::Sub(Box::new(expr_model(*a)), Box::new(expr_model(*b))),
        Expr::Mul(a, b) => ExprModel::Mul(Box::new(expr_model(*a)), Box::new(expr_model(*b))),
        Expr::Div(a, b) => ExprModel::Div(Box::new(expr_model(*a)), Box::new(expr_model(*b))),
        Expr::Rem(a, b) => ExprModel::Rem(Box::new(expr_model(*a)), Box::new(expr_model(*b))),
        Expr::Exp(a, b) => ExprModel::Exp(Box::new(expr_model(*a)), Box::new(expr_model(*b))),
        Expr::Sql(q) => ExprModel::Sql(Box::new(sql_model(*q))),
    }
}

/// What an item is.
pub open spec fn field_model(f: Field) -> FieldModel
    decreases f,
{
    FieldModel {
        expr: expr_model(f.expr),
        alias: match f.alias {
            Some(a) => Some(a@),
            None => None,
        },
    }
}

/// What each item of `fields` is, in order.
pub open spec fn field_views(fields: Seq<Field>) -> Seq<FieldModel>
    decreases fields,
{
    Seq::new(
        fields.len(),
        |i: int|
            if 0 <= i < fields.len() {
                field_model(fields[i])
            } else {
                FieldModel { expr: ExprModel::Star, alias: None }
            },
    )
}

/// What a predicate is.
pub open spec fn cond_model(c: WhereCond) -> CondModel
    decreases c,
{
    match c {
        WhereCond::Eq { expr, right } => CondModel::Eq { expr: expr_model(expr), right: right@ },
        WhereCond::Like { expr, right } => CondModel::Like { expr: expr_model(expr), right: right@ },
    }
}

/// What a statement is.
pub open spec fn sql_model(q: Sql) -> SqlModel
    decreases q,
{
    SqlModel {
        select_clause: field_views(q.select_clause@),
        from_clause: field_views(q.from_clause@),
        left_join_clause: field_views(q.left_join_clause@),
        where_clause: match q.where_clause {
            Some(c) => Some(cond_model(*c)),
            None => None,
        },
        orderby: match q.orderby {
            Some(o) => Some(o@),
            None => None,
        },
        limit: q.limit,
    }
}

impl View for Expr {
    type V = ExprModel;

    open spec fn view(&self) -> ExprModel {
        expr_model(*self)
    }
}

impl View for Field {
    type V = FieldModel;

    open spec fn view(&self) -> FieldModel {
        field_model(*self)
    }
}

impl View for WhereCond {
    type V = CondModel;

    open spec fn view(&self) -> CondModel {
        cond_model(*self)
    }
}

impl View for Sql {
    type V = SqlModel;

    open spec fn view(&self) -> SqlModel {
        sql_model(*self)
    }
}

/// The view of an optional predicate.
pub open spec fn cond_view(cond: Option<WhereCond>) -> Option<CondModel> {
    match cond {
        Some(c) => Some(c@),
        None => None,
    }
}

/// The size of an expression: the number of its nodes, those of its
/// subqueries included.
pub open spec fn expr_size(e: ExprModel) -> nat
    decreases e,
{
    match e {
        ExprModel::Value(_) => 1,
        ExprModel::Selector(_) => 1,
        ExprModel::Star => 1,
        ExprModel::Num(_) => 1,
        ExprModel::Count(x) => 1 + expr_size(*x),
        ExprModel::Add(a, b) => 1 + expr_size(*a) + expr_size(*b),
        ExprModel::Sub(a, b) => 1 + expr_size(*a) + expr_size(*b),
        ExprModel::Mul(a, b) => 1 + expr_size(*a) + expr_size(*b),
        ExprModel::Div(a, b) => 1 + expr_size(*a) + expr_size(*b),
        ExprModel::Rem(a, b) => 1 + expr_size(*a) + expr_size(*b),
        ExprModel::Exp(a, b) => 1 + expr_size(*a) + expr_size(*b),
        ExprModel::Sql(q) => 1 + sql_size(*q),
    }
}

/// The size of a list of items.
pub open spec fn fields_size(fields: Seq<FieldModel>) -> nat
    decreases fields,
{
    if fields.len() == 0 {
        0
    } else {
        fields_size(fields.drop_last()) + 1 + expr_size(fields.last().expr)
    }
}

/// The size of a predicate.
pub open spec fn cond_size(c: CondModel) -> nat
    decreases c,
{
    match c {
        CondModel::Eq { expr, right } => 1 + expr_size(expr),
        CondModel::Like { expr, right } => 1 + expr_size(expr),
    }
}

/// The size of an optional predicate.
pub open spec fn filter_size(c: Option<CondModel>) -> nat {
    match c {
        Some(x) => cond_size(x),
        None => 0,
    }
}

/// The size of a statement.
pub open spec fn sql_size(q: SqlModel) -> nat
    decreases q,
{
    1 + fields_size(q.select_clause) + fields_size(q.from_clause) + fields_size(q.left_join_clause)
        + match q.where_clause {
        Some(c) => cond_size(c),
        None => 0,
    }
}

/// A copy of an expression.
pub fn clone_expr(e: &Expr) -> (r: Expr)
    ensures
        r@ == e@,
    decreases e,
{
    match e {
        Expr::Value(v) => Expr::Value(v.clone()),
        Expr::Selector(s) => Expr::Selector(s.clone()),
        Expr::Star => Expr::Star,
        Expr::Num(n) => Expr::Num(*n),
        Expr::Func(f) => match &**f {
            Func::Count(x) => Expr::Func(Box::new(Func::Count(clone_expr(x)))),
        },
        Expr::Add(a, b) => Expr::Add(Box::new(clone_expr(&**a)), Box::new(clone_expr(&**b))),
        Expr::Sub(a, b) => Expr::Sub(Box::new(clone_expr(&**a)), Box::new(clone_expr(&**b))),
        Expr::Mul(a, b) => Expr::Mul(Box::new(clone_expr(&**a)), Box::new(clone_expr(&**b))),
        Expr::Div(a, b) => Expr::Div(Box::new(clone_expr(&**a)), Box::new(clone_expr(&**b))),
        Expr::Rem(a, b) => Expr::Rem(Box::new(clone_expr(&**a)), Box::new(clone_expr(&**b))),
        Expr::Exp(a, b) => Expr::Exp(Box::new(clone_expr(&**a)), Box::new(clone_expr(&**b))),
        Expr::Sql(q) => Expr::Sql(Box::new(clone_sql(&**q))),
    }
}

/// A copy of an item.
pub fn clone_field(f: &Field) -> (r: Field)
    ensures
        r@ == f@,
    decreases f,
{
    Field {
        expr: clone_expr(&f.expr),
        alias: match &f.alias {
            Some(a) => Some(a.clone()),
            None => None,
        },
    }
}

/// A copy of every item of `fields`.
pub fn clone_fields(fields: &Vec<Field>) -> (out: Vec<Field>)
    ensures
        field_views(out@) == field_views(fields@),
    decreases fields,
{
    let mut out: Vec<Field> = Vec::new();
    let mut i: usize = 0;
    while i < fields.len()
        invariant
            i <= fields.len(),
            out.len() == i,
            forall|j: int| 0 <= j < i ==> (#[trigger] out@[j])@ == fields@[j]@,
        decreases fields.len() - i,
    {
        out.push(clone_field(&fields[i]));
        i += 1;
    }
    assert(field_views(out@) =~= field_views(fields@));
    out
}

/// A copy of a predicate.
pub fn clone_cond(c: &WhereCond) -> (r: WhereCond)
    ensures
        r@ == c@,
    decreases c,
{
    match c {
        WhereCond::Eq { expr, right } => WhereCond::Eq {
            expr: clone_expr(expr),
            right: right.clone(),
        },
        WhereCond::Like { expr, right } => WhereCond::Like {
            expr: clone_expr(expr),
            right: right.clone(),
        },
    }
}

/// A copy of a statement.
pub fn clone_sql(q: &Sql) -> (r: Sql)
    ensures
        r@ == q@,
    decreases q,
{
    Sql {
        select_clause: clone_fields(&q.select_clause),
        from_clause: clone_fields(&q.from_clause),
        left_join_clause: clone_fields(&q.left_join_clause),
        where_clause: match &q.where_clause {
            Some(c) => Some(Box::new(clone_cond(&**c))),
            None => None,
        },
        orderby: match &q.orderby {
            Some(o) => Some(o.clone()),
            None => None,
        },
        limit: q.limit,
    }
}

impl Clone for Expr {
    fn clone(&self) -> (r: Self)
        ensures
            r@ == self@,
    {
        clone_expr(self)
    }
}

impl Clone for Field {
    fn clone(&self) -> (r: Self)
        ensures
            r@ == self@,
    {
        clone_field(self)
    }
}

impl Clone for WhereCond {
    fn clone(&self) -> (r: Self)
        ensures
            r@ == self@,
    {
        clone_cond(self)
    }
}

impl Clone for Sql {
    fn clone(&self) -> (r: Self)
        ensures
            r@ == self@,
    {
        clone_sql(self)
    }
}

impl Default for Expr {
    /// The number zero.
    fn default() -> (r: Self)
        ensures
            r@ == ExprModel::Num(Rational { num: 0, den: 1 }),
    {
        Expr::Num(Number::from_i64(0))
    }
}

} // verus!
