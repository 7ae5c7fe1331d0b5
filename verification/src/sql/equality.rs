//! Equality of selectors and expressions.
use vstd::prelude::*;
use vstd::std_specs::cmp::PartialEqSpecImpl;
use crate::sql::expr::{
    field_views, CondModel, Expr, ExprModel, Field, FieldModel, Func, Sql, SqlModel, WhereCond,
};
use crate::sql::selector::{Selector, SelectorNode};
use crate::value::model::{same_number, values_equal};

verus! {

/// Equality of expressions: the same shape, with equal literal values,
/// equal numbers and the same paths.
pub open spec fn exprs_equal(a: ExprModel, b: ExprModel) -> bool
    decreases a,
{
    match a {
        ExprModel::Value(x) => b matches ExprModel::Value(y) && values_equal(x, y),
        ExprModel::Selector(p) => b == a,
        ExprModel::Star => b is Star,
        ExprModel::Num(n) => b matches ExprModel::Num(m) && same_number(n, m),
        ExprModel::Count(x) => b matches ExprModel::Count(y) && exprs_equal(*x, *y),
        ExprModel::Add(x1, x2) => b matches ExprModel::Add(y1, y2) && exprs_equal(*x1, *y1)
            && exprs_equal(*x2, *y2),
        ExprModel::Sub(x1, x2) => b matches ExprModel::Sub(y1, y2) && exprs_equal(*x1, *y1)
            && exprs_equal(*x2, *y2),
        ExprModel::Mul(x1, x2) => b matches ExprModel::Mul(y1, y2) && exprs_equal(*x1, *y1)
            && exprs_equal(*x2, *y2),
        ExprModel::Div(x1, x2) => b matches ExprModel::Div(y1, y2) && exprs_equal(*x1, *y1)
            && exprs_equal(*x2, *y2),
        ExprModel::Rem(x1, x2) => b matches ExprModel::Rem(y1, y2) && exprs_equal(*x1, *y1)
            && exprs_equal(*x2, *y2),
        ExprModel::Exp(x1, x2) => b matches ExprModel::Exp(y1, y2) && exprs_equal(*x1, *y1)
            && exprs_equal(*x2, *y2),
        ExprModel::Sql(x) => b matches ExprModel::Sql(y) && sqls_equal(*x, *y),
    }
}

/// Equality of lists of items: the same aliases and equal expressions,
/// item by item.
pub open spec fn fields_equal(a: Seq<FieldModel>, b: Seq<FieldModel>) -> bool
    decreases a,
{
    a.len() == b.len() && forall|i: int|
        0 <= i < a.len() ==> (#[trigger] a[i]).alias == b[i].alias && exprs_equal(a[i].expr, b[i].expr)
}

/// Equality of optional predicates.
pub open spec fn conds_equal(a: Option<CondModel>, b: Option<CondModel>) -> bool
    decreases a,
{
    match a {
        None => b is None,
        Some(CondModel::Eq { expr, right }) => b matches Some(CondModel::Eq { expr: e, right: r })
            && exprs_equal(expr, e) && values_equal(right, r),
        Some(CondModel::Like { expr, right }) => b matches Some(
            CondModel::Like { expr: e, right: r },
        ) && exprs_equal(expr, e) && right == r,
    }
}

/// Equality of statements, clause by clause.
pub open spec fn sqls_equal(a: SqlModel, b: SqlModel) -> bool
    decreases a,
{
    fields_equal(a.select_clause, b.select_clause) && fields_equal(a.from_clause, b.from_clause)
        && fields_equal(a.left_join_clause, b.left_join_clause) && conds_equal(
        a.where_clause,
        b.where_clause,
    ) && a.orderby == b.orderby && a.limit == b.limit
}

impl SelectorNode {
    /// Whether the two segments are the same.
    pub fn equals(&self, other: &SelectorNode) -> (r: bool)
        ensures
            r == (self@ == other@),
    {
        match (self, other) {
            (SelectorNode::Field(a), SelectorNode::Field(b)) => *a == *b,
            (SelectorNode::Index(a), SelectorNode::Index(b)) => *a == *b,
            _ => false,
        }
    }
}

impl Selector {
    /// Whether the two selectors have the same segments.
    pub fn equals(&self, other: &Selector) -> (r: bool)
        ensures
            r == (self@ == other@),
    {
        if self.data.len() != other.data.len() {
            assert(self@.len() != other@.len());
            return false;
        }
        let mut i: usize = 0;
        while i < self.data.len()
            invariant
                i <= self.data.len(),
                self.data.len() == other.data.len(),
                forall|j: int| 0 <= j < i ==> self@[j] == other@[j],
            decreases self.data.len() - i,
        {
            if !self.data[i].equals(&other.data[i]) {
                assert(self@[i as int] != other@[i as int]);
                return false;
            }
            i += 1;
        }
        assert(self@ =~= other@);
        true
    }
}

impl PartialEq for Selector {
    fn eq(&self, other: &Selector) -> (r: bool) {
        self.equals(other)
    }
}

impl PartialEqSpecImpl for Selector {
    open spec fn obeys_eq_spec() -> bool {
        true
    }

    open spec fn eq_spec(&self, other: &Selector) -> bool {
        self@ == other@
    }
}

impl Expr {
    /// Whether the two expressions are equal; see [`exprs_equal`].
    pub fn equals(&self, other: &Expr) -> (r: bool)
        ensures
            r == exprs_equal(self@, other@),
        decreases self,
    {
        match (self, other) {
            (Expr::Value(x), Expr::Value(y)) => x.equals(y),
            (Expr::Selector(x), Expr::Selector(y)) => x.equals(y),
            (Expr::Star, Expr::Star) => true,
            (Expr::Num(x), Expr::Num(y)) => x.same(y),
            (Expr::Func(x), Expr::Func(y)) => match (&**x, &**y) {
                (Func::Count(a), Func::Count(b)) => a.equals(b),
            },
            (Expr::Add(x1, x2), Expr::Add(y1, y2)) => (**x1).equals(&**y1) && (**x2).equals(&**y2),
            (Expr::Sub(x1, x2), Expr::Sub(y1, y2)) => (**x1).equals(&**y1) && (**x2).equals(&**y2),
            (Expr::Mul(x1, x2), Expr::Mul(y1, y2)) => (**x1).equals(&**y1) && (**x2).equals(&**y2),
            (Expr::Div(x1, x2), Expr::Div(y1, y2)) => (**x1).equals(&**y1) && (**x2).equals(&**y2),
            (Expr::Rem(x1, x2), Expr::Rem(y1, y2)) => (**x1).equals(&**y1) && (**x2).equals(&**y2),
            (Expr::Exp(x1, x2), Expr::Exp(y1, y2)) => (**x1).equals(&**y1) && (**x2).equals(&**y2),
            (Expr::Sql(x), Expr::Sql(y)) => (**x).equals(&**y),
            _ => false,
        }
    }
}

/// Whether two texts that may be absent are the same.
fn same_alias(a: &Option<String>, b: &Option<String>) -> (r: bool)
    ensures
        r == (match a {
            Some(x) => Some(x@),
            None => None,
        } == match b {
            Some(y) => Some(y@),
            None => None,
        }),
{
    match (a, b) {
        (Some(x), Some(y)) => *x == *y,
        (None, None) => true,
        _ => false,
    }
}

/// Whether two lists of items are equal.
fn fields_equals(a: &Vec<Field>, b: &Vec<Field>) -> (r: bool)
    ensures
        r == fields_equal(field_views(a@), field_views(b@)),
    decreases a,
{
    if a.len() != b.len() {
        return false;
    }
    let mut i: usize = 0;
    while i < a.len()
        invariant
            i <= a.len(),
            a.len() == b.len(),
            forall|j: int|
                0 <= j < i ==> (#[trigger] field_views(a@)[j]).alias == field_views(b@)[j].alias
                    && exprs_equal(field_views(a@)[j].expr, field_views(b@)[j].expr),
        decreases a.len() - i,
    {
        assert(field_views(a@)[i as int] == a@[i as int]@);
        assert(field_views(b@)[i as int] == b@[i as int]@);
        if !same_alias(&a[i].alias, &b[i].alias) || !a[i].expr.equals(&b[i].expr) {
            return false;
        }
        i += 1;
    }
    true
}

/// Whether two optional predicates are equal.
fn conds_equals(a: &Option<Box<WhereCond>>, b: &Option<Box<WhereCond>>) -> (r: bool)
    ensures
        r == conds_equal(
            match a {
                Some(c) => Some((**c)@),
                None => None,
            },
            match b {
                Some(c) => Some((**c)@),
                None => None,
            },
        ),
    decreases a,
{
    match (a, b) {
        (None, None) => true,
        (Some(x), Some(y)) => match (&**x, &**y) {
            (WhereCond::Eq { expr: e1, right: r1 }, WhereCond::Eq { expr: e2, right: r2 }) => {
                e1.equals(e2) && r1.equals(r2)
            },
            (WhereCond::Like { expr: e1, right: r1 }, WhereCond::Like { expr: e2, right: r2 }) => {
                e1.equals(e2) && *r1 == *r2
            },
            _ => false,
        },
        _ => false,
    }
}

impl Sql {
    /// Whether the two statements are equal; see [`sqls_equal`].
    pub fn equals(&self, other: &Sql) -> (r: bool)
        ensures
            r == sqls_equal(self@, other@),
        decreases self,
    {
        let order = match (&self.orderby, &other.orderby) {
            (Some(x), Some(y)) => x.label == y.label && x.is_asc == y.is_asc,
            (None, None) => true,
            _ => false,
        };
        let limit = match (&self.limit, &other.limit) {
            (Some(x), Some(y)) => x.limit == y.limit && x.offset == y.offset,
            (None, None) => true,
            _ => false,
        };
        fields_equals(&self.select_clause, &other.select_clause) && fields_equals(
            &self.from_clause,
            &other.from_clause,
        ) && fields_equals(&self.left_join_clause, &other.left_join_clause) && conds_equals(
            &self.where_clause,
            &other.where_clause,
        ) && order && limit
    }
}

impl PartialEq for Expr {
    fn eq(&self, other: &Expr) -> (r: bool) {
        self.equals(other)
    }
}

impl PartialEqSpecImpl for Expr {
    open spec fn obeys_eq_spec() -> bool {
        true
    }

    open spec fn eq_spec(&self, other: &Expr) -> bool {
        exprs_equal(self@, other@)
    }
}

} // verus!
