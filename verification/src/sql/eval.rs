//! Evaluation of expressions in an environment.
use vstd::prelude::*;
use crate::planner::plan::{execute_plan, plan_of, LogicalPlan};
use crate::sql::arith::{apply_op, apply_values, result_view, EvalError, Op};
use crate::sql::env::{expand, innermost_binding, root_with, Env, EnvModel, FrameModel};
use crate::sql::expr::{
    clone_sql,
    expr_size,
    sql_size,
    Expr,
    ExprModel,
    Field,
    FieldModel,
    Func,
    Sql,
    SqlModel,
};
use crate::sql::selector::{Path, Segment, Selector, SelectorNode};
use crate::value::model::{
    index_of,
    items_size,
    lemma_entry_size,
    lemma_index_of,
    lemma_item_size,
    value_size,
    Rational,
    Value,
};
use crate::value::navigate::{navigate, output_key};
use crate::value::number::Number;
use crate::value::object::object_get;
use crate::value::pql::{lemma_view_items, views, PqlValue};

verus! {

/// How many of `items` are neither Null nor Missing.
pub open spec fn count_present(items: Seq<Value>) -> nat
    decreases items.len(),
{
    if items.len() == 0 {
        0
    } else {
        count_present(items.drop_last()) + if items.last() is Null || items.last() is Missing {
            0nat
        } else {
            1nat
        }
    }
}

/// What COUNT gives: for a collection the number of its elements that are
/// neither Null nor Missing; for any other value one, or zero if it is
/// Null or Missing. A count that no number holds is Missing.
pub open spec fn count_value(v: Value) -> Value {
    let n = if v.is_collection() {
        count_present(v.items())
    } else if v is Null || v is Missing {
        0
    } else {
        1
    };
    if n <= i64::MAX {
        Value::Num(Rational { num: n as int, den: 1 })
    } else {
        Value::Missing
    }
}

/// The expression with every path in full form; `*` becomes the path of
/// the innermost alias. A subquery is left as it is: its paths are put in
/// full form when it is run.
pub open spec fn expand_expr(e: ExprModel, frames: Seq<FrameModel>) -> ExprModel
    decreases e,
{
    match e {
        ExprModel::Value(v) => e,
        ExprModel::Num(n) => e,
        ExprModel::Sql(q) => e,
        ExprModel::Selector(p) => ExprModel::Selector(expand(frames, p)),
        ExprModel::Star => ExprModel::Selector(expand(frames, Seq::empty())),
        ExprModel::Count(x) => ExprModel::Count(Box::new(expand_expr(*x, frames))),
        ExprModel::Add(a, b) => ExprModel::Add(
            Box::new(expand_expr(*a, frames)),
            Box::new(expand_expr(*b, frames)),
        ),
        ExprModel::Sub(a, b) => ExprModel::Sub(
            Box::new(expand_expr(*a, frames)),
            Box::new(expand_expr(*b, frames)),
        ),
        ExprModel::Mul(a, b) => ExprModel::Mul(
            Box::new(expand_expr(*a, frames)),
            Box::new(expand_expr(*b, frames)),
        ),
        ExprModel::Div(a, b) => ExprModel::Div(
            Box::new(expand_expr(*a, frames)),
            Box::new(expand_expr(*b, frames)),
        ),
        ExprModel::Rem(a, b) => ExprModel::Rem(
            Box::new(expand_expr(*a, frames)),
            Box::new(expand_expr(*b, frames)),
        ),
        ExprModel::Exp(a, b) => ExprModel::Exp(
            Box::new(expand_expr(*a, frames)),
            Box::new(expand_expr(*b, frames)),
        ),
    }
}

/// Putting paths in full form does not change the size of an expression.
pub proof fn lemma_expand_size(e: ExprModel, frames: Seq<FrameModel>)
    ensures
        expr_size(expand_expr(e, frames)) == expr_size(e),
    decreases e,
{
    match e {
        ExprModel::Count(x) => {
            lemma_expand_size(*x, frames);
        },
        ExprModel::Add(a, b) => {
            lemma_expand_size(*a, frames);
            lemma_expand_size(*b, frames);
        },
        ExprModel::Sub(a, b) => {
            lemma_expand_size(*a, frames);
            lemma_expand_size(*b, frames);
        },
        ExprModel::Mul(a, b) => {
            lemma_expand_size(*a, frames);
            lemma_expand_size(*b, frames);
        },
        ExprModel::Div(a, b) => {
            lemma_expand_size(*a, frames);
            lemma_expand_size(*b, frames);
        },
        ExprModel::Rem(a, b) => {
            lemma_expand_size(*a, frames);
            lemma_expand_size(*b, frames);
        },
        ExprModel::Exp(a, b) => {
            lemma_expand_size(*a, frames);
            lemma_expand_size(*b, frames);
        },
        _ => {},
    }
}

/// The result of an operator on two results: the first error wins.
pub open spec fn binary(op: Op, x: Result<Value, EvalError>, y: Result<Value, EvalError>) -> Result<
    Value,
    EvalError,
> {
    match x {
        Ok(a) => match y {
            Ok(b) => apply_op(op, a, b),
            Err(e) => Err(e),
        },
        Err(e) => Err(e),
    }
}

/// The first error among the results.
pub open spec fn first_error(results: Seq<Result<Value, EvalError>>) -> EvalError
    decreases results.len(),
{
    if results.len() == 0 {
        EvalError::TypeError
    } else {
        match results[0] {
            Err(e) => e,
            Ok(_) => first_error(results.drop_first()),
        }
    }
}

/// A collection of the kind of `shape` from the results for its elements,
/// or the first error among them.
pub open spec fn collect_rows(shape: Value, results: Seq<Result<Value, EvalError>>) -> Result<
    Value,
    EvalError,
> {
    if crate::sql::arith::all_ok(results) {
        Ok(shape.with_items(crate::sql::arith::ok_values(results)))
    } else {
        Err(first_error(results))
    }
}

/// The environment in which a subquery sees one row of the enclosing
/// query: the data with the row under the alias, and, in a frame of its
/// own on top of the enclosing frames, the alias bound to the row.
pub open spec fn row_env(env: EnvModel, alias: Seq<char>, row: Value) -> EnvModel {
    EnvModel {
        root: root_with(env.root, alias, row),
        frames: env.frames.push(seq![(alias, seq![Segment::Field(alias)])]),
    }
}

/// The value of an expression whose paths are in full form. A path gives
/// what it leads to from the data, `*` the data, a subquery its rows.
pub open spec fn eval_expr(e: ExprModel, env: EnvModel) -> Result<Value, EvalError>
    decreases expr_size(e), 0nat, 0nat,
{
    match e {
        ExprModel::Value(v) => Ok(v),
        ExprModel::Num(n) => Ok(Value::Num(n)),
        ExprModel::Selector(p) => Ok(navigate(env.root, p)),
        ExprModel::Star => Ok(env.root),
        ExprModel::Count(x) => match eval_expr(*x, env) {
            Ok(v) => Ok(count_value(v)),
            Err(e) => Err(e),
        },
        ExprModel::Add(a, b) => binary(Op::Add, eval_expr(*a, env), eval_expr(*b, env)),
        ExprModel::Sub(a, b) => binary(Op::Sub, eval_expr(*a, env), eval_expr(*b, env)),
        ExprModel::Mul(a, b) => binary(Op::Mul, eval_expr(*a, env), eval_expr(*b, env)),
        ExprModel::Div(a, b) => binary(Op::Div, eval_expr(*a, env), eval_expr(*b, env)),
        ExprModel::Rem(a, b) => binary(Op::Rem, eval_expr(*a, env), eval_expr(*b, env)),
        ExprModel::Exp(a, b) => binary(Op::Exp, eval_expr(*a, env), eval_expr(*b, env)),
        ExprModel::Sql(q) => subquery_value(*q, env),
    }
}

/// The value of a subquery. Where an alias is bound, the subquery is run
/// anew for every row of the innermost alias, and the value has the shape
/// of what that alias leads to, with the rows of the subquery in place of
/// each row; where none is bound it is run once over the data. Each run
/// has a frame of its own on top of the enclosing frames.
pub open spec fn subquery_value(q: SqlModel, env: EnvModel) -> Result<Value, EvalError>
    decreases sql_size(q), 10nat, 0nat,
{
    match innermost_binding(env.frames) {
        Some(b) => each_row(env.root, b.1, q, b.0, env),
        None => run_sql(q, EnvModel { root: env.root, frames: env.frames.push(Seq::empty()) }),
    }
}

/// The results of the subquery `q` for each of `rows`, one run for each.
pub open spec fn run_each(rows: Seq<Value>, q: SqlModel, alias: Seq<char>, data: EnvModel) -> Seq<
    Result<Value, EvalError>,
>
    decreases sql_size(q), 8nat, rows.len(),
{
    if rows.len() == 0 {
        Seq::empty()
    } else {
        run_each(rows.drop_last(), q, alias, data).push(
            run_sql(q, row_env(data, alias, rows.last())),
        )
    }
}

/// The results of the runs, one for each row in order.
pub proof fn lemma_run_each(rows: Seq<Value>, q: SqlModel, alias: Seq<char>, data: EnvModel)
    ensures
        run_each(rows, q, alias, data).len() == rows.len(),
        forall|i: int|
            0 <= i < rows.len() ==> #[trigger] run_each(rows, q, alias, data)[i] == run_sql(
                q,
                row_env(data, alias, rows[i]),
            ),
    decreases rows.len(),
{
    if rows.len() > 0 {
        lemma_run_each(rows.drop_last(), q, alias, data);
        assert forall|i: int| 0 <= i < rows.len() implies #[trigger] run_each(
            rows,
            q,
            alias,
            data,
        )[i] == run_sql(q, row_env(data, alias, rows[i])) by {
            if i < rows.len() - 1 {
                assert(rows.drop_last()[i] == rows[i]);
            }
        }
    }
}

/// The rows of the subquery `q` for every row that `path` leads to from
/// each of `items`.
pub open spec fn each_row_of(
    items: Seq<Value>,
    path: Path,
    q: SqlModel,
    alias: Seq<char>,
    data: EnvModel,
) -> Seq<Result<Value, EvalError>>
    decreases sql_size(q), 9nat, 2 * items_size(items) + 1,
{
    if items.len() == 0 {
        Seq::empty()
    } else {
        each_row_of(items.drop_last(), path, q, alias, data).push(
            each_row(items.last(), path, q, alias, data),
        )
    }
}

/// The rows of the subquery `q` for every row that `path` leads to from
/// `v`, in the shape in which the path finds them; Missing where the path
/// leads nowhere. What the path leads to is one row, or, if it is a
/// collection, a row for each of its elements.
pub open spec fn each_row(v: Value, path: Path, q: SqlModel, alias: Seq<char>, data: EnvModel) -> Result<
    Value,
    EvalError,
>
    decreases sql_size(q), 9nat, 2 * value_size(v),
{
    if path.len() == 0 {
        if v.is_collection() {
            collect_rows(v, run_each(v.items(), q, alias, data))
        } else {
            run_sql(q, row_env(data, alias, v))
        }
    } else {
        match v {
            Value::Object(entries) => match path[0] {
                Segment::Field(key) => {
                    let i = index_of(entries, key);
                    if 0 <= i < entries.len() {
                        proof {
                            lemma_entry_size(entries, i);
                        }
                        each_row(entries[i].1, path.skip(1), q, alias, data)
                    } else {
                        Ok(Value::Missing)
                    }
                },
                Segment::Index(_) => Ok(Value::Missing),
            },
            Value::Array(items) => match path[0] {
                Segment::Index(i) => if i < items.len() {
                    proof {
                        lemma_item_size(items, i as int);
                    }
                    each_row(items[i as int], path.skip(1), q, alias, data)
                } else {
                    Ok(Value::Missing)
                },
                Segment::Field(_) => collect_rows(v, each_row_of(items, path, q, alias, data)),
            },
            Value::Bag(items) => match path[0] {
                Segment::Index(i) => if i < items.len() {
                    proof {
                        lemma_item_size(items, i as int);
                    }
                    each_row(items[i as int], path.skip(1), q, alias, data)
                } else {
                    Ok(Value::Missing)
                },
                Segment::Field(_) => collect_rows(v, each_row_of(items, path, q, alias, data)),
            },
            _ => Ok(Value::Missing),
        }
    }
}

/// The results for the elements, one for each in order.
pub proof fn lemma_each_row_of(
    items: Seq<Value>,
    path: Path,
    q: SqlModel,
    alias: Seq<char>,
    data: EnvModel,
)
    ensures
        each_row_of(items, path, q, alias, data).len() == items.len(),
        forall|i: int|
            0 <= i < items.len() ==> #[trigger] each_row_of(items, path, q, alias, data)[i]
                == each_row(items[i], path, q, alias, data),
    decreases items.len(),
{
    if items.len() > 0 {
        lemma_each_row_of(items.drop_last(), path, q, alias, data);
        assert forall|i: int| 0 <= i < items.len() implies #[trigger] each_row_of(
            items,
            path,
            q,
            alias,
            data,
        )[i] == each_row(items[i], path, q, alias, data) by {
            if i < items.len() - 1 {
                assert(items.drop_last()[i] == items[i]);
            }
        }
    }
}

/// The result of a statement in an environment: the result of its plan.
pub open spec fn run_sql(q: SqlModel, env: EnvModel) -> Result<Value, EvalError>
    decreases sql_size(q), 7nat, 0nat,
{
    execute_plan(plan_of(q), env)
}

/// The output key of a projection item: its alias, else the name of the
/// last segment of its path, else the empty string.
pub open spec fn field_key(f: FieldModel) -> Seq<char> {
    match f.alias {
        Some(a) => a,
        None => match f.expr {
            ExprModel::Selector(p) => output_key(None, p),
            _ => Seq::empty(),
        },
    }
}

/// How many of `items` are neither Null nor Missing.
fn count_items(items: &Vec<PqlValue>) -> (n: usize)
    ensures
        n == count_present(views(items@)),
{
    let mut n: usize = 0;
    let mut i: usize = 0;
    assert(views(items@).take(0) =~= Seq::<Value>::empty());
    while i < items.len()
        invariant
            i <= items.len(),
            n <= i,
            n == count_present(views(items@).take(i as int)),
        decreases items.len() - i,
    {
        proof {
            let next = views(items@).take(i + 1);
            assert(next.drop_last() =~= views(items@).take(i as int));
            assert(next.last() == items@[i as int]@);
        }
        match &items[i] {
            PqlValue::Null => {},
            PqlValue::Missing => {},
            _ => {
                n += 1;
            },
        }
        i += 1;
    }
    assert(views(items@).take(i as int) =~= views(items@));
    n
}

/// What COUNT gives for `v`.
pub fn count(v: &PqlValue) -> (r: PqlValue)
    ensures
        r@ == count_value(v@),
{
    proof {
        lemma_view_items(*v);
    }
    let n: usize = match v {
        PqlValue::Array(items) => count_items(items),
        PqlValue::Bag(items) => count_items(items),
        PqlValue::Null => 0,
        PqlValue::Missing => 0,
        _ => 1,
    };
    if n as u64 <= 0x7fff_ffff_ffff_ffff {
        PqlValue::Num(Number::from_i64(n as i64))
    } else {
        PqlValue::Missing
    }
}

/// The result of an operator on two results: the first error wins.
fn combine(op: Op, x: Result<PqlValue, EvalError>, y: Result<PqlValue, EvalError>) -> (r: Result<
    PqlValue,
    EvalError,
>)
    ensures
        result_view(r) == binary(op, result_view(x), result_view(y)),
{
    match x {
        Ok(a) => match y {
            Ok(b) => apply_values(op, &a, &b),
            Err(e) => Err(e),
        },
        Err(e) => Err(e),
    }
}

impl Expr {
    /// The expression with every path in full form.
    pub fn expand_fullpath(&self, env: &Env) -> (r: Expr)
        ensures
            r@ == expand_expr(self@, env@.frames),
        decreases self,
    {
        match self {
            Expr::Value(v) => Expr::Value(v.clone()),
            Expr::Num(n) => Expr::Num(*n),
            Expr::Sql(q) => Expr::Sql(Box::new(clone_sql(&**q))),
            Expr::Selector(s) => Expr::Selector(env.expand_fullpath(s)),
            Expr::Star => {
                let here = Selector::new();
                Expr::Selector(env.expand_fullpath(&here))
            },
            Expr::Func(f) => match &**f {
                Func::Count(x) => Expr::Func(Box::new(Func::Count(x.expand_fullpath(env)))),
            },
            Expr::Add(a, b) => Expr::Add(
                Box::new((**a).expand_fullpath(env)),
                Box::new((**b).expand_fullpath(env)),
            ),
            Expr::Sub(a, b) => Expr::Sub(
                Box::new((**a).expand_fullpath(env)),
                Box::new((**b).expand_fullpath(env)),
            ),
            Expr::Mul(a, b) => Expr::Mul(
                Box::new((**a).expand_fullpath(env)),
                Box::new((**b).expand_fullpath(env)),
            ),
            Expr::Div(a, b) => Expr::Div(
                Box::new((**a).expand_fullpath(env)),
                Box::new((**b).expand_fullpath(env)),
            ),
            Expr::Rem(a, b) => Expr::Rem(
                Box::new((**a).expand_fullpath(env)),
                Box::new((**b).expand_fullpath(env)),
            ),
            Expr::Exp(a, b) => Expr::Exp(
                Box::new((**a).expand_fullpath(env)),
                Box::new((**b).expand_fullpath(env)),
            ),
        }
    }

    /// The value of the expression in `env`; its paths are taken as full
    /// paths from the data of `env`.
    pub fn eval(&self, env: &Env) -> (r: Result<PqlValue, EvalError>)
        ensures
            result_view(r) == eval_expr(self@, env@),
        decreases expr_size(self@), 0nat, 0nat,
    {
        match self {
            Expr::Value(v) => Ok(v.clone()),
            Expr::Num(n) => Ok(PqlValue::Num(*n)),
            Expr::Selector(s) => Ok(env.root().select_by_selector(s)),
            Expr::Star => Ok(env.root().clone()),
            Expr::Func(f) => match &**f {
                Func::Count(x) => match x.eval(env) {
                    Ok(v) => Ok(count(&v)),
                    Err(e) => Err(e),
                },
            },
            Expr::Add(a, b) => combine(Op::Add, (**a).eval(env), (**b).eval(env)),
            Expr::Sub(a, b) => combine(Op::Sub, (**a).eval(env), (**b).eval(env)),
            Expr::Mul(a, b) => combine(Op::Mul, (**a).eval(env), (**b).eval(env)),
            Expr::Div(a, b) => combine(Op::Div, (**a).eval(env), (**b).eval(env)),
            Expr::Rem(a, b) => combine(Op::Rem, (**a).eval(env), (**b).eval(env)),
            Expr::Exp(a, b) => combine(Op::Exp, (**a).eval(env), (**b).eval(env)),
            Expr::Sql(q) => subquery(&**q, env),
        }
    }

    /// The value of the expression over the data `root`, with no alias
    /// bound; its paths are taken as full paths.
    pub fn eval_over(&self, root: &PqlValue) -> (r: Result<PqlValue, EvalError>)
        ensures
            result_view(r) == eval_expr(
                self@,
                EnvModel { root: root@, frames: seq![Seq::<(Seq<char>, Path)>::empty()] },
            ),
    {
        let env = Env::new(root.clone());
        self.eval(&env)
    }
}

/// Runs the statement `q` in `env`.
fn run_in(q: &Sql, env: Env) -> (r: Result<PqlValue, EvalError>)
    ensures
        result_view(r) == run_sql(q@, env@),
    decreases sql_size(q@), 7nat, 0nat,
{
    let plan = LogicalPlan::from_sql(clone_sql(q));
    let mut inner = env;
    plan.execute(&mut inner)
}

/// The value of the subquery `q` in `env`.
fn subquery(q: &Sql, env: &Env) -> (r: Result<PqlValue, EvalError>)
    ensures
        result_view(r) == subquery_value(q@, env@),
    decreases sql_size(q@), 10nat, 0nat,
{
    match env.innermost() {
        Some(b) => {
            assert(b.path@.skip(0) =~= b.path@);
            rows_of(env.root(), &b.path, 0, q, b.alias.as_str(), env)
        },
        None => {
            let mut inner = env.with_root(env.root().clone());
            inner.push_frame();
            run_in(q, inner)
        },
    }
}

/// Runs the subquery `q` for the row `row`.
fn run_for(row: &PqlValue, q: &Sql, alias: &str, data: &Env) -> (r: Result<PqlValue, EvalError>)
    ensures
        result_view(r) == run_sql(q@, row_env(data@, alias@, row@)),
    decreases sql_size(q@), 7nat, 1nat,
{
    let mut env = data.with_root(data.root().clone());
    env.push_frame();
    env.bind_value(alias.to_owned(), row.clone());
    proof {
        let inside = data@.frames.push(Seq::empty());
        assert(inside.drop_last() =~= data@.frames);
        assert(inside.last().push((alias@, seq![Segment::Field(alias@)])) =~= seq![
            (alias@, seq![Segment::Field(alias@)]),
        ]);
        assert(env@.frames =~= row_env(data@, alias@, row@).frames);
    }
    run_in(q, env)
}

/// Runs the subquery `q` for each of `rows` and gathers the results.
fn run_for_each(rows: &Vec<PqlValue>, q: &Sql, alias: &str, data: &Env) -> (r: Result<
    Vec<PqlValue>,
    EvalError,
>)
    ensures
        match r {
            Ok(out) => collect_rows(
                Value::Array(views(rows@)),
                run_each(views(rows@), q@, alias@, data@),
            ) == Ok::<Value, EvalError>(Value::Array(views(out@))) && crate::sql::arith::all_ok(
                run_each(views(rows@), q@, alias@, data@),
            ) && views(out@) == crate::sql::arith::ok_values(
                run_each(views(rows@), q@, alias@, data@),
            ),
            Err(e) => !crate::sql::arith::all_ok(run_each(views(rows@), q@, alias@, data@))
                && first_error(run_each(views(rows@), q@, alias@, data@)) == e,
        },
    decreases sql_size(q@), 8nat, rows.len(),
{
    let ghost results = run_each(views(rows@), q@, alias@, data@);
    proof {
        lemma_run_each(views(rows@), q@, alias@, data@);
    }
    let mut out: Vec<PqlValue> = Vec::new();
    let mut i: usize = 0;
    while i < rows.len()
        invariant
            i <= rows.len(),
            results == run_each(views(rows@), q@, alias@, data@),
            results.len() == rows.len(),
            forall|j: int|
                0 <= j < rows.len() ==> #[trigger] results[j] == run_sql(
                    q@,
                    row_env(data@, alias@, views(rows@)[j]),
                ),
            out.len() == i,
            forall|j: int|
                0 <= j < i ==> results[j] == Ok::<Value, EvalError>((#[trigger] out@[j])@),
        decreases rows.len() - i,
    {
        assert(views(rows@)[i as int] == rows@[i as int]@);
        match run_for(&rows[i], q, alias, data) {
            Ok(v) => {
                out.push(v);
            },
            Err(e) => {
                proof {
                    assert(results[i as int] == Err::<Value, EvalError>(e));
                    assert forall|j: int| 0 <= j < i implies (#[trigger] results[j]) is Ok by {
                        assert(results[j] == Ok::<Value, EvalError>(out@[j]@));
                    }
                    lemma_first_error(results, i as int);
                }
                return Err(e);
            },
        }
        i += 1;
    }
    proof {
        assert forall|j: int| 0 <= j < results.len() implies (#[trigger] results[j]) is Ok by {
            assert(results[j] == Ok::<Value, EvalError>(out@[j]@));
        }
        assert forall|j: int| 0 <= j < rows.len() implies views(out@)[j]
            == #[trigger] crate::sql::arith::ok_values(results)[j] by {
            assert(results[j] == Ok::<Value, EvalError>(out@[j]@));
        }
        assert(views(out@) =~= crate::sql::arith::ok_values(results));
    }
    Ok(out)
}

/// The results for the elements of a collection.
fn rows_of_each(
    items: &Vec<PqlValue>,
    path: &Selector,
    from: usize,
    q: &Sql,
    alias: &str,
    data: &Env,
) -> (r: Result<Vec<PqlValue>, EvalError>)
    requires
        from < path@.len(),
    ensures
        match r {
            Ok(out) => out.len() == items.len() && forall|i: int|
                0 <= i < items.len() ==> each_row(
                    items@[i]@,
                    path@.skip(from as int),
                    q@,
                    alias@,
                    data@,
                ) == Ok::<Value, EvalError>((#[trigger] out@[i])@),
            Err(e) => exists|k: int|
                0 <= k < items.len() && each_row(
                    items@[k]@,
                    path@.skip(from as int),
                    q@,
                    alias@,
                    data@,
                ) == Err::<Value, EvalError>(e) && forall|i: int|
                    0 <= i < k ==> (#[trigger] each_row(
                        items@[i]@,
                        path@.skip(from as int),
                        q@,
                        alias@,
                        data@,
                    )) is Ok,
        },
    decreases sql_size(q@), 9nat, 2 * items_size(views(items@)) + 1,
{
    let mut out: Vec<PqlValue> = Vec::new();
    let mut i: usize = 0;
    while i < items.len()
        invariant
            i <= items.len(),
            from < path@.len(),
            out.len() == i,
            forall|j: int|
                0 <= j < i ==> each_row(items@[j]@, path@.skip(from as int), q@, alias@, data@)
                    == Ok::<Value, EvalError>((#[trigger] out@[j])@),
        decreases items.len() - i,
    {
        assert(views(items@)[i as int] == items@[i as int]@);
        proof {
            lemma_item_size(views(items@), i as int);
        }
        match rows_of(&items[i], path, from, q, alias, data) {
            Ok(v) => {
                out.push(v);
            },
            Err(e) => {
                assert forall|j: int| 0 <= j < i implies (#[trigger] each_row(
                    items@[j]@,
                    path@.skip(from as int),
                    q@,
                    alias@,
                    data@,
                )) is Ok by {
                    assert(each_row(items@[j]@, path@.skip(from as int), q@, alias@, data@)
                        == Ok::<Value, EvalError>(out@[j]@));
                }
                return Err(e);
            },
        }
        i += 1;
    }
    Ok(out)
}

/// The first error is the error of the first result that failed.
proof fn lemma_first_error(results: Seq<Result<Value, EvalError>>, k: int)
    requires
        0 <= k < results.len(),
        results[k] is Err,
        forall|i: int| 0 <= i < k ==> (#[trigger] results[i]) is Ok,
    ensures
        first_error(results) == results[k]->Err_0,
    decreases k,
{
    if k > 0 {
        assert(results[0] is Ok);
        assert forall|i: int| 0 <= i < k - 1 implies (#[trigger] results.drop_first()[i]) is Ok by {
            assert(results.drop_first()[i] == results[i + 1]);
        }
        lemma_first_error(results.drop_first(), k - 1);
    }
}

/// The rows of the subquery `q` for every row that `path` from position
/// `from` on leads to from `v`.
fn rows_of(v: &PqlValue, path: &Selector, from: usize, q: &Sql, alias: &str, data: &Env) -> (r:
    Result<PqlValue, EvalError>)
    requires
        from <= path@.len(),
    ensures
        result_view(r) == each_row(v@, path@.skip(from as int), q@, alias@, data@),
    decreases sql_size(q@), 9nat, 2 * value_size(v@),
{
    proof {
        lemma_view_items(*v);
    }
    if from == path.len() {
        assert(path@.skip(from as int).len() == 0);
        return match v {
            PqlValue::Array(items) => match run_for_each(items, q, alias, data) {
                Ok(out) => {
                    let r = PqlValue::Array(out);
                    proof {
                        lemma_view_items(r);
                    }
                    Ok(r)
                },
                Err(e) => Err(e),
            },
            PqlValue::Bag(items) => match run_for_each(items, q, alias, data) {
                Ok(out) => {
                    let r = PqlValue::Bag(out);
                    proof {
                        lemma_view_items(r);
                    }
                    Ok(r)
                },
                Err(e) => Err(e),
            },
            _ => run_for(v, q, alias, data),
        };
    }
    let ghost p = path@.skip(from as int);
    assert(p[0] == path@[from as int]);
    assert(p.skip(1) =~= path@.skip(from + 1));
    let is_bag = match v {
        PqlValue::Bag(_) => true,
        _ => false,
    };
    match v {
        PqlValue::Object(object) => match &path.data[from] {
            SelectorNode::Field(key) => {
                proof {
                    lemma_index_of(object@, key@);
                }
                match object_get(object, key.as_str()) {
                    Some(child) => {
                        proof {
                            lemma_entry_size(object@, index_of(object@, key@));
                        }
                        rows_of(child, path, from + 1, q, alias, data)
                    },
                    None => Ok(PqlValue::Missing),
                }
            },
            SelectorNode::Index(_) => Ok(PqlValue::Missing),
        },
        PqlValue::Array(items) | PqlValue::Bag(items) => {
            match &path.data[from] {
                SelectorNode::Index(i) => {
                    if *i < items.len() as u64 {
                        let k = *i as usize;
                        assert(views(items@)[k as int] == items@[k as int]@);
                        proof {
                            lemma_item_size(views(items@), k as int);
                        }
                        rows_of(&items[k], path, from + 1, q, alias, data)
                    } else {
                        Ok(PqlValue::Missing)
                    }
                },
                SelectorNode::Field(_) => {
                    let ghost results = each_row_of(views(items@), p, q@, alias@, data@);
                    proof {
                        lemma_each_row_of(views(items@), p, q@, alias@, data@);
                        assert forall|i: int| 0 <= i < items.len() implies #[trigger] results[i]
                            == each_row(items@[i]@, p, q@, alias@, data@) by {
                            assert(views(items@)[i] == items@[i]@);
                        }
                    }
                    match rows_of_each(items, path, from, q, alias, data) {
                        Ok(out) => {
                            assert forall|i: int| 0 <= i < results.len() implies (
                            #[trigger] results[i]) is Ok by {
                                assert(each_row(items@[i]@, p, q@, alias@, data@) == Ok::<
                                    Value,
                                    EvalError,
                                >(out@[i]@));
                            }
                            assert forall|i: int| 0 <= i < items.len() implies views(out@)[i]
                                == #[trigger] crate::sql::arith::ok_values(results)[i] by {
                                assert(each_row(items@[i]@, p, q@, alias@, data@) == Ok::<
                                    Value,
                                    EvalError,
                                >(out@[i]@));
                            }
                            assert(views(out@) =~= crate::sql::arith::ok_values(results));
                            let r = if is_bag {
                                PqlValue::Bag(out)
                            } else {
                                PqlValue::Array(out)
                            };
                            proof {
                                lemma_view_items(r);
                            }
                            Ok(r)
                        },
                        Err(e) => {
                            proof {
                                let k = choose|k: int|
                                    0 <= k < items.len() && each_row(
                                        items@[k]@,
                                        p,
                                        q@,
                                        alias@,
                                        data@,
                                    ) == Err::<Value, EvalError>(e) && forall|i: int|
                                        0 <= i < k ==> (#[trigger] each_row(
                                            items@[i]@,
                                            p,
                                            q@,
                                            alias@,
                                            data@,
                                        )) is Ok;
                                assert(results[k] == Err::<Value, EvalError>(e));
                                assert forall|i: int| 0 <= i < k implies (
                                #[trigger] results[i]) is Ok by {
                                    assert(each_row(items@[i]@, p, q@, alias@, data@) is Ok);
                                }
                                lemma_first_error(results, k);
                            }
                            Err(e)
                        },
                    }
                },
            }
        },
        _ => Ok(PqlValue::Missing),
    }
}

impl Field {
    /// The item with every path of its expression in full form.
    pub fn expand_fullpath(&self, env: &Env) -> (r: Field)
        ensures
            r@ == (FieldModel { expr: expand_expr(self@.expr, env@.frames), alias: self@.alias }),
    {
        Field {
            expr: self.expr.expand_fullpath(env),
            alias: match &self.alias {
                Some(a) => Some(a.clone()),
                None => None,
            },
        }
    }

    /// The output key of the item with its expression.
    pub fn rename(self) -> (r: (String, Expr))
        ensures
            r.0@ == field_key(self@),
            r.1 == self.expr,
    {
        let key = match self.alias {
            Some(a) => a,
            None => match &self.expr {
                Expr::Selector(s) => match s.last() {
                    Some(node) => node.name(),
                    None => String::new(),
                },
                _ => String::new(),
            },
        };
        (key, self.expr)
    }
}

} // verus!
