//! The entry point of evaluation: a statement over data.
use vstd::prelude::*;
use crate::planner::plan::{execute_plan, plan_of, LogicalPlan};
use crate::sql::arith::{result_view, EvalError};
use crate::sql::env::{Env, EnvModel};
use crate::sql::query::{Sql, SqlModel};
use crate::sql::selector::Path;
use crate::value::model::Value;
use crate::value::pql::PqlValue;

verus! {

/// The result of a statement over data: the result of its plan in an
/// environment over the data in which no alias is bound.
pub open spec fn evaluate_sql(sql: SqlModel, data: Value) -> Result<Value, EvalError> {
    execute_plan(
        plan_of(sql),
        EnvModel { root: data, frames: seq![Seq::<(Seq<char>, Path)>::empty()] },
    )
}

/// Evaluates the statement `sql` over `data`.
pub fn evaluate(sql: Sql, data: PqlValue) -> (r: Result<PqlValue, EvalError>)
    ensures
        result_view(r) == evaluate_sql(sql@, data@),
{
    let mut env = Env::new(data);
    let plan = LogicalPlan::from_sql(sql);
    plan.execute(&mut env)
}

/// Evaluates the statement `sql` over `data`, leaving both as they are.
pub fn run(sql: &Sql, data: &PqlValue) -> (r: Result<PqlValue, EvalError>)
    ensures
        result_view(r) == evaluate_sql(sql@, data@),
{
    evaluate(sql.clone(), data.clone())
}

} // verus!
