//! The logical plan of a SELECT statement and its execution.
use vstd::prelude::*;
use vstd::std_specs::convert::FromSpecImpl;
use crate::planner::drain::{
    drain_all,
    drain_views,
    execute_drains,
    required_paths,
    Drain,
    DrainModel,
};
use crate::planner::join::{prune, require_all};
use crate::planner::filter::{filter_value, Filter};
use crate::planner::project::{project_rows, Projection};
use crate::planner::sort::{limit_by, limit_opt, order_rows, sort_by};
use crate::sql::arith::{result_view, EvalError};
use crate::sql::clause::{Limit, OrderBy, OrderByModel};
use crate::sql::env::{Env, EnvModel};
use crate::sql::eval::field_key;
use crate::sql::expr::{fields_size, filter_size, CondModel, Field, FieldModel};
use crate::sql::query::{field_views, Sql, SqlModel};
use crate::value::model::Value;
use crate::value::pql::{lemma_view_items, PqlValue};

verus! {

/// A logical plan, as a mathematical value.
pub struct PlanModel {
    pub drains: Seq<DrainModel>,
    pub filter: Option<CondModel>,
    pub project: Seq<FieldModel>,
    pub order_by: Option<OrderByModel>,
    pub limit: Option<Limit>,
}

/// The lowered form of a SELECT statement.
#[derive(Debug)]
pub struct LogicalPlan {
    /// The unnest steps, in the order they apply.
    pub drains: Vec<Drain>,
    pub filter: Filter,
    pub project: Projection,
    pub order_by: Option<OrderBy>,
    pub limit: Option<Limit>,
}

impl View for LogicalPlan {
    type V = PlanModel;

    open spec fn view(&self) -> PlanModel {
        PlanModel {
            drains: drain_views(self.drains@),
            filter: self.filter@,
            project: self.project@,
            order_by: match self.order_by {
                Some(o) => Some(o@),
                None => None,
            },
            limit: self.limit,
        }
    }
}

/// The drain of a FROM or LEFT JOIN item: its expression under its alias,
/// or under the name of the last segment of its path.
pub open spec fn drain_of(f: FieldModel, left: bool) -> DrainModel {
    DrainModel { expr: f.expr, alias: field_key(f), left }
}

/// The drains of a list of items.
pub open spec fn drains_of(fields: Seq<FieldModel>, left: bool) -> Seq<DrainModel> {
    Seq::new(fields.len(), |i: int| drain_of(fields[i], left))
}

/// The plan of a statement: the FROM items, then the LEFT JOIN items,
/// become drains; WHERE becomes the filter; the SELECT items become the
/// projection; ORDER BY and LIMIT are taken as they are.
pub open spec fn plan_of(sql: SqlModel) -> PlanModel {
    PlanModel {
        drains: drains_of(sql.from_clause, false) + drains_of(sql.left_join_clause, true),
        filter: sql.where_clause,
        project: sql.select_clause,
        order_by: sql.orderby,
        limit: sql.limit,
    }
}

/// The size of a plan: that of its projection and of its filter.
pub open spec fn plan_size(plan: PlanModel) -> nat {
    1 + fields_size(plan.project) + filter_size(plan.filter)
}

/// The data that the projection of a plan sees: the data after the
/// drains, pruned along the paths of the inner joins and restricted by
/// the filter; `None` when nothing is left.
pub open spec fn prepared_root(plan: PlanModel, env: EnvModel) -> Result<Option<Value>, EvalError>
    decreases plan_size(plan), 5nat, 0nat,
{
    let drained = drain_all(plan.drains, env);
    match drained.1 {
        Some(e) => Err(e),
        None => match require_all(drained.0.root, required_paths(plan.drains, env)) {
            None => Ok(None),
            Some(joined) => filter_value(plan.filter, joined, drained.0.frames),
        },
    }
}

/// The result of a plan in an environment. The drains bind their aliases;
/// the data is pruned so that an inner join with nothing to unfold gives
/// no row, and restricted by the filter; the projection gives the rows,
/// which are ordered and limited and returned as a bag. Where pruning or
/// the filter leaves nothing the result is the empty bag.
pub open spec fn execute_plan(plan: PlanModel, env: EnvModel) -> Result<Value, EvalError>
    decreases plan_size(plan), 6nat, 0nat,
{
    match prepared_root(plan, env) {
        Err(e) => Err(e),
        Ok(None) => Ok(Value::Bag(Seq::empty())),
        Ok(Some(root)) => match project_rows(
            plan.project,
            EnvModel { root, frames: drain_all(plan.drains, env).0.frames },
        ) {
            Err(e) => Err(e),
            Ok(rows) => Ok(Value::Bag(limit_opt(order_rows(rows, plan.order_by), plan.limit))),
        },
    }
}

/// The environment that the execution of a plan leaves: the aliases of
/// the drains that succeeded, over the data that the projection saw, or
/// over the data as it was where nothing was left or an error came.
pub open spec fn environment_after(plan: PlanModel, env: EnvModel) -> EnvModel {
    let drained = drain_all(plan.drains, env);
    match prepared_root(plan, env) {
        Ok(Some(root)) => EnvModel { root, frames: drained.0.frames },
        _ => drained.0,
    }
}

/// The drains of a list of items.
fn lower_drains(fields: Vec<Field>, left: bool, drains: &mut Vec<Drain>)
    ensures
        drain_views(final(drains)@) == drain_views(old(drains)@) + drains_of(
            field_views(fields@),
            left,
        ),
{
    let ghost start = drain_views(drains@);
    let ghost all = field_views(fields@);
    let mut i: usize = 0;
    assert(drain_views(drains@) =~= start + drains_of(all, left).take(0));
    while i < fields.len()
        invariant
            i <= fields.len(),
            all == field_views(fields@),
            drain_views(drains@) == start + drains_of(all, left).take(i as int),
        decreases fields.len() - i,
    {
        let field = fields[i].clone();
        let expr = field.expr.clone();
        let (alias, _) = field.rename();
        let ghost before = drain_views(drains@);
        drains.push(Drain { expr, alias, left });
        assert(drain_views(drains@) =~= before.push(drain_of(all[i as int], left)));
        assert(drain_views(drains@) =~= start + drains_of(all, left).take(i + 1));
        i += 1;
    }
    assert(drains_of(all, left).take(i as int) =~= drains_of(all, left));
}

impl LogicalPlan {
    /// Lowers a statement to its plan; see [`plan_of`].
    pub fn from_sql(sql: Sql) -> (plan: LogicalPlan)
        ensures
            plan@ == plan_of(sql@),
    {
        let mut drains: Vec<Drain> = Vec::new();
        assert(drain_views(drains@) =~= Seq::<DrainModel>::empty());
        lower_drains(sql.from_clause, false, &mut drains);
        lower_drains(sql.left_join_clause, true, &mut drains);
        let plan = LogicalPlan {
            drains,
            filter: Filter(sql.where_clause),
            project: Projection(sql.select_clause),
            order_by: sql.orderby,
            limit: sql.limit,
        };
        assert(plan@.drains =~= plan_of(sql@).drains);
        plan
    }

    /// Runs the plan in `env`; see [`execute_plan`].
    pub fn execute(&self, env: &mut Env) -> (r: Result<PqlValue, EvalError>)
        ensures
            result_view(r) == execute_plan(self@, old(env)@),
            final(env)@ == environment_after(self@, old(env)@),
        decreases plan_size(self@), 6nat, 0nat,
    {
        let required = match execute_drains(&self.drains, env) {
            Ok(paths) => paths,
            Err(e) => {
                return Err(e);
            },
        };
        let joined = match prune(env.root().clone(), &required) {
            Some(v) => v,
            None => {
                return Ok(empty_bag());
            },
        };
        match self.filter.execute(joined, env) {
            Err(e) => Err(e),
            Ok(None) => Ok(empty_bag()),
            Ok(Some(root)) => {
                env.set_root(root);
                match self.project.execute(env) {
                    Err(e) => Err(e),
                    Ok(rows) => {
                        let ordered = match &self.order_by {
                            Some(by) => sort_by(rows, by),
                            None => rows,
                        };
                        let limited = match &self.limit {
                            Some(l) => limit_by(ordered, l),
                            None => ordered,
                        };
                        let result = PqlValue::Bag(limited);
                        proof {
                            lemma_view_items(result);
                        }
                        Ok(result)
                    },
                }
            },
        }
    }
}

/// The bag without elements.
fn empty_bag() -> (v: PqlValue)
    ensures
        v@ == Value::Bag(Seq::empty()),
{
    let empty = PqlValue::Bag(Vec::new());
    proof {
        lemma_view_items(empty);
        assert(empty@->Bag_0 =~= Seq::<Value>::empty());
    }
    empty
}

impl From<Sql> for LogicalPlan {
    fn from(sql: Sql) -> (plan: LogicalPlan)
        ensures
            plan@ == plan_of(sql@),
    {
        LogicalPlan::from_sql(sql)
    }
}

impl FromSpecImpl<Sql> for LogicalPlan {
    open spec fn obeys_from_spec() -> bool {
        false
    }

    open spec fn from_spec(sql: Sql) -> Self {
        arbitrary()
    }
}

} // verus!
