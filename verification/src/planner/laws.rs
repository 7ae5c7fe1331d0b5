//! What holds of every result of a plan.
use vstd::prelude::*;
use crate::planner::drain::{drain_all, drain_step, required_paths, DrainModel};
use crate::planner::join::{require_all, require_path};
use crate::planner::plan::{execute_plan, prepared_root, PlanModel};
use crate::planner::project::{
    clean_row,
    holds_no_missing,
    is_star,
    lemma_transpose_rows,
    project_columns,
    project_rows,
    star_rows, without_missing,
};
use crate::planner::sort::{insert_row, limit_opt, order_rows, sort_rows};
use crate::sql::arith::EvalError;
use crate::sql::clause::{limit_rows, Limit, OrderByModel};
use crate::sql::env::{
    expand,
    find_alias,
    find_in_frame,
    frames_with,
    head_alias,
    innermost_alias,
    resolve,
    EnvModel,
    FrameModel,
};
use crate::sql::eval::{expand_expr, field_key};
use crate::sql::expr::{ExprModel, FieldModel};
use crate::sql::selector::{Path, Segment};
use crate::value::model::{
    distinct_keys,
    has_key,
    index_of, lemma_index_of,
    lemma_put,
    lift,
    put,
    Entries,
    Value,
};
use crate::value::navigate::navigate;

verus! {

/// The plan without its LIMIT.
pub open spec fn without_limit(plan: PlanModel) -> PlanModel {
    PlanModel {
        drains: plan.drains,
        filter: plan.filter,
        project: plan.project,
        order_by: plan.order_by,
        limit: None,
    }
}

/// LIMIT and OFFSET: the result of a plan with `LIMIT n OFFSET k` is the
/// result of the plan without them, the first `k` rows skipped and at most
/// `n` kept; it has at most `n` rows, and exactly `n` when the plan
/// without them gives `n + k` rows or more.
pub proof fn lemma_limit_offset(plan: PlanModel, env: EnvModel, l: Limit)
    requires
        plan.limit == Some(l),
        execute_plan(without_limit(plan), env) is Ok,
    ensures
        execute_plan(without_limit(plan), env) matches Ok(Value::Bag(rows)) && (execute_plan(
            plan,
            env,
        ) matches Ok(Value::Bag(out)) && out == limit_rows(rows, l.limit as nat, l.offset as nat)
            && out.len() <= l.limit && (rows.len() >= l.limit + l.offset ==> out.len()
            == l.limit)),
{
    let rows = execute_plan(without_limit(plan), env)->Ok_0->Bag_0;
    assert(prepared_root(without_limit(plan), env) == prepared_root(plan, env));
    match prepared_root(plan, env) {
        Ok(None) => {
            assert(limit_rows(rows, l.limit as nat, l.offset as nat) =~= Seq::<Value>::empty());
        },
        _ => {},
    }
}

/// Every row of a stable sort is one of the rows that were sorted.
pub proof fn lemma_sorted_member(rows: Seq<Value>, by: OrderByModel, i: int)
    requires
        0 <= i < sort_rows(rows, by).len(),
    ensures
        exists|j: int| 0 <= j < rows.len() && sort_rows(rows, by)[i] == #[trigger] rows[j],
    decreases rows.len(),
{
    if rows.len() > 0 {
        let front = sort_rows(rows.drop_last(), by);
        lemma_inserted_member(front, rows.last(), by, i);
        if sort_rows(rows, by)[i] == rows.last() {
            assert(rows[rows.len() - 1] == rows.last());
        } else {
            let k = choose|k: int| 0 <= k < front.len() && insert_row(front, rows.last(), by)[i]
                == #[trigger] front[k];
            lemma_sorted_member(rows.drop_last(), by, k);
            let j = choose|j: int|
                0 <= j < rows.drop_last().len() && front[k] == #[trigger] rows.drop_last()[j];
            assert(rows[j] == rows.drop_last()[j]);
        }
    }
}

/// Every row after an insertion is the new row or one of the old ones.
proof fn lemma_inserted_member(sorted: Seq<Value>, row: Value, by: OrderByModel, i: int)
    requires
        0 <= i < insert_row(sorted, row, by).len(),
    ensures
        insert_row(sorted, row, by)[i] == row || exists|k: int|
            0 <= k < sorted.len() && insert_row(sorted, row, by)[i] == #[trigger] sorted[k],
    decreases sorted.len(),
{
    if sorted.len() > 0 {
        let after = insert_row(sorted, row, by);
        let inner = insert_row(sorted.drop_last(), row, by);
        if after == inner.push(sorted.last()) {
            if i < inner.len() {
                lemma_inserted_member(sorted.drop_last(), row, by, i);
                if inner[i] != row {
                    let k = choose|k: int|
                        0 <= k < sorted.drop_last().len() && inner[i]
                            == #[trigger] sorted.drop_last()[k];
                    assert(sorted[k] == sorted.drop_last()[k]);
                }
            } else {
                assert(after[i] == sorted[sorted.len() - 1]);
            }
        } else {
            if i < sorted.len() {
                assert(after[i] == sorted[i]);
            }
        }
    }
}

/// Every row of a result is one of the rows of the projection.
pub proof fn lemma_result_member(
    rows: Seq<Value>,
    by: Option<OrderByModel>,
    limit: Option<Limit>,
    i: int,
)
    requires
        0 <= i < limit_opt(order_rows(rows, by), limit).len(),
    ensures
        exists|j: int|
            0 <= j < rows.len() && limit_opt(order_rows(rows, by), limit)[i] == #[trigger] rows[j],
{
    let ordered = order_rows(rows, by);
    let k = match limit {
        Some(l) => if l.offset <= ordered.len() {
            l.offset + i
        } else {
            ordered.len() + i
        },
        None => i,
    };
    assert(limit_opt(ordered, limit)[i] == ordered[k]);
    match by {
        Some(b) => {
            lemma_sorted_member(rows, b, k);
        },
        None => {
            assert(ordered[k] == rows[k]);
        },
    }
}

/// The entries that are left when Missing values are taken out hold no
/// Missing value.
proof fn lemma_without_missing(entries: Entries)
    ensures
        holds_no_missing(without_missing(entries)),
        holds_no_missing(entries) ==> without_missing(entries) == entries,
    decreases entries.len(),
{
    if entries.len() > 0 {
        lemma_without_missing(entries.drop_last());
        if holds_no_missing(entries) {
            assert(!(entries[entries.len() - 1].1 is Missing));
            assert forall|i: int| 0 <= i < entries.drop_last().len() implies !((
            #[trigger] entries.drop_last()[i]).1 is Missing) by {
                assert(entries.drop_last()[i] == entries[i]);
            }
            assert(entries.drop_last().push(entries.last()) =~= entries);
        }
    }
}

/// Missing elision: no row object of any result holds a Missing value.
pub proof fn lemma_no_missing_in_rows(plan: PlanModel, env: EnvModel, i: int)
    requires
        execute_plan(plan, env) matches Ok(Value::Bag(out)) && 0 <= i < out.len(),
    ensures
        execute_plan(plan, env)->Ok_0->Bag_0[i] matches Value::Object(row) ==> holds_no_missing(row),
{
    let out = execute_plan(plan, env)->Ok_0->Bag_0;
    match prepared_root(plan, env) {
        Ok(Some(root)) => {
            let seen = EnvModel { root, frames: drain_all(plan.drains, env).0.frames };
            let rows = project_rows(plan.project, seen)->Ok_0;
            lemma_result_member(rows, plan.order_by, plan.limit, i);
            let j = choose|j: int| 0 <= j < rows.len() && out[i] == #[trigger] rows[j];
            if is_star(plan.project) {
                let v = navigate(seen.root, expand(seen.frames, Seq::empty()));
                assert(rows[j] == clean_row(lift(v)[j]));
                match lift(v)[j] {
                    Value::Object(entries) => {
                        lemma_without_missing(entries);
                    },
                    _ => {},
                }
            } else {
                let columns = project_columns(plan.project, seen)->Ok_0;
                lemma_transpose_rows(Value::Object(columns), j);
            }
        },
        _ => {},
    }
}

/// The output key of item `j` of a projection in the frames `frames`.
pub open spec fn projected_key(fields: Seq<FieldModel>, frames: Seq<FrameModel>, j: int) -> Seq<
    char,
> {
    field_key(FieldModel { expr: expand_expr(fields[j].expr, frames), alias: fields[j].alias })
}

/// Every key of the projected columns is the output key of an item.
proof fn lemma_column_keys(fields: Seq<FieldModel>, env: EnvModel, key: Seq<char>)
    requires
        project_columns(fields, env) matches Ok(columns) && has_key(columns, key),
    ensures
        exists|j: int| 0 <= j < fields.len() && key == #[trigger] projected_key(fields, env.frames, j),
    decreases fields.len(),
{
    if fields.len() == 0 {
        lemma_index_of(Seq::<(Seq<char>, Value)>::empty(), key);
    } else {
        let before = project_columns(fields.drop_last(), env)->Ok_0;
        let full = FieldModel {
            expr: expand_expr(fields.last().expr, env.frames),
            alias: fields.last().alias,
        };
        let v = crate::sql::eval::eval_expr(full.expr, env)->Ok_0;
        lemma_put(before, field_key(full), v);
        if key == field_key(full) {
            assert(key == projected_key(fields, env.frames, fields.len() - 1));
        } else {
            lemma_column_keys(fields.drop_last(), env, key);
            let j = choose|j: int|
                0 <= j < fields.drop_last().len() && key == #[trigger] projected_key(
                    fields.drop_last(),
                    env.frames,
                    j,
                );
            assert(fields.drop_last()[j] == fields[j]);
            assert(key == projected_key(fields, env.frames, j));
        }
    }
}

/// Projection closure: every row of the result of a plan whose projection
/// is not `*` is an object; its keys are distinct, each the output key of
/// an item of the projection, and none of its values is Missing.
pub proof fn lemma_projection_closure(plan: PlanModel, env: EnvModel, i: int)
    requires
        !is_star(plan.project),
        execute_plan(plan, env) matches Ok(Value::Bag(out)) && 0 <= i < out.len(),
    ensures
        execute_plan(plan, env)->Ok_0->Bag_0[i] matches Value::Object(row) && distinct_keys(row)
            && holds_no_missing(row) && forall|key: Seq<char>| #[trigger]
            has_key(row, key) ==> exists|j: int|
                0 <= j < plan.project.len() && key == #[trigger] projected_key(
                    plan.project,
                    drain_all(plan.drains, env).0.frames,
                    j,
                ),
{
    let out = execute_plan(plan, env)->Ok_0->Bag_0;
    match prepared_root(plan, env) {
        Ok(Some(root)) => {
            let seen = EnvModel { root, frames: drain_all(plan.drains, env).0.frames };
            let rows = project_rows(plan.project, seen)->Ok_0;
            lemma_result_member(rows, plan.order_by, plan.limit, i);
            let j = choose|j: int| 0 <= j < rows.len() && out[i] == #[trigger] rows[j];
            let columns = project_columns(plan.project, seen)->Ok_0;
            lemma_transpose_rows(Value::Object(columns), j);
            let row = out[i]->Object_0;
            assert forall|key: Seq<char>| #[trigger] has_key(row, key) implies exists|j: int|
                0 <= j < plan.project.len() && key == #[trigger] projected_key(
                    plan.project,
                    seen.frames,
                    j,
                ) by {
                lemma_column_keys(plan.project, seen, key);
            }
        },
        _ => {},
    }
}

/// The plan of `SELECT * FROM name AS alias`.
pub open spec fn identity_plan(name: Seq<char>, alias: Seq<char>) -> PlanModel {
    PlanModel {
        drains: seq![
            DrainModel {
                expr: ExprModel::Selector(seq![Segment::Field(name)]),
                alias,
                left: false,
            },
        ],
        filter: None,
        project: seq![FieldModel { expr: ExprModel::Star, alias: None }],
        order_by: None,
        limit: None,
    }
}

/// Data in which `v` stands under the key `name`, with no alias bound.
pub open spec fn data_named(name: Seq<char>, v: Value) -> EnvModel {
    EnvModel {
        root: Value::Object(seq![(name, v)]),
        frames: seq![Seq::<(Seq<char>, Path)>::empty()],
    }
}

/// Every element is an object without a Missing value.
pub open spec fn clean_objects(items: Seq<Value>) -> bool {
    forall|i: int|
        0 <= i < items.len() ==> (#[trigger] items[i] matches Value::Object(row)
            && holds_no_missing(row))
}

/// The frames after the drain of the identity plan.
pub open spec fn identity_frames(name: Seq<char>, alias: Seq<char>) -> Seq<FrameModel> {
    seq![seq![(alias, seq![Segment::Field(name)])]]
}

/// The drain of the identity plan binds the alias to the path of the data
/// and requires that path.
proof fn lemma_identity_drain(v: Value, name: Seq<char>, alias: Seq<char>)
    ensures
        drain_all(identity_plan(name, alias).drains, data_named(name, v)) == (
            EnvModel { root: data_named(name, v).root, frames: identity_frames(name, alias) },
            None::<EvalError>,
        ),
        required_paths(identity_plan(name, alias).drains, data_named(name, v)) == seq![
            seq![Segment::Field(name)],
        ],
{
    let plan = identity_plan(name, alias);
    let env = data_named(name, v);
    let path = seq![Segment::Field(name)];
    let entries = seq![(name, v)];
    let d = plan.drains[0];
    assert(plan.drains.drop_last() =~= Seq::<DrainModel>::empty());
    assert(drain_all(plan.drains.drop_last(), env) == (env, None::<EvalError>));
    assert(env.frames.last() =~= Seq::<(Seq<char>, Path)>::empty());
    assert(find_in_frame(env.frames.last(), name) is None);
    assert(env.frames.drop_last() =~= Seq::<FrameModel>::empty());
    assert(find_alias(env.frames.drop_last(), name) is None);
    assert(find_alias(env.frames, name) is None);
    assert(head_alias(env.frames, path) is None);
    assert(resolve(env.frames, path) == path);
    assert(index_of(entries, name) == 0);
    let frames = frames_with(env.frames, alias, path);
    assert(frames =~= identity_frames(name, alias));
    let bound = EnvModel { root: env.root, frames };
    assert(drain_step(d, env) == Ok::<EnvModel, EvalError>(bound));
    assert(plan.drains.last() == d);
    assert(required_paths(plan.drains.drop_last(), env) =~= Seq::<Path>::empty());
    assert(required_paths(plan.drains, env) =~= seq![path]);
}

/// The join of the identity plan drops the data when `v` is an empty
/// collection and keeps it as it is otherwise.
proof fn lemma_identity_join(v: Value, name: Seq<char>)
    ensures
        require_all(data_named(name, v).root, seq![seq![Segment::Field(name)]]) == if v.is_collection()
            && v.items().len() == 0 {
            None
        } else {
            Some(data_named(name, v).root)
        },
{
    let path = seq![Segment::Field(name)];
    let entries = seq![(name, v)];
    let paths = seq![path];
    assert(paths.drop_first() =~= Seq::<Path>::empty());
    assert(path.skip(1) =~= Seq::<Segment>::empty());
    assert(index_of(entries, name) == 0);
    assert(put(entries, name, v) =~= entries);
    assert(paths[0] == path);
    if v.is_collection() && v.items().len() == 0 {
        assert(require_path(v, path.skip(1)) is None);
        assert(require_path(Value::Object(entries), path) is None);
    } else {
        assert(require_path(v, path.skip(1)) == Some(v));
        assert(require_path(Value::Object(entries), path) == Some(Value::Object(entries)));
        assert(require_all(Value::Object(entries), paths.drop_first()) == Some(
            Value::Object(entries),
        ));
    }
}

/// The rows of `*` in the identity plan are the rows of `v`.
proof fn lemma_identity_rows(v: Value, name: Seq<char>, alias: Seq<char>)
    ensures
        project_rows(
            identity_plan(name, alias).project,
            EnvModel { root: data_named(name, v).root, frames: identity_frames(name, alias) },
        ) == Ok::<Seq<Value>, EvalError>(star_rows(v)),
{
    let path = seq![Segment::Field(name)];
    let entries = seq![(name, v)];
    let frames = identity_frames(name, alias);
    assert(frames.last().last().1 == path);
    assert(innermost_alias(frames) == Some(path));
    assert(head_alias(frames, Seq::<Segment>::empty()) is None);
    assert(path + Seq::<Segment>::empty() =~= path);
    assert(expand(frames, Seq::empty()) == path);
    assert(path.skip(1) =~= Seq::<Segment>::empty());
    assert(index_of(entries, name) == 0);
    assert(navigate(v, path.skip(1)) == v);
    assert(navigate(Value::Object(entries), path) == v);
}

/// Identity query: `SELECT * FROM v AS x` gives `v` wrapped into a bag of
/// one when `v` is no collection and no object, and `v` itself when `v` is
/// a bag of objects that hold no Missing value.
pub proof fn lemma_identity_query(v: Value, name: Seq<char>, alias: Seq<char>)
    ensures
        v.is_scalar() ==> execute_plan(identity_plan(name, alias), data_named(name, v)) == Ok::<
            Value,
            EvalError,
        >(Value::Bag(seq![v])),
        (v matches Value::Bag(items) && clean_objects(items)) ==> execute_plan(
            identity_plan(name, alias),
            data_named(name, v),
        ) == Ok::<Value, EvalError>(v),
{
    lemma_identity_drain(v, name, alias);
    lemma_identity_join(v, name);
    lemma_identity_rows(v, name, alias);
    if v.is_scalar() {
        assert(star_rows(v) =~= seq![v]);
    }
    if v is Bag && clean_objects(v->Bag_0) {
        let items = v->Bag_0;
        if items.len() == 0 {
            assert(items =~= Seq::<Value>::empty());
        } else {
            assert forall|i: int| 0 <= i < items.len() implies #[trigger] star_rows(v)[i]
                == items[i] by {
                match items[i] {
                    Value::Object(row) => {
                        lemma_without_missing(row);
                    },
                    _ => {},
                }
            }
            assert(star_rows(v) =~= items);
        }
    }
}

} // verus!
