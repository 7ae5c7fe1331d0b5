//! Structural restriction: pruning a value along a selector so that only
//! the branches whose leaf satisfies a predicate survive.
use vstd::prelude::*;
use crate::sql::arith::EvalError;
use crate::sql::env::{expand, Env, EnvModel, FrameModel};
use crate::sql::eval::{eval_expr, expand_expr, lemma_expand_size};
use crate::sql::expr::{cond_view, filter_size, CondModel, Expr, ExprModel, WhereCond};
use crate::sql::like::{like_holds, like_matches};
use crate::sql::selector::{Path, Segment, Selector, SelectorNode};
use crate::value::model::{
    has_key, index_of, lemma_index_of, put, values_equal, Entries, Value,
};
use crate::value::object::{object_get, object_insert};
use crate::value::pql::{lemma_view_items, views, PqlValue};

verus! {

/// Whether a leaf satisfies the predicate. Without a predicate every leaf
/// does; equality compares with the literal; LIKE holds of strings only.
pub open spec fn holds(cond: Option<CondModel>, v: Value) -> bool {
    match cond {
        None => true,
        Some(CondModel::Eq { expr, right }) => values_equal(v, right),
        Some(CondModel::Like { expr, right }) => v matches Value::Str(s) && like_holds(right, s),
    }
}

/// The restriction of every element of `items`, without those that are
/// dropped.
pub open spec fn restrict_items(items: Seq<Value>, path: Path, cond: Option<CondModel>) -> Seq<
    Value,
>
    decreases items,
{
    if items.len() == 0 {
        Seq::empty()
    } else {
        let front = restrict_items(items.drop_last(), path, cond);
        match restrict_value(items.last(), path, cond) {
            Some(r) => front.push(r),
            None => front,
        }
    }
}

/// The restriction of `v` along `path` under `cond`; `None` when `v` is
/// dropped.
///
/// Null and Missing are dropped. A boolean, a number or a string is a
/// leaf: it stays when the path ends at it and it is `true`, or satisfies
/// the predicate. A collection keeps the restrictions of its elements, in
/// order, and is dropped when none is left. An object follows the first
/// segment of the path into the field of that name: with more of the path
/// to go the field takes the restricted value; at the end of the path the
/// object stays as it is if the field is a leaf that stays; in every other
/// case the object is dropped.
pub open spec fn restrict_value(v: Value, path: Path, cond: Option<CondModel>) -> Option<Value>
    decreases v,
{
    match v {
        Value::Missing => None,
        Value::Null => None,
        Value::Bool(b) => if b && path.len() == 0 {
            Some(v)
        } else {
            None
        },
        Value::Num(_) => if path.len() == 0 && holds(cond, v) {
            Some(v)
        } else {
            None
        },
        Value::Str(_) => if path.len() == 0 && holds(cond, v) {
            Some(v)
        } else {
            None
        },
        Value::Array(items) => {
            let kept = restrict_items(items, path, cond);
            if kept.len() == 0 {
                None
            } else {
                Some(Value::Array(kept))
            }
        },
        Value::Bag(items) => {
            let kept = restrict_items(items, path, cond);
            if kept.len() == 0 {
                None
            } else {
                Some(Value::Bag(kept))
            }
        },
        Value::Object(entries) => {
            if path.len() == 0 {
                None
            } else {
                match path[0] {
                    Segment::Field(key) => {
                        let i = index_of(entries, key);
                        if 0 <= i < entries.len() {
                            match restrict_value(entries[i].1, path.skip(1), cond) {
                                Some(r) => if path.len() > 1 {
                                    Some(Value::Object(put(entries, key, r)))
                                } else if r.is_scalar() {
                                    Some(v)
                                } else {
                                    None
                                },
                                None => None,
                            }
                        } else {
                            None
                        }
                    },
                    Segment::Index(_) => None,
                }
            }
        },
    }
}

/// The restriction of an optional value: nothing stays nothing.
pub open spec fn restrict_option(v: Option<Value>, path: Path, cond: Option<CondModel>) -> Option<
    Value,
> {
    match v {
        Some(x) => restrict_value(x, path, cond),
        None => None,
    }
}

/// The view of an optional value.
pub open spec fn option_view(v: Option<PqlValue>) -> Option<Value> {
    match v {
        Some(x) => Some(x@),
        None => None,
    }
}

/// Whether the leaf `value` satisfies `cond`.
fn leaf_holds(value: &PqlValue, cond: &Option<WhereCond>) -> (r: bool)
    ensures
        r == holds(cond_view(*cond), value@),
{
    match cond {
        None => true,
        Some(WhereCond::Eq { expr: _, right }) => value.equals(right),
        Some(WhereCond::Like { expr: _, right }) => match value {
            PqlValue::Str(s) => like_matches(right.as_str(), s.as_str()),
            _ => false,
        },
    }
}

/// The restrictions of the elements of `items` that are not dropped.
fn restrict_each(items: &Vec<PqlValue>, path: &Selector, from: usize, cond: &Option<
    WhereCond,
>) -> (out: Vec<PqlValue>)
    requires
        from <= path@.len(),
    ensures
        views(out@) == restrict_items(views(items@), path@.skip(from as int), cond_view(*cond)),
    decreases views(items@),
{
    let mut out: Vec<PqlValue> = Vec::new();
    let mut i: usize = 0;
    let ghost p = path@.skip(from as int);
    let ghost c = cond_view(*cond);
    assert(views(items@).take(0) =~= Seq::<Value>::empty());
    assert(views(out@) =~= Seq::<Value>::empty());
    while i < items.len()
        invariant
            i <= items.len(),
            from <= path@.len(),
            p == path@.skip(from as int),
            c == cond_view(*cond),
            views(out@) == restrict_items(views(items@).take(i as int), p, c),
        decreases items.len() - i,
    {
        proof {
            let next = views(items@).take(i + 1);
            assert(next.drop_last() =~= views(items@).take(i as int));
            assert(next.last() == items@[i as int]@);
            assert(views(items@)[i as int] == items@[i as int]@);
        }
        let ghost before = views(out@);
        match restrict_at(&items[i], path, from, cond) {
            Some(r) => {
                out.push(r);
                assert(views(out@) =~= before.push(r@));
            },
            None => {},
        }
        i += 1;
    }
    assert(views(items@).take(i as int) =~= views(items@));
    out
}

/// The restriction of `value` along the segments of `path` from position
/// `from` on.
fn restrict_at(value: &PqlValue, path: &Selector, from: usize, cond: &Option<WhereCond>) -> (r:
    Option<PqlValue>)
    requires
        from <= path@.len(),
    ensures
        option_view(r) == restrict_value(value@, path@.skip(from as int), cond_view(*cond)),
    decreases value@,
{
    proof {
        lemma_view_items(*value);
    }
    let at_end = from == path.len();
    match value {
        PqlValue::Missing => None,
        PqlValue::Null => None,
        PqlValue::Boolean(b) => if *b && at_end {
            Some(PqlValue::Boolean(true))
        } else {
            None
        },
        PqlValue::Num(_) => if at_end && leaf_holds(value, cond) {
            Some(value.clone())
        } else {
            None
        },
        PqlValue::Str(_) => if at_end && leaf_holds(value, cond) {
            Some(value.clone())
        } else {
            None
        },
        PqlValue::Array(items) => {
            assert(decreases_to!(value@ => value@->Array_0));
            let kept = restrict_each(items, path, from, cond);
            if kept.len() == 0 {
                None
            } else {
                let r = PqlValue::Array(kept);
                proof {
                    lemma_view_items(r);
                }
                Some(r)
            }
        },
        PqlValue::Bag(items) => {
            assert(decreases_to!(value@ => value@->Bag_0));
            let kept = restrict_each(items, path, from, cond);
            if kept.len() == 0 {
                None
            } else {
                let r = PqlValue::Bag(kept);
                proof {
                    lemma_view_items(r);
                }
                Some(r)
            }
        },
        PqlValue::Object(object) => {
            if at_end {
                return None;
            }
            let ghost p = path@.skip(from as int);
            assert(p[0] == path@[from as int]);
            assert(p.skip(1) =~= path@.skip(from + 1));
            match &path.data[from] {
                SelectorNode::Field(key) => {
                    proof {
                        lemma_index_of(object@, key@);
                    }
                    match object_get(object, key.as_str()) {
                        Some(child) => {
                            let ghost i = index_of(object@, key@);
                            assert(decreases_to!(value@ => value@->Object_0));
                            assert(decreases_to!(object@ => object@[i]));
                            assert(decreases_to!(object@[i] => object@[i].1));
                            match restrict_at(child, path, from + 1, cond) {
                                Some(r) => {
                                    if from + 1 < path.len() {
                                        let mut kept = object.clone();
                                        object_insert(&mut kept, key.clone(), r);
                                        Some(PqlValue::Object(kept))
                                    } else if r.is_scalar() {
                                        Some(value.clone())
                                    } else {
                                        None
                                    }
                                },
                                None => None,
                            }
                        },
                        None => None,
                    }
                },
                SelectorNode::Index(_) => None,
            }
        },
    }
}

/// Restricts `value` along `path` under `cond`.
///
/// Every branch along the path whose leaf fails the predicate is removed;
/// what is not on the path stays. `None` comes back when nothing is given
/// or nothing is left.
pub fn restrict(value: Option<PqlValue>, path: &Selector, cond: &Option<WhereCond>) -> (r: Option<
    PqlValue,
>)
    ensures
        option_view(r) == restrict_option(option_view(value), path@, cond_view(*cond)),
{
    match value {
        None => None,
        Some(v) => {
            assert(path@.skip(0) =~= path@);
            restrict_at(&v, path, 0, cond)
        },
    }
}

impl PqlValue {
    /// Restricts `self` along `path` under `cond`; see [`restrict`].
    pub fn restrict(self, path: &Selector, cond: &Option<WhereCond>) -> (r: Option<PqlValue>)
        ensures
            option_view(r) == restrict_value(self@, path@, cond_view(*cond)),
    {
        restrict(Some(self), path, cond)
    }
}

/// Restriction preserves ancestors. An object on the path is kept exactly
/// when the field that the path names is kept (at the end of the path: is
/// a leaf that is kept). The object that is kept has the same keys in the
/// same order, every field beside the path is unchanged, and the field on
/// the path holds its restriction, or its old value where the path ends.
pub proof fn lemma_restrict_preserves_ancestors(
    entries: Entries,
    path: Path,
    cond: Option<CondModel>,
    key: Seq<char>,
)
    requires
        path.len() > 0,
        path[0] == Segment::Field(key),
    ensures
        restrict_value(Value::Object(entries), path, cond) is Some <==> (has_key(entries, key) && (
        restrict_value(entries[index_of(entries, key)].1, path.skip(1), cond) matches Some(r) && (
        path.len() > 1 || r.is_scalar()))),
        restrict_value(Value::Object(entries), path, cond) matches Some(kept) ==> (kept matches Value::Object(
            fields,
        ) && fields.len() == entries.len() && (forall|i: int|
            0 <= i < entries.len() ==> (#[trigger] fields[i]).0 == entries[i].0) && (forall|i: int|
            0 <= i < entries.len() && i != index_of(entries, key) ==> #[trigger] fields[i]
                == entries[i]) && fields[index_of(entries, key)].1 == (if path.len() > 1 {
            restrict_value(entries[index_of(entries, key)].1, path.skip(1), cond)->0
        } else {
            entries[index_of(entries, key)].1
        })),
{
    lemma_index_of(entries, key);
}

/// The expression that a predicate tests.
pub open spec fn cond_expr(cond: CondModel) -> ExprModel {
    match cond {
        CondModel::Eq { expr, right } => expr,
        CondModel::Like { expr, right } => expr,
    }
}

/// What a filter leaves of `value`; `None` when nothing is left. Without
/// a predicate the value stays. A predicate on a path restricts the value
/// along the path in full form. A predicate on any other expression is
/// decided once, on the value of the expression over `value`: the value
/// stays as it is, or nothing is left.
pub open spec fn filter_value(cond: Option<CondModel>, value: Value, frames: Seq<FrameModel>) -> Result<
    Option<Value>,
    EvalError,
>
    decreases filter_size(cond), 3nat, 0nat,
{
    match cond {
        None => Ok(Some(value)),
        Some(c) => match cond_expr(c) {
            ExprModel::Selector(p) => Ok(restrict_value(value, expand(frames, p), cond)),
            e => match {
                proof {
                    lemma_expand_size(e, frames);
                }
                eval_expr(expand_expr(e, frames), EnvModel { root: value, frames })
            } {
                Ok(v) => Ok(
                    if holds(cond, v) {
                        Some(value)
                    } else {
                        None
                    },
                ),
                Err(e) => Err(e),
            },
        },
    }
}

/// The filter of a plan: the predicate of WHERE, if there is one.
#[derive(Debug)]
pub struct Filter(pub Option<Box<WhereCond>>);

impl View for Filter {
    type V = Option<CondModel>;

    open spec fn view(&self) -> Option<CondModel> {
        match self.0 {
            Some(c) => Some((*c)@),
            None => None,
        }
    }
}

impl Clone for Filter {
    fn clone(&self) -> (r: Self)
        ensures
            r@ == self@,
    {
        Filter(
            match &self.0 {
                Some(c) => Some(Box::new((**c).clone())),
                None => None,
            },
        )
    }
}

impl Default for Filter {
    fn default() -> (r: Self)
        ensures
            r@ is None,
    {
        Filter(None)
    }
}

/// The view of an optional value, inside a result.
pub open spec fn kept_view(r: Result<Option<PqlValue>, EvalError>) -> Result<
    Option<Value>,
    EvalError,
> {
    match r {
        Ok(v) => Ok(option_view(v)),
        Err(e) => Err(e),
    }
}

impl WhereCond {
    /// The expression that the predicate tests.
    pub fn expr(&self) -> (e: &Expr)
        ensures
            e@ == cond_expr(self@),
    {
        match self {
            WhereCond::Eq { expr, right: _ } => expr,
            WhereCond::Like { expr, right: _ } => expr,
        }
    }
}

impl Filter {
    /// Applies the filter to `value`, with the aliases of `env`; see
    /// [`filter_value`].
    pub fn execute(&self, value: PqlValue, env: &Env) -> (r: Result<Option<PqlValue>, EvalError>)
        ensures
            kept_view(r) == filter_value(self@, value@, env@.frames),
        decreases filter_size(self@), 3nat, 0nat,
    {
        match &self.0 {
            None => Ok(Some(value)),
            Some(boxed) => {
                let cond: Option<WhereCond> = Some((**boxed).clone());
                match (**boxed).expr() {
                    Expr::Selector(selector) => {
                        let full = env.expand_fullpath(selector);
                        Ok(restrict(Some(value), &full, &cond))
                    },
                    other => {
                        proof {
                            lemma_expand_size(other@, env@.frames);
                        }
                        let over = env.with_root(value.clone());
                        match other.expand_fullpath(env).eval(&over) {
                            Ok(v) => {
                                if leaf_holds(&v, &cond) {
                                    Ok(Some(value))
                                } else {
                                    Ok(None)
                                }
                            },
                            Err(e) => Err(e),
                        }
                    },
                }
            },
        }
    }
}

} // verus!
