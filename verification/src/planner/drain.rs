//! Drains: the unnest steps of a plan, each binding an alias.
use vstd::prelude::*;
use crate::planner::join::path_views;
use crate::sql::arith::EvalError;
use crate::sql::env::{frames_with, resolve, root_with, Env, EnvModel};
use crate::sql::expr::{Expr, ExprModel};
use crate::sql::selector::{Path, Segment, Selector, SelectorNode};
use crate::value::model::{has_key, lemma_index_of, Value};
use crate::value::object::object_get;
use crate::value::pql::PqlValue;

verus! {

/// An unnest step, as a mathematical value.
pub struct DrainModel {
    pub expr: ExprModel,
    pub alias: Seq<char>,
    pub left: bool,
}

/// An unnest step: the collection that `expr` denotes is bound to `alias`.
#[derive(Debug)]
pub struct Drain {
    pub expr: Expr,
    pub alias: String,
    /// Whether the step comes from LEFT JOIN.
    pub left: bool,
}

impl View for Drain {
    type V = DrainModel;

    open spec fn view(&self) -> DrainModel {
        DrainModel { expr: self.expr@, alias: self.alias@, left: self.left }
    }
}

impl Clone for Drain {
    fn clone(&self) -> (r: Self)
        ensures
            r@ == self@,
    {
        Drain { expr: self.expr.clone(), alias: self.alias.clone(), left: self.left }
    }
}

/// The full path starts with a field name that the data, an object, does
/// not have.
pub open spec fn unresolved(root: Value, full: Path) -> bool {
    full.len() > 0 && (full[0] matches Segment::Field(key) && (root matches Value::Object(entries)
        && !has_key(entries, key)))
}

/// What one drain does to the environment. A path is put in full form and
/// bound to the alias; it is refused when its root is neither an alias nor
/// a field of the data. A literal value becomes a field of the data under
/// the alias. No other expression can be drained.
pub open spec fn drain_step(d: DrainModel, env: EnvModel) -> Result<EnvModel, EvalError> {
    match d.expr {
        ExprModel::Selector(p) => {
            let full = resolve(env.frames, p);
            if unresolved(env.root, full) {
                Err(EvalError::UnresolvedAlias)
            } else {
                Ok(EnvModel { root: env.root, frames: frames_with(env.frames, d.alias, full) })
            }
        },
        ExprModel::Value(v) => Ok(
            EnvModel {
                root: root_with(env.root, d.alias, v),
                frames: frames_with(env.frames, d.alias, seq![Segment::Field(d.alias)]),
            },
        ),
        _ => Err(EvalError::TypeError),
    }
}

/// The environment after the drains, applied in order up to the first
/// that fails, with that failure.
pub open spec fn drain_all(drains: Seq<DrainModel>, env: EnvModel) -> (EnvModel, Option<EvalError>)
    decreases drains.len(),
{
    if drains.len() == 0 {
        (env, None)
    } else {
        let before = drain_all(drains.drop_last(), env);
        if before.1 is Some {
            before
        } else {
            match drain_step(drains.last(), before.0) {
                Ok(after) => (after, None),
                Err(e) => (before.0, Some(e)),
            }
        }
    }
}

/// The path that a drain requires to unfold to something: the full path
/// of a drain that is no LEFT JOIN; none for a LEFT JOIN and for a
/// literal value.
pub open spec fn required_path(d: DrainModel, env: EnvModel) -> Option<Path> {
    match d.expr {
        ExprModel::Selector(p) => if d.left {
            None
        } else {
            Some(resolve(env.frames, p))
        },
        _ => None,
    }
}

/// The paths that the drains require, in order, up to the first drain
/// that fails.
pub open spec fn required_paths(drains: Seq<DrainModel>, env: EnvModel) -> Seq<Path>
    decreases drains.len(),
{
    if drains.len() == 0 {
        Seq::empty()
    } else {
        let before = required_paths(drains.drop_last(), env);
        let state = drain_all(drains.drop_last(), env);
        if state.1 is Some || drain_step(drains.last(), state.0) is Err {
            before
        } else {
            match required_path(drains.last(), state.0) {
                Some(p) => before.push(p),
                None => before,
            }
        }
    }
}

/// The view of each drain, in order.
pub open spec fn drain_views(drains: Seq<Drain>) -> Seq<DrainModel> {
    Seq::new(drains.len(), |i: int| drains[i]@)
}

/// Whether the full path starts with a field that the data does not have.
fn is_unresolved(root: &PqlValue, full: &Selector) -> (r: bool)
    ensures
        r == unresolved(root@, full@),
{
    match full.get(0) {
        Some(SelectorNode::Field(key)) => match root {
            PqlValue::Object(m) => {
                proof {
                    lemma_index_of(m@, key@);
                }
                object_get(m, key.as_str()).is_none()
            },
            _ => false,
        },
        _ => false,
    }
}

impl Drain {
    /// Applies the drain to the environment and returns the path that it
    /// requires, if any; a drain that fails leaves the environment as it
    /// was.
    pub fn execute(&self, env: &mut Env) -> (r: Result<Option<Selector>, EvalError>)
        ensures
            match r {
                Ok(required) => drain_step(self@, old(env)@) == Ok::<EnvModel, EvalError>(
                    final(env)@,
                ) && match required {
                    Some(p) => required_path(self@, old(env)@) == Some(p@),
                    None => required_path(self@, old(env)@) is None,
                },
                Err(e) => drain_step(self@, old(env)@) == Err::<EnvModel, EvalError>(e)
                    && final(env)@ == old(env)@,
            },
    {
        match &self.expr {
            Expr::Selector(s) => {
                let full = env.resolve(s);
                if is_unresolved(env.root(), &full) {
                    Err(EvalError::UnresolvedAlias)
                } else {
                    let required = if self.left {
                        None
                    } else {
                        Some(full.clone())
                    };
                    env.bind(self.alias.clone(), full);
                    Ok(required)
                }
            },
            Expr::Value(v) => {
                env.bind_value(self.alias.clone(), v.clone());
                Ok(None)
            },
            _ => Err(EvalError::TypeError),
        }
    }
}

/// Applies the drains in order, stops at the first that fails, and returns
/// the paths that they require.
pub fn execute_drains(drains: &Vec<Drain>, env: &mut Env) -> (r: Result<Vec<Selector>, EvalError>)
    ensures
        final(env)@ == drain_all(drain_views(drains@), old(env)@).0,
        match r {
            Ok(paths) => drain_all(drain_views(drains@), old(env)@).1 is None && path_views(paths@)
                == required_paths(drain_views(drains@), old(env)@),
            Err(e) => drain_all(drain_views(drains@), old(env)@).1 == Some(e),
        },
{
    let mut i: usize = 0;
    let mut paths: Vec<Selector> = Vec::new();
    let ghost all = drain_views(drains@);
    let ghost start = env@;
    assert(all.take(0) =~= Seq::<DrainModel>::empty());
    assert(path_views(paths@) =~= Seq::<Path>::empty());
    while i < drains.len()
        invariant
            i <= drains.len(),
            all == drain_views(drains@),
            start == old(env)@,
            drain_all(all.take(i as int), start) == (env@, None::<EvalError>),
            path_views(paths@) == required_paths(all.take(i as int), start),
        decreases drains.len() - i,
    {
        proof {
            let next = all.take(i + 1);
            assert(next.drop_last() =~= all.take(i as int));
            assert(next.last() == drains@[i as int]@);
        }
        let ghost before = path_views(paths@);
        match drains[i].execute(env) {
            Ok(required) => {
                match required {
                    Some(p) => {
                        paths.push(p);
                        assert(path_views(paths@) =~= before.push(p@));
                    },
                    None => {},
                }
            },
            Err(e) => {
                proof {
                    assert(drain_all(all.take(i + 1), start) == (env@, Some(e)));
                    lemma_drains_stop(all, i + 1, start);
                }
                return Err(e);
            },
        }
        i += 1;
    }
    assert(all.take(i as int) =~= all);
    Ok(paths)
}

/// After a drain has failed the later ones change nothing.
proof fn lemma_drains_stop(drains: Seq<DrainModel>, n: int, env: EnvModel)
    requires
        0 <= n <= drains.len(),
        drain_all(drains.take(n), env).1 is Some,
    ensures
        drain_all(drains, env) == drain_all(drains.take(n), env),
    decreases drains.len() - n,
{
    if n < drains.len() {
        let next = drains.take(n + 1);
        assert(next.drop_last() =~= drains.take(n));
        lemma_drains_stop(drains, n + 1, env);
    } else {
        assert(drains.take(n) =~= drains);
    }
}

} // verus!
