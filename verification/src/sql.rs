//! The syntax of a query and the environment it is evaluated in.
pub mod arith;
pub mod clause;
pub mod env;
pub mod equality;
pub mod eval;
pub mod expr;
pub mod like;
pub mod query;
pub mod selector;

pub use crate::planner::eval::{evaluate, run};
pub use crate::planner::project::to_list;
pub use crate::sql::arith::EvalError;
pub use crate::sql::env::Env;
pub use crate::sql::expr::{Expr, Field, Func, Sql, WhereCond};
pub use crate::sql::like::re_from_str;
pub use crate::sql::selector::{Selector, SelectorNode};
