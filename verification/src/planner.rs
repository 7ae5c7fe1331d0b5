//! The logical plan of a query and the steps that execute it.
pub mod drain;
pub mod eval;
pub mod filter;
pub mod join;
pub mod laws;
pub mod plan;
pub mod product;
pub mod project;
pub mod sort;

pub use crate::planner::drain::Drain;
pub use crate::planner::eval::{evaluate, run};
pub use crate::planner::filter::{restrict, Filter};
pub use crate::planner::plan::LogicalPlan;
pub use crate::planner::project::{to_list, Projection, Records, Rows};
