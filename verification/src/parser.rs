//! The parser of queries.
pub mod clauses;
pub mod elements;
pub mod literal;
pub mod math;
pub mod query;

pub use crate::parser::elements::ParseError;
pub use crate::parser::math::parse;
pub use crate::parser::query::sql;
