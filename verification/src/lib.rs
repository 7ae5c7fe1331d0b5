//! A query engine for semi-structured data in the style of PartiQL.
//!
//! A query is parsed into a syntax tree, lowered to a logical plan and run
//! against a tree of values: nested collections are unfolded, rows are
//! filtered by a structural restriction, fields are projected and the
//! columnar intermediate is transposed into a bag of objects.
//!
//! - [`value`]: the value tree, its mathematical view, equality, path
//!   navigation and the textual form.
//! - [`sql`]: the syntax tree, the environment of aliases, arithmetic and
//!   the evaluation of expressions.
//! - [`parser`] and [`pqlir_parser`]: queries and value literals from text.
//! - [`planner`]: the logical plan and its steps: drains, joins, the
//!   restriction of WHERE, projection, ORDER BY and LIMIT.
//! - [`engine`]: the entry points from text to text.
//! - [`round_trip`]: what is written reads back as the same value.
pub mod engine;
pub mod models;
pub mod parser;
pub mod planner;
pub mod pqlir_parser;
pub mod round_trip;
pub mod sql;
pub mod text;
pub mod value;
