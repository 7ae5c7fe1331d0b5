//! A SELECT statement as it was parsed.
pub use crate::sql::expr::{clone_fields, field_views, Sql, SqlModel};
