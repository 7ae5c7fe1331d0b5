//! The value model: the executable tree of values and its mathematical view.
pub mod equality;
pub mod model;
pub mod navigate;
pub mod number;
pub mod object;
pub mod pql;
pub mod print;

pub use crate::value::model::Value;
pub use crate::value::number::Number;
pub use crate::value::object::ObjectMap;
pub use crate::value::pql::PqlValue;
