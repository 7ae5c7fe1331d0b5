//! The entry points: texts in, texts out.
use vstd::prelude::*;
use crate::parser::elements::{error_at, ParseError};
use crate::parser::query::{parse_sql, sql};
use crate::planner::eval::{evaluate_sql, run};
use crate::pqlir_parser::{parse_value, pql_value};
use crate::sql::arith::EvalError;
use crate::value::model::Value;
use crate::value::pql::PqlValue;
use crate::value::print::render;

verus! {

/// Why an entry point failed.
#[derive(Debug, Clone, Copy, PartialEq, Eq, Structural)]
pub enum EngineError {
    /// The query or the data is malformed.
    Parse(ParseError),
    /// The evaluation was given up.
    Eval(EvalError),
    /// The format is not one that the library reads and writes.
    Format,
}

/// The name of the one format that the library reads and writes: the
/// literal form of values.
pub open spec fn is_literal_format(name: Seq<char>) -> bool {
    name == "pql"@ || name == "partiql"@
}

/// What `loads` gives.
pub open spec fn loads_spec(input: Seq<char>, format: Seq<char>) -> Result<Value, EngineError> {
    if is_literal_format(format) {
        match parse_value(input) {
            Ok(v) => Ok(v),
            Err(p) => Err(EngineError::Parse(error_at(input, p))),
        }
    } else {
        Err(EngineError::Format)
    }
}

/// What `dumps` gives.
pub open spec fn dumps_spec(data: Value, format: Seq<char>) -> Result<Seq<char>, EngineError> {
    if is_literal_format(format) {
        Ok(render(data))
    } else {
        Err(EngineError::Format)
    }
}

/// What `query_evaluate` gives.
pub open spec fn query_spec(data: Value, query: Seq<char>) -> Result<Value, EngineError> {
    match parse_sql(query) {
        Ok(q) => match evaluate_sql(q, data) {
            Ok(v) => Ok(v),
            Err(e) => Err(EngineError::Eval(e)),
        },
        Err(p) => Err(EngineError::Parse(error_at(query, p))),
    }
}

/// What `evaluate` gives: the formats are checked first, then the data is
/// read, the query is parsed and run, and the result is written.
pub open spec fn evaluate_spec(
    query: Seq<char>,
    input: Seq<char>,
    from: Seq<char>,
    to: Seq<char>,
) -> Result<Seq<char>, EngineError> {
    if !is_literal_format(from) || !is_literal_format(to) {
        Err(EngineError::Format)
    } else {
        match loads_spec(input, from) {
            Ok(data) => match query_spec(data, query) {
                Ok(v) => dumps_spec(v, to),
                Err(e) => Err(e),
            },
            Err(e) => Err(e),
        }
    }
}

/// The view of a value inside a result.
pub open spec fn value_result(r: Result<PqlValue, EngineError>) -> Result<Value, EngineError> {
    match r {
        Ok(v) => Ok(v@),
        Err(e) => Err(e),
    }
}

/// The view of a text inside a result.
pub open spec fn text_result(r: Result<String, EngineError>) -> Result<Seq<char>, EngineError> {
    match r {
        Ok(t) => Ok(t@),
        Err(e) => Err(e),
    }
}

/// Whether `name` names the literal form of values.
pub fn literal_format(name: &str) -> (r: bool)
    ensures
        r == is_literal_format(name@),
{
    crate::text::same_text(name, "pql") || crate::text::same_text(name, "partiql")
}

/// Reads a value from `input` in the format `from`.
pub fn loads(input: &str, from: &str) -> (r: Result<PqlValue, EngineError>)
    ensures
        value_result(r) == loads_spec(input@, from@),
{
    if !literal_format(from) {
        return Err(EngineError::Format);
    }
    match pql_value(input) {
        Ok(v) => Ok(v),
        Err(e) => Err(EngineError::Parse(e)),
    }
}

/// Writes `data` in the format `to`.
pub fn dumps(data: PqlValue, to: &str) -> (r: Result<String, EngineError>)
    ensures
        text_result(r) == dumps_spec(data@, to@),
{
    if !literal_format(to) {
        return Err(EngineError::Format);
    }
    Ok(data.render())
}

/// Parses `query` and runs it over `data`.
pub fn query_evaluate(data: PqlValue, query: &str) -> (r: Result<PqlValue, EngineError>)
    ensures
        value_result(r) == query_spec(data@, query@),
{
    match sql(query) {
        Ok(q) => match run(&q, &data) {
            Ok(v) => Ok(v),
            Err(e) => Err(EngineError::Eval(e)),
        },
        Err(e) => Err(EngineError::Parse(e)),
    }
}

/// Reads `input` in the format `from`, runs `query` over it and writes
/// the result in the format `to`.
pub fn evaluate(query: &str, input: &str, from: &str, to: &str) -> (r: Result<String, EngineError>)
    ensures
        text_result(r) == evaluate_spec(query@, input@, from@, to@),
{
    if !literal_format(from) || !literal_format(to) {
        return Err(EngineError::Format);
    }
    let data = match loads(input, from) {
        Ok(d) => d,
        Err(e) => {
            return Err(e);
        },
    };
    match query_evaluate(data, query) {
        Ok(v) => dumps(v, to),
        Err(e) => Err(e),
    }
}

} // verus!
