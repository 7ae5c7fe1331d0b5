//! The parser of value literals: `{ 'k': v, ... }`, `[ v, ... ]`,
//! `<< v, ... >>`, quoted strings, numbers, `true`, `false`, `null` and
//! `missing`.
use vstd::prelude::*;
use crate::parser::elements::{
    char_at,
    error,
    error_at, keyword,
    multispace0,
    skip_space,
    tag_no_case,
    text_at,
    word_at,
    ParseError,
};
use crate::parser::literal::{
    integer, integer_at, number, number_at, number_view, string, string_at, Parsed,
};
use crate::text::to_chars;
use crate::value::model::{put, Entries, Rational, Value};
use crate::value::number::{fits, product_of, reduce, Number};
use crate::value::object::{object_insert, object_new};
use crate::value::pql::{lemma_view_items, views, PqlValue};

verus! {

/// A number at `pos`, divided by the whole number behind a `/` if one
/// follows; a divisor of zero and a quotient that does not fit are
/// refused.
pub open spec fn fraction_at(s: Seq<char>, pos: int) -> Parsed<Rational> {
    match number_at(s, pos) {
        Ok((n, after)) => if 0 <= after < s.len() && s[after] == '/' {
            match integer_at(s, after + 1) {
                Ok((d, end)) => if d > 0 && fits(product_of(n, reduce(1, d as int))) {
                    Ok((product_of(n, reduce(1, d as int)), end))
                } else {
                    Err(after)
                },
                Err(e) => Err(e),
            }
        } else {
            Ok((n, after))
        },
        Err(e) => Err(e),
    }
}

/// The opening bracket of a bag.
pub open spec fn bag_open() -> Seq<char> {
    seq!['<', '<']
}

/// The closing bracket of a bag.
pub open spec fn bag_close() -> Seq<char> {
    seq!['>', '>']
}

/// The closing bracket of an array.
pub open spec fn array_close() -> Seq<char> {
    seq![']']
}

/// The elements of a collection from `pos` on, up to the closing `close`;
/// `acc` holds the elements before `pos`.
pub open spec fn items_at(s: Seq<char>, pos: int, close: Seq<char>, acc: Seq<Value>) -> Parsed<
    Seq<Value>,
>
    decreases s.len() - pos, 1nat,
{
    match value_at(s, pos) {
        Err(e) => Err(e),
        Ok((v, after)) => {
            let p = skip_space(s, after);
            if after <= pos || p < after {
                Err(pos)
            } else if 0 <= p < s.len() && s[p] == ',' {
                items_at(s, p + 1, close, acc.push(v))
            } else if text_at(s, p, close) {
                Ok((acc.push(v), p + close.len()))
            } else {
                Err(p)
            }
        },
    }
}

/// A collection behind its opening bracket: the closing bracket at once,
/// or elements separated by commas.
pub open spec fn collection_at(s: Seq<char>, pos: int, close: Seq<char>) -> Parsed<Seq<Value>>
    decreases s.len() - pos, 2nat,
{
    let p = skip_space(s, pos);
    if text_at(s, p, close) {
        Ok((Seq::empty(), p + close.len()))
    } else if p < pos || p > s.len() {
        Err(pos)
    } else {
        items_at(s, p, close, Seq::empty())
    }
}

/// The entries of an object from `pos` on, up to the closing brace; `acc`
/// holds the entries before `pos`. A key that comes again takes the new
/// value in its old place.
pub open spec fn entries_at(s: Seq<char>, pos: int, acc: Entries) -> Parsed<Entries>
    decreases s.len() - pos, 1nat,
{
    let start = skip_space(s, pos);
    match string_at(s, start) {
        Err(e) => Err(e),
        Ok((key, after_key)) => {
            let colon = skip_space(s, after_key);
            if start < pos || after_key <= start || colon < after_key || !(colon < s.len()
                && s[colon] == ':') {
                Err(colon)
            } else {
                match value_at(s, colon + 1) {
                    Err(e) => Err(e),
                    Ok((v, after)) => {
                        let p = skip_space(s, after);
                        if after <= colon || p < after {
                            Err(pos)
                        } else if 0 <= p < s.len() && s[p] == ',' {
                            entries_at(s, p + 1, put(acc, key, v))
                        } else if 0 <= p < s.len() && s[p] == '}' {
                            Ok((put(acc, key, v), p + 1))
                        } else {
                            Err(p)
                        }
                    },
                }
            }
        },
    }
}

/// An object behind its opening brace.
pub open spec fn object_at(s: Seq<char>, pos: int) -> Parsed<Entries>
    decreases s.len() - pos, 2nat,
{
    let p = skip_space(s, pos);
    if 0 <= p < s.len() && s[p] == '}' {
        Ok((Seq::empty(), p + 1))
    } else if p < pos || p > s.len() {
        Err(pos)
    } else {
        entries_at(s, p, Seq::empty())
    }
}

/// A value at `pos`, white space before it skipped.
pub open spec fn value_at(s: Seq<char>, pos: int) -> Parsed<Value>
    decreases s.len() - pos, 0nat,
{
    let p = skip_space(s, pos);
    if !(0 <= pos <= p < s.len()) {
        Err(p)
    } else if word_at(s, p, "null"@) {
        Ok((Value::Null, p + "null"@.len()))
    } else if word_at(s, p, "missing"@) {
        Ok((Value::Missing, p + "missing"@.len()))
    } else if word_at(s, p, "true"@) {
        Ok((Value::Bool(true), p + "true"@.len()))
    } else if word_at(s, p, "false"@) {
        Ok((Value::Bool(false), p + "false"@.len()))
    } else if s[p] == '[' {
        match collection_at(s, p + 1, array_close()) {
            Ok((items, after)) => Ok((Value::Array(items), after)),
            Err(e) => Err(e),
        }
    } else if text_at(s, p, bag_open()) {
        match collection_at(s, p + 2, bag_close()) {
            Ok((items, after)) => Ok((Value::Bag(items), after)),
            Err(e) => Err(e),
        }
    } else if s[p] == '{' {
        match object_at(s, p + 1) {
            Ok((entries, after)) => Ok((Value::Object(entries), after)),
            Err(e) => Err(e),
        }
    } else if s[p] == '\'' || s[p] == '"' {
        match string_at(s, p) {
            Ok((text, after)) => Ok((Value::Str(text), after)),
            Err(e) => Err(e),
        }
    } else {
        match fraction_at(s, p) {
            Ok((n, after)) => Ok((Value::Num(n), after)),
            Err(e) => Err(e),
        }
    }
}

/// The value that a text denotes: one value with nothing but white space
/// around it; else the position of the first character that does not fit.
pub open spec fn parse_value(s: Seq<char>) -> Result<Value, int> {
    match value_at(s, 0) {
        Ok((v, after)) => {
            let end = skip_space(s, after);
            if end == s.len() {
                Ok(v)
            } else {
                Err(end)
            }
        },
        Err(e) => Err(e),
    }
}

/// The view of a parsed value.
pub open spec fn value_view(r: Result<(PqlValue, usize), usize>) -> Parsed<Value> {
    match r {
        Ok((v, p)) => Ok((v@, p as int)),
        Err(e) => Err(e as int),
    }
}

/// The view of parsed elements.
pub open spec fn items_view(r: Result<(Vec<PqlValue>, usize), usize>) -> Parsed<Seq<Value>> {
    match r {
        Ok((v, p)) => Ok((views(v@), p as int)),
        Err(e) => Err(e as int),
    }
}

/// A number at `pos`, with an optional divisor behind `/`.
pub fn fraction(s: &[char], pos: usize) -> (r: Result<(Number, usize), usize>)
    requires
        pos <= s@.len(),
    ensures
        number_view(r) == fraction_at(s@, pos as int),
        r matches Ok((_, p)) ==> pos < p <= s@.len(),
        r matches Err(e) ==> pos <= e <= s@.len(),
{
    let n0 = s.len();
    match number(s, pos) {
        Ok((n, after)) => {
            if char_at(s, after, '/') {
                match integer(s, after + 1) {
                    Ok((d, end)) => {
                        match Number::new(1, d) {
                            Some(unit) => match n.multiply(&unit) {
                                Some(q) => Ok((q, end)),
                                None => Err(after),
                            },
                            None => Err(after),
                        }
                    },
                    Err(e) => Err(e),
                }
            } else {
                Ok((n, after))
            }
        },
        Err(e) => Err(e),
    }
}

/// A collection behind its opening bracket.
fn collection(s: &[char], pos: usize, close: &str) -> (r: Result<(Vec<PqlValue>, usize), usize>)
    requires
        pos <= s@.len(),
    ensures
        items_view(r) == collection_at(s@, pos as int, close@),
        r matches Ok((_, p)) ==> pos <= p <= s@.len(),
        r matches Err(e) ==> pos <= e <= s@.len(),
    decreases s@.len() - pos, 2nat,
{
    let mut items: Vec<PqlValue> = Vec::new();
    let n = s.len();
    let first = multispace0(s, pos);
    match tag_no_case(s, first, close) {
        Some(end) => {
            assert(views(items@) =~= Seq::<Value>::empty());
            return Ok((items, end));
        },
        None => {},
    }
    let mut p: usize = first;
    assert(views(items@) =~= Seq::<Value>::empty());
    loop
        invariant
            pos <= p <= s@.len(),
            s@.len() <= usize::MAX,
            collection_at(s@, pos as int, close@) == items_at(s@, p as int, close@, views(items@)),
        decreases s@.len() - p,
    {
        let ghost before = views(items@);
        match value(s, p) {
            Err(e) => {
                return Err(e);
            },
            Ok((v, after)) => {
                items.push(v);
                assert(views(items@) =~= before.push(v@));
                let next = multispace0(s, after);
                if char_at(s, next, ',') {
                    p = next + 1;
                } else {
                    match tag_no_case(s, next, close) {
                        Some(end) => {
                            return Ok((items, end));
                        },
                        None => {
                            return Err(next);
                        },
                    }
                }
            },
        }
    }
}

/// The view of parsed entries.
pub open spec fn entries_view(r: Result<(PqlValue, usize), usize>) -> Parsed<Entries> {
    match r {
        Ok((v, p)) => Ok((v@->Object_0, p as int)),
        Err(e) => Err(e as int),
    }
}

/// An object behind its opening brace.
fn object(s: &[char], pos: usize) -> (r: Result<(PqlValue, usize), usize>)
    requires
        pos <= s@.len(),
    ensures
        entries_view(r) == object_at(s@, pos as int),
        r matches Ok((v, p)) ==> pos <= p <= s@.len() && v@ is Object,
        r matches Err(e) ==> pos <= e <= s@.len(),
    decreases s@.len() - pos, 2nat,
{
    let mut fields = object_new();
    let n = s.len();
    let first = multispace0(s, pos);
    if char_at(s, first, '}') {
        return Ok((PqlValue::Object(fields), first + 1));
    }
    let mut p: usize = first;
    loop
        invariant
            pos <= p <= s@.len(),
            s@.len() <= usize::MAX,
            object_at(s@, pos as int) == entries_at(s@, p as int, fields@),
        decreases s@.len() - p,
    {
        let start = multispace0(s, p);
        match string(s, start) {
            Err(e) => {
                return Err(e);
            },
            Ok((key, after_key)) => {
                let colon = multispace0(s, after_key);
                if !char_at(s, colon, ':') {
                    return Err(colon);
                }
                match value(s, colon + 1) {
                    Err(e) => {
                        return Err(e);
                    },
                    Ok((v, after)) => {
                        object_insert(&mut fields, key, v);
                        let next = multispace0(s, after);
                        if char_at(s, next, ',') {
                            p = next + 1;
                        } else if char_at(s, next, '}') {
                            return Ok((PqlValue::Object(fields), next + 1));
                        } else {
                            return Err(next);
                        }
                    },
                }
            },
        }
    }
}

/// A value at `pos`.
pub fn value(s: &[char], pos: usize) -> (r: Result<(PqlValue, usize), usize>)
    requires
        pos <= s@.len(),
    ensures
        value_view(r) == value_at(s@, pos as int),
        r matches Ok((_, p)) ==> pos < p <= s@.len(),
        r matches Err(e) ==> pos <= e <= s@.len(),
    decreases s@.len() - pos, 0nat,
{
    let p = multispace0(s, pos);
    if p >= s.len() {
        return Err(p);
    }
    proof {
        assert("null"@.len() > 0 && "missing"@.len() > 0 && "true"@.len() > 0 && "false"@.len() > 0
            && "<<"@ =~= bag_open() && ">>"@ =~= bag_close() && "]"@ =~= array_close()) by {
            reveal_strlit("null");
            reveal_strlit("missing");
            reveal_strlit("true");
            reveal_strlit("false");
            reveal_strlit("<<");
            reveal_strlit(">>");
            reveal_strlit("]");
        }
    }
    match keyword(s, p, "null") {
        Some(end) => {
            return Ok((PqlValue::Null, end));
        },
        None => {},
    }
    match keyword(s, p, "missing") {
        Some(end) => {
            return Ok((PqlValue::Missing, end));
        },
        None => {},
    }
    match keyword(s, p, "true") {
        Some(end) => {
            return Ok((PqlValue::Boolean(true), end));
        },
        None => {},
    }
    match keyword(s, p, "false") {
        Some(end) => {
            return Ok((PqlValue::Boolean(false), end));
        },
        None => {},
    }
    let c = s[p];
    if c == '[' {
        match collection(s, p + 1, "]") {
            Ok((items, after)) => {
                let v = PqlValue::Array(items);
                proof {
                    lemma_view_items(v);
                }
                Ok((v, after))
            },
            Err(e) => Err(e),
        }
    } else if tag_no_case(s, p, "<<").is_some() {
        match collection(s, p + 2, ">>") {
            Ok((items, after)) => {
                let v = PqlValue::Bag(items);
                proof {
                    lemma_view_items(v);
                }
                Ok((v, after))
            },
            Err(e) => Err(e),
        }
    } else if c == '{' {
        object(s, p + 1)
    } else if c == '\'' || c == '"' {
        match string(s, p) {
            Ok((text, after)) => Ok((PqlValue::Str(text), after)),
            Err(e) => Err(e),
        }
    } else {
        match fraction(s, p) {
            Ok((n, after)) => Ok((PqlValue::Num(n), after)),
            Err(e) => Err(e),
        }
    }
}

/// Parses a value literal: one value with nothing but white space around
/// it. An error names the first character that does not fit.
pub fn pql_value(input: &str) -> (r: Result<PqlValue, ParseError>)
    ensures
        match r {
            Ok(v) => parse_value(input@) == Ok::<Value, int>(v@),
            Err(e) => parse_value(input@) matches Err(p) && e == error_at(input@, p),
        },
{
    let chars = to_chars(input);
    let s = chars.as_slice();
    match value(s, 0) {
        Ok((v, after)) => {
            let end = multispace0(s, after);
            if end == s.len() {
                Ok(v)
            } else {
                Err(error(s, end))
            }
        },
        Err(e) => Err(error(s, e)),
    }
}

/// Parses a value literal; the same as [`pql_value`].
pub fn pql_model(input: &str) -> (r: Result<PqlValue, ParseError>)
    ensures
        match r {
            Ok(v) => parse_value(input@) == Ok::<Value, int>(v@),
            Err(e) => parse_value(input@) matches Err(p) && e == error_at(input@, p),
        },
{
    pql_value(input)
}

impl core::str::FromStr for PqlValue {
    type Err = ParseError;

    /// Parses a value literal; see [`pql_value`].
    fn from_str(input: &str) -> (r: Result<PqlValue, ParseError>)
        ensures
            match r {
                Ok(v) => parse_value(input@) == Ok::<Value, int>(v@),
                Err(e) => parse_value(input@) matches Err(p) && e == error_at(input@, p),
            },
    {
        pql_value(input)
    }
}

} // verus!
