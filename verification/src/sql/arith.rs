//! Arithmetic on values: numbers at the leaves, collections element by
//! element.
use vstd::prelude::*;
use crate::value::model::{Rational, Value};
use crate::value::number::{
    difference_of,
    fits,
    power_of,
    product_of,
    quotient_of,
    remainder_of,
    sum_of,
    Number,
};
use crate::value::pql::{lemma_view_items, views, PqlValue};

verus! {

/// A binary operator of arithmetic.
#[derive(Debug, Clone, Copy, PartialEq, Eq, Structural)]
pub enum Op {
    Add,
    Sub,
    Mul,
    Div,
    Rem,
    Exp,
}

/// Why an evaluation was given up.
#[derive(Debug, Clone, Copy, PartialEq, Eq, Structural)]
pub enum EvalError {
    /// An operator met a value that is neither a number nor absent.
    TypeError,
    /// The root of a FROM path is neither an alias nor a field of the data.
    UnresolvedAlias,
}

/// A number as a value, or Missing where the operation has no result that
/// fits.
pub open spec fn number_or_missing(r: Rational, defined: bool) -> Value {
    if defined && fits(r) {
        Value::Num(r)
    } else {
        Value::Missing
    }
}

/// The power `a ^ b`: defined for a whole exponent; a negative exponent
/// takes the power of the reciprocal.
pub open spec fn power_value(a: Rational, b: Rational) -> Value {
    if b.den != 1 {
        Value::Missing
    } else if b.num >= 0 {
        match power_of(a, b.num as nat) {
            Some(p) => Value::Num(p),
            None => Value::Missing,
        }
    } else {
        let one = Rational { num: 1, den: 1 };
        if a.num != 0 && fits(quotient_of(one, a)) {
            match power_of(quotient_of(one, a), (-b.num) as nat) {
                Some(p) => Value::Num(p),
                None => Value::Missing,
            }
        } else {
            Value::Missing
        }
    }
}

/// The result of an operator on two numbers. Division and remainder by
/// zero, and every result that does not fit, are Missing.
pub open spec fn number_op(op: Op, a: Rational, b: Rational) -> Value {
    match op {
        Op::Add => number_or_missing(sum_of(a, b), true),
        Op::Sub => number_or_missing(difference_of(a, b), true),
        Op::Mul => number_or_missing(product_of(a, b), true),
        Op::Div => number_or_missing(quotient_of(a, b), b.num != 0),
        Op::Rem => number_or_missing(remainder_of(a, b), b.num != 0),
        Op::Exp => power_value(a, b),
    }
}

/// The result of an operator on two values that are no collections:
/// arithmetic on two numbers; Missing if either is Missing; else Null if
/// either is Null; any other operand is a type error.
pub open spec fn scalar_op(op: Op, a: Value, b: Value) -> Result<Value, EvalError> {
    if a is Missing || b is Missing {
        Ok(Value::Missing)
    } else if a is Null || b is Null {
        Ok(Value::Null)
    } else {
        match (a, b) {
            (Value::Num(x), Value::Num(y)) => Ok(number_op(op, x, y)),
            _ => Err(EvalError::TypeError),
        }
    }
}

/// Every result is `Ok`.
pub open spec fn all_ok(results: Seq<Result<Value, EvalError>>) -> bool {
    forall|i: int| 0 <= i < results.len() ==> (#[trigger] results[i]) is Ok
}

/// The values of the results.
pub open spec fn ok_values(results: Seq<Result<Value, EvalError>>) -> Seq<Value> {
    Seq::new(
        results.len(),
        |i: int|
            match results[i] {
                Ok(v) => v,
                Err(_) => Value::Missing,
            },
    )
}

/// A collection of the kind of `shape` from element results: a type error
/// if any element failed.
pub open spec fn gather(shape: Value, results: Seq<Result<Value, EvalError>>) -> Result<
    Value,
    EvalError,
> {
    if all_ok(results) {
        Ok(shape.with_items(ok_values(results)))
    } else {
        Err(EvalError::TypeError)
    }
}

/// The results of an operator over the elements of its operands, of which
/// one at least is a collection: two collections are taken element by
/// element; a collection and another value by taking each element with
/// that value.
pub open spec fn element_results(op: Op, a: Value, b: Value) -> Seq<Result<Value, EvalError>>
    decreases a, b, 0nat,
{
    if a.is_collection() && b.is_collection() {
        Seq::new(
            a.items().len(),
            |i: int|
                if 0 <= i < a.items().len() && i < b.items().len() {
                    apply_op(op, a.items()[i], b.items()[i])
                } else {
                    Err(EvalError::TypeError)
                },
        )
    } else if a.is_collection() {
        Seq::new(
            a.items().len(),
            |i: int|
                if 0 <= i < a.items().len() {
                    apply_op(op, a.items()[i], b)
                } else {
                    Err(EvalError::TypeError)
                },
        )
    } else {
        Seq::new(
            b.items().len(),
            |i: int|
                if 0 <= i < b.items().len() {
                    apply_op(op, a, b.items()[i])
                } else {
                    Err(EvalError::TypeError)
                },
        )
    }
}

/// The result of an operator on two values. Where an operand is a
/// collection the result is a collection of the element results, of the
/// kind of the left collection if there is one; two collections must have
/// the same length.
pub open spec fn apply_op(op: Op, a: Value, b: Value) -> Result<Value, EvalError>
    decreases a, b, 1nat,
{
    if a.is_collection() && b.is_collection() && a.items().len() != b.items().len() {
        Err(EvalError::TypeError)
    } else if a.is_collection() {
        gather(a, element_results(op, a, b))
    } else if b.is_collection() {
        gather(b, element_results(op, a, b))
    } else {
        scalar_op(op, a, b)
    }
}

/// The view of a result.
pub open spec fn result_view(r: Result<PqlValue, EvalError>) -> Result<Value, EvalError> {
    match r {
        Ok(v) => Ok(v@),
        Err(e) => Err(e),
    }
}

/// A number as a value, Missing where there is none.
fn number_value(n: Option<Number>) -> (v: PqlValue)
    ensures
        v@ == match n {
            Some(x) => Value::Num(x@),
            None => Value::Missing,
        },
{
    match n {
        Some(x) => PqlValue::Num(x),
        None => PqlValue::Missing,
    }
}

/// The power `a ^ b`.
fn power_numbers(a: &Number, b: &Number) -> (v: PqlValue)
    ensures
        v@ == power_value(a@, b@),
{
    if b.denominator() != 1 {
        return PqlValue::Missing;
    }
    let e = b.numerator();
    if e >= 0 {
        number_value(a.power(e as u64))
    } else {
        let one = Number::from_i64(1);
        match one.divide(a) {
            Some(inverse) => {
                let wide: i128 = -(e as i128);
                number_value(inverse.power(wide as u64))
            },
            None => PqlValue::Missing,
        }
    }
}

/// The result of an operator on two numbers.
pub fn apply_numbers(op: Op, a: &Number, b: &Number) -> (v: PqlValue)
    ensures
        v@ == number_op(op, a@, b@),
{
    match op {
        Op::Add => number_value(a.add(b)),
        Op::Sub => number_value(a.subtract(b)),
        Op::Mul => number_value(a.multiply(b)),
        Op::Div => number_value(a.divide(b)),
        Op::Rem => number_value(a.remainder(b)),
        Op::Exp => power_numbers(a, b),
    }
}

/// The result of an operator on two values that are no collections.
fn apply_scalars(op: Op, a: &PqlValue, b: &PqlValue) -> (r: Result<PqlValue, EvalError>)
    requires
        !a@.is_collection(),
        !b@.is_collection(),
    ensures
        result_view(r) == scalar_op(op, a@, b@),
{
    if a.is_missing() || b.is_missing() {
        return Ok(PqlValue::Missing);
    }
    match (a, b) {
        (PqlValue::Null, _) => Ok(PqlValue::Null),
        (_, PqlValue::Null) => Ok(PqlValue::Null),
        (PqlValue::Num(x), PqlValue::Num(y)) => Ok(apply_numbers(op, x, y)),
        _ => Err(EvalError::TypeError),
    }
}

/// The elements of a collection.
fn items_of(v: &PqlValue) -> (items: &Vec<PqlValue>)
    requires
        v@.is_collection(),
    ensures
        views(items@) == v@.items(),
{
    proof {
        lemma_view_items(*v);
    }
    match v {
        PqlValue::Array(items) => items,
        PqlValue::Bag(items) => items,
        _ => {
            assert(false);
            unreached()
        },
    }
}

/// A collection of the kind of `shape` that holds `items`.
fn collection_like(shape: &PqlValue, items: Vec<PqlValue>) -> (r: PqlValue)
    ensures
        r@ == shape@.with_items(views(items@)),
{
    let r = match shape {
        PqlValue::Bag(_) => PqlValue::Bag(items),
        _ => PqlValue::Array(items),
    };
    proof {
        lemma_view_items(r);
    }
    r
}

/// Which operands of an element-wise operation are collections.
#[derive(Clone, Copy)]
enum Spread {
    Both,
    Left,
    Right,
}

/// The operands of element `i` of an element-wise operation.
spec fn spread_result(op: Op, a: Value, b: Value, spread: Spread, i: int) -> Result<
    Value,
    EvalError,
> {
    match spread {
        Spread::Both => apply_op(op, a.items()[i], b.items()[i]),
        Spread::Left => apply_op(op, a.items()[i], b),
        Spread::Right => apply_op(op, a, b.items()[i]),
    }
}

/// The results of an operator over the elements of its collections.
fn apply_each(op: Op, a: &PqlValue, b: &PqlValue, spread: Spread, n: usize) -> (r: Result<
    Vec<PqlValue>,
    EvalError,
>)
    requires
        spread is Both ==> a@.is_collection() && b@.is_collection() && a@.items().len() == n
            && b@.items().len() == n,
        spread is Left ==> a@.is_collection() && !b@.is_collection() && a@.items().len() == n,
        spread is Right ==> !a@.is_collection() && b@.is_collection() && b@.items().len() == n,
    ensures
        r matches Ok(out) ==> out.len() == n && forall|i: int|
            0 <= i < n ==> spread_result(op, a@, b@, spread, i) == Ok::<Value, EvalError>(
                (#[trigger] out@[i])@,
            ),
        r is Err ==> r == Err::<Vec<PqlValue>, EvalError>(EvalError::TypeError) && exists|i: int|
            0 <= i < n && (#[trigger] spread_result(op, a@, b@, spread, i)) is Err,
    decreases a@, b@, 0nat,
{
    let mut out: Vec<PqlValue> = Vec::new();
    let mut i: usize = 0;
    while i < n
        invariant
            i <= n,
            spread is Both ==> a@.is_collection() && b@.is_collection() && a@.items().len() == n
                && b@.items().len() == n,
            spread is Left ==> a@.is_collection() && !b@.is_collection() && a@.items().len() == n,
            spread is Right ==> !a@.is_collection() && b@.is_collection() && b@.items().len()
                == n,
            out.len() == i,
            forall|j: int|
                0 <= j < i ==> spread_result(op, a@, b@, spread, j) == Ok::<Value, EvalError>(
                    (#[trigger] out@[j])@,
                ),
        decreases n - i,
    {
        let one = match spread {
            Spread::Both => {
                let xs = items_of(a);
                let ys = items_of(b);
                assert(views(xs@)[i as int] == xs@[i as int]@);
                assert(views(ys@)[i as int] == ys@[i as int]@);
                assert(decreases_to!(a@ => a@.items()[i as int])) by {
                    lemma_items_decrease(a@, i as int);
                }
                apply_values(op, &xs[i], &ys[i])
            },
            Spread::Left => {
                let xs = items_of(a);
                assert(views(xs@)[i as int] == xs@[i as int]@);
                assert(decreases_to!(a@ => a@.items()[i as int])) by {
                    lemma_items_decrease(a@, i as int);
                }
                apply_values(op, &xs[i], b)
            },
            Spread::Right => {
                let ys = items_of(b);
                assert(views(ys@)[i as int] == ys@[i as int]@);
                assert(decreases_to!(b@ => b@.items()[i as int])) by {
                    lemma_items_decrease(b@, i as int);
                }
                apply_values(op, a, &ys[i])
            },
        };
        match one {
            Ok(v) => {
                out.push(v);
            },
            Err(_) => {
                assert(spread_result(op, a@, b@, spread, i as int) is Err);
                return Err(EvalError::TypeError);
            },
        }
        i += 1;
    }
    Ok(out)
}

/// An element of a collection is smaller than the collection.
proof fn lemma_items_decrease(v: Value, i: int)
    requires
        v.is_collection(),
        0 <= i < v.items().len(),
    ensures
        decreases_to!(v => v.items()[i]),
{
    match v {
        Value::Array(items) => {
            assert(decreases_to!(v => v->Array_0));
            assert(decreases_to!(items => items[i]));
        },
        Value::Bag(items) => {
            assert(decreases_to!(v => v->Bag_0));
            assert(decreases_to!(items => items[i]));
        },
        _ => {},
    }
}

/// The result of an operator on two values; see [`apply_op`].
pub fn apply_values(op: Op, a: &PqlValue, b: &PqlValue) -> (r: Result<PqlValue, EvalError>)
    ensures
        result_view(r) == apply_op(op, a@, b@),
    decreases a@, b@, 1nat,
{
    let left = a.is_collection();
    let right = b.is_collection();
    if !left && !right {
        return apply_scalars(op, a, b);
    }
    let spread = if left && right {
        Spread::Both
    } else if left {
        Spread::Left
    } else {
        Spread::Right
    };
    let n = if left {
        items_of(a).len()
    } else {
        items_of(b).len()
    };
    if left && right && items_of(b).len() != n {
        return Err(EvalError::TypeError);
    }
    let shape = if left {
        a
    } else {
        b
    };
    let ghost results = element_results(op, a@, b@);
    assert(results.len() == n);
    assert forall|i: int| 0 <= i < n implies #[trigger] results[i] == spread_result(
        op,
        a@,
        b@,
        spread,
        i,
    ) by {}
    assert(apply_op(op, a@, b@) == gather(shape@, results));
    match apply_each(op, a, b, spread, n) {
        Ok(out) => {
            assert forall|i: int| 0 <= i < results.len() implies (#[trigger] results[i]) is Ok by {
                assert(spread_result(op, a@, b@, spread, i) == Ok::<Value, EvalError>(out@[i]@));
            }
            assert forall|i: int| 0 <= i < n implies views(out@)[i] == #[trigger] ok_values(
                results,
            )[i] by {
                assert(spread_result(op, a@, b@, spread, i) == Ok::<Value, EvalError>(out@[i]@));
            }
            assert(views(out@) =~= ok_values(results));
            Ok(collection_like(shape, out))
        },
        Err(e) => {
            let ghost i = choose|i: int|
                0 <= i < n && (#[trigger] spread_result(op, a@, b@, spread, i)) is Err;
            assert(results[i] is Err);
            Err(EvalError::TypeError)
        },
    }
}

} // verus!
