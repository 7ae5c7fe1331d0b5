//! Equality of values: bags up to order, objects up to the order of keys.
use vstd::prelude::*;
use vstd::std_specs::cmp::PartialEqSpecImpl;
use crate::value::model::{
    count_equal, lemma_index_of_is, lookup, values_equal, wf_value, Value,
};
use crate::value::object::{object_get, object_get_index, object_len, ObjectMap};
use crate::value::pql::{lemma_view_items, views, PqlValue};

verus! {

/// How many elements of `items` equal `v`.
fn count_matching(items: &Vec<PqlValue>, v: &PqlValue) -> (n: usize)
    ensures
        n == count_equal(views(items@), v@),
    decreases v@, 1nat,
{
    let mut n: usize = 0;
    let mut i: usize = 0;
    assert(views(items@).take(0) =~= Seq::<Value>::empty());
    while i < items.len()
        invariant
            i <= items.len(),
            n <= i,
            n == count_equal(views(items@).take(i as int), v@),
        decreases items.len() - i,
    {
        proof {
            let next = views(items@).take(i + 1);
            assert(next.drop_last() =~= views(items@).take(i as int));
            assert(next.last() == items@[i as int]@);
        }
        if v.equals(&items[i]) {
            n += 1;
        }
        i += 1;
    }
    assert(views(items@).take(i as int) =~= views(items@));
    n
}

/// Whether two sequences are equal element by element.
fn items_equal(x: &Vec<PqlValue>, y: &Vec<PqlValue>) -> (r: bool)
    ensures
        r == (x.len() == y.len() && forall|i: int|
            0 <= i < x.len() ==> values_equal(#[trigger] views(x@)[i], views(y@)[i])),
    decreases views(x@), 0nat,
{
    if x.len() != y.len() {
        return false;
    }
    let mut i: usize = 0;
    while i < x.len()
        invariant
            i <= x.len(),
            x.len() == y.len(),
            forall|j: int| 0 <= j < i ==> values_equal(#[trigger] views(x@)[j], views(y@)[j]),
        decreases x.len() - i,
    {
        assert(views(x@)[i as int] == x@[i as int]@);
        if !x[i].equals(&y[i]) {
            assert(!values_equal(views(x@)[i as int], views(y@)[i as int]));
            return false;
        }
        i += 1;
    }
    true
}

/// Whether two sequences hold the same elements the same number of times.
fn items_equal_as_bags(x: &Vec<PqlValue>, y: &Vec<PqlValue>) -> (r: bool)
    ensures
        r == (x.len() == y.len() && forall|i: int|
            0 <= i < x.len() ==> count_equal(views(x@), #[trigger] views(x@)[i]) == count_equal(
                views(y@),
                views(x@)[i],
            )),
    decreases views(x@), 0nat,
{
    if x.len() != y.len() {
        return false;
    }
    let mut i: usize = 0;
    while i < x.len()
        invariant
            i <= x.len(),
            x.len() == y.len(),
            forall|j: int|
                0 <= j < i ==> count_equal(views(x@), #[trigger] views(x@)[j]) == count_equal(
                    views(y@),
                    views(x@)[j],
                ),
        decreases x.len() - i,
    {
        assert(views(x@)[i as int] == x@[i as int]@);
        let a = count_matching(x, &x[i]);
        let b = count_matching(y, &x[i]);
        if a != b {
            return false;
        }
        i += 1;
    }
    true
}

/// Whether two objects have the same keys and equal values under each.
fn objects_equal(x: &ObjectMap, y: &ObjectMap) -> (r: bool)
    ensures
        r == (x@.len() == y@.len() && forall|i: int|
            0 <= i < x@.len() ==> (lookup(y@, (#[trigger] x@[i]).0) matches Some(v)
                && values_equal(x@[i].1, v))),
    decreases x@, 0nat,
{
    let n = object_len(x);
    if n != object_len(y) {
        return false;
    }
    let mut i: usize = 0;
    while i < n
        invariant
            i <= n,
            n == x@.len(),
            x@.len() == y@.len(),
            forall|j: int|
                0 <= j < i ==> (lookup(y@, (#[trigger] x@[j]).0) matches Some(v) && values_equal(
                    x@[j].1,
                    v,
                )),
        decreases n - i,
    {
        match object_get_index(x, i) {
            Some((k, v)) => {
                match object_get(y, k.as_str()) {
                    Some(w) => {
                        assert(decreases_to!(x@ => x@[i as int]));
                        assert(decreases_to!(x@[i as int] => x@[i as int].1));
                        if !v.equals(w) {
                            return false;
                        }
                    },
                    None => {
                        return false;
                    },
                }
            },
            None => {
                return false;
            },
        }
        i += 1;
    }
    true
}

impl PqlValue {
    /// Whether the two values are equal: arrays element by element, bags
    /// up to order, objects up to the order of their keys, numbers as
    /// fractions.
    pub fn equals(&self, other: &PqlValue) -> (r: bool)
        ensures
            r == values_equal(self@, other@),
        decreases self@, 0nat,
    {
        proof {
            lemma_view_items(*self);
            lemma_view_items(*other);
        }
        match (self, other) {
            (PqlValue::Missing, PqlValue::Missing) => true,
            (PqlValue::Null, PqlValue::Null) => true,
            (PqlValue::Boolean(x), PqlValue::Boolean(y)) => *x == *y,
            (PqlValue::Num(x), PqlValue::Num(y)) => x.same(y),
            (PqlValue::Str(x), PqlValue::Str(y)) => *x == *y,
            (PqlValue::Array(x), PqlValue::Array(y)) => {
                assert(decreases_to!(self@ => self@->Array_0));
                items_equal(x, y)
            },
            (PqlValue::Bag(x), PqlValue::Bag(y)) => {
                assert(decreases_to!(self@ => self@->Bag_0));
                items_equal_as_bags(x, y)
            },
            (PqlValue::Object(x), PqlValue::Object(y)) => {
                assert(decreases_to!(self@ => self@->Object_0));
                objects_equal(x, y)
            },
            _ => false,
        }
    }
}

impl PartialEq for PqlValue {
    fn eq(&self, other: &PqlValue) -> (r: bool) {
        self.equals(other)
    }
}

impl PartialEqSpecImpl for PqlValue {
    open spec fn obeys_eq_spec() -> bool {
        true
    }

    open spec fn eq_spec(&self, other: &PqlValue) -> bool {
        values_equal(self@, other@)
    }
}

/// Every well-formed value equals itself.
pub proof fn lemma_values_equal_reflexive(v: Value)
    requires
        wf_value(v),
    ensures
        values_equal(v, v),
    decreases v,
{
    match v {
        Value::Array(x) => {
            assert forall|i: int| 0 <= i < x.len() implies values_equal(#[trigger] x[i], x[i]) by {
                lemma_values_equal_reflexive(x[i]);
            }
        },
        Value::Object(x) => {
            assert forall|i: int| 0 <= i < x.len() implies (lookup(x, (#[trigger] x[i]).0) matches Some(
                w,
            ) && values_equal(x[i].1, w)) by {
                lemma_index_of_is(x, x[i].0, i);
                lemma_values_equal_reflexive(x[i].1);
            }
        },
        _ => {},
    }
}

} // verus!
