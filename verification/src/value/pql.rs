//! The executable value tree.
use vstd::prelude::*;
use crate::value::model::{flatten, flatten_items, lift, Value};
use crate::value::number::Number;
use crate::value::object::ObjectMap;

verus! {

/// A value of the data model.
#[derive(Debug)]
pub enum PqlValue {
    /// The marker of an absent binding; distinct from `Null`.
    Missing,
    Null,
    Str(String),
    Boolean(bool),
    Num(Number),
    /// An ordered sequence.
    Array(Vec<PqlValue>),
    /// A multiset, kept in a fixed order so that output is deterministic.
    Bag(Vec<PqlValue>),
    /// A mapping from key to value in insertion order, keys unique.
    Object(ObjectMap),
}

/// The views of the elements of `items`, in order.
pub open spec fn views(items: Seq<PqlValue>) -> Seq<Value> {
    Seq::new(items.len(), |i: int| items[i]@)
}

impl View for PqlValue {
    type V = Value;

    open spec fn view(&self) -> Value
        decreases self,
    {
        match self {
            PqlValue::Missing => Value::Missing,
            PqlValue::Null => Value::Null,
            PqlValue::Str(s) => Value::Str(s@),
            PqlValue::Boolean(b) => Value::Bool(*b),
            PqlValue::Num(n) => Value::Num(n@),
            PqlValue::Array(v) => Value::Array(
                Seq::new(
                    v@.len(),
                    |i: int|
                        if 0 <= i < v@.len() {
                            v@[i].view()
                        } else {
                            Value::Missing
                        },
                ),
            ),
            PqlValue::Bag(v) => Value::Bag(
                Seq::new(
                    v@.len(),
                    |i: int|
                        if 0 <= i < v@.len() {
                            v@[i].view()
                        } else {
                            Value::Missing
                        },
                ),
            ),
            PqlValue::Object(m) => Value::Object(m@),
        }
    }
}

/// The model of an array or a bag is the sequence of its elements' views.
pub proof fn lemma_view_items(v: PqlValue)
    ensures
        v matches PqlValue::Array(a) ==> v@ == Value::Array(views(a@)),
        v matches PqlValue::Bag(a) ==> v@ == Value::Bag(views(a@)),
{
    match v {
        PqlValue::Array(a) => {
            assert(v@->Array_0 =~= views(a@));
        },
        PqlValue::Bag(a) => {
            assert(v@->Bag_0 =~= views(a@));
        },
        _ => {},
    }
}

/// A copy of each element of `items`.
fn clone_items(items: &Vec<PqlValue>) -> (out: Vec<PqlValue>)
    ensures
        views(out@) == views(items@),
    decreases views(items@),
{
    let mut out: Vec<PqlValue> = Vec::new();
    let mut i: usize = 0;
    while i < items.len()
        invariant
            i <= items.len(),
            out.len() == i,
            forall|j: int| 0 <= j < i ==> out@[j]@ == items@[j]@,
        decreases items.len() - i,
    {
        proof {
            assert(views(items@)[i as int] == items@[i as int]@);
        }
        let c = items[i].clone();
        out.push(c);
        i += 1;
    }
    assert(views(out@) =~= views(items@));
    out
}

impl PqlValue {
    /// Whether the value is the Missing marker.
    pub fn is_missing(&self) -> (r: bool)
        ensures
            r == (self@ is Missing),
    {
        match self {
            PqlValue::Missing => true,
            _ => false,
        }
    }

    /// Whether the value is an array or a bag.
    pub fn is_collection(&self) -> (r: bool)
        ensures
            r == self@.is_collection(),
    {
        match self {
            PqlValue::Array(_) => true,
            PqlValue::Bag(_) => true,
            _ => false,
        }
    }

    /// Whether the value is neither a collection nor an object.
    pub fn is_scalar(&self) -> (r: bool)
        ensures
            r == self@.is_scalar(),
    {
        match self {
            PqlValue::Array(_) => false,
            PqlValue::Bag(_) => false,
            PqlValue::Object(_) => false,
            _ => true,
        }
    }
}

impl PqlValue {
    /// The value itself, unless it is Missing.
    pub fn then_if_not_missing(self) -> (r: Option<PqlValue>)
        ensures
            self@ is Missing ==> r is None,
            !(self@ is Missing) ==> r == Some(self),
    {
        match self {
            PqlValue::Missing => None,
            other => Some(other),
        }
    }

    /// The value as a sequence: the elements of a collection, or the value
    /// alone.
    pub fn into_items(self) -> (r: Vec<PqlValue>)
        ensures
            views(r@) == lift(self@),
    {
        proof {
            lemma_view_items(self);
        }
        match self {
            PqlValue::Array(items) => items,
            PqlValue::Bag(items) => items,
            other => {
                let mut r: Vec<PqlValue> = Vec::new();
                r.push(other);
                assert(views(r@) =~= lift(self@));
                r
            },
        }
    }

    /// Collapses one level of nesting: every element of a collection that
    /// is itself a collection is replaced by its elements.
    pub fn flatten(self) -> (r: PqlValue)
        ensures
            r@ == flatten(self@),
    {
        proof {
            lemma_view_items(self);
        }
        match self {
            PqlValue::Array(items) => {
                let r = PqlValue::Array(flatten_vec(items));
                proof {
                    lemma_view_items(r);
                }
                r
            },
            PqlValue::Bag(items) => {
                let r = PqlValue::Bag(flatten_vec(items));
                proof {
                    lemma_view_items(r);
                }
                r
            },
            other => other,
        }
    }
}

/// The elements of `items`, nested collections replaced by their elements.
fn flatten_vec(items: Vec<PqlValue>) -> (out: Vec<PqlValue>)
    ensures
        views(out@) == flatten_items(views(items@)),
{
    let mut out: Vec<PqlValue> = Vec::new();
    let mut i: usize = 0;
    assert(views(items@).take(0) =~= Seq::<Value>::empty());
    assert(views(out@) =~= Seq::<Value>::empty());
    while i < items.len()
        invariant
            i <= items.len(),
            views(out@) == flatten_items(views(items@).take(i as int)),
        decreases items.len() - i,
    {
        proof {
            let next = views(items@).take(i + 1);
            assert(next.drop_last() =~= views(items@).take(i as int));
            assert(next.last() == items@[i as int]@);
        }
        let ghost before = views(out@);
        let mut piece = items[i].clone().into_items();
        let ghost added = views(piece@);
        out.append(&mut piece);
        assert(views(out@) =~= before + added);
        i += 1;
    }
    assert(views(items@).take(i as int) =~= views(items@));
    out
}

impl Clone for PqlValue {
    /// A deep copy.
    fn clone(&self) -> (r: Self)
        ensures
            r@ == self@,
        decreases self@,
    {
        proof {
            lemma_view_items(*self);
        }
        match self {
            PqlValue::Missing => PqlValue::Missing,
            PqlValue::Null => PqlValue::Null,
            PqlValue::Str(s) => PqlValue::Str(s.clone()),
            PqlValue::Boolean(b) => PqlValue::Boolean(*b),
            PqlValue::Num(n) => PqlValue::Num(*n),
            PqlValue::Array(v) => {
                assert(decreases_to!(self@ => self@->Array_0));
                let r = PqlValue::Array(clone_items(v));
                proof {
                    lemma_view_items(r);
                }
                r
            },
            PqlValue::Bag(v) => {
                assert(decreases_to!(self@ => self@->Bag_0));
                let r = PqlValue::Bag(clone_items(v));
                proof {
                    lemma_view_items(r);
                }
                r
            },
            PqlValue::Object(m) => PqlValue::Object(m.clone()),
        }
    }
}

} // verus!
