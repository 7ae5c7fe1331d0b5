//! Path navigation: following a selector into a value.
use vstd::prelude::*;
use crate::sql::selector::{Path, Segment, Selector, SelectorNode};
use crate::text::{decimal, u64_to_string};
use crate::value::model::{index_of, lemma_index_of, Value};
use crate::value::object::object_get;
use crate::value::pql::{lemma_view_items, views, PqlValue};

verus! {

/// The value that `path` leads to from `v`.
///
/// The empty path leads to `v` itself. A field name leads into an object,
/// to the value under that key, and an index into a collection, to the
/// element at that position; what is not there is Missing. A field name
/// met at a collection distributes: the result is a collection of the same
/// kind that holds, for each element, what the path leads to from it.
pub open spec fn navigate(v: Value, path: Path) -> Value
    decreases path.len(), v,
{
    if path.len() == 0 {
        v
    } else {
        match v {
            Value::Object(entries) => match path[0] {
                Segment::Field(key) => {
                    let i = index_of(entries, key);
                    if 0 <= i < entries.len() {
                        navigate(entries[i].1, path.skip(1))
                    } else {
                        Value::Missing
                    }
                },
                Segment::Index(_) => Value::Missing,
            },
            Value::Array(items) => match path[0] {
                Segment::Index(i) => if i < items.len() {
                    navigate(items[i as int], path.skip(1))
                } else {
                    Value::Missing
                },
                Segment::Field(_) => Value::Array(
                    Seq::new(
                        items.len(),
                        |i: int|
                            if 0 <= i < items.len() {
                                navigate(items[i], path)
                            } else {
                                Value::Missing
                            },
                    ),
                ),
            },
            Value::Bag(items) => match path[0] {
                Segment::Index(i) => if i < items.len() {
                    navigate(items[i as int], path.skip(1))
                } else {
                    Value::Missing
                },
                Segment::Field(_) => Value::Bag(
                    Seq::new(
                        items.len(),
                        |i: int|
                            if 0 <= i < items.len() {
                                navigate(items[i], path)
                            } else {
                                Value::Missing
                            },
                    ),
                ),
            },
            _ => Value::Missing,
        }
    }
}

/// The name of a segment as an output key: a field's name, an index in
/// decimal digits.
pub open spec fn segment_name(s: Segment) -> Seq<char> {
    match s {
        Segment::Field(name) => name,
        Segment::Index(i) => decimal(i),
    }
}

/// The output key of a projected selector: the alias if there is one,
/// else the name of the last segment, else the empty string.
pub open spec fn output_key(alias: Option<Seq<char>>, path: Path) -> Seq<char> {
    match alias {
        Some(a) => a,
        None => if path.len() > 0 {
            segment_name(path.last())
        } else {
            Seq::empty()
        },
    }
}

impl SelectorNode {
    /// The name of the segment as an output key.
    pub fn name(&self) -> (r: String)
        ensures
            r@ == segment_name(self@),
    {
        match self {
            SelectorNode::Field(s) => s.clone(),
            SelectorNode::Index(i) => u64_to_string(*i),
        }
    }
}

/// What `path` from position `from` on leads to from each of `items`.
fn select_each(items: &Vec<PqlValue>, path: &Selector, from: usize) -> (out: Vec<PqlValue>)
    requires
        from < path@.len(),
    ensures
        out.len() == items.len(),
        forall|i: int|
            0 <= i < items.len() ==> (#[trigger] out@[i])@ == navigate(
                items@[i]@,
                path@.skip(from as int),
            ),
    decreases path@.len() - from, views(items@),
{
    let mut out: Vec<PqlValue> = Vec::new();
    let mut i: usize = 0;
    while i < items.len()
        invariant
            i <= items.len(),
            from < path@.len(),
            out.len() == i,
            forall|j: int|
                0 <= j < i ==> (#[trigger] out@[j])@ == navigate(
                    items@[j]@,
                    path@.skip(from as int),
                ),
        decreases items.len() - i,
    {
        assert(views(items@)[i as int] == items@[i as int]@);
        let v = select_at(&items[i], path, from);
        out.push(v);
        i += 1;
    }
    out
}

/// What `path` from position `from` on leads to from `value`.
fn select_at(value: &PqlValue, path: &Selector, from: usize) -> (r: PqlValue)
    requires
        from <= path@.len(),
    ensures
        r@ == navigate(value@, path@.skip(from as int)),
    decreases path@.len() - from, value@,
{
    proof {
        lemma_view_items(*value);
    }
    if from == path.len() {
        return value.clone();
    }
    let ghost p = path@.skip(from as int);
    assert(p[0] == path@[from as int]);
    assert(p.skip(1) =~= path@.skip(from + 1));
    match value {
        PqlValue::Object(object) => match &path.data[from] {
            SelectorNode::Field(key) => {
                proof {
                    lemma_index_of(object@, key@);
                }
                match object_get(object, key.as_str()) {
                    Some(child) => select_at(child, path, from + 1),
                    None => PqlValue::Missing,
                }
            },
            SelectorNode::Index(_) => PqlValue::Missing,
        },
        PqlValue::Array(items) => match &path.data[from] {
            SelectorNode::Index(i) => {
                if *i < items.len() as u64 {
                    let k = *i as usize;
                    assert(views(items@)[k as int] == items@[k as int]@);
                    select_at(&items[k], path, from + 1)
                } else {
                    PqlValue::Missing
                }
            },
            SelectorNode::Field(_) => {
                assert(decreases_to!(value@ => value@->Array_0));
                let out = select_each(items, path, from);
                let r = PqlValue::Array(out);
                proof {
                    lemma_view_items(r);
                    assert(r@->Array_0 =~= navigate(value@, p)->Array_0);
                }
                r
            },
        },
        PqlValue::Bag(items) => match &path.data[from] {
            SelectorNode::Index(i) => {
                if *i < items.len() as u64 {
                    let k = *i as usize;
                    assert(views(items@)[k as int] == items@[k as int]@);
                    select_at(&items[k], path, from + 1)
                } else {
                    PqlValue::Missing
                }
            },
            SelectorNode::Field(_) => {
                assert(decreases_to!(value@ => value@->Bag_0));
                let out = select_each(items, path, from);
                let r = PqlValue::Bag(out);
                proof {
                    lemma_view_items(r);
                    assert(r@->Bag_0 =~= navigate(value@, p)->Bag_0);
                }
                r
            },
        },
        _ => PqlValue::Missing,
    }
}

impl PqlValue {
    /// Navigates into the value along `selector`; see [`navigate`].
    pub fn select_by_selector(&self, selector: &Selector) -> (r: PqlValue)
        ensures
            r@ == navigate(self@, selector@),
    {
        assert(selector@.skip(0) =~= selector@);
        select_at(self, selector, 0)
    }

    /// The output key and the value of a projected selector: the key is
    /// the alias, or else the name of the selector's last segment.
    pub fn project_by_selector(&self, alias: Option<String>, selector: &Selector) -> (r: (
        String,
        PqlValue,
    ))
        ensures
            r.0@ == output_key(
                match alias {
                    Some(a) => Some(a@),
                    None => None,
                },
                selector@,
            ),
            r.1@ == navigate(self@, selector@),
    {
        let value = self.select_by_selector(selector);
        let key = match alias {
            Some(a) => a,
            None => match selector.last() {
                Some(node) => node.name(),
                None => String::new(),
            },
        };
        (key, value)
    }
}

} // verus!
