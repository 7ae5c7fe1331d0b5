//! Inner joins: pruning the data along the path of a drain so that what
//! has nothing to unfold gives no row.
use vstd::prelude::*;
use crate::sql::selector::{Path, Segment, Selector, SelectorNode};
use crate::value::model::{index_of, lemma_index_of, put, Value};
use crate::value::object::{object_get, object_insert};
use crate::value::pql::{lemma_view_items, views, PqlValue};

verus! {

/// The elements of `items` pruned along `path`, without those that are
/// dropped.
pub open spec fn require_items(items: Seq<Value>, path: Path) -> Seq<Value>
    decreases items,
{
    if items.len() == 0 {
        Seq::empty()
    } else {
        let front = require_items(items.drop_last(), path);
        match require_path(items.last(), path) {
            Some(r) => front.push(r),
            None => front,
        }
    }
}

/// `v` pruned along `path`; `None` when `v` is dropped.
///
/// At the end of the path an empty collection is dropped and every other
/// value stays. On the way, an object follows a field name into that
/// field and is dropped with it; a collection follows an index into that
/// element and is dropped with it; under a field name a collection keeps
/// the elements that stay and is dropped when none is left. A path that
/// leads nowhere drops nothing.
pub open spec fn require_path(v: Value, path: Path) -> Option<Value>
    decreases v,
{
    if path.len() == 0 {
        if v.is_collection() && v.items().len() == 0 {
            None
        } else {
            Some(v)
        }
    } else {
        match v {
            Value::Object(entries) => match path[0] {
                Segment::Field(key) => {
                    let i = index_of(entries, key);
                    if 0 <= i < entries.len() {
                        match require_path(entries[i].1, path.skip(1)) {
                            Some(r) => Some(Value::Object(put(entries, key, r))),
                            None => None,
                        }
                    } else {
                        Some(v)
                    }
                },
                Segment::Index(_) => Some(v),
            },
            Value::Array(items) => match path[0] {
                Segment::Index(i) => if i < items.len() {
                    match require_path(items[i as int], path.skip(1)) {
                        Some(r) => Some(Value::Array(items.update(i as int, r))),
                        None => None,
                    }
                } else {
                    Some(v)
                },
                Segment::Field(_) => {
                    let kept = require_items(items, path);
                    if kept.len() == 0 {
                        None
                    } else {
                        Some(Value::Array(kept))
                    }
                },
            },
            Value::Bag(items) => match path[0] {
                Segment::Index(i) => if i < items.len() {
                    match require_path(items[i as int], path.skip(1)) {
                        Some(r) => Some(Value::Bag(items.update(i as int, r))),
                        None => None,
                    }
                } else {
                    Some(v)
                },
                Segment::Field(_) => {
                    let kept = require_items(items, path);
                    if kept.len() == 0 {
                        None
                    } else {
                        Some(Value::Bag(kept))
                    }
                },
            },
            _ => Some(v),
        }
    }
}

/// `v` pruned along each of `paths` in turn; `None` as soon as it is
/// dropped.
pub open spec fn require_all(v: Value, paths: Seq<Path>) -> Option<Value>
    decreases paths.len(),
{
    if paths.len() == 0 {
        Some(v)
    } else {
        match require_path(v, paths[0]) {
            Some(r) => require_all(r, paths.drop_first()),
            None => None,
        }
    }
}

/// The view of each path, in order.
pub open spec fn path_views(paths: Seq<Selector>) -> Seq<Path> {
    Seq::new(paths.len(), |i: int| paths[i]@)
}

/// The view of an optional value.
pub open spec fn pruned_view(v: Option<PqlValue>) -> Option<Value> {
    match v {
        Some(x) => Some(x@),
        None => None,
    }
}

/// The elements of `items` pruned along `path` from position `from` on.
fn require_each(items: &Vec<PqlValue>, path: &Selector, from: usize) -> (out: Vec<PqlValue>)
    requires
        from <= path@.len(),
    ensures
        views(out@) == require_items(views(items@), path@.skip(from as int)),
    decreases views(items@),
{
    let mut out: Vec<PqlValue> = Vec::new();
    let mut i: usize = 0;
    let ghost p = path@.skip(from as int);
    assert(views(items@).take(0) =~= Seq::<Value>::empty());
    assert(views(out@) =~= Seq::<Value>::empty());
    while i < items.len()
        invariant
            i <= items.len(),
            from <= path@.len(),
            p == path@.skip(from as int),
            views(out@) == require_items(views(items@).take(i as int), p),
        decreases items.len() - i,
    {
        proof {
            let next = views(items@).take(i + 1);
            assert(next.drop_last() =~= views(items@).take(i as int));
            assert(next.last() == items@[i as int]@);
            assert(views(items@)[i as int] == items@[i as int]@);
        }
        let ghost before = views(out@);
        match require_at(&items[i], path, from) {
            Some(r) => {
                out.push(r);
                assert(views(out@) =~= before.push(r@));
            },
            None => {},
        }
        i += 1;
    }
    assert(views(items@).take(i as int) =~= views(items@));
    out
}

/// A copy of `items` with the element at `at` replaced by `with`.
fn replaced(items: &Vec<PqlValue>, at: usize, with: PqlValue) -> (out: Vec<PqlValue>)
    requires
        at < items.len(),
    ensures
        views(out@) == views(items@).update(at as int, with@),
{
    let mut out: Vec<PqlValue> = Vec::new();
    let mut i: usize = 0;
    while i < at
        invariant
            i <= at < items.len(),
            out.len() == i,
            forall|j: int| 0 <= j < i ==> (#[trigger] out@[j])@ == items@[j]@,
        decreases at - i,
    {
        out.push(items[i].clone());
        i += 1;
    }
    out.push(with);
    i += 1;
    while i < items.len()
        invariant
            at < i <= items.len(),
            out.len() == i,
            out@[at as int]@ == with@,
            forall|j: int| 0 <= j < i && j != at ==> (#[trigger] out@[j])@ == items@[j]@,
        decreases items.len() - i,
    {
        out.push(items[i].clone());
        i += 1;
    }
    assert(views(out@) =~= views(items@).update(at as int, with@));
    out
}

/// `value` pruned along the segments of `path` from position `from` on.
fn require_at(value: &PqlValue, path: &Selector, from: usize) -> (r: Option<PqlValue>)
    requires
        from <= path@.len(),
    ensures
        pruned_view(r) == require_path(value@, path@.skip(from as int)),
    decreases value@,
{
    proof {
        lemma_view_items(*value);
    }
    if from == path.len() {
        let empty = match value {
            PqlValue::Array(items) => items.len() == 0,
            PqlValue::Bag(items) => items.len() == 0,
            _ => false,
        };
        return if empty {
            None
        } else {
            Some(value.clone())
        };
    }
    let ghost p = path@.skip(from as int);
    assert(p[0] == path@[from as int]);
    assert(p.skip(1) =~= path@.skip(from + 1));
    let is_bag = match value {
        PqlValue::Bag(_) => true,
        _ => false,
    };
    match value {
        PqlValue::Object(object) => match &path.data[from] {
            SelectorNode::Field(key) => {
                proof {
                    lemma_index_of(object@, key@);
                }
                match object_get(object, key.as_str()) {
                    Some(child) => {
                        let ghost i = index_of(object@, key@);
                        assert(decreases_to!(value@ => value@->Object_0));
                        assert(decreases_to!(object@ => object@[i]));
                        assert(decreases_to!(object@[i] => object@[i].1));
                        match require_at(child, path, from + 1) {
                            Some(r) => {
                                let mut kept = object.clone();
                                object_insert(&mut kept, key.clone(), r);
                                Some(PqlValue::Object(kept))
                            },
                            None => None,
                        }
                    },
                    None => Some(value.clone()),
                }
            },
            SelectorNode::Index(_) => Some(value.clone()),
        },
        PqlValue::Array(items) | PqlValue::Bag(items) => {
            proof {
                if is_bag {
                    assert(decreases_to!(value@ => value@->Bag_0));
                } else {
                    assert(decreases_to!(value@ => value@->Array_0));
                }
            }
            let kept: Vec<PqlValue> = match &path.data[from] {
                SelectorNode::Index(i) => {
                    if *i < items.len() as u64 {
                        let k = *i as usize;
                        assert(views(items@)[k as int] == items@[k as int]@);
                        assert(decreases_to!(views(items@) => views(items@)[k as int]));
                        match require_at(&items[k], path, from + 1) {
                            Some(r) => replaced(items, k, r),
                            None => {
                                return None;
                            },
                        }
                    } else {
                        return Some(value.clone());
                    }
                },
                SelectorNode::Field(_) => {
                    let kept = require_each(items, path, from);
                    if kept.len() == 0 {
                        return None;
                    }
                    kept
                },
            };
            let r = if is_bag {
                PqlValue::Bag(kept)
            } else {
                PqlValue::Array(kept)
            };
            proof {
                lemma_view_items(r);
            }
            Some(r)
        },
        _ => Some(value.clone()),
    }
}

impl PqlValue {
    /// Prunes the value along `path`; see [`require_path`].
    pub fn require(&self, path: &Selector) -> (r: Option<PqlValue>)
        ensures
            pruned_view(r) == require_path(self@, path@),
    {
        assert(path@.skip(0) =~= path@);
        require_at(self, path, 0)
    }
}

/// Prunes `value` along each of `paths` in turn; see [`require_all`].
pub fn prune(value: PqlValue, paths: &Vec<Selector>) -> (r: Option<PqlValue>)
    ensures
        pruned_view(r) == require_all(value@, path_views(paths@)),
{
    let mut current = value;
    let mut i: usize = 0;
    let ghost all = path_views(paths@);
    assert(all.skip(0) =~= all);
    while i < paths.len()
        invariant
            i <= paths.len(),
            all == path_views(paths@),
            require_all(value@, all) == require_all(current@, all.skip(i as int)),
        decreases paths.len() - i,
    {
        proof {
            assert(all.skip(i as int)[0] == paths@[i as int]@);
            assert(all.skip(i as int).drop_first() =~= all.skip(i + 1));
        }
        match current.require(&paths[i]) {
            Some(r) => {
                current = r;
            },
            None => {
                return None;
            },
        }
        i += 1;
    }
    Some(current)
}

} // verus!
