//! The mathematical model of a value, over which every contract is stated.
use vstd::prelude::*;
use crate::value::number::{abs, fits, gcd};

verus! {

/// A rational number `num / den`; `den` is positive in every number that
/// the library builds.
pub struct Rational {
    pub num: int,
    pub den: int,
}

/// The entries of an object: keys with their values, in insertion order.
pub type Entries = Seq<(Seq<char>, Value)>;

/// What a value is, independent of how it is stored.
pub enum Value {
    Missing,
    Null,
    Bool(bool),
    Num(Rational),
    Str(Seq<char>),
    Array(Seq<Value>),
    Bag(Seq<Value>),
    Object(Entries),
}

/// The position of the first entry of `entries` whose key is `key`; the
/// number of entries when no entry has that key.
pub open spec fn index_of(entries: Entries, key: Seq<char>) -> int
    decreases entries.len(),
{
    if entries.len() == 0 {
        0
    } else if entries[0].0 == key {
        0
    } else {
        1 + index_of(entries.drop_first(), key)
    }
}

/// Some entry of `entries` has the key `key`.
pub open spec fn has_key(entries: Entries, key: Seq<char>) -> bool {
    index_of(entries, key) < entries.len()
}

/// The value stored under `key`, if `entries` has that key.
pub open spec fn lookup(entries: Entries, key: Seq<char>) -> Option<Value> {
    let i = index_of(entries, key);
    if 0 <= i < entries.len() {
        Some(entries[i].1)
    } else {
        None
    }
}

/// `entries` after `key` is bound to `value`: an entry with that key keeps
/// its place and takes the new value, otherwise the pair goes last.
pub open spec fn put(entries: Entries, key: Seq<char>, value: Value) -> Entries {
    let i = index_of(entries, key);
    if 0 <= i < entries.len() {
        entries.update(i, (key, value))
    } else {
        entries.push((key, value))
    }
}

/// What `index_of` returns: the first position with the key, or the length.
pub proof fn lemma_index_of(entries: Entries, key: Seq<char>)
    ensures
        0 <= index_of(entries, key) <= entries.len(),
        index_of(entries, key) < entries.len() ==> entries[index_of(entries, key)].0 == key,
        forall|j: int| 0 <= j < index_of(entries, key) ==> (#[trigger] entries[j]).0 != key,
    decreases entries.len(),
{
    if entries.len() > 0 && entries[0].0 != key {
        let rest = entries.drop_first();
        lemma_index_of(rest, key);
        assert forall|j: int| 0 <= j < index_of(entries, key) implies (#[trigger] entries[j]).0
            != key by {
            if j > 0 {
                assert(entries[j] == rest[j - 1]);
            }
        }
    }
}

/// A position that holds the key, with no earlier one that does, is what
/// `index_of` returns.
pub proof fn lemma_index_of_is(entries: Entries, key: Seq<char>, i: int)
    requires
        0 <= i <= entries.len(),
        i < entries.len() ==> entries[i].0 == key,
        forall|j: int| 0 <= j < i ==> (#[trigger] entries[j]).0 != key,
    ensures
        index_of(entries, key) == i,
{
    lemma_index_of(entries, key);
    let k = index_of(entries, key);
    if k < i {
        assert(entries[k].0 != key);
    }
}

/// Binding a key that no entry has appends the pair.
pub proof fn lemma_put_fresh(entries: Entries, key: Seq<char>, value: Value)
    requires
        forall|j: int| 0 <= j < entries.len() ==> (#[trigger] entries[j]).0 != key,
    ensures
        put(entries, key, value) == entries.push((key, value)),
{
    lemma_index_of_is(entries, key, entries.len() as int);
}

/// An entry list has a key exactly when one of its entries carries it.
pub proof fn lemma_has_key(entries: Entries, key: Seq<char>)
    ensures
        has_key(entries, key) <==> exists|i: int|
            0 <= i < entries.len() && (#[trigger] entries[i]).0 == key,
{
    lemma_index_of(entries, key);
    if has_key(entries, key) {
        assert(entries[index_of(entries, key)].0 == key);
    }
}

/// What binding a key does: the list has the old keys and the new one, the
/// new key holds the new value, every other key holds what it held, and
/// keys stay distinct.
pub proof fn lemma_put(entries: Entries, key: Seq<char>, value: Value)
    ensures
        lookup(put(entries, key, value), key) == Some(value),
        forall|other: Seq<char>|
            other != key ==> #[trigger] lookup(put(entries, key, value), other) == lookup(
                entries,
                other,
            ),
        forall|other: Seq<char>| #[trigger]
            has_key(put(entries, key, value), other) <==> (other == key || has_key(entries, other)),
        distinct_keys(entries) ==> distinct_keys(put(entries, key, value)),
        put(entries, key, value).len() >= entries.len(),
{
    let after = put(entries, key, value);
    let i = index_of(entries, key);
    lemma_index_of(entries, key);
    lemma_index_of_is(after, key, i);
    assert forall|other: Seq<char>| other != key implies #[trigger] lookup(after, other) == lookup(
        entries,
        other,
    ) && (has_key(after, other) <==> has_key(entries, other)) by {
        let j = index_of(entries, other);
        lemma_index_of(entries, other);
        if j < entries.len() {
            lemma_index_of_is(after, other, j);
        } else {
            lemma_index_of_is(after, other, after.len() as int);
        }
    }
    assert forall|other: Seq<char>| #[trigger]
        has_key(after, other) <==> (other == key || has_key(entries, other)) by {
        if other != key {
            assert(lookup(after, other) == lookup(entries, other));
            lemma_index_of(entries, other);
            lemma_index_of(after, other);
        }
    }
    if distinct_keys(entries) {
        assert forall|a: int, b: int| 0 <= a < b < after.len() implies (#[trigger] after[a]).0 != (
        #[trigger] after[b]).0 by {
            if a < entries.len() && b < entries.len() {
                assert(entries[a].0 != entries[b].0);
            }
        }
    }
}

/// No key occurs twice in `entries`.
pub open spec fn distinct_keys(entries: Entries) -> bool {
    forall|i: int, j: int|
        0 <= i < j < entries.len() ==> (#[trigger] entries[i]).0 != (#[trigger] entries[j]).0
}

/// Two fractions denote the same number.
pub open spec fn same_number(a: Rational, b: Rational) -> bool {
    a.num * b.den == b.num * a.den
}

/// How many elements of `items` equal `v`.
pub open spec fn count_equal(items: Seq<Value>, v: Value) -> nat
    decreases v, items.len(),
{
    if items.len() == 0 {
        0
    } else {
        count_equal(items.drop_last(), v) + if values_equal(v, items.last()) {
            1nat
        } else {
            0nat
        }
    }
}

/// Equality of values. Arrays are equal element by element. Bags are equal
/// when they hold the same elements the same number of times, in any
/// order. Objects are equal when they have the same keys, in any order,
/// and equal values under each key. Numbers are equal as fractions.
pub open spec fn values_equal(a: Value, b: Value) -> bool
    decreases a, 0nat,
{
    match a {
        Value::Missing => b is Missing,
        Value::Null => b is Null,
        Value::Bool(x) => b == a,
        Value::Num(x) => b matches Value::Num(y) && same_number(x, y),
        Value::Str(x) => b == a,
        Value::Array(x) => b matches Value::Array(y) && x.len() == y.len() && forall|i: int|
            0 <= i < x.len() ==> values_equal(#[trigger] x[i], y[i]),
        Value::Bag(x) => b matches Value::Bag(y) && x.len() == y.len() && forall|i: int|
            0 <= i < x.len() ==> count_equal(x, #[trigger] x[i]) == count_equal(y, x[i]),
        Value::Object(x) => b matches Value::Object(y) && x.len() == y.len() && forall|i: int|
            0 <= i < x.len() ==> (lookup(y, (#[trigger] x[i]).0) matches Some(v) && values_equal(
                x[i].1,
                v,
            )),
    }
}

/// A value as a sequence: the elements of a collection, or the value alone.
pub open spec fn lift(v: Value) -> Seq<Value> {
    if v.is_collection() {
        v.items()
    } else {
        seq![v]
    }
}

/// The elements of `items` with every nested collection replaced by its
/// own elements.
pub open spec fn flatten_items(items: Seq<Value>) -> Seq<Value>
    decreases items.len(),
{
    if items.len() == 0 {
        Seq::empty()
    } else {
        flatten_items(items.drop_last()) + lift(items.last())
    }
}

/// A collection with one level of nesting removed; any other value as it is.
pub open spec fn flatten(v: Value) -> Value {
    if v.is_collection() {
        v.with_items(flatten_items(v.items()))
    } else {
        v
    }
}

/// Flattening changes nothing where no element is a collection.
pub proof fn lemma_flatten_items_flat(items: Seq<Value>)
    requires
        forall|i: int| 0 <= i < items.len() ==> !(#[trigger] items[i]).is_collection(),
    ensures
        flatten_items(items) == items,
    decreases items.len(),
{
    if items.len() > 0 {
        lemma_flatten_items_flat(items.drop_last());
        assert(items.drop_last() + seq![items.last()] =~= items);
    }
}

/// Flattening is idempotent on a collection without nested collections,
/// and leaves every other value alone.
pub proof fn lemma_flatten_flat(v: Value)
    requires
        forall|i: int| 0 <= i < v.items().len() ==> !(#[trigger] v.items()[i]).is_collection(),
    ensures
        flatten(v) == v,
{
    if v.is_collection() {
        lemma_flatten_items_flat(v.items());
    }
}

impl Value {
    /// Null, Missing, booleans, numbers and strings.
    pub open spec fn is_scalar(self) -> bool {
        !(self is Array) && !(self is Bag) && !(self is Object)
    }

    /// Arrays and bags.
    pub open spec fn is_collection(self) -> bool {
        self is Array || self is Bag
    }

    /// The elements of an array or a bag; empty for any other value.
    pub open spec fn items(self) -> Seq<Value> {
        match self {
            Value::Array(s) => s,
            Value::Bag(s) => s,
            _ => Seq::empty(),
        }
    }

    /// A collection of the same kind as `self` holding `items`.
    pub open spec fn with_items(self, items: Seq<Value>) -> Value {
        match self {
            Value::Bag(_) => Value::Bag(items),
            _ => Value::Array(items),
        }
    }
}

/// A number that the library can hold: a positive denominator, parts that
/// fit, and no common factor.
pub open spec fn wf_number(r: Rational) -> bool {
    r.den > 0 && fits(r) && gcd(abs(r.num), abs(r.den)) == 1
}

/// A value that the library can hold: its numbers are well formed and no
/// object has a key twice.
pub open spec fn wf_value(v: Value) -> bool
    decreases v,
{
    match v {
        Value::Num(r) => wf_number(r),
        Value::Array(items) => forall|i: int| 0 <= i < items.len() ==> wf_value(#[trigger] items[i]),
        Value::Bag(items) => forall|i: int| 0 <= i < items.len() ==> wf_value(#[trigger] items[i]),
        Value::Object(entries) => distinct_keys(entries) && forall|i: int|
            0 <= i < entries.len() ==> wf_value((#[trigger] entries[i]).1),
        _ => true,
    }
}

/// The size of a value: the number of values in it, itself included.
pub open spec fn value_size(v: Value) -> nat
    decreases v,
{
    match v {
        Value::Array(items) => 1 + items_size(items),
        Value::Bag(items) => 1 + items_size(items),
        Value::Object(entries) => 1 + entries_size(entries),
        _ => 1,
    }
}

/// The size of the elements of a collection together.
pub open spec fn items_size(items: Seq<Value>) -> nat
    decreases items,
{
    if items.len() == 0 {
        0
    } else {
        items_size(items.drop_last()) + value_size(items.last())
    }
}

/// The size of the values of the entries of an object together.
pub open spec fn entries_size(entries: Entries) -> nat
    decreases entries,
{
    if entries.len() == 0 {
        0
    } else {
        entries_size(entries.drop_last()) + value_size(entries.last().1)
    }
}

/// An element is no larger than the elements together.
pub proof fn lemma_item_size(items: Seq<Value>, i: int)
    requires
        0 <= i < items.len(),
    ensures
        value_size(items[i]) <= items_size(items),
        value_size(items[i]) >= 1,
    decreases items.len(),
{
    if i < items.len() - 1 {
        lemma_item_size(items.drop_last(), i);
        assert(items.drop_last()[i] == items[i]);
    }
}

/// The value of an entry is no larger than the values together.
pub proof fn lemma_entry_size(entries: Entries, i: int)
    requires
        0 <= i < entries.len(),
    ensures
        value_size(entries[i].1) <= entries_size(entries),
    decreases entries.len(),
{
    if i < entries.len() - 1 {
        lemma_entry_size(entries.drop_last(), i);
        assert(entries.drop_last()[i] == entries[i]);
    }
}

} // verus!
