//! ORDER BY and LIMIT over the rows of a result.
use vstd::prelude::*;
use crate::sql::clause::{limit_rows, Limit, OrderBy, OrderByModel};
use crate::text::to_chars;
use crate::value::model::{lemma_index_of, lookup, Value};
use crate::value::number::less;
use crate::value::object::object_get;
use crate::value::pql::{views, PqlValue};

verus! {

/// The class of a sort key: numbers first, then strings, then booleans,
/// then collections and objects; Null and Missing last.
pub open spec fn rank(v: Value) -> int {
    match v {
        Value::Num(_) => 0,
        Value::Str(_) => 1,
        Value::Bool(_) => 2,
        Value::Array(_) => 3,
        Value::Bag(_) => 3,
        Value::Object(_) => 3,
        Value::Null => 4,
        Value::Missing => 4,
    }
}

/// `x` comes before `y` in lexicographic order of the characters' code
/// points.
pub open spec fn text_less(x: Seq<char>, y: Seq<char>) -> bool
    decreases x.len(),
{
    if y.len() == 0 {
        false
    } else if x.len() == 0 {
        true
    } else if x[0] != y[0] {
        x[0] < y[0]
    } else {
        text_less(x.drop_first(), y.drop_first())
    }
}

/// `a` is less than `b`: by class, then numbers by value, strings
/// lexicographically, `false` before `true`; other values of one class
/// are not ordered.
pub open spec fn value_less(a: Value, b: Value) -> bool {
    if rank(a) != rank(b) {
        rank(a) < rank(b)
    } else {
        match (a, b) {
            (Value::Num(x), Value::Num(y)) => less(x, y),
            (Value::Str(x), Value::Str(y)) => text_less(x, y),
            (Value::Bool(x), Value::Bool(y)) => !x && y,
            _ => false,
        }
    }
}

/// A row with key `a` must come before a row with key `b`. Null and
/// Missing keys come last in either direction.
pub open spec fn comes_before(a: Value, b: Value, is_asc: bool) -> bool {
    if rank(a) == 4 || rank(b) == 4 {
        rank(a) < rank(b)
    } else if is_asc {
        value_less(a, b)
    } else {
        value_less(b, a)
    }
}

/// The sort key of a row: the value of the field `label` of an object,
/// Missing if there is none.
pub open spec fn sort_key(row: Value, label: Seq<char>) -> Value {
    match row {
        Value::Object(entries) => match lookup(entries, label) {
            Some(v) => v,
            None => Value::Missing,
        },
        _ => Value::Missing,
    }
}

/// `sorted` with `row` put in behind the last row that need not come
/// after it.
pub open spec fn insert_row(sorted: Seq<Value>, row: Value, by: OrderByModel) -> Seq<Value>
    decreases sorted.len(),
{
    if sorted.len() == 0 {
        seq![row]
    } else if comes_before(sort_key(row, by.label), sort_key(sorted.last(), by.label), by.is_asc) {
        insert_row(sorted.drop_last(), row, by).push(sorted.last())
    } else {
        sorted.push(row)
    }
}

/// The rows in the order of their keys; rows whose keys are not ordered
/// keep the order they had.
pub open spec fn sort_rows(rows: Seq<Value>, by: OrderByModel) -> Seq<Value>
    decreases rows.len(),
{
    if rows.len() == 0 {
        Seq::empty()
    } else {
        insert_row(sort_rows(rows.drop_last(), by), rows.last(), by)
    }
}

/// The rows after an optional ORDER BY.
pub open spec fn order_rows(rows: Seq<Value>, by: Option<OrderByModel>) -> Seq<Value> {
    match by {
        Some(b) => sort_rows(rows, b),
        None => rows,
    }
}

/// The rows after an optional LIMIT.
pub open spec fn limit_opt(rows: Seq<Value>, limit: Option<Limit>) -> Seq<Value> {
    match limit {
        Some(l) => limit_rows(rows, l.limit as nat, l.offset as nat),
        None => rows,
    }
}

/// Whether `x` comes before `y` in lexicographic order.
pub fn text_before(x: &str, y: &str) -> (r: bool)
    ensures
        r == text_less(x@, y@),
{
    let a = to_chars(x);
    let b = to_chars(y);
    let mut i: usize = 0;
    assert(a@.skip(0) =~= a@);
    assert(b@.skip(0) =~= b@);
    while i < a.len() && i < b.len()
        invariant
            i <= a.len(),
            i <= b.len(),
            a@ == x@,
            b@ == y@,
            text_less(a@, b@) == text_less(a@.skip(i as int), b@.skip(i as int)),
        decreases a.len() - i,
    {
        proof {
            assert(a@.skip(i as int)[0] == a@[i as int]);
            assert(b@.skip(i as int)[0] == b@[i as int]);
            assert(a@.skip(i as int).drop_first() =~= a@.skip(i + 1));
            assert(b@.skip(i as int).drop_first() =~= b@.skip(i + 1));
        }
        if a[i] != b[i] {
            return a[i] < b[i];
        }
        i += 1;
    }
    i < b.len()
}

/// The class of a sort key.
fn rank_of(v: &PqlValue) -> (r: u8)
    ensures
        r == rank(v@),
{
    match v {
        PqlValue::Num(_) => 0,
        PqlValue::Str(_) => 1,
        PqlValue::Boolean(_) => 2,
        PqlValue::Array(_) => 3,
        PqlValue::Bag(_) => 3,
        PqlValue::Object(_) => 3,
        PqlValue::Null => 4,
        PqlValue::Missing => 4,
    }
}

/// Whether `a` is less than `b`.
pub fn is_less(a: &PqlValue, b: &PqlValue) -> (r: bool)
    ensures
        r == value_less(a@, b@),
{
    let ra = rank_of(a);
    let rb = rank_of(b);
    if ra != rb {
        return ra < rb;
    }
    match (a, b) {
        (PqlValue::Num(x), PqlValue::Num(y)) => x.less_than(y),
        (PqlValue::Str(x), PqlValue::Str(y)) => text_before(x.as_str(), y.as_str()),
        (PqlValue::Boolean(x), PqlValue::Boolean(y)) => !*x && *y,
        _ => false,
    }
}

/// Whether a row with key `a` must come before a row with key `b`.
fn must_precede(a: &PqlValue, b: &PqlValue, is_asc: bool) -> (r: bool)
    ensures
        r == comes_before(a@, b@, is_asc),
{
    let ra = rank_of(a);
    let rb = rank_of(b);
    if ra == 4 || rb == 4 {
        ra < rb
    } else if is_asc {
        is_less(a, b)
    } else {
        is_less(b, a)
    }
}

/// The sort key of a row.
fn key_of(row: &PqlValue, label: &str) -> (r: PqlValue)
    ensures
        r@ == sort_key(row@, label@),
{
    match row {
        PqlValue::Object(fields) => {
            proof {
                lemma_index_of(fields@, label@);
            }
            match object_get(fields, label) {
                Some(v) => v.clone(),
                None => PqlValue::Missing,
            }
        },
        _ => PqlValue::Missing,
    }
}

/// Putting a row in at position `p` is what `insert_row` does when every
/// row from `p` on must come after it and the row before `p` need not.
proof fn lemma_insert_at(sorted: Seq<Value>, row: Value, by: OrderByModel, p: int)
    requires
        0 <= p <= sorted.len(),
        forall|j: int|
            p <= j < sorted.len() ==> comes_before(
                sort_key(row, by.label),
                sort_key(#[trigger] sorted[j], by.label),
                by.is_asc,
            ),
        p > 0 ==> !comes_before(
            sort_key(row, by.label),
            sort_key(sorted[p - 1], by.label),
            by.is_asc,
        ),
    ensures
        insert_row(sorted, row, by) == sorted.insert(p, row),
    decreases sorted.len() - p,
{
    if p == sorted.len() {
        assert(sorted.insert(p, row) =~= sorted.push(row));
    } else {
        let front = sorted.drop_last();
        assert(comes_before(
            sort_key(row, by.label),
            sort_key(sorted[sorted.len() - 1], by.label),
            by.is_asc,
        ));
        assert forall|j: int| p <= j < front.len() implies comes_before(
            sort_key(row, by.label),
            sort_key(#[trigger] front[j], by.label),
            by.is_asc,
        ) by {
            assert(front[j] == sorted[j]);
        }
        if p > 0 {
            assert(front[p - 1] == sorted[p - 1]);
        }
        lemma_insert_at(front, row, by, p);
        assert(front.insert(p, row).push(sorted.last()) =~= sorted.insert(p, row));
    }
}

/// The rows in the order that `by` asks for; see [`sort_rows`].
pub fn sort_by(rows: Vec<PqlValue>, by: &OrderBy) -> (out: Vec<PqlValue>)
    ensures
        views(out@) == sort_rows(views(rows@), by@),
{
    let mut out: Vec<PqlValue> = Vec::new();
    let mut keys: Vec<PqlValue> = Vec::new();
    let mut i: usize = 0;
    assert(views(rows@).take(0) =~= Seq::<Value>::empty());
    assert(views(out@) =~= Seq::<Value>::empty());
    while i < rows.len()
        invariant
            i <= rows.len(),
            out.len() == i,
            keys.len() == i,
            views(out@) == sort_rows(views(rows@).take(i as int), by@),
            forall|j: int| 0 <= j < i ==> (#[trigger] keys@[j])@ == sort_key(out@[j]@, by@.label),
        decreases rows.len() - i,
    {
        proof {
            let next = views(rows@).take(i + 1);
            assert(next.drop_last() =~= views(rows@).take(i as int));
            assert(next.last() == rows@[i as int]@);
        }
        let row = rows[i].clone();
        let key = key_of(&row, by.label.as_str());
        let mut p: usize = i;
        while p > 0 && must_precede(&key, &keys[p - 1], by.is_asc)
            invariant
                p <= i,
                keys.len() == i,
                out.len() == i,
                key@ == sort_key(row@, by@.label),
                forall|j: int|
                    0 <= j < i ==> (#[trigger] keys@[j])@ == sort_key(out@[j]@, by@.label),
                forall|j: int|
                    p <= j < i ==> comes_before(
                        key@,
                        sort_key(#[trigger] views(out@)[j], by@.label),
                        by@.is_asc,
                    ),
            decreases p,
        {
            p -= 1;
            assert(views(out@)[p as int] == out@[p as int]@);
        }
        proof {
            if p > 0 {
                assert(views(out@)[p - 1] == out@[p - 1]@);
            }
            lemma_insert_at(views(out@), row@, by@, p as int);
        }
        let ghost before = views(out@);
        out.insert(p, row);
        keys.insert(p, key);
        assert(views(out@) =~= before.insert(p as int, row@));
        i += 1;
    }
    assert(views(rows@).take(i as int) =~= views(rows@));
    out
}

/// The rows that LIMIT leaves; see [`limit_rows`].
pub fn limit_by(rows: Vec<PqlValue>, limit: &Limit) -> (out: Vec<PqlValue>)
    ensures
        views(out@) == limit_rows(views(rows@), limit.limit as nat, limit.offset as nat),
{
    let n = rows.len();
    let start: usize = if limit.offset <= n as u64 {
        limit.offset as usize
    } else {
        n
    };
    let room: usize = n - start;
    let end: usize = if limit.limit <= room as u64 {
        start + limit.limit as usize
    } else {
        n
    };
    let mut out: Vec<PqlValue> = Vec::new();
    let mut i: usize = start;
    while i < end
        invariant
            start <= i <= end <= rows.len(),
            out.len() == i - start,
            forall|j: int| 0 <= j < i - start ==> (#[trigger] out@[j])@ == rows@[start + j]@,
        decreases end - i,
    {
        out.push(rows[i].clone());
        i += 1;
    }
    assert(views(out@) =~= limit_rows(views(rows@), limit.limit as nat, limit.offset as nat));
    out
}

/// No row stands before a row that must come before it.
pub open spec fn ordered(rows: Seq<Value>, by: OrderByModel) -> bool {
    forall|i: int|
        0 <= i < rows.len() - 1 ==> !comes_before(
            sort_key(rows[i + 1], by.label),
            sort_key(#[trigger] rows[i], by.label),
            by.is_asc,
        )
}

/// Of two strings at most one comes before the other.
pub proof fn lemma_text_less_asymmetric(x: Seq<char>, y: Seq<char>)
    ensures
        !(text_less(x, y) && text_less(y, x)),
    decreases x.len(),
{
    if x.len() > 0 && y.len() > 0 && x[0] == y[0] {
        lemma_text_less_asymmetric(x.drop_first(), y.drop_first());
    }
}

/// Of two keys at most one must come before the other.
pub proof fn lemma_comes_before_asymmetric(a: Value, b: Value, is_asc: bool)
    ensures
        !(comes_before(a, b, is_asc) && comes_before(b, a, is_asc)),
{
    match (a, b) {
        (Value::Str(x), Value::Str(y)) => {
            lemma_text_less_asymmetric(x, y);
        },
        _ => {},
    }
}

/// Putting a row into ordered rows leaves them ordered.
proof fn lemma_insert_ordered(sorted: Seq<Value>, row: Value, by: OrderByModel)
    requires
        ordered(sorted, by),
    ensures
        ordered(insert_row(sorted, row, by), by),
        insert_row(sorted, row, by).len() == sorted.len() + 1,
        insert_row(sorted, row, by).last() == row || (sorted.len() > 0 && insert_row(
            sorted,
            row,
            by,
        ).last() == sorted.last()),
        insert_row(sorted, row, by).to_multiset() == sorted.to_multiset().insert(row),
    decreases sorted.len(),
{
    let after = insert_row(sorted, row, by);
    if sorted.len() == 0 {
        assert(sorted =~= Seq::<Value>::empty());
        assert(after =~= sorted.push(row));
        vstd::seq_lib::to_multiset_build(sorted, row);
    } else if comes_before(sort_key(row, by.label), sort_key(sorted.last(), by.label), by.is_asc) {
        let front = sorted.drop_last();
        assert forall|i: int| 0 <= i < front.len() - 1 implies !comes_before(
            sort_key(front[i + 1], by.label),
            sort_key(#[trigger] front[i], by.label),
            by.is_asc,
        ) by {
            assert(front[i] == sorted[i]);
            assert(front[i + 1] == sorted[i + 1]);
        }
        lemma_insert_ordered(front, row, by);
        let inner = insert_row(front, row, by);
        assert(after == inner.push(sorted.last()));
        lemma_comes_before_asymmetric(
            sort_key(row, by.label),
            sort_key(sorted.last(), by.label),
            by.is_asc,
        );
        assert forall|i: int| 0 <= i < after.len() - 1 implies !comes_before(
            sort_key(after[i + 1], by.label),
            sort_key(#[trigger] after[i], by.label),
            by.is_asc,
        ) by {
            if i < inner.len() - 1 {
                assert(after[i] == inner[i]);
                assert(after[i + 1] == inner[i + 1]);
            } else {
                assert(after[i] == inner.last());
                assert(after[i + 1] == sorted.last());
                if inner.last() != row {
                    assert(front.last() == sorted[sorted.len() - 2]);
                    assert(sorted.last() == sorted[sorted.len() - 2 + 1]);
                }
            }
        }
        vstd::seq_lib::to_multiset_build(inner, sorted.last());
        vstd::seq_lib::to_multiset_build(front, sorted.last());
        assert(front.push(sorted.last()) =~= sorted);
        assert(after.to_multiset() =~= sorted.to_multiset().insert(row));
    } else {
        assert(after == sorted.push(row));
        assert forall|i: int| 0 <= i < after.len() - 1 implies !comes_before(
            sort_key(after[i + 1], by.label),
            sort_key(#[trigger] after[i], by.label),
            by.is_asc,
        ) by {
            if i < sorted.len() - 1 {
                assert(after[i] == sorted[i]);
                assert(after[i + 1] == sorted[i + 1]);
            }
        }
        vstd::seq_lib::to_multiset_build(sorted, row);
    }
}

/// What ORDER BY gives: the same rows, each as often as before, and no
/// row before one that must come before it.
pub proof fn lemma_sort_rows(rows: Seq<Value>, by: OrderByModel)
    ensures
        ordered(sort_rows(rows, by), by),
        sort_rows(rows, by).len() == rows.len(),
        sort_rows(rows, by).to_multiset() == rows.to_multiset(),
    decreases rows.len(),
{
    if rows.len() == 0 {
        assert(rows =~= Seq::<Value>::empty());
    } else {
        lemma_sort_rows(rows.drop_last(), by);
        lemma_insert_ordered(sort_rows(rows.drop_last(), by), rows.last(), by);
        vstd::seq_lib::to_multiset_build(rows.drop_last(), rows.last());
        assert(rows.drop_last().push(rows.last()) =~= rows);
    }
}

} // verus!
