//! Projection: from the columnar intermediate to a list of row objects.
use vstd::prelude::*;
use vstd::std_specs::convert::FromSpecImpl;
use crate::planner::product::{
    index_picks,
    index_product,
    lemma_index_product_bounds,
    lens_view,
    picks_view,
};
use crate::value::model::{
    distinct_keys,
    flatten,
    has_key,
    index_of,
    lemma_has_key,
    lemma_index_of,
    lemma_put,
    lemma_put_fresh,
    lift,
    put,
    Entries,
    Value,
};
use crate::sql::arith::EvalError;
use crate::sql::env::{expand, Env, EnvModel};
use crate::sql::eval::{eval_expr, expand_expr, field_key, lemma_expand_size};
use crate::sql::expr::{expr_size, fields_size, Expr, ExprModel, Field, FieldModel};
use crate::sql::query::{clone_fields, field_views};
use crate::sql::selector::Selector;
use crate::value::navigate::{navigate, output_key};
use crate::value::object::{object_get_index, object_insert, object_len, object_new, ObjectMap};
use crate::value::pql::{lemma_view_items, views, PqlValue};

verus! {

/// The columns of a table with the number of its rows.
pub struct RowsModel {
    /// Each key with an array: the key's value in every row.
    pub data: Entries,
    pub size: nat,
}

/// Each entry with its value lifted to an array: a collection gives its
/// elements, any other value an array of that one value.
pub open spec fn lifted(entries: Entries) -> Entries {
    Seq::new(entries.len(), |i: int| (entries[i].0, Value::Array(lift(entries[i].1))))
}

/// The number of rows of a columnar object: one if any column holds a
/// value that is no collection, else the length of the first collection
/// that is not empty, else zero.
pub open spec fn row_count(entries: Entries) -> nat
    decreases entries.len(),
{
    if entries.len() == 0 {
        0
    } else if !entries.last().1.is_collection() {
        1
    } else {
        let before = row_count(entries.drop_last());
        if before == 0 {
            entries.last().1.items().len()
        } else {
            before
        }
    }
}

/// What `Rows::from` makes of a value: the lifted columns of an object,
/// and an empty table of any other value.
pub open spec fn rows_of_value(v: Value) -> RowsModel {
    match v {
        Value::Object(entries) => RowsModel { data: lifted(entries), size: row_count(entries) },
        _ => RowsModel { data: Seq::empty(), size: 0 },
    }
}

/// The cell of a row: the value flattened by one level and lifted.
pub open spec fn cell(v: Value) -> Seq<Value> {
    lift(flatten(v))
}

/// Row `i` of the columns `data`: each key whose column reaches row `i`,
/// with the cell found there.
pub open spec fn record_at(data: Entries, i: int) -> Entries
    decreases data.len(),
{
    if data.len() == 0 {
        Seq::empty()
    } else {
        let before = record_at(data.drop_last(), i);
        let column = lift(data.last().1);
        if 0 <= i < column.len() {
            put(before, data.last().0, Value::Array(cell(column[i])))
        } else {
            before
        }
    }
}

/// The rows of a table, each a record from key to cell.
pub open spec fn records_of(rows: RowsModel) -> Seq<Entries> {
    Seq::new(rows.size, |i: int| record_at(rows.data, i))
}

/// The entries of a record whose cell is not empty.
pub open spec fn filled(record: Entries) -> Entries
    decreases record.len(),
{
    if record.len() == 0 {
        Seq::empty()
    } else {
        let before = filled(record.drop_last());
        if lift(record.last().1).len() > 0 {
            before.push(record.last())
        } else {
            before
        }
    }
}

/// The length of each cell of a record.
pub open spec fn widths(record: Entries) -> Seq<int> {
    Seq::new(record.len(), |j: int| lift(record[j].1).len() as int)
}

/// The object that one pick builds from the first `n` entries of a
/// record: each key with the element picked from its cell, Missing
/// elements left out.
pub open spec fn row_entries(record: Entries, pick: Seq<int>, n: int) -> Entries
    decreases n,
{
    if n <= 0 {
        Seq::empty()
    } else {
        let before = row_entries(record, pick, n - 1);
        let v = lift(record[n - 1].1)[pick[n - 1]];
        if v is Missing {
            before
        } else {
            put(before, record[n - 1].0, v)
        }
    }
}

/// The row objects of one record: one for every pick of an element from
/// each cell that is not empty, in lexicographic order.
pub open spec fn rows_of_record(record: Entries) -> Seq<Value> {
    let kept = filled(record);
    let picks = index_product(widths(kept));
    Seq::new(picks.len(), |r: int| Value::Object(row_entries(kept, picks[r], kept.len() as int)))
}

/// The row objects of all records, record after record.
pub open spec fn list_of(records: Seq<Entries>) -> Seq<Value>
    decreases records.len(),
{
    if records.len() == 0 {
        Seq::empty()
    } else {
        list_of(records.drop_last()) + rows_of_record(records.last())
    }
}

/// The transposition of a columnar object into its row objects.
pub open spec fn transpose(v: Value) -> Seq<Value> {
    list_of(records_of(rows_of_value(v)))
}

/// The columnar intermediate: every output key with its column.
#[derive(Debug)]
pub struct Rows {
    data: ObjectMap,
    size: usize,
}

impl View for Rows {
    type V = RowsModel;

    closed spec fn view(&self) -> RowsModel {
        RowsModel { data: self.data@, size: self.size as nat }
    }
}

impl Clone for Rows {
    fn clone(&self) -> (r: Self)
        ensures
            r@ == self@,
    {
        Rows { data: self.data.clone(), size: self.size }
    }
}

/// The rows of a table before the cells of a row are multiplied out.
#[derive(Debug)]
pub struct Records(pub Vec<ObjectMap>);

impl Clone for Records {
    fn clone(&self) -> (r: Self)
        ensures
            r@ == self@,
    {
        let mut out: Vec<ObjectMap> = Vec::new();
        let mut i: usize = 0;
        while i < self.0.len()
            invariant
                i <= self.0.len(),
                out.len() == i,
                forall|j: int| 0 <= j < i ==> (#[trigger] out@[j])@ == self.0@[j]@,
            decreases self.0.len() - i,
        {
            out.push(self.0[i].clone());
            i += 1;
        }
        let r = Records(out);
        assert(r@ =~= self@);
        r
    }
}

impl View for Records {
    type V = Seq<Entries>;

    open spec fn view(&self) -> Seq<Entries> {
        Seq::new(self.0@.len(), |i: int| self.0@[i]@)
    }
}

/// The elements of a collection, or the value alone, copied.
fn lift_copy(v: &PqlValue) -> (r: Vec<PqlValue>)
    ensures
        views(r@) == lift(v@),
{
    v.clone().into_items()
}

/// The number of elements that `lift` gives.
fn lift_len(v: &PqlValue) -> (n: usize)
    ensures
        n == lift(v@).len(),
{
    proof {
        lemma_view_items(*v);
    }
    match v {
        PqlValue::Array(items) => items.len(),
        PqlValue::Bag(items) => items.len(),
        _ => 1,
    }
}

/// The cell that `v` holds for row `i`, if its column reaches that row.
fn cell_at(v: &PqlValue, i: usize) -> (r: Option<PqlValue>)
    ensures
        i < lift(v@).len() ==> (r matches Some(c) && c@ == Value::Array(cell(lift(v@)[i as int]))),
        i >= lift(v@).len() ==> r is None,
{
    proof {
        lemma_view_items(*v);
    }
    let found: Option<PqlValue> = match v {
        PqlValue::Array(items) => if i < items.len() {
            assert(views(items@)[i as int] == items@[i as int]@);
            Some(items[i].clone())
        } else {
            None
        },
        PqlValue::Bag(items) => if i < items.len() {
            assert(views(items@)[i as int] == items@[i as int]@);
            Some(items[i].clone())
        } else {
            None
        },
        other => if i == 0 {
            Some(other.clone())
        } else {
            None
        },
    };
    match found {
        Some(x) => {
            let c = PqlValue::Array(x.flatten().into_items());
            proof {
                lemma_view_items(c);
            }
            Some(c)
        },
        None => None,
    }
}

impl Rows {
    /// The number of rows.
    pub fn size(&self) -> (n: usize)
        ensures
            n == self@.size,
    {
        self.size
    }

    /// The columnar form of `value`: every field of an object lifted to a
    /// column. A value that is no object gives a table without columns
    /// and without rows.
    pub fn from_value(value: PqlValue) -> (r: Rows)
        ensures
            r@ == rows_of_value(value@),
    {
        let mut data = object_new();
        let mut size: usize = 0;
        match value {
            PqlValue::Object(record) => {
                let n = object_len(&record);
                let mut i: usize = 0;
                assert(data@ =~= lifted(record@).take(0));
                assert(record@.take(0) =~= Seq::<(Seq<char>, Value)>::empty());
                while i < n
                    invariant
                        i <= n,
                        n == record@.len(),
                        data@ == lifted(record@).take(i as int),
                        size == row_count(record@.take(i as int)),
                    decreases n - i,
                {
                    match object_get_index(&record, i) {
                        Some((k, v)) => {
                            proof {
                                let next = record@.take(i + 1);
                                assert(next.drop_last() =~= record@.take(i as int));
                                assert(next.last() == record@[i as int]);
                                lemma_index_of(record@, k@);
                                assert forall|j: int| 0 <= j < data@.len() implies (
                                #[trigger] data@[j]).0 != k@ by {
                                    assert(data@[j].0 == record@[j].0);
                                }
                                lemma_put_fresh(data@, k@, Value::Array(lift(v@)));
                            }
                            let width = lift_len(v);
                            if !v.is_collection() {
                                size = 1;
                            } else if size == 0 {
                                size = width;
                            }
                            let column = PqlValue::Array(lift_copy(v));
                            proof {
                                lemma_view_items(column);
                            }
                            let ghost before = data@;
                            object_insert(&mut data, k.clone(), column);
                            assert(data@ =~= lifted(record@).take(i + 1));
                        },
                        None => {},
                    }
                    i += 1;
                }
                assert(record@.take(i as int) =~= record@);
                assert(lifted(record@).take(i as int) =~= lifted(record@));
            },
            _ => {},
        }
        Rows { data, size }
    }
}

impl Records {
    /// The rows of a table: for every row the keys whose column reaches
    /// it, each with its cell.
    pub fn from_rows(rows: Rows) -> (r: Records)
        ensures
            r@ == records_of(rows@),
    {
        let mut records: Vec<ObjectMap> = Vec::new();
        let n = object_len(&rows.data);
        let mut i: usize = 0;
        while i < rows.size
            invariant
                i <= rows.size,
                n == rows.data@.len(),
                records@.len() == i,
                forall|r: int| 0 <= r < i ==> (#[trigger] records@[r])@ == record_at(rows.data@, r),
            decreases rows.size - i,
        {
            let mut record = object_new();
            let mut j: usize = 0;
            assert(rows.data@.take(0) =~= Seq::<(Seq<char>, Value)>::empty());
            while j < n
                invariant
                    j <= n,
                    n == rows.data@.len(),
                    record@ == record_at(rows.data@.take(j as int), i as int),
                decreases n - j,
            {
                match object_get_index(&rows.data, j) {
                    Some((k, v)) => {
                        proof {
                            let next = rows.data@.take(j + 1);
                            assert(next.drop_last() =~= rows.data@.take(j as int));
                            assert(next.last() == rows.data@[j as int]);
                        }
                        match cell_at(v, i) {
                            Some(c) => {
                                object_insert(&mut record, k.clone(), c);
                            },
                            None => {},
                        }
                    },
                    None => {},
                }
                j += 1;
            }
            assert(rows.data@.take(j as int) =~= rows.data@);
            records.push(record);
            i += 1;
        }
        let r = Records(records);
        assert(r@ =~= records_of(rows@));
        r
    }
}

/// The row object that `pick` builds from the filled entries of a record.
fn row_from_pick(
    keys: &Vec<String>,
    cells: &Vec<Vec<PqlValue>>,
    pick: &Vec<usize>,
    Ghost(kept): Ghost<Entries>,
) -> (row: PqlValue)
    requires
        keys.len() == kept.len(),
        cells.len() == kept.len(),
        pick.len() == kept.len(),
        forall|t: int| 0 <= t < kept.len() ==> (#[trigger] keys@[t])@ == kept[t].0,
        forall|t: int| 0 <= t < kept.len() ==> views((#[trigger] cells@[t])@) == lift(kept[t].1),
        forall|t: int| 0 <= t < kept.len() ==> (#[trigger] pick@[t]) < cells@[t].len(),
    ensures
        row@ == Value::Object(
            row_entries(kept, Seq::new(pick@.len(), |j: int| pick@[j] as int), kept.len() as int),
        ),
{
    let ghost p = Seq::new(pick@.len(), |j: int| pick@[j] as int);
    let mut object = object_new();
    let mut j: usize = 0;
    while j < keys.len()
        invariant
            j <= keys.len(),
            keys.len() == kept.len(),
            cells.len() == kept.len(),
            pick.len() == kept.len(),
            p == Seq::new(pick@.len(), |t: int| pick@[t] as int),
            forall|t: int| 0 <= t < kept.len() ==> (#[trigger] keys@[t])@ == kept[t].0,
            forall|t: int|
                0 <= t < kept.len() ==> views((#[trigger] cells@[t])@) == lift(kept[t].1),
            forall|t: int| 0 <= t < kept.len() ==> (#[trigger] pick@[t]) < cells@[t].len(),
            object@ == row_entries(kept, p, j as int),
        decreases keys.len() - j,
    {
        assert(keys@[j as int]@ == kept[j as int].0);
        let v = &cells[j][pick[j]];
        assert(v@ == views(cells@[j as int]@)[pick@[j as int] as int]);
        assert(p[j as int] == pick@[j as int] as int);
        if !v.is_missing() {
            object_insert(&mut object, keys[j].clone(), v.clone());
        }
        j += 1;
    }
    PqlValue::Object(object)
}

/// The row objects of one record.
fn rows_from_record(record: &ObjectMap) -> (rows: Vec<PqlValue>)
    ensures
        views(rows@) == rows_of_record(record@),
{
    let mut keys: Vec<String> = Vec::new();
    let mut cells: Vec<Vec<PqlValue>> = Vec::new();
    let mut lens: Vec<usize> = Vec::new();
    let n = object_len(record);
    let mut i: usize = 0;
    assert(record@.take(0) =~= Seq::<(Seq<char>, Value)>::empty());
    while i < n
        invariant
            i <= n,
            n == record@.len(),
            keys.len() == filled(record@.take(i as int)).len(),
            cells.len() == keys.len(),
            lens.len() == keys.len(),
            forall|j: int|
                0 <= j < keys.len() ==> (#[trigger] keys@[j])@ == filled(
                    record@.take(i as int),
                )[j].0,
            forall|j: int|
                0 <= j < keys.len() ==> views((#[trigger] cells@[j])@) == lift(
                    filled(record@.take(i as int))[j].1,
                ),
            forall|j: int| 0 <= j < keys.len() ==> (#[trigger] lens@[j]) == cells@[j].len(),
        decreases n - i,
    {
        match object_get_index(record, i) {
            Some((k, v)) => {
                proof {
                    let next = record@.take(i + 1);
                    assert(next.drop_last() =~= record@.take(i as int));
                    assert(next.last() == record@[i as int]);
                }
                let items = lift_copy(v);
                if items.len() > 0 {
                    keys.push(k.clone());
                    lens.push(items.len());
                    cells.push(items);
                }
            },
            None => {},
        }
        i += 1;
    }
    assert(record@.take(i as int) =~= record@);
    let ghost kept = filled(record@);
    assert forall|j: int| 0 <= j < kept.len() implies lens_view(lens@)[j] == widths(kept)[j] by {
        assert(lens@[j] == cells@[j].len());
        assert(views(cells@[j]@).len() == cells@[j].len());
    }
    assert(lens_view(lens@) =~= widths(kept));
    let picks = index_picks(&lens);
    let mut rows: Vec<PqlValue> = Vec::new();
    let mut r: usize = 0;
    while r < picks.len()
        invariant
            r <= picks.len(),
            kept == filled(record@),
            keys.len() == kept.len(),
            cells.len() == kept.len(),
            lens.len() == kept.len(),
            picks_view(picks@) == index_product(widths(kept)),
            forall|j: int| 0 <= j < kept.len() ==> (#[trigger] keys@[j])@ == kept[j].0,
            forall|j: int|
                0 <= j < kept.len() ==> views((#[trigger] cells@[j])@) == lift(kept[j].1),
            forall|j: int| 0 <= j < kept.len() ==> (#[trigger] lens@[j]) == cells@[j].len(),
            rows.len() == r,
            forall|t: int|
                0 <= t < r ==> (#[trigger] rows@[t])@ == Value::Object(
                    row_entries(kept, index_product(widths(kept))[t], kept.len() as int),
                ),
        decreases picks.len() - r,
    {
        let pick = &picks[r];
        proof {
            assert(picks_view(picks@).len() == picks@.len());
            lemma_index_product_bounds(widths(kept), r as int);
            let p = picks_view(picks@)[r as int];
            assert(p.len() == pick@.len());
            assert forall|j: int| 0 <= j < kept.len() implies (#[trigger] pick@[j])
                < cells@[j].len() by {
                assert(p[j] == pick@[j] as int);
                assert(widths(kept)[j] == lift(kept[j].1).len());
                assert(views(cells@[j]@).len() == cells@[j].len());
            }
            assert(p =~= Seq::new(pick@.len(), |j: int| pick@[j] as int));
        }
        let row = row_from_pick(&keys, &cells, pick, Ghost(kept));
        rows.push(row);
        r += 1;
    }
    assert(views(rows@) =~= rows_of_record(record@));
    rows
}

impl Records {
    /// The row objects of all records: each record multiplied out over the
    /// elements of its cells, Missing elements left out of the objects.
    pub fn into_list(self) -> (list: Vec<PqlValue>)
        ensures
            views(list@) == list_of(self@),
    {
        let mut list: Vec<PqlValue> = Vec::new();
        let mut i: usize = 0;
        assert(self@.take(0) =~= Seq::<Entries>::empty());
        assert(views(list@) =~= Seq::<Value>::empty());
        while i < self.0.len()
            invariant
                i <= self.0.len(),
                views(list@) == list_of(self@.take(i as int)),
            decreases self.0.len() - i,
        {
            proof {
                let next = self@.take(i + 1);
                assert(next.drop_last() =~= self@.take(i as int));
                assert(next.last() == self.0@[i as int]@);
            }
            let ghost before = views(list@);
            let mut rows = rows_from_record(&self.0[i]);
            let ghost added = views(rows@);
            list.append(&mut rows);
            assert(views(list@) =~= before + added);
            i += 1;
        }
        assert(self@.take(i as int) =~= self@);
        list
    }
}

/// Transposes a columnar object into its row objects: the columns are
/// lifted, cut into rows, and every row is multiplied out.
pub fn to_list(value: PqlValue) -> (list: Vec<PqlValue>)
    ensures
        views(list@) == transpose(value@),
{
    Records::from_rows(Rows::from_value(value)).into_list()
}

/// No entry holds the Missing marker.
pub open spec fn holds_no_missing(entries: Entries) -> bool {
    forall|i: int| 0 <= i < entries.len() ==> !((#[trigger] entries[i]).1 is Missing)
}

/// Among the first `n` entries of `record`, one has the key `key` and a
/// picked element that is not Missing.
pub open spec fn present(record: Entries, pick: Seq<int>, n: int, key: Seq<char>) -> bool {
    exists|j: int|
        0 <= j < n && (#[trigger] record[j]).0 == key && !(lift(record[j].1)[pick[j]] is Missing)
}

/// The object built from a pick has distinct keys, holds no Missing value,
/// and has exactly the keys whose picked element is not Missing.
pub proof fn lemma_row_entries(record: Entries, pick: Seq<int>, n: int)
    ensures
        distinct_keys(row_entries(record, pick, n)),
        holds_no_missing(row_entries(record, pick, n)),
        forall|key: Seq<char>| #[trigger]
            has_key(row_entries(record, pick, n), key) <==> present(record, pick, n, key),
    decreases n,
{
    let row = row_entries(record, pick, n);
    if n <= 0 {
        assert forall|key: Seq<char>| #[trigger] has_key(row, key) <==> present(
            record,
            pick,
            n,
            key,
        ) by {
            lemma_index_of(row, key);
        }
    } else {
        let before = row_entries(record, pick, n - 1);
        lemma_row_entries(record, pick, n - 1);
        let k = record[n - 1].0;
        let v = lift(record[n - 1].1)[pick[n - 1]];
        if v is Missing {
            assert forall|key: Seq<char>| #[trigger] has_key(row, key) <==> present(
                record,
                pick,
                n,
                key,
            ) by {
                assert(has_key(before, key) <==> present(record, pick, n - 1, key));
                if present(record, pick, n, key) {
                    let j = choose|j: int|
                        0 <= j < n && (#[trigger] record[j]).0 == key && !(lift(
                            record[j].1,
                        )[pick[j]] is Missing);
                    assert(j < n - 1);
                }
                if present(record, pick, n - 1, key) {
                    let j = choose|j: int|
                        0 <= j < n - 1 && (#[trigger] record[j]).0 == key && !(lift(
                            record[j].1,
                        )[pick[j]] is Missing);
                    assert(0 <= j < n);
                }
            }
        } else {
            lemma_put(before, k, v);
            lemma_index_of(before, k);
            assert forall|i: int| 0 <= i < row.len() implies !((#[trigger] row[i]).1 is Missing) by {
                if i < before.len() && i != index_of(before, k) {
                    assert(row[i] == before[i]);
                }
            }
            assert forall|key: Seq<char>| #[trigger] has_key(row, key) <==> present(
                record,
                pick,
                n,
                key,
            ) by {
                assert(has_key(before, key) <==> present(record, pick, n - 1, key));
                assert(has_key(row, key) <==> (key == k || has_key(before, key)));
                if key == k {
                    assert(record[n - 1].0 == key);
                }
                if present(record, pick, n, key) && key != k {
                    let j = choose|j: int|
                        0 <= j < n && (#[trigger] record[j]).0 == key && !(lift(
                            record[j].1,
                        )[pick[j]] is Missing);
                    assert(j < n - 1);
                }
                if present(record, pick, n - 1, key) {
                    let j = choose|j: int|
                        0 <= j < n - 1 && (#[trigger] record[j]).0 == key && !(lift(
                            record[j].1,
                        )[pick[j]] is Missing);
                    assert(0 <= j < n);
                }
            }
        }
    }
}

/// Projection closure for the rows of one record: every row is an object
/// with distinct keys and no Missing value, whose keys are exactly those
/// of the filled entries whose picked element is not Missing.
pub proof fn lemma_rows_of_record(record: Entries, r: int)
    requires
        0 <= r < rows_of_record(record).len(),
    ensures
        rows_of_record(record)[r] matches Value::Object(row) && distinct_keys(row)
            && holds_no_missing(row) && forall|key: Seq<char>| #[trigger]
            has_key(row, key) <==> present(
                filled(record),
                index_product(widths(filled(record)))[r],
                filled(record).len() as int,
                key,
            ),
{
    let kept = filled(record);
    lemma_row_entries(kept, index_product(widths(kept))[r], kept.len() as int);
}

/// Every element of the list of all rows is a row of one of the records.
pub proof fn lemma_list_member(records: Seq<Entries>, r: int)
    requires
        0 <= r < list_of(records).len(),
    ensures
        exists|i: int, t: int|
            0 <= i < records.len() && 0 <= t < rows_of_record(records[i]).len() && list_of(
                records,
            )[r] == #[trigger] rows_of_record(records[i])[t],
    decreases records.len(),
{
    let front = list_of(records.drop_last());
    if r < front.len() {
        lemma_list_member(records.drop_last(), r);
        let (i, t) = choose|i: int, t: int|
            0 <= i < records.drop_last().len() && 0 <= t < rows_of_record(
                records.drop_last()[i],
            ).len() && front[r] == #[trigger] rows_of_record(records.drop_last()[i])[t];
        assert(records.drop_last()[i] == records[i]);
        assert(list_of(records)[r] == rows_of_record(records[i])[t]);
    } else {
        let i = records.len() - 1;
        let t = r - front.len();
        assert(list_of(records)[r] == rows_of_record(records[i])[t]);
    }
}

/// Every key of a row of the table is a key of its columns.
proof fn lemma_record_keys(data: Entries, i: int, key: Seq<char>)
    requires
        has_key(record_at(data, i), key),
    ensures
        has_key(data, key),
    decreases data.len(),
{
    lemma_has_key(data, key);
    if data.len() > 0 {
        let before = record_at(data.drop_last(), i);
        let column = lift(data.last().1);
        if 0 <= i < column.len() {
            lemma_put(before, data.last().0, Value::Array(cell(column[i])));
        }
        if data.last().0 != key {
            lemma_record_keys(data.drop_last(), i, key);
            lemma_has_key(data.drop_last(), key);
            let j = choose|j: int|
                0 <= j < data.drop_last().len() && (#[trigger] data.drop_last()[j]).0 == key;
            assert(data[j].0 == key);
        } else {
            assert(data[data.len() - 1].0 == key);
        }
    } else {
        lemma_index_of(record_at(data, i), key);
    }
}

/// Every filled entry is an entry of the record.
proof fn lemma_filled_member(record: Entries, j: int)
    requires
        0 <= j < filled(record).len(),
    ensures
        exists|i: int| 0 <= i < record.len() && #[trigger] record[i] == filled(record)[j],
    decreases record.len(),
{
    if record.len() > 0 {
        let before = filled(record.drop_last());
        if j < before.len() {
            lemma_filled_member(record.drop_last(), j);
            let i = choose|i: int|
                0 <= i < record.drop_last().len() && #[trigger] record.drop_last()[i] == before[j];
            assert(record[i] == filled(record)[j]);
        } else {
            assert(record[record.len() - 1] == filled(record)[j]);
        }
    }
}

/// Projection closure and Missing elision: every row that transposition
/// gives is an object with distinct keys, each of them a key of the
/// columnar object, and none of its values is Missing.
pub proof fn lemma_transpose_rows(v: Value, r: int)
    requires
        0 <= r < transpose(v).len(),
    ensures
        transpose(v)[r] matches Value::Object(row) && distinct_keys(row) && holds_no_missing(row)
            && forall|key: Seq<char>| #[trigger]
            has_key(row, key) ==> (v matches Value::Object(columns) && has_key(columns, key)),
{
    let rows = rows_of_value(v);
    let records = records_of(rows);
    lemma_list_member(records, r);
    let (i, t) = choose|i: int, t: int|
        0 <= i < records.len() && 0 <= t < rows_of_record(records[i]).len() && list_of(records)[r]
            == #[trigger] rows_of_record(records[i])[t];
    lemma_rows_of_record(records[i], t);
    let row = transpose(v)[r]->Object_0;
    let kept = filled(records[i]);
    let pick = index_product(widths(kept))[t];
    assert forall|key: Seq<char>| #[trigger] has_key(row, key) implies (v matches Value::Object(
        columns,
    ) && has_key(columns, key)) by {
        assert(present(kept, pick, kept.len() as int, key));
        let j = choose|j: int|
            0 <= j < kept.len() && (#[trigger] kept[j]).0 == key && !(lift(
                kept[j].1,
            )[pick[j]] is Missing);
        lemma_filled_member(records[i], j);
        let m = choose|m: int| 0 <= m < records[i].len() && #[trigger] records[i][m] == kept[j];
        lemma_has_key(records[i], key);
        assert(records[i][m].0 == key);
        lemma_record_keys(rows.data, i, key);
        match v {
            Value::Object(columns) => {
                lemma_has_key(rows.data, key);
                let c = choose|c: int| 0 <= c < rows.data.len() && (#[trigger] rows.data[c]).0 == key;
                lemma_has_key(columns, key);
                assert(columns[c].0 == key);
            },
            _ => {
                lemma_index_of(rows.data, key);
            },
        }
    }
}

/// The columns of a projection: every item's output key bound to the
/// value of its expression, paths in full form, in the order of the
/// items; an item whose key came before takes that key's place.
pub open spec fn project_columns(fields: Seq<FieldModel>, env: EnvModel) -> Result<
    Entries,
    EvalError,
>
    decreases fields_size(fields), 3nat, 0nat,
{
    if fields.len() == 0 {
        Ok(Seq::empty())
    } else {
        match project_columns(fields.drop_last(), env) {
            Ok(columns) => {
                let full = FieldModel {
                    expr: expand_expr(fields.last().expr, env.frames),
                    alias: fields.last().alias,
                };
                match {
                    proof {
                        lemma_expand_size(fields.last().expr, env.frames);
                    }
                    eval_expr(full.expr, env)
                } {
                    Ok(v) => Ok(put(columns, field_key(full), v)),
                    Err(e) => Err(e),
                }
            },
            Err(e) => Err(e),
        }
    }
}

/// The projection is the single item `*`.
pub open spec fn is_star(fields: Seq<FieldModel>) -> bool {
    fields.len() == 1 && fields[0].expr is Star && fields[0].alias is None
}

/// The entries whose value is not Missing.
pub open spec fn without_missing(entries: Entries) -> Entries
    decreases entries.len(),
{
    if entries.len() == 0 {
        Seq::empty()
    } else {
        let before = without_missing(entries.drop_last());
        if entries.last().1 is Missing {
            before
        } else {
            before.push(entries.last())
        }
    }
}

/// A row of `*`: an object without its Missing fields; any other value as
/// it is.
pub open spec fn clean_row(v: Value) -> Value {
    match v {
        Value::Object(entries) => Value::Object(without_missing(entries)),
        _ => v,
    }
}

/// The rows of `*` over `v`: the elements of a collection, or `v` alone,
/// each cleaned of Missing fields.
pub open spec fn star_rows(v: Value) -> Seq<Value> {
    Seq::new(lift(v).len(), |i: int| clean_row(lift(v)[i]))
}

/// The rows of a projection: for `*` the rows of the innermost alias; else
/// the transposition of the projected columns.
pub open spec fn project_rows(fields: Seq<FieldModel>, env: EnvModel) -> Result<
    Seq<Value>,
    EvalError,
>
    decreases fields_size(fields), 4nat, 0nat,
{
    if is_star(fields) {
        Ok(star_rows(navigate(env.root, expand(env.frames, Seq::empty()))))
    } else {
        match project_columns(fields, env) {
            Ok(columns) => Ok(transpose(Value::Object(columns))),
            Err(e) => Err(e),
        }
    }
}

/// The projection of a plan: the items of SELECT in order.
#[derive(Debug)]
pub struct Projection(pub Vec<Field>);

impl View for Projection {
    type V = Seq<FieldModel>;

    open spec fn view(&self) -> Seq<FieldModel> {
        field_views(self.0@)
    }
}

impl Clone for Projection {
    fn clone(&self) -> (r: Self)
        ensures
            r@ == self@,
    {
        Projection(clone_fields(&self.0))
    }
}

/// The view of a list of rows, inside a result.
pub open spec fn rows_view(r: Result<Vec<PqlValue>, EvalError>) -> Result<Seq<Value>, EvalError> {
    match r {
        Ok(rows) => Ok(views(rows@)),
        Err(e) => Err(e),
    }
}

/// Every key of the entries without Missing values is a key of the entries.
proof fn lemma_without_missing_keys(entries: Entries, j: int)
    requires
        0 <= j < without_missing(entries).len(),
    ensures
        exists|i: int| 0 <= i < entries.len() && #[trigger] entries[i] == without_missing(entries)[j],
    decreases entries.len(),
{
    if entries.len() > 0 {
        let before = without_missing(entries.drop_last());
        if j < before.len() {
            lemma_without_missing_keys(entries.drop_last(), j);
            let i = choose|i: int|
                0 <= i < entries.drop_last().len() && #[trigger] entries.drop_last()[i] == before[j];
            assert(entries[i] == without_missing(entries)[j]);
        } else {
            assert(entries[entries.len() - 1] == without_missing(entries)[j]);
        }
    }
}

/// A row of `*`.
fn clean(v: &PqlValue) -> (r: PqlValue)
    ensures
        r@ == clean_row(v@),
{
    match v {
        PqlValue::Object(fields) => {
            let mut kept = object_new();
            let n = object_len(fields);
            let mut i: usize = 0;
            assert(fields@.take(0) =~= Seq::<(Seq<char>, Value)>::empty());
            while i < n
                invariant
                    i <= n,
                    n == fields@.len(),
                    kept@ == without_missing(fields@.take(i as int)),
                decreases n - i,
            {
                match object_get_index(fields, i) {
                    Some((k, x)) => {
                        proof {
                            let next = fields@.take(i + 1);
                            assert(next.drop_last() =~= fields@.take(i as int));
                            assert(next.last() == fields@[i as int]);
                            lemma_index_of(fields@, k@);
                            assert forall|j: int| 0 <= j < kept@.len() implies (
                            #[trigger] kept@[j]).0 != k@ by {
                                lemma_without_missing_keys(fields@.take(i as int), j);
                                let m = choose|m: int|
                                    0 <= m < fields@.take(i as int).len() && #[trigger] fields@.take(
                                        i as int,
                                    )[m] == kept@[j];
                                assert(fields@[m].0 != k@);
                            }
                            lemma_put_fresh(kept@, k@, x@);
                        }
                        if !x.is_missing() {
                            object_insert(&mut kept, k.clone(), x.clone());
                        }
                    },
                    None => {},
                }
                i += 1;
            }
            assert(fields@.take(i as int) =~= fields@);
            PqlValue::Object(kept)
        },
        other => other.clone(),
    }
}

/// The rows of `*` over `v`.
fn rows_of_star(v: PqlValue) -> (rows: Vec<PqlValue>)
    ensures
        views(rows@) == star_rows(v@),
{
    let items = v.into_items();
    let mut rows: Vec<PqlValue> = Vec::new();
    let mut i: usize = 0;
    while i < items.len()
        invariant
            i <= items.len(),
            rows.len() == i,
            forall|j: int| 0 <= j < i ==> (#[trigger] rows@[j])@ == clean_row(items@[j]@),
        decreases items.len() - i,
    {
        rows.push(clean(&items[i]));
        i += 1;
    }
    assert(views(rows@) =~= star_rows(v@)) by {
        assert forall|j: int| 0 <= j < items.len() implies views(rows@)[j] == #[trigger] star_rows(
            v@,
        )[j] by {
            assert(views(items@)[j] == items@[j]@);
        }
    }
    rows
}

impl Projection {
    /// Whether the projection is the single item `*`.
    pub fn is_star(&self) -> (r: bool)
        ensures
            r == is_star(self@),
    {
        if self.0.len() != 1 {
            return false;
        }
        let f = &self.0[0];
        match (&f.expr, &f.alias) {
            (Expr::Star, None) => true,
            _ => false,
        }
    }

    /// The projected columns: a columnar object from output key to value.
    pub fn columns(&self, env: &Env) -> (r: Result<PqlValue, EvalError>)
        ensures
            match r {
                Ok(v) => project_columns(self@, env@) == Ok::<Entries, EvalError>(v@->Object_0)
                    && v@ is Object,
                Err(e) => project_columns(self@, env@) == Err::<Entries, EvalError>(e),
            },
        decreases fields_size(self@), 3nat, 0nat,
    {
        let mut columns = object_new();
        let mut i: usize = 0;
        assert(self@.take(0) =~= Seq::<FieldModel>::empty());
        while i < self.0.len()
            invariant
                i <= self.0.len(),
                project_columns(self@.take(i as int), env@) == Ok::<Entries, EvalError>(columns@),
            decreases self.0.len() - i,
        {
            proof {
                let next = self@.take(i + 1);
                assert(next.drop_last() =~= self@.take(i as int));
                assert(next.last() == self.0@[i as int]@);
            }
            let field = self.0[i].expand_fullpath(env);
            let (key, expr) = field.rename();
            proof {
                lemma_expand_size(self@[i as int].expr, env@.frames);
                lemma_field_size(self@, i as int);
            }
            match expr.eval(env) {
                Ok(value) => {
                    object_insert(&mut columns, key, value);
                },
                Err(e) => {
                    proof {
                        lemma_columns_fail(self@, i + 1, env@);
                    }
                    return Err(e);
                },
            }
            i += 1;
        }
        assert(self@.take(i as int) =~= self@);
        Ok(PqlValue::Object(columns))
    }

    /// The rows of the projection in `env`; see [`project_rows`].
    pub fn execute(&self, env: &Env) -> (r: Result<Vec<PqlValue>, EvalError>)
        ensures
            rows_view(r) == project_rows(self@, env@),
        decreases fields_size(self@), 4nat, 0nat,
    {
        if self.is_star() {
            let here = Selector::new();
            let full = env.expand_fullpath(&here);
            Ok(rows_of_star(env.root().select_by_selector(&full)))
        } else {
            match self.columns(env) {
                Ok(columns) => Ok(to_list(columns)),
                Err(e) => Err(e),
            }
        }
    }
}

/// Every item is smaller than the list that holds it.
pub proof fn lemma_field_size(fields: Seq<FieldModel>, i: int)
    requires
        0 <= i < fields.len(),
    ensures
        expr_size(fields[i].expr) < fields_size(fields),
        fields_size(fields.take(i)) <= fields_size(fields),
    decreases fields.len(),
{
    if i < fields.len() - 1 {
        lemma_field_size(fields.drop_last(), i);
        assert(fields.drop_last()[i] == fields[i]);
        assert(fields.drop_last().take(i) =~= fields.take(i));
    } else {
        assert(fields.take(i) =~= fields.drop_last());
    }
}

/// Once an item fails, the projection fails with its error.
proof fn lemma_columns_fail(fields: Seq<FieldModel>, n: int, env: EnvModel)
    requires
        0 <= n <= fields.len(),
        project_columns(fields.take(n), env) is Err,
    ensures
        project_columns(fields, env) == project_columns(fields.take(n), env),
    decreases fields.len() - n,
{
    if n < fields.len() {
        let next = fields.take(n + 1);
        assert(next.drop_last() =~= fields.take(n));
        lemma_columns_fail(fields, n + 1, env);
    } else {
        assert(fields.take(n) =~= fields);
    }
}

/// The object that `select_by_fields` builds: for a path the value it
/// leads to from `v`, under the alias or the name of its last segment; for
/// any other expression its value over `root`, under the alias or the
/// empty key. `None` when an expression cannot be evaluated.
pub open spec fn select_columns(v: Value, fields: Seq<FieldModel>, env: EnvModel) -> Option<Entries>
    decreases fields_size(fields), 3nat, 0nat,
{
    if fields.len() == 0 {
        Some(Seq::empty())
    } else {
        match select_columns(v, fields.drop_last(), env) {
            Some(columns) => match fields.last().expr {
                ExprModel::Selector(p) => Some(
                    put(columns, output_key(fields.last().alias, p), navigate(v, p)),
                ),
                e => match eval_expr(e, env) {
                    Ok(x) => Some(put(columns, field_key(fields.last()), x)),
                    Err(_) => None,
                },
            },
            None => None,
        }
    }
}

/// Once an item fails, the selection fails.
proof fn lemma_select_fail(v: Value, fields: Seq<FieldModel>, n: int, root: EnvModel)
    requires
        0 <= n <= fields.len(),
        select_columns(v, fields.take(n), root) is None,
    ensures
        select_columns(v, fields, root) is None,
    decreases fields.len() - n,
{
    if n < fields.len() {
        let next = fields.take(n + 1);
        assert(next.drop_last() =~= fields.take(n));
        lemma_select_fail(v, fields, n + 1, root);
    } else {
        assert(fields.take(n) =~= fields);
    }
}

impl PqlValue {
    /// The object of the selected fields; see [`select_columns`].
    pub fn select_by_fields(&self, field_list: &[Field], env: &Env) -> (r: Option<PqlValue>)
        ensures
            match r {
                Some(x) => x@ is Object && select_columns(self@, field_views(field_list@), env@)
                    == Some(x@->Object_0),
                None => select_columns(self@, field_views(field_list@), env@) is None,
            },
        decreases fields_size(field_views(field_list@)), 3nat, 0nat,
    {
        let mut columns = object_new();
        let ghost fields = field_views(field_list@);
        let mut i: usize = 0;
        assert(fields.take(0) =~= Seq::<FieldModel>::empty());
        while i < field_list.len()
            invariant
                i <= field_list.len(),
                fields == field_views(field_list@),
                select_columns(self@, fields.take(i as int), env@) == Some(columns@),
            decreases field_list.len() - i,
        {
            proof {
                let next = fields.take(i + 1);
                assert(next.drop_last() =~= fields.take(i as int));
                assert(next.last() == field_list@[i as int]@);
            }
            let field = &field_list[i];
            match &field.expr {
                Expr::Selector(selector) => {
                    let alias = match &field.alias {
                        Some(a) => Some(a.clone()),
                        None => None,
                    };
                    let (key, value) = self.project_by_selector(alias, selector);
                    object_insert(&mut columns, key, value);
                },
                other => {
                    proof {
                        lemma_field_size(fields, i as int);
                    }
                    match other.eval(env) {
                        Ok(value) => {
                            let key = match &field.alias {
                                Some(a) => a.clone(),
                                None => String::new(),
                            };
                            object_insert(&mut columns, key, value);
                        },
                        Err(_) => {
                            proof {
                                lemma_select_fail(self@, fields, i + 1, env@);
                            }
                            return None;
                        },
                    }
                },
            }
            i += 1;
        }
        assert(fields.take(i as int) =~= fields);
        Some(PqlValue::Object(columns))
    }
}

/// A table as a value: an array with one object for each column, from
/// the column's key to its array.
pub open spec fn rows_value(rows: RowsModel) -> Value {
    Value::Array(Seq::new(rows.data.len(), |i: int| Value::Object(seq![rows.data[i]])))
}

/// Records as a value: an array with one object for each record, from key
/// to cell.
pub open spec fn records_value(records: Seq<Entries>) -> Value {
    Value::Array(Seq::new(records.len(), |i: int| Value::Object(records[i])))
}

impl Rows {
    /// The table as a value; see [`rows_value`].
    pub fn to_value(&self) -> (v: PqlValue)
        ensures
            v@ == rows_value(self@),
    {
        let n = object_len(&self.data);
        let mut out: Vec<PqlValue> = Vec::new();
        let mut i: usize = 0;
        while i < n
            invariant
                i <= n,
                n == self.data@.len(),
                out.len() == i,
                forall|j: int|
                    0 <= j < i ==> (#[trigger] out@[j])@ == Value::Object(seq![self.data@[j]]),
            decreases n - i,
        {
            match object_get_index(&self.data, i) {
                Some((k, v)) => {
                    let mut one = object_new();
                    proof {
                        lemma_put_fresh(Seq::empty(), k@, v@);
                        assert(Seq::<(Seq<char>, Value)>::empty().push((k@, v@)) =~= seq![
                            self.data@[i as int],
                        ]);
                    }
                    object_insert(&mut one, k.clone(), v.clone());
                    out.push(PqlValue::Object(one));
                },
                None => {
                    out.push(PqlValue::Missing);
                },
            }
            i += 1;
        }
        let v = PqlValue::Array(out);
        proof {
            lemma_view_items(v);
            assert(v@->Array_0 =~= rows_value(self@)->Array_0);
        }
        v
    }
}

impl Records {
    /// The records as a value; see [`records_value`].
    pub fn to_value(&self) -> (v: PqlValue)
        ensures
            v@ == records_value(self@),
    {
        let mut out: Vec<PqlValue> = Vec::new();
        let mut i: usize = 0;
        while i < self.0.len()
            invariant
                i <= self.0.len(),
                out.len() == i,
                forall|j: int| 0 <= j < i ==> (#[trigger] out@[j])@ == Value::Object(self.0@[j]@),
            decreases self.0.len() - i,
        {
            out.push(PqlValue::Object(self.0[i].clone()));
            i += 1;
        }
        let v = PqlValue::Array(out);
        proof {
            lemma_view_items(v);
            assert(v@->Array_0 =~= records_value(self@)->Array_0);
        }
        v
    }
}

impl From<PqlValue> for Rows {
    /// The columnar form of a value; see [`Rows::from_value`].
    fn from(value: PqlValue) -> (r: Rows)
        ensures
            r@ == rows_of_value(value@),
    {
        Rows::from_value(value)
    }
}

impl FromSpecImpl<PqlValue> for Rows {
    open spec fn obeys_from_spec() -> bool {
        false
    }

    open spec fn from_spec(value: PqlValue) -> Self {
        arbitrary()
    }
}

impl From<Rows> for Records {
    /// The rows of a table; see [`Records::from_rows`].
    fn from(rows: Rows) -> (r: Records)
        ensures
            r@ == records_of(rows@),
    {
        Records::from_rows(rows)
    }
}

impl FromSpecImpl<Rows> for Records {
    open spec fn obeys_from_spec() -> bool {
        false
    }

    open spec fn from_spec(rows: Rows) -> Self {
        arbitrary()
    }
}

impl From<Rows> for PqlValue {
    /// A table as a value; see [`rows_value`].
    fn from(rows: Rows) -> (v: PqlValue)
        ensures
            v@ == rows_value(rows@),
    {
        rows.to_value()
    }
}

impl FromSpecImpl<Rows> for PqlValue {
    open spec fn obeys_from_spec() -> bool {
        false
    }

    open spec fn from_spec(rows: Rows) -> Self {
        arbitrary()
    }
}

impl From<Records> for PqlValue {
    /// Records as a value; see [`records_value`].
    fn from(records: Records) -> (v: PqlValue)
        ensures
            v@ == records_value(records@),
    {
        records.to_value()
    }
}

impl FromSpecImpl<Records> for PqlValue {
    open spec fn obeys_from_spec() -> bool {
        false
    }

    open spec fn from_spec(records: Records) -> Self {
        arbitrary()
    }
}

impl From<Vec<PqlValue>> for PqlValue {
    /// The array of the given elements.
    fn from(items: Vec<PqlValue>) -> (v: PqlValue)
        ensures
            v@ == Value::Array(views(items@)),
    {
        let v = PqlValue::Array(items);
        proof {
            lemma_view_items(v);
        }
        v
    }
}

impl FromSpecImpl<Vec<PqlValue>> for PqlValue {
    open spec fn obeys_from_spec() -> bool {
        false
    }

    open spec fn from_spec(items: Vec<PqlValue>) -> Self {
        arbitrary()
    }
}

} // verus!
