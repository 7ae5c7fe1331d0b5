//! The clauses that are kept as they were written: ORDER BY and LIMIT.
use vstd::prelude::*;

verus! {

/// `ORDER BY label ASC|DESC`, as a mathematical value.
pub struct OrderByModel {
    pub label: Seq<char>,
    pub is_asc: bool,
}

/// `ORDER BY label ASC|DESC`.
#[derive(Debug)]
pub struct OrderBy {
    pub label: String,
    pub is_asc: bool,
}

impl View for OrderBy {
    type V = OrderByModel;

    open spec fn view(&self) -> OrderByModel {
        OrderByModel { label: self.label@, is_asc: self.is_asc }
    }
}

impl Clone for OrderBy {
    fn clone(&self) -> (r: Self)
        ensures
            r@ == self@,
    {
        OrderBy { label: self.label.clone(), is_asc: self.is_asc }
    }
}

/// `LIMIT limit OFFSET offset`.
#[derive(Debug, Clone, Copy, PartialEq, Eq, Structural)]
pub struct Limit {
    pub limit: u64,
    pub offset: u64,
}

/// The rows that LIMIT leaves: the first `offset` rows are skipped and at
/// most `limit` of the rest are kept.
pub open spec fn limit_rows<T>(rows: Seq<T>, limit: nat, offset: nat) -> Seq<T> {
    let start = if offset <= rows.len() {
        offset
    } else {
        rows.len()
    };
    let end = if start + limit <= rows.len() {
        start + limit
    } else {
        rows.len()
    };
    rows.subrange(start as int, end as int)
}

/// LIMIT keeps at most `limit` rows, and exactly `limit` when there are
/// that many after the offset.
pub proof fn lemma_limit_rows<T>(rows: Seq<T>, limit: nat, offset: nat)
    ensures
        limit_rows(rows, limit, offset).len() <= limit,
        rows.len() >= limit + offset ==> limit_rows(rows, limit, offset).len() == limit,
        forall|i: int|
            0 <= i < limit_rows(rows, limit, offset).len() ==> #[trigger] limit_rows(
                rows,
                limit,
                offset,
            )[i] == rows[offset + i],
{
}

} // verus!
