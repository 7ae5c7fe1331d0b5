//! The cartesian product of index ranges.
use vstd::prelude::*;
use itertools::Itertools;

verus! {

/// Every way to pick one index below each of `lens`, in lexicographic
/// order: the last position varies fastest. The product of no ranges is
/// the one empty pick; a range of length zero leaves no pick at all.
pub open spec fn index_product(lens: Seq<int>) -> Seq<Seq<int>>
    decreases lens.len(),
{
    if lens.len() == 0 {
        seq![Seq::<int>::empty()]
    } else {
        let rest = index_product(lens.drop_first());
        let n = if lens[0] > 0 {
            lens[0] * rest.len()
        } else {
            0
        };
        Seq::new(n as nat, |k: int| seq![k / (rest.len() as int)] + rest[k % (rest.len() as int)])
    }
}

/// The lengths as mathematical integers.
pub open spec fn lens_view(lens: Seq<usize>) -> Seq<int> {
    Seq::new(lens.len(), |i: int| lens[i] as int)
}

/// The picks as sequences of mathematical integers.
pub open spec fn picks_view(picks: Seq<Vec<usize>>) -> Seq<Seq<int>> {
    Seq::new(picks.len(), |i: int| Seq::new(picks[i]@.len(), |j: int| picks[i]@[j] as int))
}

/// `Itertools::multi_cartesian_product` over the ranges `0..lens[i]`: the
/// picks come in lexicographic order, one empty pick when there is no
/// range, none when a range is empty.
#[verifier::external_body]
pub(crate) fn index_picks(lens: &Vec<usize>) -> (picks: Vec<Vec<usize>>)
    ensures
        picks_view(picks@) == index_product(lens_view(lens@)),
{
    lens.iter().map(|n| 0..*n).multi_cartesian_product().collect()
}

/// Every pick holds one index for each range, below that range's length.
pub proof fn lemma_index_product_bounds(lens: Seq<int>, r: int)
    requires
        0 <= r < index_product(lens).len(),
    ensures
        index_product(lens)[r].len() == lens.len(),
        forall|j: int| 0 <= j < lens.len() ==> 0 <= #[trigger] index_product(lens)[r][j] < lens[j],
    decreases lens.len(),
{
    if lens.len() > 0 {
        let rest = index_product(lens.drop_first());
        let m = rest.len() as int;
        assert(m > 0) by {
            if m == 0 {
                assert(lens[0] * m == 0) by (nonlinear_arith)
                    requires
                        m == 0,
                ;
            }
        }
        let q = r / m;
        let s = r % m;
        assert(0 <= s < m && 0 <= q < lens[0]) by (nonlinear_arith)
            requires
                0 <= r < lens[0] * m,
                m > 0,
                q == r / m,
                s == r % m,
        ;
        lemma_index_product_bounds(lens.drop_first(), s);
        let pick = index_product(lens)[r];
        assert(pick == seq![q] + rest[s]);
        assert forall|j: int| 0 <= j < lens.len() implies 0 <= #[trigger] pick[j] < lens[j] by {
            if j > 0 {
                assert(pick[j] == rest[s][j - 1]);
                assert(lens[j] == lens.drop_first()[j - 1]);
            }
        }
    }
}

} // verus!
