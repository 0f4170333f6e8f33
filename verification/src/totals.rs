//! The candidate count of a grid: the measure that shrinks with every
//! elimination, every hidden-single resolution and every guess, and so
//! bounds both the propagation loop and the depth of the search.

use vstd::prelude::*;
use crate::model::GridModel;

verus! {

/// Total number of candidates in one row of cells.
pub open spec fn row_total(r: Seq<Seq<u32>>) -> nat
    decreases r.len(),
{
    if r.len() == 0 {
        0
    } else {
        row_total(r.drop_last()) + r.last().len()
    }
}

/// Total number of candidates in the whole grid.
pub open spec fn grid_total(g: GridModel) -> nat
    decreases g.len(),
{
    if g.len() == 0 {
        0
    } else {
        grid_total(g.drop_last()) + row_total(g.last())
    }
}

/// Shape equality with cells no longer on the left than on the right.
pub open spec fn lens_le(g1: GridModel, g2: GridModel) -> bool {
    &&& g1.len() == g2.len()
    &&& forall|i: int| 0 <= i < g1.len() ==> (#[trigger] g1[i]).len() == g2[i].len()
    &&& forall|i: int, j: int|
        0 <= i < g1.len() && 0 <= j < g1[i].len()
            ==> (#[trigger] g1[i][j]).len() <= g2[i][j].len()
}

proof fn lemma_row_total_le(r1: Seq<Seq<u32>>, r2: Seq<Seq<u32>>)
    requires
        r1.len() == r2.len(),
        forall|k: int| 0 <= k < r1.len() ==> (#[trigger] r1[k]).len() <= r2[k].len(),
    ensures
        row_total(r1) <= row_total(r2),
    decreases r1.len(),
{
    if r1.len() > 0 {
        assert(forall|k: int|
            0 <= k < r1.drop_last().len()
                ==> (#[trigger] r1.drop_last()[k]).len() <= r2.drop_last()[k].len());
        lemma_row_total_le(r1.drop_last(), r2.drop_last());
    }
}

proof fn lemma_row_total_lt(r1: Seq<Seq<u32>>, r2: Seq<Seq<u32>>, k0: int)
    requires
        r1.len() == r2.len(),
        forall|k: int| 0 <= k < r1.len() ==> (#[trigger] r1[k]).len() <= r2[k].len(),
        0 <= k0 < r1.len(),
        r1[k0].len() < r2[k0].len(),
    ensures
        row_total(r1) < row_total(r2),
    decreases r1.len(),
{
    assert(forall|k: int|
        0 <= k < r1.drop_last().len()
            ==> (#[trigger] r1.drop_last()[k]).len() <= r2.drop_last()[k].len());
    if k0 == r1.len() - 1 {
        lemma_row_total_le(r1.drop_last(), r2.drop_last());
    } else {
        lemma_row_total_lt(r1.drop_last(), r2.drop_last(), k0);
    }
}

/// A grid whose cells are nowhere longer has no larger candidate count.
pub proof fn lemma_grid_total_le(g1: GridModel, g2: GridModel)
    requires
        lens_le(g1, g2),
    ensures
        grid_total(g1) <= grid_total(g2),
    decreases g1.len(),
{
    if g1.len() > 0 {
        let p1 = g1.drop_last();
        let p2 = g2.drop_last();
        assert(lens_le(p1, p2)) by {
            assert(forall|i: int| 0 <= i < p1.len() ==> (#[trigger] p1[i]).len() == p2[i].len());
            assert forall|i: int, j: int|
                0 <= i < p1.len() && 0 <= j < p1[i].len()
                implies (#[trigger] p1[i][j]).len() <= p2[i][j].len() by {
                assert(g1[i][j].len() <= g2[i][j].len());
            }
        }
        lemma_grid_total_le(p1, p2);
        let last1 = g1.last();
        let last2 = g2.last();
        assert(last1.len() == last2.len());
        assert forall|k: int| 0 <= k < last1.len()
            implies (#[trigger] last1[k]).len() <= last2[k].len() by {
            assert(g1[g1.len() - 1][k].len() <= g2[g2.len() - 1][k].len());
        }
        lemma_row_total_le(last1, last2);
    }
}

/// A grid whose cells are nowhere longer, and strictly shorter at one
/// position, has a strictly smaller candidate count.
pub proof fn lemma_grid_total_lt(g1: GridModel, g2: GridModel, i0: int, j0: int)
    requires
        lens_le(g1, g2),
        0 <= i0 < g1.len(),
        0 <= j0 < g1[i0].len(),
        g1[i0][j0].len() < g2[i0][j0].len(),
    ensures
        grid_total(g1) < grid_total(g2),
    decreases g1.len(),
{
    let p1 = g1.drop_last();
    let p2 = g2.drop_last();
    assert(lens_le(p1, p2)) by {
        assert(forall|i: int| 0 <= i < p1.len() ==> (#[trigger] p1[i]).len() == p2[i].len());
        assert forall|i: int, j: int|
            0 <= i < p1.len() && 0 <= j < p1[i].len()
            implies (#[trigger] p1[i][j]).len() <= p2[i][j].len() by {
            assert(g1[i][j].len() <= g2[i][j].len());
        }
    }
    let last1 = g1.last();
    let last2 = g2.last();
    assert(last1.len() == last2.len());
    assert forall|k: int| 0 <= k < last1.len()
        implies (#[trigger] last1[k]).len() <= last2[k].len() by {
        assert(g1[g1.len() - 1][k].len() <= g2[g2.len() - 1][k].len());
    }
    if i0 == g1.len() - 1 {
        lemma_grid_total_le(p1, p2);
        lemma_row_total_lt(last1, last2, j0);
    } else {
        lemma_grid_total_lt(p1, p2, i0, j0);
        lemma_row_total_le(last1, last2);
    }
}

/// Refinement implies the shape-and-length comparison that the candidate
/// count respects.
pub proof fn lemma_grid_le_lens_le(g1: GridModel, g2: GridModel)
    requires
        crate::model::grid_le(g1, g2),
    ensures
        lens_le(g1, g2),
{
    assert forall|i: int, j: int|
        0 <= i < g1.len() && 0 <= j < g1[i].len()
        implies (#[trigger] g1[i][j]).len() <= g2[i][j].len() by {
        assert(crate::model::cell_le(g1[i][j], g2[i][j]));
    }
}

} // verus!
