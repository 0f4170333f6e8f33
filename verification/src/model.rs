//! The mathematical model of a candidate grid.
//!
//! A cell is the sequence of symbols still possible for it, kept in strictly
//! ascending order; a grid is an n-by-n matrix of such cells. The alphabet of
//! an n-by-n grid is {1, ..., n}.

use vstd::prelude::*;

verus! {

/// The spec-level picture of a candidate grid: rows of cells, each cell a
/// strictly ascending sequence of candidate symbols.
pub type GridModel = Seq<Seq<Seq<u32>>>;

/// `v` is a symbol of the alphabet {1..n}.
pub open spec fn symbol_ok(v: u32, n: nat) -> bool {
    1 <= v && v as nat <= n
}

/// A well-formed cell: strictly ascending candidates, all in the alphabet.
pub open spec fn cell_wf(c: Seq<u32>, n: nat) -> bool {
    &&& forall|k: int| 0 <= k < c.len() ==> symbol_ok(#[trigger] c[k], n)
    &&& forall|k1: int, k2: int|
        0 <= k1 < k2 < c.len() ==> #[trigger] c[k1] < #[trigger] c[k2]
}

/// A well-formed grid: n rows of n well-formed cells each.
pub open spec fn grid_wf(g: GridModel, n: nat) -> bool {
    &&& g.len() == n
    &&& forall|i: int| 0 <= i < g.len() ==> (#[trigger] g[i]).len() == n
    &&& forall|i: int, j: int|
        0 <= i < g.len() && 0 <= j < g[i].len() ==> cell_wf(#[trigger] g[i][j], n)
}

/// `c1` is a sub-cell of `c2`: no more candidates, and every candidate of
/// `c1` is one of `c2`.
pub open spec fn cell_le(c1: Seq<u32>, c2: Seq<u32>) -> bool {
    &&& c1.len() <= c2.len()
    &&& forall|k: int| 0 <= k < c1.len() ==> c2.contains(#[trigger] c1[k])
}

/// `g1` refines `g2`: same shape, and each cell of `g1` is a sub-cell of the
/// matching cell of `g2`. Propagation and search only ever shrink cells, so
/// every grid the solver produces refines the grid it started from.
pub open spec fn grid_le(g1: GridModel, g2: GridModel) -> bool {
    &&& g1.len() == g2.len()
    &&& forall|i: int| 0 <= i < g1.len() ==> (#[trigger] g1[i]).len() == g2[i].len()
    &&& forall|i: int, j: int|
        0 <= i < g1.len() && 0 <= j < g1[i].len()
            ==> cell_le(#[trigger] g1[i][j], g2[i][j])
}

/// Every cell is resolved to exactly one symbol.
pub open spec fn solved(g: GridModel) -> bool {
    forall|i: int, j: int|
        0 <= i < g.len() && 0 <= j < g[i].len() ==> (#[trigger] g[i][j]).len() == 1
}

/// No further naked-single elimination applies within any row: the symbol of
/// a resolved cell is absent from every other cell of its row.
pub open spec fn row_fixpoint(g: GridModel) -> bool {
    forall|i: int, j: int, k: int|
        0 <= i < g.len() && 0 <= j < g[i].len() && 0 <= k < g[i].len() && j != k
            && g[i][j].len() == 1
            ==> !(#[trigger] g[i][k]).contains((#[trigger] g[i][j])[0])
}

/// No further naked-single elimination applies within any column.
pub open spec fn col_fixpoint(g: GridModel) -> bool {
    forall|i: int, j: int, k: int|
        0 <= i < g.len() && 0 <= j < g[i].len() && 0 <= k < g.len() && i != k
            && j < g[k].len() && g[i][j].len() == 1
            ==> !(#[trigger] g[k][j]).contains((#[trigger] g[i][j])[0])
}

/// Within each row, resolved symbols are pairwise distinct.
pub open spec fn row_distinct(g: GridModel) -> bool {
    forall|i: int, j: int, k: int|
        0 <= i < g.len() && 0 <= j < k < g[i].len()
            ==> (#[trigger] g[i][j])[0] != (#[trigger] g[i][k])[0]
}

/// Within each column, resolved symbols are pairwise distinct.
pub open spec fn col_distinct(g: GridModel) -> bool {
    forall|i: int, j: int, k: int|
        0 <= j < g.len() && 0 <= i < k < g.len() && j < g[i].len() && j < g[k].len()
            ==> (#[trigger] g[i][j])[0] != (#[trigger] g[k][j])[0]
}

/// Row `i` resolves to symbol `v` somewhere.
pub open spec fn row_has(g: GridModel, i: int, v: u32) -> bool {
    exists|j: int| 0 <= j < (#[trigger] g[i]).len() && (#[trigger] g[i][j])[0] == v
}

/// Column `j` resolves to symbol `v` somewhere.
pub open spec fn col_has(g: GridModel, j: int, v: u32) -> bool {
    exists|i: int| 0 <= i < g.len() && j < (#[trigger] g[i]).len() && (#[trigger] g[i][j])[0] == v
}

/// Every row holds every alphabet symbol in some resolved cell.
pub open spec fn row_complete(g: GridModel, n: nat) -> bool {
    forall|i: int, v: u32|
        0 <= i < g.len() && symbol_ok(v, n) ==> #[trigger] row_has(g, i, v)
}

/// Every column holds every alphabet symbol in some resolved cell.
pub open spec fn col_complete(g: GridModel, n: nat) -> bool {
    forall|j: int, v: u32|
        0 <= j < g.len() && symbol_ok(v, n) ==> #[trigger] col_has(g, j, v)
}

/// A solved grid whose rows and columns are each a permutation of the
/// alphabet: the generalized Latin-square property.
pub open spec fn latin(g: GridModel, n: nat) -> bool {
    &&& grid_wf(g, n)
    &&& solved(g)
    &&& row_distinct(g)
    &&& col_distinct(g)
    &&& row_complete(g, n)
    &&& col_complete(g, n)
}

/// A well-formed external grid: an n-by-n matrix whose entries are either 0
/// (an unknown cell) or a symbol of the alphabet. The bound on n is the
/// machine limit of the symbol representation.
pub open spec fn input_wf(m: Seq<Seq<u32>>, n: nat) -> bool {
    &&& m.len() == n
    &&& n <= u32::MAX
    &&& forall|i: int| 0 <= i < m.len() ==> (#[trigger] m[i]).len() == n
    &&& forall|i: int, j: int|
        0 <= i < m.len() && 0 <= j < m[i].len()
            ==> (#[trigger] m[i][j]) == 0 || symbol_ok(m[i][j], n)
}

/// The full alphabet {1..n} as an ascending candidate sequence.
pub open spec fn full_alphabet(n: nat) -> Seq<u32> {
    Seq::new(n, |k: int| (k + 1) as u32)
}

/// The candidate cell an external entry starts from: the full alphabet for
/// an unknown cell, the singleton of its symbol for a pre-filled one.
pub open spec fn init_cell(x: u32, n: nat) -> Seq<u32> {
    if x == 0 {
        full_alphabet(n)
    } else {
        seq![x]
    }
}

/// `g` is the candidate grid initialized from the external matrix `m`.
pub open spec fn init_rel(m: Seq<Seq<u32>>, g: GridModel, n: nat) -> bool {
    &&& g.len() == n
    &&& forall|i: int| 0 <= i < g.len() ==> (#[trigger] g[i]).len() == n
    &&& forall|i: int, j: int|
        0 <= i < m.len() && 0 <= j < m[i].len() ==> #[trigger] g[i][j] == init_cell(m[i][j], n)
}

/// `m` reads off the resolved symbol of every cell of `g`.
pub open spec fn out_rel(g: GridModel, m: Seq<Seq<u32>>) -> bool {
    &&& m.len() == g.len()
    &&& forall|i: int| 0 <= i < m.len() ==> (#[trigger] m[i]).len() == g[i].len()
    &&& forall|i: int, j: int|
        0 <= i < m.len() && 0 <= j < m[i].len() ==> #[trigger] m[i][j] == g[i][j][0]
}

/// Row `i` of the external matrix holds symbol `v`.
pub open spec fn out_row_has(m: Seq<Seq<u32>>, i: int, v: u32) -> bool {
    exists|j: int| 0 <= j < (#[trigger] m[i]).len() && m[i][j] == v
}

/// Column `j` of the external matrix holds symbol `v`.
pub open spec fn out_col_has(m: Seq<Seq<u32>>, j: int, v: u32) -> bool {
    exists|i: int| 0 <= i < m.len() && j < (#[trigger] m[i]).len() && m[i][j] == v
}

/// The external matrix is a Latin square over {1..n}: square, every entry a
/// symbol, and every row and column a permutation of the alphabet.
pub open spec fn out_latin(m: Seq<Seq<u32>>, n: nat) -> bool {
    &&& m.len() == n
    &&& forall|i: int| 0 <= i < m.len() ==> (#[trigger] m[i]).len() == n
    &&& forall|i: int, j: int|
        0 <= i < m.len() && 0 <= j < m[i].len() ==> symbol_ok(#[trigger] m[i][j], n)
    &&& forall|i: int, j: int, k: int|
        0 <= i < m.len() && 0 <= j < k < m[i].len()
            ==> #[trigger] m[i][j] != #[trigger] m[i][k]
    &&& forall|i: int, j: int, k: int|
        0 <= j < m.len() && 0 <= i < k < m.len() && j < m[i].len() && j < m[k].len()
            ==> #[trigger] m[i][j] != #[trigger] m[k][j]
    &&& forall|i: int, v: u32|
        0 <= i < m.len() && symbol_ok(v, n) ==> #[trigger] out_row_has(m, i, v)
    &&& forall|j: int, v: u32|
        0 <= j < m.len() && symbol_ok(v, n) ==> #[trigger] out_col_has(m, j, v)
}

/// Every pre-filled entry of the input keeps its symbol in the output.
pub open spec fn preserves(inp: Seq<Seq<u32>>, m: Seq<Seq<u32>>) -> bool {
    forall|i: int, j: int|
        0 <= i < inp.len() && 0 <= j < inp[i].len() && (#[trigger] inp[i][j]) != 0
            ==> #[trigger] m[i][j] == inp[i][j]
}

/// Two cells of one row, or of one column, are pre-filled with the same
/// symbol: such an input admits no valid completion.
pub open spec fn has_conflict(inp: Seq<Seq<u32>>) -> bool {
    ||| exists|i: int, j: int, k: int|
        0 <= i < inp.len() && 0 <= j < k < inp[i].len() && (#[trigger] inp[i][j]) != 0
            && inp[i][j] == #[trigger] inp[i][k]
    ||| exists|i: int, j: int, k: int|
        0 <= i < k < inp.len() && 0 <= j < inp[i].len() && j < inp[k].len()
            && (#[trigger] inp[i][j]) != 0 && inp[i][j] == #[trigger] inp[k][j]
}

/// `s` is a completion of the candidate grid `g`: a Latin square each of
/// whose resolved cells picks one of the candidates `g` still offers.
pub open spec fn completes(s: GridModel, g: GridModel, n: nat) -> bool {
    &&& latin(s, n)
    &&& grid_le(s, g)
}

/// The candidate grid whose every cell is the singleton of the matching
/// entry of the external matrix `c`.
pub open spec fn singleton_grid(c: Seq<Seq<u32>>) -> GridModel {
    Seq::new(c.len(), |i: int| Seq::new(c[i].len(), |j: int| seq![c[i][j]]))
}

/// A sequence contains the element it holds at index `k`.
pub proof fn lemma_contains_at(c: Seq<u32>, k: int)
    requires
        0 <= k < c.len(),
    ensures
        c.contains(c[k]),
{
    assert(0 <= k < c.len() && c[k] == c[k]);
}

/// Every cell is a sub-cell of itself.
pub proof fn lemma_cell_le_refl(c: Seq<u32>)
    ensures
        cell_le(c, c),
{
    assert forall|k: int| 0 <= k < c.len() implies c.contains(#[trigger] c[k]) by {
        lemma_contains_at(c, k);
    }
}

/// Refinement of cells is transitive.
pub proof fn lemma_cell_le_trans(c1: Seq<u32>, c2: Seq<u32>, c3: Seq<u32>)
    requires
        cell_le(c1, c2),
        cell_le(c2, c3),
    ensures
        cell_le(c1, c3),
{
    assert forall|k: int| 0 <= k < c1.len() implies c3.contains(#[trigger] c1[k]) by {
        let m = choose|m: int| 0 <= m < c2.len() && c2[m] == c1[k];
        assert(c3.contains(c2[m]));
    }
}

/// Every grid refines itself.
pub proof fn lemma_grid_le_refl(g: GridModel)
    ensures
        grid_le(g, g),
{
    assert forall|i: int, j: int|
        0 <= i < g.len() && 0 <= j < g[i].len() implies cell_le(#[trigger] g[i][j], g[i][j]) by {
        lemma_cell_le_refl(g[i][j]);
    }
}

/// Refinement of grids is transitive.
pub proof fn lemma_grid_le_trans(g1: GridModel, g2: GridModel, g3: GridModel)
    requires
        grid_le(g1, g2),
        grid_le(g2, g3),
    ensures
        grid_le(g1, g3),
{
    assert forall|i: int, j: int|
        0 <= i < g1.len() && 0 <= j < g1[i].len()
        implies cell_le(#[trigger] g1[i][j], g3[i][j]) by {
        assert(cell_le(g1[i][j], g2[i][j]));
        assert(cell_le(g2[i][j], g3[i][j]));
        lemma_cell_le_trans(g1[i][j], g2[i][j], g3[i][j]);
    }
}

/// Shape equality with every cell equal except possibly the one at (i, j).
pub open spec fn same_but(g1: GridModel, g2: GridModel, i: int, j: int) -> bool {
    &&& g1.len() == g2.len()
    &&& forall|p: int| 0 <= p < g1.len() ==> (#[trigger] g1[p]).len() == g2[p].len()
    &&& forall|p: int, q: int|
        0 <= p < g1.len() && 0 <= q < g1[p].len() && !(p == i && q == j)
            ==> #[trigger] g1[p][q] == g2[p][q]
}

/// Replacing one cell with a well-formed one keeps the grid well-formed.
pub proof fn lemma_wf_after_set(g0: GridModel, g1: GridModel, n: nat, i: int, j: int)
    requires
        grid_wf(g0, n),
        same_but(g1, g0, i, j),
        0 <= i < g1.len(),
        0 <= j < g1[i].len(),
        cell_wf(g1[i][j], n),
    ensures
        grid_wf(g1, n),
{
    assert forall|p: int, q: int|
        0 <= p < g1.len() && 0 <= q < g1[p].len() implies cell_wf(#[trigger] g1[p][q], n) by {
        if !(p == i && q == j) {
            assert(g1[p][q] == g0[p][q]);
            assert(cell_wf(g0[p][q], n));
        }
    }
}

/// Shrinking one cell to a sub-cell refines the grid.
pub proof fn lemma_grid_le_after_set(g0: GridModel, g1: GridModel, i: int, j: int)
    requires
        same_but(g1, g0, i, j),
        0 <= i < g1.len(),
        0 <= j < g1[i].len(),
        cell_le(g1[i][j], g0[i][j]),
    ensures
        grid_le(g1, g0),
{
    assert forall|p: int, q: int|
        0 <= p < g1.len() && 0 <= q < g1[p].len()
        implies cell_le(#[trigger] g1[p][q], g0[p][q]) by {
        if !(p == i && q == j) {
            assert(g1[p][q] == g0[p][q]);
            lemma_cell_le_refl(g1[p][q]);
        }
    }
}

/// In a well-formed cell the candidates are pairwise distinct.
pub proof fn lemma_cell_wf_distinct(c: Seq<u32>, n: nat)
    requires
        cell_wf(c, n),
    ensures
        forall|k1: int, k2: int|
            0 <= k1 < c.len() && 0 <= k2 < c.len() && k1 != k2
                ==> #[trigger] c[k1] != #[trigger] c[k2],
{
}

} // verus!
