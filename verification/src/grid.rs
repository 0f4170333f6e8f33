//! The candidate grid: an n-by-n matrix of cells, each holding the
//! ascending sequence of symbols still possible for it, together with its
//! construction from an external matrix and the read-out of a solved grid.

use vstd::prelude::*;
use crate::model::{
    GridModel, cell_wf, full_alphabet, grid_wf, init_cell, init_rel, input_wf, out_rel, solved,
    symbol_ok,
};
use crate::laws::lemma_full_alphabet_wf;

verus! {

/// The single failure of the solver: the search exhausted every branch
/// without reaching a solved grid. An input whose pre-filled cells already
/// conflict is not distinguished from one that merely has no completion.
#[derive(Clone, Copy, Debug, PartialEq, Eq, Structural)]
pub enum SolveError {
    Unsolvable,
}

/// The mutable solving state: `n` rows of `n` cells, each cell the
/// ascending candidate sequence still possible for it.
pub struct Grid {
    pub n: usize,
    pub cells: Vec<Vec<Vec<u32>>>,
}

/// The cells of one stored row, read as sequences.
pub open spec fn row_view(r: Vec<Vec<u32>>) -> Seq<Seq<u32>> {
    r@.map_values(|c: Vec<u32>| c@)
}

/// The stored matrix, read as the spec-level grid model.
pub open spec fn grid_view(cells: Vec<Vec<Vec<u32>>>) -> GridModel {
    cells@.map_values(|r: Vec<Vec<u32>>| row_view(r))
}

impl View for Grid {
    type V = GridModel;

    open spec fn view(&self) -> GridModel {
        grid_view(self.cells)
    }
}

impl Grid {
    /// The structural invariant: the model is a well-formed n-by-n grid.
    pub open spec fn wf(&self) -> bool {
        grid_wf(self@, self.n as nat)
    }
}

/// An external matrix (a vector of rows), read as a spec-level matrix.
pub open spec fn rows_view(m: Seq<Vec<u32>>) -> Seq<Seq<u32>> {
    m.map_values(|r: Vec<u32>| r@)
}

/// Replace the cell at row `i`, column `j`; every other cell stays as it
/// was.
pub fn set_cell(g: &mut Grid, i: usize, j: usize, c: Vec<u32>)
    requires
        i < old(g).cells@.len(),
        j < old(g).cells@[i as int]@.len(),
    ensures
        final(g).n == old(g).n,
        final(g)@.len() == old(g)@.len(),
        final(g)@[i as int].len() == old(g)@[i as int].len(),
        final(g)@[i as int][j as int] == c@,
        forall|p: int| 0 <= p < old(g)@.len() && p != i ==> final(g)@[p] == old(g)@[p],
        forall|p: int, q: int|
            0 <= p < old(g)@.len() && 0 <= q < old(g)@[p].len() && !(p == i && q == j)
                ==> final(g)@[p][q] == old(g)@[p][q],
        forall|p: int| 0 <= p < old(g)@.len() ==> final(g)@[p].len() == old(g)@[p].len(),
{
    let ghost old_cells = g.cells@;
    let row = &mut g.cells[i];
    let slot = &mut row[j];
    *slot = c;
    proof {
        assert forall|p: int| 0 <= p < old_cells.len() && p != i
            implies g@[p] == old(g)@[p] by {
            assert(g.cells@[p] == old_cells[p]);
        }
        assert(g.cells@[i as int]@ == old_cells[i as int]@.update(j as int, c));
        assert(g@[i as int].len() == old(g)@[i as int].len());
        assert(g@[i as int][j as int] == c@);
        assert forall|q: int|
            0 <= q < old(g)@[i as int].len() && q != j
            implies g@[i as int][q] == old(g)@[i as int][q] by {
            assert(g.cells@[i as int]@[q] == old_cells[i as int]@[q]);
        }
    }
}

/// Copy one cell.
pub fn clone_cell(c: &Vec<u32>) -> (r: Vec<u32>)
    ensures
        r@ == c@,
{
    let mut r: Vec<u32> = Vec::new();
    let mut k: usize = 0;
    while k < c.len()
        invariant
            k <= c@.len(),
            r@ == c@.subrange(0, k as int),
        decreases c@.len() - k,
    {
        r.push(c[k]);
        k = k + 1;
        proof {
            assert(r@ =~= c@.subrange(0, k as int));
        }
    }
    proof {
        assert(c@.subrange(0, c@.len() as int) =~= c@);
    }
    r
}

/// Copy one row of cells.
fn clone_row(src: &Vec<Vec<u32>>) -> (r: Vec<Vec<u32>>)
    ensures
        row_view(r) == row_view(*src),
{
    let mut r: Vec<Vec<u32>> = Vec::new();
    let mut q: usize = 0;
    while q < src.len()
        invariant
            q <= src@.len(),
            r@.len() == q,
            forall|m: int| 0 <= m < q ==> (#[trigger] r@[m])@ == src@[m]@,
        decreases src@.len() - q,
    {
        r.push(clone_cell(&src[q]));
        q = q + 1;
    }
    proof {
        assert(row_view(r) =~= row_view(*src));
    }
    r
}

/// Copy the whole grid. Each search branch works on such an independent
/// copy, so branches never share mutable state.
pub fn clone_grid(g: &Grid) -> (r: Grid)
    ensures
        r.n == g.n,
        r@ == g@,
{
    let mut cells: Vec<Vec<Vec<u32>>> = Vec::new();
    let mut i: usize = 0;
    while i < g.cells.len()
        invariant
            i <= g.cells@.len(),
            cells@.len() == i,
            forall|p: int| 0 <= p < i ==> row_view(#[trigger] cells@[p]) == row_view(g.cells@[p]),
        decreases g.cells@.len() - i,
    {
        cells.push(clone_row(&g.cells[i]));
        i = i + 1;
    }
    let r = Grid { n: g.n, cells };
    proof {
        assert(r@ =~= g@);
    }
    r
}

/// The full alphabet {1..n} as a freshly built cell.
fn full_cell(n: usize) -> (c: Vec<u32>)
    requires
        n as nat <= u32::MAX as nat,
    ensures
        c@ == full_alphabet(n as nat),
{
    let mut c: Vec<u32> = Vec::new();
    let mut k: usize = 0;
    while k < n
        invariant
            k <= n,
            n as nat <= u32::MAX as nat,
            c@.len() == k,
            forall|m: int| 0 <= m < k ==> #[trigger] c@[m] == m + 1,
        decreases n - k,
    {
        c.push(k as u32 + 1);
        k = k + 1;
    }
    proof {
        assert(c@ =~= full_alphabet(n as nat));
    }
    c
}

/// Decide whether an external matrix is a well-formed n-by-n input, with n
/// its own row count: square, and every entry either 0 (unknown) or a
/// symbol of {1..n}.
pub fn well_formed_input(input: &Vec<Vec<u32>>) -> (r: bool)
    ensures
        r == input_wf(rows_view(input@), input@.len() as nat),
{
    let n = input.len();
    if n as u64 > u32::MAX as u64 {
        return false;
    }
    let mut i: usize = 0;
    while i < n
        invariant
            i <= n,
            n == input@.len(),
            n as nat <= u32::MAX as nat,
            forall|p: int| 0 <= p < i ==> (#[trigger] rows_view(input@)[p]).len() == n,
            forall|p: int, q: int|
                0 <= p < i && 0 <= q < rows_view(input@)[p].len()
                    ==> (#[trigger] rows_view(input@)[p][q]) == 0
                        || symbol_ok(rows_view(input@)[p][q], n as nat),
        decreases n - i,
    {
        let row = &input[i];
        if row.len() != n {
            proof {
                assert(rows_view(input@)[i as int].len() != n);
            }
            return false;
        }
        let mut j: usize = 0;
        while j < n
            invariant
                j <= n,
                i < n,
                n == input@.len(),
                n as nat <= u32::MAX as nat,
                row == &input[i as int],
                row@.len() == n,
                forall|q: int|
                    0 <= q < j ==> (#[trigger] row@[q]) == 0 || symbol_ok(row@[q], n as nat),
            decreases n - j,
        {
            let x = row[j];
            if !(x == 0 || (1 <= x && x as u64 <= n as u64)) {
                proof {
                    assert(rows_view(input@)[i as int][j as int] == x);
                }
                return false;
            }
            j = j + 1;
        }
        i = i + 1;
    }
    true
}

/// Build the initial candidate grid from an external matrix: an unknown
/// cell starts as the full alphabet, a pre-filled cell as the singleton of
/// its symbol. No validation happens here; a conflicting input surfaces
/// later as unsolvability.
pub fn from_input(input: &Vec<Vec<u32>>) -> (g: Grid)
    requires
        input_wf(rows_view(input@), input@.len() as nat),
    ensures
        g.n == input@.len(),
        g.wf(),
        init_rel(rows_view(input@), g@, g.n as nat),
{
    let n = input.len();
    let ghost m = rows_view(input@);
    let mut cells: Vec<Vec<Vec<u32>>> = Vec::new();
    let mut i: usize = 0;
    while i < n
        invariant
            i <= n,
            n == input@.len(),
            input_wf(m, n as nat),
            m == rows_view(input@),
            cells@.len() == i,
            forall|p: int| 0 <= p < i ==> row_view(#[trigger] cells@[p]).len() == n,
            forall|p: int, q: int|
                0 <= p < i && 0 <= q < n
                    ==> row_view(cells@[p])[q] == init_cell(#[trigger] m[p][q], n as nat),
        decreases n - i,
    {
        let mut row: Vec<Vec<u32>> = Vec::new();
        let mut j: usize = 0;
        while j < n
            invariant
                j <= n,
                i < n,
                n == input@.len(),
                input_wf(m, n as nat),
                m == rows_view(input@),
                row@.len() == j,
                forall|q: int|
                    0 <= q < j ==> (#[trigger] row@[q])@ == init_cell(m[i as int][q], n as nat),
            decreases n - j,
        {
            proof {
                assert(m[i as int] == input@[i as int]@);
                assert(input@[i as int]@.len() == n);
            }
            let x = input[i][j];
            assert(x == m[i as int][j as int]);
            if x == 0 {
                row.push(full_cell(n));
            } else {
                let mut single: Vec<u32> = Vec::new();
                single.push(x);
                proof {
                    assert(single@ =~= seq![x]);
                }
                row.push(single);
            }
            j = j + 1;
        }
        cells.push(row);
        i = i + 1;
    }
    let g = Grid { n, cells };
    proof {
        assert forall|p: int| 0 <= p < n implies (#[trigger] g@[p]).len() == n by {
            assert(row_view(g.cells@[p]).len() == n);
        }
        assert forall|p: int, q: int|
            0 <= p < m.len() && 0 <= q < m[p].len()
            implies #[trigger] g@[p][q] == init_cell(m[p][q], n as nat) by {
            assert(row_view(g.cells@[p])[q] == init_cell(m[p][q], n as nat));
        }
        assert(grid_wf(g@, n as nat)) by {
            assert forall|p: int, q: int|
                0 <= p < g@.len() && 0 <= q < g@[p].len()
                implies cell_wf(#[trigger] g@[p][q], n as nat) by {
                assert(g@[p][q] == init_cell(m[p][q], n as nat));
                lemma_full_alphabet_wf(n as nat);
                if m[p][q] != 0 {
                    assert(symbol_ok(m[p][q], n as nat));
                    assert(g@[p][q] == seq![m[p][q]]);
                }
            }
        }
    }
    g
}

/// Read the resolved symbol out of every cell of a solved grid.
pub fn to_output(g: &Grid) -> (out: Vec<Vec<u32>>)
    requires
        g.wf(),
        solved(g@),
    ensures
        out@.len() == g.n,
        out_rel(g@, rows_view(out@)),
{
    let n = g.n;
    let mut out: Vec<Vec<u32>> = Vec::new();
    let mut i: usize = 0;
    while i < n
        invariant
            i <= n,
            n == g.n,
            g.wf(),
            solved(g@),
            out@.len() == i,
            forall|p: int| 0 <= p < i ==> (#[trigger] out@[p])@.len() == n,
            forall|p: int, q: int|
                0 <= p < i && 0 <= q < n ==> out@[p]@[q] == (#[trigger] g@[p][q])[0],
        decreases n - i,
    {
        let mut row: Vec<u32> = Vec::new();
        let mut j: usize = 0;
        while j < n
            invariant
                j <= n,
                i < n,
                n == g.n,
                g.wf(),
                solved(g@),
                row@.len() == j,
                forall|q: int| 0 <= q < j ==> #[trigger] row@[q] == g@[i as int][q][0],
            decreases n - j,
        {
            assert(g@[i as int][j as int].len() == 1);
            assert(g.cells@[i as int]@[j as int]@ == g@[i as int][j as int]);
            let v = g.cells[i][j][0];
            row.push(v);
            j = j + 1;
        }
        out.push(row);
        i = i + 1;
    }
    out
}

} // verus!
