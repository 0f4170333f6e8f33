//! The solving driver: completion check, depth-first backtracking search,
//! and the external entry point.
//!
//! `solver` propagates to a fixpoint, and if the grid is not yet complete,
//! picks the first unresolved cell in row-major order and tries each of its
//! candidates in ascending order on an independent copy of the grid,
//! recursing on the copy and keeping the first branch that solves.

use vstd::prelude::*;
use crate::grid::{
    Grid, SolveError, clone_cell, clone_grid, from_input, rows_view, set_cell, to_output,
};
use crate::laws::{
    lemma_completion_cell_value, lemma_conflict_unsolvable, lemma_empty_cell_no_completion,
    lemma_input_latin, lemma_matrix_completion_init, lemma_out_latin, lemma_preserves,
    lemma_solved_fixpoint_latin,
};
use crate::model::{
    GridModel, cell_le, cell_wf, completes, grid_le, has_conflict, init_cell, input_wf, latin,
    lemma_contains_at, lemma_grid_le_after_set, lemma_grid_le_trans, lemma_wf_after_set,
    out_latin, preserves, same_but, singleton_grid, solved, symbol_ok,
};
use crate::propagate::propagate;
use crate::totals::{grid_total, lemma_grid_le_lens_le, lemma_grid_total_le, lemma_grid_total_lt};

verus! {

/// A grid is solved exactly when every cell is resolved to one symbol.
#[verifier::loop_isolation(false)]
pub fn is_solved(g: &Grid) -> (r: bool)
    requires
        g.wf(),
    ensures
        r == solved(g@),
{
    let n = g.n;
    let mut i: usize = 0;
    while i < n
        invariant
            i <= n,
            forall|p: int, q: int|
                0 <= p < i && 0 <= q < n ==> (#[trigger] g@[p][q]).len() == 1,
        decreases n - i,
    {
        let mut j: usize = 0;
        while j < n
            invariant
                i < n,
                j <= n,
                forall|p: int, q: int|
                    0 <= p < i && 0 <= q < n ==> (#[trigger] g@[p][q]).len() == 1,
                forall|q: int| 0 <= q < j ==> (#[trigger] g@[i as int][q]).len() == 1,
            decreases n - j,
        {
            proof {
                assert(g@[i as int][j as int] == g.cells@[i as int]@[j as int]@);
            }
            if g.cells[i][j].len() != 1 {
                return false;
            }
            j = j + 1;
        }
        i = i + 1;
    }
    true
}

/// The first cell, in row-major scan order, that still has more than one
/// candidate; `None` when no cell has (the grid is then solved or holds an
/// emptied, contradictory cell).
#[verifier::loop_isolation(false)]
fn first_unresolved(g: &Grid) -> (r: Option<(usize, usize)>)
    requires
        g.wf(),
    ensures
        match r {
            Option::Some(p) => p.0 < g.n && p.1 < g.n
                && g@[p.0 as int][p.1 as int].len() > 1,
            Option::None => forall|i: int, j: int|
                0 <= i < g@.len() && 0 <= j < g@[i].len()
                    ==> (#[trigger] g@[i][j]).len() <= 1,
        },
{
    let n = g.n;
    let mut i: usize = 0;
    while i < n
        invariant
            i <= n,
            forall|p: int, q: int|
                0 <= p < i && 0 <= q < n ==> (#[trigger] g@[p][q]).len() <= 1,
        decreases n - i,
    {
        let mut j: usize = 0;
        while j < n
            invariant
                i < n,
                j <= n,
                forall|p: int, q: int|
                    0 <= p < i && 0 <= q < n ==> (#[trigger] g@[p][q]).len() <= 1,
                forall|q: int| 0 <= q < j ==> (#[trigger] g@[i as int][q]).len() <= 1,
            decreases n - j,
        {
            proof {
                assert(g@[i as int][j as int] == g.cells@[i as int]@[j as int]@);
            }
            if g.cells[i][j].len() > 1 {
                return Option::Some((i, j));
            }
            j = j + 1;
        }
        i = i + 1;
    }
    Option::None
}

/// Does any cell's candidate set stand empty? Such a grid is
/// contradictory: no completion of it exists, and the branch that produced
/// it can be abandoned at once instead of searching on.
#[verifier::loop_isolation(false)]
fn has_empty_cell(g: &Grid) -> (r: bool)
    requires
        g.wf(),
    ensures
        r == exists|i: int, j: int|
            0 <= i < g@.len() && 0 <= j < g@[i].len() && (#[trigger] g@[i][j]).len() == 0,
{
    let n = g.n;
    let mut i: usize = 0;
    while i < n
        invariant
            i <= n,
            forall|p: int, q: int|
                0 <= p < i && 0 <= q < n ==> (#[trigger] g@[p][q]).len() != 0,
        decreases n - i,
    {
        let mut j: usize = 0;
        while j < n
            invariant
                i < n,
                j <= n,
                forall|p: int, q: int|
                    0 <= p < i && 0 <= q < n ==> (#[trigger] g@[p][q]).len() != 0,
                forall|q: int| 0 <= q < j ==> (#[trigger] g@[i as int][q]).len() != 0,
            decreases n - j,
        {
            proof {
                assert(g@[i as int][j as int] == g.cells@[i as int]@[j as int]@);
            }
            if g.cells[i][j].len() == 0 {
                return true;
            }
            j = j + 1;
        }
        i = i + 1;
    }
    false
}

/// Depth-first backtracking solve of the candidate grid, in place.
///
/// The solver succeeds if and only if some completion of the grid exists:
/// on success the grid is a Latin square refining the grid that was passed
/// in, and whenever any Latin square refines the grid that was passed in,
/// success is owed. A grid that is already a valid complete solution is
/// reported solved and left exactly as it was. A branch whose propagation
/// empties a cell is abandoned right away.
#[verifier::loop_isolation(false)]
pub fn solver(g: &mut Grid) -> (r: bool)
    requires
        old(g).wf(),
    ensures
        final(g).wf(),
        final(g).n == old(g).n,
        grid_le(final(g)@, old(g)@),
        r ==> latin(final(g)@, old(g).n as nat),
        (exists|s: GridModel| completes(s, old(g)@, old(g).n as nat)) ==> r,
        latin(old(g)@, old(g).n as nat) ==> r && final(g)@ == old(g)@,
    decreases grid_total(g@),
{
    let ghost g0 = old(g)@;
    let ghost nn = old(g).n as nat;
    propagate(g);
    if is_solved(g) {
        proof {
            lemma_solved_fixpoint_latin(g@, nn);
        }
        return true;
    }
    proof {
        if latin(g0, nn) {
            assert(g@ == g0);
            assert(solved(g@));
            assert(false);
        }
    }
    if has_empty_cell(g) {
        proof {
            let (wi, wj) = choose|wi: int, wj: int|
                0 <= wi < g@.len() && 0 <= wj < g@[wi].len() && (#[trigger] g@[wi][wj]).len()
                    == 0;
            lemma_empty_cell_no_completion(g@, nn, wi, wj);
            if exists|s: GridModel| completes(s, g0, nn) {
                let s = choose|s: GridModel| completes(s, g0, nn);
                assert(completes(s, g@, nn));
                assert(false);
            }
        }
        return false;
    }
    match first_unresolved(g) {
        Option::None => {
            proof {
                assert(solved(g@)) by {
                    assert forall|p: int, q: int|
                        0 <= p < g@.len() && 0 <= q < g@[p].len()
                        implies (#[trigger] g@[p][q]).len() == 1 by {
                        if g@[p][q].len() == 0 {
                            assert(exists|i2: int, j2: int|
                                0 <= i2 < g@.len() && 0 <= j2 < g@[i2].len()
                                    && (#[trigger] g@[i2][j2]).len() == 0);
                        }
                    }
                }
                assert(false);
            }
            false
        },
        Option::Some((ci, cj)) => {
            proof {
                assert(g@[ci as int][cj as int] == g.cells@[ci as int]@[cj as int]@);
            }
            let cand = clone_cell(&g.cells[ci][cj]);
            let clen = cand.len();
            let ghost g1 = g@;
            proof {
                assert forall|s: GridModel| #[trigger] completes(s, g1, nn)
                    implies exists|m: int|
                        0 <= m < clen && s[ci as int][cj as int][0] == cand@[m] by {
                    lemma_completion_cell_value(s, g1, nn, ci as int, cj as int);
                    let m = choose|m: int|
                        0 <= m < g1[ci as int][cj as int].len()
                            && g1[ci as int][cj as int][m] == s[ci as int][cj as int][0];
                    assert(0 <= m < clen && s[ci as int][cj as int][0] == cand@[m]);
                }
            }
            let mut k: usize = 0;
            while k < clen
                invariant
                    ci < g.n,
                    cj < g.n,
                    g.wf(),
                    g.n == old(g).n,
                    g@ == g1,
                    grid_le(g1, g0),
                    cand@ == g1[ci as int][cj as int],
                    clen == cand@.len(),
                    clen > 1,
                    k <= clen,
                    forall|s: GridModel|
                        #[trigger] completes(s, g1, nn)
                            ==> exists|m: int|
                            k <= m < clen && s[ci as int][cj as int][0] == cand@[m],
                decreases clen - k,
            {
                let mut copy = clone_grid(g);
                let mut single: Vec<u32> = Vec::new();
                single.push(cand[k]);
                proof {
                    assert(single@ =~= seq![cand@[k as int]]);
                    assert(cell_wf(g1[ci as int][cj as int], nn));
                    assert(symbol_ok(cand@[k as int], nn));
                    lemma_contains_at(cand@, k as int);
                }
                set_cell(&mut copy, ci, cj, single);
                proof {
                    assert(same_but(copy@, g1, ci as int, cj as int));
                    assert(cell_wf(copy@[ci as int][cj as int], nn));
                    lemma_wf_after_set(g1, copy@, nn, ci as int, cj as int);
                    assert(cell_le(copy@[ci as int][cj as int], g1[ci as int][cj as int]));
                    lemma_grid_le_after_set(g1, copy@, ci as int, cj as int);
                    lemma_grid_le_lens_le(copy@, g1);
                    lemma_grid_total_lt(copy@, g1, ci as int, cj as int);
                    lemma_grid_le_lens_le(g1, g0);
                    lemma_grid_total_le(g1, g0);
                }
                let ghost copy_entry = copy@;
                if solver(&mut copy) {
                    proof {
                        lemma_grid_le_trans(copy@, copy_entry, g1);
                        lemma_grid_le_trans(copy@, g1, g0);
                    }
                    *g = copy;
                    return true;
                }
                proof {
                    assert forall|s: GridModel| #[trigger] completes(s, g1, nn)
                        implies exists|m: int|
                            k + 1 <= m < clen && s[ci as int][cj as int][0] == cand@[m] by {
                        let m = choose|m: int|
                            k <= m < clen && s[ci as int][cj as int][0] == cand@[m];
                        if s[ci as int][cj as int][0] == cand@[k as int] {
                            assert(completes(s, copy_entry, nn)) by {
                                lemma_completion_cell_value(s, g1, nn, ci as int, cj as int);
                                assert(grid_le(s, copy_entry)) by {
                                    assert forall|p: int, q: int|
                                        0 <= p < s.len() && 0 <= q < s[p].len()
                                        implies cell_le(#[trigger] s[p][q], copy_entry[p][q])
                                        by {
                                        if p == ci as int && q == cj as int {
                                            assert(copy_entry[p][q]
                                                == seq![cand@[k as int]]);
                                            assert(copy_entry[p][q][0]
                                                == s[ci as int][cj as int][0]);
                                            lemma_contains_at(copy_entry[p][q], 0);
                                            assert forall|k2: int|
                                                0 <= k2 < s[p][q].len()
                                                implies copy_entry[p][q].contains(
                                                #[trigger] s[p][q][k2]) by {
                                                assert(k2 == 0);
                                            }
                                        } else {
                                            assert(copy_entry[p][q] == g1[p][q]);
                                            assert(cell_le(s[p][q], g1[p][q]));
                                        }
                                    }
                                }
                            }
                            assert(false);
                        }
                        assert(m != k);
                    }
                }
                k = k + 1;
            }
            proof {
                if exists|s: GridModel| completes(s, g0, nn) {
                    let s = choose|s: GridModel| completes(s, g0, nn);
                    assert(completes(s, g1, nn));
                    assert(false);
                }
            }
            false
        },
    }
}

/// Solve an external grid. An entry 0 marks an unknown cell; any other
/// entry pre-fills its cell with that symbol of the alphabet {1..n}, with n
/// the row count of the grid.
///
/// On success the returned matrix is a complete Latin square in which every
/// pre-filled cell keeps its symbol, and the input is then necessarily free
/// of row or column conflicts among its pre-filled cells. Success is owed
/// whenever any such completion exists, so the one error, `Unsolvable`,
/// comes back exactly when the input has no completion. An input that is
/// already a complete valid grid comes back unchanged.
pub fn solve_grid(grid: Vec<Vec<u32>>) -> (r: Result<Vec<Vec<u32>>, SolveError>)
    requires
        input_wf(rows_view(grid@), grid@.len() as nat),
    ensures
        match r {
            Result::Ok(out) => {
                &&& out_latin(rows_view(out@), grid@.len() as nat)
                &&& preserves(rows_view(grid@), rows_view(out@))
                &&& !has_conflict(rows_view(grid@))
            },
            Result::Err(e) => e == SolveError::Unsolvable,
        },
        (exists|c: Seq<Seq<u32>>|
            #[trigger] out_latin(c, grid@.len() as nat) && preserves(rows_view(grid@), c))
            ==> (r matches Result::Ok(_)),
        out_latin(rows_view(grid@), grid@.len() as nat)
            ==> (r matches Result::Ok(out) && rows_view(out@) == rows_view(grid@)),
{
    let ghost inp = rows_view(grid@);
    let ghost nn = grid@.len() as nat;
    let mut g = from_input(&grid);
    let ghost ginit = g@;
    let ok = solver(&mut g);
    if ok {
        proof {
            assert(solved(g@));
        }
        let out = to_output(&g);
        proof {
            lemma_out_latin(g@, rows_view(out@), nn);
            lemma_preserves(inp, ginit, g@, rows_view(out@), nn);
            lemma_conflict_unsolvable(inp, rows_view(out@), nn);
            if out_latin(inp, nn) {
                lemma_input_latin(inp, ginit, nn);
                assert(g@ == ginit);
                assert forall|i: int, j: int|
                    0 <= i < nn && 0 <= j < nn
                    implies rows_view(out@)[i][j] == inp[i][j] by {
                    assert(symbol_ok(inp[i][j], nn));
                    assert(ginit[i][j] == init_cell(inp[i][j], nn));
                    assert(ginit[i][j] == seq![inp[i][j]]);
                    assert(rows_view(out@)[i][j] == g@[i][j][0]);
                }
                assert(rows_view(out@) =~~= inp);
            }
        }
        Result::Ok(out)
    } else {
        proof {
            if out_latin(inp, nn) {
                lemma_input_latin(inp, ginit, nn);
                assert(false);
            }
            if exists|c: Seq<Seq<u32>>| #[trigger] out_latin(c, nn) && preserves(inp, c) {
                let c = choose|c: Seq<Seq<u32>>|
                    #[trigger] out_latin(c, nn) && preserves(inp, c);
                lemma_matrix_completion_init(inp, c, ginit, nn);
                assert(completes(singleton_grid(c), ginit, nn));
                assert(exists|s: GridModel| completes(s, ginit, nn));
                assert(false);
            }
        }
        Result::Err(SolveError::Unsolvable)
    }
}

} // verus!
