//! The central facts about solved grids.
//!
//! A solved grid at a naked-single fixpoint is a Latin square: pairwise
//! distinctness falls out of the fixpoint, and a pigeonhole argument turns
//! distinctness into completeness. A consequence stated here as well: an
//! input whose pre-filled cells already conflict admits no valid solution
//! that preserves them.

use vstd::prelude::*;
use crate::model::{
    GridModel, cell_le, cell_wf, col_complete, col_distinct, col_fixpoint, col_has, completes,
    full_alphabet, grid_le, grid_wf, has_conflict, init_cell, init_rel, input_wf, latin,
    lemma_cell_le_refl, lemma_contains_at, out_col_has, out_latin, out_rel, out_row_has,
    preserves, row_complete, row_distinct, row_fixpoint, row_has, same_but, singleton_grid,
    solved, symbol_ok,
};

verus! {

/// n distinct values out of an alphabet of n symbols cover the alphabet.
pub proof fn lemma_pigeonhole(vs: Seq<u32>, n: nat)
    requires
        vs.len() == n,
        forall|k: int| 0 <= k < vs.len() ==> symbol_ok(#[trigger] vs[k], n),
        forall|k1: int, k2: int|
            0 <= k1 < vs.len() && 0 <= k2 < vs.len() && k1 != k2
                ==> #[trigger] vs[k1] != #[trigger] vs[k2],
    ensures
        forall|v: u32| symbol_ok(v, n) ==> vs.contains(v),
{
    broadcast use vstd::seq_lib::seq_to_set_is_finite;
    broadcast use vstd::set::group_set_axioms;

    let si = vs.map_values(|x: u32| x as int);
    assert(si.len() == n);
    assert(si.no_duplicates()) by {
        assert forall|k1: int, k2: int|
            0 <= k1 < si.len() && 0 <= k2 < si.len() && k1 != k2
            implies si[k1] != si[k2] by {
            assert(vs[k1] != vs[k2]);
        }
    }
    si.unique_seq_to_set();
    let s = si.to_set();
    let r = vstd::set_lib::set_int_range(1, n as int + 1);
    vstd::set_lib::lemma_int_range(1, n as int + 1);
    assert(s.len() == n);
    assert(r.len() == n);
    assert forall|v: u32| symbol_ok(v, n) implies vs.contains(v) by {
        if !s.contains(v as int) {
            let r2 = r.remove(v as int);
            assert(r2.len() == n - 1);
            assert(s.subset_of(r2)) by {
                assert forall|x: int| s.contains(x) implies r2.contains(x) by {
                    let k = choose|k: int| 0 <= k < si.len() && si[k] == x;
                    assert(symbol_ok(vs[k], n));
                    assert(x != v as int);
                };
            }
            vstd::set_lib::lemma_len_subset(s, r2);
            assert(false);
        }
        let k = choose|k: int| 0 <= k < si.len() && si[k] == v as int;
        assert(vs[k] == v);
    }
}

/// A solved, well-formed grid at the naked-single fixpoint is a Latin
/// square: every row and every column is a permutation of the alphabet.
pub proof fn lemma_solved_fixpoint_latin(g: GridModel, n: nat)
    requires
        grid_wf(g, n),
        solved(g),
        row_fixpoint(g),
        col_fixpoint(g),
    ensures
        latin(g, n),
{
    assert(row_distinct(g)) by {
        assert forall|i: int, j: int, k: int|
            0 <= i < g.len() && 0 <= j < k < g[i].len()
            implies (#[trigger] g[i][j])[0] != (#[trigger] g[i][k])[0] by {
            if g[i][j][0] == g[i][k][0] {
                assert(!g[i][k].contains(g[i][j][0]));
                lemma_contains_at(g[i][k], 0);
                assert(false);
            }
        }
    }
    assert(col_distinct(g)) by {
        assert forall|i: int, j: int, k: int|
            0 <= j < g.len() && 0 <= i < k < g.len() && j < g[i].len() && j < g[k].len()
            implies (#[trigger] g[i][j])[0] != (#[trigger] g[k][j])[0] by {
            if g[i][j][0] == g[k][j][0] {
                assert(!g[k][j].contains(g[i][j][0]));
                lemma_contains_at(g[k][j], 0);
                assert(false);
            }
        }
    }
    assert(row_complete(g, n)) by {
        assert forall|i: int, v: u32|
            0 <= i < g.len() && symbol_ok(v, n) implies #[trigger] row_has(g, i, v) by {
            let vs = Seq::new(n, |j: int| g[i][j][0]);
            assert forall|k: int| 0 <= k < vs.len() implies symbol_ok(#[trigger] vs[k], n) by {
                assert(cell_wf(g[i][k], n));
                assert(symbol_ok(g[i][k][0], n));
            }
            assert forall|k1: int, k2: int|
                0 <= k1 < vs.len() && 0 <= k2 < vs.len() && k1 != k2
                implies #[trigger] vs[k1] != #[trigger] vs[k2] by {
                if k1 < k2 {
                    assert(g[i][k1][0] != g[i][k2][0]);
                } else {
                    assert(g[i][k2][0] != g[i][k1][0]);
                }
            }
            lemma_pigeonhole(vs, n);
            assert(vs.contains(v));
            let j = choose|j: int| 0 <= j < vs.len() && vs[j] == v;
            assert(g[i][j][0] == v);
        }
    }
    assert(col_complete(g, n)) by {
        assert forall|j: int, v: u32|
            0 <= j < g.len() && symbol_ok(v, n) implies #[trigger] col_has(g, j, v) by {
            let vs = Seq::new(n, |i: int| g[i][j][0]);
            assert forall|k: int| 0 <= k < vs.len() implies symbol_ok(#[trigger] vs[k], n) by {
                assert(cell_wf(g[k][j], n));
                assert(symbol_ok(g[k][j][0], n));
            }
            assert forall|k1: int, k2: int|
                0 <= k1 < vs.len() && 0 <= k2 < vs.len() && k1 != k2
                implies #[trigger] vs[k1] != #[trigger] vs[k2] by {
                if k1 < k2 {
                    assert(g[k1][j][0] != g[k2][j][0]);
                } else {
                    assert(g[k2][j][0] != g[k1][j][0]);
                }
            }
            lemma_pigeonhole(vs, n);
            let i = choose|i: int| 0 <= i < vs.len() && vs[i] == v;
            assert(g[i][j][0] == v);
        }
    }
}

/// A resolved cell is never re-expanded: under refinement it either keeps
/// its one symbol or is emptied by a contradiction, and a cell that is
/// still resolved holds the same symbol.
pub proof fn lemma_resolved_never_reexpanded(g1: GridModel, g2: GridModel, i: int, j: int)
    requires
        grid_le(g1, g2),
        0 <= i < g2.len(),
        0 <= j < g2[i].len(),
        g2[i][j].len() == 1,
    ensures
        g1[i][j].len() <= 1,
        g1[i][j].len() == 1 ==> g1[i][j][0] == g2[i][j][0],
{
    assert(cell_le(g1[i][j], g2[i][j]));
    if g1[i][j].len() == 1 {
        assert(g2[i][j].contains(g1[i][j][0]));
        let k = choose|k: int| 0 <= k < g2[i][j].len() && g2[i][j][k] == g1[i][j][0];
        assert(k == 0);
    }
}

/// The full alphabet is a well-formed cell of n candidates.
pub proof fn lemma_full_alphabet_wf(n: nat)
    requires
        n <= u32::MAX,
    ensures
        cell_wf(full_alphabet(n), n),
        full_alphabet(n).len() == n,
{
    let c = full_alphabet(n);
    assert forall|k: int| 0 <= k < c.len() implies symbol_ok(#[trigger] c[k], n) by {
        assert(c[k] == (k + 1) as u32);
    }
    assert forall|k1: int, k2: int|
        0 <= k1 < k2 < c.len() implies #[trigger] c[k1] < #[trigger] c[k2] by {
        assert(c[k1] == (k1 + 1) as u32);
        assert(c[k2] == (k2 + 1) as u32);
    }
}

/// Reading the resolved symbols of a Latin candidate grid yields a Latin
/// external matrix.
pub proof fn lemma_out_latin(g: GridModel, m: Seq<Seq<u32>>, n: nat)
    requires
        latin(g, n),
        out_rel(g, m),
    ensures
        out_latin(m, n),
{
    assert forall|i: int, v: u32|
        0 <= i < m.len() && symbol_ok(v, n) implies #[trigger] out_row_has(m, i, v) by {
        assert(row_has(g, i, v));
        let j = choose|j: int| 0 <= j < g[i].len() && g[i][j][0] == v;
        assert(m[i][j] == v);
    }
    assert forall|j: int, v: u32|
        0 <= j < m.len() && symbol_ok(v, n) implies #[trigger] out_col_has(m, j, v) by {
        assert(col_has(g, j, v));
        let i = choose|i: int| 0 <= i < g.len() && j < g[i].len() && g[i][j][0] == v;
        assert(m[i][j] == v);
    }
}

/// A solved refinement of the initial candidate grid keeps every pre-filled
/// entry: the singleton cell of a pre-filled entry can only shrink to
/// itself.
pub proof fn lemma_preserves(
    inp: Seq<Seq<u32>>,
    g0: GridModel,
    gf: GridModel,
    m: Seq<Seq<u32>>,
    n: nat,
)
    requires
        inp.len() == n,
        forall|i: int| 0 <= i < inp.len() ==> (#[trigger] inp[i]).len() == n,
        init_rel(inp, g0, n),
        grid_le(gf, g0),
        solved(gf),
        out_rel(gf, m),
    ensures
        preserves(inp, m),
{
    assert forall|i: int, j: int|
        0 <= i < inp.len() && 0 <= j < inp[i].len() && (#[trigger] inp[i][j]) != 0
        implies #[trigger] m[i][j] == inp[i][j] by {
        let v = inp[i][j];
        assert(g0[i][j] == init_cell(v, n));
        assert(g0[i][j] == seq![v]);
        assert(cell_le(gf[i][j], g0[i][j]));
        assert(gf[i][j].len() == 1);
        assert(g0[i][j].contains(gf[i][j][0]));
        let k = choose|k: int| 0 <= k < g0[i][j].len() && g0[i][j][k] == gf[i][j][0];
        assert(k == 0);
        assert(gf[i][j][0] == v);
    }
}

/// An input with two equal pre-filled symbols in one row or one column has
/// no Latin completion that preserves its pre-filled entries: whenever a
/// preserving Latin completion exists, the input is conflict-free.
pub proof fn lemma_conflict_unsolvable(inp: Seq<Seq<u32>>, m: Seq<Seq<u32>>, n: nat)
    requires
        inp.len() == n,
        forall|i: int| 0 <= i < inp.len() ==> (#[trigger] inp[i]).len() == n,
        preserves(inp, m),
        out_latin(m, n),
    ensures
        !has_conflict(inp),
{
    if has_conflict(inp) {
        if exists|i: int, j: int, k: int|
            0 <= i < inp.len() && 0 <= j < k < inp[i].len() && (#[trigger] inp[i][j]) != 0
                && inp[i][j] == #[trigger] inp[i][k] {
            let (i, j, k) = choose|i: int, j: int, k: int|
                0 <= i < inp.len() && 0 <= j < k < inp[i].len() && (#[trigger] inp[i][j]) != 0
                    && inp[i][j] == #[trigger] inp[i][k];
            assert(m[i][j] == inp[i][j]);
            assert(m[i][k] == inp[i][k]);
            assert(m[i][j] != m[i][k]);
        } else {
            let (i, j, k) = choose|i: int, j: int, k: int|
                0 <= i < k < inp.len() && 0 <= j < inp[i].len() && j < inp[k].len()
                    && (#[trigger] inp[i][j]) != 0 && inp[i][j] == #[trigger] inp[k][j];
            assert(m[i][j] == inp[i][j]);
            assert(m[k][j] == inp[k][j]);
            assert(m[i][j] != m[k][j]);
        }
    }
}

/// An input that is already a Latin square initializes to a candidate grid
/// that is itself Latin: every cell the singleton of its entry.
pub proof fn lemma_input_latin(inp: Seq<Seq<u32>>, g0: GridModel, n: nat)
    requires
        out_latin(inp, n),
        init_rel(inp, g0, n),
    ensures
        latin(g0, n),
{
    assert forall|i: int, j: int|
        0 <= i < g0.len() && 0 <= j < g0[i].len() implies #[trigger] g0[i][j] == seq![inp[i][j]] by {
        assert(symbol_ok(inp[i][j], n));
        assert(g0[i][j] == init_cell(inp[i][j], n));
    }
    assert(grid_wf(g0, n)) by {
        assert forall|i: int, j: int|
            0 <= i < g0.len() && 0 <= j < g0[i].len() implies cell_wf(#[trigger] g0[i][j], n) by {
            assert(g0[i][j] == seq![inp[i][j]]);
            assert(g0[i][j].len() == 1);
            assert(g0[i][j][0] == inp[i][j]);
            assert(symbol_ok(inp[i][j], n));
        }
    }
    assert(solved(g0));
    assert(row_distinct(g0)) by {
        assert forall|i: int, j: int, k: int|
            0 <= i < g0.len() && 0 <= j < k < g0[i].len()
            implies (#[trigger] g0[i][j])[0] != (#[trigger] g0[i][k])[0] by {
            assert(inp[i][j] != inp[i][k]);
        }
    }
    assert(col_distinct(g0)) by {
        assert forall|i: int, j: int, k: int|
            0 <= j < g0.len() && 0 <= i < k < g0.len() && j < g0[i].len() && j < g0[k].len()
            implies (#[trigger] g0[i][j])[0] != (#[trigger] g0[k][j])[0] by {
            assert(inp[i][j] != inp[k][j]);
        }
    }
    assert(row_complete(g0, n)) by {
        assert forall|i: int, v: u32|
            0 <= i < g0.len() && symbol_ok(v, n) implies #[trigger] row_has(g0, i, v) by {
            assert(out_row_has(inp, i, v));
            let j = choose|j: int| 0 <= j < inp[i].len() && inp[i][j] == v;
            assert(g0[i][j][0] == v);
        }
    }
    assert(col_complete(g0, n)) by {
        assert forall|j: int, v: u32|
            0 <= j < g0.len() && symbol_ok(v, n) implies #[trigger] col_has(g0, j, v) by {
            assert(out_col_has(inp, j, v));
            let i = choose|i: int| 0 <= i < inp.len() && j < inp[i].len() && inp[i][j] == v;
            assert(g0[i][j][0] == v);
        }
    }
}

/// The full alphabet offers every symbol of {1..n}.
pub proof fn lemma_full_alphabet_contains(n: nat, v: u32)
    requires
        symbol_ok(v, n),
    ensures
        full_alphabet(n).contains(v),
{
    assert(full_alphabet(n)[v as int - 1] == v);
    lemma_contains_at(full_alphabet(n), v as int - 1);
}

/// In a completion, every cell is a singleton of one of the candidates the
/// grid still offers, and that symbol is in the alphabet.
pub proof fn lemma_completion_cell_value(s: GridModel, g: GridModel, n: nat, i: int, j: int)
    requires
        completes(s, g, n),
        0 <= i < s.len(),
        0 <= j < s[i].len(),
    ensures
        s[i][j].len() == 1,
        g[i][j].contains(s[i][j][0]),
        symbol_ok(s[i][j][0], n),
{
    assert(cell_le(s[i][j], g[i][j]));
    assert(g[i][j].contains(s[i][j][0]));
    assert(cell_wf(s[i][j], n));
}

/// Removing, from one cell, a symbol that no completion places there keeps
/// every completion: a completion's choice for that cell survives the
/// removal because only the removed symbol left.
pub proof fn lemma_elim_step(
    s: GridModel,
    g: GridModel,
    g2: GridModel,
    i: int,
    c: int,
    v: u32,
    n: nat,
)
    requires
        completes(s, g, n),
        same_but(g2, g, i, c),
        0 <= i < g.len(),
        0 <= c < g[i].len(),
        forall|w: u32| g[i][c].contains(w) && w != v ==> #[trigger] g2[i][c].contains(w),
        s[i][c][0] != v,
    ensures
        completes(s, g2, n),
{
    lemma_completion_cell_value(s, g, n, i, c);
    assert(grid_le(s, g2)) by {
        assert forall|p: int, q: int|
            0 <= p < s.len() && 0 <= q < s[p].len()
            implies cell_le(#[trigger] s[p][q], g2[p][q]) by {
            if p == i && q == c {
                assert(g2[i][c].contains(s[i][c][0]));
                let m = choose|m: int| 0 <= m < g2[i][c].len() && g2[i][c][m] == s[i][c][0];
                assert(g2[i][c].len() >= 1);
                assert forall|k: int| 0 <= k < s[i][c].len()
                    implies g2[i][c].contains(#[trigger] s[i][c][k]) by {
                    assert(k == 0);
                }
            } else {
                assert(g2[p][q] == g[p][q]);
                assert(cell_le(s[p][q], g[p][q]));
            }
        }
    }
}

/// A grid with an emptied cell has no completion at all.
pub proof fn lemma_empty_cell_no_completion(g: GridModel, n: nat, i: int, j: int)
    requires
        0 <= i < g.len(),
        0 <= j < g[i].len(),
        g[i][j].len() == 0,
    ensures
        !(exists|s: GridModel| completes(s, g, n)),
{
    if exists|s: GridModel| completes(s, g, n) {
        let s = choose|s: GridModel| completes(s, g, n);
        assert(s.len() == g.len());
        assert(s[i].len() == g[i].len());
        assert(cell_le(s[i][j], g[i][j]));
        assert(s[i][j].len() == 1);
    }
}

/// A preserving Latin completion of the external matrix, turned into a grid
/// of singletons, is a completion of the initial candidate grid.
pub proof fn lemma_matrix_completion_init(
    inp: Seq<Seq<u32>>,
    c: Seq<Seq<u32>>,
    g0: GridModel,
    n: nat,
)
    requires
        input_wf(inp, n),
        init_rel(inp, g0, n),
        out_latin(c, n),
        preserves(inp, c),
    ensures
        completes(singleton_grid(c), g0, n),
{
    let s = singleton_grid(c);
    assert(s.len() == n);
    assert forall|i: int| 0 <= i < s.len() implies (#[trigger] s[i]).len() == n by {
        assert(c[i].len() == n);
    }
    assert forall|i: int, j: int|
        0 <= i < c.len() && 0 <= j < c[i].len()
        implies #[trigger] s[i][j] == init_cell(c[i][j], n) by {
        assert(symbol_ok(c[i][j], n));
        assert(s[i][j] == seq![c[i][j]]);
    }
    assert(init_rel(c, s, n));
    lemma_input_latin(c, s, n);
    assert(grid_le(s, g0)) by {
        assert forall|i: int, j: int|
            0 <= i < s.len() && 0 <= j < s[i].len()
            implies cell_le(#[trigger] s[i][j], g0[i][j]) by {
            assert(s[i][j] == seq![c[i][j]]);
            assert(g0[i][j] == init_cell(inp[i][j], n));
            if inp[i][j] == 0 {
                assert(g0[i][j] == full_alphabet(n));
                lemma_full_alphabet_contains(n, c[i][j]);
                assert(g0[i][j].len() == n);
                assert(n >= 1);
                assert forall|k: int| 0 <= k < s[i][j].len()
                    implies g0[i][j].contains(#[trigger] s[i][j][k]) by {
                    assert(k == 0);
                }
            } else {
                assert(c[i][j] == inp[i][j]);
                assert(g0[i][j] == seq![inp[i][j]]);
                lemma_cell_le_refl(s[i][j]);
                assert(s[i][j] == g0[i][j]);
            }
        }
    }
}

} // verus!
