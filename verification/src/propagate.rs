//! Constraint propagation: naked-single elimination and hidden-single
//! detection, iterated to a fixpoint.
//!
//! One elimination pass removes the symbol of every resolved cell from the
//! other cells of its row and column. When a full pass removes nothing, the
//! grid is at the naked-single fixpoint; hidden-single detection then looks
//! for a symbol that only one unresolved cell of a row or column can still
//! take, resolves that one cell, and reports progress at once so that a
//! fresh elimination pass can spread the news.

use vstd::prelude::*;
use crate::grid::{Grid, clone_cell, set_cell};
use crate::laws::lemma_completion_cell_value;
use crate::model::{
    GridModel, cell_le, cell_wf, col_fixpoint, completes, grid_le, grid_wf, latin,
    lemma_cell_wf_distinct, lemma_contains_at, lemma_grid_le_after_set, lemma_grid_le_refl,
    lemma_grid_le_trans, lemma_wf_after_set, row_fixpoint, row_has, same_but, solved,
    symbol_ok,
};
use crate::totals::{grid_total, lemma_grid_le_lens_le, lemma_grid_total_le, lemma_grid_total_lt};

verus! {

/// No naked-single elimination applies around cell (a, b): if it is
/// resolved, its symbol is absent from the rest of its row and column.
pub open spec fn cell_fixed(g: GridModel, a: int, b: int) -> bool {
    g[a][b].len() == 1 ==> {
        &&& forall|c: int|
            0 <= c < g[a].len() && c != b ==> !(#[trigger] g[a][c]).contains(g[a][b][0])
        &&& forall|r: int|
            0 <= r < g.len() && r != a ==> !(#[trigger] g[r][b]).contains(g[a][b][0])
    }
}

/// Every cell before (i, j) in row-major order is naked-single fixed.
pub open spec fn prefix_fixed(g: GridModel, i: int, j: int) -> bool {
    forall|a: int, b: int|
        0 <= a < g.len() && 0 <= b < g[a].len() && (a < i || (a == i && b < j))
            ==> #[trigger] cell_fixed(g, a, b)
}

proof fn lemma_prefix_full(g: GridModel)
    requires
        prefix_fixed(g, g.len() as int, 0),
    ensures
        row_fixpoint(g),
        col_fixpoint(g),
{
    assert forall|i: int, j: int, k: int|
        0 <= i < g.len() && 0 <= j < g[i].len() && 0 <= k < g[i].len() && j != k
            && g[i][j].len() == 1
        implies !(#[trigger] g[i][k]).contains((#[trigger] g[i][j])[0]) by {
        assert(cell_fixed(g, i, j));
    }
    assert forall|i: int, j: int, k: int|
        0 <= i < g.len() && 0 <= j < g[i].len() && 0 <= k < g.len() && i != k
            && j < g[k].len() && g[i][j].len() == 1
        implies !(#[trigger] g[k][j]).contains((#[trigger] g[i][j])[0]) by {
        assert(cell_fixed(g, i, j));
    }
}

/// Number of cells among the first `upto` of row `i` whose candidates hold
/// `v`.
pub open spec fn count_row_spec(g: GridModel, i: int, v: u32, upto: int) -> nat
    decreases upto,
{
    if upto <= 0 {
        0
    } else {
        count_row_spec(g, i, v, upto - 1) + (if g[i][upto - 1].contains(v) {
            1nat
        } else {
            0nat
        })
    }
}

/// Number of cells among the first `upto` of column `j` whose candidates
/// hold `v`.
pub open spec fn count_col_spec(g: GridModel, j: int, v: u32, upto: int) -> nat
    decreases upto,
{
    if upto <= 0 {
        0
    } else {
        count_col_spec(g, j, v, upto - 1) + (if g[upto - 1][j].contains(v) {
            1nat
        } else {
            0nat
        })
    }
}

/// No hidden single remains anywhere: no unresolved cell holds a candidate
/// that occurs in the candidates of exactly one cell of its row, or of
/// exactly one cell of its column.
pub open spec fn no_hidden_single(g: GridModel) -> bool {
    forall|i: int, j: int, k: int|
        0 <= i < g.len() && 0 <= j < g[i].len() && g[i][j].len() > 1
            && 0 <= k < g[i][j].len()
            ==> count_row_spec(g, i, #[trigger] g[i][j][k], g.len() as int) != 1
                && count_col_spec(g, j, g[i][j][k], g.len() as int) != 1
}

/// Every unresolved cell's candidate strictly before position (i, j, k) of
/// the row-major scan has a row count other than one: the scan found no row
/// hidden single before that position.
pub open spec fn row_scan_clear(g: GridModel, n: int, i: int, j: int, k: int) -> bool {
    forall|p: int, q: int, m: int|
        0 <= p < g.len() && 0 <= q < g[p].len() && g[p][q].len() > 1
            && 0 <= m < g[p][q].len()
            && ((p < i) || (p == i && q < j) || (p == i && q == j && m < k))
            ==> count_row_spec(g, p, #[trigger] g[p][q][m], n) != 1
}

/// Every unresolved cell's candidate strictly before position (i, j, k) of
/// the column-major scan has a column count other than one: the scan found
/// no column hidden single before that position.
pub open spec fn col_scan_clear(g: GridModel, n: int, i: int, j: int, k: int) -> bool {
    forall|p: int, q: int, m: int|
        0 <= p < g.len() && 0 <= q < g[p].len() && g[p][q].len() > 1
            && 0 <= m < g[p][q].len()
            && ((q < j) || (q == j && p < i) || (q == j && p == i && m < k))
            ==> count_col_spec(g, q, #[trigger] g[p][q][m], n) != 1
}

proof fn lemma_count_row_mono(g: GridModel, i: int, v: u32, a: int, b: int)
    requires
        0 <= a <= b,
    ensures
        count_row_spec(g, i, v, a) <= count_row_spec(g, i, v, b),
    decreases b,
{
    if a < b {
        lemma_count_row_mono(g, i, v, a, b - 1);
    }
}

proof fn lemma_count_row_at_least_one(g: GridModel, i: int, v: u32, j: int, upto: int)
    requires
        0 <= j < upto,
        g[i][j].contains(v),
    ensures
        count_row_spec(g, i, v, upto) >= 1,
    decreases upto,
{
    if j < upto - 1 {
        lemma_count_row_at_least_one(g, i, v, j, upto - 1);
    }
}

/// With the count over a row equal to one, two cells of that row offering
/// the same symbol are the same cell.
proof fn lemma_count_row_unique(g: GridModel, i: int, v: u32, j1: int, j2: int, n: int)
    requires
        count_row_spec(g, i, v, n) == 1,
        0 <= j1 < n,
        0 <= j2 < n,
        g[i][j1].contains(v),
        g[i][j2].contains(v),
    ensures
        j1 == j2,
{
    if j1 != j2 {
        let a = if j1 < j2 { j1 } else { j2 };
        let b = if j1 < j2 { j2 } else { j1 };
        lemma_count_row_at_least_one(g, i, v, a, b);
        assert(count_row_spec(g, i, v, b + 1) >= 2);
        lemma_count_row_mono(g, i, v, b + 1, n);
    }
}

proof fn lemma_count_col_mono(g: GridModel, j: int, v: u32, a: int, b: int)
    requires
        0 <= a <= b,
    ensures
        count_col_spec(g, j, v, a) <= count_col_spec(g, j, v, b),
    decreases b,
{
    if a < b {
        lemma_count_col_mono(g, j, v, a, b - 1);
    }
}

proof fn lemma_count_col_at_least_one(g: GridModel, j: int, v: u32, i: int, upto: int)
    requires
        0 <= i < upto,
        g[i][j].contains(v),
    ensures
        count_col_spec(g, j, v, upto) >= 1,
    decreases upto,
{
    if i < upto - 1 {
        lemma_count_col_at_least_one(g, j, v, i, upto - 1);
    }
}

/// With the count over a column equal to one, two cells of that column
/// offering the same symbol are the same cell.
proof fn lemma_count_col_unique(g: GridModel, j: int, v: u32, i1: int, i2: int, n: int)
    requires
        count_col_spec(g, j, v, n) == 1,
        0 <= i1 < n,
        0 <= i2 < n,
        g[i1][j].contains(v),
        g[i2][j].contains(v),
    ensures
        i1 == i2,
{
    if i1 != i2 {
        let a = if i1 < i2 { i1 } else { i2 };
        let b = if i1 < i2 { i2 } else { i1 };
        lemma_count_col_at_least_one(g, j, v, a, b);
        assert(count_col_spec(g, j, v, b + 1) >= 2);
        lemma_count_col_mono(g, j, v, b + 1, n);
    }
}

/// Resolving a cell to a hidden single keeps every completion: a completion
/// must place that symbol somewhere in the line, and only this cell still
/// offers it.
proof fn lemma_hidden_step(
    s: GridModel,
    g: GridModel,
    g2: GridModel,
    i: int,
    j: int,
    v: u32,
    n: nat,
)
    requires
        completes(s, g, n),
        grid_wf(g, n),
        0 <= i < g.len(),
        0 <= j < g[i].len(),
        g[i][j].contains(v),
        same_but(g2, g, i, j),
        g2[i][j] == seq![v],
        count_row_spec(g, i, v, g.len() as int) == 1
            || count_col_spec(g, j, v, g.len() as int) == 1,
    ensures
        completes(s, g2, n),
{
    assert(symbol_ok(v, n)) by {
        let m = choose|m: int| 0 <= m < g[i][j].len() && g[i][j][m] == v;
        assert(cell_wf(g[i][j], n));
        assert(symbol_ok(g[i][j][m], n));
    }
    assert(s[i][j] == seq![v]) by {
        if count_row_spec(g, i, v, g.len() as int) == 1 {
            assert(row_has(s, i, v));
            let c = choose|c: int| 0 <= c < s[i].len() && s[i][c][0] == v;
            lemma_completion_cell_value(s, g, n, i, c);
            lemma_count_row_unique(g, i, v, c, j, g.len() as int);
            lemma_completion_cell_value(s, g, n, i, j);
            assert(s[i][j] =~= seq![v]);
        } else {
            assert(crate::model::col_has(s, j, v));
            let c = choose|c: int|
                0 <= c < s.len() && j < s[c].len() && s[c][j][0] == v;
            lemma_completion_cell_value(s, g, n, c, j);
            lemma_count_col_unique(g, j, v, c, i, g.len() as int);
            lemma_completion_cell_value(s, g, n, i, j);
            assert(s[i][j] =~= seq![v]);
        }
    }
    assert(grid_le(s, g2)) by {
        assert forall|p: int, q: int|
            0 <= p < s.len() && 0 <= q < s[p].len()
            implies cell_le(#[trigger] s[p][q], g2[p][q]) by {
            if p == i && q == j {
                lemma_contains_at(g2[i][j], 0);
                assert forall|k: int| 0 <= k < s[i][j].len()
                    implies g2[i][j].contains(#[trigger] s[i][j][k]) by {
                    assert(k == 0);
                }
            } else {
                assert(g2[p][q] == g[p][q]);
                assert(cell_le(s[p][q], g[p][q]));
            }
        }
    }
}

/// Scan a cell for symbol `v`.
fn cell_find(c: &Vec<u32>, v: u32) -> (r: Option<usize>)
    ensures
        match r {
            Option::Some(k) => k < c@.len() && c@[k as int] == v,
            Option::None => !c@.contains(v),
        },
{
    let mut k: usize = 0;
    while k < c.len()
        invariant
            k <= c@.len(),
            forall|m: int| 0 <= m < k ==> #[trigger] c@[m] != v,
        decreases c@.len() - k,
    {
        if c[k] == v {
            return Option::Some(k);
        }
        k = k + 1;
    }
    Option::None
}

/// Does the cell still hold symbol `v` as a candidate?
fn cell_contains(c: &Vec<u32>, v: u32) -> (r: bool)
    ensures
        r == c@.contains(v),
{
    match cell_find(c, v) {
        Option::Some(k) => {
            proof {
                lemma_contains_at(c@, k as int);
            }
            true
        },
        Option::None => false,
    }
}

/// Remove symbol `v` from the candidates of cell (i, j), if present.
#[verifier::loop_isolation(false)]
fn remove_candidate(g: &mut Grid, i: usize, j: usize, v: u32) -> (removed: bool)
    requires
        old(g).wf(),
        i < old(g).n,
        j < old(g).n,
    ensures
        final(g).wf(),
        final(g).n == old(g).n,
        grid_le(final(g)@, old(g)@),
        same_but(final(g)@, old(g)@, i as int, j as int),
        removed == old(g)@[i as int][j as int].contains(v),
        !removed ==> final(g)@ == old(g)@,
        removed ==> final(g)@[i as int][j as int].len() == old(g)@[i as int][j as int].len() - 1,
        removed ==> !final(g)@[i as int][j as int].contains(v),
        removed ==> forall|w: u32|
            old(g)@[i as int][j as int].contains(w) && w != v
                ==> #[trigger] final(g)@[i as int][j as int].contains(w),
        removed ==> grid_total(final(g)@) < grid_total(old(g)@),
{
    let ghost n = old(g).n as nat;
    proof {
        assert(g@[i as int][j as int] == g.cells@[i as int]@[j as int]@);
    }
    let found = cell_find(&g.cells[i][j], v);
    match found {
        Option::None => {
            proof {
                lemma_grid_le_refl(g@);
            }
            false
        },
        Option::Some(k) => {
            let ghost old_cell = g@[i as int][j as int];
            let mut c = clone_cell(&g.cells[i][j]);
            c.remove(k);
            proof {
                assert(c@.len() == old_cell.len() - 1);
                assert forall|m: int| 0 <= m < c@.len()
                    implies #[trigger] c@[m] == (if m < k { old_cell[m] } else {
                    old_cell[m + 1]
                }) by {}
                assert(cell_wf(old_cell, n));
                assert(cell_wf(c@, n)) by {
                    assert forall|m: int| 0 <= m < c@.len()
                        implies symbol_ok(#[trigger] c@[m], n) by {
                        if m < k {
                            assert(symbol_ok(old_cell[m], n));
                        } else {
                            assert(symbol_ok(old_cell[m + 1], n));
                        }
                    }
                }
                assert(cell_le(c@, old_cell)) by {
                    assert forall|m: int| 0 <= m < c@.len()
                        implies old_cell.contains(#[trigger] c@[m]) by {
                        if m < k {
                            lemma_contains_at(old_cell, m);
                        } else {
                            lemma_contains_at(old_cell, m + 1);
                        }
                    }
                }
                assert(!c@.contains(v)) by {
                    lemma_cell_wf_distinct(old_cell, n);
                    assert forall|m: int| 0 <= m < c@.len() implies #[trigger] c@[m] != v by {
                        assert(old_cell[k as int] == v);
                    }
                }
                assert forall|w: u32| old_cell.contains(w) && w != v
                    implies c@.contains(w) by {
                    let m0 = choose|m0: int| 0 <= m0 < old_cell.len() && old_cell[m0] == w;
                    assert(old_cell[k as int] == v);
                    if m0 < k {
                        assert(c@[m0] == w);
                        lemma_contains_at(c@, m0);
                    } else {
                        assert(m0 != k);
                        assert(c@[m0 - 1] == w);
                        lemma_contains_at(c@, m0 - 1);
                    }
                }
            }
            set_cell(g, i, j, c);
            proof {
                assert(same_but(g@, old(g)@, i as int, j as int));
                lemma_wf_after_set(old(g)@, g@, n, i as int, j as int);
                lemma_grid_le_after_set(old(g)@, g@, i as int, j as int);
                lemma_grid_le_lens_le(g@, old(g)@);
                lemma_grid_total_lt(g@, old(g)@, i as int, j as int);
                lemma_contains_at(old_cell, k as int);
            }
            true
        },
    }
}

/// One full naked-single elimination sweep, in row-major order: for every
/// resolved cell, remove its symbol from the other cells of its row and
/// then of its column. Reports whether anything was removed; a sweep that
/// removes nothing leaves the grid at the naked-single fixpoint.
#[verifier::loop_isolation(false)]
pub fn eliminate_pass(g: &mut Grid) -> (changed: bool)
    requires
        old(g).wf(),
    ensures
        final(g).wf(),
        final(g).n == old(g).n,
        grid_le(final(g)@, old(g)@),
        !changed ==> final(g)@ == old(g)@ && row_fixpoint(final(g)@) && col_fixpoint(final(g)@),
        changed ==> grid_total(final(g)@) < grid_total(old(g)@),
        latin(old(g)@, old(g).n as nat) ==> !changed,
        forall|s: GridModel|
            #[trigger] completes(s, old(g)@, old(g).n as nat)
                ==> completes(s, final(g)@, old(g).n as nat),
{
    let n = g.n;
    let ghost g0 = g@;
    let ghost nn = n as nat;
    let mut changed = false;
    let mut i: usize = 0;
    while i < n
        invariant
            i <= n,
            g.wf(),
            g.n == n,
            grid_le(g@, g0),
            !changed ==> g@ == g0 && prefix_fixed(g@, i as int, 0),
            changed ==> grid_total(g@) < grid_total(g0),
            latin(g0, nn) ==> g@ == g0 && !changed,
            forall|s: GridModel| #[trigger] completes(s, g0, nn) ==> completes(s, g@, nn),
        decreases n - i,
    {
        let mut j: usize = 0;
        while j < n
            invariant
                i < n,
                j <= n,
                g.wf(),
                g.n == n,
                grid_le(g@, g0),
                !changed ==> g@ == g0 && prefix_fixed(g@, i as int, j as int),
                changed ==> grid_total(g@) < grid_total(g0),
                latin(g0, nn) ==> g@ == g0 && !changed,
                forall|s: GridModel| #[trigger] completes(s, g0, nn) ==> completes(s, g@, nn),
            decreases n - j,
        {
            proof {
                assert(g@[i as int][j as int] == g.cells@[i as int]@[j as int]@);
            }
            let clen = g.cells[i][j].len();
            if clen == 1 {
                let v = g.cells[i][j][0];
                proof {
                    assert(v == g@[i as int][j as int][0]);
                }
                let mut col: usize = 0;
                while col < n
                    invariant
                        i < n,
                        j < n,
                        col <= n,
                        g.wf(),
                        g.n == n,
                        grid_le(g@, g0),
                        !changed ==> {
                            &&& g@ == g0
                            &&& prefix_fixed(g@, i as int, j as int)
                            &&& g@[i as int][j as int].len() == 1
                            &&& g@[i as int][j as int][0] == v
                            &&& forall|c: int|
                                0 <= c < col && c != j
                                    ==> !(#[trigger] g@[i as int][c]).contains(v)
                        },
                        changed ==> grid_total(g@) < grid_total(g0),
                        latin(g0, nn) ==> g@ == g0 && !changed,
                        g@[i as int][j as int].len() == 1,
                        g@[i as int][j as int][0] == v,
                        forall|s: GridModel| #[trigger] completes(s, g0, nn) ==> completes(s, g@, nn),
                    decreases n - col,
                {
                    if col != j {
                        let ghost g_before = g@;
                        let ghost was_changed = changed;
                        let removed = remove_candidate(g, i, col, v);
                        if removed {
                            changed = true;
                        }
                        proof {
                            lemma_grid_le_trans(g@, g_before, g0);
                            assert forall|s: GridModel| #[trigger] completes(s, g0, nn)
                                implies completes(s, g@, nn) by {
                                assert(completes(s, g_before, nn));
                                if removed {
                                    lemma_completion_cell_value(s, g_before, nn, i as int, j as int);
                                    assert(s[i as int][j as int][0] == v) by {
                                        let m = choose|m: int|
                                            0 <= m < g_before[i as int][j as int].len()
                                                && g_before[i as int][j as int][m]
                                                    == s[i as int][j as int][0];
                                        assert(m == 0);
                                    }
                                    assert(s[i as int][col as int][0] != v) by {
                                        if col < j {
                                            assert(s[i as int][col as int][0]
                                                != s[i as int][j as int][0]);
                                        } else {
                                            assert(s[i as int][j as int][0]
                                                != s[i as int][col as int][0]);
                                        }
                                    }
                                    crate::laws::lemma_elim_step(
                                        s, g_before, g@, i as int, col as int, v, nn);
                                }
                            }
                            if removed {
                                lemma_grid_le_lens_le(g_before, g0);
                                lemma_grid_total_le(g_before, g0);
                            }
                            if latin(g0, nn) && !was_changed {
                                assert(g_before == g0);
                                assert(solved(g0));
                                assert(!g0[i as int][col as int].contains(v)) by {
                                    if g0[i as int][col as int].contains(v) {
                                        let m = choose|m: int|
                                            0 <= m < g0[i as int][col as int].len()
                                                && g0[i as int][col as int][m] == v;
                                        assert(g0[i as int][col as int].len() == 1);
                                        assert(g0[i as int][col as int][0] == v);
                                        if col < j {
                                            assert(g0[i as int][col as int][0] != g0[i as int][j as int][0]);
                                        } else {
                                            assert(g0[i as int][j as int][0] != g0[i as int][col as int][0]);
                                        }
                                    }
                                }
                                assert(!removed);
                            }
                        }
                    }
                    col = col + 1;
                }
                let mut r: usize = 0;
                while r < n
                    invariant
                        i < n,
                        j < n,
                        r <= n,
                        g.wf(),
                        g.n == n,
                        grid_le(g@, g0),
                        !changed ==> {
                            &&& g@ == g0
                            &&& prefix_fixed(g@, i as int, j as int)
                            &&& g@[i as int][j as int].len() == 1
                            &&& g@[i as int][j as int][0] == v
                            &&& forall|c: int|
                                0 <= c < n && c != j
                                    ==> !(#[trigger] g@[i as int][c]).contains(v)
                            &&& forall|p: int|
                                0 <= p < r && p != i
                                    ==> !(#[trigger] g@[p][j as int]).contains(v)
                        },
                        changed ==> grid_total(g@) < grid_total(g0),
                        latin(g0, nn) ==> g@ == g0 && !changed,
                        g@[i as int][j as int].len() == 1,
                        g@[i as int][j as int][0] == v,
                        forall|s: GridModel| #[trigger] completes(s, g0, nn) ==> completes(s, g@, nn),
                    decreases n - r,
                {
                    if r != i {
                        let ghost g_before = g@;
                        let ghost was_changed = changed;
                        let removed = remove_candidate(g, r, j, v);
                        if removed {
                            changed = true;
                        }
                        proof {
                            lemma_grid_le_trans(g@, g_before, g0);
                            assert forall|s: GridModel| #[trigger] completes(s, g0, nn)
                                implies completes(s, g@, nn) by {
                                assert(completes(s, g_before, nn));
                                if removed {
                                    lemma_completion_cell_value(s, g_before, nn, i as int, j as int);
                                    assert(s[i as int][j as int][0] == v) by {
                                        let m = choose|m: int|
                                            0 <= m < g_before[i as int][j as int].len()
                                                && g_before[i as int][j as int][m]
                                                    == s[i as int][j as int][0];
                                        assert(m == 0);
                                    }
                                    assert(s[r as int][j as int][0] != v) by {
                                        if r < i {
                                            assert(s[r as int][j as int][0]
                                                != s[i as int][j as int][0]);
                                        } else {
                                            assert(s[i as int][j as int][0]
                                                != s[r as int][j as int][0]);
                                        }
                                    }
                                    crate::laws::lemma_elim_step(
                                        s, g_before, g@, r as int, j as int, v, nn);
                                }
                            }
                            if removed {
                                lemma_grid_le_lens_le(g_before, g0);
                                lemma_grid_total_le(g_before, g0);
                            }
                            if latin(g0, nn) && !was_changed {
                                assert(g_before == g0);
                                assert(solved(g0));
                                assert(!g0[r as int][j as int].contains(v)) by {
                                    if g0[r as int][j as int].contains(v) {
                                        let m = choose|m: int|
                                            0 <= m < g0[r as int][j as int].len()
                                                && g0[r as int][j as int][m] == v;
                                        assert(g0[r as int][j as int].len() == 1);
                                        assert(g0[r as int][j as int][0] == v);
                                        if r < i {
                                            assert(g0[r as int][j as int][0] != g0[i as int][j as int][0]);
                                        } else {
                                            assert(g0[i as int][j as int][0] != g0[r as int][j as int][0]);
                                        }
                                    }
                                }
                                assert(!removed);
                            }
                        }
                    }
                    r = r + 1;
                }
                proof {
                    if !changed {
                        assert(cell_fixed(g@, i as int, j as int));
                        assert(prefix_fixed(g@, i as int, j as int + 1)) by {
                            assert forall|a: int, b: int|
                                0 <= a < g@.len() && 0 <= b < g@[a].len()
                                    && (a < i as int || (a == i as int && b < j as int + 1))
                                implies #[trigger] cell_fixed(g@, a, b) by {
                                if !(a == i as int && b == j as int) {
                                    assert(cell_fixed(g@, a, b));
                                }
                            }
                        }
                    }
                }
            } else {
                proof {
                    if !changed {
                        assert(g@[i as int][j as int].len() != 1);
                        assert(cell_fixed(g@, i as int, j as int));
                        assert forall|a: int, b: int|
                            0 <= a < g@.len() && 0 <= b < g@[a].len()
                                && (a < i as int || (a == i as int && b < j as int + 1))
                            implies #[trigger] cell_fixed(g@, a, b) by {
                            if !(a == i as int && b == j as int) {
                                assert(cell_fixed(g@, a, b));
                            }
                        }
                    }
                }
            }
            j = j + 1;
        }
        proof {
            if !changed {
                assert(prefix_fixed(g@, i as int + 1, 0)) by {
                    assert forall|a: int, b: int|
                        0 <= a < g@.len() && 0 <= b < g@[a].len()
                            && (a < i as int + 1 || (a == i as int + 1 && b < 0))
                        implies #[trigger] cell_fixed(g@, a, b) by {
                        assert(g@[a].len() == n);
                        assert(cell_fixed(g@, a, b));
                    }
                }
            }
        }
        i = i + 1;
    }
    proof {
        if !changed {
            lemma_prefix_full(g@);
        }
    }
    changed
}

/// Count, over a whole row, the cells whose candidates hold `v`.
#[verifier::loop_isolation(false)]
fn count_row(g: &Grid, i: usize, v: u32) -> (cnt: u64)
    requires
        g.wf(),
        i < g.n,
    ensures
        cnt == count_row_spec(g@, i as int, v, g.n as int),
{
    let n = g.n;
    let mut cnt: u64 = 0;
    let mut j: usize = 0;
    while j < n
        invariant
            j <= n,
            cnt <= j,
            cnt == count_row_spec(g@, i as int, v, j as int),
        decreases n - j,
    {
        proof {
            assert(g@[i as int][j as int] == g.cells@[i as int]@[j as int]@);
        }
        if cell_contains(&g.cells[i][j], v) {
            cnt = cnt + 1;
        }
        j = j + 1;
    }
    cnt
}

/// Count, over a whole column, the cells whose candidates hold `v`.
#[verifier::loop_isolation(false)]
fn count_col(g: &Grid, j: usize, v: u32) -> (cnt: u64)
    requires
        g.wf(),
        j < g.n,
    ensures
        cnt == count_col_spec(g@, j as int, v, g.n as int),
{
    let n = g.n;
    let mut cnt: u64 = 0;
    let mut i: usize = 0;
    while i < n
        invariant
            i <= n,
            cnt <= i,
            cnt == count_col_spec(g@, j as int, v, i as int),
        decreases n - i,
    {
        proof {
            assert(g@[i as int][j as int] == g.cells@[i as int]@[j as int]@);
        }
        if cell_contains(&g.cells[i][j], v) {
            cnt = cnt + 1;
        }
        i = i + 1;
    }
    cnt
}

/// Hidden-single detection: find, scanning rows first and then columns,
/// each in ascending index order and each cell's candidates in ascending
/// symbol order, a symbol that only one unresolved cell of its line can
/// still take; resolve that cell and stop at once, so that elimination can
/// propagate the discovery before anything else is resolved.
///
/// When nothing is found, no hidden single exists anywhere. When one is
/// resolved, exactly one cell changed: an unresolved cell, set to one of
/// its own candidates whose count over its row or its column was one.
/// Either way every completion of the old grid completes the new one.
#[verifier::loop_isolation(false)]
pub fn find_unique_values(g: &mut Grid) -> (changed: bool)
    requires
        old(g).wf(),
    ensures
        final(g).wf(),
        final(g).n == old(g).n,
        grid_le(final(g)@, old(g)@),
        !changed ==> final(g)@ == old(g)@,
        !changed ==> no_hidden_single(final(g)@),
        changed ==> grid_total(final(g)@) < grid_total(old(g)@),
        changed ==> exists|i: int, j: int, k: int|
            {
                &&& 0 <= i < old(g)@.len()
                &&& 0 <= j < old(g)@[i].len()
                &&& same_but(final(g)@, old(g)@, i, j)
                &&& old(g)@[i][j].len() > 1
                &&& 0 <= k < old(g)@[i][j].len()
                &&& final(g)@[i][j].len() == 1
                &&& (#[trigger] old(g)@[i][j][k]) == final(g)@[i][j][0]
                &&& ({
                    ||| (count_row_spec(old(g)@, i, old(g)@[i][j][k], old(g)@.len() as int)
                        == 1 && row_scan_clear(old(g)@, old(g)@.len() as int, i, j, k))
                    ||| (count_col_spec(old(g)@, j, old(g)@[i][j][k], old(g)@.len() as int)
                        == 1 && row_scan_clear(
                        old(g)@,
                        old(g)@.len() as int,
                        old(g)@.len() as int,
                        0,
                        0,
                    ) && col_scan_clear(old(g)@, old(g)@.len() as int, i, j, k))
                })
            },
        solved(old(g)@) ==> !changed,
        forall|s: GridModel|
            #[trigger] completes(s, old(g)@, old(g).n as nat)
                ==> completes(s, final(g)@, old(g).n as nat),
{
    let n = g.n;
    let ghost g0 = g@;
    let ghost nn = n as nat;
    let mut i: usize = 0;
    while i < n
        invariant
            i <= n,
            g.wf(),
            g.n == n,
            g@ == g0,
            forall|p: int, q: int, m: int|
                0 <= p < i && 0 <= q < n && g0[p][q].len() > 1 && 0 <= m < g0[p][q].len()
                    ==> count_row_spec(g0, p, #[trigger] g0[p][q][m], n as int) != 1,
        decreases n - i,
    {
        let mut j: usize = 0;
        while j < n
            invariant
                i < n,
                j <= n,
                g.wf(),
                g.n == n,
                g@ == g0,
                forall|p: int, q: int, m: int|
                    0 <= p < i && 0 <= q < n && g0[p][q].len() > 1 && 0 <= m < g0[p][q].len()
                        ==> count_row_spec(g0, p, #[trigger] g0[p][q][m], n as int) != 1,
                forall|q: int, m: int|
                    0 <= q < j && g0[i as int][q].len() > 1 && 0 <= m < g0[i as int][q].len()
                        ==> count_row_spec(g0, i as int, #[trigger] g0[i as int][q][m], n as int)
                            != 1,
            decreases n - j,
        {
            proof {
                assert(g@[i as int][j as int] == g.cells@[i as int]@[j as int]@);
            }
            let clen = g.cells[i][j].len();
            if clen > 1 {
                let mut k: usize = 0;
                while k < clen
                    invariant
                        i < n,
                        j < n,
                        k <= clen,
                        g.wf(),
                        g.n == n,
                        g@ == g0,
                        clen == g@[i as int][j as int].len(),
                        forall|m: int|
                            0 <= m < k
                                ==> count_row_spec(
                                g0,
                                i as int,
                                #[trigger] g0[i as int][j as int][m],
                                n as int,
                            ) != 1,
                    decreases clen - k,
                {
                    let ch = g.cells[i][j][k];
                    proof {
                        assert(ch == g0[i as int][j as int][k as int]);
                    }
                    if count_row(g, i, ch) == 1 {
                        resolve_cell(g, i, j, k);
                        proof {
                            lemma_contains_at(g0[i as int][j as int], k as int);
                            assert(row_scan_clear(g0, n as int, i as int, j as int, k as int));
                            assert(same_but(g@, g0, i as int, j as int)
                                && g0[i as int][j as int].len() > 1
                                && g@[i as int][j as int]
                                    == seq![g0[i as int][j as int][k as int]]
                                && count_row_spec(
                                g0,
                                i as int,
                                g0[i as int][j as int][k as int],
                                n as int,
                            ) == 1);
                            assert forall|s: GridModel| #[trigger] completes(s, g0, nn)
                                implies completes(s, g@, nn) by {
                                lemma_hidden_step(s, g0, g@, i as int, j as int, ch, nn);
                            }
                        }
                        return true;
                    }
                    k = k + 1;
                }
            }
            j = j + 1;
        }
        i = i + 1;
    }
    assert(forall|p: int, q: int, m: int|
        0 <= p < n && 0 <= q < n && g0[p][q].len() > 1 && 0 <= m < g0[p][q].len()
            ==> count_row_spec(g0, p, #[trigger] g0[p][q][m], n as int) != 1);
    let mut col: usize = 0;
    while col < n
        invariant
            col <= n,
            g.wf(),
            g.n == n,
            g@ == g0,
            forall|q: int, p: int, m: int|
                0 <= q < col && 0 <= p < n && g0[p][q].len() > 1 && 0 <= m < g0[p][q].len()
                    ==> count_col_spec(g0, q, #[trigger] g0[p][q][m], n as int) != 1,
        decreases n - col,
    {
        let mut row: usize = 0;
        while row < n
            invariant
                col < n,
                row <= n,
                g.wf(),
                g.n == n,
                g@ == g0,
                forall|q: int, p: int, m: int|
                    0 <= q < col && 0 <= p < n && g0[p][q].len() > 1 && 0 <= m < g0[p][q].len()
                        ==> count_col_spec(g0, q, #[trigger] g0[p][q][m], n as int) != 1,
                forall|p: int, m: int|
                    0 <= p < row && g0[p][col as int].len() > 1
                        && 0 <= m < g0[p][col as int].len()
                        ==> count_col_spec(
                        g0,
                        col as int,
                        #[trigger] g0[p][col as int][m],
                        n as int,
                    ) != 1,
            decreases n - row,
        {
            proof {
                assert(g@[row as int][col as int] == g.cells@[row as int]@[col as int]@);
            }
            let clen = g.cells[row][col].len();
            if clen > 1 {
                let mut k: usize = 0;
                while k < clen
                    invariant
                        col < n,
                        row < n,
                        k <= clen,
                        g.wf(),
                        g.n == n,
                        g@ == g0,
                        clen == g@[row as int][col as int].len(),
                        forall|m: int|
                            0 <= m < k
                                ==> count_col_spec(
                                g0,
                                col as int,
                                #[trigger] g0[row as int][col as int][m],
                                n as int,
                            ) != 1,
                    decreases clen - k,
                {
                    let ch = g.cells[row][col][k];
                    proof {
                        assert(ch == g0[row as int][col as int][k as int]);
                    }
                    if count_col(g, col, ch) == 1 {
                        resolve_cell(g, row, col, k);
                        proof {
                            lemma_contains_at(g0[row as int][col as int], k as int);
                            assert(row_scan_clear(g0, n as int, n as int, 0, 0));
                            assert(col_scan_clear(
                                g0, n as int, row as int, col as int, k as int));
                            assert(same_but(g@, g0, row as int, col as int)
                                && g0[row as int][col as int].len() > 1
                                && g@[row as int][col as int]
                                    == seq![g0[row as int][col as int][k as int]]
                                && count_col_spec(
                                g0,
                                col as int,
                                g0[row as int][col as int][k as int],
                                n as int,
                            ) == 1);
                            assert forall|s: GridModel| #[trigger] completes(s, g0, nn)
                                implies completes(s, g@, nn) by {
                                lemma_hidden_step(s, g0, g@, row as int, col as int, ch, nn);
                            }
                        }
                        return true;
                    }
                    k = k + 1;
                }
            }
            row = row + 1;
        }
        col = col + 1;
    }
    proof {
        lemma_grid_le_refl(g@);
        assert(no_hidden_single(g@)) by {
            assert forall|p: int, q: int, m: int|
                0 <= p < g@.len() && 0 <= q < g@[p].len() && g@[p][q].len() > 1
                    && 0 <= m < g@[p][q].len()
                implies count_row_spec(g@, p, #[trigger] g@[p][q][m], g@.len() as int) != 1
                    && count_col_spec(g@, q, g@[p][q][m], g@.len() as int) != 1 by {
                assert(count_row_spec(g0, p, g0[p][q][m], n as int) != 1);
                assert(count_col_spec(g0, q, g0[p][q][m], n as int) != 1);
            }
        }
    }
    false
}

/// Resolve cell (i, j) to its k-th remaining candidate.
fn resolve_cell(g: &mut Grid, i: usize, j: usize, k: usize)
    requires
        old(g).wf(),
        i < old(g).n,
        j < old(g).n,
        k < old(g)@[i as int][j as int].len(),
        old(g)@[i as int][j as int].len() > 1,
    ensures
        final(g).wf(),
        final(g).n == old(g).n,
        grid_le(final(g)@, old(g)@),
        grid_total(final(g)@) < grid_total(old(g)@),
        same_but(final(g)@, old(g)@, i as int, j as int),
        final(g)@[i as int][j as int] == seq![old(g)@[i as int][j as int][k as int]],
        !solved(old(g)@),
{
    let ghost nn = old(g).n as nat;
    let ghost old_cell = old(g)@[i as int][j as int];
    proof {
        assert(g@[i as int][j as int] == g.cells@[i as int]@[j as int]@);
    }
    let ch = g.cells[i][j][k];
    let mut single: Vec<u32> = Vec::new();
    single.push(ch);
    proof {
        assert(single@ =~= seq![ch]);
        assert(cell_wf(old_cell, nn));
        assert(symbol_ok(old_cell[k as int], nn));
        lemma_contains_at(old_cell, k as int);
    }
    set_cell(g, i, j, single);
    proof {
        assert(same_but(g@, old(g)@, i as int, j as int));
        assert(cell_wf(g@[i as int][j as int], nn));
        lemma_wf_after_set(old(g)@, g@, nn, i as int, j as int);
        assert(cell_le(g@[i as int][j as int], old_cell));
        lemma_grid_le_after_set(old(g)@, g@, i as int, j as int);
        lemma_grid_le_lens_le(g@, old(g)@);
        lemma_grid_total_lt(g@, old(g)@, i as int, j as int);
        assert(!solved(old(g)@)) by {
            if solved(old(g)@) {
                assert(old_cell.len() == 1);
            }
        }
    }
}

/// Run elimination and hidden-single detection to their common fixpoint:
/// repeat full elimination sweeps, and when one removes nothing, look for a
/// single hidden single; stop when neither makes progress. At exit no
/// naked-single elimination and no hidden single remains, every completion
/// of the incoming grid still completes the outgoing one, and an already
/// solved and valid grid passes through unchanged.
#[verifier::loop_isolation(false)]
pub fn propagate(g: &mut Grid)
    requires
        old(g).wf(),
    ensures
        final(g).wf(),
        final(g).n == old(g).n,
        grid_le(final(g)@, old(g)@),
        row_fixpoint(final(g)@),
        col_fixpoint(final(g)@),
        no_hidden_single(final(g)@),
        latin(old(g)@, old(g).n as nat) ==> final(g)@ == old(g)@,
        forall|s: GridModel|
            #[trigger] completes(s, old(g)@, old(g).n as nat)
                ==> completes(s, final(g)@, old(g).n as nat),
{
    let ghost g0 = old(g)@;
    let ghost nn = old(g).n as nat;
    loop
        invariant
            g.wf(),
            g.n == old(g).n,
            grid_le(g@, g0),
            latin(g0, nn) ==> g@ == g0,
            forall|s: GridModel| #[trigger] completes(s, g0, nn) ==> completes(s, g@, nn),
        decreases grid_total(g@),
    {
        let ghost g_entry = g@;
        let ch1 = eliminate_pass(g);
        proof {
            lemma_grid_le_trans(g@, g_entry, g0);
            if ch1 {
                lemma_grid_le_lens_le(g_entry, g0);
                lemma_grid_total_le(g_entry, g0);
            }
            if latin(g0, nn) {
                assert(latin(g_entry, nn));
            }
            assert forall|s: GridModel| #[trigger] completes(s, g0, nn)
                implies completes(s, g@, nn) by {
                assert(completes(s, g_entry, nn));
            }
        }
        if !ch1 {
            let ghost g_mid = g@;
            let ch2 = find_unique_values(g);
            proof {
                lemma_grid_le_trans(g@, g_mid, g0);
                if latin(g0, nn) {
                    assert(solved(g_mid));
                }
                assert forall|s: GridModel| #[trigger] completes(s, g0, nn)
                    implies completes(s, g@, nn) by {
                    assert(completes(s, g_mid, nn));
                }
            }
            if !ch2 {
                return ;
            }
        }
    }
}

} // verus!
