use engine::{
    eliminate_pass, find_unique_values, from_input, is_solved, solve_grid, solver, Grid,
    SolveError,
};

/// Check that `out` is an n-by-n Latin square over {1..n}.
fn is_valid_latin(out: &Vec<Vec<u32>>) -> bool {
    let n = out.len();
    for row in out {
        if row.len() != n {
            return false;
        }
        for &v in row {
            if v < 1 || v as usize > n {
                return false;
            }
        }
    }
    for i in 0..n {
        for a in 0..n {
            for b in (a + 1)..n {
                if out[i][a] == out[i][b] {
                    return false;
                }
                if out[a][i] == out[b][i] {
                    return false;
                }
            }
        }
    }
    true
}

#[test]
fn trivial_single_cell() {
    let result = solve_grid(vec![vec![0]]);
    assert_eq!(result, Ok(vec![vec![1]]));
}

#[test]
fn trivial_single_cell_prefilled() {
    let result = solve_grid(vec![vec![1]]);
    assert_eq!(result, Ok(vec![vec![1]]));
}

#[test]
fn empty_grid() {
    let result = solve_grid(Vec::new());
    assert_eq!(result, Ok(Vec::new()));
}

#[test]
fn two_by_two_from_one_clue() {
    let result = solve_grid(vec![vec![1, 0], vec![0, 0]]);
    assert_eq!(result, Ok(vec![vec![1, 2], vec![2, 1]]));
}

#[test]
fn unique_completion_of_blanked_diagonal() {
    let input = vec![
        vec![0, 2, 3, 4],
        vec![3, 0, 1, 2],
        vec![4, 3, 0, 1],
        vec![2, 1, 4, 0],
    ];
    let expected = vec![
        vec![1, 2, 3, 4],
        vec![3, 4, 1, 2],
        vec![4, 3, 2, 1],
        vec![2, 1, 4, 3],
    ];
    assert_eq!(solve_grid(input), Ok(expected));
}

#[test]
fn preservation_of_prefilled_cells() {
    let input = vec![
        vec![0, 0, 3, 0],
        vec![3, 0, 0, 2],
        vec![0, 3, 0, 0],
        vec![2, 0, 0, 0],
    ];
    let output = solve_grid(input.clone()).expect("this grid has a completion");
    assert!(is_valid_latin(&output));
    for i in 0..4 {
        for j in 0..4 {
            if input[i][j] != 0 {
                assert_eq!(output[i][j], input[i][j]);
            }
        }
    }
}

#[test]
fn idempotence_on_complete_valid_grid() {
    let full = vec![
        vec![1, 2, 3, 4],
        vec![3, 4, 1, 2],
        vec![4, 3, 2, 1],
        vec![2, 1, 4, 3],
    ];
    assert_eq!(solve_grid(full.clone()), Ok(full));
}

#[test]
fn backtracking_grid_yields_valid_solution() {
    // An entirely empty grid: neither naked nor hidden singles make any
    // progress, so the solver must branch.
    let input = vec![vec![0; 4]; 4];
    let output = solve_grid(input).expect("an empty grid always has a completion");
    assert!(is_valid_latin(&output));
}

#[test]
fn determinism_of_repeated_solves() {
    // Many valid solutions exist; repeated runs must agree on one.
    let input = vec![vec![0; 4]; 4];
    let first = solve_grid(input.clone());
    let second = solve_grid(input.clone());
    let third = solve_grid(input);
    assert_eq!(first, second);
    assert_eq!(second, third);
}

#[test]
fn row_conflict_is_unsolvable() {
    let input = vec![
        vec![2, 0, 2, 0],
        vec![0, 0, 0, 0],
        vec![0, 0, 0, 0],
        vec![0, 0, 0, 0],
    ];
    assert_eq!(solve_grid(input), Err(SolveError::Unsolvable));
}

#[test]
fn column_conflict_is_unsolvable() {
    let input = vec![
        vec![3, 0, 0, 0],
        vec![0, 0, 0, 0],
        vec![3, 0, 0, 0],
        vec![0, 0, 0, 0],
    ];
    assert_eq!(solve_grid(input), Err(SolveError::Unsolvable));
}

#[test]
fn overconstrained_but_conflict_free_is_unsolvable() {
    // No two equal pre-filled symbols share a line, yet no completion
    // exists: row 0 forces cell (0,3) to 4, while column 3 already has 4.
    let input = vec![
        vec![1, 2, 3, 0],
        vec![0, 0, 0, 4],
        vec![0, 0, 0, 0],
        vec![0, 0, 0, 0],
    ];
    assert_eq!(solve_grid(input), Err(SolveError::Unsolvable));
}

#[test]
fn well_formed_input_accepts_square_grid() {
    assert!(engine::well_formed_input(&vec![vec![0, 2], vec![1, 0]]));
    assert!(engine::well_formed_input(&Vec::new()));
}

#[test]
fn well_formed_input_rejects_ragged_grid() {
    assert!(!engine::well_formed_input(&vec![vec![1, 0], vec![0]]));
}

#[test]
fn well_formed_input_rejects_out_of_alphabet_symbol() {
    assert!(!engine::well_formed_input(&vec![vec![5, 0], vec![0, 0]]));
}

#[test]
fn elimination_resolves_two_by_two() {
    let mut g = from_input(&vec![vec![1, 0], vec![0, 0]]);
    assert_eq!(g.cells[0][0], vec![1]);
    assert_eq!(g.cells[0][1], vec![1, 2]);
    let changed = eliminate_pass(&mut g);
    assert!(changed);
    assert!(is_solved(&g));
    assert_eq!(
        g.cells,
        vec![vec![vec![1], vec![2]], vec![vec![2], vec![1]]]
    );
}

#[test]
fn hidden_single_is_resolved_first() {
    // Symbol 1 can only go in the first cell of row 0, even though that
    // cell still has two candidates.
    let mut g = Grid {
        n: 3,
        cells: vec![
            vec![vec![1, 2], vec![2, 3], vec![2, 3]],
            vec![vec![1, 2, 3], vec![1, 2, 3], vec![1, 2, 3]],
            vec![vec![1, 2, 3], vec![1, 2, 3], vec![1, 2, 3]],
        ],
    };
    let changed = find_unique_values(&mut g);
    assert!(changed);
    assert_eq!(g.cells[0][0], vec![1]);
}

#[test]
fn column_hidden_single_found_after_rows() {
    // No row offers a hidden single, but symbol 1 occurs in only one cell
    // of column 0, so that cell is resolved to it.
    let mut g = Grid {
        n: 3,
        cells: vec![
            vec![vec![1, 2], vec![1, 3], vec![1, 2, 3]],
            vec![vec![2, 3], vec![1, 2, 3], vec![1, 2]],
            vec![vec![2, 3], vec![1, 2], vec![1, 3]],
        ],
    };
    let changed = find_unique_values(&mut g);
    assert!(changed);
    assert_eq!(g.cells[0][0], vec![1]);
    assert_eq!(g.cells[1][0], vec![2, 3]);
}

#[test]
fn no_hidden_single_leaves_grid_unchanged() {
    let mut g = Grid {
        n: 2,
        cells: vec![
            vec![vec![1, 2], vec![1, 2]],
            vec![vec![1, 2], vec![1, 2]],
        ],
    };
    let changed = find_unique_values(&mut g);
    assert!(!changed);
    assert_eq!(
        g.cells,
        vec![
            vec![vec![1, 2], vec![1, 2]],
            vec![vec![1, 2], vec![1, 2]],
        ]
    );
}

#[test]
fn solver_solves_in_place() {
    let mut g = from_input(&vec![vec![0; 4]; 4]);
    let solved = solver(&mut g);
    assert!(solved);
    assert!(is_solved(&g));
}

#[test]
fn solver_reports_failure_on_conflict() {
    let mut g = from_input(&vec![vec![1, 0], vec![1, 0]]);
    let solved = solver(&mut g);
    assert!(!solved);
    // Propagation exposed the conflict by emptying the second cell of
    // column 0: elimination from both resolved cells left it nothing.
    assert!(g.cells[1][0].is_empty());
}

#[test]
fn larger_grid_with_two_digit_symbols() {
    // A 10-by-10 grid built by shifting a base row; blank a few cells.
    let mut full: Vec<Vec<u32>> = Vec::new();
    for i in 0..10u32 {
        let mut row = Vec::new();
        for j in 0..10u32 {
            row.push((i + j) % 10 + 1);
        }
        full.push(row);
    }
    let mut input = full.clone();
    input[0][0] = 0;
    input[3][7] = 0;
    input[9][9] = 0;
    let output = solve_grid(input).expect("the blanked grid still has its completion");
    assert!(is_valid_latin(&output));
    assert_eq!(output, full);
}
