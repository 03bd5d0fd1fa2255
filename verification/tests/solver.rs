use npuzzle::heuristic::{Heuristics, HRST};
use npuzzle::map::{gen_solved_map, Board};
use npuzzle::solver::{Priorities, Solution, Solver};

fn solver_for(size: usize, which: Heuristics) -> Solver {
    let solved = gen_solved_map(size);
    let h = HRST::build(which, &solved, solved.size);
    Solver::new(&solved, h)
}

fn is_single_slide(a: &[u16], b: &[u16], size: usize) -> bool {
    if a.len() != b.len() {
        return false;
    }
    let diff: Vec<usize> = (0..a.len()).filter(|&i| a[i] != b[i]).collect();
    if diff.len() != 2 {
        return false;
    }
    let (i, j) = (diff[0], diff[1]);
    // The blank moves from one of the two cells to the other.
    let (zi, zj) = if a[i] == 0 { (i, j) } else { (j, i) };
    if a[zi] != 0 || b[zj] != 0 || b[zi] != a[zj] {
        return false;
    }
    let (r1, c1) = (zi / size, zi % size);
    let (r2, c2) = (zj / size, zj % size);
    r1.abs_diff(r2) + c1.abs_diff(c2) == 1
}

fn check_solution(sol: &Solution, input: &[u16], goal: &[u16], size: usize) {
    assert_eq!(sol.size as usize, size);
    assert!(sol.states.len() >= 2);
    assert_eq!(sol.states[0].board, input);
    assert_eq!(sol.states[sol.states.len() - 1].board, goal);
    for w in sol.states.windows(2) {
        assert!(is_single_slide(&w[0].board, &w[1].board, size));
    }
    for i in 0..sol.states.len() {
        for j in i + 1..sol.states.len() {
            assert_ne!(sol.states[i].board, sol.states[j].board);
        }
    }
    assert!(sol.memory >= sol.states.len());
    if size == 3 {
        assert!(sol.memory <= 362880); // at most 9! distinct boards exist
    }
    assert!(sol.time + 1 >= sol.states.len());
}

#[test]
fn strategy_orthogonality() {
    let input = vec![1, 3, 4, 8, 2, 0, 7, 6, 5];
    let goal = vec![1, 2, 3, 8, 0, 4, 7, 6, 5];
    for which in [Heuristics::Manhatthan, Heuristics::Hamming, Heuristics::Euclidian] {
        for prio in [Priorities::Linear, Priorities::Uniform, Priorities::Greedy] {
            let solver = solver_for(3, which);
            assert!(solver.is_solvable(&Board { size: 3, board: input.clone() }));
            let sol = solver
                .solve_with(prio, Board { size: 3, board: input.clone() })
                .expect("a solvable board must be solved");
            check_solution(&sol, &input, &goal, 3);
            if matches!(prio, Priorities::Uniform) {
                // Expanding by depth alone finds a shortest path: the input
                // was scrambled with three slides and none shorter exists.
                assert_eq!(sol.states.len(), 4);
            }
        }
    }
}

#[test]
fn dedup_metrics_one_move() {
    let input = vec![1, 2, 3, 8, 4, 0, 7, 6, 5];
    let solver = solver_for(3, Heuristics::Manhatthan);
    let sol = solver
        .solve_with(Priorities::Linear, Board { size: 3, board: input.clone() })
        .unwrap();
    assert_eq!(sol.states.len(), 2);
    // Three neighbours were generated before the goal appeared; all four
    // distinct boards (root included) were stored.
    assert_eq!(sol.time, 3);
    assert_eq!(sol.memory, 4);
}

#[test]
fn inversion_counts_pinned() {
    assert_eq!(Solver::get_inv_count(&vec![7, 1, 2, 3, 0, 6, 8, 4, 5]), 10);
    assert_eq!(Solver::get_inv_count(&vec![1, 2, 3, 8, 0, 4, 7, 6, 5]), 7);
    assert_eq!(Solver::get_inv_count(&vec![1, 2, 3, 0]), 0);
}

#[test]
fn solvability_scenario() {
    // Parity check: 10 inversions against the goal's 7 on an odd side.
    let solver = solver_for(3, Heuristics::Manhatthan);
    let board = Board { size: 3, board: vec![7, 1, 2, 3, 0, 6, 8, 4, 5] };
    assert!(!solver.is_solvable(&board));
}

#[test]
fn solvability_flips_on_tile_swap() {
    let solver = solver_for(3, Heuristics::Manhatthan);
    let solved = Board { size: 3, board: vec![1, 2, 3, 8, 0, 4, 7, 6, 5] };
    assert!(solver.is_solvable(&solved));
    // Exchange the two non-blank, non-adjacent tiles 1 and 5.
    let swapped = Board { size: 3, board: vec![5, 2, 3, 8, 0, 4, 7, 6, 1] };
    assert!(!solver.is_solvable(&swapped));
}

#[test]
fn solvability_even_side() {
    let solver = solver_for(4, Heuristics::Manhatthan);
    let solved = gen_solved_map(4);
    assert!(solver.is_solvable(&solved));
    // Exchange the non-blank tiles 1 and 7 (first and last cell).
    let mut tiles = solved.board.clone();
    tiles.swap(0, 15);
    assert!(!solver.is_solvable(&Board { size: 4, board: tiles }));
}

#[test]
fn solve_even_board() {
    let solved = gen_solved_map(4);
    let goal = solved.board.clone();
    // One slide away from the goal: the blank at cell 9 moved from cell 10.
    let mut tiles = goal.clone();
    tiles.swap(9, 10);
    let solver = solver_for(4, Heuristics::Manhatthan);
    assert!(solver.is_solvable(&Board { size: 4, board: tiles.clone() }));
    let sol = solver
        .solve_with(Priorities::Linear, Board { size: 4, board: tiles.clone() })
        .unwrap();
    check_solution(&sol, &tiles, &goal, 4);
}
