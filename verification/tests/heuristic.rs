use npuzzle::heuristic::{Euclidian, Hamming, Heuristic, Heuristics, Manhatthan, HRST};
use npuzzle::map::gen_solved_map;
use npuzzle::state::{Point, State};

#[test]
fn goal_scores_zero_all_heuristics_all_sizes() {
    for n in 3..16 {
        let solved = gen_solved_map(n);
        let size = solved.size;
        for which in [Heuristics::Manhatthan, Heuristics::Hamming, Heuristics::Euclidian] {
            let h = HRST::build(which, &solved, size);
            let s = State::build_state(solved.board.clone(), size);
            assert_eq!(h.compute_score(&s), 0);
        }
    }
}

#[test]
fn manhattan_single_swap_scores_two() {
    let solved = gen_solved_map(3);
    let h = Manhatthan::new(&solved, 3);
    // The blank sits at flat cell 4; swap it with the tile above (cell 1).
    let s = State::build_state(solved.board.clone(), 3);
    let child = s.build_child(&Point { x: 0, y: 1 }, 3);
    assert_eq!(child.board, vec![1, 0, 3, 8, 2, 4, 7, 6, 5]);
    assert_eq!(h.compute_score(&child), 2);
}

#[test]
fn hamming_counts_misplaced_tiles_not_blank() {
    let solved = gen_solved_map(3);
    let h = Hamming::new(&solved, 3);
    // One swap moves one tile and the blank: only the tile counts.
    let s = State::build_state(vec![1, 0, 3, 8, 2, 4, 7, 6, 5], 3);
    assert_eq!(h.compute_score(&s), 1);
    // Exchanging two tiles misplaces both.
    let s = State::build_state(vec![2, 1, 3, 8, 0, 4, 7, 6, 5], 3);
    assert_eq!(h.compute_score(&s), 2);
}

#[test]
fn manhattan_dist_is_grid_distance() {
    let a = Point { x: 0, y: 0 };
    let b = Point { x: 2, y: 1 };
    assert_eq!(Manhatthan::dist(&a, &b), 3);
    assert_eq!(Manhatthan::dist(&b, &a), 3);
    assert_eq!(Manhatthan::dist(&a, &a), 0);
}

#[test]
fn euclidian_dist_is_squared_coordinate_difference() {
    let a = Point { x: 1, y: 2 };
    let b = Point { x: 3, y: 1 };
    // |1*1 - 3*3| + |2*2 - 1*1| = 8 + 3
    assert_eq!(Euclidian::dist(&a, &b), 11);
    assert_eq!(Euclidian::dist(&a, &a), 0);
}

#[test]
fn euclidian_scores_one_swap() {
    let solved = gen_solved_map(3);
    let h = Euclidian::new(&solved, 3);
    // Swap the blank (cell 4: row 1, col 1) with the tile above (cell 1:
    // row 0, col 1): tile 2 sits at (1,1) instead of (0,1): |1-0| in rows
    // squared: |1*1 - 0*0| = 1; the blank moved from (1,1) to (0,1): 1.
    let s = State::build_state(vec![1, 0, 3, 8, 2, 4, 7, 6, 5], 3);
    assert_eq!(h.compute_score(&s), 2);
}
