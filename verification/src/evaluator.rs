//! A standalone grid-distance scorer over a precomputed target table; the
//! same arithmetic as the grid-distance strategy, kept as its own small
//! component.

use crate::heuristic::{
    build_target_table, lemma_point_of_bounds, manh_dist, manh_sum, table_matches, table_wf,
    Manhatthan,
};
use crate::map::{board_wf, Board};
use crate::state::{Point, State};
use vstd::prelude::*;

verus! {

pub struct Evaluator {
    pub solved_table: Vec<Point>,
    pub size: u16,
}

impl Evaluator {
    /// Precomputes, for every tile value of the goal board, its goal
    /// coordinate.
    pub fn build_evaluator(solved_map: &Board) -> (r: Evaluator)
        requires
            board_wf(solved_map.board@, solved_map.size),
        ensures
            r.size == solved_map.size,
            table_wf(r.solved_table@, r.size),
            table_matches(r.solved_table@, solved_map.board@, r.size),
    {
        let solved_table = build_target_table(solved_map, solved_map.size);
        Evaluator { solved_table, size: solved_map.size }
    }

    /// Sum over all cells, the blank's included, of the grid distance from
    /// the cell to the goal cell of the value it holds.
    pub fn evaluate(&self, state: &State) -> (r: u64)
        requires
            2 <= self.size <= 255,
            table_wf(self.solved_table@, self.size),
            state.board@.len() == self.solved_table@.len(),
            forall|i: int|
                0 <= i < state.board@.len() ==> (#[trigger] state.board@[i])
                    < state.board@.len(),
        ensures
            r == manh_sum(self.solved_table@, state.board@, self.size, state.board@.len() as int),
    {
        let t = &self.solved_table;
        let b = &state.board;
        let n = b.len();
        let size = self.size;
        let mut score: u64 = 0;
        proof {
            assert(size * size <= 65025) by (nonlinear_arith)
                requires
                    size <= 255,
            ;
        }
        let mut i: usize = 0;
        while i < n
            invariant
                0 <= i <= n,
                n == b@.len(),
                n == t@.len(),
                n == size * size,
                n <= 65025,
                2 <= size <= 255,
                table_wf(t@, size),
                forall|k: int| 0 <= k < n ==> (#[trigger] b@[k]) < n,
                score == manh_sum(t@, b@, size, i as int),
                score <= 510 * i,
            decreases n - i,
        {
            proof {
                lemma_point_of_bounds(i as int, size);
            }
            let point = Point::from_1d(i as u16, size);
            let target = t[b[i] as usize];
            let d = Manhatthan::dist(&point, &target);
            score += d as u64;
            i += 1;
        }
        score
    }
}

} // verus!
