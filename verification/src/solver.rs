//! The search engine: solvability gate, then a deduplicated best-first loop
//! over a node arena, generic over the frontier ordering strategy, producing
//! the path from the input board to the goal with cost metrics.

use crate::heuristic::HRST;
use crate::map::{board_wf, gen_solved_map, solved_board, Board};
use crate::node::{
    chain_of, chain_to, clone_board, lemma_chain_props, node_linked, parents_ok, GreedyPriority,
    LinearPriority, Node, Priority, UniformPriority,
};
use crate::parity::{
    inv_count, inv_from, inv_pair, lemma_cnt_from_bounds, lemma_inv_from_bounds, parity_adjust,
    spec_solvable,
};
use crate::parity::cnt_from;
use crate::state::{
    first_zero, is_slide, lemma_child_wf, lemma_first_zero_at, lemma_slide_targets, path_ok,
    reachable, state_wf, State,
};
use crate::visited::{visited_insert, visited_len, visited_new, visited_set};
use vstd::prelude::*;

verus! {

/// The caller-facing frontier ordering selector.
#[derive(Debug, Clone, Copy)]
pub enum Priorities {
    Linear,
    Greedy,
    Uniform,
}

/// A configured engine: the scoring strategy chosen for this run.
pub struct Solver {
    pub heuristic: HRST,
}

/// The outcome of a successful search: the states from the input board to
/// the goal, the board side, the number of generated neighbour states
/// (`time`) and the number of distinct states ever stored (`memory`).
pub struct Solution {
    pub states: Vec<State>,
    pub size: u16,
    pub time: usize,
    pub memory: usize,
}

/// Everything a returned solution promises: it starts at the input board,
/// every step is one blank slide between well-formed boards, no board is
/// visited twice, the final board scores 0 under the strategy used, and the
/// metrics dominate the path length.
pub open spec fn solution_ok(sol: Solution, root: Seq<u16>, size: u16, h: HRST) -> bool {
    &&& sol.size == size
    &&& sol.states@.len() >= 2
    &&& sol.states@[0].board@ == root
    &&& h.spec_score(sol.states@[sol.states@.len() - 1].board@) == 0
    &&& forall|k: int|
        0 <= k < sol.states@.len() ==> board_wf((#[trigger] sol.states@[k]).board@, size)
    &&& forall|k: int|
        0 <= k < sol.states@.len() - 1 ==> is_slide(
            (#[trigger] sol.states@[k]).board@,
            sol.states@[k + 1].board@,
            size,
        )
    &&& forall|k: int, l: int|
        0 <= k < l < sol.states@.len() ==> sol.states@[k].board@ != sol.states@[l].board@
    &&& sol.memory >= sol.states@.len()
    &&& sol.time + 1 >= sol.states@.len()
}

/// Some frontier entry points at arena index `idx`.
pub open spec fn in_frontier<P: Priority>(frontier: Seq<P>, idx: int) -> bool {
    exists|k: int| 0 <= k < frontier.len() && (#[trigger] frontier[k]).spec_index() == idx
}

/// Every board one blank slide away from `b` is already in the set.
pub open spec fn covered(b: Seq<u16>, vset: Set<Seq<u16>>, size: u16) -> bool {
    forall|c: Seq<u16>| is_slide(b, c, size) ==> vset.contains(c)
}

/// The set is closed under blank slides.
pub open spec fn slide_closed(s: Set<Seq<u16>>, size: u16) -> bool {
    forall|x: Seq<u16>, y: Seq<u16>| s.contains(x) && is_slide(x, y, size) ==> s.contains(y)
}

/// The running state of one search: a rooted arena of well-formed, pairwise
/// distinct states, the visited set holding exactly the arena's boards, a
/// frontier whose entries point into the arena, no stored state but possibly
/// the root scoring 0, and every arena entry either still awaiting expansion
/// on the frontier or with all its neighbours already stored.  The node at
/// index `pending` (none when negative) is the one being expanded and is
/// excused from that last demand.
pub open spec fn search_inv_at<P: Priority>(
    h: HRST,
    nodes: Seq<Node>,
    vset: Set<Seq<u16>>,
    frontier: Seq<P>,
    size: u16,
    root: Seq<u16>,
    pending: int,
) -> bool {
    &&& nodes.len() >= 1
    &&& nodes.len() <= usize::MAX
    &&& nodes[0].parent is None
    &&& nodes[0].moves == 0
    &&& nodes[0].state.board@ == root
    &&& forall|i: int| 0 <= i < nodes.len() ==> state_wf((#[trigger] nodes[i]).state, size)
    &&& forall|i: int| 1 <= i < nodes.len() ==> node_linked(nodes, i, size)
    &&& forall|i: int| 0 <= i < nodes.len() ==> (#[trigger] nodes[i].moves) <= i
    &&& forall|i: int| 0 <= i < nodes.len() ==> vset.contains((#[trigger] nodes[i]).state.board@)
    &&& forall|i: int, j: int|
        0 <= i < j < nodes.len() ==> nodes[i].state.board@ != nodes[j].state.board@
    &&& vset.finite()
    &&& vset.len() == nodes.len()
    &&& forall|k: int|
        0 <= k < frontier.len() ==> 0 <= (#[trigger] frontier[k]).spec_index() < nodes.len()
    &&& forall|i: int|
        1 <= i < nodes.len() ==> h.spec_score((#[trigger] nodes[i]).state.board@) != 0
    &&& forall|i: int|
        0 <= i < nodes.len() && i != pending ==> in_frontier(frontier, i) || covered(
            (#[trigger] nodes[i]).state.board@,
            vset,
            size,
        )
}

/// The search invariant with no expansion in progress.
pub open spec fn search_inv<P: Priority>(
    h: HRST,
    nodes: Seq<Node>,
    vset: Set<Seq<u16>>,
    frontier: Seq<P>,
    size: u16,
    root: Seq<u16>,
) -> bool {
    search_inv_at(h, nodes, vset, frontier, size, root, -1)
}

impl Solver {
    /// Keeps the chosen strategy; the goal board it was built from is the
    /// strategy's own concern.
    pub fn new(solved_map: &Board, heuristic: HRST) -> (r: Self)
        ensures
            r.heuristic == heuristic,
    {
        let _ = solved_map;
        Self { heuristic }
    }

    /// Counts the inverted non-blank pairs of a board: positions `i < j`
    /// carrying real tiles with the earlier tile larger.
    pub fn get_inv_count(board: &Vec<u16>) -> (r: u64)
        requires
            1 <= board@.len() <= 65025,
        ensures
            r == inv_count(board@),
    {
        let b = board;
        let n = b.len();
        let mut count: u64 = 0;
        proof {
            lemma_inv_from_bounds(b@, 0);
            assert((n as int) * (n as int) <= 4228250625) by (nonlinear_arith)
                requires
                    n <= 65025,
            ;
        }
        let mut i: usize = 0;
        while i < n - 1
            invariant
                0 <= i <= n - 1,
                1 <= n == b@.len() <= 65025,
                count == inv_count(b@) - inv_from(b@, i as int),
                inv_count(b@) <= 4228250625,
            decreases n - i,
        {
            proof {
                lemma_inv_from_bounds(b@, i as int);
                lemma_inv_from_bounds(b@, i + 1);
                lemma_cnt_from_bounds(b@, b@[i as int], i + 1);
            }
            let left = b[i];
            let mut j: usize = i + 1;
            while j < n
                invariant
                    i + 1 <= j <= n,
                    i < n - 1,
                    1 <= n == b@.len() <= 65025,
                    left == b@[i as int],
                    inv_count(b@) <= 4228250625,
                    0 <= inv_from(b@, i + 1) <= inv_count(b@),
                    0 <= cnt_from(b@, left, j as int),
                    cnt_from(b@, left, i + 1) - cnt_from(b@, left, j as int) >= 0,
                    count == inv_count(b@) - inv_from(b@, i as int) + (cnt_from(b@, left, i + 1)
                        - cnt_from(b@, left, j as int)),
                    count <= inv_count(b@),
                decreases n - j,
            {
                proof {
                    lemma_cnt_from_bounds(b@, left, j + 1);
                    assert(cnt_from(b@, left, j as int) == inv_pair(left, b@[j as int])
                        + cnt_from(b@, left, j + 1));
                    lemma_inv_from_bounds(b@, i as int);
                    lemma_cnt_from_bounds(b@, left, i + 1);
                    assert(inv_from(b@, i as int) == cnt_from(b@, left, i + 1) + inv_from(
                        b@,
                        i + 1,
                    ));
                }
                let right = b[j];
                if left > right && right != 0 && left != 0 {
                    count += 1;
                }
                j += 1;
            }
            proof {
                assert(cnt_from(b@, left, n as int) == 0);
                assert(inv_from(b@, i as int) == cnt_from(b@, left, i + 1) + inv_from(b@, i + 1));
            }
            i += 1;
        }
        proof {
            assert(inv_from(b@, n - 1) == cnt_from(b@, b@[n - 1], n as int) + inv_from(
                b@,
                n as int,
            ));
            assert(cnt_from(b@, b@[n - 1], n as int) == 0);
            assert(inv_from(b@, n as int) == 0);
        }
        count
    }

    /// The solvability gate: compares the parity of the board's adjusted
    /// inversion count with the solved board's, without any search.
    pub fn is_solvable(&self, map: &Board) -> (r: bool)
        requires
            board_wf(map.board@, map.size),
        ensures
            r == spec_solvable(map.board@, map.size),
    {
        let size = map.size;
        proof {
            assert(4 <= size * size <= 65025) by (nonlinear_arith)
                requires
                    2 <= size <= 255,
            ;
        }
        let solved_map = gen_solved_map(size as usize);
        let mut inv_b: u64 = Self::get_inv_count(&map.board);
        let mut inv_g: u64 = Self::get_inv_count(&solved_map.board);
        proof {
            lemma_inv_from_bounds(map.board@, 0);
            lemma_inv_from_bounds(solved_map.board@, 0);
            assert((65025 as int) * (65025 as int) == 4228250625) by (nonlinear_arith);
            assert((map.board@.len() as int) * (map.board@.len() as int) <= 4228250625)
                by (nonlinear_arith)
                requires
                    map.board@.len() <= 65025,
            ;
            assert((solved_map.board@.len() as int) * (solved_map.board@.len() as int)
                <= 4228250625) by (nonlinear_arith)
                requires
                    solved_map.board@.len() <= 65025,
            ;
        }
        if size % 2 == 0 {
            let zb = blank_index(&map.board);
            let zg = blank_index(&solved_map.board);
            inv_b = inv_b + (zb as u64 / size as u64);
            inv_g = inv_g + (zg as u64 / size as u64);
        }
        proof {
            assert(inv_b == inv_count(map.board@) + parity_adjust(map.board@, size));
            assert(inv_g == inv_count(solved_board(size as int)) + parity_adjust(
                solved_board(size as int),
                size,
            ));
        }
        (inv_b % 2) == (inv_g % 2)
    }

    /// Runs the search under the given frontier ordering.  Any returned
    /// solution satisfies `solution_ok` for the strategy in use.  `None`
    /// comes only from an exhausted frontier, and the contract says what
    /// that means: no board reachable from the input by blank slides scores
    /// 0, apart from the input itself -- the loop inspects boards when they
    /// are generated, so a board that already sits on the goal is reported
    /// this way after the search exhausts its component.
    pub fn solve<P: Priority>(&self, map: Board) -> (r: Option<Solution>)
        requires
            self.heuristic.wf(),
            board_wf(map.board@, map.size),
            self.heuristic.board_len() == map.board@.len(),
        ensures
            r matches Some(sol) ==> solution_ok(sol, map.board@, map.size, self.heuristic),
            r is None ==> forall|b: Seq<u16>|
                reachable(map.board@, b, map.size) && b != map.board@ ==> (
                #[trigger] self.heuristic.spec_score(b)) != 0,
    {
        let size = map.size;
        let ghost rootb = map.board@;
        let root = build_root(map);
        let root_score = self.heuristic.compute_score(&root);
        let root_board_copy = clone_board(&root.board);

        let mut nodes: Vec<Node> = Vec::new();
        let mut visited = visited_new();
        let mut frontier: Vec<P> = Vec::new();
        let mut time: usize = 0;

        nodes.push(Node { parent: None, state: root, moves: 0 });
        visited_insert(&mut visited, root_board_copy);
        frontier.push(P::new(0, root_score, 0));
        proof {
            assert(visited_set(visited) =~= Set::<Seq<u16>>::empty().insert(rootb));
            assert(visited_set(visited).contains(rootb));
            assert(visited_set(visited).len() == 1);
            assert(frontier@[0].spec_index() == 0);
            assert(in_frontier(frontier@, 0));
        }
        loop
            invariant
                self.heuristic.wf(),
                self.heuristic.board_len() == size * size,
                size == map.size,
                rootb == map.board@,
                search_inv(self.heuristic, nodes@, visited_set(visited), frontier@, size, rootb),
                time >= nodes@.len() - 1,
            decreases (usize::MAX - nodes@.len()) + frontier@.len(),
        {
            if frontier.is_empty() {
                proof {
                    lemma_exhausted_component(
                        self.heuristic,
                        nodes@,
                        visited_set(visited),
                        frontier@,
                        size,
                        rootb,
                    );
                }
                return None;
            }
            let ghost pre_pop = frontier@;
            let entry = pop_min(&mut frontier);
            let node_index = entry.get_index();
            proof {
                let k = choose|k: int|
                    0 <= k < pre_pop.len() && entry == pre_pop[k] && frontier@ == pre_pop.update(
                        k,
                        pre_pop.last(),
                    ).drop_last();
                lemma_pop_keeps_entries(pre_pop, frontier@, k);
            }
            let children = nodes[node_index].state.gen_children4(size);
            let ghost parent_board = nodes@[node_index as int].state.board@;
            let ghost parent_state = nodes@[node_index as int].state;
            let ghost chn = children;
            proof {
                let ps = nodes@[node_index as int].state;
                if ps.zero.x > 0 {
                    lemma_child_wf(
                        ps,
                        children.0.unwrap(),
                        ps.zero.x - 1,
                        ps.zero.y as int,
                        size,
                    );
                }
                if ps.zero.x + 1 < size {
                    lemma_child_wf(
                        ps,
                        children.1.unwrap(),
                        ps.zero.x + 1,
                        ps.zero.y as int,
                        size,
                    );
                }
                if ps.zero.y > 0 {
                    lemma_child_wf(
                        ps,
                        children.2.unwrap(),
                        ps.zero.x as int,
                        ps.zero.y - 1,
                        size,
                    );
                }
                if ps.zero.y + 1 < size {
                    lemma_child_wf(
                        ps,
                        children.3.unwrap(),
                        ps.zero.x as int,
                        ps.zero.y + 1,
                        size,
                    );
                }
            }
            let (c0, c1, c2, c3) = children;
            let r0 = process_child(
                &self.heuristic,
                &mut nodes,
                &mut visited,
                &mut frontier,
                &mut time,
                c0,
                node_index,
                size,
                Ghost(rootb),
                Ghost(parent_board),
            );
            if let Some(sol) = r0 {
                return Some(sol);
            }
            let r1 = process_child(
                &self.heuristic,
                &mut nodes,
                &mut visited,
                &mut frontier,
                &mut time,
                c1,
                node_index,
                size,
                Ghost(rootb),
                Ghost(parent_board),
            );
            if let Some(sol) = r1 {
                return Some(sol);
            }
            let r2 = process_child(
                &self.heuristic,
                &mut nodes,
                &mut visited,
                &mut frontier,
                &mut time,
                c2,
                node_index,
                size,
                Ghost(rootb),
                Ghost(parent_board),
            );
            if let Some(sol) = r2 {
                return Some(sol);
            }
            let r3 = process_child(
                &self.heuristic,
                &mut nodes,
                &mut visited,
                &mut frontier,
                &mut time,
                c3,
                node_index,
                size,
                Ghost(rootb),
                Ghost(parent_board),
            );
            if let Some(sol) = r3 {
                return Some(sol);
            }
            proof {
                let vfin = visited_set(visited);
                let zx = parent_state.zero.x as int;
                let zy = parent_state.zero.y as int;
                assert(covered(parent_board, vfin, size)) by {
                    assert forall|bb: Seq<u16>| is_slide(parent_board, bb, size) implies
                        vfin.contains(bb) by {
                        lemma_slide_targets(parent_state, bb, size);
                        if zx > 0 && bb == chn.0.unwrap().board@ {
                            assert(vfin.contains(bb));
                        } else if zx + 1 < size && bb == chn.1.unwrap().board@ {
                            assert(vfin.contains(bb));
                        } else if zy > 0 && bb == chn.2.unwrap().board@ {
                            assert(vfin.contains(bb));
                        } else {
                            assert(bb == chn.3.unwrap().board@);
                            assert(vfin.contains(bb));
                        }
                    }
                }
                assert forall|idx: int| 0 <= idx < nodes@.len() implies in_frontier(
                    frontier@,
                    idx,
                ) || covered((#[trigger] nodes@[idx]).state.board@, vfin, size) by {
                    if idx == node_index {
                        assert(nodes@[idx].state.board@ == parent_board);
                    }
                }
            }
        }
    }

    /// Runs the search under the strategy the caller selected.
    pub fn solve_with(&self, priority: Priorities, map: Board) -> (r: Option<Solution>)
        requires
            self.heuristic.wf(),
            board_wf(map.board@, map.size),
            self.heuristic.board_len() == map.board@.len(),
        ensures
            r matches Some(sol) ==> solution_ok(sol, map.board@, map.size, self.heuristic),
            r is None ==> forall|b: Seq<u16>|
                reachable(map.board@, b, map.size) && b != map.board@ ==> (
                #[trigger] self.heuristic.spec_score(b)) != 0,
    {
        match priority {
            Priorities::Linear => self.solve::<LinearPriority>(map),
            Priorities::Uniform => self.solve::<UniformPriority>(map),
            Priorities::Greedy => self.solve::<GreedyPriority>(map),
        }
    }
}

/// Builds the root state of a search from a validated board.
fn build_root(map: Board) -> (s: State)
    requires
        board_wf(map.board@, map.size),
    ensures
        s.board@ == map.board@,
        state_wf(s, map.size),
{
    let ghost size = map.size;
    let ghost b = map.board@;
    proof {
        lemma_first_zero_finds(b);
    }
    let s = State::from(map);
    proof {
        let fz = first_zero(b);
        assert(0 <= fz < b.len() && b[fz] == 0);
        assert((size as int) * (size as int) <= 65025) by (nonlinear_arith)
            requires
                size <= 255,
        ;
        vstd::arithmetic::div_mod::lemma_fundamental_div_mod(fz, size as int);
        vstd::arithmetic::div_mod::lemma_div_pos_is_pos(fz, size as int);
        vstd::arithmetic::div_mod::lemma_multiply_divide_lt(fz, size as int, size as int);
        vstd::arithmetic::div_mod::lemma_mod_bound(fz, size as int);
        vstd::arithmetic::mul::lemma_mul_is_commutative(fz / (size as int), size as int);
    }
    s
}

/// A board with a blank somewhere has its first blank inside the board.
proof fn lemma_first_zero_finds(b: Seq<u16>)
    requires
        exists|i: int| 0 <= i < b.len() && b[i] == 0,
    ensures
        0 <= first_zero(b) < b.len(),
        b[first_zero(b)] == 0,
    decreases b.len(),
{
    if b.len() > 0 && b[0] != 0 {
        let t = b.drop_first();
        let i = choose|i: int| 0 <= i < b.len() && b[i] == 0;
        assert(t[i - 1] == b[i]);
        lemma_first_zero_finds(t);
    }
}

/// Finds the blank's flat position on a board known to have one.
fn blank_index(board: &Vec<u16>) -> (r: usize)
    requires
        exists|i: int| 0 <= i < board@.len() && board@[i] == 0,
    ensures
        r == first_zero(board@),
        r < board@.len(),
{
    let n = board.len();
    let mut i: usize = 0;
    while i < n && board[i] != 0
        invariant
            0 <= i <= n,
            n == board@.len(),
            forall|j: int| 0 <= j < i ==> board@[j] != 0,
        decreases n - i,
    {
        i += 1;
    }
    proof {
        if i == n {
            let k = choose|k: int| 0 <= k < board@.len() && board@[k] == 0;
            assert(board@[k] != 0);
        }
        lemma_first_zero_at(board@, i as int);
    }
    i
}

/// Extracts a frontier entry with the least ordering key.
fn pop_min<P: Priority>(frontier: &mut Vec<P>) -> (r: P)
    requires
        old(frontier)@.len() >= 1,
    ensures
        final(frontier)@.len() == old(frontier)@.len() - 1,
        exists|k: int|
            0 <= k < old(frontier)@.len() && r == old(frontier)@[k] && final(frontier)@ == old(
                frontier,
            )@.update(k, old(frontier)@.last()).drop_last(),
        forall|k: int|
            0 <= k < old(frontier)@.len() ==> r.spec_key() <= (#[trigger] old(
                frontier,
            )@[k]).spec_key(),
{
    let n = frontier.len();
    let mut best: usize = 0;
    let mut idx: usize = 1;
    while idx < n
        invariant
            1 <= idx <= n,
            n == frontier@.len(),
            0 <= best < idx,
            forall|k: int|
                0 <= k < idx ==> frontier@[best as int].spec_key() <= (#[trigger] frontier@[
                    k
                ]).spec_key(),
        decreases n - idx,
    {
        if frontier[idx].le(&frontier[best]) {
            best = idx;
        }
        idx += 1;
    }
    let ghost pre = frontier@;
    let r = frontier.swap_remove(best);
    proof {
        assert(r == pre[best as int]);
        assert(frontier@ == pre.update(best as int, pre.last()).drop_last());
    }
    r
}

/// What remains after extracting one frontier entry: every index that was on
/// the frontier either was the extracted entry's or still is on it.
proof fn lemma_pop_keeps_entries<P: Priority>(pre: Seq<P>, post: Seq<P>, k: int)
    requires
        0 <= k < pre.len(),
        post == pre.update(k, pre.last()).drop_last(),
    ensures
        forall|idx: int|
            in_frontier(pre, idx) ==> idx == pre[k].spec_index() || in_frontier(post, idx),
        forall|j: int|
            0 <= j < post.len() ==> exists|m: int| 0 <= m < pre.len() && (#[trigger] post[j])
                == pre[m],
{
    assert forall|idx: int| in_frontier(pre, idx) implies idx == pre[k].spec_index()
        || in_frontier(post, idx) by {
        let j = choose|j: int| 0 <= j < pre.len() && (#[trigger] pre[j]).spec_index() == idx;
        if j != k {
            if j == pre.len() - 1 {
                assert(post[k] == pre[j]);
                assert(in_frontier(post, idx));
            } else {
                assert(post[j] == pre[j]);
                assert(in_frontier(post, idx));
            }
        }
    }
    assert forall|j: int| 0 <= j < post.len() implies exists|m: int|
        0 <= m < pre.len() && (#[trigger] post[j]) == pre[m] by {
        if j == k {
            assert(post[j] == pre[pre.len() - 1]);
        } else {
            assert(post[j] == pre[j]);
        }
    }
}

/// A path of blank slides starting inside a slide-closed set stays inside.
proof fn lemma_closed_path(s: Set<Seq<u16>>, path: Seq<Seq<u16>>, size: u16, i: int)
    requires
        slide_closed(s, size),
        path_ok(path, size),
        s.contains(path[0]),
        0 <= i < path.len(),
    ensures
        s.contains(path[i]),
    decreases i,
{
    if i > 0 {
        lemma_closed_path(s, path, size, i - 1);
        assert(is_slide(path[i - 1], path[i], size));
    }
}

/// When the frontier empties, the stored boards are the whole component of
/// the root under blank slides, and none of them but possibly the root
/// scores 0.
proof fn lemma_exhausted_component<P: Priority>(
    h: HRST,
    nodes: Seq<Node>,
    vset: Set<Seq<u16>>,
    frontier: Seq<P>,
    size: u16,
    root: Seq<u16>,
)
    requires
        search_inv(h, nodes, vset, frontier, size, root),
        frontier.len() == 0,
    ensures
        forall|b: Seq<u16>|
            reachable(root, b, size) && b != root ==> (#[trigger] h.spec_score(b)) != 0,
{
    let boards = nodes.map_values(|n: Node| n.state.board@);
    assert(boards.no_duplicates());
    boards.unique_seq_to_set();
    let bset = boards.to_set();
    assert(bset.subset_of(vset)) by {
        assert forall|x: Seq<u16>| bset.contains(x) implies vset.contains(x) by {
            let i = choose|i: int| 0 <= i < boards.len() && boards[i] == x;
            assert(vset.contains(nodes[i].state.board@));
        }
    }
    vstd::set_lib::lemma_subset_equality(bset, vset);
    assert(slide_closed(vset, size)) by {
        assert forall|x: Seq<u16>, y: Seq<u16>| vset.contains(x) && is_slide(x, y, size) implies
            vset.contains(y) by {
            assert(bset.contains(x));
            let i = choose|i: int| 0 <= i < boards.len() && boards[i] == x;
            assert(!in_frontier(frontier, i));
            assert(covered(nodes[i].state.board@, vset, size));
        }
    }
    assert forall|b: Seq<u16>| reachable(root, b, size) && b != root implies (
    #[trigger] h.spec_score(b)) != 0 by {
        let path = choose|path: Seq<Seq<u16>>|
            path_ok(path, size) && path[0] == root && path[path.len() - 1] == b;
        assert(vset.contains(nodes[0].state.board@));
        lemma_closed_path(vset, path, size, path.len() - 1);
        assert(bset.contains(b));
        let i = choose|i: int| 0 <= i < boards.len() && boards[i] == b;
        assert(i != 0);
        assert(h.spec_score(nodes[i].state.board@) != 0);
    }
}

/// Handles one generated neighbour: drops it if its board was already seen,
/// otherwise stores it, and either finishes the search (score 0) or queues
/// it for expansion.  The search invariant is preserved and the combined
/// arena-plus-frontier measure never grows.
#[verifier::rlimit(30)]
fn process_child<P: Priority>(
    h: &HRST,
    nodes: &mut Vec<Node>,
    visited: &mut ahash::AHashSet<Vec<u16>>,
    frontier: &mut Vec<P>,
    time: &mut usize,
    child: Option<State>,
    parent_idx: usize,
    size: u16,
    root: Ghost<Seq<u16>>,
    parent_board: Ghost<Seq<u16>>,
) -> (res: Option<Solution>)
    requires
        h.wf(),
        h.board_len() == size * size,
        search_inv_at(
            *h,
            old(nodes)@,
            visited_set(*old(visited)),
            old(frontier)@,
            size,
            root@,
            parent_idx as int,
        ),
        parent_idx < old(nodes)@.len(),
        *old(time) >= old(nodes)@.len() - 1,
        parent_board@ == old(nodes)@[parent_idx as int].state.board@,
        child matches Some(c) ==> state_wf(c, size) && is_slide(parent_board@, c.board@, size),
    ensures
        res is None ==> search_inv_at(
            *h,
            final(nodes)@,
            visited_set(*final(visited)),
            final(frontier)@,
            size,
            root@,
            parent_idx as int,
        ),
        res is None ==> final(nodes)@.len() - old(nodes)@.len() == final(frontier)@.len() - old(
            frontier,
        )@.len() && final(nodes)@.len() >= old(nodes)@.len(),
        res is None ==> forall|i: int|
            0 <= i < old(nodes)@.len() ==> final(nodes)@[i] == old(nodes)@[i],
        res is None ==> forall|k: int|
            0 <= k < old(frontier)@.len() ==> final(frontier)@[k] == old(frontier)@[k],
        res is None ==> visited_set(*old(visited)).subset_of(visited_set(*final(visited))),
        res is None ==> (child matches Some(c) ==> visited_set(*final(visited)).contains(
            c.board@,
        )),
        res is None ==> *final(time) >= final(nodes)@.len() - 1,
        res matches Some(sol) ==> solution_ok(sol, root@, size, *h),
{
    let c = match child {
        None => {
            return None;
        },
        Some(c) => c,
    };
    // One more neighbour examined; the counter clamps at the type's
    // ceiling instead of wrapping.
    if *time < usize::MAX {
        *time = *time + 1;
    }
    let ghost pre_visited = visited_set(*visited);
    let cb = clone_board(&c.board);
    let is_new = visited_insert(visited, cb);
    if !is_new {
        proof {
            assert(visited_set(*visited) =~= pre_visited);
            assert(pre_visited.contains(c.board@));
        }
        return None;
    }
    let score = h.compute_score(&c);
    let parent_moves = nodes[parent_idx].moves;
    let new_node = Node { parent: Some(parent_idx), state: c, moves: parent_moves + 1 };
    proof {
        assert(visited_set(*visited).len() == pre_visited.len() + 1);
    }
    if score == 0 {
        proof {
            assert forall|i: int| 0 <= i < nodes@.len() implies ((#[trigger] nodes@[i].parent)
                matches Some(p) ==> 0 <= p < i) by {
                if i >= 1 {
                    assert(node_linked(nodes@, i, size));
                }
            }
            assert(parents_ok(nodes@));
        }
        let states = new_node.collect_parents(nodes);
        let memory = visited_len(visited);
        proof {
            lemma_chain_props(nodes@, parent_idx as int, size);
            let full = chain_of(nodes@, new_node);
            let pre = chain_to(nodes@, parent_idx as int);
            assert(full == pre.push(new_node.state));
            assert(full.len() == parent_moves + 2);
            assert(states@.len() == full.len());
            assert(full[0] == nodes@[0].state);
            assert forall|k: int| 0 <= k < states@.len() implies board_wf(
                (#[trigger] states@[k]).board@,
                size,
            ) by {
                if k < full.len() - 1 {
                    assert(full[k] == pre[k]);
                    let idx = choose|idx: int|
                        0 <= idx <= parent_idx as int && nodes@[idx].moves == k && (#[trigger] pre[
                            k
                        ]) == nodes@[idx].state;
                    assert(state_wf(nodes@[idx].state, size));
                } else {
                    assert(full[k] == new_node.state);
                }
                assert(states@[k].board@ == full[k].board@);
            }
            assert forall|k: int| 0 <= k < states@.len() - 1 implies is_slide(
                (#[trigger] states@[k]).board@,
                states@[k + 1].board@,
                size,
            ) by {
                if k < full.len() - 2 {
                    assert(full[k] == pre[k] && full[k + 1] == pre[k + 1]);
                    assert(is_slide(pre[k].board@, pre[k + 1].board@, size));
                } else {
                    assert(full[k] == pre[pre.len() - 1] && full[k + 1] == new_node.state);
                    assert(pre[nodes@[parent_idx as int].moves as int] == nodes@[parent_idx
                        as int].state);
                }
                assert(states@[k].board@ == full[k].board@ && states@[k + 1].board@ == full[k
                    + 1].board@);
            }
            assert forall|k: int, l: int| 0 <= k < l < states@.len() implies states@[k].board@
                != states@[l].board@ by {
                if l < full.len() - 1 {
                    let ik = choose|idx: int|
                        0 <= idx <= parent_idx as int && nodes@[idx].moves == k && (#[trigger] pre[
                            k
                        ]) == nodes@[idx].state;
                    let il = choose|idx: int|
                        0 <= idx <= parent_idx as int && nodes@[idx].moves == l && (#[trigger] pre[
                            l
                        ]) == nodes@[idx].state;
                    assert(ik != il);
                    assert(nodes@[ik].state.board@ != nodes@[il].state.board@);
                    assert(states@[k].board@ == pre[k].board@ && states@[l].board@
                        == pre[l].board@);
                } else {
                    let ik = choose|idx: int|
                        0 <= idx <= parent_idx as int && nodes@[idx].moves == k && (#[trigger] pre[
                            k
                        ]) == nodes@[idx].state;
                    assert(pre_visited.contains(nodes@[ik].state.board@));
                    assert(!pre_visited.contains(new_node.state.board@));
                    assert(states@[k].board@ == pre[k].board@ && states@[l].board@
                        == new_node.state.board@);
                }
            }
            assert(memory == pre_visited.len() + 1);
            assert(memory == nodes@.len() + 1);
            assert(states@[0].board@ == root@);
            assert(states@[states@.len() - 1].board@ == new_node.state.board@);
            assert(h.spec_score(new_node.state.board@) == 0);
        }
        return Some(
            Solution { states, size, time: *time, memory },
        );
    }
    frontier.push(P::new(nodes.len(), score, parent_moves + 1));
    nodes.push(new_node);
    let n_now = nodes.len();
    proof {
        assert(n_now == nodes@.len());
        let ns = nodes@;
        let vs = visited_set(*visited);
        let fs = frontier@;
        assert(ns[ns.len() - 1].parent == Some(parent_idx));
        assert forall|i: int| 1 <= i < ns.len() implies node_linked(ns, i, size) by {
            if i < ns.len() - 1 {
                assert(node_linked(old(nodes)@, i, size));
                assert(ns[i] == old(nodes)@[i]);
                let p = old(nodes)@[i].parent.unwrap() as int;
                assert(ns[p] == old(nodes)@[p]);
            } else {
                assert(ns[parent_idx as int] == old(nodes)@[parent_idx as int]);
            }
        }
        assert forall|i: int, j: int| 0 <= i < j < ns.len() implies ns[i].state.board@
            != ns[j].state.board@ by {
            if j < ns.len() - 1 {
                assert(old(nodes)@[i].state.board@ != old(nodes)@[j].state.board@);
            } else {
                assert(pre_visited.contains(old(nodes)@[i].state.board@));
                assert(!pre_visited.contains(new_node.state.board@));
            }
        }
        assert(vs.len() == ns.len());
        assert forall|k: int| 0 <= k < fs.len() implies 0 <= (#[trigger] fs[k]).spec_index()
            < ns.len() by {
            if k < fs.len() - 1 {
                assert(fs[k] == old(frontier)@[k]);
            }
        }
        assert forall|i: int| 1 <= i < ns.len() implies (*h).spec_score(
            (#[trigger] ns[i]).state.board@,
        ) != 0 by {
            if i < ns.len() - 1 {
                assert(ns[i] == old(nodes)@[i]);
            } else {
                assert(ns[i].state.board@ == new_node.state.board@);
            }
        }
        assert(vs.contains(c.board@)) by {
            assert(vs == pre_visited.insert(new_node.state.board@));
        }
        assert forall|i: int|
            0 <= i < ns.len() && i != parent_idx as int implies in_frontier(fs, i) || covered(
            (#[trigger] ns[i]).state.board@,
            vs,
            size,
        ) by {
            if i < ns.len() - 1 {
                if in_frontier(old(frontier)@, i) {
                    let k = choose|k: int|
                        0 <= k < old(frontier)@.len() && (#[trigger] old(
                            frontier,
                        )@[k]).spec_index() == i;
                    assert(fs[k] == old(frontier)@[k]);
                    assert(in_frontier(fs, i));
                } else {
                    assert(covered(old(nodes)@[i].state.board@, pre_visited, size));
                    assert forall|cc: Seq<u16>| is_slide(ns[i].state.board@, cc, size) implies
                        vs.contains(cc) by {
                        assert(pre_visited.contains(cc));
                    }
                }
            } else {
                assert(fs[fs.len() - 1].spec_index() == i);
                assert(in_frontier(fs, i));
            }
        }
    }
    None
}

} // verus!
