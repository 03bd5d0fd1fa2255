//! The three interchangeable scoring strategies.  Each precomputes, from the
//! goal board, where every tile value belongs, and scores a state in one pass
//! over its tiles; lower is better and the goal itself scores 0.

use crate::map::board_wf;
use crate::map::Board;
use crate::state::{Point, State};
use vstd::arithmetic::div_mod::{
    lemma_div_pos_is_pos, lemma_fundamental_div_mod, lemma_mod_bound, lemma_multiply_divide_lt,
};
use vstd::pervasive::VecAdditionalExecFns;
use vstd::prelude::*;

verus! {

/// The coordinate of flat cell `i` on a board of side `size`.
pub open spec fn point_of(i: int, size: u16) -> Point {
    Point { x: (i / size as int) as u16, y: (i % size as int) as u16 }
}

pub open spec fn abs_diff(a: int, b: int) -> int {
    if a >= b {
        a - b
    } else {
        b - a
    }
}

/// Grid (city-block) distance between two points.
pub open spec fn manh_dist(p: Point, q: Point) -> int {
    abs_diff(p.x as int, q.x as int) + abs_diff(p.y as int, q.y as int)
}

/// The distance variant of the third strategy: absolute differences of the
/// squared coordinates.  This is not a true straight-line distance and not
/// admissible; it is kept as a selectable strategy in its own right.
pub open spec fn euc_dist(p: Point, q: Point) -> int {
    abs_diff(p.x as int * p.x as int, q.x as int * q.x as int) + abs_diff(
        p.y as int * p.y as int,
        q.y as int * q.y as int,
    )
}

/// A target table for `size`: one entry per tile value, all on the board.
pub open spec fn table_wf(t: Seq<Point>, size: u16) -> bool {
    &&& t.len() == size * size
    &&& forall|v: int| 0 <= v < t.len() ==> (#[trigger] t[v]).x < size && t[v].y < size
}

/// `t` sends every tile value of the goal board `g` to its goal coordinate.
pub open spec fn table_matches(t: Seq<Point>, g: Seq<u16>, size: u16) -> bool {
    forall|i: int| 0 <= i < g.len() ==> t[(#[trigger] g[i]) as int] == point_of(i, size)
}

pub open spec fn manh_term(t: Seq<Point>, b: Seq<u16>, size: u16, i: int) -> int {
    manh_dist(point_of(i, size), t[b[i] as int])
}

pub open spec fn manh_sum(t: Seq<Point>, b: Seq<u16>, size: u16, n: int) -> int
    decreases n,
{
    if n <= 0 {
        0
    } else {
        manh_sum(t, b, size, n - 1) + manh_term(t, b, size, n - 1)
    }
}

pub open spec fn euc_term(t: Seq<Point>, b: Seq<u16>, size: u16, i: int) -> int {
    euc_dist(point_of(i, size), t[b[i] as int])
}

pub open spec fn euc_sum(t: Seq<Point>, b: Seq<u16>, size: u16, n: int) -> int
    decreases n,
{
    if n <= 0 {
        0
    } else {
        euc_sum(t, b, size, n - 1) + euc_term(t, b, size, n - 1)
    }
}

/// One misplaced-tile count term: the blank is not a tile and never counts.
pub open spec fn ham_term(t: Seq<u16>, b: Seq<u16>, i: int) -> int {
    if b[i] != 0 && t[b[i] as int] != i {
        1
    } else {
        0
    }
}

pub open spec fn ham_sum(t: Seq<u16>, b: Seq<u16>, n: int) -> int
    decreases n,
{
    if n <= 0 {
        0
    } else {
        ham_sum(t, b, n - 1) + ham_term(t, b, n - 1)
    }
}

/// The coordinate of a cell is on the board, and its flat index is the cell.
pub proof fn lemma_point_of_bounds(i: int, size: u16)
    requires
        0 <= i < size * size,
        size >= 1,
    ensures
        point_of(i, size).x < size,
        point_of(i, size).y < size,
        point_of(i, size).x * size + point_of(i, size).y == i,
{
    lemma_fundamental_div_mod(i, size as int);
    lemma_div_pos_is_pos(i, size as int);
    lemma_mod_bound(i, size as int);
    lemma_multiply_divide_lt(i, size as int, size as int);
    vstd::arithmetic::mul::lemma_mul_is_commutative(i / size as int, size as int);
}

/// A scoring strategy: built once from a goal board, then a pure function of
/// a state's tiles.  Every implementation must score the goal itself 0.
pub trait Heuristic: Sized {
    spec fn wf(&self) -> bool;

    /// Number of cells the strategy was built for.
    spec fn board_len(&self) -> int;

    /// The strategy's tables are the ones derived from goal board `g`.
    spec fn matches_goal(&self, g: Seq<u16>) -> bool;

    spec fn spec_score(&self, b: Seq<u16>) -> int;

    fn new(solved_map: &Board, size: u16) -> (r: Self)
        requires
            size == solved_map.size,
            board_wf(solved_map.board@, size),
        ensures
            r.wf(),
            r.board_len() == solved_map.board@.len(),
            r.matches_goal(solved_map.board@);

    fn compute_score(&self, state: &State) -> (r: u64)
        requires
            self.wf(),
            state.board@.len() == self.board_len(),
            forall|i: int|
                0 <= i < state.board@.len() ==> (#[trigger] state.board@[i]) < state.board@.len(),
        ensures
            r == self.spec_score(state.board@);

    /// The law every strategy owes: a board that is its own goal scores 0.
    proof fn goal_score_zero(&self, g: Seq<u16>)
        requires
            self.wf(),
            self.matches_goal(g),
            self.board_len() == g.len(),
            forall|i: int| 0 <= i < g.len() ==> (#[trigger] g[i]) < g.len(),
        ensures
            self.spec_score(g) == 0,
    ;
}

/// Builds the inverse lookup table of a goal board: entry `v` is the goal
/// coordinate of tile value `v`.
pub(crate) fn build_target_table(solved_map: &Board, size: u16) -> (t: Vec<Point>)
    requires
        size == solved_map.size,
        board_wf(solved_map.board@, size),
    ensures
        table_wf(t@, size),
        table_matches(t@, solved_map.board@, size),
{
    let n = solved_map.board.len();
    let mut t: Vec<Point> = Vec::new();
    let mut v: usize = 0;
    while v < n
        invariant
            t@.len() == v <= n,
            forall|w: int| 0 <= w < v ==> (#[trigger] t@[w]).x == 0 && t@[w].y == 0,
        decreases n - v,
    {
        t.push(Point { x: 0, y: 0 });
        v += 1;
    }
    proof {
        assert(size * size <= 65025) by (nonlinear_arith)
            requires
                size <= 255,
        ;
    }
    let mut i: usize = 0;
    while i < n
        invariant
            0 <= i <= n,
            n == solved_map.board@.len(),
            n == size * size,
            n <= 65025,
            2 <= size <= 255,
            board_wf(solved_map.board@, size),
            t@.len() == n,
            forall|w: int| 0 <= w < n ==> (#[trigger] t@[w]).x < size && t@[w].y < size,
            forall|j: int|
                0 <= j < i ==> t@[(#[trigger] solved_map.board@[j]) as int] == point_of(j, size),
        decreases n - i,
    {
        let value = solved_map.board[i] as usize;
        proof {
            lemma_point_of_bounds(i as int, size);
            assert(solved_map.board@[i as int] < n);
        }
        let p = Point::from_1d(i as u16, size);
        t.set(value, p);
        proof {
            assert forall|j: int| 0 <= j < i + 1 implies t@[(#[trigger] solved_map.board@[j]) as int]
                == point_of(j, size) by {
                if j < i {
                    assert(solved_map.board@[j] != solved_map.board@[i as int]);
                }
            }
        }
        i += 1;
    }
    t
}

/// The classic grid-distance strategy: the score of a state is the sum, over
/// every cell including the blank's, of the grid distance between the cell
/// and the goal cell of the value it holds.
pub struct Manhatthan {
    pub solved_table: Vec<Point>,
    pub size: u16,
}

impl Manhatthan {
    /// Grid distance between two points.
    pub fn dist(p1: &Point, p2: &Point) -> (r: u16)
        requires
            manh_dist(*p1, *p2) <= u16::MAX,
        ensures
            r == manh_dist(*p1, *p2),
    {
        let x_dist = match p1.x > p2.x {
            true => p1.x - p2.x,
            false => p2.x - p1.x,
        };

        let y_dist = match p1.y > p2.y {
            true => p1.y - p2.y,
            false => p2.y - p1.y,
        };

        x_dist + y_dist
    }
}

impl Heuristic for Manhatthan {
    open spec fn wf(&self) -> bool {
        &&& 2 <= self.size <= 255
        &&& table_wf(self.solved_table@, self.size)
    }

    open spec fn board_len(&self) -> int {
        self.solved_table@.len() as int
    }

    open spec fn matches_goal(&self, g: Seq<u16>) -> bool {
        table_matches(self.solved_table@, g, self.size)
    }

    open spec fn spec_score(&self, b: Seq<u16>) -> int {
        manh_sum(self.solved_table@, b, self.size, b.len() as int)
    }

    fn new(solved_map: &Board, size: u16) -> (r: Self) {
        let solved_table = build_target_table(solved_map, size);
        Manhatthan { solved_table, size }
    }

    fn compute_score(&self, state: &State) -> (r: u64) {
        let t = &self.solved_table;
        let b = &state.board;
        let n = b.len();
        let size = self.size;
        let mut score: u64 = 0;
        proof {
            assert(size * size <= 65025) by (nonlinear_arith)
                requires
                    size <= 255,
            ;
        }
        let mut i: usize = 0;
        while i < n
            invariant
                0 <= i <= n,
                n == b@.len(),
                n == t@.len(),
                n == size * size,
                n <= 65025,
                2 <= size <= 255,
                table_wf(t@, size),
                forall|k: int| 0 <= k < n ==> (#[trigger] b@[k]) < n,
                score == manh_sum(t@, b@, size, i as int),
                score <= 510 * i,
            decreases n - i,
        {
            proof {
                lemma_point_of_bounds(i as int, size);
            }
            let point = Point::from_1d(i as u16, size);
            let target = t[b[i] as usize];
            let d = Manhatthan::dist(&point, &target);
            score += d as u64;
            i += 1;
        }
        score
    }

    proof fn goal_score_zero(&self, g: Seq<u16>) {
        lemma_manh_sum_zero(self.solved_table@, g, self.size, g.len() as int);
    }
}

/// All summands of the grid-distance score of a matching goal vanish.
proof fn lemma_manh_sum_zero(t: Seq<Point>, g: Seq<u16>, size: u16, n: int)
    requires
        table_matches(t, g, size),
        n <= g.len(),
        forall|i: int| 0 <= i < g.len() ==> (#[trigger] g[i]) < g.len(),
    ensures
        manh_sum(t, g, size, n) == 0,
    decreases n,
{
    if n > 0 {
        lemma_manh_sum_zero(t, g, size, n - 1);
        assert(t[g[n - 1] as int] == point_of(n - 1, size));
    }
}

/// A sum whose terms all vanish except two given ones.
proof fn lemma_manh_sum_two(t: Seq<Point>, b: Seq<u16>, size: u16, n: int, i1: int, i2: int)
    requires
        0 <= i1 < i2,
        forall|k: int| 0 <= k < n && k != i1 && k != i2 ==> manh_term(t, b, size, k) == 0,
    ensures
        manh_sum(t, b, size, n) == (if 0 <= i1 < n {
            manh_term(t, b, size, i1)
        } else {
            0
        }) + (if 0 <= i2 < n {
            manh_term(t, b, size, i2)
        } else {
            0
        }),
    decreases n,
{
    if n > 0 {
        lemma_manh_sum_two(t, b, size, n - 1, i1, i2);
    }
}

/// The single-swap law of the grid-distance strategy: sliding the blank of
/// a board that is its own goal by one step yields score exactly 2 -- the
/// moved tile is one step from home, and so is the blank.
pub proof fn lemma_manhattan_single_swap(
    h: Manhatthan,
    g: Seq<u16>,
    b: Seq<u16>,
    zx: int,
    zy: int,
    nx: int,
    ny: int,
)
    requires
        h.wf(),
        h.matches_goal(g),
        h.board_len() == g.len(),
        board_wf(g, h.size),
        crate::state::slide_at(g, b, zx, zy, nx, ny, h.size),
    ensures
        h.spec_score(b) == 2,
{
    let size = h.size;
    let t = h.solved_table@;
    let zi = zx * size + zy;
    let ci = nx * size + ny;
    crate::state::lemma_coord_index(zx, zy, size as int);
    crate::state::lemma_coord_index(nx, ny, size as int);
    assert(zi != ci) by (nonlinear_arith)
        requires
            zi == zx * (size as int) + zy,
            ci == nx * (size as int) + ny,
            0 <= zx < size && 0 <= zy < size && 0 <= nx < size && 0 <= ny < size,
            (zx == nx && (zy == ny - 1 || ny == zy - 1)) || (zy == ny && (zx == nx - 1 || nx == zx
                - 1)),
    ;
    vstd::arithmetic::div_mod::lemma_fundamental_div_mod_converse(zi, size as int, zx, zy);
    vstd::arithmetic::div_mod::lemma_fundamental_div_mod_converse(ci, size as int, nx, ny);
    assert(point_of(zi, size) == (Point { x: zx as u16, y: zy as u16 }));
    assert(point_of(ci, size) == (Point { x: nx as u16, y: ny as u16 }));
    assert(b[ci] == g[zi] && b[zi] == g[ci]);
    assert(t[g[zi] as int] == point_of(zi, size));
    assert(t[g[ci] as int] == point_of(ci, size));
    assert(manh_term(t, b, size, zi) == 1);
    assert(manh_term(t, b, size, ci) == 1);
    assert forall|k: int|
        0 <= k < g.len() && k != zi && k != ci implies manh_term(t, b, size, k) == 0 by {
        assert(b[k] == g[k]);
        assert(t[g[k] as int] == point_of(k, size));
    }
    if zi < ci {
        lemma_manh_sum_two(t, b, size, b.len() as int, zi, ci);
    } else {
        lemma_manh_sum_two(t, b, size, b.len() as int, ci, zi);
    }
}

/// The misplaced-tiles strategy: the score of a state is the number of
/// non-blank tiles that are not on their goal cell.
pub struct Hamming {
    pub solved_table: Vec<u16>,
}

impl Heuristic for Hamming {
    open spec fn wf(&self) -> bool {
        self.solved_table@.len() <= 65025
    }

    open spec fn board_len(&self) -> int {
        self.solved_table@.len() as int
    }

    open spec fn matches_goal(&self, g: Seq<u16>) -> bool {
        forall|i: int| 0 <= i < g.len() ==> self.solved_table@[(#[trigger] g[i]) as int] == i
    }

    open spec fn spec_score(&self, b: Seq<u16>) -> int {
        ham_sum(self.solved_table@, b, b.len() as int)
    }

    fn new(solved_map: &Board, _size: u16) -> (r: Self) {
        let n = solved_map.board.len();
        proof {
            assert(solved_map.size * solved_map.size <= 65025) by (nonlinear_arith)
                requires
                    solved_map.size <= 255,
            ;
        }
        let mut t: Vec<u16> = Vec::new();
        let mut v: usize = 0;
        while v < n
            invariant
                t@.len() == v <= n,
            decreases n - v,
        {
            t.push(0);
            v += 1;
        }
        let mut i: usize = 0;
        while i < n
            invariant
                0 <= i <= n,
                n == solved_map.board@.len(),
                n <= 65025,
                board_wf(solved_map.board@, solved_map.size),
                t@.len() == n,
                forall|j: int| 0 <= j < i ==> t@[(#[trigger] solved_map.board@[j]) as int] == j,
            decreases n - i,
        {
            let value = solved_map.board[i] as usize;
            proof {
                assert(solved_map.board@[i as int] < n);
            }
            t.set(value, i as u16);
            proof {
                assert forall|j: int| 0 <= j < i + 1 implies t@[(#[trigger] solved_map.board@[j]) as int]
                    == j by {
                    if j < i {
                        assert(solved_map.board@[j] != solved_map.board@[i as int]);
                    }
                }
            }
            i += 1;
        }
        Hamming { solved_table: t }
    }

    fn compute_score(&self, state: &State) -> (r: u64) {
        let t = &self.solved_table;
        let b = &state.board;
        let n = b.len();
        let mut score: u64 = 0;
        let mut i: usize = 0;
        while i < n
            invariant
                0 <= i <= n,
                n == b@.len(),
                n == t@.len(),
                forall|k: int| 0 <= k < n ==> (#[trigger] b@[k]) < n,
                score == ham_sum(t@, b@, i as int),
                score <= i,
            decreases n - i,
        {
            let value = b[i];
            if value != 0 && t[value as usize] as usize != i {
                score += 1;
            }
            i += 1;
        }
        score
    }

    proof fn goal_score_zero(&self, g: Seq<u16>) {
        lemma_ham_sum_zero(self.solved_table@, g, g.len() as int);
    }
}

/// All summands of the misplaced-tile count of a matching goal vanish.
proof fn lemma_ham_sum_zero(t: Seq<u16>, g: Seq<u16>, n: int)
    requires
        forall|i: int| 0 <= i < g.len() ==> t[(#[trigger] g[i]) as int] == i,
        n <= g.len(),
        forall|i: int| 0 <= i < g.len() ==> (#[trigger] g[i]) < g.len(),
    ensures
        ham_sum(t, g, n) == 0,
    decreases n,
{
    if n > 0 {
        lemma_ham_sum_zero(t, g, n - 1);
    }
}

/// The squared-coordinate strategy: sums absolute differences of squared
/// coordinates; kept exactly as designed, admissibility not claimed.
pub struct Euclidian {
    pub solved_table: Vec<Point>,
    pub size: u16,
}

impl Euclidian {
    /// Absolute difference of squared coordinates, per axis.
    pub fn dist(p1: &Point, p2: &Point) -> (r: u16)
        requires
            p1.x * p1.x <= u16::MAX,
            p1.y * p1.y <= u16::MAX,
            p2.x * p2.x <= u16::MAX,
            p2.y * p2.y <= u16::MAX,
            euc_dist(*p1, *p2) <= u16::MAX,
        ensures
            r == euc_dist(*p1, *p2),
    {
        proof {
            lemma_square_ordered(p1.x as int, p2.x as int);
            lemma_square_ordered(p1.y as int, p2.y as int);
        }
        let x_dist = match p1.x > p2.x {
            true => p1.x * p1.x - p2.x * p2.x,
            false => p2.x * p2.x - p1.x * p1.x,
        };

        let y_dist = match p1.y * p1.y > p2.y * p2.y {
            true => p1.y * p1.y - p2.y * p2.y,
            false => p2.y * p2.y - p1.y * p1.y,
        };

        x_dist + y_dist
    }
}

/// Squaring keeps the order of non-negative numbers.
proof fn lemma_square_ordered(a: int, b: int)
    requires
        0 <= a,
        0 <= b,
    ensures
        a >= b ==> a * a >= b * b,
        a * a > b * b ==> a > b,
        a > b ==> a * a > b * b,
{
    assert((a >= b ==> a * a >= b * b) && (b >= a ==> b * b >= a * a) && (a > b ==> a * a > b
        * b)) by (nonlinear_arith)
        requires
            0 <= a,
            0 <= b,
    ;
}

impl Heuristic for Euclidian {
    open spec fn wf(&self) -> bool {
        &&& 2 <= self.size <= 255
        &&& table_wf(self.solved_table@, self.size)
    }

    open spec fn board_len(&self) -> int {
        self.solved_table@.len() as int
    }

    open spec fn matches_goal(&self, g: Seq<u16>) -> bool {
        table_matches(self.solved_table@, g, self.size)
    }

    open spec fn spec_score(&self, b: Seq<u16>) -> int {
        euc_sum(self.solved_table@, b, self.size, b.len() as int)
    }

    fn new(solved_map: &Board, size: u16) -> (r: Self) {
        let solved_table = build_target_table(solved_map, size);
        Euclidian { solved_table, size }
    }

    fn compute_score(&self, state: &State) -> (r: u64) {
        let t = &self.solved_table;
        let b = &state.board;
        let n = b.len();
        let size = self.size;
        let mut score: u64 = 0;
        proof {
            assert(size * size <= 65025) by (nonlinear_arith)
                requires
                    size <= 255,
            ;
        }
        let mut i: usize = 0;
        while i < n
            invariant
                0 <= i <= n,
                n == b@.len(),
                n == t@.len(),
                n == size * size,
                n <= 65025,
                2 <= size <= 255,
                table_wf(t@, size),
                forall|k: int| 0 <= k < n ==> (#[trigger] b@[k]) < n,
                score == euc_sum(t@, b@, size, i as int),
                score <= 130050 * i,
            decreases n - i,
        {
            proof {
                lemma_point_of_bounds(i as int, size);
            }
            let point = Point::from_1d(i as u16, size);
            let target = t[b[i] as usize];
            let px = point.x as u64;
            let py = point.y as u64;
            let qx = target.x as u64;
            let qy = target.y as u64;
            proof {
                assert(px * px <= 65025 && py * py <= 65025 && qx * qx <= 65025 && qy * qy
                    <= 65025) by (nonlinear_arith)
                    requires
                        0 <= px <= 255 && 0 <= py <= 255 && 0 <= qx <= 255 && 0 <= qy <= 255,
                ;
            }
            let x2a = px * px;
            let x2b = qx * qx;
            let y2a = py * py;
            let y2b = qy * qy;
            let x_dist = if x2a > x2b {
                x2a - x2b
            } else {
                x2b - x2a
            };
            let y_dist = if y2a > y2b {
                y2a - y2b
            } else {
                y2b - y2a
            };
            score += x_dist + y_dist;
            i += 1;
        }
        score
    }

    proof fn goal_score_zero(&self, g: Seq<u16>) {
        lemma_euc_sum_zero(self.solved_table@, g, self.size, g.len() as int);
    }
}

/// All summands of the squared-coordinate score of a matching goal vanish.
proof fn lemma_euc_sum_zero(t: Seq<Point>, g: Seq<u16>, size: u16, n: int)
    requires
        table_matches(t, g, size),
        n <= g.len(),
        forall|i: int| 0 <= i < g.len() ==> (#[trigger] g[i]) < g.len(),
    ensures
        euc_sum(t, g, size, n) == 0,
    decreases n,
{
    if n > 0 {
        lemma_euc_sum_zero(t, g, size, n - 1);
        assert(t[g[n - 1] as int] == point_of(n - 1, size));
    }
}

/// The closed set of selectable strategies, dispatched at run time.
pub enum HRST {
    Manhatthan(Manhatthan),
    Hamming(Hamming),
    Euclidian(Euclidian),
}

/// The caller-facing strategy selector.
#[derive(Debug, Clone, Copy)]
pub enum Heuristics {
    Manhatthan,
    Hamming,
    Euclidian,
}

impl HRST {
    pub open spec fn wf(&self) -> bool {
        match self {
            HRST::Manhatthan(h) => h.wf(),
            HRST::Hamming(h) => h.wf(),
            HRST::Euclidian(h) => h.wf(),
        }
    }

    pub open spec fn board_len(&self) -> int {
        match self {
            HRST::Manhatthan(h) => h.board_len(),
            HRST::Hamming(h) => h.board_len(),
            HRST::Euclidian(h) => h.board_len(),
        }
    }

    pub open spec fn matches_goal(&self, g: Seq<u16>) -> bool {
        match self {
            HRST::Manhatthan(h) => h.matches_goal(g),
            HRST::Hamming(h) => h.matches_goal(g),
            HRST::Euclidian(h) => h.matches_goal(g),
        }
    }

    pub open spec fn spec_score(&self, b: Seq<u16>) -> int {
        match self {
            HRST::Manhatthan(h) => h.spec_score(b),
            HRST::Hamming(h) => h.spec_score(b),
            HRST::Euclidian(h) => h.spec_score(b),
        }
    }

    /// Builds the selected strategy from the goal board.
    pub fn build(which: Heuristics, solved_map: &Board, size: u16) -> (r: HRST)
        requires
            size == solved_map.size,
            board_wf(solved_map.board@, size),
        ensures
            r.wf(),
            r.board_len() == solved_map.board@.len(),
            r.matches_goal(solved_map.board@),
    {
        match which {
            Heuristics::Manhatthan => HRST::Manhatthan(Manhatthan::new(solved_map, size)),
            Heuristics::Hamming => HRST::Hamming(Hamming::new(solved_map, size)),
            Heuristics::Euclidian => HRST::Euclidian(Euclidian::new(solved_map, size)),
        }
    }

    pub fn compute_score(&self, state: &State) -> (r: u64)
        requires
            self.wf(),
            state.board@.len() == self.board_len(),
            forall|i: int|
                0 <= i < state.board@.len() ==> (#[trigger] state.board@[i]) < state.board@.len(),
        ensures
            r == self.spec_score(state.board@),
    {
        match self {
            HRST::Manhatthan(h) => h.compute_score(state),
            HRST::Hamming(h) => h.compute_score(state),
            HRST::Euclidian(h) => h.compute_score(state),
        }
    }

    /// A board that is its own goal scores 0 under every strategy.
    pub proof fn goal_score_zero(&self, g: Seq<u16>)
        requires
            self.wf(),
            self.matches_goal(g),
            self.board_len() == g.len(),
            forall|i: int| 0 <= i < g.len() ==> (#[trigger] g[i]) < g.len(),
        ensures
            self.spec_score(g) == 0,
    {
        match self {
            HRST::Manhatthan(h) => h.goal_score_zero(g),
            HRST::Hamming(h) => h.goal_score_zero(g),
            HRST::Euclidian(h) => h.goal_score_zero(g),
        }
    }
}

/// Every strategy built for the canonical solved board of any accepted side
/// scores that board 0.
pub proof fn lemma_goal_board_scores_zero(h: HRST, n: u16)
    requires
        2 <= n <= 255,
        h.wf(),
        h.matches_goal(crate::map::solved_board(n as int)),
        h.board_len() == crate::map::solved_board(n as int).len(),
    ensures
        h.spec_score(crate::map::solved_board(n as int)) == 0,
{
    crate::map::lemma_solved_board_wf(n);
    h.goal_score_zero(crate::map::solved_board(n as int));
}

} // verus!
