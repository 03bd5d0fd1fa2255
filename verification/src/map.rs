//! The puzzle board as raw data: a side length and a flat row-major vector of
//! tile values, 0 standing for the blank.

use vstd::prelude::*;

verus! {

/// A raw board: `size` is the side length, `board` the row-major tiles.
#[derive(Debug, PartialEq)]
pub struct Board {
    pub size: u16,
    pub board: Vec<u16>,
}

/// A well-formed board of side `size`: between 2 and 255 tiles per side
/// (255 keeps every flat index inside `u16`), exactly `size * size` entries,
/// every value below `size * size`, no value twice, and a blank present.
pub open spec fn board_wf(b: Seq<u16>, size: u16) -> bool {
    &&& 2 <= size <= 255
    &&& b.len() == size * size
    &&& forall|i: int| 0 <= i < b.len() ==> (#[trigger] b[i]) < b.len()
    &&& forall|i: int, j: int| 0 <= i < j < b.len() ==> b[i] != b[j]
    &&& exists|i: int| 0 <= i < b.len() && b[i] == 0
}

pub open spec fn spec_min(a: int, b: int) -> int {
    if a <= b {
        a
    } else {
        b
    }
}

/// The ring a cell belongs to when a board of side `n` is peeled from the
/// outside in: 0 on the border, growing towards the centre.
pub open spec fn spiral_ring(r: int, c: int, n: int) -> int {
    spec_min(spec_min(r, c), spec_min(n - 1 - r, n - 1 - c))
}

/// Position of cell (r, c) along the clockwise inward spiral walk of a board
/// of side `n` that starts at the top-left corner: the outer rings come
/// first, and inside ring `k` (of side `m = n - 2k`) the top row is walked
/// left to right, then the right column down, the bottom row right to left,
/// and the left column up.
pub open spec fn spiral_pos(r: int, c: int, n: int) -> int {
    let k = spiral_ring(r, c, n);
    let m = n - 2 * k;
    let base = n * n - m * m;
    if r == k {
        base + (c - k)
    } else if c == n - 1 - k {
        base + (m - 1) + (r - k)
    } else if r == n - 1 - k {
        base + 2 * (m - 1) + ((n - 1 - k) - c)
    } else {
        base + 3 * (m - 1) + ((n - 1 - k) - r)
    }
}

/// Tile value of cell `i` (flat) on the solved board of side `n`: the walk
/// numbers the cells 1, 2, ... and the last cell of the walk keeps the blank.
pub open spec fn solved_cell(i: int, n: int) -> u16 {
    (((spiral_pos(i / n, i % n, n) + 1) % (n * n))) as u16
}

/// The canonical solved board of side `n`: tiles spiral inwards.
pub open spec fn solved_board(n: int) -> Seq<u16> {
    Seq::new((n * n) as nat, |i: int| solved_cell(i, n))
}

/// Flat index of the blank on the solved board: the last cell of the walk,
/// the centre for odd sides and just left of the centre for even sides.
pub open spec fn solved_blank_index(n: int) -> int {
    if n % 2 == 1 {
        (n / 2) * n + n / 2
    } else {
        (n / 2) * n + (n / 2 - 1)
    }
}

/// Every cell's spiral position lies inside the board, inside the band of
/// positions of its own ring, and the innermost cell of an odd board is the
/// very last position.
pub proof fn lemma_spiral_pos_range(r: int, c: int, n: int)
    requires
        0 <= r < n,
        0 <= c < n,
        n >= 1,
    ensures
        0 <= spiral_pos(r, c, n) < n * n,
        spiral_pos(r, c, n) >= n * n - (n - 2 * spiral_ring(r, c, n)) * (n - 2 * spiral_ring(
            r,
            c,
            n,
        )),
        n - 2 * spiral_ring(r, c, n) == 1 ==> spiral_pos(r, c, n) == n * n - 1,
        n - 2 * spiral_ring(r, c, n) >= 2 ==> spiral_pos(r, c, n) <= n * n - ((n - 2
            * spiral_ring(r, c, n)) - 2) * ((n - 2 * spiral_ring(r, c, n)) - 2) - 1,
{
    let k = spiral_ring(r, c, n);
    let m = n - 2 * k;
    assert(k <= r <= n - 1 - k && k <= c <= n - 1 - k);
    assert(m >= 1);
    assert(m <= n);
    assert(m * m <= n * n) by (nonlinear_arith)
        requires
            1 <= m <= n,
    ;
    assert((m - 2) * (m - 2) == m * m - 4 * m + 4) by (nonlinear_arith);
    assert((m - 2) * (m - 2) >= 0) by (nonlinear_arith);
    if m == 1 {
        assert(m * m == 1) by (nonlinear_arith)
            requires
                m == 1,
        ;
        assert(r == k && c == k);
    }
}

/// Two distinct cells never share a spiral position.
pub proof fn lemma_spiral_pos_injective(r1: int, c1: int, r2: int, c2: int, n: int)
    requires
        0 <= r1 < n,
        0 <= c1 < n,
        0 <= r2 < n,
        0 <= c2 < n,
        r1 != r2 || c1 != c2,
    ensures
        spiral_pos(r1, c1, n) != spiral_pos(r2, c2, n),
{
    let k1 = spiral_ring(r1, c1, n);
    let k2 = spiral_ring(r2, c2, n);
    let m1 = n - 2 * k1;
    let m2 = n - 2 * k2;
    lemma_spiral_pos_range(r1, c1, n);
    lemma_spiral_pos_range(r2, c2, n);
    if k1 == k2 {
        assert(m1 * m1 == m2 * m2);
    } else if k1 < k2 {
        assert(m2 <= m1 - 2);
        assert((m1 - 2) * (m1 - 2) >= m2 * m2) by (nonlinear_arith)
            requires
                1 <= m2 <= m1 - 2,
        ;
    } else {
        assert(m1 <= m2 - 2);
        assert((m2 - 2) * (m2 - 2) >= m1 * m1) by (nonlinear_arith)
            requires
                1 <= m1 <= m2 - 2,
        ;
    }
}

/// The cell `solved_blank_index` is the last cell of the walk, so the solved
/// board carries the blank there.
pub proof fn lemma_solved_blank(n: int)
    requires
        n >= 2,
    ensures
        0 <= solved_blank_index(n) < n * n,
        solved_board(n)[solved_blank_index(n)] == 0,
{
    vstd::arithmetic::div_mod::lemma_fundamental_div_mod(n, 2);
    let i = solved_blank_index(n);
    if n % 2 == 1 {
        let h = n / 2;
        assert(n == 2 * h + 1);
        assert(0 <= h * n + h < n * n && (h * n + h) / n == h && (h * n + h) % n == h) by {
            crate::state::lemma_coord_index(h, h, n);
            vstd::arithmetic::div_mod::lemma_fundamental_div_mod_converse(h * n + h, n, h, h);
        }
        assert(spiral_ring(h, h, n) == h);
        let m = n - 2 * h;
        assert(m == 1);
        assert(m * m == 1) by (nonlinear_arith)
            requires
                m == 1,
        ;
        assert(spiral_pos(h, h, n) == n * n - 1);
        assert((n * n - 1 + 1) % (n * n) == 0) by {
            vstd::arithmetic::div_mod::lemma_mod_self_0(n * n);
        }
    } else {
        let h = n / 2;
        assert(n == 2 * h);
        assert(0 <= h * n + (h - 1) < n * n && (h * n + (h - 1)) / n == h && (h * n + (h - 1)) % n
            == h - 1) by {
            crate::state::lemma_coord_index(h, h - 1, n);
            vstd::arithmetic::div_mod::lemma_fundamental_div_mod_converse(
                h * n + (h - 1),
                n,
                h,
                h - 1,
            );
        }
        assert(spiral_ring(h, h - 1, n) == h - 1);
        let m = n - 2 * (h - 1);
        assert(m == 2);
        assert(spiral_pos(h, h - 1, n) == n * n - m * m + 2 * (m - 1) + ((n - 1 - (h - 1)) - (h
            - 1)));
        assert(spiral_pos(h, h - 1, n) == n * n - 1);
        assert((n * n - 1 + 1) % (n * n) == 0) by {
            vstd::arithmetic::div_mod::lemma_mod_self_0(n * n);
        }
    }
}

/// The solved board of any accepted side is a well-formed permutation.
pub proof fn lemma_solved_board_wf(n: u16)
    requires
        2 <= n <= 255,
    ensures
        board_wf(solved_board(n as int), n),
{
    let ni = n as int;
    let b = solved_board(ni);
    let total = ni * ni;
    assert(ni * ni >= 4 && ni * ni <= 65025) by (nonlinear_arith)
        requires
            2 <= ni <= 255,
    ;
    assert forall|i: int| 0 <= i < b.len() implies (#[trigger] b[i]) < b.len() by {
        vstd::arithmetic::div_mod::lemma_fundamental_div_mod(i, ni);
        vstd::arithmetic::div_mod::lemma_mod_bound(i, ni);
        vstd::arithmetic::div_mod::lemma_div_pos_is_pos(i, ni);
        vstd::arithmetic::div_mod::lemma_multiply_divide_lt(i, ni, ni);
        lemma_spiral_pos_range(i / ni, i % ni, ni);
        vstd::arithmetic::div_mod::lemma_mod_bound(spiral_pos(i / ni, i % ni, ni) + 1, total);
    }
    assert forall|i: int, j: int| 0 <= i < j < b.len() implies b[i] != b[j] by {
        vstd::arithmetic::div_mod::lemma_fundamental_div_mod(i, ni);
        vstd::arithmetic::div_mod::lemma_mod_bound(i, ni);
        vstd::arithmetic::div_mod::lemma_div_pos_is_pos(i, ni);
        vstd::arithmetic::div_mod::lemma_multiply_divide_lt(i, ni, ni);
        vstd::arithmetic::div_mod::lemma_fundamental_div_mod(j, ni);
        vstd::arithmetic::div_mod::lemma_mod_bound(j, ni);
        vstd::arithmetic::div_mod::lemma_div_pos_is_pos(j, ni);
        vstd::arithmetic::div_mod::lemma_multiply_divide_lt(j, ni, ni);
        let p1 = spiral_pos(i / ni, i % ni, ni);
        let p2 = spiral_pos(j / ni, j % ni, ni);
        lemma_spiral_pos_range(i / ni, i % ni, ni);
        lemma_spiral_pos_range(j / ni, j % ni, ni);
        assert(i / ni != j / ni || i % ni != j % ni);
        lemma_spiral_pos_injective(i / ni, i % ni, j / ni, j % ni, ni);
        lemma_mod_succ_distinct(p1, p2, total);
    }
    lemma_solved_blank(ni);
    assert(b[solved_blank_index(ni)] == 0);
}

/// Successors modulo `total` of two distinct values in range stay distinct.
proof fn lemma_mod_succ_distinct(p1: int, p2: int, total: int)
    requires
        0 <= p1 < total,
        0 <= p2 < total,
        p1 != p2,
    ensures
        (p1 + 1) % total != (p2 + 1) % total,
{
    vstd::arithmetic::div_mod::lemma_mod_self_0(total);
    if p1 + 1 < total {
        vstd::arithmetic::div_mod::lemma_small_mod((p1 + 1) as nat, total as nat);
    }
    if p2 + 1 < total {
        vstd::arithmetic::div_mod::lemma_small_mod((p2 + 1) as nat, total as nat);
    }
}

/// Computes the tile of one cell of the solved board from the closed form of
/// the spiral walk.
fn spiral_value(idx: usize, size: usize) -> (v: u16)
    requires
        2 <= size <= 255,
        idx < size * size,
    ensures
        v == solved_cell(idx as int, size as int),
{
    proof {
        assert(size * size <= 65025) by (nonlinear_arith)
            requires
                size <= 255,
        ;
    }
    let total: usize = size * size;
    let r = idx / size;
    let c = idx % size;
    proof {
        vstd::arithmetic::div_mod::lemma_fundamental_div_mod(idx as int, size as int);
        vstd::arithmetic::div_mod::lemma_mod_bound(idx as int, size as int);
        vstd::arithmetic::div_mod::lemma_div_pos_is_pos(idx as int, size as int);
        vstd::arithmetic::div_mod::lemma_multiply_divide_lt(idx as int, size as int, size as int);
    }
    let mut k = r;
    if c < k {
        k = c;
    }
    if size - 1 - r < k {
        k = size - 1 - r;
    }
    if size - 1 - c < k {
        k = size - 1 - c;
    }
    proof {
        assert(k == spiral_ring(r as int, c as int, size as int));
        lemma_spiral_pos_range(r as int, c as int, size as int);
    }
    let m = size - 2 * k;
    proof {
        assert(m * m <= size * size) by (nonlinear_arith)
            requires
                1 <= m <= size,
        ;
    }
    let base = total - m * m;
    let pos = if r == k {
        base + (c - k)
    } else if c == size - 1 - k {
        base + (m - 1) + (r - k)
    } else if r == size - 1 - k {
        base + 2 * (m - 1) + ((size - 1 - k) - c)
    } else {
        base + 3 * (m - 1) + ((size - 1 - k) - r)
    };
    proof {
        assert(pos == spiral_pos(r as int, c as int, size as int));
        vstd::arithmetic::div_mod::lemma_mod_bound(pos as int + 1, total as int);
    }
    ((pos + 1) % total) as u16
}

/// Builds the canonical solved board of side `size`: tiles 1, 2, ... spiral
/// clockwise inwards from the top-left corner and the blank ends on the last
/// cell of the walk.
pub fn gen_solved_map(size: usize) -> (m: Board)
    requires
        2 <= size <= 255,
    ensures
        m.size == size as u16,
        m.board@ == solved_board(size as int),
        board_wf(m.board@, size as u16),
{
    proof {
        assert(size * size <= 65025) by (nonlinear_arith)
            requires
                size <= 255,
        ;
    }
    let total: usize = size * size;
    let mut board: Vec<u16> = Vec::new();
    let mut i: usize = 0;
    while i < total
        invariant
            0 <= i <= total,
            total == size * size,
            2 <= size <= 255,
            board@.len() == i,
            forall|j: int| 0 <= j < i ==> board@[j] == solved_cell(j, size as int),
        decreases total - i,
    {
        let v = spiral_value(i, size);
        board.push(v);
        i += 1;
    }
    proof {
        assert(board@ =~= solved_board(size as int));
        lemma_solved_board_wf(size as u16);
    }
    Board { size: size as u16, board }
}

} // verus!
