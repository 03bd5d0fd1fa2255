//! Inversion counting over boards and the parity facts behind the
//! solvability test: swapping two non-blank tiles always flips the parity of
//! the inversion count.

use crate::map::{board_wf, solved_board};
use crate::state::{first_zero, swapped};
use vstd::arithmetic::div_mod::{
    lemma_fundamental_div_mod, lemma_mod_bound, lemma_mod_multiples_vanish,
};
use vstd::prelude::*;

verus! {

/// 1 when an earlier tile `x` and a later tile `y` form an inversion: both
/// are real tiles (not the blank) and the earlier is the larger.
pub open spec fn inv_pair(x: u16, y: u16) -> int {
    if x != 0 && y != 0 && x > y {
        1
    } else {
        0
    }
}

/// Inversions contributed by the fixed earlier tile `v` against all tiles
/// from position `j` on.
pub open spec fn cnt_from(b: Seq<u16>, v: u16, j: int) -> int
    decreases b.len() - j,
{
    if 0 <= j < b.len() {
        inv_pair(v, b[j]) + cnt_from(b, v, j + 1)
    } else {
        0
    }
}

/// Inversions whose earlier position is at least `i`.
pub open spec fn inv_from(b: Seq<u16>, i: int) -> int
    decreases b.len() - i,
{
    if 0 <= i < b.len() {
        cnt_from(b, b[i], i + 1) + inv_from(b, i + 1)
    } else {
        0
    }
}

/// Number of inverted non-blank pairs of the board: positions `i < j` with
/// `b[i] > b[j]`, the blank taking part in no pair.
pub open spec fn inv_count(b: Seq<u16>) -> int {
    inv_from(b, 0)
}

pub proof fn lemma_cnt_from_bounds(b: Seq<u16>, v: u16, j: int)
    ensures
        0 <= cnt_from(b, v, j),
        0 <= j <= b.len() ==> cnt_from(b, v, j) <= b.len() - j,
    decreases b.len() - j,
{
    if 0 <= j < b.len() {
        lemma_cnt_from_bounds(b, v, j + 1);
    }
}

pub proof fn lemma_inv_from_bounds(b: Seq<u16>, i: int)
    ensures
        0 <= inv_from(b, i),
        0 <= i <= b.len() ==> inv_from(b, i) <= (b.len() - i) * b.len(),
    decreases b.len() - i,
{
    let n = b.len() as int;
    if 0 <= i < b.len() {
        lemma_inv_from_bounds(b, i + 1);
        lemma_cnt_from_bounds(b, b[i], i + 1);
        assert((n - i) * n == (n - i - 1) * n + n) by (nonlinear_arith);
    }
}

/// `cnt_from` reads only the suffix it ranges over.
proof fn lemma_cnt_from_agree(b1: Seq<u16>, b2: Seq<u16>, v: u16, j: int)
    requires
        b1.len() == b2.len(),
        forall|k: int| j <= k < b1.len() ==> b1[k] == b2[k],
    ensures
        cnt_from(b1, v, j) == cnt_from(b2, v, j),
    decreases b1.len() - j,
{
    if 0 <= j < b1.len() {
        lemma_cnt_from_agree(b1, b2, v, j + 1);
    }
}

/// `inv_from` reads only the suffix it ranges over.
proof fn lemma_inv_from_agree(b1: Seq<u16>, b2: Seq<u16>, i: int)
    requires
        b1.len() == b2.len(),
        forall|k: int| i <= k < b1.len() ==> b1[k] == b2[k],
    ensures
        inv_from(b1, i) == inv_from(b2, i),
    decreases b1.len() - i,
{
    if 0 <= i < b1.len() {
        lemma_inv_from_agree(b1, b2, i + 1);
        lemma_cnt_from_agree(b1, b2, b1[i], i + 1);
    }
}

/// Exchanging two adjacent later tiles does not change what a fixed earlier
/// tile contributes.
proof fn lemma_cnt_swap_adjacent(b: Seq<u16>, p: int, v: u16, j: int)
    requires
        0 <= j <= p,
        p + 1 < b.len(),
    ensures
        cnt_from(swapped(b, p, p + 1), v, j) == cnt_from(b, v, j),
    decreases p - j,
{
    let b2 = swapped(b, p, p + 1);
    if j < p {
        lemma_cnt_swap_adjacent(b, p, v, j + 1);
    } else {
        assert(cnt_from(b2, v, p) == inv_pair(v, b2[p]) + cnt_from(b2, v, p + 1));
        assert(cnt_from(b2, v, p + 1) == inv_pair(v, b2[p + 1]) + cnt_from(b2, v, p + 2));
        assert(cnt_from(b, v, p) == inv_pair(v, b[p]) + cnt_from(b, v, p + 1));
        assert(cnt_from(b, v, p + 1) == inv_pair(v, b[p + 1]) + cnt_from(b, v, p + 2));
        lemma_cnt_from_agree(b2, b, v, p + 2);
    }
}

/// Exchanging two adjacent tiles changes the inversion count by exactly the
/// flip of their own pair.
proof fn lemma_inv_swap_adjacent(b: Seq<u16>, p: int, i: int)
    requires
        0 <= i <= p,
        p + 1 < b.len(),
    ensures
        inv_from(swapped(b, p, p + 1), i) - inv_from(b, i) == inv_pair(b[p + 1], b[p]) - inv_pair(
            b[p],
            b[p + 1],
        ),
    decreases p - i,
{
    let b2 = swapped(b, p, p + 1);
    if i < p {
        lemma_inv_swap_adjacent(b, p, i + 1);
        lemma_cnt_swap_adjacent(b, p, b[i], i + 1);
        assert(b2[i] == b[i]);
    } else {
        assert(inv_from(b, p) == cnt_from(b, b[p], p + 1) + inv_from(b, p + 1));
        assert(inv_from(b, p + 1) == cnt_from(b, b[p + 1], p + 2) + inv_from(b, p + 2));
        assert(inv_from(b2, p) == cnt_from(b2, b2[p], p + 1) + inv_from(b2, p + 1));
        assert(inv_from(b2, p + 1) == cnt_from(b2, b2[p + 1], p + 2) + inv_from(b2, p + 2));
        assert(b2[p] == b[p + 1] && b2[p + 1] == b[p]);
        assert(cnt_from(b, b[p], p + 1) == inv_pair(b[p], b[p + 1]) + cnt_from(b, b[p], p + 2));
        assert(cnt_from(b2, b[p + 1], p + 1) == inv_pair(b[p + 1], b[p]) + cnt_from(
            b2,
            b[p + 1],
            p + 2,
        ));
        lemma_cnt_from_agree(b2, b, b[p + 1], p + 2);
        lemma_cnt_from_agree(b2, b, b[p], p + 2);
        lemma_inv_from_agree(b2, b, p + 2);
    }
}

/// A swap keeps all values distinct.
proof fn lemma_swapped_distinct(b: Seq<u16>, x: int, y: int)
    requires
        0 <= x < b.len(),
        0 <= y < b.len(),
        forall|i: int, j: int| 0 <= i < j < b.len() ==> b[i] != b[j],
    ensures
        forall|i: int, j: int|
            0 <= i < j < b.len() ==> swapped(b, x, y)[i] != swapped(b, x, y)[j],
{
    let b2 = swapped(b, x, y);
    assert forall|i: int, j: int| 0 <= i < j < b.len() implies b2[i] != b2[j] by {
        let pi: int = if i == x { y } else if i == y { x } else { i };
        let pj: int = if j == x { y } else if j == y { x } else { j };
        assert(b2[i] == b[pi] && b2[j] == b[pj]);
        assert(pi != pj);
    }
}

/// Exchanging two distinct non-blank tiles flips the parity of the
/// inversion count, wherever they sit.
pub proof fn lemma_swap_flips_parity(b: Seq<u16>, p: int, q: int)
    requires
        0 <= p < q < b.len(),
        b[p] != 0,
        b[q] != 0,
        forall|i: int, j: int| 0 <= i < j < b.len() ==> b[i] != b[j],
    ensures
        (inv_count(swapped(b, p, q)) + inv_count(b)) % 2 == 1,
    decreases q - p,
{
    let bq = swapped(b, p, q);
    if q == p + 1 {
        lemma_inv_swap_adjacent(b, p, 0);
        let d = inv_pair(b[q], b[p]) - inv_pair(b[p], b[q]);
        assert(b[p] != b[q]);
        assert(d == 1 || d == -1);
        lemma_sum_with_unit_diff_is_odd(inv_count(b), inv_count(bq));
    } else {
        let s1 = swapped(b, p, p + 1);
        let s2 = swapped(s1, p + 1, q);
        let s3 = swapped(s2, p, p + 1);
        assert(s3 =~= bq);
        lemma_inv_swap_adjacent(b, p, 0);
        let d1 = inv_pair(b[p + 1], b[p]) - inv_pair(b[p], b[p + 1]);
        assert(inv_count(s1) == inv_count(b) + d1);
        lemma_swapped_distinct(b, p, p + 1);
        assert(s1[p + 1] == b[p] && s1[q] == b[q]);
        lemma_swap_flips_parity(s1, p + 1, q);
        assert((inv_count(s2) + inv_count(s1)) % 2 == 1);
        lemma_inv_swap_adjacent(s2, p, 0);
        let d3 = inv_pair(s2[p + 1], s2[p]) - inv_pair(s2[p], s2[p + 1]);
        assert(inv_count(s3) == inv_count(s2) + d3);
        assert(s2[p] == b[p + 1] && s2[p + 1] == b[q]);
        assert(d1 == 0 <==> b[p + 1] == 0);
        assert(d3 == 0 <==> b[p + 1] == 0);
        assert(d1 == 1 || d1 == -1 || d1 == 0);
        assert(d3 == 1 || d3 == -1 || d3 == 0);
        lemma_parity_carries(inv_count(s1), inv_count(s2), inv_count(b), inv_count(s3), d1, d3);
    }
}

/// Two numbers that differ by exactly one have an odd sum.
proof fn lemma_sum_with_unit_diff_is_odd(a: int, c: int)
    requires
        c == a + 1 || c == a - 1,
    ensures
        (c + a) % 2 == 1,
{
    if c == a + 1 {
        lemma_mod_multiples_vanish(a, 1, 2);
    } else {
        lemma_mod_multiples_vanish(a - 1, 1, 2);
    }
}

/// If the middle pair has odd sum and the ends differ from the middle by
/// unit steps that are both zero or both non-zero, the ends have odd sum.
proof fn lemma_parity_carries(m1: int, m2: int, a: int, c: int, d1: int, d3: int)
    requires
        (m2 + m1) % 2 == 1,
        m1 == a + d1,
        c == m2 + d3,
        d1 == -1 || d1 == 0 || d1 == 1,
        d3 == -1 || d3 == 0 || d3 == 1,
        d1 == 0 <==> d3 == 0,
    ensures
        (c + a) % 2 == 1,
{
    let s = m2 + m1;
    let t = c + a;
    assert(t == s + d3 - d1);
    assert(t == s - 2 || t == s || t == s + 2);
    lemma_fundamental_div_mod(s, 2);
    lemma_mod_bound(s, 2);
    if t == s - 2 {
        lemma_mod_multiples_vanish(s / 2 - 1, 1, 2);
    } else if t == s {
    } else {
        lemma_mod_multiples_vanish(s / 2 + 1, 1, 2);
    }
}

/// The blank's flat position is unchanged by a swap of two non-blank tiles.
proof fn lemma_first_zero_swap(b: Seq<u16>, p: int, q: int)
    requires
        0 <= p < b.len(),
        0 <= q < b.len(),
        b[p] != 0,
        b[q] != 0,
    ensures
        first_zero(swapped(b, p, q)) == first_zero(b),
{
    lemma_first_zero_same_pattern(swapped(b, p, q), b);
}

/// `first_zero` depends only on where the blanks sit.
proof fn lemma_first_zero_same_pattern(b1: Seq<u16>, b2: Seq<u16>)
    requires
        b1.len() == b2.len(),
        forall|k: int| 0 <= k < b1.len() ==> ((#[trigger] b1[k]) == 0 <==> b2[k] == 0),
    ensures
        first_zero(b1) == first_zero(b2),
    decreases b1.len(),
{
    if b1.len() > 0 && b1[0] != 0 {
        let t1 = b1.drop_first();
        let t2 = b2.drop_first();
        assert forall|k: int| 0 <= k < t1.len() implies ((#[trigger] t1[k]) == 0 <==> t2[k]
            == 0) by {
            assert(t1[k] == b1[k + 1] && t2[k] == b2[k + 1]);
        }
        lemma_first_zero_same_pattern(t1, t2);
    }
}

/// The row adjustment applied to the inversion count before comparing
/// parities: on even-sided boards the blank's row takes part, on odd-sided
/// boards it does not.
pub open spec fn parity_adjust(b: Seq<u16>, size: u16) -> int {
    if size % 2 == 0 {
        first_zero(b) / (size as int)
    } else {
        0
    }
}

/// The solvability test: a board can reach the solved board of its size
/// exactly when their adjusted inversion counts have equal parity.
pub open spec fn spec_solvable(b: Seq<u16>, size: u16) -> bool {
    let g = solved_board(size as int);
    (inv_count(b) + parity_adjust(b, size)) % 2 == (inv_count(g) + parity_adjust(g, size)) % 2
}

/// Exchanging two non-blank tiles of a well-formed board flips the outcome
/// of the solvability test: in particular any such swap of the solved board
/// (which trivially passes the test) produces an unsolvable one.
pub proof fn lemma_swap_breaks_solvability(b: Seq<u16>, size: u16, p: int, q: int)
    requires
        board_wf(b, size),
        0 <= p < q < b.len(),
        b[p] != 0,
        b[q] != 0,
    ensures
        spec_solvable(swapped(b, p, q), size) == !spec_solvable(b, size),
{
    let b2 = swapped(b, p, q);
    lemma_swap_flips_parity(b, p, q);
    lemma_first_zero_swap(b, p, q);
    let x = inv_count(b2) + parity_adjust(b2, size);
    let y = inv_count(b) + parity_adjust(b, size);
    assert((x + y) % 2 == 1) by {
        assert(parity_adjust(b2, size) == parity_adjust(b, size));
        let s = inv_count(b2) + inv_count(b);
        let c = parity_adjust(b, size);
        assert(x + y == s + 2 * c);
        lemma_fundamental_div_mod(s, 2);
        lemma_mod_bound(s, 2);
        lemma_mod_multiples_vanish(s / 2 + c, s % 2, 2);
        assert((s + 2 * c) % 2 == s % 2) by {
            assert(s + 2 * c == 2 * (s / 2 + c) + s % 2);
        }
    }
    lemma_odd_sum_parities_differ(x, y);
    let g = solved_board(size as int);
    lemma_mod_bound(x, 2);
    lemma_mod_bound(y, 2);
    lemma_mod_bound(inv_count(g) + parity_adjust(g, size), 2);
}

/// An odd sum means the two parities differ.
proof fn lemma_odd_sum_parities_differ(x: int, y: int)
    requires
        (x + y) % 2 == 1,
    ensures
        x % 2 != y % 2,
{
    lemma_fundamental_div_mod(x, 2);
    lemma_fundamental_div_mod(y, 2);
    lemma_mod_bound(x, 2);
    lemma_mod_bound(y, 2);
    if x % 2 == y % 2 {
        lemma_mod_multiples_vanish(x / 2 + y / 2 + (x % 2), 0, 2);
        assert(x + y == 2 * (x / 2 + y / 2 + (x % 2)) + 0);
    }
}

} // verus!
