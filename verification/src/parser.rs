//! Validation of a parsed board: the rows must form a square of the stated
//! size and the cells must be exactly the values `0 .. size * size`, each
//! once.  Reading the text itself is the caller's concern.

use crate::heuristic::lemma_point_of_bounds;
use crate::map::{board_wf, Board};
use crate::state::lemma_coord_index;
use vstd::pervasive::VecAdditionalExecFns;
use vstd::prelude::*;

verus! {

/// The sequences of tile values of each parsed row.
pub open spec fn rows_of(board: Seq<Vec<u16>>) -> Seq<Seq<u16>> {
    Seq::new(board.len(), |k: int| board[k]@)
}

/// `size` rows of `size` cells each.
pub open spec fn rows_square(rows: Seq<Seq<u16>>, size: u16) -> bool {
    &&& rows.len() == size
    &&& forall|k: int| 0 <= k < rows.len() ==> (#[trigger] rows[k]).len() == size
}

/// Every cell value lies below `total`.
pub open spec fn rows_in_range(rows: Seq<Seq<u16>>, total: int) -> bool {
    forall|k: int, c: int|
        0 <= k < rows.len() && 0 <= c < rows[k].len() ==> (#[trigger] rows[k][c]) < total
}

/// No two cells carry the same value.
pub open spec fn rows_distinct(rows: Seq<Seq<u16>>) -> bool {
    forall|k1: int, c1: int, k2: int, c2: int|
        0 <= k1 < rows.len() && 0 <= c1 < rows[k1].len() && 0 <= k2 < rows.len() && 0 <= c2
            < rows[k2].len() && (k1 != k2 || c1 != c2) ==> rows[k1][c1] != rows[k2][c2]
}

/// Some cell carries the value `v`.
pub open spec fn rows_contain(rows: Seq<Seq<u16>>, v: int) -> bool {
    exists|k: int, c: int| 0 <= k < rows.len() && 0 <= c < rows[k].len() && (#[trigger] rows[k][c]) == v
}

/// Every value below `total` occurs in some cell.
pub open spec fn rows_cover(rows: Seq<Seq<u16>>, total: int) -> bool {
    forall|v: int| 0 <= v < total ==> rows_contain(rows, v)
}

/// Accepts a parsed grid exactly when it is a `size` by `size` square whose
/// cells are the values `0 .. size * size`, each exactly once, and returns
/// it flattened row-major; otherwise reports what was wrong.
pub fn validate_map(size: u16, board: Vec<Vec<u16>>) -> (r: Result<Board, &'static str>)
    requires
        size * size <= u16::MAX,
    ensures
        (r is Ok) <==> (rows_square(rows_of(board@), size) && rows_in_range(
            rows_of(board@),
            size * size,
        ) && rows_distinct(rows_of(board@)) && rows_cover(rows_of(board@), size * size)),
        r matches Ok(m) ==> {
            &&& m.size == size
            &&& m.board@.len() == size * size
            &&& forall|k: int, c: int|
                0 <= k < size && 0 <= c < size ==> m.board@[k * size + c] == rows_of(
                    board@,
                )[k][c]
            &&& size >= 2 ==> board_wf(m.board@, size)
        },
{
    let ghost rows = rows_of(board@);
    let total: usize = (size * size) as usize;
    if board.len() != size as usize {
        return Err("Board has invalid size");
    }
    let mut flat: Vec<u16> = Vec::new();
    let mut validator: Vec<bool> = Vec::new();
    let mut v0: usize = 0;
    while v0 < total
        invariant
            validator@.len() == v0 <= total,
            forall|w: int| 0 <= w < v0 ==> !(#[trigger] validator@[w]),
        decreases total - v0,
    {
        validator.push(false);
        v0 += 1;
    }
    let mut k: usize = 0;
    while k < size as usize
        invariant
            0 <= k <= size,
            rows == rows_of(board@),
            rows.len() == size,
            board@.len() == size,
            total == size * size,
            total <= u16::MAX,
            forall|k1: int| 0 <= k1 < k ==> (#[trigger] rows[k1]).len() == size,
            flat@.len() == k * size,
            validator@.len() == total,
            forall|k1: int, c1: int|
                0 <= k1 < k && 0 <= c1 < size ==> flat@[k1 * size + c1] == rows[k1][c1],
            forall|i: int, j: int| 0 <= i < j < flat@.len() ==> flat@[i] != flat@[j],
            forall|i: int| 0 <= i < flat@.len() ==> (#[trigger] flat@[i]) < total,
            forall|w: int|
                0 <= w < total ==> ((#[trigger] validator@[w]) <==> exists|k1: int, c1: int|
                    0 <= k1 < k && 0 <= c1 < size && (#[trigger] rows[k1][c1]) == w),
        decreases size - k,
    {
        if board[k].len() != size as usize {
            proof {
                assert(rows[k as int].len() != size);
            }
            return Err("Board has invalid size");
        }
        let mut c: usize = 0;
        while c < size as usize
            invariant
                0 <= c <= size,
                0 <= k < size,
                rows == rows_of(board@),
                rows.len() == size,
                board@.len() == size,
                total == size * size,
                total <= u16::MAX,
                rows[k as int].len() == size,
                forall|k1: int| 0 <= k1 < k ==> (#[trigger] rows[k1]).len() == size,
                flat@.len() == k * size + c,
                validator@.len() == total,
                forall|k1: int, c1: int|
                    0 <= k1 < k && 0 <= c1 < size ==> flat@[k1 * size + c1] == rows[k1][c1],
                forall|c1: int| 0 <= c1 < c ==> flat@[k * size + c1] == rows[k as int][c1],
                forall|i: int, j: int| 0 <= i < j < flat@.len() ==> flat@[i] != flat@[j],
                forall|i: int| 0 <= i < flat@.len() ==> (#[trigger] flat@[i]) < total,
                forall|w: int|
                    0 <= w < total ==> ((#[trigger] validator@[w]) <==> exists|k1: int, c1: int|
                        0 <= k1 < rows.len() && 0 <= c1 < rows[k1].len() && (k1 < k || (k1 == k
                            && c1 < c)) && (#[trigger] rows[k1][c1]) == w),
            decreases size - c,
        {
            proof {
                lemma_coord_index(k as int, c as int, size as int);
                assert((k as int) * (size as int) + c + 1 <= (size as int) * (size as int))
                    by (nonlinear_arith)
                    requires
                        0 <= k < size,
                        0 <= c < size,
                ;
            }
            let item = board[k][c];
            if item as usize >= total {
                proof {
                    assert(rows[k as int][c as int] == item);
                }
                return Err("Invalid value in board");
            }
            if validator[item as usize] {
                proof {
                    let (k1, c1) = choose|k1: int, c1: int|
                        0 <= k1 < rows.len() && 0 <= c1 < rows[k1].len() && (k1 < k || (k1 == k
                            && c1 < c)) && rows[k1][c1] == item as int;
                    assert(rows[k1][c1] == rows[k as int][c as int]);
                    assert(k1 != k || c1 != c);
                }
                return Err("Invalid Board");
            }
            validator.set(item as usize, true);
            proof {
                assert forall|i: int| 0 <= i < flat@.len() implies flat@[i] != item by {
                    let ki = i / (size as int);
                    let ci = i % (size as int);
                    lemma_point_of_bounds(i, size);
                    vstd::arithmetic::div_mod::lemma_fundamental_div_mod(i, size as int);
                    vstd::arithmetic::mul::lemma_mul_is_commutative(ki, size as int);
                    assert(ki * size + ci == i);
                    assert(ki * (size as int) < (k as int) * (size as int) + c + 1)
                        by (nonlinear_arith)
                        requires
                            ki * (size as int) + ci == i,
                            i < (k as int) * (size as int) + c,
                            0 <= ci,
                    ;
                    assert(ki <= k) by (nonlinear_arith)
                        requires
                            ki * (size as int) < (k as int) * (size as int) + c + 1,
                            0 <= c < size,
                            0 < size,
                    ;
                    assert(ki < k || (ki == k && ci < c)) by (nonlinear_arith)
                        requires
                            ki * (size as int) + ci == i,
                            i < (k as int) * (size as int) + c,
                            ki <= k,
                    ;
                    if ki < k {
                        assert(flat@[ki * size + ci] == rows[ki][ci]);
                    } else {
                        assert(flat@[k * size + ci] == rows[k as int][ci]);
                    }
                }
            }
            flat.push(item);
            proof {
                assert forall|k1: int, c1: int|
                    0 <= k1 < k && 0 <= c1 < size implies flat@[k1 * size + c1]
                    == rows[k1][c1] by {
                    assert(k1 * (size as int) + c1 < (k as int) * (size as int))
                        by (nonlinear_arith)
                        requires
                            0 <= k1 < k,
                            0 <= c1 < size,
                            0 < size,
                    ;
                }
            }
            c += 1;
            proof {
                assert forall|w: int|
                    0 <= w < total implies ((#[trigger] validator@[w]) <==> exists|k1: int, c1: int|
                        0 <= k1 < rows.len() && 0 <= c1 < rows[k1].len() && (k1 < k || (k1 == k
                            && c1 < c)) && (#[trigger] rows[k1][c1]) == w) by {
                    if w == item as int {
                        assert(rows[k as int][c - 1] == w);
                    }
                }
            }
        }
        k += 1;
        proof {
            assert((k as int) * (size as int) == (k - 1) * (size as int) + size)
                by (nonlinear_arith);
        }
    }
    let mut v: usize = 0;
    while v < total
        invariant
            0 <= v <= total,
            validator@.len() == total,
            rows == rows_of(board@),
            rows.len() == size,
            total == size * size,
            forall|w: int|
                0 <= w < total ==> ((#[trigger] validator@[w]) <==> exists|k1: int, c1: int|
                    0 <= k1 < rows.len() && 0 <= c1 < rows[k1].len() && (#[trigger] rows[k1][c1])
                        == w),
            forall|w: int| 0 <= w < v ==> validator@[w],
            forall|k1: int| 0 <= k1 < rows.len() ==> (#[trigger] rows[k1]).len() == size,
            flat@.len() == size * size,
            forall|k1: int, c1: int|
                0 <= k1 < size && 0 <= c1 < size ==> flat@[k1 * size + c1] == rows[k1][c1],
            forall|i: int, j: int| 0 <= i < j < flat@.len() ==> flat@[i] != flat@[j],
            forall|i: int| 0 <= i < flat@.len() ==> (#[trigger] flat@[i]) < total,
        decreases total - v,
    {
        if !validator[v] {
            proof {
                assert(!rows_contain(rows, v as int));
            }
            return Err("Invalid Board");
        }
        v += 1;
    }
    proof {
        assert forall|k1: int, c1: int|
            0 <= k1 < rows.len() && 0 <= c1 < rows[k1].len() implies (#[trigger] rows[k1][c1])
            < (size as int) * (size as int) by {
            lemma_coord_index(k1, c1, size as int);
            assert(flat@[k1 * size + c1] == rows[k1][c1]);
        }
        assert forall|k1: int, c1: int, k2: int, c2: int|
            0 <= k1 < rows.len() && 0 <= c1 < rows[k1].len() && 0 <= k2 < rows.len() && 0 <= c2
                < rows[k2].len() && (k1 != k2 || c1 != c2) implies rows[k1][c1] != rows[k2][c2] by {
            lemma_coord_index(k1, c1, size as int);
            lemma_coord_index(k2, c2, size as int);
            assert(k1 * (size as int) + c1 != k2 * (size as int) + c2) by (nonlinear_arith)
                requires
                    0 <= c1 < size,
                    0 <= c2 < size,
                    k1 != k2 || c1 != c2,
            ;
            assert(flat@[k1 * size + c1] == rows[k1][c1] && flat@[k2 * size + c2]
                == rows[k2][c2]);
        }
        assert forall|w: int| 0 <= w < (size as int) * (size as int) implies rows_contain(
            rows,
            w,
        ) by {
            assert(validator@[w]);
        }
        if size >= 2 {
            assert((size as int) * (size as int) >= 4) by (nonlinear_arith)
                requires
                    size >= 2,
            ;
            assert(size <= 255) by (nonlinear_arith)
                requires
                    size * size <= 65535,
                    size >= 2,
            ;
            assert(validator@[0]);
            assert(rows_contain(rows, 0));
            let z = choose|k1: int, c1: int|
                0 <= k1 < rows.len() && 0 <= c1 < rows[k1].len() && (#[trigger] rows[k1][c1])
                    == 0;
            lemma_coord_index(z.0, z.1, size as int);
            assert(flat@[z.0 * size + z.1] == 0);
        }
    }
    Ok(Board { size, board: flat })
}

} // verus!
